//! What the Merkle root commits to.
//!
//! Nothing is assumed of SHA-256 here. The laws speak of the byte strings that are hashed
//! when the tree is built and when a proof is followed: as long as no two different ones
//! among them have the same digest, only the agents of the tree are accepted, with the
//! siblings that the tree has, and the root tells how many agents there are.
use vstd::prelude::*;

use crate::digest::sha256;
use crate::merkle::{
    climb, copath, hashed, leaf, leaves, lemma_climb_copath, lemma_copath_size, lemma_tree_bottom,
    pair, parents, sibling, tree, Merkle,
};
use crate::message::{
    agent_statement, lemma_agent_statement_injective, lemma_agent_statement_short,
};
use crate::scheme::LivenessScheme;

verus! {

/// The byte strings of the pairs of one layer.
pub open spec fn layer_inputs(layer: Seq<[u8; 32]>) -> Set<Seq<u8>> {
    Set::new(
        |x: Seq<u8>|
            exists|i: int| 0 <= i < parents(layer).len() && x == #[trigger] pair(layer, i),
    )
}

/// The byte strings that are hashed to build the layers above `layer`.
pub open spec fn tree_inputs(layer: Seq<[u8; 32]>) -> Set<Seq<u8>>
    decreases layer.len(),
{
    if layer.len() <= 1 {
        Set::empty()
    } else {
        layer_inputs(layer).union(tree_inputs(parents(layer)))
    }
}

/// The agents' statements for `n` agents.
pub open spec fn statements(n: usize) -> Set<Seq<u8>> {
    Set::new(|x: Seq<u8>| exists|i: usize| i < n && x == #[trigger] agent_statement(i))
}

/// The byte strings that are hashed to set up the tree of `n` agents.
pub open spec fn setup_inputs(n: usize) -> Set<Seq<u8>> {
    statements(n).union(tree_inputs(leaves(n)))
}

/// The byte strings that are hashed to follow the records of `proof` from `acc`.
pub open spec fn climb_inputs(acc: [u8; 32], proof: Seq<u8>) -> Set<Seq<u8>>
    decreases proof.len(),
{
    if proof.len() < 33 {
        Set::empty()
    } else {
        let x = hashed(acc, proof);
        climb_inputs(sha256(x), proof.skip(33)).insert(x)
    }
}

/// The byte strings that are hashed to verify a proof for an agent.
pub open spec fn verify_inputs(agent: usize, proof: Seq<u8>) -> Set<Seq<u8>> {
    climb_inputs(leaf(agent), proof).insert(agent_statement(agent))
}

/// No two different ones among the byte strings have the same digest.
pub open spec fn no_collision(all: Set<Seq<u8>>) -> bool {
    forall|x: Seq<u8>, y: Seq<u8>|
        #![trigger all.contains(x), all.contains(y)]
        all.contains(x) && all.contains(y) && sha256(x) == sha256(y) ==> x == y
}

// The laws -----------------------------------------------------------------------

/// Whatever bytes come with it, an agent that was not committed is not accepted, and
/// neither is a proof with more or fewer records than the tree has levels.
pub proof fn lemma_only_members(s: &Merkle, n: usize, agent: usize, proof: Seq<u8>)
    requires
        n >= 1,
        s.wf(),
        s.layers() == tree(leaves(n)),
        s.accepts(agent, proof),
        no_collision(setup_inputs(n).union(verify_inputs(agent, proof))),
    ensures
        agent < n,
        proof.len() / 33 == s.depth(),
{
    lemma_only_leaves(n, agent, proof);
}

/// An accepted proof carries the siblings that the agent's own proof has, so one with a
/// changed sibling byte is refused.
pub proof fn lemma_honest_siblings(s: &Merkle, n: usize, agent: usize, proof: Seq<u8>)
    requires
        n >= 1,
        s.wf(),
        s.layers() == tree(leaves(n)),
        s.accepts(agent, proof),
        no_collision(setup_inputs(n).union(verify_inputs(agent, proof))),
    ensures
        forall|k: int|
            0 <= k < s.depth() ==> #[trigger] proof.subrange(33 * k + 1, 33 * k + 33)
                == s.proof_of(agent).subrange(33 * k + 1, 33 * k + 33),
{
    let layers = tree(leaves(n));
    let acc = leaf(agent);
    lemma_only_leaves(n, agent, proof);
    lemma_tree_bottom(leaves(n));
    lemma_fewer_inputs(
        setup_inputs(n).union(climb_inputs(acc, proof)),
        setup_inputs(n).union(verify_inputs(agent, proof)),
    );
    assert(layers.skip(0) =~= layers);
    lemma_siblings(n, 0, agent as nat, proof);
}

/// The root tells the number of agents.
pub proof fn lemma_root_tells_count(m: usize, n: usize)
    requires
        m >= 1,
        n >= 1,
        no_collision(setup_inputs(m).union(setup_inputs(n))),
    ensures
        tree(leaves(m)).last()[0] == tree(leaves(n)).last()[0] <==> m == n,
{
    if tree(leaves(m)).last()[0] == tree(leaves(n)).last()[0] {
        if m < n {
            lemma_root_holds(m, n);
        } else if n < m {
            assert(setup_inputs(n).union(setup_inputs(m)) =~= setup_inputs(m).union(
                setup_inputs(n),
            ));
            lemma_root_holds(n, m);
        }
    }
}

/// Two proofs have the same length and tell the same side at every level.
pub open spec fn same_way(p: Seq<u8>, q: Seq<u8>) -> bool
    decreases p.len(),
{
    &&& p.len() == q.len()
    &&& p.len() >= 33 ==> p[0] % 2 == q[0] % 2 && same_way(p.skip(33), q.skip(33))
}

/// At some level, the climb from `a` by `p` and the one from `b` by `q` hash different
/// bytes to the same digest.
pub open spec fn clash(a: [u8; 32], p: Seq<u8>, b: [u8; 32], q: Seq<u8>) -> bool
    decreases p.len(),
{
    let (x, y) = (hashed(a, p), hashed(b, q));
    p.len() >= 33 && q.len() >= 33 && {
        ||| x != y && sha256(x) == sha256(y)
        ||| clash(sha256(x), p.skip(33), sha256(y), q.skip(33))
    }
}

/// The root commits the agents to their places: a proof that has an agent `j` accepted
/// in the place of another agent `i` shows two different byte strings with the same
/// digest, either the two agents' statements or what is hashed at some level above.
pub proof fn lemma_root_commits(s: &Merkle, i: usize, j: usize, proof: Seq<u8>)
    requires
        s.wf(),
        s.covers(i),
        s.accepts(j, proof),
        same_way(proof, s.proof_of(i)),
    ensures
        ({
            ||| i == j
            ||| agent_statement(i) != agent_statement(j) && leaf(i) == leaf(j)
            ||| clash(leaf(j), proof, leaf(i), s.proof_of(i))
        }),
{
    s.lemma_complete(i);
    lemma_climb_binding(leaf(j), proof, leaf(i), s.proof_of(i));
    if agent_statement(i) == agent_statement(j) {
        lemma_agent_statement_injective(i, j);
    }
}

/// Every agent has a place of its own: no two proofs go the same way.
pub proof fn lemma_own_place(s: &Merkle, i: usize, j: usize)
    requires
        s.wf(),
        s.covers(i),
        s.covers(j),
        same_way(s.proof_of(i), s.proof_of(j)),
    ensures
        i == j,
{
    lemma_copath_way(s.layers()[0], i as nat, j as nat);
}

proof fn lemma_copath_way(layer: Seq<[u8; 32]>, i: nat, j: nat)
    requires
        i < layer.len(),
        j < layer.len(),
        same_way(copath(tree(layer), i), copath(tree(layer), j)),
    ensures
        i == j,
    decreases layer.len(),
{
    if layer.len() > 1 {
        let up = parents(layer);
        assert(tree(layer).drop_first() =~= tree(up));
        lemma_tree_bottom(up);
        assert(copath(tree(layer), i).skip(33) =~= copath(tree(up), i / 2));
        assert(copath(tree(layer), j).skip(33) =~= copath(tree(up), j / 2));
        assert(copath(tree(layer), i)[0] == i % 2);
        assert(copath(tree(layer), j)[0] == j % 2);
        lemma_copath_way(up, i / 2, j / 2);
    }
}

proof fn lemma_climb_binding(a: [u8; 32], p: Seq<u8>, b: [u8; 32], q: Seq<u8>)
    requires
        same_way(p, q),
        climb(a, p) == climb(b, q),
    ensures
        a == b || clash(a, p, b, q),
    decreases p.len(),
{
    if p.len() >= 33 {
        let (x, y) = (hashed(a, p), hashed(b, q));
        lemma_climb_binding(sha256(x), p.skip(33), sha256(y), q.skip(33));
        if x == y {
            if p[0] % 2 == 0 {
                assert(a@ =~= x.take(32) && b@ =~= y.take(32));
            } else {
                assert(a@ =~= x.skip(32) && b@ =~= y.skip(32));
            }
            assert(a =~= b);
        }
    }
}

// How the laws are proved --------------------------------------------------------

/// What holds of more byte strings holds of fewer.
proof fn lemma_fewer_inputs(some: Set<Seq<u8>>, all: Set<Seq<u8>>)
    requires
        no_collision(all),
        some.subset_of(all),
    ensures
        no_collision(some),
{
    assert forall|x: Seq<u8>, y: Seq<u8>|
        #![trigger some.contains(x), some.contains(y)]
        some.contains(x) && some.contains(y) && sha256(x) == sha256(y) implies x == y by {
        assert(all.contains(x) && all.contains(y));
    }
}

/// Each layer of a tree is made of the pairs of the one below it.
proof fn lemma_tree_step(bottom: Seq<[u8; 32]>, k: int)
    requires
        bottom.len() >= 1,
        0 <= k < tree(bottom).len() - 1,
    ensures
        tree(bottom)[k].len() > 1,
        tree(bottom)[k + 1] == parents(tree(bottom)[k]),
        layer_inputs(tree(bottom)[k]).subset_of(tree_inputs(bottom)),
    decreases bottom.len(),
{
    let up = parents(bottom);
    lemma_tree_bottom(up);
    if k > 0 {
        lemma_tree_step(up, k - 1);
        assert(tree(bottom)[k] == tree(up)[k - 1]);
        assert(tree(bottom)[k + 1] == tree(up)[k]);
    } else {
        assert(tree(bottom)[1] == tree(up)[0]);
    }
}

/// A digest above the leaves is that of a pair.
proof fn lemma_inner_digest(n: usize, k: int, d: [u8; 32]) -> (i: int)
    requires
        n >= 1,
        0 < k < tree(leaves(n)).len(),
        tree(leaves(n))[k].contains(d),
    ensures
        0 <= i < tree(leaves(n))[k].len(),
        tree(leaves(n))[k][i] == d,
        tree(leaves(n))[k] == parents(tree(leaves(n))[k - 1]),
        d == sha256(pair(tree(leaves(n))[k - 1], i)),
        setup_inputs(n).contains(pair(tree(leaves(n))[k - 1], i)),
        pair(tree(leaves(n))[k - 1], i).len() == 64,
{
    let below = tree(leaves(n))[k - 1];
    lemma_tree_step(leaves(n), k - 1);
    let i = choose|i: int| 0 <= i < tree(leaves(n))[k].len() && tree(leaves(n))[k][i] == d;
    assert(layer_inputs(below).contains(pair(below, i)));
    i
}

/// A digest among the leaves is that of an agent's statement.
proof fn lemma_leaf_digest(n: usize, d: [u8; 32]) -> (agent: usize)
    requires
        n >= 1,
        tree(leaves(n))[0].contains(d),
    ensures
        agent < n,
        d == leaf(agent),
        setup_inputs(n).contains(agent_statement(agent)),
        agent_statement(agent).len() < 64,
{
    lemma_tree_bottom(leaves(n));
    let i = choose|i: int| 0 <= i < leaves(n).len() && leaves(n)[i] == d;
    let agent = i as usize;
    lemma_agent_statement_short(agent);
    assert(statements(n).contains(agent_statement(agent)));
    agent
}

/// A digest from which `r` records lead to the root is in the `r`-th layer below it.
proof fn lemma_trace(n: usize, acc: [u8; 32], proof: Seq<u8>)
    requires
        n >= 1,
        climb(acc, proof) == tree(leaves(n)).last()[0],
        no_collision(setup_inputs(n).union(climb_inputs(acc, proof))),
    ensures
        proof.len() / 33 < tree(leaves(n)).len(),
        tree(leaves(n))[tree(leaves(n)).len() - 1 - proof.len() / 33].contains(acc),
    decreases proof.len(),
{
    let layers = tree(leaves(n));
    let all = setup_inputs(n).union(climb_inputs(acc, proof));
    lemma_tree_bottom(leaves(n));
    if proof.len() < 33 {
        lemma_top(leaves(n));
        assert(layers.last().contains(layers.last()[0]));
    } else {
        let x = hashed(acc, proof);
        let next = sha256(x);
        let rest = proof.skip(33);
        assert(proof.len() / 33 == rest.len() / 33 + 1);
        lemma_fewer_inputs(setup_inputs(n).union(climb_inputs(next, rest)), all);
        lemma_trace(n, next, rest);
        let k = layers.len() - 1 - rest.len() / 33;
        assert(all.contains(x));
        if k == 0 {
            let agent = lemma_leaf_digest(n, next);
            assert(all.contains(agent_statement(agent)));
            assert(x == agent_statement(agent));
            assert(false);
        } else {
            let i = lemma_inner_digest(n, k, next);
            let below = layers[k - 1];
            assert(all.contains(pair(below, i)));
            assert(x == pair(below, i));
            lemma_halves(acc, proof, below, i);
        }
    }
}

/// A digest that is hashed as one of a pair is in the layer of the pair.
proof fn lemma_halves(acc: [u8; 32], proof: Seq<u8>, layer: Seq<[u8; 32]>, i: int)
    requires
        proof.len() >= 33,
        0 <= i < parents(layer).len(),
        hashed(acc, proof) == pair(layer, i),
    ensures
        proof[0] % 2 == 0 ==> acc == layer[2 * i],
        proof[0] % 2 == 0 && 2 * i + 1 < layer.len() ==> proof.subrange(1, 33) == layer[2 * i + 1]@,
        proof[0] % 2 == 0 && 2 * i + 1 >= layer.len() ==> proof.subrange(1, 33) == layer[2 * i]@,
        proof[0] % 2 == 1 ==> proof.subrange(1, 33) == layer[2 * i]@,
        proof[0] % 2 == 1 && 2 * i + 1 < layer.len() ==> acc == layer[2 * i + 1],
        proof[0] % 2 == 1 && 2 * i + 1 >= layer.len() ==> acc == layer[2 * i],
        layer.contains(acc),
{
    let x = hashed(acc, proof);
    let sib = proof.subrange(1, 33);
    let left = layer[2 * i];
    let right = layer[if 2 * i + 1 < layer.len() {
        2 * i + 1
    } else {
        2 * i
    }];
    assert(left@ =~= x.take(32));
    assert(right@ =~= x.skip(32));
    if proof[0] % 2 == 0 {
        assert(acc@ =~= x.take(32));
        assert(sib =~= x.skip(32));
        assert(acc =~= left);
    } else {
        assert(sib =~= x.take(32));
        assert(acc@ =~= x.skip(32));
        assert(acc =~= right);
    }
}

/// The topmost layer holds the root alone.
proof fn lemma_top(layer: Seq<[u8; 32]>)
    requires
        layer.len() >= 1,
    ensures
        tree(layer).last().len() == 1,
    decreases layer.len(),
{
    if layer.len() > 1 {
        lemma_top(parents(layer));
        lemma_tree_bottom(parents(layer));
        assert(tree(layer).last() == tree(parents(layer)).last());
    }
}

/// An agent whose leaf leads to the root is one of the leaves, by as many records as the
/// tree has levels.
proof fn lemma_only_leaves(n: usize, agent: usize, proof: Seq<u8>)
    requires
        n >= 1,
        climb(leaf(agent), proof) == tree(leaves(n)).last()[0],
        no_collision(setup_inputs(n).union(verify_inputs(agent, proof))),
    ensures
        agent < n,
        proof.len() / 33 == tree(leaves(n)).len() - 1,
{
    let acc = leaf(agent);
    let all = setup_inputs(n).union(verify_inputs(agent, proof));
    lemma_fewer_inputs(setup_inputs(n).union(climb_inputs(acc, proof)), all);
    lemma_trace(n, acc, proof);
    lemma_agent_statement_short(agent);
    assert(all.contains(agent_statement(agent)));
    let k = tree(leaves(n)).len() - 1 - proof.len() / 33;
    if k > 0 {
        let i = lemma_inner_digest(n, k, acc);
        assert(all.contains(pair(tree(leaves(n))[k - 1], i)));
        assert(false);
    }
    let member = lemma_leaf_digest(n, acc);
    assert(all.contains(agent_statement(member)));
    lemma_agent_statement_injective(agent, member);
}

/// The digests of a layer are all different.
proof fn lemma_layer_distinct(n: usize, k: int, i: int, j: int)
    requires
        n >= 1,
        0 <= k < tree(leaves(n)).len(),
        0 <= i < tree(leaves(n))[k].len(),
        0 <= j < tree(leaves(n))[k].len(),
        tree(leaves(n))[k][i] == tree(leaves(n))[k][j],
        no_collision(setup_inputs(n)),
    ensures
        i == j,
    decreases k,
{
    lemma_tree_bottom(leaves(n));
    let all = setup_inputs(n);
    if k == 0 {
        let (a, b) = (i as usize, j as usize);
        assert(statements(n).contains(agent_statement(a)));
        assert(statements(n).contains(agent_statement(b)));
        assert(all.contains(agent_statement(a)) && all.contains(agent_statement(b)));
        lemma_agent_statement_injective(a, b);
    } else {
        let below = tree(leaves(n))[k - 1];
        lemma_tree_step(leaves(n), k - 1);
        let (x, y) = (pair(below, i), pair(below, j));
        assert(layer_inputs(below).contains(x) && layer_inputs(below).contains(y));
        assert(all.contains(x) && all.contains(y));
        assert(below[2 * i]@ =~= x.take(32));
        assert(below[2 * j]@ =~= y.take(32));
        assert(below[2 * i] =~= below[2 * j]);
        lemma_layer_distinct(n, k - 1, 2 * i, 2 * j);
    }
}

/// A proof that leads from position `a` of layer `k` to the root has the siblings of the
/// copath from there.
proof fn lemma_siblings(n: usize, k: int, a: nat, proof: Seq<u8>)
    requires
        n >= 1,
        0 <= k < tree(leaves(n)).len(),
        a < tree(leaves(n))[k].len(),
        proof.len() / 33 == tree(leaves(n)).len() - 1 - k,
        climb(tree(leaves(n))[k][a as int], proof) == tree(leaves(n)).last()[0],
        no_collision(setup_inputs(n).union(climb_inputs(tree(leaves(n))[k][a as int], proof))),
    ensures
        forall|j: int|
            0 <= j < proof.len() / 33 ==> #[trigger] proof.subrange(33 * j + 1, 33 * j + 33)
                == copath(tree(leaves(n)).skip(k), a).subrange(33 * j + 1, 33 * j + 33),
    decreases proof.len(),
{
    let layers = tree(leaves(n));
    let acc = layers[k][a as int];
    let all = setup_inputs(n).union(climb_inputs(acc, proof));
    if proof.len() >= 33 {
        let x = hashed(acc, proof);
        let next = sha256(x);
        let rest = proof.skip(33);
        assert(proof.len() / 33 == rest.len() / 33 + 1);
        lemma_fewer_inputs(setup_inputs(n).union(climb_inputs(next, rest)), all);
        lemma_fewer_inputs(setup_inputs(n), all);
        lemma_trace(n, next, rest);
        let i = lemma_inner_digest(n, k + 1, next);
        let layer = layers[k];
        assert(all.contains(x) && all.contains(pair(layer, i)));
        lemma_halves(acc, proof, layer, i);
        let b = if proof[0] % 2 == 1 && 2 * i + 1 < layer.len() {
            2 * i + 1
        } else {
            2 * i
        };
        lemma_layer_distinct(n, k, a as int, b);
        assert(i == a / 2);
        lemma_siblings(n, k + 1, a / 2, rest);
        let own = copath(layers.skip(k), a);
        let sib = layer[sibling(a, layer.len())];
        assert(layers.skip(k).drop_first() =~= layers.skip(k + 1));
        assert(own == seq![(a % 2) as u8] + sib@ + copath(layers.skip(k + 1), a / 2));
        assert(own.subrange(1, 33) =~= sib@);
        assert(own.skip(33) =~= copath(layers.skip(k + 1), a / 2));
        assert(proof.subrange(1, 33) == own.subrange(1, 33));
        lemma_copath_size(layers.skip(k), a);
        assert forall|j: int| 0 <= j < proof.len() / 33 implies #[trigger] proof.subrange(
            33 * j + 1,
            33 * j + 33,
        ) == own.subrange(33 * j + 1, 33 * j + 33) by {
            if j > 0 {
                let l = j - 1;
                assert(rest.subrange(33 * l + 1, 33 * l + 33) == own.skip(33).subrange(
                    33 * l + 1,
                    33 * l + 33,
                ));
                assert(rest.subrange(33 * l + 1, 33 * l + 33) =~= proof.subrange(
                    33 * j + 1,
                    33 * j + 33,
                ));
                assert(own.skip(33).subrange(33 * l + 1, 33 * l + 33) =~= own.subrange(
                    33 * j + 1,
                    33 * j + 33,
                ));
            }
        }
    }
}

/// Following an agent's own proof hashes only what building the tree did.
proof fn lemma_copath_inputs(layer: Seq<[u8; 32]>, idx: nat)
    requires
        idx < layer.len(),
    ensures
        climb_inputs(layer[idx as int], copath(tree(layer), idx)).subset_of(tree_inputs(layer)),
    decreases layer.len(),
{
    if layer.len() > 1 {
        let up = parents(layer);
        lemma_tree_bottom(up);
        lemma_copath_inputs(up, idx / 2);
        assert(tree(layer).drop_first() =~= tree(up));
        let sib = layer[sibling(idx, layer.len())];
        let proof = copath(tree(layer), idx);
        assert(proof.subrange(1, 33) =~= sib@);
        assert(proof.skip(33) =~= copath(tree(up), idx / 2));
        assert(hashed(layer[idx as int], proof) == pair(layer, (idx / 2) as int));
        assert(layer_inputs(layer).contains(pair(layer, (idx / 2) as int)));
    }
}

/// A tree with the root of a larger one would have to hold the larger one's last agent.
proof fn lemma_root_holds(m: usize, n: usize)
    requires
        1 <= m < n,
        no_collision(setup_inputs(m).union(setup_inputs(n))),
    ensures
        tree(leaves(m)).last()[0] != tree(leaves(n)).last()[0],
{
    if tree(leaves(m)).last()[0] == tree(leaves(n)).last()[0] {
        let last = (n - 1) as usize;
        let proof = copath(tree(leaves(n)), last as nat);
        lemma_climb_copath(leaves(n), last as nat);
        lemma_copath_inputs(leaves(n), last as nat);
        assert(statements(n).contains(agent_statement(last)));
        lemma_fewer_inputs(
            setup_inputs(m).union(verify_inputs(last, proof)),
            setup_inputs(m).union(setup_inputs(n)),
        );
        lemma_only_leaves(m, last, proof);
    }
}

} // verus!

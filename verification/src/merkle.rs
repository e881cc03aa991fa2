//! Merkle inclusion (Certificate-Transparency style): one root commits all agents.
//!
//! A proof is one sibling digest per level; verification recomputes the root.
use vstd::arithmetic::div_mod::*;
use vstd::arithmetic::power2::*;
use vstd::prelude::*;
use vstd::slice::slice_subrange;

use crate::digest::{h, h2, same_digest, sha256};
use crate::message::{agent_message, agent_statement};
use crate::scheme::LivenessScheme;

verus! {

/// The digest at an agent's own place in the bottom layer.
pub open spec fn leaf(agent: usize) -> [u8; 32] {
    sha256(agent_statement(agent))
}

/// The digest of zeros.
pub open spec fn blank() -> [u8; 32] {
    vstd::array::spec_array_fill_for_copy_type::<u8, 32>(0)
}

/// The bottom layer for `n` agents: their leaves in order. Without agents it is a
/// single digest of zeros.
pub open spec fn leaves(n: usize) -> Seq<[u8; 32]> {
    if n == 0 {
        seq![blank()]
    } else {
        Seq::new(n as nat, |i: int| leaf(i as usize))
    }
}

/// The bytes of the `i`-th pair of neighbours in a layer. A last digest without a
/// neighbour is paired with itself.
pub open spec fn pair(layer: Seq<[u8; 32]>, i: int) -> Seq<u8> {
    layer[2 * i]@ + layer[if 2 * i + 1 < layer.len() {
        2 * i + 1
    } else {
        2 * i
    }]@
}

/// The layer above: the digest of each pair of neighbours.
pub open spec fn parents(layer: Seq<[u8; 32]>) -> Seq<[u8; 32]> {
    Seq::new((layer.len() + 1) / 2, |i: int| sha256(pair(layer, i)))
}

/// All layers from `layer` up to the one that holds only the root.
pub open spec fn tree(layer: Seq<[u8; 32]>) -> Seq<Seq<[u8; 32]>>
    decreases layer.len(),
{
    if layer.len() <= 1 {
        seq![layer]
    } else {
        seq![layer] + tree(parents(layer))
    }
}

/// The position of the digest that is hashed together with the one at `idx`, in a
/// layer of `len` digests. An even position past the end is paired with the last
/// digest.
pub open spec fn sibling(idx: nat, len: nat) -> int {
    if idx % 2 == 1 {
        idx - 1
    } else if idx + 1 < len {
        idx as int + 1
    } else {
        len - 1
    }
}

/// Every level on the way up from `idx` has a sibling.
pub open spec fn has_copath(layers: Seq<Seq<[u8; 32]>>, idx: nat) -> bool
    decreases layers.len(),
{
    layers.len() <= 1 || {
        &&& 0 <= sibling(idx, layers[0].len()) < layers[0].len()
        &&& has_copath(layers.drop_first(), idx / 2)
    }
}

/// One record per level on the way up from `idx`: whether the digest on the way is the
/// right one of the pair (one) or the left one (zero), then its sibling.
pub open spec fn copath(layers: Seq<Seq<[u8; 32]>>, idx: nat) -> Seq<u8>
    decreases layers.len(),
{
    if layers.len() <= 1 {
        Seq::empty()
    } else {
        seq![(idx % 2) as u8] + layers[0][sibling(idx, layers[0].len())]@ + copath(
            layers.drop_first(),
            idx / 2,
        )
    }
}

/// The bytes that the first record of `proof` has hashed: the sibling goes to the side
/// that the lowest bit of the record's first byte tells.
pub open spec fn hashed(acc: [u8; 32], proof: Seq<u8>) -> Seq<u8> {
    let sib = proof.subrange(1, 33);
    if proof[0] % 2 == 0 {
        acc@ + sib
    } else {
        sib + acc@
    }
}

/// The digest that the records of `proof` lead to from `acc`. Bytes after the last
/// whole record have no effect.
pub open spec fn climb(acc: [u8; 32], proof: Seq<u8>) -> [u8; 32]
    decreases proof.len(),
{
    if proof.len() < 33 {
        acc
    } else {
        climb(sha256(hashed(acc, proof)), proof.skip(33))
    }
}

/// What layers held in vectors stand for.
pub open spec fn layer_views(layers: Seq<Vec<[u8; 32]>>) -> Seq<Seq<[u8; 32]>> {
    layers.map_values(|l: Vec<[u8; 32]>| l@)
}

/// One root that commits all agents.
pub struct Merkle {
    layers: Vec<Vec<[u8; 32]>>,
    root: [u8; 32],
}

impl Merkle {
    /// The layers, from the leaves to the root.
    pub closed spec fn layers(&self) -> Seq<Seq<[u8; 32]>> {
        layer_views(self.layers@)
    }

    /// The root.
    pub closed spec fn root(&self) -> [u8; 32] {
        self.root
    }

    /// The number of levels below the root.
    pub open spec fn depth(&self) -> nat {
        (self.layers().len() - 1) as nat
    }

    /// All of `setup` that follows the hashing of the agents' statements.
    pub fn from_leaves(leaves: Vec<[u8; 32]>) -> (s: Self)
        requires
            leaves@.len() >= 1,
        ensures
            s.wf(),
            s.layers() == tree(leaves@),
            s.layers()[0] == leaves@,
    {
        let ghost bottom = leaves@;
        let mut layer = leaves;
        let mut layers: Vec<Vec<[u8; 32]>> = Vec::new();
        assert(layer_views(layers@) + tree(layer@) =~= tree(bottom));
        while layer.len() > 1
            invariant
                layer@.len() >= 1,
                layer_views(layers@) + tree(layer@) == tree(bottom),
            decreases layer@.len(),
        {
            let above = build_parents(&layer);
            let ghost below = layer_views(layers@);
            let ghost this = layer@;
            layers.push(layer);
            layer = above;
            proof {
                assert(layer_views(layers@) =~= below.push(this));
                assert(layer_views(layers@) + tree(layer@) =~= below + tree(this));
            }
        }
        let root = layer[0];
        let ghost below = layer_views(layers@);
        let ghost top = layer@;
        layers.push(layer);
        proof {
            assert(layer_views(layers@) =~= below + tree(top));
            lemma_tree_bottom(bottom);
        }
        Merkle { layers, root }
    }
}

/// The leaves of `n` agents.
fn build_leaves(n: usize) -> (r: Vec<[u8; 32]>)
    ensures
        r@ == leaves(n),
{
    let mut r: Vec<[u8; 32]> = Vec::new();
    let mut i: usize = 0;
    while i < n
        invariant
            i <= n,
            r@.len() == i,
            forall|k: int| 0 <= k < i ==> r@[k] == leaf(k as usize),
        decreases n - i,
    {
        r.push(h(agent_message(i).as_slice()));
        i = i + 1;
    }
    if n == 0 {
        r.push([0u8; 32]);
    }
    assert(r@ =~= leaves(n));
    r
}

/// The layer above `layer`.
fn build_parents(layer: &Vec<[u8; 32]>) -> (r: Vec<[u8; 32]>)
    ensures
        r@ == parents(layer@),
{
    let len: usize = layer.len();
    let pairs: usize = len / 2 + len % 2;
    let mut r: Vec<[u8; 32]> = Vec::with_capacity(pairs);
    let mut i: usize = 0;
    while i < pairs
        invariant
            len == layer@.len(),
            pairs == (len + 1) / 2,
            i <= pairs,
            r@.len() == i,
            forall|k: int| 0 <= k < i ==> r@[k] == parents(layer@)[k],
        decreases pairs - i,
    {
        let left: usize = 2 * i;
        let right: usize = if len - left >= 2 {
            left + 1
        } else {
            left
        };
        r.push(h2(&layer[left], &layer[right]));
        i = i + 1;
    }
    assert(r@ =~= parents(layer@));
    r
}

/// The copath of position `agent`: one record per layer below the topmost.
pub fn build_copath(layers: &Vec<Vec<[u8; 32]>>, agent: usize) -> (proof: Vec<u8>)
    requires
        layers@.len() >= 1,
        has_copath(layer_views(layers@), agent as nat),
    ensures
        proof@ == copath(layer_views(layers@), agent as nat),
{
    let ghost all = layer_views(layers@);
    let mut proof: Vec<u8> = Vec::new();
    let mut idx: usize = agent;
    let top: usize = layers.len() - 1;
    let mut k: usize = 0;
    assert(all.skip(0) =~= all);
    while k < top
        invariant
            all == layer_views(layers@),
            top == layers@.len() - 1,
            k <= top,
            has_copath(all.skip(k as int), idx as nat),
            proof@ + copath(all.skip(k as int), idx as nat) == copath(all, agent as nat),
        decreases top - k,
    {
        let len: usize = layers[k].len();
        proof {
            assert(all.skip(k as int)[0] == all[k as int]);
            assert(all.skip(k as int).drop_first() =~= all.skip(k + 1));
        }
        let sib: usize = if idx % 2 == 0 {
            if idx < len - 1 {
                idx + 1
            } else {
                len - 1
            }
        } else {
            idx - 1
        };
        let ghost before = proof@;
        proof.push((idx % 2) as u8);
        proof.extend_from_slice(&layers[k][sib]);
        proof {
            let rec = seq![(idx % 2) as u8] + all[k as int][sib as int]@;
            assert(proof@ =~= before + rec);
            let rest = copath(all.skip(k + 1), (idx / 2) as nat);
            assert(before + (rec + rest) =~= proof@ + rest);
        }
        idx = idx / 2;
        k = k + 1;
    }
    assert(proof@ + Seq::<u8>::empty() =~= proof@);
    proof
}

/// The left and the right digest that the first record of `proof` has hashed.
pub fn pair_up(acc: [u8; 32], proof: &[u8]) -> (pair: ([u8; 32], [u8; 32]))
    requires
        proof@.len() >= 33,
    ensures
        pair.0@ + pair.1@ == hashed(acc, proof@),
        proof@[0] % 2 == 0 ==> pair.0 == acc && pair.1@ == proof@.subrange(1, 33),
        proof@[0] % 2 == 1 ==> pair.0@ == proof@.subrange(1, 33) && pair.1 == acc,
{
    let dir: u8 = proof[0] & 1;
    let mut sib: [u8; 32] = [0u8; 32];
    let mut k: usize = 0;
    while k < 32
        invariant
            k <= 32,
            proof@.len() >= 33,
            forall|j: int| 0 <= j < k ==> sib@[j] == proof@[1 + j],
        decreases 32 - k,
    {
        sib[k] = proof[1 + k];
        k = k + 1;
    }
    proof {
        let b: u8 = proof@[0];
        assert(b & 1 == b % 2) by (bit_vector);
        assert(sib@ =~= proof@.subrange(1, 33));
    }
    if dir == 0 {
        (acc, sib)
    } else {
        (sib, acc)
    }
}

/// The digest that the records of `proof` lead to from `start`.
pub fn follow(start: [u8; 32], proof: &[u8]) -> (r: [u8; 32])
    ensures
        r == climb(start, proof@),
{
    let mut acc = start;
    let mut cur = proof;
    while cur.len() >= 33
        invariant
            climb(acc, cur@) == climb(start, proof@),
        decreases cur@.len(),
    {
        let (left, right) = pair_up(acc, cur);
        acc = h2(&left, &right);
        cur = slice_subrange(cur, 33, cur.len());
    }
    acc
}

impl LivenessScheme for Merkle {
    open spec fn wf(&self) -> bool {
        &&& self.layers().len() >= 1
        &&& self.layers()[0].len() >= 1
        &&& self.layers() == tree(self.layers()[0])
        &&& self.root() == self.layers().last()[0]
    }

    open spec fn scheme_name(&self) -> Seq<char> {
        "merkle-ct"@
    }

    open spec fn can_setup(n: usize) -> bool {
        true
    }

    open spec fn covers(&self, agent: usize) -> bool {
        agent < self.layers()[0].len() && self.layers()[0][agent as int] == leaf(agent)
    }

    open spec fn can_prove(&self, agent: usize) -> bool {
        has_copath(self.layers(), agent as nat)
    }

    open spec fn proof_of(&self, agent: usize) -> Seq<u8> {
        copath(self.layers(), agent as nat)
    }

    open spec fn can_verify(&self, agent: usize, proof: Seq<u8>) -> bool {
        true
    }

    open spec fn accepts(&self, agent: usize, proof: Seq<u8>) -> bool {
        climb(leaf(agent), proof) == self.root()
    }

    open spec fn window_bytes(&self) -> nat {
        32
    }

    proof fn lemma_complete(&self, agent: usize) {
        lemma_climb_copath(self.layers()[0], agent as nat);
    }

    fn name(&self) -> (r: &'static str) {
        "merkle-ct"
    }

    fn setup(n: usize) -> (s: Self)
        ensures
            s.layers() == tree(leaves(n)),
    {
        let s = Merkle::from_leaves(build_leaves(n));
        proof {
            lemma_tree_bottom(leaves(n));
            assert forall|agent: usize|
                #![trigger s.can_prove(agent)]
                #![trigger s.proof_of(agent)]
                agent < n implies {
                &&& s.can_prove(agent)
                &&& s.can_verify(agent, s.proof_of(agent))
                &&& s.accepts(agent, s.proof_of(agent))
            } by {
                s.lemma_complete(agent);
            }
        }
        s
    }

    fn prove(&self, agent: usize) -> (proof: Vec<u8>) {
        build_copath(&self.layers, agent)
    }

    fn verify(&self, agent: usize, proof: &[u8]) -> (r: bool) {
        let acc = follow(h(agent_message(agent).as_slice()), proof);
        same_digest(&acc, &self.root)
    }

    fn root_bytes(&self) -> (r: usize) {
        32
    }
}

pub(crate) proof fn lemma_tree_bottom(layer: Seq<[u8; 32]>)
    ensures
        tree(layer).len() >= 1,
        tree(layer)[0] == layer,
{
}

/// Following a copath from a digest of the bottom layer leads to the root.
pub(crate) proof fn lemma_climb_copath(layer: Seq<[u8; 32]>, idx: nat)
    requires
        idx < layer.len(),
    ensures
        has_copath(tree(layer), idx),
        climb(layer[idx as int], copath(tree(layer), idx)) == tree(layer).last()[0],
    decreases layer.len(),
{
    if layer.len() > 1 {
        let up = parents(layer);
        let layers = tree(layer);
        lemma_climb_copath(up, idx / 2);
        lemma_tree_bottom(up);
        assert(layers.drop_first() =~= tree(up));
        assert(layers.last() == tree(up).last());
        let sib = layer[sibling(idx, layer.len())];
        let proof = copath(layers, idx);
        let rest = copath(tree(up), idx / 2);
        assert(proof == seq![(idx % 2) as u8] + sib@ + rest);
        assert(proof.subrange(1, 33) =~= sib@);
        assert(proof.skip(33) =~= rest);
        assert(sha256(hashed(layer[idx as int], proof)) == up[(idx / 2) as int]);
    }
}

/// How the layers hang together. Each layer but the last is halved, rounded up; each
/// digest above is that of its two children, left then right, where a missing right
/// child is replaced by the left one. The last layer holds the root alone.
pub proof fn lemma_merkle_layers(s: &Merkle)
    requires
        s.wf(),
    ensures
        s.layers().len() >= 1,
        forall|k: int|
            0 <= k < s.layers().len() - 1 ==> (#[trigger] s.layers()[k]).len() >= 2
                && s.layers()[k + 1].len() == (s.layers()[k].len() + 1) / 2,
        forall|k: int, i: int|
            0 <= k < s.layers().len() - 1 && 0 <= i && 2 * i + 1 < s.layers()[k].len()
                ==> #[trigger] s.layers()[k + 1][i] == sha256(
                s.layers()[k][2 * i]@ + s.layers()[k][2 * i + 1]@,
            ),
        forall|k: int, i: int|
            0 <= k < s.layers().len() - 1 && 0 <= i && 2 * i + 1 == s.layers()[k].len()
                ==> #[trigger] s.layers()[k + 1][i] == sha256(
                s.layers()[k][2 * i]@ + s.layers()[k][2 * i]@,
            ),
        s.layers()[s.layers().len() - 1].len() == 1,
        s.layers()[s.layers().len() - 1][0] == s.root(),
{
    let bottom = s.layers()[0];
    lemma_tree_layers(bottom);
    assert forall|k: int|
        0 <= k < s.layers().len() - 1 implies (#[trigger] s.layers()[k]).len() >= 2
        && s.layers()[k + 1].len() == (s.layers()[k].len() + 1) / 2 by {
        assert(tree(bottom)[k + 1] == parents(tree(bottom)[k]));
    }
    assert forall|k: int, i: int|
        0 <= k < s.layers().len() - 1 && 0 <= i && 2 * i + 1 <= s.layers()[k].len() implies
        #[trigger] s.layers()[k + 1][i] == sha256(pair(s.layers()[k], i)) by {
        assert(tree(bottom)[k + 1] == parents(tree(bottom)[k]));
    }
}

proof fn lemma_tree_layers(layer: Seq<[u8; 32]>)
    requires
        layer.len() >= 1,
    ensures
        tree(layer).len() >= 1,
        tree(layer)[0] == layer,
        tree(layer).last().len() == 1,
        forall|k: int|
            0 <= k < tree(layer).len() - 1 ==> (#[trigger] tree(layer)[k]).len() >= 2 && tree(
                layer,
            )[k + 1] == parents(tree(layer)[k]),
    decreases layer.len(),
{
    if layer.len() > 1 {
        let t = tree(layer);
        let up = tree(parents(layer));
        lemma_tree_layers(parents(layer));
        assert forall|k: int| 0 <= k < t.len() - 1 implies (#[trigger] t[k]).len() >= 2 && t[k + 1]
            == parents(t[k]) by {
            assert(t[k + 1] == up[k]);
            if k > 0 {
                assert(t[k] == up[k - 1]);
            }
        }
        assert(t.last() == up.last());
    }
}

/// The bottom layer after `setup(n)`: the digest of each agent's statement at the
/// agent's own place, and a single digest of zeros where there are no agents.
pub proof fn lemma_merkle_leaves(s: &Merkle, n: usize)
    requires
        s.layers() == tree(leaves(n)),
    ensures
        n > 0 ==> s.layers()[0].len() == n,
        forall|i: usize|
            i < n ==> s.layers()[0][i as int] == sha256(#[trigger] agent_statement(i)),
        n == 0 ==> s.layers()[0].len() == 1 && forall|j: int|
            0 <= j < 32 ==> #[trigger] s.layers()[0][0]@[j] == 0,
{
    lemma_tree_bottom(leaves(n));
}

/// What a copath holds at each level: first whether the way up comes from the right,
/// which the binary digits of the position tell, and then the digest next to the way:
/// the one before it on the right, the one after it on the left, and the last one of the
/// layer where none comes after.
pub proof fn lemma_copath_levels(layers: Seq<Seq<[u8; 32]>>, idx: nat, k: nat, at: int)
    requires
        has_copath(layers, idx),
        k < layers.len() - 1,
        at == idx / pow2(k),
    ensures
        copath(layers, idx).len() == 33 * (layers.len() - 1),
        copath(layers, idx)[33 * k as int] == at % 2,
        at % 2 == 1 ==> at <= layers[k as int].len() && copath(layers, idx).subrange(
            33 * k as int + 1,
            33 * k as int + 33,
        ) == layers[k as int][at - 1]@,
        at % 2 == 0 && at + 1 < layers[k as int].len() ==> copath(layers, idx).subrange(
            33 * k as int + 1,
            33 * k as int + 33,
        ) == layers[k as int][at + 1]@,
        at % 2 == 0 && at + 1 >= layers[k as int].len() ==> copath(layers, idx).subrange(
            33 * k as int + 1,
            33 * k as int + 33,
        ) == layers[k as int].last()@,
{
    lemma_pow2_pos(k);
    lemma_div_pos_is_pos(idx as int, pow2(k) as int);
    lemma_copath_record(layers, idx, k);
}

/// An agent's proof holds, at each level on the way up from the agent's own place, what
/// a copath holds.
pub proof fn lemma_merkle_records(s: &Merkle, agent: usize, k: nat, at: int)
    requires
        s.wf(),
        s.can_prove(agent),
        k < s.layers().len() - 1,
        at == agent as nat / pow2(k),
    ensures
        s.proof_of(agent).len() == 33 * (s.layers().len() - 1),
        s.proof_of(agent)[33 * k as int] == at % 2,
        at % 2 == 1 ==> at <= s.layers()[k as int].len() && s.proof_of(agent).subrange(
            33 * k as int + 1,
            33 * k as int + 33,
        ) == s.layers()[k as int][at - 1]@,
        at % 2 == 0 && at + 1 < s.layers()[k as int].len() ==> s.proof_of(agent).subrange(
            33 * k as int + 1,
            33 * k as int + 33,
        ) == s.layers()[k as int][at + 1]@,
        at % 2 == 0 && at + 1 >= s.layers()[k as int].len() ==> s.proof_of(agent).subrange(
            33 * k as int + 1,
            33 * k as int + 33,
        ) == s.layers()[k as int].last()@,
{
    lemma_copath_levels(s.layers(), agent as nat, k, at);
}

proof fn lemma_copath_record(layers: Seq<Seq<[u8; 32]>>, idx: nat, k: nat)
    requires
        has_copath(layers, idx),
        k < layers.len() - 1,
    ensures
        copath(layers, idx).len() == 33 * (layers.len() - 1),
        0 <= sibling(idx / pow2(k), layers[k as int].len()) < layers[k as int].len(),
        copath(layers, idx)[33 * k as int] == (idx / pow2(k)) % 2,
        copath(layers, idx).subrange(33 * k as int + 1, 33 * k as int + 33)
            == layers[k as int][sibling(idx / pow2(k), layers[k as int].len())]@,
    decreases k,
{
    let c = copath(layers, idx);
    lemma_copath_size(layers, idx);
    lemma2_to64();
    if k == 0 {
        lemma_div_basics(idx as int);
        assert(pow2(k) == 1);
        assert(c.subrange(1, 33) =~= layers[0][sibling(idx, layers[0].len())]@);
    } else {
        let j = (k - 1) as nat;
        let up = layers.drop_first();
        let rest = copath(up, idx / 2);
        lemma_copath_record(up, idx / 2, j);
        lemma_pow2_unfold(k);
        lemma_pow2_pos(j);
        lemma_div_denominator(idx as int, 2, pow2(j) as int);
        assert(idx / pow2(k) == idx / 2 / pow2(j));
        assert(c.skip(33) =~= rest);
        assert(c[33 * k as int] == rest[33 * j as int]);
        assert(c.subrange(33 * k as int + 1, 33 * k as int + 33) =~= rest.subrange(
            33 * j as int + 1,
            33 * j as int + 33,
        ));
    }
}

/// A proof can be asked for exactly where no level on the way up comes from the right
/// of a place that the layer does not have.
pub proof fn lemma_merkle_can_prove(s: &Merkle, agent: usize)
    requires
        s.wf(),
    ensures
        s.can_prove(agent) <==> forall|k: nat|
            k < s.layers().len() - 1 && (agent as nat / #[trigger] pow2(k)) % 2 == 1 ==> agent
                as nat / pow2(k) <= s.layers()[k as int].len(),
{
    lemma_merkle_layers(s);
    lemma_has_copath(s.layers(), agent as nat);
}

proof fn lemma_has_copath(layers: Seq<Seq<[u8; 32]>>, idx: nat)
    requires
        forall|k: int| 0 <= k < layers.len() - 1 ==> (#[trigger] layers[k]).len() >= 2,
    ensures
        has_copath(layers, idx) <==> forall|k: nat|
            k < layers.len() - 1 && (idx / #[trigger] pow2(k)) % 2 == 1 ==> idx / pow2(k)
                <= layers[k as int].len(),
    decreases layers.len(),
{
    lemma2_to64();
    if layers.len() > 1 {
        let up = layers.drop_first();
        lemma_has_copath(up, idx / 2);
        lemma_div_basics(idx as int);
        assert(idx / pow2(0) == idx);
        assert(layers[0].len() >= 2);
        assert forall|j: nat| idx / #[trigger] pow2(j + 1) == idx / 2 / pow2(j) by {
            lemma_pow2_unfold(j + 1);
            lemma_pow2_pos(j);
            lemma_div_denominator(idx as int, 2, pow2(j) as int);
        }
        if has_copath(layers, idx) {
            assert forall|k: nat|
                k < layers.len() - 1 && (idx / #[trigger] pow2(k)) % 2 == 1 implies idx / pow2(k)
                <= layers[k as int].len() by {
                if k > 0 {
                    let j = (k - 1) as nat;
                    assert(pow2(j + 1) == pow2(k));
                    assert(up[j as int] == layers[k as int]);
                    assert((idx / 2 / pow2(j)) % 2 == 1);
                }
            }
        } else if 0 <= sibling(idx, layers[0].len()) < layers[0].len() {
            let j = choose|j: nat|
                j < up.len() - 1 && (idx / 2 / #[trigger] pow2(j)) % 2 == 1 && idx / 2 / pow2(j)
                    > up[j as int].len();
            assert(idx / pow2(j + 1) == idx / 2 / pow2(j));
            assert(up[j as int] == layers[j as int + 1]);
        }
    }
}

/// Following the records of a proof: whatever digests begin with `start` and come from
/// one another by the records, one record of 33 bytes each, end with the digest that the
/// proof leads to. In a record, an even first byte puts the sibling to the right and an
/// odd one to the left.
pub proof fn lemma_merkle_way(start: [u8; 32], proof: Seq<u8>, way: Seq<[u8; 32]>)
    requires
        way.len() == proof.len() / 33 + 1,
        way[0] == start,
        forall|k: int|
            0 <= k < proof.len() / 33 && proof[33 * k] % 2 == 0 ==> #[trigger] way[k + 1]
                == sha256(way[k]@ + proof.subrange(33 * k + 1, 33 * k + 33)),
        forall|k: int|
            0 <= k < proof.len() / 33 && proof[33 * k] % 2 == 1 ==> #[trigger] way[k + 1]
                == sha256(proof.subrange(33 * k + 1, 33 * k + 33) + way[k]@),
    ensures
        climb(start, proof) == way[way.len() - 1],
{
    assert forall|k: int| 0 <= k < proof.len() / 33 implies #[trigger] way[k + 1] == sha256(
        hashed(way[k], proof.skip(33 * k)),
    ) by {
        assert(proof.skip(33 * k).subrange(1, 33) =~= proof.subrange(33 * k + 1, 33 * k + 33));
    }
    lemma_climb_way(start, proof, way);
}

/// A proof is accepted exactly where the digests on its way, which begin with the digest
/// of the agent's own statement, end with the root.
pub proof fn lemma_merkle_accepts(s: &Merkle, agent: usize, proof: Seq<u8>, way: Seq<[u8; 32]>)
    requires
        way.len() == proof.len() / 33 + 1,
        way[0] == sha256(agent_statement(agent)),
        forall|k: int|
            0 <= k < proof.len() / 33 && proof[33 * k] % 2 == 0 ==> #[trigger] way[k + 1]
                == sha256(way[k]@ + proof.subrange(33 * k + 1, 33 * k + 33)),
        forall|k: int|
            0 <= k < proof.len() / 33 && proof[33 * k] % 2 == 1 ==> #[trigger] way[k + 1]
                == sha256(proof.subrange(33 * k + 1, 33 * k + 33) + way[k]@),
    ensures
        s.accepts(agent, proof) <==> way[way.len() - 1] == s.root(),
{
    lemma_merkle_way(way[0], proof, way);
}

proof fn lemma_climb_way(acc: [u8; 32], proof: Seq<u8>, way: Seq<[u8; 32]>)
    requires
        way.len() == proof.len() / 33 + 1,
        way[0] == acc,
        forall|k: int|
            0 <= k < proof.len() / 33 ==> #[trigger] way[k + 1] == sha256(
                hashed(way[k], proof.skip(33 * k)),
            ),
    ensures
        climb(acc, proof) == way.last(),
    decreases proof.len(),
{
    if proof.len() >= 33 {
        let rest = proof.skip(33);
        let tail = way.drop_first();
        assert(proof.skip(33 * 0int) =~= proof);
        assert(way[0int + 1] == sha256(hashed(acc, proof)));
        assert forall|k: int| 0 <= k < rest.len() / 33 implies #[trigger] tail[k + 1] == sha256(
            hashed(tail[k], rest.skip(33 * k)),
        ) by {
            assert(rest.skip(33 * k) =~= proof.skip(33 * (k + 1)));
            assert(way[(k + 1) + 1] == sha256(hashed(way[k + 1], proof.skip(33 * (k + 1)))));
        }
        lemma_climb_way(tail[0], rest, tail);
    }
}

/// Any number of agents can be set up, and any bytes can be examined as a proof. An
/// agent is vouched for where its own place in the bottom layer holds the digest of its
/// statement. The name and the bytes per window are the same in every state.
pub proof fn lemma_merkle_shape(s: &Merkle, n: usize, agent: usize, proof: Seq<u8>)
    ensures
        Merkle::can_setup(n),
        s.covers(agent) <==> agent < s.layers()[0].len() && s.layers()[0][agent as int] == sha256(
            agent_statement(agent),
        ),
        s.can_verify(agent, proof),
        s.scheme_name() == "merkle-ct"@,
        s.window_bytes() == 32,
{
}

/// A proof has one record of 33 bytes per level.
pub proof fn lemma_proof_size(s: &Merkle, agent: usize)
    requires
        s.wf(),
        s.can_prove(agent),
    ensures
        s.proof_of(agent).len() == 33 * s.depth(),
{
    lemma_copath_size(s.layers(), agent as nat);
}

pub(crate) proof fn lemma_copath_size(layers: Seq<Seq<[u8; 32]>>, idx: nat)
    requires
        layers.len() >= 1,
    ensures
        copath(layers, idx).len() == 33 * (layers.len() - 1),
    decreases layers.len(),
{
    if layers.len() > 1 {
        lemma_copath_size(layers.drop_first(), idx / 2);
    }
}

/// The number of levels is the logarithm to base two of the number of leaves, rounded
/// up.
pub proof fn lemma_depth(s: &Merkle)
    requires
        s.wf(),
    ensures
        s.layers()[0].len() <= pow2(s.depth()),
        s.depth() > 0 ==> pow2((s.depth() - 1) as nat) < s.layers()[0].len(),
{
    lemma_tree_depth(s.layers()[0]);
}

proof fn lemma_tree_depth(layer: Seq<[u8; 32]>)
    requires
        layer.len() >= 1,
    ensures
        tree(layer).len() >= 1,
        layer.len() <= pow2((tree(layer).len() - 1) as nat),
        tree(layer).len() > 1 ==> pow2((tree(layer).len() - 2) as nat) < layer.len(),
    decreases layer.len(),
{
    lemma2_to64();
    if layer.len() > 1 {
        lemma_tree_depth(parents(layer));
        let d = (tree(layer).len() - 1) as nat;
        lemma_pow2_unfold(d);
        if d > 1 {
            lemma_pow2_unfold((d - 1) as nat);
        }
    }
}

/// Fewer than 33 bytes after the last whole record of a proof do not change what is
/// accepted.
pub proof fn lemma_trailing_bytes_ignored(s: &Merkle, agent: usize, proof: Seq<u8>, tail: Seq<u8>)
    requires
        proof.len() % 33 == 0,
        tail.len() < 33,
    ensures
        s.accepts(agent, proof + tail) == s.accepts(agent, proof),
{
    lemma_climb_tail(leaf(agent), proof, tail);
}

proof fn lemma_climb_tail(acc: [u8; 32], proof: Seq<u8>, tail: Seq<u8>)
    requires
        proof.len() % 33 == 0,
        tail.len() < 33,
    ensures
        climb(acc, proof + tail) == climb(acc, proof),
    decreases proof.len(),
{
    if proof.len() >= 33 {
        let whole = proof + tail;
        assert(whole.subrange(1, 33) =~= proof.subrange(1, 33));
        assert(whole.skip(33) =~= proof.skip(33) + tail);
        lemma_climb_tail(sha256(hashed(acc, proof)), proof.skip(33), tail);
    } else {
        assert(proof.len() == 0);
    }
}

} // verus!

//! Crypto-economic bond: no proof at all.
//!
//! Liveness is backed by a stake that is slashed on prolonged failure. The consumer
//! reads the bond's status from state that it already follows.
use std::collections::HashMap;
use vstd::prelude::*;

use crate::scheme::LivenessScheme;

verus! {

/// The status of the agents' bonds; its view maps each bonded agent to whether it has
/// been slashed.
pub struct Bond {
    slashed: HashMap<usize, bool>,
}

impl View for Bond {
    type V = Map<usize, bool>;

    closed spec fn view(&self) -> Map<usize, bool> {
        self.slashed@
    }
}

/// The agents from zero to below `n`, none of them slashed.
pub open spec fn all_bonded(n: usize) -> Map<usize, bool> {
    Map::new(|agent: usize| agent < n, |agent: usize| false)
}

impl LivenessScheme for Bond {
    open spec fn wf(&self) -> bool {
        true
    }

    open spec fn scheme_name(&self) -> Seq<char> {
        "crypto-economic-bond"@
    }

    open spec fn can_setup(n: usize) -> bool {
        true
    }

    open spec fn covers(&self, agent: usize) -> bool {
        self@.contains_key(agent) && !self@[agent]
    }

    open spec fn can_prove(&self, agent: usize) -> bool {
        true
    }

    open spec fn proof_of(&self, agent: usize) -> Seq<u8> {
        Seq::empty()
    }

    open spec fn can_verify(&self, agent: usize, proof: Seq<u8>) -> bool {
        true
    }

    open spec fn accepts(&self, agent: usize, proof: Seq<u8>) -> bool {
        self@.contains_key(agent) && !self@[agent]
    }

    open spec fn window_bytes(&self) -> nat {
        32
    }

    proof fn lemma_complete(&self, agent: usize) {
    }

    fn name(&self) -> (r: &'static str) {
        "crypto-economic-bond"
    }

    fn setup(n: usize) -> (s: Self)
        ensures
            s@ == all_bonded(n),
            forall|agent: usize| #[trigger] s@.contains_key(agent) <==> agent < n,
            forall|agent: usize| agent < n ==> #[trigger] s@[agent] == false,
    {
        broadcast use vstd::std_specs::hash::group_hash_axioms;

        let mut slashed: HashMap<usize, bool> = HashMap::new();
        let mut i: usize = 0;
        while i < n
            invariant
                i <= n,
                slashed@ == all_bonded(i),
            decreases n - i,
        {
            slashed.insert(i, false);
            i = i + 1;
            assert(slashed@ =~= all_bonded(i));
        }
        Bond { slashed }
    }

    /// The status is in shared state; there is nothing to ship.
    fn prove(&self, _agent: usize) -> (proof: Vec<u8>)
        ensures
            proof@.len() == 0,
    {
        Vec::new()
    }

    /// "Bonded and not slashed": a lookup, whatever the proof.
    fn verify(&self, agent: usize, _proof: &[u8]) -> (r: bool)
        ensures
            r <==> self@.contains_key(agent) && self@[agent] == false,
    {
        broadcast use vstd::std_specs::hash::group_hash_axioms;

        match self.slashed.get(&agent) {
            Some(slashed) => !*slashed,
            None => false,
        }
    }

    /// The state root that a light client already follows.
    fn root_bytes(&self) -> (r: usize) {
        32
    }
}

/// The proof plays no part in the decision.
pub proof fn lemma_proof_ignored(s: &Bond, agent: usize, p: Seq<u8>, q: Seq<u8>)
    ensures
        s.accepts(agent, p) == s.accepts(agent, q),
{
}

/// An agent is accepted exactly where it is bonded and has not been slashed, and that is
/// when the state vouches for it.
pub proof fn lemma_bond_status(s: &Bond, agent: usize, proof: Seq<u8>)
    ensures
        s.accepts(agent, proof) <==> s@.contains_key(agent) && s@[agent] == false,
        s.covers(agent) <==> s@.contains_key(agent) && s@[agent] == false,
{
}

/// Any number of agents can be set up, any agent can be given a proof, which is empty,
/// and any proof can be examined. The name and the bytes per window are the same in
/// every state.
pub proof fn lemma_bond_shape(s: &Bond, n: usize, agent: usize, proof: Seq<u8>)
    ensures
        Bond::can_setup(n),
        s.can_prove(agent),
        s.proof_of(agent).len() == 0,
        s.can_verify(agent, proof),
        s.scheme_name() == "crypto-economic-bond"@,
        s.window_bytes() == 32,
{
}

/// Right after `setup(n)` the agents below `n` are accepted, and no others.
pub proof fn lemma_bonded_population(s: &Bond, n: usize, agent: usize, proof: Seq<u8>)
    requires
        s@ == all_bonded(n),
    ensures
        s.accepts(agent, proof) <==> agent < n,
{
}

} // verus!

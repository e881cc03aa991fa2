//! What every freshness scheme offers.
use vstd::prelude::*;

verus! {

/// A freshness scheme. `setup` is the issuer-side one-time cost; `verify` is the
/// consumer-side per-gating cost.
///
/// A scheme says through the spec functions what its state means, and proves in
/// [`lemma_complete`](LivenessScheme::lemma_complete) that the consumer accepts what
/// the issuer hands out. The executable methods are held to the spec functions.
pub trait LivenessScheme {
    /// The state is one that the issuer can have committed.
    spec fn wf(&self) -> bool;

    /// The scheme's name, as tables show it.
    spec fn scheme_name(&self) -> Seq<char>;

    /// State for `n` agents can be built.
    spec fn can_setup(n: usize) -> bool;

    /// The agent is one of those that the committed state vouches for.
    spec fn covers(&self, agent: usize) -> bool;

    /// A proof can be asked for.
    spec fn can_prove(&self, agent: usize) -> bool;

    /// The bytes of the proof that the issuer hands out.
    spec fn proof_of(&self, agent: usize) -> Seq<u8>;

    /// A proof can be examined.
    spec fn can_verify(&self, agent: usize, proof: Seq<u8>) -> bool;

    /// The consumer takes the proof as showing that the agent was fresh.
    spec fn accepts(&self, agent: usize, proof: Seq<u8>) -> bool;

    /// The number of bytes fetched per window.
    spec fn window_bytes(&self) -> nat;

    /// Completeness: every agent that the committed state vouches for can be given a
    /// proof, and the consumer accepts that proof.
    proof fn lemma_complete(&self, agent: usize)
        requires
            self.wf(),
            self.covers(agent),
        ensures
            self.can_prove(agent),
            self.can_verify(agent, self.proof_of(agent)),
            self.accepts(agent, self.proof_of(agent)),
    ;

    fn name(&self) -> (r: &'static str)
        ensures
            r@ == self.scheme_name(),
    ;

    /// Build state for `n` agents (issuer side, amortized once per window). Each of them
    /// can be given a proof, and the consumer accepts it.
    fn setup(n: usize) -> (s: Self) where Self: Sized
        requires
            Self::can_setup(n),
        ensures
            s.wf(),
            forall|agent: usize| #[trigger] s.covers(agent) <== agent < n,
            forall|agent: usize| #[trigger] s.can_prove(agent) <== agent < n,
            forall|agent: usize|
                agent < n ==> s.can_verify(agent, #[trigger] s.proof_of(agent)) && s.accepts(
                    agent,
                    s.proof_of(agent),
                ),
    ;

    /// The freshness proof a consumer needs for agent `agent`.
    fn prove(&self, agent: usize) -> (proof: Vec<u8>)
        requires
            self.wf(),
            self.can_prove(agent),
        ensures
            proof@ == self.proof_of(agent),
    ;

    /// Consumer-side verification: the per-gating hot path.
    fn verify(&self, agent: usize, proof: &[u8]) -> (r: bool)
        requires
            self.wf(),
            self.can_verify(agent, proof@),
        ensures
            r == self.accepts(agent, proof@),
    ;

    /// Bytes the consumer must fetch per window to stay fresh (the aggregate root).
    fn root_bytes(&self) -> (r: usize)
        requires
            self.wf(),
        ensures
            r as nat == self.window_bytes(),
    ;
}

} // verus!

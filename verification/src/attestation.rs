//! Signature attestation: one attestor signs each agent's liveness once per window.
//!
//! The consumer caches the signature and only verifies it. The aggregate root is the
//! attestor's public key.
use vstd::prelude::*;

use crate::ed25519::{
    draw_secret_key, ed25519_public_key, ed25519_signature, ed25519_verifies, public_key,
    sign_message, verify_signature,
};
use crate::message::{agent_message, agent_statement};
use crate::scheme::LivenessScheme;

verus! {

/// One key for all agents, and one signature per agent.
pub struct SigAttestation {
    attestor: [u8; 32],
    sigs: Vec<[u8; 64]>,
    msgs: Vec<Vec<u8>>,
}

impl SigAttestation {
    /// The attestor's public key.
    pub closed spec fn attestor(&self) -> [u8; 32] {
        self.attestor
    }

    /// The attestor's signatures, one per agent.
    pub closed spec fn sigs(&self) -> Seq<[u8; 64]> {
        self.sigs@
    }

    /// What the attestor signs, one message per agent.
    pub closed spec fn messages(&self) -> Seq<Seq<u8>> {
        self.msgs@.map_values(|m: Vec<u8>| m@)
    }

    /// The key and signatures are those of the attestor with this secret key.
    pub open spec fn issued_by(&self, secret: [u8; 32]) -> bool {
        &&& self.attestor()@ == ed25519_public_key(secret@)
        &&& forall|i: int|
            0 <= i < self.sigs().len() ==> (#[trigger] self.sigs()[i])@ == ed25519_signature(
                secret@,
                agent_statement(i as usize),
            )
    }

    /// All of `setup` that follows the drawing of the attestor's secret key.
    pub fn from_secret(secret: &[u8; 32], n: usize) -> (s: Self)
        ensures
            s.wf(),
            s.issued_by(*secret),
            s.sigs().len() == n,
    {
        let attestor = public_key(secret);
        let mut sigs: Vec<[u8; 64]> = Vec::new();
        let mut msgs: Vec<Vec<u8>> = Vec::new();
        let mut i: usize = 0;
        while i < n
            invariant
                i <= n,
                sigs@.len() == i,
                msgs@.len() == i,
                attestor@ == ed25519_public_key(secret@),
                forall|k: int| 0 <= k < i ==> (#[trigger] msgs@[k])@ == agent_statement(k as usize),
                forall|k: int|
                    0 <= k < i ==> (#[trigger] sigs@[k])@ == ed25519_signature(
                        secret@,
                        agent_statement(k as usize),
                    ),
                forall|k: int|
                    0 <= k < i ==> ed25519_verifies(
                        attestor@,
                        agent_statement(k as usize),
                        (#[trigger] sigs@[k])@,
                    ),
            decreases n - i,
        {
            let m = agent_message(i);
            sigs.push(sign_message(secret, m.as_slice()));
            msgs.push(m);
            i = i + 1;
        }
        SigAttestation { attestor, sigs, msgs }
    }
}

impl LivenessScheme for SigAttestation {
    open spec fn wf(&self) -> bool {
        &&& self.messages().len() == self.sigs().len()
        &&& forall|i: int|
            0 <= i < self.sigs().len() ==> #[trigger] self.messages()[i] == agent_statement(
                i as usize,
            )
        &&& forall|i: int|
            0 <= i < self.sigs().len() ==> ed25519_verifies(
                self.attestor()@,
                agent_statement(i as usize),
                (#[trigger] self.sigs()[i])@,
            )
    }

    open spec fn scheme_name(&self) -> Seq<char> {
        "sig-attestation"@
    }

    open spec fn can_setup(n: usize) -> bool {
        true
    }

    open spec fn covers(&self, agent: usize) -> bool {
        agent < self.sigs().len()
    }

    open spec fn can_prove(&self, agent: usize) -> bool {
        agent < self.sigs().len()
    }

    open spec fn proof_of(&self, agent: usize) -> Seq<u8> {
        self.sigs()[agent as int]@
    }

    open spec fn can_verify(&self, agent: usize, proof: Seq<u8>) -> bool {
        agent < self.sigs().len() && proof.len() == 64
    }

    open spec fn accepts(&self, agent: usize, proof: Seq<u8>) -> bool {
        ed25519_verifies(self.attestor()@, agent_statement(agent), proof)
    }

    open spec fn window_bytes(&self) -> nat {
        32
    }

    proof fn lemma_complete(&self, agent: usize) {
        assert(agent == (agent as int) as usize);
        assert(self.sigs()[agent as int]@.len() == 64);
    }

    fn name(&self) -> (r: &'static str) {
        "sig-attestation"
    }

    /// The attestor's secret key is drawn, and signs for every agent.
    fn setup(n: usize) -> (s: Self)
        ensures
            s.sigs().len() == n,
            exists|secret: [u8; 32]| s.issued_by(secret),
            exists|secret: [u8; 32]| #[trigger]
                s.issued_by(secret) && call_ensures(draw_secret_key, (0usize,), secret),
            exists|secret: [u8; 32]| #[trigger]
                call_ensures(draw_secret_key, (0usize,), secret) && s.attestor()@
                    == ed25519_public_key(secret@) && (forall|i: int|
                    0 <= i < n ==> (#[trigger] s.sigs()[i])@ == ed25519_signature(
                        secret@,
                        agent_statement(i as usize),
                    )),
    {
        let secret = draw_secret_key(0);
        let s = SigAttestation::from_secret(&secret, n);
        proof {
            assert forall|agent: usize|
                #![trigger s.can_prove(agent)]
                #![trigger s.proof_of(agent)]
                agent < n implies {
                &&& s.can_prove(agent)
                &&& s.can_verify(agent, s.proof_of(agent))
                &&& s.accepts(agent, s.proof_of(agent))
            } by {
                s.lemma_complete(agent);
            }
        }
        s
    }

    fn prove(&self, agent: usize) -> (proof: Vec<u8>)
        ensures
            proof@.len() == 64,
            proof@ == self.sigs()[agent as int]@,
    {
        let mut proof: Vec<u8> = Vec::with_capacity(64);
        proof.extend_from_slice(&self.sigs[agent]);
        assert(proof@ =~= self.sigs@[agent as int]@);
        proof
    }

    fn verify(&self, agent: usize, proof: &[u8]) -> (r: bool)
        ensures
            r == ed25519_verifies(self.attestor()@, agent_statement(agent), proof@),
    {
        assert(self.messages()[agent as int] == self.msgs@[agent as int]@);
        verify_signature(&self.attestor, self.msgs[agent].as_slice(), proof)
    }

    /// The attestor's public key.
    fn root_bytes(&self) -> (r: usize) {
        32
    }
}

/// A proof is accepted exactly where it is a signature of the agent's own statement that
/// verifies under the attestor's key: a signature of another agent's statement does not
/// count.
pub proof fn lemma_attestation_accepts(s: &SigAttestation, agent: usize, proof: Seq<u8>)
    ensures
        s.accepts(agent, proof) <==> ed25519_verifies(
            s.attestor()@,
            agent_statement(agent),
            proof,
        ),
{
}

/// What an attestor with a given secret key issues: the key is the public key of it, and
/// an agent's proof is the signature of the agent's own statement.
pub proof fn lemma_attestation_issued(s: &SigAttestation, secret: [u8; 32], agent: usize)
    requires
        s.issued_by(secret),
        agent < s.sigs().len(),
    ensures
        s.attestor()@ == ed25519_public_key(secret@),
        s.proof_of(agent) == ed25519_signature(secret@, agent_statement(agent)),
{
    assert(s.sigs()[agent as int]@ == ed25519_signature(
        secret@,
        agent_statement((agent as int) as usize),
    ));
}

/// Whatever `setup` returns, the key comes from a drawn secret key, and an agent's proof
/// is the signature of the agent's own statement under it.
pub proof fn lemma_attestation_setup_draw(n: usize, s: SigAttestation)
    requires
        call_ensures(SigAttestation::setup, (n,), s),
    ensures
        exists|secret: [u8; 32]| #[trigger]
            call_ensures(draw_secret_key, (0usize,), secret) && s.attestor()@
                == ed25519_public_key(secret@) && (forall|agent: usize|
                agent < n ==> #[trigger] s.proof_of(agent) == ed25519_signature(
                    secret@,
                    agent_statement(agent),
                )),
{
    let secret = choose|secret: [u8; 32]| #[trigger]
        s.issued_by(secret) && call_ensures(draw_secret_key, (0usize,), secret);
    assert forall|agent: usize| agent < n implies #[trigger] s.proof_of(agent)
        == ed25519_signature(secret@, agent_statement(agent)) by {
        lemma_attestation_issued(&s, secret, agent);
    }
    assert(call_ensures(draw_secret_key, (0usize,), secret));
}

/// Any number of agents can be set up. Those with a signature, and no others, can be
/// given a proof; a proof of theirs can be examined where it has the length of a
/// signature. The name and the bytes per window are the same in every state.
pub proof fn lemma_attestation_shape(s: &SigAttestation, n: usize, agent: usize, proof: Seq<u8>)
    ensures
        SigAttestation::can_setup(n),
        s.covers(agent) <==> agent < s.sigs().len(),
        s.can_prove(agent) <==> agent < s.sigs().len(),
        s.can_verify(agent, proof) <==> agent < s.sigs().len() && proof.len() == 64,
        s.scheme_name() == "sig-attestation"@,
        s.window_bytes() == 32,
{
}

} // verus!

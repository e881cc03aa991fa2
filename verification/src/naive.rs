//! Naive per-call: each agent signs its own liveness, and nothing is shared.
//!
//! The consumer fetches and verifies one signature per agent.
use vstd::prelude::*;
use vstd::string::StringSliceAdditionalSpecFns;

use crate::ed25519::{
    draw_secret_key, ed25519_public_key, ed25519_signature, ed25519_verifies, public_key,
    sign_message, verify_signature,
};
use crate::message::{own_message, own_statement};
use crate::scheme::LivenessScheme;

verus! {

/// One key and one signature per agent.
pub struct Naive {
    keys: Vec<[u8; 32]>,
    sigs: Vec<[u8; 64]>,
    msg: Vec<u8>,
}

impl Naive {
    /// The agents' public keys.
    pub closed spec fn keys(&self) -> Seq<[u8; 32]> {
        self.keys@
    }

    /// The agents' signatures.
    pub closed spec fn sigs(&self) -> Seq<[u8; 64]> {
        self.sigs@
    }

    /// What every agent signs.
    pub closed spec fn message(&self) -> Seq<u8> {
        self.msg@
    }

    /// The keys and signatures are those of the agents with these secret keys.
    pub open spec fn issued_by(&self, secrets: Seq<[u8; 32]>) -> bool {
        &&& self.keys().len() == secrets.len()
        &&& self.sigs().len() == secrets.len()
        &&& forall|i: int|
            0 <= i < secrets.len() ==> (#[trigger] self.keys()[i])@ == ed25519_public_key(
                secrets[i]@,
            )
        &&& forall|i: int|
            0 <= i < secrets.len() ==> (#[trigger] self.sigs()[i])@ == ed25519_signature(
                secrets[i]@,
                own_statement(),
            )
    }

    /// All of `setup` that follows the drawing of the secret keys, one per agent.
    pub fn from_secrets(secrets: &Vec<[u8; 32]>) -> (s: Self)
        ensures
            s.wf(),
            s.issued_by(secrets@),
    {
        let msg = own_message();
        let mut keys: Vec<[u8; 32]> = Vec::new();
        let mut sigs: Vec<[u8; 64]> = Vec::new();
        let mut i: usize = 0;
        while i < secrets.len()
            invariant
                i <= secrets@.len(),
                keys@.len() == i,
                sigs@.len() == i,
                msg@ == own_statement(),
                forall|k: int|
                    0 <= k < i ==> (#[trigger] keys@[k])@ == ed25519_public_key(secrets@[k]@),
                forall|k: int|
                    0 <= k < i ==> (#[trigger] sigs@[k])@ == ed25519_signature(
                        secrets@[k]@,
                        own_statement(),
                    ),
                forall|k: int|
                    #![trigger keys@[k]]
                    #![trigger sigs@[k]]
                    0 <= k < i ==> ed25519_verifies(keys@[k]@, own_statement(), sigs@[k]@),
            decreases secrets@.len() - i,
        {
            sigs.push(sign_message(&secrets[i], msg.as_slice()));
            keys.push(public_key(&secrets[i]));
            i = i + 1;
        }
        Naive { keys, sigs, msg }
    }
}

impl LivenessScheme for Naive {
    open spec fn wf(&self) -> bool {
        &&& self.message() == own_statement()
        &&& self.keys().len() == self.sigs().len()
        &&& forall|i: int|
            #![trigger self.keys()[i]]
            #![trigger self.sigs()[i]]
            0 <= i < self.keys().len() ==> ed25519_verifies(
                self.keys()[i]@,
                own_statement(),
                self.sigs()[i]@,
            )
    }

    open spec fn scheme_name(&self) -> Seq<char> {
        "naive-per-call"@
    }

    open spec fn can_setup(n: usize) -> bool {
        true
    }

    open spec fn covers(&self, agent: usize) -> bool {
        agent < self.keys().len()
    }

    open spec fn can_prove(&self, agent: usize) -> bool {
        agent < self.keys().len()
    }

    open spec fn proof_of(&self, agent: usize) -> Seq<u8> {
        self.sigs()[agent as int]@
    }

    open spec fn can_verify(&self, agent: usize, proof: Seq<u8>) -> bool {
        agent < self.keys().len() && proof.len() == 64
    }

    open spec fn accepts(&self, agent: usize, proof: Seq<u8>) -> bool {
        ed25519_verifies(self.keys()[agent as int]@, own_statement(), proof)
    }

    open spec fn window_bytes(&self) -> nat {
        0
    }

    proof fn lemma_complete(&self, agent: usize) {
    }

    fn name(&self) -> (r: &'static str) {
        "naive-per-call"
    }

    /// Each agent's secret key comes from a draw of its own.
    fn setup(n: usize) -> (s: Self)
        ensures
            s.keys().len() == n,
            s.sigs().len() == n,
            exists|secrets: Seq<[u8; 32]>| secrets.len() == n && s.issued_by(secrets),
            exists|secrets: Seq<[u8; 32]>| #[trigger]
                s.issued_by(secrets) && secrets.len() == n && (forall|i: int|
                    0 <= i < n ==> call_ensures(
                        draw_secret_key,
                        (i as usize,),
                        #[trigger] secrets[i],
                    ) && s.keys()[i]@ == ed25519_public_key(secrets[i]@) && s.sigs()[i]@
                        == ed25519_signature(secrets[i]@, "alive@block".spec_bytes())),
    {
        let mut secrets: Vec<[u8; 32]> = Vec::new();
        let mut i: usize = 0;
        while i < n
            invariant
                i <= n,
                secrets@.len() == i,
                forall|k: int|
                    0 <= k < i ==> call_ensures(
                        draw_secret_key,
                        (k as usize,),
                        #[trigger] secrets@[k],
                    ),
            decreases n - i,
        {
            secrets.push(draw_secret_key(i));
            i = i + 1;
        }
        let s = Naive::from_secrets(&secrets);
        proof {
            assert(s.issued_by(secrets@));
            assert forall|i: int| 0 <= i < n implies call_ensures(
                draw_secret_key,
                (i as usize,),
                #[trigger] secrets@[i],
            ) && s.keys()[i]@ == ed25519_public_key(secrets@[i]@) && s.sigs()[i]@
                == ed25519_signature(secrets@[i]@, "alive@block".spec_bytes()) by {
                lemma_naive_issued(&s, secrets@, i as usize);
            }
            assert forall|agent: usize|
                #![trigger s.can_prove(agent)]
                #![trigger s.proof_of(agent)]
                agent < n implies {
                &&& s.can_prove(agent)
                &&& s.can_verify(agent, s.proof_of(agent))
                &&& s.accepts(agent, s.proof_of(agent))
            } by {
                s.lemma_complete(agent);
            }
        }
        s
    }

    fn prove(&self, agent: usize) -> (proof: Vec<u8>)
        ensures
            proof@.len() == 64,
            proof@ == self.sigs()[agent as int]@,
    {
        let mut proof: Vec<u8> = Vec::with_capacity(64);
        proof.extend_from_slice(&self.sigs[agent]);
        assert(proof@ =~= self.sigs@[agent as int]@);
        proof
    }

    fn verify(&self, agent: usize, proof: &[u8]) -> (r: bool)
        ensures
            r == ed25519_verifies(
                self.keys()[agent as int]@,
                "alive@block".spec_bytes(),
                proof@,
            ),
    {
        verify_signature(&self.keys[agent], self.msg.as_slice(), proof)
    }

    /// No aggregate: the consumer fetches the keys and signatures one by one.
    fn root_bytes(&self) -> (r: usize) {
        0
    }
}

/// A proof is accepted exactly where it is a signature of the claim to be alive that
/// verifies under the agent's own key: no other key and no other text counts.
pub proof fn lemma_naive_accepts(s: &Naive, agent: usize, proof: Seq<u8>)
    requires
        agent < s.keys().len(),
    ensures
        s.accepts(agent, proof) <==> ed25519_verifies(
            s.keys()[agent as int]@,
            "alive@block".spec_bytes(),
            proof,
        ),
{
}

/// What agents with given secret keys are issued: each has the public key of its own
/// secret key, and its proof is its own signature of the claim to be alive.
pub proof fn lemma_naive_issued(s: &Naive, secrets: Seq<[u8; 32]>, agent: usize)
    requires
        s.issued_by(secrets),
        agent < secrets.len(),
    ensures
        s.keys().len() == secrets.len(),
        s.keys()[agent as int]@ == ed25519_public_key(secrets[agent as int]@),
        s.proof_of(agent) == ed25519_signature(
            secrets[agent as int]@,
            "alive@block".spec_bytes(),
        ),
{
    assert(s.sigs()[agent as int]@ == ed25519_signature(
        secrets[agent as int]@,
        own_statement(),
    ));
}

/// Whatever `setup` returns, each agent's key and proof come from a secret key that was
/// drawn for that agent.
pub proof fn lemma_naive_setup_draws(n: usize, s: Naive, agent: usize)
    requires
        call_ensures(Naive::setup, (n,), s),
        agent < n,
    ensures
        exists|secret: [u8; 32]| #[trigger]
            call_ensures(draw_secret_key, (agent,), secret) && s.keys()[agent as int]@
                == ed25519_public_key(secret@) && s.proof_of(agent) == ed25519_signature(
                secret@,
                "alive@block".spec_bytes(),
            ),
{
    let secrets = choose|secrets: Seq<[u8; 32]>| #[trigger]
        s.issued_by(secrets) && secrets.len() == n && (forall|i: int|
            0 <= i < n ==> call_ensures(
                draw_secret_key,
                (i as usize,),
                #[trigger] secrets[i],
            ) && s.keys()[i]@ == ed25519_public_key(secrets[i]@) && s.sigs()[i]@
                == ed25519_signature(secrets[i]@, "alive@block".spec_bytes()));
    assert(call_ensures(draw_secret_key, ((agent as int) as usize,), secrets[agent as int]));
}

/// Two agents have the same public key only where two draws, one for each of them, gave
/// secret keys with the same public key.
pub proof fn lemma_naive_shared_key(s: &Naive, secrets: Seq<[u8; 32]>, a: usize, b: usize)
    requires
        s.issued_by(secrets),
        forall|i: int|
            0 <= i < secrets.len() ==> call_ensures(
                draw_secret_key,
                (i as usize,),
                #[trigger] secrets[i],
            ),
        a < s.keys().len(),
        b < s.keys().len(),
        s.keys()[a as int] == s.keys()[b as int],
    ensures
        exists|x: [u8; 32], y: [u8; 32]| #[trigger]
            call_ensures(draw_secret_key, (a,), x) && #[trigger] call_ensures(
                draw_secret_key,
                (b,),
                y,
            ) && ed25519_public_key(x@) == ed25519_public_key(y@),
{
    let x = secrets[a as int];
    let y = secrets[b as int];
    assert(call_ensures(draw_secret_key, ((a as int) as usize,), x));
    assert(call_ensures(draw_secret_key, ((b as int) as usize,), y));
    assert(s.keys()[a as int]@ == ed25519_public_key(x@));
    assert(s.keys()[b as int]@ == ed25519_public_key(y@));
}

/// Any number of agents can be set up. Those with a key, and no others, can be given a
/// proof; a proof of theirs can be examined where it has the length of a signature. The
/// name and the bytes per window are the same in every state.
pub proof fn lemma_naive_shape(s: &Naive, n: usize, agent: usize, proof: Seq<u8>)
    ensures
        Naive::can_setup(n),
        s.covers(agent) <==> agent < s.keys().len(),
        s.can_prove(agent) <==> agent < s.keys().len(),
        s.can_verify(agent, proof) <==> agent < s.keys().len() && proof.len() == 64,
        s.scheme_name() == "naive-per-call"@,
        s.window_bytes() == 0,
{
}

} // verus!

use ed25519_dalek::{Signature, Signer, SigningKey, Verifier};
use liveness_bench::{LivenessScheme, Naive, SigAttestation};

#[test]
fn naive_round_trip() {
    let s = Naive::setup(4);
    for agent in 0..4 {
        let proof = s.prove(agent);
        assert_eq!(proof.len(), 64);
        assert!(s.verify(agent, &proof));
    }
    assert_eq!(s.name(), "naive-per-call");
    assert_eq!(s.root_bytes(), 0);
}

#[test]
fn naive_signatures_are_those_of_the_given_keys() {
    let secrets = vec![[1u8; 32], [2u8; 32]];
    let s = Naive::from_secrets(&secrets);
    for agent in 0..2 {
        let key = SigningKey::from_bytes(&secrets[agent]);
        assert_eq!(s.prove(agent), key.sign(b"alive@block").to_bytes().to_vec());
        let sig = Signature::from_slice(&s.prove(agent)).unwrap();
        assert!(key.verifying_key().verify(b"alive@block", &sig).is_ok());
    }
    assert!(!s.verify(0, &s.prove(1)));
    assert!(!s.verify(1, &s.prove(0)));
}

#[test]
fn naive_draws_its_keys() {
    let a = Naive::setup(2);
    let b = Naive::setup(2);
    assert_ne!(a.prove(0), a.prove(1));
    assert_ne!(a.prove(0), b.prove(0));
    assert!(!b.verify(0, &a.prove(0)));
}

#[test]
fn naive_refuses_a_changed_signature() {
    let s = Naive::setup(1);
    let proof = s.prove(0);
    for k in 0..64 {
        let mut bad = proof.clone();
        bad[k] ^= 1;
        assert!(!s.verify(0, &bad));
    }
    assert!(!s.verify(0, &[0u8; 64]));
    assert!(!s.verify(0, &[0xffu8; 64]));
}

#[test]
fn naive_without_agents() {
    assert_eq!(Naive::setup(0).root_bytes(), 0);
}

#[test]
fn attestation_round_trip() {
    let s = SigAttestation::setup(4);
    for agent in 0..4 {
        let proof = s.prove(agent);
        assert_eq!(proof.len(), 64);
        assert!(s.verify(agent, &proof));
    }
    assert_eq!(s.name(), "sig-attestation");
    assert_eq!(s.root_bytes(), 32);
}

#[test]
fn attestation_signs_each_agents_statement() {
    let secret = [7u8; 32];
    let s = SigAttestation::from_secret(&secret, 12);
    let key = SigningKey::from_bytes(&secret);
    for agent in 0..12 {
        let message = format!("agent{agent}:alive@block");
        assert_eq!(s.prove(agent), key.sign(message.as_bytes()).to_bytes().to_vec());
    }
}

#[test]
fn attestation_is_for_one_agent_only() {
    let s = SigAttestation::setup(4);
    for i in 0..4 {
        for j in 0..4 {
            assert_eq!(s.verify(j, &s.prove(i)), i == j);
        }
    }
}

#[test]
fn attestation_needs_the_attestor() {
    let a = SigAttestation::setup(1);
    let b = SigAttestation::setup(1);
    assert!(!a.verify(0, &b.prove(0)));
    let mut bad = a.prove(0);
    bad[63] ^= 0x80;
    assert!(!a.verify(0, &bad));
}

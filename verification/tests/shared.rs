use liveness_bench::message::{agent_message, own_message};
use liveness_bench::{proxies, Bond, LivenessScheme, Merkle};

#[test]
fn statements_name_the_agent() {
    assert_eq!(own_message(), b"alive@block".to_vec());
    assert_eq!(agent_message(0), b"agent0:alive@block".to_vec());
    assert_eq!(agent_message(9), b"agent9:alive@block".to_vec());
    assert_eq!(agent_message(10), b"agent10:alive@block".to_vec());
    assert_eq!(agent_message(90210), b"agent90210:alive@block".to_vec());
    for agent in [usize::MAX, usize::MAX - 1, 1_000_000] {
        assert_eq!(agent_message(agent), format!("agent{agent}:alive@block").into_bytes());
    }
    assert_ne!(agent_message(1), agent_message(11));
    assert!(agent_message(usize::MAX).len() < 64);
}

#[test]
fn bond_accepts_the_bonded_agents() {
    let s = Bond::setup(3);
    for agent in 0..3 {
        assert_eq!(s.prove(agent), Vec::<u8>::new());
        assert!(s.verify(agent, &s.prove(agent)));
        assert!(s.verify(agent, &[1, 2, 3]));
    }
    assert!(!s.verify(3, &[]));
    assert!(!s.verify(usize::MAX, &[]));
    assert_eq!(s.prove(99), Vec::<u8>::new());
    assert_eq!(s.name(), "crypto-economic-bond");
    assert_eq!(s.root_bytes(), 32);
    assert!(!Bond::setup(0).verify(0, &[]));
}

#[test]
fn merkle_is_named() {
    assert_eq!(Merkle::setup(1).name(), "merkle-ct");
}

#[test]
fn described_schemes() {
    let rows = proxies();
    assert_eq!(rows.len(), 2);
    assert_eq!(rows[0].name, "kzg-verkle");
    assert_eq!(rows[0].verify_note, "~1-2 ms (one pairing), O(1) in N");
    assert_eq!(rows[0].proof_bytes, "~48 B (constant)");
    assert_eq!(rows[0].root_bytes, "48 B");
    assert_eq!(rows[1].name, "recursive-snark");
    assert_eq!(rows[1].verify_note, "~2-10 ms, O(1) in N (N proofs folded into one)");
    assert_eq!(rows[1].proof_bytes, "~200 B - 1 KB (constant)");
    assert_eq!(rows[1].root_bytes, "~200 B");
}

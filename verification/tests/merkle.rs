use liveness_bench::digest::same_digest;
use liveness_bench::merkle::{build_copath, follow, pair_up};
use liveness_bench::{LivenessScheme, Merkle};
use sha2::{Digest, Sha256};

fn sha(parts: &[&[u8]]) -> [u8; 32] {
    let mut hasher = Sha256::new();
    for p in parts {
        hasher.update(p);
    }
    hasher.finalize().into()
}

fn leaf(agent: usize) -> [u8; 32] {
    sha(&[format!("agent{agent}:alive@block").as_bytes()])
}

fn record(dir: u8, sib: &[u8; 32]) -> Vec<u8> {
    let mut r = vec![dir];
    r.extend_from_slice(sib);
    r
}

#[test]
fn merkle_copath_of_three_agents() {
    let s = Merkle::setup(3);
    let left = sha(&[&leaf(0), &leaf(1)]);
    let right = sha(&[&leaf(2), &leaf(2)]);
    assert_eq!(s.prove(0), [record(0, &leaf(1)), record(0, &right)].concat());
    assert_eq!(s.prove(1), [record(1, &leaf(0)), record(0, &right)].concat());
    assert_eq!(s.prove(2), [record(0, &leaf(2)), record(1, &left)].concat());
}

#[test]
fn merkle_accepts_every_agent_of_every_size() {
    for n in [1usize, 2, 3, 4, 5, 8, 13, 33] {
        let s = Merkle::setup(n);
        for agent in 0..n {
            assert!(s.verify(agent, &s.prove(agent)));
        }
    }
}

#[test]
fn merkle_proof_size_is_one_record_per_level() {
    let depths: [(usize, usize); 8] =
        [(1, 0), (2, 1), (3, 2), (4, 2), (5, 3), (1000, 10), (1024, 10), (1025, 11)];
    for (n, depth) in depths {
        let s = Merkle::setup(n);
        assert_eq!(s.prove(n / 2).len(), 33 * depth);
        assert_eq!(s.root_bytes(), 32);
    }
    assert_eq!(Merkle::setup(1000).prove(500).len(), 330);
}

#[test]
fn merkle_without_agents_has_a_blank_root() {
    let s = Merkle::setup(0);
    assert_eq!(s.prove(0), Vec::<u8>::new());
    assert!(!s.verify(0, &[]));
    assert!(follow([0u8; 32], &s.prove(0)) == [0u8; 32]);
}

#[test]
fn merkle_copath_past_the_last_agent() {
    let s = Merkle::setup(3);
    let left = sha(&[&leaf(0), &leaf(1)]);
    let right = sha(&[&leaf(2), &leaf(2)]);
    assert_eq!(s.prove(3), [record(1, &leaf(2)), record(1, &left)].concat());
    assert_eq!(s.prove(4), [record(0, &leaf(2)), record(0, &right)].concat());
    assert!(!s.verify(3, &s.prove(3)));
    assert!(!s.verify(4, &s.prove(4)));
    let one = Merkle::setup(1);
    assert_eq!(one.prove(usize::MAX), Vec::<u8>::new());
}

#[test]
fn merkle_refuses_another_agents_place() {
    let s = Merkle::setup(6);
    for i in 0..6 {
        for j in 0..6 {
            assert_eq!(s.verify(j, &s.prove(i)), i == j);
        }
    }
}

#[test]
fn merkle_refuses_a_changed_proof() {
    let s = Merkle::setup(5);
    let proof = s.prove(3);
    for k in 0..proof.len() {
        let mut bad = proof.clone();
        bad[k] ^= 1;
        assert!(!s.verify(3, &bad));
    }
    assert!(!s.verify(3, &proof[..66]));
    assert!(!s.verify(3, &[]));
}

#[test]
fn merkle_ignores_trailing_bytes_and_high_direction_bits() {
    let s = Merkle::setup(5);
    let mut proof = s.prove(3);
    for k in 0..3 {
        proof[33 * k] |= 0xfe;
    }
    assert!(s.verify(3, &proof));
    proof.extend_from_slice(&[7u8; 32]);
    assert!(s.verify(3, &proof));
    proof.push(7);
    assert!(!s.verify(3, &proof));
}

#[test]
fn merkle_from_given_leaves() {
    let l: Vec<[u8; 32]> = vec![[1u8; 32], [2u8; 32], [3u8; 32]];
    let s = Merkle::from_leaves(l);
    let right = sha(&[&[3u8; 32], &[3u8; 32]]);
    assert_eq!(s.prove(0), [record(0, &[2u8; 32]), record(0, &right)].concat());
}

#[test]
fn copath_of_given_layers() {
    let layers = vec![
        vec![[1u8; 32], [2u8; 32], [3u8; 32]],
        vec![[4u8; 32], [5u8; 32]],
        vec![[6u8; 32]],
    ];
    assert_eq!(build_copath(&layers, 0), [record(0, &[2u8; 32]), record(0, &[5u8; 32])].concat());
    assert_eq!(build_copath(&layers, 1), [record(1, &[1u8; 32]), record(0, &[5u8; 32])].concat());
    assert_eq!(build_copath(&layers, 2), [record(0, &[3u8; 32]), record(1, &[4u8; 32])].concat());
    assert_eq!(build_copath(&vec![vec![[6u8; 32]]], 9), Vec::<u8>::new());
}

#[test]
fn pairs_go_left_and_right() {
    let acc = [9u8; 32];
    let sib = [8u8; 32];
    assert_eq!(pair_up(acc, &record(0, &sib)), (acc, sib));
    assert_eq!(pair_up(acc, &record(1, &sib)), (sib, acc));
    assert_eq!(pair_up(acc, &record(2, &sib)), (acc, sib));
    assert_eq!(pair_up(acc, &record(255, &sib)), (sib, acc));
}

#[test]
fn following_records_hashes_level_by_level() {
    let (a, b, c) = ([1u8; 32], [2u8; 32], [3u8; 32]);
    let proof = [record(0, &b), record(1, &c)].concat();
    let first = sha(&[&a, &b]);
    assert_eq!(follow(a, &proof), sha(&[&c, &first]));
    assert_eq!(follow(a, &proof[..65]), first);
    assert_eq!(follow(a, &proof[..32]), a);
}

#[test]
fn digests_compare_bytewise() {
    let a = [1u8; 32];
    let mut b = a;
    assert!(same_digest(&a, &b));
    b[31] = 2;
    assert!(!same_digest(&a, &b));
}

#[test]
fn merkle_proofs_tell_the_binary_digits_of_the_place() {
    let s = Merkle::setup(6);
    for agent in 0..6usize {
        let proof = s.prove(agent);
        let sides: Vec<usize> = (0..3).map(|k| proof[33 * k] as usize).collect();
        assert_eq!(sides, vec![agent % 2, agent / 2 % 2, agent / 4 % 2]);
    }
}

#[test]
fn merkle_accepts_members_only() {
    for n in 1..7usize {
        let s = Merkle::setup(n);
        for agent in n..12 {
            assert!(!s.verify(agent, &[]));
            for member in 0..n {
                let proof = s.prove(member);
                assert!(!s.verify(agent, &proof));
                for ways in 0..8u8 {
                    let mut turned = proof.clone();
                    for k in 0..proof.len() / 33 {
                        turned[33 * k] = ways >> k & 1;
                    }
                    assert!(!s.verify(agent, &turned));
                }
            }
        }
    }
}

#[test]
fn merkle_refuses_proofs_of_another_length() {
    let s = Merkle::setup(6);
    for agent in 0..6 {
        let proof = s.prove(agent);
        for records in 0..3 {
            assert!(!s.verify(agent, &proof[..33 * records]));
        }
        assert!(!s.verify(agent, &proof[33..]));
        assert!(!s.verify(agent, &[proof.clone(), record(0, &leaf(agent))].concat()));
        assert!(!s.verify(agent, &[proof.clone(), proof].concat()));
    }
}

#[test]
fn merkle_takes_either_side_of_a_self_paired_digest() {
    let s = Merkle::setup(3);
    let mut proof = s.prove(2);
    proof[0] = 1;
    assert!(s.verify(2, &proof));
    proof[33] = 0;
    assert!(!s.verify(2, &proof));
}

#[test]
fn merkle_refuses_a_changed_sibling() {
    for n in [2usize, 3, 6] {
        let s = Merkle::setup(n);
        for agent in 0..n {
            let proof = s.prove(agent);
            for k in (0..proof.len()).filter(|k| k % 33 != 0) {
                let mut bad = proof.clone();
                bad[k] ^= 0x10;
                assert!(!s.verify(agent, &bad));
            }
        }
    }
}

#[test]
fn merkle_roots_tell_the_number_of_agents() {
    let roots: Vec<[u8; 32]> =
        (1..20usize).map(|n| follow(leaf(0), &Merkle::setup(n).prove(0))).collect();
    for m in 0..roots.len() {
        for n in 0..roots.len() {
            assert_eq!(roots[m] == roots[n], m == n);
        }
    }
}

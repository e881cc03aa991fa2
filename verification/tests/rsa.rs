use liveness_bench::{first_n_odd_primes, LivenessScheme, Natural, RsaAccumulator};
use num_bigint::BigUint;

fn natural(v: u64) -> Natural {
    Natural::from_bytes_be(&v.to_be_bytes())
}

#[test]
fn odd_primes_in_order() {
    assert_eq!(first_n_odd_primes(0), Vec::<u64>::new());
    assert_eq!(first_n_odd_primes(1), vec![3]);
    assert_eq!(first_n_odd_primes(10), vec![3, 5, 7, 11, 13, 17, 19, 23, 29, 31]);
    let many = first_n_odd_primes(1000);
    assert_eq!(many.len(), 1000);
    assert_eq!(many[999], 7927);
}

#[test]
fn odd_primes_of_a_shorter_list_come_first() {
    let short = first_n_odd_primes(40);
    let long = first_n_odd_primes(100);
    assert_eq!(short[..], long[..40]);
}

#[test]
fn naturals_keep_their_value_in_the_fewest_bytes() {
    assert_eq!(Natural::from_bytes_be(&[]).to_bytes_be(), vec![0]);
    assert_eq!(Natural::from_bytes_be(&[0, 0]).to_bytes_be(), vec![0]);
    assert_eq!(Natural::from_bytes_be(&[0, 1, 2]).to_bytes_be(), vec![1, 2]);
    assert_eq!(Natural::from_bytes_be(&[255; 40]).to_bytes_be(), vec![255; 40]);
}

#[test]
fn rsa_on_a_small_modulus() {
    // The draws 4 and 6 become 5 and 7, so the modulus is 35.
    let s = RsaAccumulator::from_draws(&natural(4), &natural(6), 2);
    // 3^15 mod 35 == 27, 3^5 mod 35 == 33, 3^3 mod 35 == 27.
    assert_eq!(s.root_bytes(), 1);
    assert_eq!(s.prove(0), vec![33]);
    assert_eq!(s.prove(1), vec![27]);
    assert!(s.verify(0, &[33]));
    assert!(s.verify(1, &[27]));
    assert!(!s.verify(0, &[27]));
    assert!(!s.verify(1, &[33]));
}

#[test]
fn rsa_reads_a_witness_modulo_and_with_leading_zeros() {
    let s = RsaAccumulator::from_draws(&natural(5), &natural(7), 2);
    assert!(s.verify(0, &[0, 0, 33]));
    assert!(s.verify(0, &[33 + 35]));
    assert!(s.verify(0, &[1, 57]));
    assert!(!s.verify(0, &[]));
}

#[test]
fn rsa_without_agents_still_has_one_slot() {
    let none = RsaAccumulator::from_draws(&natural(5), &natural(7), 0);
    let one = RsaAccumulator::from_draws(&natural(5), &natural(7), 1);
    assert_eq!(none.prove(0), vec![3]);
    assert_eq!(one.prove(0), vec![3]);
    assert!(none.verify(0, &[3]));
}

#[test]
fn rsa_modulo_one() {
    let s = RsaAccumulator::from_draws(&natural(0), &natural(1), 1);
    assert_eq!(s.root_bytes(), 0);
    assert_eq!(s.prove(0), vec![0]);
    assert!(s.verify(0, &[]));
    assert!(s.verify(0, &[200]));
}

#[test]
fn rsa_accumulates_all_primes() {
    let p = [0xd3u8; 128];
    let q = [0xb6u8; 128];
    let s = RsaAccumulator::from_draws(
        &Natural::from_bytes_be(&p),
        &Natural::from_bytes_be(&q),
        12,
    );
    let one = BigUint::from(1u32);
    let modulus = (BigUint::from_bytes_be(&p) | &one) * (BigUint::from_bytes_be(&q) | &one);
    let primes = first_n_odd_primes(12);
    let mut all = BigUint::from(1u32);
    for pr in &primes {
        all *= *pr;
    }
    let g = BigUint::from(3u32);
    let acc = g.modpow(&all, &modulus);
    assert_eq!(s.root_bytes() as u64, (acc.bits() + 7) / 8);
    for agent in 0..12 {
        let witness = g.modpow(&(&all / primes[agent]), &modulus);
        assert_eq!(s.prove(agent), witness.to_bytes_be());
        assert!(s.verify(agent, &witness.to_bytes_be()));
        assert!(!s.verify(agent, &acc.to_bytes_be()));
    }
}

#[test]
fn rsa_round_trip_in_constant_size() {
    for n in [1usize, 2, 9] {
        let s = RsaAccumulator::setup(n);
        assert!(s.root_bytes() <= 256);
        for agent in 0..n {
            let proof = s.prove(agent);
            assert!(proof.len() <= 256);
            assert!(s.verify(agent, &proof));
        }
    }
    let s = RsaAccumulator::setup(3);
    assert_eq!(s.name(), "rsa-accumulator");
    assert!(!s.verify(0, &s.prove(1)));
}

#[test]
fn rsa_draws_its_modulus() {
    let a = RsaAccumulator::setup(9);
    let b = RsaAccumulator::setup(9);
    assert_ne!(a.prove(0), b.prove(0));
    assert!(!b.verify(0, &a.prove(0)));
    // With few agents the powers of three stay below the modulus.
    let few = RsaAccumulator::setup(2);
    assert_eq!(few.prove(0), vec![243]);
    assert_eq!(few.prove(1), vec![27]);
    assert_eq!(few.root_bytes(), 3);
}

//! Prime numbers, and the search that hands every agent a prime of its own.
use vstd::arithmetic::div_mod::*;
use vstd::arithmetic::mul::*;
use vstd::prelude::*;

use crate::prime_supply::{
    lemma_prime_count_monotone, lemma_prime_supply, prime_count, prime_horizon, prime_supply,
};

verus! {

/// `d` is a positive divisor of `n`.
pub open spec fn divides(d: nat, n: nat) -> bool {
    d > 0 && n % d == 0
}

/// `p` is a prime number.
pub open spec fn is_prime(p: nat) -> bool {
    &&& p >= 2
    &&& forall|d: nat| 2 <= d < p ==> !#[trigger] divides(d, p)
}

/// `p` is a prime other than two.
pub open spec fn is_odd_prime(p: u64) -> bool {
    p % 2 == 1 && is_prime(p as nat)
}

/// `s` lists odd primes in increasing order and leaves none out: it is the sequence
/// 3, 5, 7, 11, .. cut off after `s.len()` members.
pub open spec fn initial_odd_primes(s: Seq<u64>) -> bool {
    &&& forall|i: int| 0 <= i < s.len() ==> is_odd_prime(#[trigger] s[i])
    &&& forall|i: int, j: int| 0 <= i < j < s.len() ==> s[i] < s[j]
    &&& forall|q: u64, i: int|
        #![trigger is_odd_prime(q), s[i]]
        0 <= i < s.len() && is_odd_prime(q) && q <= s[i] ==> s.contains(q)
}

/// The `n`-th odd prime, and the candidate after it, are `u64` values. The first
/// alternative implies the second, and is the one that a caller can test.
pub open spec fn enough_primes(n: nat) -> bool {
    n <= prime_supply() || n < prime_count(prime_horizon())
}

/// There is one such list of each length, and a longer one extends a shorter one:
/// the primes of the first agents do not depend on how many agents follow.
pub proof fn lemma_initial_odd_primes_prefix(s: Seq<u64>, t: Seq<u64>)
    requires
        initial_odd_primes(s),
        initial_odd_primes(t),
        s.len() <= t.len(),
    ensures
        s == t.take(s.len() as int),
{
    assert forall|i: int| 0 <= i < s.len() implies s[i] == t[i] by {
        lemma_same_member(s, t, i);
    }
}

/// The search can be asked for as many primes as any vector of them can hold.
pub proof fn lemma_enough_primes(n: nat)
    requires
        n <= 0x100_0000_0000_0000,
    ensures
        enough_primes(n),
{
}

/// A listed number is odd, above two, and no product of two numbers above one.
pub proof fn lemma_listed_is_prime(s: Seq<u64>, i: int, a: nat, b: nat)
    requires
        initial_odd_primes(s),
        0 <= i < s.len(),
        a >= 2,
        b >= 2,
    ensures
        s[i] >= 3,
        s[i] % 2 == 1,
        a * b != s[i],
{
    let p = s[i];
    assert(is_odd_prime(p));
    if a * b == p {
        lemma_mod_multiples_basic(b as int, a as int);
        assert(a < p) by (nonlinear_arith)
            requires
                a * b == p,
                a >= 2,
                b >= 2,
        ;
        assert(p as nat % a == 0) by {
            lemma_mul_is_commutative(a as int, b as int);
        }
        assert(divides(a, p as nat));
    }
}

/// An odd number above two that is passed over is a product of two numbers above one.
pub proof fn lemma_passed_over_is_composite(s: Seq<u64>, i: int, q: u64) -> (f: (nat, nat))
    requires
        initial_odd_primes(s),
        0 <= i < s.len(),
        q >= 3,
        q % 2 == 1,
        q <= s[i],
        !s.contains(q),
    ensures
        f.0 >= 2,
        f.1 >= 2,
        f.0 * f.1 == q,
{
    assert(!is_odd_prime(q));
    let n = q as nat;
    let d = choose|d: nat| 2 <= d < n && #[trigger] divides(d, n);
    lemma_fundamental_div_mod(n as int, d as int);
    let e = n / d;
    assert(e >= 2) by (nonlinear_arith)
        requires
            n == d * e,
            2 <= d < n,
    ;
    (d, e)
}

/// The list is strictly increasing: no number is listed twice, nor out of order.
pub proof fn lemma_listed_in_order(s: Seq<u64>, i: int, j: int)
    requires
        initial_odd_primes(s),
        0 <= i < j < s.len(),
    ensures
        s[i] < s[j],
{
}

proof fn lemma_same_member(s: Seq<u64>, t: Seq<u64>, i: int)
    requires
        initial_odd_primes(s),
        initial_odd_primes(t),
        0 <= i < s.len(),
        i < t.len(),
    ensures
        s[i] == t[i],
    decreases i, t[i],
{
    if s[i] < t[i] {
        assert(is_odd_prime(s[i]));
        let k = choose|k: int| 0 <= k < t.len() && t[k] == s[i];
        assert(t.contains(s[i]));
        lemma_same_member(s, t, k);
    } else if t[i] < s[i] {
        assert(is_odd_prime(t[i]));
        let k = choose|k: int| 0 <= k < s.len() && s[k] == t[i];
        assert(s.contains(t[i]));
        lemma_same_member(s, t, k);
    }
}

/// A composite number has a divisor whose square does not exceed it.
proof fn lemma_small_divisor(n: nat, d: nat)
    requires
        2 <= d < n,
        divides(d, n),
    ensures
        exists|e: nat| 2 <= e <= d && e * e <= n && #[trigger] divides(e, n),
{
    lemma_fundamental_div_mod(n as int, d as int);
    let q = n / d;
    assert(n == d * q);
    if d <= q {
        assert(d * d <= n) by (nonlinear_arith)
            requires
                n == d * q,
                d <= q,
        ;
    } else {
        assert(q * q <= n && q >= 2) by (nonlinear_arith)
            requires
                n == d * q,
                q < d < n,
                d >= 2,
                q >= 0,
        {
            assert(q > 0) by {
                if q == 0 {
                    assert(d * q == 0);
                }
            }
            assert(q != 1);
        }
        lemma_mod_multiples_basic(d as int, q as int);
        assert(divides(q, n));
    }
}

/// Trial division: tells whether `cand` is prime.
fn is_prime_candidate(cand: u64) -> (r: bool)
    requires
        cand >= 2,
    ensures
        r == is_prime(cand as nat),
{
    let mut d: u64 = 2;
    while d <= cand / d
        invariant
            2 <= d,
            cand >= 2,
            d <= cand,
            forall|e: nat| 2 <= e < d ==> !#[trigger] divides(e, cand as nat),
        decreases cand - d,
    {
        if cand % d == 0 {
            proof {
                assert(d < cand) by {
                    if d == cand {
                        lemma_div_by_self(cand as int);
                    }
                }
                assert(divides(d as nat, cand as nat));
            }
            return false;
        }
        assert(d < cand) by {
            if d == cand {
                lemma_div_by_self(cand as int);
            }
        }
        d = d + 1;
    }
    proof {
        assert forall|f: nat| 2 <= f < cand implies !#[trigger] divides(f, cand as nat) by {
            if divides(f, cand as nat) {
                lemma_small_divisor(cand as nat, f);
                let e = choose|e: nat|
                    2 <= e <= f && e * e <= cand && #[trigger] divides(e, cand as nat);
                assert(e >= d);
                lemma_fundamental_div_mod(cand as int, d as int);
                assert(d <= cand as int / d as int) by (nonlinear_arith)
                    requires
                        e >= d,
                        d >= 2,
                        e * e <= cand,
                {
                    assert(d * d <= e * e);
                    lemma_div_is_ordered((d * d) as int, cand as int, d as int);
                    lemma_div_by_multiple(d as int, d as int);
                }
            }
        }
    }
    true
}

/// The first `n` odd primes, in increasing order.
pub fn first_n_odd_primes(n: usize) -> (primes: Vec<u64>)
    requires
        enough_primes(n as nat),
    ensures
        primes@.len() == n,
        initial_odd_primes(primes@),
{
    let mut primes: Vec<u64> = Vec::new();
    let mut cand: u64 = 3;
    proof {
        if n <= prime_supply() {
            lemma_prime_supply();
        }
        reveal_with_fuel(prime_count, 3);
        assert(divides(2, 2));
        assert(prime_count(2) == 1);
    }
    while primes.len() < n
        invariant
            n < prime_count(prime_horizon()),
            primes@.len() <= n,
            3 <= cand,
            cand % 2 == 1,
            primes@.len() + 1 == prime_count((cand - 1) as nat),
            forall|i: int| 0 <= i < primes@.len() ==> is_odd_prime(#[trigger] primes@[i]),
            forall|i: int| 0 <= i < primes@.len() ==> #[trigger] primes@[i] < cand,
            forall|i: int, j: int| 0 <= i < j < primes@.len() ==> primes@[i] < primes@[j],
            forall|q: u64| #[trigger] is_odd_prime(q) && q < cand ==> primes@.contains(q),
        decreases u64::MAX - cand,
    {
        proof {
            if cand > prime_horizon() {
                lemma_prime_count_monotone(prime_horizon(), (cand - 1) as nat);
            }
        }
        let ghost before = primes@;
        let found = is_prime_candidate(cand);
        if found {
            primes.push(cand);
        }
        proof {
            assert(is_odd_prime(cand) == found);
            assert(divides(2, (cand + 1) as nat));
            assert(!is_prime((cand + 1) as nat));
            assert(prime_count((cand + 1) as nat) == prime_count(cand as nat));
            assert(prime_count(cand as nat) == prime_count((cand - 1) as nat) + if found {
                1nat
            } else {
                0nat
            });
            assert forall|q: u64| #[trigger]
                is_odd_prime(q) && q < cand + 2 implies primes@.contains(q) by {
                if q < cand {
                    let k = choose|k: int| 0 <= k < before.len() && before[k] == q;
                    assert(before.contains(q));
                    assert(primes@[k] == q);
                } else {
                    assert(q == cand);
                    assert(primes@[before.len() as int] == q);
                }
            }
        }
        cand = cand + 2;
    }
    primes
}

} // verus!

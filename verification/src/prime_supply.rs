//! How many primes there are: enough that the search in [`crate::primes`] never
//! leaves the range of `u64`.
//!
//! The argument is Chebyshev's, through one number. Let `d` be the product, over
//! the primes up to `n`, of the largest power of each that does not exceed `n`.
//! Every number from one to `n` divides `d`. Repeated differences of the whole
//! numbers `d / 1, .., d / n` (the rows of Leibniz's harmonic triangle, scaled by
//! `d`) are then whole numbers too, and one of them is `d` divided by a multiple of
//! a central binomial coefficient. So `d` is at least that coefficient, while as a
//! product of prime powers it is at most `n` to the number of primes.
use vstd::arithmetic::div_mod::*;
use vstd::arithmetic::mul::*;
use vstd::arithmetic::power::*;
use vstd::arithmetic::power2::*;
use vstd::prelude::*;

use crate::primes::{divides, is_prime};

verus! {

/// The number of primes that do not exceed `k`.
pub open spec fn prime_count(k: nat) -> nat
    decreases k,
{
    if k == 0 {
        0
    } else {
        prime_count((k - 1) as nat) + if is_prime(k) {
            1nat
        } else {
            0nat
        }
    }
}

/// The number of odd primes that the search can be asked for. A vector that held
/// more would be larger than the address space of any 64-bit machine.
pub open spec fn prime_supply() -> nat {
    0x100_0000_0000_0000
}

/// The largest candidate that the search can look at and still step past: the
/// candidate after it is `u64::MAX`.
pub open spec fn prime_horizon() -> nat {
    0xffff_ffff_ffff_fffd
}

// Divisibility -------------------------------------------------------------------

proof fn lemma_divides_product(d: nat, k: nat)
    requires
        d > 0,
    ensures
        divides(d, d * k),
{
    lemma_mod_multiples_basic(k as int, d as int);
    lemma_mul_is_commutative(d as int, k as int);
}

proof fn lemma_divides_quotient(d: nat, n: nat)
    requires
        divides(d, n),
    ensures
        n == d * (n / d),
{
    lemma_fundamental_div_mod(n as int, d as int);
}

proof fn lemma_divides_transitive(a: nat, b: nat, c: nat)
    requires
        divides(a, b),
        divides(b, c),
    ensures
        divides(a, c),
{
    lemma_divides_quotient(a, b);
    lemma_divides_quotient(b, c);
    let (i, j) = (b / a, c / b);
    assert(c == a * (i * j)) by (nonlinear_arith)
        requires
            b == a * i,
            c == b * j,
    ;
    lemma_divides_product(a, i * j);
}

proof fn lemma_divides_products(a: nat, b: nat, c: nat, d: nat)
    requires
        divides(a, c),
        divides(b, d),
    ensures
        divides(a * b, c * d),
{
    lemma_divides_quotient(a, c);
    lemma_divides_quotient(b, d);
    let (i, j) = (c / a, d / b);
    assert(c * d == (a * b) * (i * j)) by (nonlinear_arith)
        requires
            c == a * i,
            d == b * j,
    ;
    lemma_mul_strictly_positive(a as int, b as int);
    lemma_divides_product(a * b, i * j);
}

/// A divisor of a positive number does not exceed it.
proof fn lemma_divisor_bound(d: nat, n: nat)
    requires
        divides(d, n),
        n > 0,
    ensures
        d <= n,
{
    lemma_divides_quotient(d, n);
    let k = n / d;
    assert(d <= n) by (nonlinear_arith)
        requires
            n == d * k,
            n > 0,
            k >= 0,
    ;
}

/// Every number from two on has a prime divisor: the least divisor above one.
proof fn lemma_prime_divisor(n: nat, d: nat) -> (p: nat)
    requires
        2 <= d <= n,
        forall|e: nat| 2 <= e < d ==> !#[trigger] divides(e, n),
    ensures
        is_prime(p),
        divides(p, n),
    decreases n - d,
{
    if divides(d, n) {
        assert forall|e: nat| 2 <= e < d implies !#[trigger] divides(e, d) by {
            if divides(e, d) {
                lemma_divides_transitive(e, d, n);
            }
        }
        d
    } else {
        assert(divides(n, n)) by {
            lemma_mod_self_0(n as int);
        }
        lemma_prime_divisor(n, d + 1)
    }
}

// The common multiple ------------------------------------------------------------

/// The largest power of `p` that does not exceed `n`.
spec fn top_power(p: nat, n: nat) -> nat
    decreases n,
{
    if p < 2 || n < p {
        1
    } else {
        proof {
            lemma_div_decreases(n as int, p as int);
        }
        p * top_power(p, n / p)
    }
}

proof fn lemma_top_power_bound(p: nat, n: nat)
    requires
        n >= 1,
    ensures
        1 <= top_power(p, n) <= n,
    decreases n,
{
    if p >= 2 && n >= p {
        lemma_div_decreases(n as int, p as int);
        lemma_div_non_zero(n as int, p as int);
        lemma_top_power_bound(p, n / p);
        lemma_fundamental_div_mod(n as int, p as int);
        let t = top_power(p, n / p);
        let q = n / p;
        assert(1 <= p * t <= p * q) by (nonlinear_arith)
            requires
                1 <= t <= q,
                p >= 1,
        ;
    }
}

/// The product over the primes up to `q` of the largest powers up to `n`.
spec fn common_multiple(q: nat, n: nat) -> nat
    decreases q,
{
    if q == 0 {
        1
    } else if is_prime(q) {
        top_power(q, n) * common_multiple((q - 1) as nat, n)
    } else {
        common_multiple((q - 1) as nat, n)
    }
}

proof fn lemma_common_multiple_bound(q: nat, n: nat)
    requires
        n >= 1,
    ensures
        1 <= common_multiple(q, n) <= pow(n as int, prime_count(q)),
    decreases q,
{
    if q == 0 {
        lemma_pow0(n as int);
    } else {
        let r = (q - 1) as nat;
        lemma_common_multiple_bound(r, n);
        if is_prime(q) {
            lemma_top_power_bound(q, n);
            let t = top_power(q, n) as int;
            let c = common_multiple(r, n) as int;
            let e = pow(n as int, prime_count(r));
            assert(1 <= t * c <= n * e) by (nonlinear_arith)
                requires
                    1 <= t <= n,
                    1 <= c <= e,
            ;
            reveal(pow);
            assert(pow(n as int, prime_count(q)) == n * e);
        }
    }
}

/// Splits off from `k` the largest power of `p` that divides it.
proof fn lemma_split_power(p: nat, k: nat, n: nat) -> (parts: (nat, nat))
    requires
        p >= 2,
        1 <= k <= n,
    ensures
        k == parts.0 * parts.1,
        parts.1 >= 1,
        divides(parts.0, top_power(p, n)),
        divides(parts.1, k),
        !divides(p, parts.1),
    decreases k,
{
    if divides(p, k) {
        lemma_divides_quotient(p, k);
        lemma_divisor_bound(p, k);
        let l = k / p;
        lemma_div_decreases(k as int, p as int);
        lemma_div_non_zero(k as int, p as int);
        lemma_div_is_ordered(k as int, n as int, p as int);
        let (c, m) = lemma_split_power(p, l, n / p);
        assert(divides(p, p)) by {
            lemma_mod_self_0(p as int);
        }
        lemma_divides_products(p, c, p, top_power(p, n / p));
        assert(k == (p * c) * m) by (nonlinear_arith)
            requires
                k == p * l,
                l == c * m,
        ;
        assert(divides(l, k)) by {
            lemma_mul_is_commutative(p as int, l as int);
            lemma_divides_product(l, p);
        }
        lemma_divides_transitive(m, l, k);
        (p * c, m)
    } else {
        assert(divides(k, k)) by {
            lemma_mod_self_0(k as int);
        }
        assert(divides(1, top_power(p, n)));
        lemma_mul_basics(k as int);
        (1, k)
    }
}

/// A number up to `n` whose prime divisors are all at most `q` divides the common
/// multiple.
proof fn lemma_common_multiple(k: nat, q: nat, n: nat)
    requires
        1 <= k <= n,
        forall|p: nat| is_prime(p) && #[trigger] divides(p, k) ==> p <= q,
    ensures
        divides(k, common_multiple(q, n)),
    decreases q,
{
    if q == 0 {
        if k >= 2 {
            let p = lemma_prime_divisor(k, 2);
            assert(false);
        }
    } else {
        let r = (q - 1) as nat;
        if is_prime(q) {
            let (c, m) = lemma_split_power(q, k, n);
            lemma_divisor_bound(m, k);
            assert forall|p: nat| is_prime(p) && #[trigger] divides(p, m) implies p <= r by {
                lemma_divides_transitive(p, m, k);
                assert(p <= q);
                assert(p != q);
            }
            lemma_common_multiple(m, r, n);
            lemma_divides_products(c, m, top_power(q, n), common_multiple(r, n));
        } else {
            assert forall|p: nat| is_prime(p) && #[trigger] divides(p, k) implies p <= r by {
                assert(p <= q);
            }
            lemma_common_multiple(k, r, n);
        }
    }
}

// Binomial coefficients ----------------------------------------------------------

spec fn binomial(n: nat, k: nat) -> nat
    decreases n,
{
    if k == 0 {
        1
    } else if n == 0 {
        0
    } else {
        binomial((n - 1) as nat, (k - 1) as nat) + binomial((n - 1) as nat, k)
    }
}

/// `k * C(n, k) == n * C(n - 1, k - 1)`.
proof fn lemma_binomial_absorption(n: nat, k: nat)
    requires
        n >= 1,
        k >= 1,
    ensures
        k * binomial(n, k) == n * binomial((n - 1) as nat, (k - 1) as nat),
    decreases n,
{
    reveal_with_fuel(binomial, 2);
    if n == 1 {
        if k == 1 {
            assert(binomial(1, 1) == binomial(0, 0) + binomial(0, 1));
        } else {
            assert(binomial(1, k) == 0);
            assert(binomial(0, (k - 1) as nat) == 0);
            lemma_mul_basics(k as int);
        }
    } else {
        let n1 = (n - 1) as nat;
        let n2 = (n - 2) as nat;
        let k1 = (k - 1) as nat;
        lemma_binomial_absorption(n1, k);
        let a = binomial(n1, k1) as int;
        let b = binomial(n1, k) as int;
        let c = binomial(n2, k1) as int;
        assert(k * b == n1 * c);
        if k == 1 {
            assert(a == 1 && c == 1);
            assert(k * (a + b) == n * a) by (nonlinear_arith)
                requires
                    k * b == n1 * c,
                    n1 == n - 1,
                    k == 1,
                    a == 1,
                    c == 1,
            ;
        } else {
            let d = binomial(n2, (k - 2) as nat) as int;
            lemma_binomial_absorption(n1, k1);
            assert(k1 * a == n1 * d);
            assert(a == d + c);
            assert(k * (a + b) == n * a) by (nonlinear_arith)
                requires
                    k * b == n1 * c,
                    k1 * a == n1 * d,
                    a == d + c,
                    n1 == n - 1,
                    k1 == k - 1,
            ;
        }
    }
}

proof fn lemma_binomial_positive(n: nat, k: nat)
    requires
        k <= n,
    ensures
        binomial(n, k) >= 1,
    decreases n,
{
    if k > 0 {
        lemma_binomial_positive((n - 1) as nat, (k - 1) as nat);
    }
}

/// A central coefficient is at least `2^m`.
proof fn lemma_central_binomial(m: nat)
    ensures
        binomial(2 * m, m) >= pow(2, m),
    decreases m,
{
    if m == 0 {
        lemma_pow0(2);
    } else {
        let l = (m - 1) as nat;
        let t = (2 * m - 1) as nat;
        let s = (2 * m - 2) as nat;
        lemma_central_binomial(l);
        assert(2 * l == s);
        assert(binomial(2 * m, m) == binomial(t, l) + binomial(t, m));
        assert(binomial(t, m) == binomial(s, l) + binomial(s, m));
        if l > 0 {
            assert(binomial(t, l) == binomial(s, (l - 1) as nat) + binomial(s, l));
        }
        reveal(pow);
        assert(pow(2, m) == 2 * pow(2, l));
    }
}

// The harmonic triangle ----------------------------------------------------------

/// The entry in row `n`, column `k` of the harmonic triangle, times `d`.
spec fn harmonic(d: nat, n: nat, k: nat) -> int
    decreases k,
{
    if k <= 1 {
        (d / n) as int
    } else {
        harmonic(d, (n - 1) as nat, (k - 1) as nat) - harmonic(d, n, (k - 1) as nat)
    }
}

proof fn lemma_harmonic(d: nat, n: nat, k: nat)
    requires
        1 <= k <= n,
        forall|i: nat| 1 <= i <= n ==> #[trigger] divides(i, d),
    ensures
        harmonic(d, n, k) * (k * binomial(n, k)) == d,
    decreases k,
{
    lemma_binomial_absorption(n, k);
    if k == 1 {
        assert(divides(n, d));
        lemma_divides_quotient(n, d);
        assert(binomial((n - 1) as nat, 0) == 1);
        lemma_mul_basics(n as int);
        lemma_mul_is_commutative(harmonic(d, n, k), n as int);
    } else {
        let n1 = (n - 1) as nat;
        let k1 = (k - 1) as nat;
        lemma_harmonic(d, n1, k1);
        lemma_harmonic(d, n, k1);
        let u = binomial(n1, k1) as int;
        let v = binomial(n, k1) as int;
        let w = binomial(n1, (k - 2) as nat) as int;
        lemma_binomial_positive(n1, k1);
        lemma_binomial_positive(n, k1);
        lemma_binomial_absorption(n, k1);
        assert(v == w + u);
        let x = k1 * u;
        let y = k1 * v;
        let z = n * u;
        let a = harmonic(d, n1, k1);
        let b = harmonic(d, n, k1);
        assert(z * (y - x) == x * y) by (nonlinear_arith)
            requires
                v == w + u,
                k1 * v == n * w,
                x == k1 * u,
                y == k1 * v,
                z == n * u,
        ;
        assert(x * y > 0) by (nonlinear_arith)
            requires
                x == k1 * u,
                y == k1 * v,
                k1 >= 1,
                u >= 1,
                v >= 1,
        ;
        assert(((a - b) * z) * (x * y) == d * (x * y)) by (nonlinear_arith)
            requires
                a * x == d,
                b * y == d,
                z * (y - x) == x * y,
        {
            assert((a * x) * (y * z) == d * (y * z));
            assert((b * y) * (x * z) == d * (x * z));
            assert(((a - b) * z) * (x * y) == (a * x) * (y * z) - (b * y) * (x * z));
            assert(d * (y * z) - d * (x * z) == d * (z * (y - x)));
        }
        lemma_mul_is_commutative((a - b) * z, x * y);
        lemma_mul_is_commutative(d as int, x * y);
        lemma_mul_equality_converse(x * y, (a - b) * z, d as int);
    }
}

// The bound ----------------------------------------------------------------------

/// Chebyshev's lower bound: `(2m)^(number of primes up to 2m) >= 2^m`.
pub proof fn lemma_prime_count_lower_bound(m: nat)
    requires
        m >= 1,
    ensures
        pow((2 * m) as int, prime_count(2 * m)) >= pow(2, m),
{
    let n = 2 * m;
    let d = common_multiple(n, n);
    lemma_common_multiple_bound(n, n);
    assert forall|i: nat| 1 <= i <= n implies #[trigger] divides(i, d) by {
        assert forall|p: nat| is_prime(p) && #[trigger] divides(p, i) implies p <= n by {
            lemma_divisor_bound(p, i);
        }
        lemma_common_multiple(i, n, n);
    }
    lemma_harmonic(d, n, m);
    lemma_central_binomial(m);
    lemma_pow_positive(2, m);
    let a = harmonic(d, n, m);
    let c = binomial(n, m) as int;
    assert(d >= c) by (nonlinear_arith)
        requires
            a * (m * c) == d,
            d >= 1,
            c >= 1,
            m >= 1,
    {
        assert(m * c >= c);
        assert(a >= 1) by {
            if a <= 0 {
                assert(a * (m * c) <= 0);
            }
        }
        assert(a * (m * c) >= m * c);
    }
}

/// The number of primes up to a bound does not fall when the bound grows.
pub proof fn lemma_prime_count_monotone(a: nat, b: nat)
    requires
        a <= b,
    ensures
        prime_count(a) <= prime_count(b),
    decreases b,
{
    if a < b {
        lemma_prime_count_monotone(a, (b - 1) as nat);
    }
}

/// More than [`prime_supply`] primes lie within the [`prime_horizon`].
pub proof fn lemma_prime_supply()
    ensures
        prime_count(prime_horizon()) > prime_supply(),
{
    let m: nat = 0x4000_0000_0000_0000;
    let e = prime_count(2 * m);
    lemma_prime_count_lower_bound(m);
    lemma_pow2(63);
    lemma2_to64_rest();
    assert(pow(2, 63) == 2 * m);
    lemma_pow_multiplies(2, 63, e);
    lemma_pow_increases_converse(2, m, 63 * e);
    lemma_prime_count_monotone(2 * m, prime_horizon());
}

} // verus!

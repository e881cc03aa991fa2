//! RSA accumulator: a single constant-size accumulator commits all agents.
//!
//! Each agent has an odd prime of its own. The accumulator is `3^(product of the
//! primes) mod m`; an agent's witness leaves its own prime out of the product, so
//! raising the witness to that prime gives the accumulator.
use vstd::arithmetic::div_mod::*;
use vstd::arithmetic::mul::*;
use vstd::arithmetic::power::*;
use vstd::arithmetic::power2::*;
use vstd::prelude::*;

use crate::natural::{
    be_bytes, be_value, bit_length, bit_or, lemma_be_bytes_shortest, lemma_be_roundtrip,
    lemma_be_value_fold, lemma_bit_length_bound, lemma_bit_length_powers, lemma_byte_count,
    lemma_or_one, power_mod, Natural,
};
use crate::primes::{enough_primes, first_n_odd_primes, initial_odd_primes};
use crate::scheme::LivenessScheme;

verus! {

/// The number that the primes are exponents of.
pub open spec fn generator() -> nat {
    3
}

/// The product of a list of numbers; one for the empty list.
pub open spec fn product(s: Seq<u64>) -> nat
    decreases s.len(),
{
    if s.len() == 0 {
        1
    } else {
        product(s.drop_last()) * s.last() as nat
    }
}

/// The number of primes that `n` agents get: one each, and never none.
pub open spec fn prime_slots(n: usize) -> nat {
    if n == 0 {
        1
    } else {
        n as nat
    }
}

/// A single constant-size accumulator that commits all agents.
pub struct RsaAccumulator {
    modulus: Natural,
    acc: Natural,
    primes: Vec<u64>,
    witnesses: Vec<Natural>,
}

impl RsaAccumulator {
    /// The modulus.
    pub closed spec fn modulus(&self) -> nat {
        self.modulus@
    }

    /// The accumulator value.
    pub closed spec fn acc(&self) -> nat {
        self.acc@
    }

    /// The agents' primes.
    pub closed spec fn primes(&self) -> Seq<u64> {
        self.primes@
    }

    /// The agents' witnesses.
    pub closed spec fn witnesses(&self) -> Seq<nat> {
        self.witnesses@.map_values(|w: Natural| w@)
    }

    /// The modulus comes from these two draws of at most 1024 bits, each with its lowest
    /// bit set.
    pub open spec fn drawn_from(&self, p: nat, q: nat) -> bool {
        &&& p < pow2(1024)
        &&& q < pow2(1024)
        &&& self.modulus() == bit_or(p, 1) * bit_or(q, 1)
    }

    /// The numbers are held in their shortest form.
    pub closed spec fn encoded(&self) -> bool {
        &&& self.modulus.wf()
        &&& self.acc.wf()
        &&& forall|i: int| 0 <= i < self.witnesses@.len() ==> (#[trigger] self.witnesses@[i]).wf()
    }

    /// All of `setup` that follows the drawing of the two factors. Each draw has its
    /// lowest bit set, which makes the modulus odd.
    pub fn from_draws(p: &Natural, q: &Natural, n: usize) -> (s: Self)
        requires
            p@ < pow2(1024),
            q@ < pow2(1024),
            enough_primes(prime_slots(n)),
        ensures
            s.wf(),
            s.drawn_from(p@, q@),
            s.primes().len() == prime_slots(n),
            s.primes().len() == if n == 0 {
                1
            } else {
                n as int
            },
            s.modulus() == (2 * (p@ / 2) + 1) * (2 * (q@ / 2) + 1),
    {
        let one = Natural::one();
        let modulus = p.or(&one).times(&q.or(&one));
        proof {
            lemma_factor_bound(p@, q@);
            lemma_or_one(p@);
            lemma_or_one(q@);
        }
        let g = Natural::from_u64(3);
        let primes = first_n_odd_primes(if n == 0 { 1 } else { n });
        let mut full_exp = Natural::one();
        let mut i: usize = 0;
        while i < primes.len()
            invariant
                i <= primes.len(),
                full_exp.wf(),
                full_exp@ == product(primes@.take(i as int)),
            decreases primes.len() - i,
        {
            full_exp = full_exp.times(&Natural::from_u64(primes[i]));
            proof {
                assert(primes@.take(i + 1).drop_last() =~= primes@.take(i as int));
            }
            i = i + 1;
        }
        proof {
            assert(primes@.take(primes@.len() as int) =~= primes@);
        }
        let acc = g.modpow(&full_exp, &modulus);
        let mut witnesses: Vec<Natural> = Vec::new();
        let mut j: usize = 0;
        while j < primes.len()
            invariant
                j <= primes.len(),
                modulus@ > 0,
                g@ == generator(),
                full_exp@ == product(primes@),
                initial_odd_primes(primes@),
                witnesses@.len() == j,
                forall|k: int| 0 <= k < j ==> (#[trigger] witnesses@[k]).wf(),
                forall|k: int|
                    0 <= k < j ==> (#[trigger] witnesses@[k])@ == power_mod(
                        generator(),
                        product(primes@.remove(k)),
                        modulus@,
                    ),
            decreases primes.len() - j,
        {
            let pr = Natural::from_u64(primes[j]);
            let exp = full_exp.quotient(&pr);
            proof {
                lemma_product_remove(primes@, j as int);
                lemma_div_multiples_vanish(product(primes@.remove(j as int)) as int, pr@ as int);
            }
            witnesses.push(g.modpow(&exp, &modulus));
            j = j + 1;
        }
        RsaAccumulator { modulus, acc, primes, witnesses }
    }
}

impl LivenessScheme for RsaAccumulator {
    open spec fn wf(&self) -> bool {
        &&& self.encoded()
        &&& self.modulus() % 2 == 1
        &&& self.modulus() < pow2(2048)
        &&& initial_odd_primes(self.primes())
        &&& self.acc() == power_mod(generator(), product(self.primes()), self.modulus())
        &&& self.witnesses().len() == self.primes().len()
        &&& forall|i: int|
            0 <= i < self.primes().len() ==> #[trigger] self.witnesses()[i] == power_mod(
                generator(),
                product(self.primes().remove(i)),
                self.modulus(),
            )
    }

    open spec fn scheme_name(&self) -> Seq<char> {
        "rsa-accumulator"@
    }

    open spec fn can_setup(n: usize) -> bool {
        enough_primes(prime_slots(n))
    }

    open spec fn covers(&self, agent: usize) -> bool {
        agent < self.primes().len()
    }

    open spec fn can_prove(&self, agent: usize) -> bool {
        agent < self.primes().len()
    }

    open spec fn proof_of(&self, agent: usize) -> Seq<u8> {
        be_bytes(self.witnesses()[agent as int])
    }

    open spec fn can_verify(&self, agent: usize, proof: Seq<u8>) -> bool {
        agent < self.primes().len()
    }

    open spec fn accepts(&self, agent: usize, proof: Seq<u8>) -> bool {
        power_mod(be_value(proof), self.primes()[agent as int] as nat, self.modulus()) == self.acc()
    }

    open spec fn window_bytes(&self) -> nat {
        (bit_length(self.acc()) + 7) / 8
    }

    proof fn lemma_complete(&self, agent: usize) {
        let i = agent as int;
        let m = self.modulus();
        let p = self.primes()[i] as nat;
        let rest = product(self.primes().remove(i));
        let w = self.witnesses()[i];
        lemma_be_roundtrip(w);
        lemma_product_remove(self.primes(), i);
        lemma_power_mod_power(generator(), rest, p, m);
    }

    fn name(&self) -> (r: &'static str) {
        "rsa-accumulator"
    }

    /// Draws two factors of at most 1024 bits, each in a draw of its own and whatever
    /// the number of agents, for a demonstration modulus; nothing here rests on the
    /// modulus being hard to factor.
    fn setup(n: usize) -> (s: Self)
        ensures
            s.primes().len() == prime_slots(n),
            s.primes().len() == if n == 0 {
                1
            } else {
                n as int
            },
            exists|p: nat, q: nat| s.drawn_from(p, q),
            exists|p: Natural, q: Natural| #[trigger]
                s.drawn_from(p@, q@) && call_ensures(Natural::draw, (1024u64, 0usize), p)
                    && call_ensures(Natural::draw, (1024u64, 1usize), q) && p.is_drawn(1024)
                    && q.is_drawn(1024) && s.modulus() == (2 * (p@ / 2) + 1) * (2 * (q@ / 2) + 1),
    {
        let p = Natural::draw(1024, 0);
        let q = Natural::draw(1024, 1);
        let s = RsaAccumulator::from_draws(&p, &q, n);
        proof {
            assert forall|agent: usize|
                #![trigger s.can_prove(agent)]
                #![trigger s.proof_of(agent)]
                agent < n implies {
                &&& s.can_prove(agent)
                &&& s.can_verify(agent, s.proof_of(agent))
                &&& s.accepts(agent, s.proof_of(agent))
            } by {
                s.lemma_complete(agent);
            }
        }
        s
    }

    fn prove(&self, agent: usize) -> (proof: Vec<u8>)
        ensures
            be_value(proof@) == self.witnesses()[agent as int],
    {
        proof {
            lemma_be_roundtrip(self.witnesses()[agent as int]);
        }
        self.witnesses[agent].to_bytes_be()
    }

    fn verify(&self, agent: usize, proof: &[u8]) -> (r: bool)
        ensures
            r <==> pow(be_value(proof@) as int, self.primes()[agent as int] as nat)
                % self.modulus() as int == self.acc(),
    {
        proof {
            lemma_rsa_accepts(self, agent, proof@);
        }
        let witness = Natural::from_bytes_be(proof);
        let px = Natural::from_u64(self.primes[agent]);
        witness.modpow(&px, &self.modulus).equals(&self.acc)
    }

    fn root_bytes(&self) -> (r: usize) {
        proof {
            lemma_mod_bound(pow(generator() as int, product(self.primes())), self.modulus() as int);
            lemma_bit_length_bound(self.acc(), 2048);
        }
        (self.acc.bits() as usize + 7) / 8
    }
}

/// A witness is accepted exactly where raising it to the agent's own prime gives the
/// accumulator, modulo the modulus. The bytes are read from left to right in base 256.
pub proof fn lemma_rsa_accepts(s: &RsaAccumulator, agent: usize, witness: Seq<u8>)
    requires
        s.wf(),
        agent < s.primes().len(),
    ensures
        s.accepts(agent, witness) <==> pow(
            be_value(witness) as int,
            s.primes()[agent as int] as nat,
        ) % s.modulus() as int == s.acc(),
        s.accepts(agent, witness) <==> pow(
            witness.fold_left(0int, |v: int, x: u8| 256 * v + x),
            s.primes()[agent as int] as nat,
        ) % s.modulus() as int == s.acc(),
{
    lemma_be_value_fold(witness);
    lemma_mod_bound(
        pow(be_value(witness) as int, s.primes()[agent as int] as nat),
        s.modulus() as int,
    );
}

/// The accumulator is three raised to the product of all the primes, and an agent's
/// proof spells, in its shortest bytes, three raised to the product of all the others.
pub proof fn lemma_rsa_values(s: &RsaAccumulator, agent: usize)
    requires
        s.wf(),
        agent < s.primes().len(),
    ensures
        s.acc() == pow(
            3,
            s.primes().fold_left(1nat, |a: nat, p: u64| a * p as nat),
        ) % s.modulus() as int,
        be_value(s.proof_of(agent)) == pow(
            3,
            s.primes().remove(agent as int).fold_left(1nat, |a: nat, p: u64| a * p as nat),
        ) % s.modulus() as int,
        s.proof_of(agent).len() >= 1,
        s.proof_of(agent).len() > 1 ==> s.proof_of(agent)[0] != 0,
{
    let f = |a: nat, p: u64| a * p as nat;
    let rest = s.primes().remove(agent as int);
    lemma_product_fold(s.primes(), f);
    lemma_product_fold(rest, f);
    lemma_mod_bound(pow(3, product(s.primes())), s.modulus() as int);
    lemma_mod_bound(pow(3, product(rest)), s.modulus() as int);
    lemma_be_bytes_shortest(s.witnesses()[agent as int]);
}

proof fn lemma_product_fold(s: Seq<u64>, f: spec_fn(nat, u64) -> nat)
    requires
        forall|a: nat, p: u64| #[trigger] f(a, p) == a * p as nat,
    ensures
        product(s) == s.fold_left(1nat, f),
    decreases s.len(),
{
    if s.len() > 0 {
        lemma_product_fold(s.drop_last(), f);
    }
}

/// Whatever `setup` returns, its modulus comes from two draws of 1024 bits, one for each
/// factor, and the number of agents has no part in them.
pub proof fn lemma_rsa_setup_draws(n: usize, s: RsaAccumulator)
    requires
        call_ensures(RsaAccumulator::setup, (n,), s),
    ensures
        exists|p: Natural, q: Natural| #[trigger]
            call_ensures(Natural::draw, (1024u64, 0usize), p) && #[trigger] call_ensures(
                Natural::draw,
                (1024u64, 1usize),
                q,
            ) && p.is_drawn(1024) && q.is_drawn(1024) && s.modulus() == (2 * (p@ / 2) + 1) * (2 * (
            q@ / 2) + 1),
{
}

/// The modulus is the product of the two draws, each raised to the next odd number
/// where it is even.
pub proof fn lemma_rsa_modulus(s: &RsaAccumulator, p: nat, q: nat)
    requires
        s.drawn_from(p, q),
    ensures
        p < pow2(1024),
        q < pow2(1024),
        s.modulus() == (2 * (p / 2) + 1) * (2 * (q / 2) + 1),
{
    lemma_or_one(p);
    lemma_or_one(q);
}

/// The bytes fetched per window are just enough for the accumulator.
pub proof fn lemma_rsa_window(s: &RsaAccumulator)
    ensures
        s.acc() == 0 ==> s.window_bytes() == 0,
        s.acc() > 0 ==> s.window_bytes() >= 1,
        s.acc() < pow2(8 * s.window_bytes()),
        s.window_bytes() >= 1 ==> pow2((8 * (s.window_bytes() - 1)) as nat) <= s.acc(),
{
    let v = s.acc();
    let w = s.window_bytes();
    lemma_bit_length_powers(v);
    if bit_length(v) < 8 * w {
        lemma_pow2_strictly_increases(bit_length(v), 8 * w);
    }
    if v > 0 {
        if 8 * (w - 1) < bit_length(v) - 1 {
            lemma_pow2_strictly_increases((8 * (w - 1)) as nat, (bit_length(v) - 1) as nat);
        }
    }
}

/// Agents can be set up where there are primes enough for them. Those with a prime, and
/// no others, can be given a proof, and any bytes can be examined as a proof of theirs.
/// The name is the same in every state.
pub proof fn lemma_rsa_shape(s: &RsaAccumulator, n: usize, agent: usize, proof: Seq<u8>)
    ensures
        RsaAccumulator::can_setup(n) <==> enough_primes(
            if n == 0 {
                1
            } else {
                n as nat
            },
        ),
        s.covers(agent) <==> agent < s.primes().len(),
        s.can_prove(agent) <==> agent < s.primes().len(),
        s.can_verify(agent, proof) <==> agent < s.primes().len(),
        s.scheme_name() == "rsa-accumulator"@,
{
}

/// The accumulator and every witness fit in 256 bytes, however many agents there are.
pub proof fn lemma_constant_size(s: &RsaAccumulator, agent: usize)
    requires
        s.wf(),
        s.covers(agent),
    ensures
        s.window_bytes() <= 256,
        s.proof_of(agent).len() <= 256,
{
    let w = s.witnesses()[agent as int];
    lemma_mod_bound(pow(generator() as int, product(s.primes())), s.modulus() as int);
    lemma_mod_bound(
        pow(generator() as int, product(s.primes().remove(agent as int))),
        s.modulus() as int,
    );
    lemma_bit_length_bound(s.acc(), 2048);
    lemma_bit_length_bound(w, 2048);
    lemma_byte_count(w);
}

/// `(b^e mod m)^f mod m == b^(f e) mod m`.
proof fn lemma_power_mod_power(b: nat, e: nat, f: nat, m: nat)
    requires
        m > 0,
    ensures
        power_mod(power_mod(b, e, m), f, m) == power_mod(b, f * e, m),
{
    let x = pow(b as int, e);
    lemma_mod_bound(x, m as int);
    lemma_pow_mod_noop(x, f, m as int);
    lemma_pow_multiplies(b as int, e, f);
    lemma_mul_is_commutative(e as int, f as int);
}

proof fn lemma_factor_bound(p: nat, q: nat)
    requires
        p < pow2(1024),
        q < pow2(1024),
    ensures
        (bit_or(p, 1) * bit_or(q, 1)) % 2 == 1,
        0 < bit_or(p, 1) * bit_or(q, 1) < pow2(2048),
{
    lemma_or_one(p);
    lemma_or_one(q);
    lemma_pow2_unfold(1024);
    lemma_pow2_adds(1024, 1024);
    let (x, y) = (bit_or(p, 1), bit_or(q, 1));
    let (a, b) = (p / 2, q / 2);
    let h = pow2(1024);
    assert(x * y == 2 * (2 * (a * b) + a + b) + 1) by (nonlinear_arith)
        requires
            x == 2 * a + 1,
            y == 2 * b + 1,
    ;
    assert(x * y < h * h) by (nonlinear_arith)
        requires
            x < h,
            y < h,
    ;
}

/// Taking one factor out of a product divides the product by it.
pub proof fn lemma_product_remove(s: Seq<u64>, i: int)
    requires
        0 <= i < s.len(),
    ensures
        product(s) == s[i] as nat * product(s.remove(i)),
    decreases s.len(),
{
    let t = s.drop_last();
    if i == s.len() - 1 {
        assert(s.remove(i) =~= t);
        lemma_mul_is_commutative(product(t) as int, s[i] as int);
    } else {
        lemma_product_remove(t, i);
        let r = s.remove(i);
        assert(r.drop_last() =~= t.remove(i));
        assert(r.last() == s.last());
        lemma_mul_is_associative(s[i] as int, product(t.remove(i)) as int, s.last() as int);
    }
}

} // verus!

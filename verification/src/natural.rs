//! Natural numbers of any size.
//!
//! A [`Natural`] is held as its big-endian bytes. The arithmetic on it is done by
//! `num-bigint`: each operation below hands the bytes to a `BigUint`, makes one call,
//! and takes the bytes of the result.
use num_bigint::{BigUint, RandBigInt};
use num_traits::One;
use vstd::arithmetic::div_mod::*;
use vstd::arithmetic::power::*;
use vstd::arithmetic::power2::*;
use vstd::prelude::*;

verus! {

/// The number whose big-endian base-256 digits are `b`.
pub open spec fn be_value(b: Seq<u8>) -> nat
    decreases b.len(),
{
    if b.len() == 0 {
        0
    } else {
        256 * be_value(b.drop_last()) + b.last() as nat
    }
}

/// The big-endian base-256 digits of `v`: none superfluous, and one for zero.
pub open spec fn be_bytes(v: nat) -> Seq<u8>
    decreases v,
{
    if v < 256 {
        seq![v as u8]
    } else {
        be_bytes(v / 256).push((v % 256) as u8)
    }
}

/// The number of binary digits of `v`; none for zero.
pub open spec fn bit_length(v: nat) -> nat
    decreases v,
{
    if v == 0 {
        0
    } else {
        1 + bit_length(v / 2)
    }
}

/// Bitwise or.
pub open spec fn bit_or(a: nat, b: nat) -> nat
    decreases a + b,
{
    if a == 0 && b == 0 {
        0
    } else {
        2 * bit_or(a / 2, b / 2) + if a % 2 == 1 || b % 2 == 1 {
            1nat
        } else {
            0nat
        }
    }
}

/// `b^e mod m`.
pub open spec fn power_mod(b: nat, e: nat, m: nat) -> nat {
    (pow(b as int, e) % (m as int)) as nat
}

/// A natural number; its view is its value.
pub struct Natural {
    be: Vec<u8>,
}

impl View for Natural {
    type V = nat;

    open spec fn view(&self) -> nat {
        be_value(self.bytes())
    }
}

impl Natural {
    /// The bytes that the number is held as.
    pub closed spec fn bytes(&self) -> Seq<u8> {
        self.be@
    }

    /// The bytes are the shortest that stand for the number.
    pub open spec fn wf(&self) -> bool {
        self.bytes() == be_bytes(self@)
    }

    /// The number that big-endian bytes stand for. Leading zeros are allowed, and no
    /// bytes at all stand for zero.
    pub fn from_bytes_be(bytes: &[u8]) -> (r: Natural)
        ensures
            r.wf(),
            r@ == be_value(bytes@),
    {
        Self::parse(bytes)
    }

    /// The big-endian bytes of the number.
    pub fn to_bytes_be(&self) -> (r: Vec<u8>)
        ensures
            r@ == self.bytes(),
            self.wf() ==> r@ == be_bytes(self@),
    {
        self.be.clone()
    }

    /// `BigUint::from_bytes_be`, written back by `BigUint::to_bytes_be`: the value is
    /// that of the given digits, and the bytes written are the shortest ones, a single
    /// zero for zero. The latter is what `wf` says of the result here and below.
    #[verifier::external_body]
    fn parse(bytes: &[u8]) -> (r: Natural)
        ensures
            r.wf(),
            r@ == be_value(bytes@),
    {
        Natural { be: BigUint::from_bytes_be(bytes).to_bytes_be() }
    }

    /// `RandBigInt::gen_biguint` on the thread's generator: some number of at most
    /// `bit_size` binary digits. Which one is left to chance. The bound on `bit_size`
    /// keeps the buffer that the call allocates within reach of every machine; the
    /// generator panics where the operating system has no randomness to give.
    #[verifier::external_body]
    pub(crate) fn random(bit_size: u64) -> (r: Natural)
        requires
            bit_size <= u32::MAX,
        ensures
            r.wf(),
            r@ < pow2(bit_size as nat),
    {
        Natural { be: rand::thread_rng().gen_biguint(bit_size).to_bytes_be() }
    }

    /// The number came back from a call of the generator for numbers of at most
    /// `bit_size` binary digits.
    pub closed spec fn is_drawn(&self, bit_size: u64) -> bool {
        call_ensures(Natural::random, (bit_size,), *self)
    }

    /// A number of at most `bit_size` binary digits, drawn for a slot. The slot has no
    /// part in the draw: it tells the draws of one setup apart, so that a contract that
    /// speaks of the numbers of two slots speaks of two draws.
    pub fn draw(bit_size: u64, _slot: usize) -> (r: Natural)
        requires
            bit_size <= u32::MAX,
        ensures
            r.is_drawn(bit_size),
            r.wf(),
            r@ < pow2(bit_size as nat),
    {
        Natural::random(bit_size)
    }

    /// `BigUint::one`: the number one.
    #[verifier::external_body]
    pub(crate) fn one() -> (r: Natural)
        ensures
            r.wf(),
            r@ == 1,
    {
        Natural { be: BigUint::one().to_bytes_be() }
    }

    /// `BigUint::from` on a `u64`: the same number.
    #[verifier::external_body]
    pub(crate) fn from_u64(v: u64) -> (r: Natural)
        ensures
            r.wf(),
            r@ == v,
    {
        Natural { be: BigUint::from(v).to_bytes_be() }
    }

    /// `|` on two `BigUint`s: bitwise or.
    #[verifier::external_body]
    pub(crate) fn or(&self, other: &Natural) -> (r: Natural)
        ensures
            r.wf(),
            r@ == bit_or(self@, other@),
    {
        let x = BigUint::from_bytes_be(&self.be);
        let y = BigUint::from_bytes_be(&other.be);
        Natural { be: (x | y).to_bytes_be() }
    }

    /// `*` on two `BigUint`s: the product.
    #[verifier::external_body]
    pub(crate) fn times(&self, other: &Natural) -> (r: Natural)
        ensures
            r.wf(),
            r@ == self@ * other@,
    {
        let x = BigUint::from_bytes_be(&self.be);
        let y = BigUint::from_bytes_be(&other.be);
        Natural { be: (x * y).to_bytes_be() }
    }

    /// `/` on two `BigUint`s: the quotient, rounded down. It panics on a zero divisor.
    #[verifier::external_body]
    pub(crate) fn quotient(&self, other: &Natural) -> (r: Natural)
        requires
            other@ > 0,
        ensures
            r.wf(),
            r@ == self@ / other@,
    {
        let x = BigUint::from_bytes_be(&self.be);
        let y = BigUint::from_bytes_be(&other.be);
        Natural { be: (x / y).to_bytes_be() }
    }

    /// `BigUint::modpow`: `self^exponent mod modulus`. It panics on a zero modulus.
    #[verifier::external_body]
    pub(crate) fn modpow(&self, exponent: &Natural, modulus: &Natural) -> (r: Natural)
        requires
            modulus@ > 0,
        ensures
            r.wf(),
            r@ == power_mod(self@, exponent@, modulus@),
    {
        let x = BigUint::from_bytes_be(&self.be);
        let e = BigUint::from_bytes_be(&exponent.be);
        let m = BigUint::from_bytes_be(&modulus.be);
        Natural { be: x.modpow(&e, &m).to_bytes_be() }
    }

    /// `==` on two `BigUint`s: whether the numbers are the same.
    #[verifier::external_body]
    pub(crate) fn equals(&self, other: &Natural) -> (r: bool)
        ensures
            r == (self@ == other@),
    {
        BigUint::from_bytes_be(&self.be) == BigUint::from_bytes_be(&other.be)
    }

    /// `BigUint::bits`: the fewest binary digits that express the number.
    #[verifier::external_body]
    pub(crate) fn bits(&self) -> (r: u64)
        ensures
            r as nat == bit_length(self@),
    {
        BigUint::from_bytes_be(&self.be).bits()
    }
}

/// What is drawn for a slot is what the generator returned when asked for as many binary
/// digits, whatever the slot.
pub(crate) proof fn lemma_draw_asks_generator(bit_size: u64, slot: usize, r: Natural)
    requires
        call_ensures(Natural::draw, (bit_size, slot), r),
    ensures
        call_ensures(Natural::random, (bit_size,), r),
{
}

/// Big-endian: reading the bytes from left to right, each one adds itself to 256 times
/// what stood before.
pub proof fn lemma_be_value_fold(b: Seq<u8>)
    ensures
        be_value(b) == b.fold_left(0int, |v: int, x: u8| 256 * v + x),
    decreases b.len(),
{
    if b.len() > 0 {
        lemma_be_value_fold(b.drop_last());
    }
}

/// The digits of a number give the number back and do not start with a superfluous zero.
pub proof fn lemma_be_bytes_shortest(v: nat)
    ensures
        be_value(be_bytes(v)) == v,
        be_bytes(v).len() >= 1,
        be_bytes(v).len() > 1 ==> be_bytes(v)[0] != 0,
    decreases v,
{
    lemma_be_roundtrip(v);
    if v >= 256 {
        lemma_be_bytes_shortest(v / 256);
        assert(be_bytes(v)[0] == be_bytes(v / 256)[0]);
        if be_bytes(v / 256).len() == 1 {
            let t = be_bytes(v / 256);
            assert(t.drop_last() =~= Seq::<u8>::empty());
            reveal_with_fuel(be_value, 2);
            assert(be_value(t) == t[0]);
        }
    }
}

/// The number of binary digits, told by the powers of two around the number.
pub proof fn lemma_bit_length_powers(v: nat)
    ensures
        v < pow2(bit_length(v)),
        v > 0 ==> bit_length(v) >= 1 && pow2((bit_length(v) - 1) as nat) <= v,
    decreases v,
{
    lemma2_to64();
    if v > 0 {
        lemma_bit_length_powers(v / 2);
        lemma_pow2_unfold(bit_length(v));
        if v >= 2 {
            lemma_pow2_unfold((bit_length(v) - 1) as nat);
        }
    }
}

/// The binary digits of a bitwise or: one where either number has a one.
pub proof fn lemma_bit_or_digits(a: nat, b: nat, k: nat)
    ensures
        (bit_or(a, b) / pow2(k)) % 2 == 1 <==> (a / pow2(k)) % 2 == 1 || (b / pow2(k)) % 2 == 1,
    decreases k,
{
    let o = bit_or(a, b);
    if a == 0 && b == 0 {
        lemma_pow2_pos(k);
        lemma_div_basics(pow2(k) as int);
        assert(o == 0);
    } else if k > 0 {
        let h = (k - 1) as nat;
        lemma_bit_or_digits(a / 2, b / 2, h);
        lemma_pow2_unfold(k);
        lemma_pow2_pos(h);
        lemma_div_denominator(a as int, 2, pow2(h) as int);
        lemma_div_denominator(b as int, 2, pow2(h) as int);
        lemma_div_denominator(o as int, 2, pow2(h) as int);
        assert(o / 2 == bit_or(a / 2, b / 2));
        assert(a / pow2(k) == a / 2 / pow2(h));
        assert(b / pow2(k) == b / 2 / pow2(h));
        assert(o / pow2(k) == o / 2 / pow2(h));
    } else {
        lemma2_to64();
        assert(pow2(k) == 1);
        lemma_div_basics(a as int);
        lemma_div_basics(b as int);
        lemma_div_basics(o as int);
        assert(o % 2 == 1 <==> a % 2 == 1 || b % 2 == 1);
    }
}

/// Reading the digits of a number gives the number back.
pub proof fn lemma_be_roundtrip(v: nat)
    ensures
        be_value(be_bytes(v)) == v,
    decreases v,
{
    if v < 256 {
        let s = seq![v as u8];
        assert(s.drop_last() =~= Seq::<u8>::empty());
        reveal_with_fuel(be_value, 2);
    } else {
        lemma_be_roundtrip(v / 256);
        let s = be_bytes(v / 256).push((v % 256) as u8);
        assert(s.drop_last() =~= be_bytes(v / 256));
    }
}

/// Setting the lowest bit: the number itself when odd, the next one when even.
pub(crate) proof fn lemma_or_one(a: nat)
    ensures
        bit_or(a, 1) == 2 * (a / 2) + 1,
{
    lemma_or_zero(a / 2);
}

proof fn lemma_or_zero(a: nat)
    ensures
        bit_or(a, 0) == a,
    decreases a,
{
    if a > 0 {
        lemma_or_zero(a / 2);
    }
}

/// A number has as many bytes as its binary digits fill, and zero has one.
pub proof fn lemma_byte_count(v: nat)
    ensures
        v > 0 ==> be_bytes(v).len() == (bit_length(v) + 7) / 8,
        v == 0 ==> be_bytes(v).len() == 1 && bit_length(v) == 0,
    decreases v,
{
    if v >= 256 {
        lemma_byte_count(v / 256);
        reveal_with_fuel(bit_length, 9);
        assert(v / 256 == v / 2 / 2 / 2 / 2 / 2 / 2 / 2 / 2);
        assert(bit_length(v) == 8 + bit_length(v / 256));
    } else if v > 0 {
        reveal_with_fuel(bit_length, 9);
        assert(1 <= bit_length(v) <= 8);
    }
}

/// A number below `2^k` has at most `k` binary digits.
pub proof fn lemma_bit_length_bound(v: nat, k: nat)
    requires
        v < pow2(k),
    ensures
        bit_length(v) <= k,
    decreases k,
{
    if v > 0 {
        if k == 0 {
            lemma2_to64();
        } else {
            lemma_pow2_unfold(k);
            lemma_bit_length_bound(v / 2, (k - 1) as nat);
        }
    }
}

} // verus!

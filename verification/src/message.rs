//! What is signed or hashed to say that an agent is alive.
use vstd::arithmetic::power2::*;
use vstd::prelude::*;
use vstd::string::{is_ascii_spec_bytes, StringSliceAdditionalSpecFns};

verus! {

/// The ASCII decimal digits of `n`, without leading zeros.
pub open spec fn decimal(n: nat) -> Seq<u8>
    decreases n,
{
    if n < 10 {
        seq![(48 + n) as u8]
    } else {
        decimal(n / 10).push((48 + n % 10) as u8)
    }
}

/// The statement that one agent is alive, which names the agent:
/// `agent<number>:alive@block`.
pub open spec fn agent_statement(agent: usize) -> Seq<u8> {
    "agent".spec_bytes() + decimal(agent as nat) + ":alive@block".spec_bytes()
}

/// The statement that the one who makes it is alive: `alive@block`.
pub open spec fn own_statement() -> Seq<u8> {
    "alive@block".spec_bytes()
}

/// Appends the decimal digits of `n`.
fn push_decimal(v: &mut Vec<u8>, n: usize)
    ensures
        final(v)@ == old(v)@ + decimal(n as nat),
    decreases n,
{
    if n >= 10 {
        push_decimal(v, n / 10);
    }
    v.push(48 + (n % 10) as u8);
}

/// The bytes of [`agent_statement`].
pub fn agent_message(agent: usize) -> (m: Vec<u8>)
    ensures
        m@ == agent_statement(agent),
{
    let mut m: Vec<u8> = Vec::new();
    m.extend_from_slice("agent".as_bytes());
    push_decimal(&mut m, agent);
    m.extend_from_slice(":alive@block".as_bytes());
    m
}

/// The bytes of [`own_statement`].
pub fn own_message() -> (m: Vec<u8>)
    ensures
        m@ == own_statement(),
{
    let mut m: Vec<u8> = Vec::new();
    m.extend_from_slice("alive@block".as_bytes());
    m
}

/// What a reader finds in an agent's statement: the word `agent`, decimal digits, and
/// `:alive@block`. The digits, read from left to right, give the agent's number, and the
/// first of several is not a zero.
pub proof fn lemma_agent_statement_reads(agent: usize)
    ensures
        agent_statement(agent).len() >= 18,
        agent_statement(agent).take(5) == "agent".spec_bytes(),
        agent_statement(agent).skip(agent_statement(agent).len() - 12)
            == ":alive@block".spec_bytes(),
        forall|i: int|
            5 <= i < agent_statement(agent).len() - 12 ==> 48 <= #[trigger] agent_statement(
                agent,
            )[i] <= 57,
        agent_statement(agent).subrange(5, agent_statement(agent).len() - 12).fold_left(
            0int,
            |v: int, b: u8| 10 * v + (b - 48),
        ) == agent,
        agent_statement(agent)[5] == 48 ==> agent_statement(agent).len() == 18,
{
    let s = agent_statement(agent);
    let d = decimal(agent as nat);
    let f = |v: int, b: u8| 10 * v + (b - 48);
    reveal_strlit("agent");
    reveal_strlit(":alive@block");
    is_ascii_spec_bytes("agent");
    is_ascii_spec_bytes(":alive@block");
    lemma_decimal_nonempty(agent as nat);
    lemma_decimal_reads(agent as nat, f);
    assert(s.take(5) =~= "agent".spec_bytes());
    assert(s.skip(s.len() - 12) =~= ":alive@block".spec_bytes());
    assert(s.subrange(5, s.len() - 12) =~= d);
    assert forall|i: int| 5 <= i < s.len() - 12 implies 48 <= #[trigger] s[i] <= 57 by {
        assert(s[i] == d[i - 5]);
    }
    assert(s[5] == d[0]);
}

/// Decimal digits are digits, read from left to right as their number, and start with a
/// zero only for zero.
proof fn lemma_decimal_reads(n: nat, f: spec_fn(int, u8) -> int)
    requires
        forall|v: int, b: u8| #[trigger] f(v, b) == 10 * v + (b - 48),
    ensures
        decimal(n).len() >= 1,
        forall|i: int| 0 <= i < decimal(n).len() ==> 48 <= #[trigger] decimal(n)[i] <= 57,
        decimal(n).fold_left(0int, f) == n,
        decimal(n)[0] == 48 ==> n == 0 && decimal(n).len() == 1,
    decreases n,
{
    let d = decimal(n);
    if n < 10 {
        assert(d.drop_last() =~= Seq::<u8>::empty());
        reveal_with_fuel(Seq::fold_left, 2);
    } else {
        lemma_decimal_reads(n / 10, f);
        assert(d.drop_last() =~= decimal(n / 10));
        assert(d.last() == 48 + n % 10);
        assert(d[0] == decimal(n / 10)[0]);
        assert forall|i: int| 0 <= i < d.len() implies 48 <= #[trigger] d[i] <= 57 by {
            if i < d.len() - 1 {
                assert(d[i] == decimal(n / 10)[i]);
            }
        }
    }
}

/// An agent's statement ends with what one who speaks for itself says.
pub proof fn lemma_own_statement_within(agent: usize)
    ensures
        own_statement().len() == 11,
        own_statement() == "alive@block".spec_bytes(),
        own_statement().is_suffix_of(agent_statement(agent)),
{
    let s = agent_statement(agent);
    reveal_strlit("agent");
    reveal_strlit(":alive@block");
    reveal_strlit("alive@block");
    is_ascii_spec_bytes("agent");
    is_ascii_spec_bytes(":alive@block");
    is_ascii_spec_bytes("alive@block");
    assert(own_statement() =~= s.subrange(s.len() - 11, s.len() as int));
}

/// No two agents share a statement.
pub proof fn lemma_agent_statement_injective(a: usize, b: usize)
    requires
        agent_statement(a) == agent_statement(b),
    ensures
        a == b,
{
    let p = "agent".spec_bytes();
    let t = ":alive@block".spec_bytes();
    let x = decimal(a as nat);
    let y = decimal(b as nat);
    let s = agent_statement(a);
    assert(s.len() == p.len() + x.len() + t.len());
    assert(s.len() == p.len() + y.len() + t.len());
    assert(x =~= s.subrange(p.len() as int, (p.len() + x.len()) as int));
    assert(y =~= s.subrange(p.len() as int, (p.len() + y.len()) as int));
    lemma_decimal_injective(a as nat, b as nat);
}

proof fn lemma_decimal_injective(a: nat, b: nat)
    requires
        decimal(a) == decimal(b),
    ensures
        a == b,
    decreases a,
{
    let x = decimal(a);
    let y = decimal(b);
    lemma_decimal_nonempty(a / 10);
    lemma_decimal_nonempty(b / 10);
    assert(x.last() == 48 + a % 10);
    assert(y.last() == 48 + b % 10);
    if a >= 10 && b >= 10 {
        assert(x.drop_last() =~= decimal(a / 10));
        assert(y.drop_last() =~= decimal(b / 10));
        lemma_decimal_injective(a / 10, b / 10);
    }
}

proof fn lemma_decimal_nonempty(n: nat)
    ensures
        decimal(n).len() >= 1,
    decreases n,
{
}

/// An agent's statement is shorter than two digests.
pub proof fn lemma_agent_statement_short(agent: usize)
    ensures
        agent_statement(agent).len() < 64,
{
    reveal_strlit("agent");
    reveal_strlit(":alive@block");
    is_ascii_spec_bytes("agent");
    is_ascii_spec_bytes(":alive@block");
    lemma2_to64();
    lemma_pow2_adds(64, 2);
    lemma_decimal_short(agent as nat, 22);
}

/// Each decimal digit takes more than three binary ones.
proof fn lemma_decimal_short(n: nat, k: nat)
    requires
        k >= 1,
        n < pow2(3 * k),
    ensures
        decimal(n).len() <= k,
    decreases n,
{
    if n >= 10 {
        lemma2_to64();
        if k >= 2 {
            lemma_pow2_adds((3 * k - 3) as nat, 3);
            lemma_decimal_short(n / 10, (k - 1) as nat);
        }
    }
}

} // verus!

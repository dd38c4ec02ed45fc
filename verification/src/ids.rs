//! Identifiers for recovered tool calls.
use vstd::prelude::*;
use vstd::string::*;

verus! {

/// The decimal digits of `n`.
pub open spec fn decimal(n: nat) -> Seq<char>
    decreases n,
{
    if n < 10 {
        seq!["0123456789"@[n as int]]
    } else {
        decimal(n / 10).push("0123456789"@[(n % 10) as int])
    }
}

/// The identifier of the call with index `i`.
pub open spec fn tool_id(i: nat) -> Seq<char> {
    "toolu_antml_"@ + decimal(i)
}

/// Appends the decimal digits of `n`.
fn append_decimal(out: &mut String, n: usize)
    ensures
        final(out)@ == old(out)@ + decimal(n as nat),
    decreases n,
{
    if n >= 10 {
        append_decimal(out, n / 10);
    }
    let d: usize = n % 10;
    proof {
        reveal_strlit("0123456789");
    }
    let digit = "0123456789".substring_ascii(d, d + 1);
    assert(digit@ == seq!["0123456789"@[d as int]]);
    out.append(digit);
    assert(out@ == old(out)@ + decimal(n as nat));
}

/// The identifier of the recovered call with index `i`.
///
/// An identifier only has to tie a later result to its call, so it has to be distinct within one
/// message and need not be random.
pub fn synthetic_tool_id(i: usize) -> (id: String)
    ensures
        id@ == tool_id(i as nat),
{
    let mut id = "toolu_antml_".to_owned();
    append_decimal(&mut id, i);
    id
}

proof fn lemma_decimal_len(n: nat)
    ensures
        decimal(n).len() >= 1,
        n >= 10 ==> decimal(n).len() >= 2,
    decreases n,
{
    if n >= 10 {
        lemma_decimal_len(n / 10);
    }
}

/// Distinct numbers have distinct digits.
pub proof fn lemma_decimal_injective(a: nat, b: nat)
    requires
        decimal(a) == decimal(b),
    ensures
        a == b,
    decreases a,
{
    reveal_strlit("0123456789");
    lemma_decimal_len(a);
    lemma_decimal_len(b);
    assert(decimal(a).last() == "0123456789"@[(a % 10) as int]);
    assert(decimal(b).last() == "0123456789"@[(b % 10) as int]);
    assert(a % 10 == b % 10);
    if a >= 10 && b >= 10 {
        assert(decimal(a).drop_last() == decimal(a / 10));
        assert(decimal(b).drop_last() == decimal(b / 10));
        lemma_decimal_injective(a / 10, b / 10);
    }
}

/// Distinct calls of one message have distinct identifiers.
pub proof fn law_tool_ids_distinct(i: nat, j: nat)
    requires
        i != j,
    ensures
        tool_id(i) != tool_id(j),
{
    if tool_id(i) == tool_id(j) {
        let n = "toolu_antml_"@.len() as int;
        assert(tool_id(i).skip(n) == decimal(i));
        assert(tool_id(j).skip(n) == decimal(j));
        lemma_decimal_injective(i, j);
    }
}

} // verus!

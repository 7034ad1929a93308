use vstd::prelude::*;
use crate::text::char_vec;

verus! {

// A snowflake is a 64-bit id, written in decimal, either bare (`1234`) or as
// a mention: `<@1234>` or `<@!1234>` for a user, `<#1234>` for a channel.

pub open spec fn is_digit(c: char) -> bool {
    '0' <= c && c <= '9'
}

/// The value of a run of decimal digits.
pub open spec fn decimal_value(d: Seq<char>) -> nat
    decreases d.len(),
{
    if d.len() == 0 {
        0
    } else {
        decimal_value(d.drop_last()) * 10 + (d.last() as nat - '0' as nat) as nat
    }
}

/// The digits a token holds, once a mention's brackets and sigils are removed.
pub open spec fn snowflake_digits(t: Seq<char>) -> Seq<char> {
    if t.len() >= 3 && t[0] == '<' && t[t.len() - 1] == '>' && t[1] == '@' && t[2] == '!' {
        t.subrange(3, t.len() - 1)
    } else if t.len() >= 2 && t[0] == '<' && t[t.len() - 1] == '>' && (t[1] == '@' || t[1] == '#') {
        t.subrange(2, t.len() - 1)
    } else {
        t
    }
}

/// The id a token names: its digits are not empty, all decimal, and their
/// value fits in 64 bits.
pub open spec fn snowflake_spec(t: Seq<char>) -> Option<u64> {
    let d = snowflake_digits(t);
    if d.len() > 0 && (forall|i: int| 0 <= i < d.len() ==> is_digit(#[trigger] d[i]))
        && decimal_value(d) <= u64::MAX {
        Some(decimal_value(d) as u64)
    } else {
        None
    }
}

proof fn lemma_value_grows(d: Seq<char>, i: int)
    requires
        0 <= i <= d.len(),
        forall|x: int| 0 <= x < d.len() ==> is_digit(#[trigger] d[x]),
    ensures
        decimal_value(d.subrange(0, i)) <= decimal_value(d),
    decreases d.len() - i,
{
    if i < d.len() {
        lemma_value_grows(d, i + 1);
        let p = d.subrange(0, i + 1);
        assert(p.drop_last() =~= d.subrange(0, i));
        let v = decimal_value(d.subrange(0, i));
        assert(decimal_value(p) == v * 10 + (p.last() as nat - '0' as nat) as nat);
        assert(v <= v * 10) by (nonlinear_arith);
    } else {
        assert(d.subrange(0, i) =~= d);
    }
}

/// Reads the id a token names, as `snowflake_spec` says.
pub fn parse_snowflake(t: &str) -> (r: Option<u64>)
    ensures
        r == snowflake_spec(t@),
{
    let s = char_vec(t);
    let n = s.len();
    let mut a: usize = 0;
    let mut b: usize = n;
    if n >= 3 && s[0] == '<' && s[n - 1] == '>' && s[1] == '@' && s[2] == '!' {
        a = 3;
        b = n - 1;
    } else if n >= 2 && s[0] == '<' && s[n - 1] == '>' && (s[1] == '@' || s[1] == '#') {
        a = 2;
        b = n - 1;
    }
    let ghost d = snowflake_digits(t@);
    assert(d =~= s@.subrange(a as int, b as int));
    if a >= b {
        return None;
    }
    let mut v: u64 = 0;
    let mut i = a;
    while i < b
        invariant
            a <= i <= b,
            b <= s.len(),
            d == s@.subrange(a as int, b as int),
            d == snowflake_digits(t@),
            d.len() > 0,
            forall|x: int| 0 <= x < i - a ==> is_digit(#[trigger] d[x]),
            v as nat == decimal_value(d.subrange(0, i - a)),
        decreases b - i,
    {
        let c = s[i];
        if !('0' <= c && c <= '9') {
            proof {
                assert(s@[i as int] == d[i - a]);
                assert(!is_digit(d[i - a]));
            }
            return None;
        }
        let dig = (c as u32 - '0' as u32) as u64;
        let ghost p = d.subrange(0, i - a + 1);
        proof {
            assert(p.drop_last() =~= d.subrange(0, i - a));
            assert(p.last() == c);
        }
        if v > (u64::MAX - dig) / 10 {
            proof {
                assert(v * 10 + dig > u64::MAX) by (nonlinear_arith)
                    requires v > (u64::MAX - dig) / 10, dig <= 9;
                assert(decimal_value(p) > u64::MAX);
                assert forall|x: int| 0 <= x < p.len() implies is_digit(#[trigger] p[x]) by {
                    assert(p[x] == d[x]);
                }
                if forall|x: int| 0 <= x < d.len() ==> is_digit(#[trigger] d[x]) {
                    lemma_value_grows(d, i - a + 1);
                }
            }
            return None;
        }
        proof {
            assert(v * 10 + dig <= u64::MAX) by (nonlinear_arith)
                requires v <= (u64::MAX - dig) / 10, dig <= 9;
        }
        v = v * 10 + dig;
        i = i + 1;
    }
    proof {
        assert(d.subrange(0, d.len() as int) =~= d);
    }
    Some(v)
}

} // verus!

//! Decimal numbers written as text.

use vstd::prelude::*;
use crate::text::chars_of;

verus! {

/// Whether every character of `s` is an ASCII digit.
pub open spec fn all_digits(s: Seq<char>) -> bool {
    forall|i: int| 0 <= i < s.len() ==> '0' <= #[trigger] s[i] <= '9'
}

/// The number written in decimal by the digits `s`.
pub open spec fn decimal_value(s: Seq<char>) -> nat
    decreases s.len(),
{
    if s.len() == 0 {
        0
    } else {
        decimal_value(s.drop_last()) * 10 + ((s.last() as u32) - ('0' as u32)) as nat
    }
}

/// What `u64::from_str` gives for `s`: an optional `+` followed by at least one
/// decimal digit, with a value that fits in 64 bits.
pub open spec fn parsed_u64(s: Seq<char>) -> Option<u64> {
    let digits = if s.len() > 0 && s[0] == '+' { s.drop_first() } else { s };
    if digits.len() > 0 && all_digits(digits) && decimal_value(digits) <= u64::MAX {
        Some(decimal_value(digits) as u64)
    } else {
        None
    }
}

/// A number written with more digits is not smaller.
proof fn lemma_decimal_value_prefix(s: Seq<char>, k: int)
    requires
        0 <= k <= s.len(),
        all_digits(s),
    ensures
        decimal_value(s.take(k)) <= decimal_value(s),
    decreases s.len() - k,
{
    if k < s.len() {
        lemma_decimal_value_prefix(s, k + 1);
        assert(s.take(k + 1).drop_last() =~= s.take(k));
    } else {
        assert(s.take(k) =~= s);
    }
}

/// The value of the decimal digits `s[start..]`, when they are all digits,
/// at least one, and the value fits in 64 bits.
fn parse_digits(s: &Vec<char>, start: usize) -> (res: Option<u64>)
    requires
        start <= s@.len(),
    ensures
        match res {
            Some(v) => s@.len() > start && all_digits(s@.skip(start as int)) && v == decimal_value(s@.skip(start as int)),
            None => !(s@.len() > start && all_digits(s@.skip(start as int)) && decimal_value(s@.skip(start as int)) <= u64::MAX),
        },
{
    let ghost digits = s@.skip(start as int);
    if start == s.len() {
        return None;
    }
    let mut value: u64 = 0;
    let mut i: usize = start;
    while i < s.len()
        invariant
            start <= i <= s@.len(),
            digits == s@.skip(start as int),
            start < s@.len(),
            all_digits(digits.take(i - start)),
            value == decimal_value(digits.take(i - start)),
        decreases s@.len() - i,
    {
        let c = s[i];
        let ghost prefix = digits.take(i - start + 1);
        proof {
            assert(prefix.drop_last() =~= digits.take(i - start));
            assert(prefix.last() == c);
        }
        if c < '0' || c > '9' {
            assert(digits[i - start] == c);
            assert(!all_digits(digits));
            return None;
        }
        let d: u64 = (c as u32 - '0' as u32) as u64;
        assert(all_digits(prefix));
        match value.checked_mul(10) {
            None => {
                proof {
                    assert(decimal_value(prefix) == value * 10 + (c as u32 - '0' as u32));
                    assert(decimal_value(prefix) > u64::MAX);
                    if all_digits(digits) {
                        lemma_decimal_value_prefix(digits, i - start + 1);
                    }
                }
                return None;
            },
            Some(v10) => match v10.checked_add(d) {
                None => {
                    proof {
                        if all_digits(digits) {
                            lemma_decimal_value_prefix(digits, i - start + 1);
                        }
                    }
                    return None;
                },
                Some(v) => {
                    value = v;
                },
            },
        }
        i = i + 1;
    }
    assert(digits.take(s@.len() - start) =~= digits);
    Some(value)
}

/// Parses a decimal unsigned 64-bit number as `u64::from_str` does.
pub fn parse_u64(text: &str) -> (res: Option<u64>)
    ensures
        res == parsed_u64(text@),
{
    let s = chars_of(text);
    let start: usize = if s.len() > 0 && s[0] == '+' { 1 } else { 0 };
    assert(s@.skip(start as int) == (if s@.len() > 0 && s@[0] == '+' { s@.drop_first() } else { s@ }));
    parse_digits(&s, start)
}

/// What `i64::from_str` gives for `s`: an optional sign followed by at least
/// one decimal digit, with a value that fits in 64 signed bits.
pub open spec fn parsed_i64(s: Seq<char>) -> Option<i64> {
    if s.len() > 0 && s[0] == '-' {
        let digits = s.drop_first();
        if digits.len() > 0 && all_digits(digits) && decimal_value(digits) <= 0x8000_0000_0000_0000 {
            Some((-decimal_value(digits)) as i64)
        } else {
            None
        }
    } else {
        let digits = if s.len() > 0 && s[0] == '+' { s.drop_first() } else { s };
        if digits.len() > 0 && all_digits(digits) && decimal_value(digits) <= i64::MAX {
            Some(decimal_value(digits) as i64)
        } else {
            None
        }
    }
}

/// Parses a decimal signed 64-bit number as `i64::from_str` does.
pub fn parse_i64(text: &str) -> (res: Option<i64>)
    ensures
        res == parsed_i64(text@),
{
    let s = chars_of(text);
    let negative = s.len() > 0 && s[0] == '-';
    let start: usize = if s.len() > 0 && (s[0] == '+' || s[0] == '-') { 1 } else { 0 };
    assert(negative ==> s@.skip(start as int) == s@.drop_first());
    assert(!negative ==> s@.skip(start as int) == (if s@.len() > 0 && s@[0] == '+' { s@.drop_first() } else { s@ }));
    match parse_digits(&s, start) {
        None => None,
        Some(v) => {
            if negative {
                if v <= 0x8000_0000_0000_0000u64 {
                    if v == 0x8000_0000_0000_0000u64 {
                        Some(i64::MIN)
                    } else {
                        Some(-(v as i64))
                    }
                } else {
                    None
                }
            } else if v <= i64::MAX as u64 {
                Some(v as i64)
            } else {
                None
            }
        },
    }
}


} // verus!

//! Unsigned numbers in decimal notation.

use vstd::prelude::*;
use vstd::slice::slice_subrange;

verus! {

pub open spec fn is_digit(c: char) -> bool {
    '0' <= c && c <= '9'
}

pub open spec fn digit_value(c: char) -> nat {
    (c as u32 - '0' as u32) as nat
}

pub open spec fn all_digits(s: Seq<char>) -> bool {
    forall|i: int| 0 <= i < s.len() ==> is_digit(#[trigger] s[i])
}

/// The number that a row of decimal digits writes.
pub open spec fn decimal_value(s: Seq<char>) -> nat
    decreases s.len(),
{
    if s.len() == 0 {
        0
    } else {
        decimal_value(s.drop_last()) * 10 + digit_value(s.last())
    }
}

/// `s` without the plus sign that it may begin with.
pub open spec fn without_plus(s: Seq<char>) -> Seq<char> {
    if s.len() > 0 && s[0] == '+' {
        s.skip(1)
    } else {
        s
    }
}

/// The number that `s` writes: at least one digit and nothing else, behind a
/// plus sign or not, and at most `max`.
pub open spec fn number(s: Seq<char>, max: u64) -> Option<u64> {
    let digits = without_plus(s);
    if digits.len() > 0 && all_digits(digits) && decimal_value(digits) <= max {
        Some(decimal_value(digits) as u64)
    } else {
        None
    }
}

/// The number that `s` writes, where it is a 16-bit one.
pub open spec fn number16(s: Seq<char>) -> Option<u16> {
    match number(s, u16::MAX as u64) {
        Some(v) => Some(v as u16),
        None => None,
    }
}

proof fn lemma_decimal_value_of_prefix(s: Seq<char>, i: int)
    requires
        0 <= i <= s.len(),
    ensures
        decimal_value(s.take(i)) <= decimal_value(s),
    decreases s.len(),
{
    if i == s.len() {
        assert(s.take(i) =~= s);
    } else {
        assert(s.drop_last().take(i) =~= s.take(i));
        lemma_decimal_value_of_prefix(s.drop_last(), i);
    }
}

/// The number that `text` writes, where 64 bits hold it.
pub fn parse_u64(text: &[char]) -> (r: Option<u64>)
    ensures
        r == number(text@, u64::MAX),
{
    let mut i: usize = 0;
    if text.len() > 0 && text[0] == '+' {
        i = 1;
    }
    let digits: &[char] = slice_subrange(text, i, text.len());
    assert(digits@ =~= without_plus(text@));
    if digits.len() == 0 {
        return None;
    }
    let mut value: u64 = 0;
    let mut k: usize = 0;
    assert(digits@.take(0) =~= Seq::<char>::empty());
    while k < digits.len()
        invariant
            digits@ == without_plus(text@),
            k <= digits@.len(),
            value == decimal_value(digits@.take(k as int)),
            forall|j: int| 0 <= j < k ==> is_digit(#[trigger] digits@[j]),
        decreases digits@.len() - k,
    {
        let c: char = digits[k];
        if !('0' <= c && c <= '9') {
            return None;
        }
        let d: u32 = c as u32 - '0' as u32;
        let wide: u128 = value as u128 * 10 + d as u128;
        proof {
            assert(digits@.take(k + 1).drop_last() =~= digits@.take(k as int));
            lemma_decimal_value_of_prefix(digits@, k + 1);
        }
        if wide > u64::MAX as u128 {
            return None;
        }
        value = wide as u64;
        k = k + 1;
    }
    assert(digits@.take(k as int) =~= digits@);
    Some(value)
}

/// The number that `text` writes, where 16 bits hold it.
pub fn parse_u16(text: &[char]) -> (r: Option<u16>)
    ensures
        r == number16(text@),
{
    match parse_u64(text) {
        Some(v) => {
            if v <= u16::MAX as u64 {
                Some(v as u16)
            } else {
                None
            }
        },
        None => None,
    }
}

} // verus!

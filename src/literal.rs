use vstd::prelude::*;

use crate::text::{all_digits, digits_value, is_digit, is_digit_char};

verus! {

/// First index at or after `i` that does not hold a decimal digit.
pub open spec fn digits_end(s: Seq<char>, i: int) -> int
    decreases s.len() - i,
{
    if 0 <= i < s.len() && is_digit(s[i]) {
        digits_end(s, i + 1)
    } else {
        i
    }
}

/// A decimal integer that fits in an `i64`, written with digits only.
pub open spec fn is_int_literal(s: Seq<char>) -> bool {
    s.len() > 0 && all_digits(s) && digits_value(s) <= i64::MAX
}

/// A decimal float that starts with a digit: digits, then an optional
/// fraction (`.` and digits), then an optional exponent (`e` or `E`, an
/// optional sign, digits). This is the part of `f64`'s grammar that can
/// begin with a digit.
pub open spec fn is_float_literal(s: Seq<char>) -> bool {
    let a = digits_end(s, 0);
    a > 0 && {
        let b = if a < s.len() && s[a] == '.' {
            digits_end(s, a + 1)
        } else {
            a
        };
        b == s.len() || (b < s.len() && (s[b] == 'e' || s[b] == 'E') && {
            let c = if b + 1 < s.len() && (s[b + 1] == '+' || s[b + 1] == '-') {
                b + 2
            } else {
                b + 1
            };
            let d = digits_end(s, c);
            d > c && d == s.len()
        })
    }
}

pub proof fn lemma_digits_end_bounds(s: Seq<char>, i: int)
    requires
        0 <= i <= s.len(),
    ensures
        i <= digits_end(s, i) <= s.len(),
        forall|k: int| i <= k < digits_end(s, i) ==> is_digit(#[trigger] s[k]),
        digits_end(s, i) < s.len() ==> !is_digit(s[digits_end(s, i)]),
    decreases s.len() - i,
{
    if i < s.len() && is_digit(s[i]) {
        lemma_digits_end_bounds(s, i + 1);
    }
}

fn digits_end_exec(s: &Vec<char>, i: usize) -> (r: usize)
    requires
        i <= s@.len(),
    ensures
        r as int == digits_end(s@, i as int),
{
    let mut j: usize = i;
    while j < s.len() && is_digit_char(s[j])
        invariant
            i <= j <= s@.len(),
            digits_end(s@, j as int) == digits_end(s@, i as int),
        decreases s@.len() - j,
    {
        j += 1;
    }
    j
}

/// Whether `s` is a float literal that starts with a digit.
pub fn is_float_text(s: &Vec<char>) -> (r: bool)
    ensures
        r == is_float_literal(s@),
{
    proof { lemma_digits_end_bounds(s@, 0); }
    let a = digits_end_exec(s, 0);
    if a == 0 {
        return false;
    }
    let b = if a < s.len() && s[a] == '.' {
        proof { lemma_digits_end_bounds(s@, a + 1); }
        digits_end_exec(s, a + 1)
    } else {
        a
    };
    if b == s.len() {
        return true;
    }
    if !(s[b] == 'e' || s[b] == 'E') {
        return false;
    }
    let c = if b + 1 < s.len() && (s[b + 1] == '+' || s[b + 1] == '-') {
        b + 2
    } else {
        b + 1
    };
    let d = digits_end_exec(s, c);
    d > c && d == s.len()
}

/// Reads `s` as an `i64` written with digits only.
pub fn int_of_text(s: &Vec<char>) -> (r: Option<i64>)
    ensures
        match r {
            Some(n) => is_int_literal(s@) && n as int == digits_value(s@),
            None => !is_int_literal(s@),
        },
{
    let r = crate::text::parse_digits(s, 0, i64::MAX as u64);
    assert(s@.subrange(0, s@.len() as int) =~= s@);
    match r {
        Some(n) => Some(n as i64),
        None => None,
    }
}

} // verus!

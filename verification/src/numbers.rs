//! Decimal digit strings: their values, bounded parsing, and printing.

use vstd::prelude::*;
use crate::chars::{spec_is_digit, spec_digit_value, is_digit};

verus! {

/// All characters of `s` are decimal digits.
pub open spec fn all_digits(s: Seq<char>) -> bool {
    forall|i: int| 0 <= i < s.len() ==> spec_is_digit(#[trigger] s[i])
}

/// Value of a digit string (most significant digit first).
pub open spec fn digits_val(s: Seq<char>) -> int
    decreases s.len(),
{
    if s.len() == 0 {
        0
    } else {
        digits_val(s.drop_last()) * 10 + spec_digit_value(s.last())
    }
}

pub proof fn lemma_digits_val_nonneg(s: Seq<char>)
    requires
        all_digits(s),
    ensures
        digits_val(s) >= 0,
    decreases s.len(),
{
    if s.len() > 0 {
        lemma_digits_val_nonneg(s.drop_last());
    }
}

/// The value of a digit string never falls when it is extended on the right.
pub proof fn lemma_digits_val_prefix_le(s: Seq<char>, k: int)
    requires
        all_digits(s),
        0 <= k <= s.len(),
    ensures
        digits_val(s.take(k)) <= digits_val(s),
    decreases s.len() - k,
{
    if k < s.len() {
        lemma_digits_val_prefix_le(s, k + 1);
        lemma_digits_val_nonneg(s.take(k));
        assert(s.take(k + 1).drop_last() =~= s.take(k));
        assert(digits_val(s.take(k)) <= digits_val(s.take(k)) * 10 + spec_digit_value(
            s.take(k + 1).last(),
        ));
    } else {
        assert(s.take(k) =~= s);
    }
}

/// What `str::parse::<i32>` yields on the digit-run slices that the
/// evaluator extracts: the numeric value when every character is a digit
/// and the value fits, `None` otherwise.  (Such a slice never carries a
/// sign, so only the all-digit form can succeed.)
pub open spec fn parse_i32_digits(s: Seq<char>) -> Option<i32> {
    if s.len() > 0 && all_digits(s) && digits_val(s) <= i32::MAX {
        Some(digits_val(s) as i32)
    } else {
        None
    }
}

/// Parse `v[from..to]` as a non-negative `i32`, mirroring `parse_i32_digits`.
pub fn parse_digits(v: &Vec<char>, from: usize, to: usize) -> (r: Option<i32>)
    requires
        from <= to <= v@.len(),
    ensures
        r == parse_i32_digits(v@.subrange(from as int, to as int)),
{
    let ghost s = v@.subrange(from as int, to as int);
    if from == to {
        return None;
    }
    let mut acc: i64 = 0;
    let mut i: usize = from;
    while i < to
        invariant
            from <= i <= to <= v@.len(),
            s == v@.subrange(from as int, to as int),
            all_digits(s.take(i - from)),
            acc == digits_val(s.take(i - from)),
            0 <= acc <= i32::MAX,
        decreases to - i,
    {
        let c = v[i];
        assert(c == s[i - from]);
        if !is_digit(c) {
            assert(!all_digits(s));
            return None;
        }
        let d: i64 = (c as u32 as i64) - ('0' as u32 as i64);
        assert(d == spec_digit_value(c));
        assert(s.take(i + 1 - from).drop_last() =~= s.take(i - from));
        acc = acc * 10 + d;
        i += 1;
        if acc > i32::MAX as i64 {
            proof {
                assert(all_digits(s.take(i - from)));
                assert(digits_val(s.take(i - from)) > i32::MAX);
                if all_digits(s) {
                    lemma_digits_val_prefix_le(s, i - from);
                }
            }
            return None;
        }
    }
    proof {
        assert(s.take(to - from) =~= s);
    }
    Some(acc as i32)
}

/// Decimal digit character for a value in `0..10`.
pub open spec fn spec_digit_char(d: int) -> char {
    if d == 0 {
        '0'
    } else if d == 1 {
        '1'
    } else if d == 2 {
        '2'
    } else if d == 3 {
        '3'
    } else if d == 4 {
        '4'
    } else if d == 5 {
        '5'
    } else if d == 6 {
        '6'
    } else if d == 7 {
        '7'
    } else if d == 8 {
        '8'
    } else {
        '9'
    }
}

fn digit_char(d: u32) -> (c: char)
    requires
        d < 10,
    ensures
        c == spec_digit_char(d as int),
        spec_is_digit(c),
        spec_digit_value(c) == d,
{
    if d == 0 {
        '0'
    } else if d == 1 {
        '1'
    } else if d == 2 {
        '2'
    } else if d == 3 {
        '3'
    } else if d == 4 {
        '4'
    } else if d == 5 {
        '5'
    } else if d == 6 {
        '6'
    } else if d == 7 {
        '7'
    } else if d == 8 {
        '8'
    } else {
        '9'
    }
}

/// Decimal representation of a non-negative value, as `to_string` prints it.
pub open spec fn spec_digits_of(n: int) -> Seq<char>
    decreases n,
{
    if n < 10 {
        seq![spec_digit_char(n)]
    } else {
        spec_digits_of(n / 10).push(spec_digit_char(n % 10))
    }
}

pub proof fn lemma_digits_of_all_digits(n: int)
    requires
        n >= 0,
    ensures
        all_digits(spec_digits_of(n)),
        spec_digits_of(n).len() >= 1,
    decreases n,
{
    if n >= 10 {
        lemma_digits_of_all_digits(n / 10);
        let s = spec_digits_of(n);
        assert forall|i: int| 0 <= i < s.len() implies spec_is_digit(#[trigger] s[i]) by {
            if i < s.len() - 1 {
                assert(s[i] == spec_digits_of(n / 10)[i]);
            }
        }
    }
}

/// Render a non-negative value in decimal.
pub fn u32_to_digits(n: u32) -> (v: Vec<char>)
    ensures
        v@ == spec_digits_of(n as int),
    decreases n,
{
    if n < 10 {
        let mut v: Vec<char> = Vec::new();
        v.push(digit_char(n));
        assert(v@ =~= spec_digits_of(n as int));
        v
    } else {
        let mut v = u32_to_digits(n / 10);
        v.push(digit_char(n % 10));
        v
    }
}

} // verus!

//! Evaluation of one candidate string: the reduction pipeline followed by
//! plain arithmetic, and the equation / inequality check built on it.

use vstd::prelude::*;
use crate::chars::{spec_is_digit, is_digit, count_char};
use crate::numbers::{all_digits, digits_val, lemma_digits_val_nonneg, lemma_digits_val_prefix_le};
use crate::reduce::{opt_vec_view, floor_reduce, floor_fuel, fact_reduce, perm_reduce,
    reduce_floors, reduce_fact, reduce_perm, lemma_floor_reduce_preserves,
    lemma_fact_reduce_preserves, lemma_perm_reduce_preserves, lemma_count_char_single};
use crate::chars::lemma_count_char_concat;

verus! {

/// What `meval::eval_str` makes of an expression string: `None` when it
/// fails, otherwise the `Display` rendering of the `f64` it returns.  The
/// backend reads nothing but the characters, so within one process the
/// result is a function of them; across platforms the last bit of `^`
/// (computed with `f64::powf`, whose precision the standard library
/// documents as platform-specific) may differ.
pub uninterp spec fn meval_result(s: Seq<char>) -> Option<Seq<char>>;

/// A character the backend's tokenizer skips as whitespace.
pub open spec fn spec_is_eval_whitespace(c: char) -> bool {
    c == ' ' || c == '\t' || c == '\r' || c == '\n'
}

/// A non-empty string of nothing but whitespace.  The backend's tokenizer
/// panics on exactly these inputs, so they must never reach it.
pub open spec fn all_eval_whitespace(s: Seq<char>) -> bool {
    s.len() > 0 && forall|i: int| 0 <= i < s.len() ==> spec_is_eval_whitespace(#[trigger] s[i])
}

/// Relies on meval::eval_str: it parses numbers, `+ - * / % ^` and
/// parentheses and evaluates over `f64`; the value is rendered in decimal
/// by `Display` (`NaN`, `inf` and fractions parse as no integer later).
/// Its tokenizer rejects every unknown character, `=` and `>` among them,
/// but panics on a non-empty all-whitespace input, which the caller must
/// rule out.
#[verifier::external_body]
fn meval_format(expr: &Vec<char>) -> (r: Option<Vec<char>>)
    requires
        !all_eval_whitespace(expr@),
    ensures
        opt_vec_view(r) == meval_result(expr@),
        count_char(expr@, '=') > 0 ==> r is None,
        count_char(expr@, '>') > 0 ==> r is None,
{
    let s: String = expr.iter().collect();
    match meval::eval_str(&s) {
        Ok(x) => Some(format!("{}", x).chars().collect()),
        Err(_) => None,
    }
}

fn is_eval_whitespace(c: char) -> (r: bool)
    ensures
        r == spec_is_eval_whitespace(c),
{
    c == ' ' || c == '\t' || c == '\r' || c == '\n'
}

fn check_all_eval_whitespace(v: &Vec<char>) -> (r: bool)
    ensures
        r == all_eval_whitespace(v@),
{
    if v.len() == 0 {
        return false;
    }
    let mut i: usize = 0;
    while i < v.len()
        invariant
            0 <= i <= v@.len(),
            forall|k: int| 0 <= k < i ==> spec_is_eval_whitespace(#[trigger] v@[k]),
        decreases v@.len() - i,
    {
        if !is_eval_whitespace(v[i]) {
            return false;
        }
        i += 1;
    }
    true
}

/// A canonical decimal digit string: non-empty, and without a superfluous
/// leading zero.
pub open spec fn canon_digits(t: Seq<char>) -> bool {
    t.len() > 0 && all_digits(t) && (t.len() == 1 || t[0] != '0')
}

/// The integer a `Display`-rendered `f64` stands for, when it is a plain
/// in-range integer: an optional `-`, then canonical digits.  Anything
/// else (`NaN`, `inf`, a fraction, out of `i32` range) yields `None`.
pub open spec fn parse_eval_output(t: Seq<char>) -> Option<i32> {
    if t.len() > 0 && t[0] == '-' {
        let d = t.subrange(1, t.len() as int);
        if canon_digits(d) && digits_val(d) <= 2147483648 {
            Some((0 - digits_val(d)) as i32)
        } else {
            None
        }
    } else if canon_digits(t) && digits_val(t) <= i32::MAX {
        Some(digits_val(t) as i32)
    } else {
        None
    }
}

fn parse_eval_output_exec(t: &Vec<char>) -> (r: Option<i32>)
    ensures
        r == parse_eval_output(t@),
{
    let n = t.len();
    if n == 0 {
        return None;
    }
    let neg = t[0] == '-';
    let start: usize = if neg {
        1
    } else {
        0
    };
    let ghost d = t@.subrange(start as int, n as int);
    proof {
        if start == 0 {
            assert(d =~= t@);
        }
    }
    if start == n {
        return None;
    }
    if t[start] == '0' && n - start > 1 {
        return None;
    }
    let mut acc: i64 = 0;
    let mut i = start;
    while i < n
        invariant
            start <= i <= n == t@.len(),
            start < n,
            neg == (t@.len() > 0 && t@[0] == '-'),
            start == if neg {
                1int
            } else {
                0int
            },
            start == 0 ==> d == t@,
            d == t@.subrange(start as int, n as int),
            all_digits(d.take(i - start)),
            acc == digits_val(d.take(i - start)),
            0 <= acc <= 2147483648,
        decreases n - i,
    {
        let c = t[i];
        assert(c == d[i - start]);
        if !is_digit(c) {
            assert(!all_digits(d));
            return None;
        }
        let dv: i64 = (c as u32 as i64) - ('0' as u32 as i64);
        assert(dv == crate::chars::spec_digit_value(c));
        assert(d.take(i + 1 - start).drop_last() =~= d.take(i - start));
        acc = acc * 10 + dv;
        i += 1;
        if acc > 2147483648 {
            proof {
                if all_digits(d) {
                    lemma_digits_val_prefix_le(d, i - start);
                }
            }
            return None;
        }
    }
    proof {
        assert(d.take(n - start) =~= d);
    }
    if neg {
        Some((-acc) as i32)
    } else {
        if acc > 2147483647 {
            return None;
        }
        Some(acc as i32)
    }
}

/// The string holds the three characters of a floating-point `NaN`.
pub open spec fn contains_nan(s: Seq<char>) -> bool {
    exists|i: int|
        0 <= i && i + 3 <= s.len() && #[trigger] s[i] == 'N' && s[i + 1] == 'a' && s[i + 2] == 'N'
}

fn contains_nan_exec(v: &Vec<char>) -> (r: bool)
    ensures
        r == contains_nan(v@),
{
    let n = v.len();
    if n < 3 {
        return false;
    }
    let mut i: usize = 0;
    while i <= n - 3
        invariant
            0 <= i <= n == v@.len(),
            n >= 3,
            forall|j: int|
                0 <= j < i ==> !(#[trigger] v@[j] == 'N' && v@[j + 1] == 'a' && v@[j + 2] == 'N'),
        decreases n - i,
    {
        if v[i] == 'N' && v[i + 1] == 'a' && v[i + 2] == 'N' {
            return true;
        }
        i += 1;
    }
    proof {
        assert forall|k: int| !(0 <= k && k + 3 <= v@.len() && #[trigger] v@[k] == 'N' && v@[k + 1]
            == 'a' && v@[k + 2] == 'N') by {
            if 0 <= k && k + 3 <= v@.len() {
                assert(k < i);
            }
        }
    }
    false
}

/// A numeral token of more than one digit starts with `0` at position `i`.
pub open spec fn lz_at(s: Seq<char>, i: int) -> bool {
    &&& 0 <= i
    &&& i + 1 < s.len()
    &&& s[i] == '0'
    &&& spec_is_digit(s[i + 1])
    &&& (i == 0 || !spec_is_digit(s[i - 1]))
}

/// Some numeral token in `s` has a leading zero.
pub open spec fn has_leading_zero(s: Seq<char>) -> bool {
    exists|i: int| lz_at(s, i)
}

fn has_leading_zero_exec(v: &Vec<char>) -> (r: bool)
    ensures
        r == has_leading_zero(v@),
{
    let n = v.len();
    if n < 2 {
        return false;
    }
    let mut i: usize = 0;
    while i < n - 1
        invariant
            0 <= i <= n == v@.len(),
            n >= 2,
            forall|j: int| 0 <= j < i ==> !lz_at(v@, j),
        decreases n - i,
    {
        if v[i] == '0' && is_digit(v[i + 1]) && (i == 0 || !is_digit(v[i - 1])) {
            assert(lz_at(v@, i as int));
            return true;
        }
        proof {
            assert(!lz_at(v@, i as int));
        }
        i += 1;
    }
    proof {
        assert forall|j: int| !lz_at(v@, j) by {
            if 0 <= j && j + 1 < v@.len() {
                assert(j < i);
            }
        }
    }
    false
}

/// Arithmetic evaluation of a fully reduced expression: reject an
/// all-whitespace string (which the backend cannot take), a literal `NaN`
/// and any leading-zero numeral, then hand the string to the arithmetic
/// backend and read its output back as an `i32`.
pub open spec fn simple_eval(s: Seq<char>) -> Option<i32> {
    if all_eval_whitespace(s) || contains_nan(s) || has_leading_zero(s) {
        None
    } else {
        match meval_result(s) {
            None => None,
            Some(t) => parse_eval_output(t),
        }
    }
}

fn evaluate_simple(v: &Vec<char>) -> (r: Option<i32>)
    ensures
        r == simple_eval(v@),
        count_char(v@, '=') > 0 ==> r is None,
        count_char(v@, '>') > 0 ==> r is None,
{
    if check_all_eval_whitespace(v) {
        return None;
    }
    if contains_nan_exec(v) {
        return None;
    }
    if has_leading_zero_exec(v) {
        return None;
    }
    match meval_format(v) {
        None => None,
        Some(t) => parse_eval_output_exec(&t),
    }
}

/// Full numeric evaluation of one side: floor brackets, factorials and
/// permutations are rewritten away, then the remainder is evaluated; the
/// empty string and every malformed stage yield `None`.
pub open spec fn evaluate_seq(s: Seq<char>) -> Option<i32> {
    if s.len() == 0 {
        None
    } else {
        match floor_reduce(s, floor_fuel()) {
            None => None,
            Some(t) => match fact_reduce(t, count_char(t, '!')) {
                None => None,
                Some(u) => match perm_reduce(u, count_char(u, 'A')) {
                    None => None,
                    Some(w) => simple_eval(w),
                },
            },
        }
    }
}

/// Evaluate one expression, mirroring `evaluate_seq`.  The rewrite passes
/// consume only digits, brackets, `/`, `!` and `A`, so a comparison
/// symbol anywhere makes the whole evaluation fail.
pub fn evaluate_chars(v: &Vec<char>) -> (r: Option<i32>)
    ensures
        r == evaluate_seq(v@),
        count_char(v@, '=') > 0 ==> r is None,
        count_char(v@, '>') > 0 ==> r is None,
{
    if v.len() == 0 {
        return None;
    }
    let t = match reduce_floors(v) {
        None => {
            return None;
        },
        Some(t) => t,
    };
    let u = match reduce_fact(&t) {
        None => {
            return None;
        },
        Some(u) => u,
    };
    let w = match reduce_perm(&u) {
        None => {
            return None;
        },
        Some(w) => w,
    };
    proof {
        lemma_floor_reduce_preserves(v@, floor_fuel(), t@, '=');
        lemma_floor_reduce_preserves(v@, floor_fuel(), t@, '>');
        lemma_fact_reduce_preserves(t@, count_char(t@, '!'), u@, '=');
        lemma_fact_reduce_preserves(t@, count_char(t@, '!'), u@, '>');
        lemma_perm_reduce_preserves(u@, count_char(u@, 'A'), w@, '=');
        lemma_perm_reduce_preserves(u@, count_char(u@, 'A'), w@, '>');
    }
    evaluate_simple(&w)
}

/// Stack-matching of `()` and `[]`: the stack of expected closers that
/// remains after `s[i..]`, or `None` on a mismatched or spurious closer.
pub open spec fn brackets_stack(s: Seq<char>, i: int, stack: Seq<char>) -> Option<Seq<char>>
    decreases s.len() - i,
    when 0 <= i <= s.len()
{
    if i == s.len() {
        Some(stack)
    } else {
        let c = s[i];
        if c == '(' {
            brackets_stack(s, i + 1, stack.push(')'))
        } else if c == '[' {
            brackets_stack(s, i + 1, stack.push(']'))
        } else if c == ')' || c == ']' {
            if stack.len() > 0 && stack.last() == c {
                brackets_stack(s, i + 1, stack.drop_last())
            } else {
                None
            }
        } else {
            brackets_stack(s, i + 1, stack)
        }
    }
}

/// Both bracket kinds are properly nested and balanced.
pub open spec fn brackets_ok(s: Seq<char>) -> bool {
    brackets_stack(s, 0, Seq::empty()) == Some(Seq::<char>::empty())
}

pub fn check_brackets(v: &Vec<char>) -> (r: bool)
    ensures
        r == brackets_ok(v@),
{
    let mut stack: Vec<char> = Vec::new();
    let mut i: usize = 0;
    while i < v.len()
        invariant
            0 <= i <= v@.len(),
            brackets_stack(v@, 0, Seq::empty()) == brackets_stack(v@, i as int, stack@),
        decreases v@.len() - i,
    {
        let c = v[i];
        if c == '(' {
            stack.push(')');
        } else if c == '[' {
            stack.push(']');
        } else if c == ')' || c == ']' {
            let top = stack.pop();
            match top {
                Some(t) => {
                    if t != c {
                        return false;
                    }
                },
                None => {
                    return false;
                },
            }
        }
        i += 1;
    }
    if stack.len() == 0 {
        proof {
            assert(stack@ =~= Seq::<char>::empty());
        }
        true
    } else {
        proof {
            assert(stack@ != Seq::<char>::empty());
        }
        false
    }
}

pub open spec fn cur_op_view(c: Option<(char, usize)>) -> Option<(char, int)> {
    match c {
        None => None,
        Some((op, j)) => Some((op, j as int)),
    }
}

/// A scan that starts from a sound partial state reports an operator
/// that really stands in the string.
pub proof fn lemma_scan_main_props(s: Seq<char>, i: int, depth: int, cur: Option<(char, int)>)
    requires
        0 <= i <= s.len(),
        match cur {
            Some((o, j)) => 0 <= j < s.len() && s[j] == o && (o == '=' || o == '>'),
            None => true,
        },
    ensures
        match scan_main(s, i, depth, cur) {
            Some((op, m)) => 0 <= m < s.len() && s[m] == op && (op == '=' || op == '>'),
            None => true,
        },
    decreases s.len() - i,
{
    if i < s.len() {
        let c = s[i];
        if c == '(' || c == '[' {
            lemma_scan_main_props(s, i + 1, depth + 1, cur);
        } else if c == ')' || c == ']' {
            lemma_scan_main_props(s, i + 1, depth - 1, cur);
        } else if depth == 0 && (c == '=' || c == '>') {
            match cur {
                None => {
                    lemma_scan_main_props(s, i + 1, depth, Some((c, i)));
                },
                Some((op, j)) => {
                    if op == '>' && c == '=' {
                        lemma_scan_main_props(s, i + 1, depth, cur);
                    } else if op != c {
                    } else {
                        lemma_scan_main_props(s, i + 1, depth, cur);
                    }
                },
            }
        } else {
            lemma_scan_main_props(s, i + 1, depth, cur);
        }
    }
}

/// Scan for the main comparison operator at bracket depth zero.  A later
/// `=` after a chosen `>` folds into the combined greater-or-equal; any
/// other mixture of distinct operators is a conflict (`None`).
pub open spec fn scan_main(s: Seq<char>, i: int, depth: int, cur: Option<(char, int)>) -> Option<
    (char, int),
>
    decreases s.len() - i,
    when 0 <= i <= s.len()
{
    if i == s.len() {
        cur
    } else {
        let c = s[i];
        if c == '(' || c == '[' {
            scan_main(s, i + 1, depth + 1, cur)
        } else if c == ')' || c == ']' {
            scan_main(s, i + 1, depth - 1, cur)
        } else if depth == 0 && (c == '=' || c == '>') {
            match cur {
                None => scan_main(s, i + 1, depth, Some((c, i))),
                Some((op, j)) => if op == '>' && c == '=' {
                    scan_main(s, i + 1, depth, cur)
                } else if op != c {
                    None
                } else {
                    scan_main(s, i + 1, depth, cur)
                },
            }
        } else {
            scan_main(s, i + 1, depth, cur)
        }
    }
}

/// The full equation / inequality check: balanced brackets, a coherent
/// main operator that is neither first nor last, and two sides that
/// evaluate to integers in the stated relation.
pub open spec fn valid_equation(s: Seq<char>) -> bool {
    &&& brackets_ok(s)
    &&& match scan_main(s, 0, 0, None) {
        None => false,
        Some((op, m)) => {
            &&& m != 0
            &&& m != s.len() - 1
            &&& match (evaluate_seq(s.subrange(0, m)), evaluate_seq(
                s.subrange(m + 1, s.len() as int),
            )) {
                (Some(a), Some(b)) => if op == '=' {
                    a == b
                } else if op == '>' {
                    a > b
                } else {
                    false
                },
                _ => false,
            }
        },
    }
}

fn copy_side(v: &Vec<char>, from: usize, to: usize) -> (out: Vec<char>)
    requires
        from <= to <= v@.len(),
    ensures
        out@ == v@.subrange(from as int, to as int),
{
    let mut out: Vec<char> = Vec::new();
    let mut i = from;
    while i < to
        invariant
            from <= i <= to <= v@.len(),
            out@ == v@.subrange(from as int, i as int),
        decreases to - i,
    {
        out.push(v[i]);
        assert(out@ =~= v@.subrange(from as int, i + 1));
        i += 1;
    }
    out
}

/// Decide the equation check, mirroring `valid_equation`.  A valid string
/// holds exactly one comparison symbol: the sides must both evaluate, so
/// neither may hold `=` or `>` at all.
pub fn is_valid_equation_chars(v: &Vec<char>) -> (r: bool)
    ensures
        r == valid_equation(v@),
        r ==> count_char(v@, '=') + count_char(v@, '>') == 1,
{
    if !check_brackets(v) {
        return false;
    }
    let n = v.len();
    let mut cur: Option<(char, usize)> = None;
    let mut depth: i128 = 0;
    let mut i: usize = 0;
    while i < n
        invariant
            0 <= i <= n == v@.len(),
            -(i as int) <= depth <= i as int,
            scan_main(v@, 0, 0, None) == scan_main(v@, i as int, depth as int, cur_op_view(cur)),
            match cur {
                Some((op2, j2)) => j2 < i,
                None => true,
            },
        decreases n - i,
    {
        let c = v[i];
        if c == '(' || c == '[' {
            depth = depth + 1;
        } else if c == ')' || c == ']' {
            depth = depth - 1;
        } else if depth == 0 && (c == '=' || c == '>') {
            match cur {
                None => {
                    cur = Some((c, i));
                },
                Some((op, _j)) => {
                    if op == '>' && c == '=' {
                    } else if op != c {
                        return false;
                    }
                },
            }
        }
        i += 1;
    }
    let (op, m) = match cur {
        None => {
            return false;
        },
        Some((op, m)) => (op, m),
    };
    if m == 0 || m == n - 1 {
        return false;
    }
    let left = copy_side(v, 0, m);
    let right = copy_side(v, m + 1, n);
    let lv = match evaluate_chars(&left) {
        Some(a) => a,
        None => {
            return false;
        },
    };
    let rv = match evaluate_chars(&right) {
        Some(b) => b,
        None => {
            return false;
        },
    };
    proof {
        lemma_scan_main_props(v@, 0, 0, None);
        assert(scan_main(v@, 0, 0, None) == Some((op, m as int)));
        assert(v@[m as int] == op && (op == '=' || op == '>'));
        assert(v@ =~= left@ + v@.subrange(m as int, m as int + 1) + right@);
        lemma_count_char_concat(left@ + v@.subrange(m as int, m as int + 1), right@, '=');
        lemma_count_char_concat(left@, v@.subrange(m as int, m as int + 1), '=');
        lemma_count_char_concat(left@ + v@.subrange(m as int, m as int + 1), right@, '>');
        lemma_count_char_concat(left@, v@.subrange(m as int, m as int + 1), '>');
        assert(v@.subrange(m as int, m as int + 1) =~= seq![v@[m as int]]);
        lemma_count_char_single(v@[m as int], '=');
        lemma_count_char_single(v@[m as int], '>');
        assert(count_char(v@, '=') + count_char(v@, '>') == 1);
    }
    if op == '=' {
        lv == rv
    } else if op == '>' {
        lv > rv
    } else {
        false
    }
}

} // verus!

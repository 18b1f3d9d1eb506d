//! Rewriting of floor brackets, factorials and permutations into plain
//! integer literals, ahead of arithmetic evaluation.
//!
//! Each pass repeatedly locates the leftmost occurrence of its token,
//! replaces the governed span by the decimal rendering of its value, and
//! fails (`None`) on any malformed or out-of-bounds span.

use vstd::prelude::*;
use crate::chars::{spec_is_digit, is_digit, count_char, lemma_count_char_concat,
    lemma_count_char_all_digits};
use crate::numbers::{all_digits, parse_i32_digits, parse_digits, spec_digits_of,
    lemma_digits_of_all_digits, lemma_digits_val_nonneg, u32_to_digits};

verus! {

pub open spec fn opt_usize_as_int(r: Option<usize>) -> Option<int> {
    match r {
        None => None,
        Some(x) => Some(x as int),
    }
}

pub open spec fn opt_vec_view(r: Option<Vec<char>>) -> Option<Seq<char>> {
    match r {
        None => None,
        Some(v) => Some(v@),
    }
}

/// Index of the first occurrence of `c` in `s` at or after `i`.
pub open spec fn find_from(s: Seq<char>, c: char, i: int) -> Option<int>
    decreases s.len() - i,
    when 0 <= i <= s.len()
{
    if i >= s.len() {
        None
    } else if s[i] == c {
        Some(i)
    } else {
        find_from(s, c, i + 1)
    }
}

pub proof fn lemma_find_from(s: Seq<char>, c: char, i: int)
    requires
        0 <= i <= s.len(),
    ensures
        match find_from(s, c, i) {
            Some(p) => i <= p < s.len() && s[p] == c && forall|j: int|
                i <= j < p ==> #[trigger] s[j] != c,
            None => forall|j: int| i <= j < s.len() ==> #[trigger] s[j] != c,
        },
    decreases s.len() - i,
{
    if i < s.len() && s[i] != c {
        lemma_find_from(s, c, i + 1);
    }
}

pub fn find_char_from(v: &Vec<char>, c: char, from: usize) -> (r: Option<usize>)
    requires
        from <= v@.len(),
    ensures
        opt_usize_as_int(r) == find_from(v@, c, from as int),
{
    let mut i = from;
    while i < v.len()
        invariant
            from <= i <= v@.len(),
            find_from(v@, c, from as int) == find_from(v@, c, i as int),
        decreases v@.len() - i,
    {
        if v[i] == c {
            return Some(i);
        }
        i += 1;
    }
    None
}

/// Index of the bracket closing the `[` just before `end`, scanning with
/// square-bracket depth `depth`.
pub open spec fn find_close(s: Seq<char>, end: int, depth: int) -> Option<int>
    decreases s.len() - end,
    when 0 <= end <= s.len()
{
    if end >= s.len() {
        None
    } else {
        let d2 = if s[end] == '[' {
            depth + 1
        } else if s[end] == ']' {
            depth - 1
        } else {
            depth
        };
        if d2 == 0 {
            Some(end)
        } else {
            find_close(s, end + 1, d2)
        }
    }
}

pub proof fn lemma_find_close_range(s: Seq<char>, end: int, depth: int)
    requires
        0 <= end <= s.len(),
    ensures
        match find_close(s, end, depth) {
            Some(e) => end <= e < s.len(),
            None => true,
        },
    decreases s.len() - end,
{
    if end < s.len() {
        let d2 = if s[end] == '[' {
            depth + 1
        } else if s[end] == ']' {
            depth - 1
        } else {
            depth
        };
        if d2 != 0 {
            lemma_find_close_range(s, end + 1, d2);
        }
    }
}

pub fn find_close_exec(v: &Vec<char>, start: usize) -> (r: Option<usize>)
    requires
        start <= v@.len(),
    ensures
        opt_usize_as_int(r) == find_close(v@, start as int, 1),
        match r {
            Some(e) => start <= e < v@.len(),
            None => true,
        },
{
    proof {
        lemma_find_close_range(v@, start as int, 1);
    }
    let mut end = start;
    let mut depth: i128 = 1;
    while end < v.len()
        invariant
            start <= end <= v@.len(),
            1 <= depth <= 1 + end - start,
            find_close(v@, start as int, 1) == find_close(v@, end as int, depth as int),
        decreases v@.len() - end,
    {
        let c = v[end];
        let d2: i128 = if c == '[' {
            depth + 1
        } else if c == ']' {
            depth - 1
        } else {
            depth
        };
        if d2 == 0 {
            return Some(end);
        }
        depth = d2;
        end += 1;
    }
    None
}

/// Leftmost start of the digit run that ends just before `j`.
pub open spec fn run_start(s: Seq<char>, j: int) -> int
    decreases j,
    when 0 <= j <= s.len()
{
    if j > 0 && spec_is_digit(s[j - 1]) {
        run_start(s, j - 1)
    } else {
        j
    }
}

pub proof fn lemma_run_start(s: Seq<char>, j: int)
    requires
        0 <= j <= s.len(),
    ensures
        0 <= run_start(s, j) <= j,
        forall|k: int| run_start(s, j) <= k < j ==> spec_is_digit(#[trigger] s[k]),
        run_start(s, j) == 0 || !spec_is_digit(s[run_start(s, j) - 1]),
    decreases j,
{
    if j > 0 && spec_is_digit(s[j - 1]) {
        lemma_run_start(s, j - 1);
    }
}

pub fn run_start_exec(v: &Vec<char>, j: usize) -> (r: usize)
    requires
        j <= v@.len(),
    ensures
        r as int == run_start(v@, j as int),
{
    let mut t = j;
    while t > 0 && is_digit(v[t - 1])
        invariant
            0 <= t <= j <= v@.len(),
            run_start(v@, j as int) == run_start(v@, t as int),
        decreases t,
    {
        t -= 1;
    }
    t
}

/// End (exclusive) of the digit run that starts at `j`.
pub open spec fn run_end(s: Seq<char>, j: int) -> int
    decreases s.len() - j,
    when 0 <= j <= s.len()
{
    if j < s.len() && spec_is_digit(s[j]) {
        run_end(s, j + 1)
    } else {
        j
    }
}

pub proof fn lemma_run_end(s: Seq<char>, j: int)
    requires
        0 <= j <= s.len(),
    ensures
        j <= run_end(s, j) <= s.len(),
        forall|k: int| j <= k < run_end(s, j) ==> spec_is_digit(#[trigger] s[k]),
    decreases s.len() - j,
{
    if j < s.len() && spec_is_digit(s[j]) {
        lemma_run_end(s, j + 1);
    }
}

pub fn run_end_exec(v: &Vec<char>, j: usize) -> (r: usize)
    requires
        j <= v@.len(),
    ensures
        r as int == run_end(v@, j as int),
        j <= r <= v@.len(),
{
    proof {
        lemma_run_end(v@, j as int);
    }
    let mut t = j;
    while t < v.len() && is_digit(v[t])
        invariant
            j <= t <= v@.len(),
            run_end(v@, j as int) == run_end(v@, t as int),
        decreases v@.len() - t,
    {
        t += 1;
    }
    t
}

/// `v[0..from] ++ mid ++ v[to..]`.
fn splice(v: &Vec<char>, from: usize, to: usize, mid: &Vec<char>) -> (out: Vec<char>)
    requires
        from <= to <= v@.len(),
    ensures
        out@ == v@.subrange(0, from as int) + mid@ + v@.subrange(to as int, v@.len() as int),
{
    let mut out: Vec<char> = Vec::new();
    let mut i: usize = 0;
    while i < from
        invariant
            0 <= i <= from <= v@.len(),
            out@ == v@.subrange(0, i as int),
        decreases from - i,
    {
        out.push(v[i]);
        assert(out@ =~= v@.subrange(0, i + 1));
        i += 1;
    }
    let mut j: usize = 0;
    while j < mid.len()
        invariant
            0 <= j <= mid@.len(),
            to <= v@.len(),
            out@ == v@.subrange(0, from as int) + mid@.subrange(0, j as int),
        decreases mid@.len() - j,
    {
        out.push(mid[j]);
        assert(out@ =~= v@.subrange(0, from as int) + mid@.subrange(0, j + 1));
        j += 1;
    }
    assert(mid@.subrange(0, mid@.len() as int) =~= mid@);
    let mut k: usize = to;
    while k < v.len()
        invariant
            to <= k <= v@.len(),
            out@ == v@.subrange(0, from as int) + mid@ + v@.subrange(to as int, k as int),
        decreases v@.len() - k,
    {
        out.push(v[k]);
        assert(out@ =~= v@.subrange(0, from as int) + mid@ + v@.subrange(to as int, k + 1));
        k += 1;
    }
    out
}

fn copy_range(v: &Vec<char>, from: usize, to: usize) -> (out: Vec<char>)
    requires
        from <= to <= v@.len(),
    ensures
        out@ == v@.subrange(from as int, to as int),
{
    let mut out: Vec<char> = Vec::new();
    let mut i = from;
    while i < to
        invariant
            from <= i <= to <= v@.len(),
            out@ == v@.subrange(from as int, i as int),
        decreases to - i,
    {
        out.push(v[i]);
        assert(out@ =~= v@.subrange(from as int, i + 1));
        i += 1;
    }
    out
}

fn check_all_digits(v: &Vec<char>) -> (r: bool)
    ensures
        r == all_digits(v@),
{
    let mut i: usize = 0;
    while i < v.len()
        invariant
            0 <= i <= v@.len(),
            forall|k: int| 0 <= k < i ==> spec_is_digit(#[trigger] v@[k]),
        decreases v@.len() - i,
    {
        if !is_digit(v[i]) {
            return false;
        }
        i += 1;
    }
    true
}

/// The two digit strings of `inner` around its single `/`, if `inner`
/// holds exactly one.
pub open spec fn division_split(inner: Seq<char>) -> Option<(Seq<char>, Seq<char>)> {
    match find_from(inner, '/', 0) {
        None => None,
        Some(k) => if find_from(inner, '/', k + 1) is Some {
            None
        } else {
            Some((inner.subrange(0, k), inner.subrange(k + 1, inner.len() as int)))
        },
    }
}

/// One floor-bracket rewrite: the first `[`, its matching `]`, and the
/// bracketed content, which must be a digit string or two digit strings
/// around one `/`; the span becomes the decimal floor value.
pub open spec fn floor_step(s: Seq<char>) -> Option<Seq<char>> {
    match find_from(s, '[', 0) {
        None => None,
        Some(p) => match find_close(s, p + 1, 1) {
            None => None,
            Some(e) => {
                let inner = s.subrange(p + 1, e);
                if all_digits(inner) {
                    match parse_i32_digits(inner) {
                        None => None,
                        Some(n) => Some(
                            s.subrange(0, p) + spec_digits_of(n as int) + s.subrange(
                                e + 1,
                                s.len() as int,
                            ),
                        ),
                    }
                } else {
                    match division_split(inner) {
                        None => None,
                        Some((a, b)) => if all_digits(a) && all_digits(b) {
                            match (parse_i32_digits(a), parse_i32_digits(b)) {
                                (Some(num), Some(den)) => if den == 0 {
                                    None
                                } else {
                                    Some(
                                        s.subrange(0, p) + spec_digits_of(
                                            num as int / den as int,
                                        ) + s.subrange(e + 1, s.len() as int),
                                    )
                                },
                                _ => None,
                            }
                        } else {
                            None
                        },
                    }
                }
            },
        },
    }
}

/// Floor brackets are rewritten innermost-span-first with a bounded pass
/// budget; running out of budget with a `[` left is a failure.
pub open spec fn floor_reduce(s: Seq<char>, fuel: nat) -> Option<Seq<char>>
    decreases fuel,
{
    if find_from(s, '[', 0) is None {
        Some(s)
    } else if fuel == 0 {
        None
    } else {
        match floor_step(s) {
            None => None,
            Some(t) => floor_reduce(t, (fuel - 1) as nat),
        }
    }
}

/// The pass budget for floor-bracket rewriting.
pub open spec fn floor_fuel() -> nat {
    10
}

fn floor_step_exec(v: &Vec<char>) -> (r: Option<Vec<char>>)
    requires
        find_from(v@, '[', 0) is Some,
    ensures
        opt_vec_view(r) == floor_step(v@),
{
    proof {
        lemma_find_from(v@, '[', 0);
    }
    let p = match find_char_from(v, '[', 0) {
        Some(p) => p,
        None => {
            return None;
        },
    };
    let len = v.len();
    proof {
        assert(find_from(v@, '[', 0) == Some(p as int));
        assert(p < len);
    }
    let e = match find_close_exec(v, p + 1) {
        Some(e) => e,
        None => {
            return None;
        },
    };
    let inner = copy_range(v, p + 1, e);
    proof {
        assert(inner@.subrange(0, inner@.len() as int) =~= inner@);
    }
    if check_all_digits(&inner) {
        match parse_digits(&inner, 0, inner.len()) {
            None => None,
            Some(n) => {
                proof {
                    crate::numbers::lemma_digits_val_nonneg(inner@);
                }
                let digits = u32_to_digits(n as u32);
                Some(splice(v, p, e + 1, &digits))
            },
        }
    } else {
        let k = match find_char_from(&inner, '/', 0) {
            Some(k) => k,
            None => {
                return None;
            },
        };
        proof {
            lemma_find_from(inner@, '/', 0);
        }
        if find_char_from(&inner, '/', k + 1).is_some() {
            return None;
        }
        let a = copy_range(&inner, 0, k);
        let b = copy_range(&inner, k + 1, inner.len());
        proof {
            assert(a@.subrange(0, a@.len() as int) =~= a@);
            assert(b@.subrange(0, b@.len() as int) =~= b@);
        }
        if !check_all_digits(&a) || !check_all_digits(&b) {
            return None;
        }
        let num = match parse_digits(&a, 0, a.len()) {
            Some(n) => n,
            None => {
                return None;
            },
        };
        let den = match parse_digits(&b, 0, b.len()) {
            Some(n) => n,
            None => {
                return None;
            },
        };
        proof {
            crate::numbers::lemma_digits_val_nonneg(a@);
            crate::numbers::lemma_digits_val_nonneg(b@);
        }
        if den == 0 {
            return None;
        }
        let digits = u32_to_digits((num / den) as u32);
        Some(splice(v, p, e + 1, &digits))
    }
}

/// Rewrite every floor bracket, mirroring `floor_reduce` with its budget.
pub fn reduce_floors(v: &Vec<char>) -> (r: Option<Vec<char>>)
    ensures
        opt_vec_view(r) == floor_reduce(v@, floor_fuel()),
{
    let mut cur = copy_range(v, 0, v.len());
    proof {
        assert(cur@ =~= v@);
    }
    let mut iter: usize = 0;
    loop
        invariant
            iter <= 10,
            floor_reduce(v@, floor_fuel()) == floor_reduce(cur@, (10 - iter) as nat),
        decreases 10 - iter,
    {
        if find_char_from(&cur, '[', 0).is_none() {
            return Some(cur);
        }
        if iter >= 10 {
            return None;
        }
        match floor_step_exec(&cur) {
            None => {
                return None;
            },
            Some(t) => {
                cur = t;
            },
        }
        iter += 1;
    }
}

pub proof fn lemma_count_char_zero(s: Seq<char>, c: char)
    requires
        forall|j: int| 0 <= j < s.len() ==> #[trigger] s[j] != c,
    ensures
        count_char(s, c) == 0,
    decreases s.len(),
{
    if s.len() > 0 {
        lemma_count_char_zero(s.drop_last(), c);
    }
}

/// The factorial of a non-negative value.
pub open spec fn spec_fact(n: int) -> int
    decreases n,
{
    if n <= 1 {
        1
    } else {
        n * spec_fact(n - 1)
    }
}

pub proof fn lemma_fact_bound_pos(n: int)
    ensures
        spec_fact(n) >= 1,
    decreases n,
{
    if n > 1 {
        lemma_fact_bound_pos(n - 1);
        vstd::arithmetic::mul::lemma_mul_left_inequality(n, 1, spec_fact(n - 1));
    }
}

pub proof fn lemma_fact_monotone(a: int, b: int)
    requires
        0 <= a <= b,
    ensures
        spec_fact(a) <= spec_fact(b),
    decreases b,
{
    if a < b {
        lemma_fact_monotone(a, b - 1);
        lemma_fact_bound_pos(b - 1);
        if b > 1 {
            vstd::arithmetic::mul::lemma_mul_left_inequality(spec_fact(b - 1), 1, b);
            vstd::arithmetic::mul::lemma_mul_is_commutative(spec_fact(b - 1), b);
        }
    }
}

pub proof fn lemma_fact_bound(n: int)
    requires
        0 <= n <= 12,
    ensures
        1 <= spec_fact(n) <= 479001600,
{
    lemma_fact_bound_pos(n);
    lemma_fact_monotone(n, 12);
    assert(spec_fact(1) == 1);
    assert(spec_fact(2) == 2);
    assert(spec_fact(3) == 6);
    assert(spec_fact(4) == 24);
    assert(spec_fact(5) == 120);
    assert(spec_fact(6) == 720);
    assert(spec_fact(7) == 5040);
    assert(spec_fact(8) == 40320);
    assert(spec_fact(9) == 362880);
    assert(spec_fact(10) == 3628800);
    assert(spec_fact(11) == 39916800);
    assert(spec_fact(12) == 479001600);
}

/// Count of `c` in a one-character sequence.
pub proof fn lemma_count_char_single(x: char, c: char)
    ensures
        count_char(seq![x], c) == if x == c {
            1nat
        } else {
            0nat
        },
{
    assert(seq![x].drop_last() =~= Seq::<char>::empty());
    assert(count_char(Seq::<char>::empty(), c) == 0);
    assert(seq![x].last() == x);
}

/// One factorial rewrite: the digit run before the first `!`, bounded by
/// 12, becomes its factorial.
pub open spec fn fact_step(s: Seq<char>) -> Option<Seq<char>> {
    match find_from(s, '!', 0) {
        None => None,
        Some(p) => if p == 0 {
            None
        } else {
            let st = run_start(s, p - 1);
            match parse_i32_digits(s.subrange(st, p)) {
                None => None,
                Some(n) => if n > 12 {
                    None
                } else {
                    Some(
                        s.subrange(0, st) + spec_digits_of(spec_fact(n as int)) + s.subrange(
                            p + 1,
                            s.len() as int,
                        ),
                    )
                },
            }
        },
    }
}

/// A successful factorial rewrite removes exactly one `!`.
pub proof fn lemma_fact_step_count(s: Seq<char>, t: Seq<char>)
    requires
        fact_step(s) == Some(t),
    ensures
        count_char(s, '!') >= 1,
        count_char(t, '!') == count_char(s, '!') - 1,
{
    lemma_find_from(s, '!', 0);
    let p = find_from(s, '!', 0).unwrap();
    let st = run_start(s, p - 1);
    lemma_run_start(s, p - 1);
    let n = parse_i32_digits(s.subrange(st, p)).unwrap();
    let mid = spec_digits_of(spec_fact(n as int));
    lemma_digits_val_nonneg(s.subrange(st, p));
    lemma_fact_bound(n as int);
    lemma_digits_of_all_digits(spec_fact(n as int));
    assert(s =~= s.subrange(0, p) + s.subrange(p, p + 1) + s.subrange(p + 1, s.len() as int));
    lemma_count_char_concat(
        s.subrange(0, p) + s.subrange(p, p + 1),
        s.subrange(p + 1, s.len() as int),
        '!',
    );
    lemma_count_char_concat(s.subrange(0, p), s.subrange(p, p + 1), '!');
    lemma_count_char_zero(s.subrange(0, p), '!');
    assert(s.subrange(p, p + 1) =~= seq![s[p]]);
    lemma_count_char_single(s[p], '!');
    lemma_count_char_concat(s.subrange(0, st) + mid, s.subrange(p + 1, s.len() as int), '!');
    lemma_count_char_concat(s.subrange(0, st), mid, '!');
    lemma_count_char_zero(s.subrange(0, st), '!');
    lemma_count_char_all_digits(mid, '!');
}

/// Factorials are rewritten left to right; each pass consumes one `!`, so
/// a fuel of `count_char(s, '!')` is always enough.
pub open spec fn fact_reduce(s: Seq<char>, fuel: nat) -> Option<Seq<char>>
    decreases fuel,
{
    if find_from(s, '!', 0) is None {
        Some(s)
    } else if fuel == 0 {
        None
    } else {
        match fact_step(s) {
            None => None,
            Some(t) => fact_reduce(t, (fuel - 1) as nat),
        }
    }
}

fn fact_step_exec(v: &Vec<char>) -> (r: Option<Vec<char>>)
    requires
        find_from(v@, '!', 0) is Some,
    ensures
        opt_vec_view(r) == fact_step(v@),
{
    proof {
        lemma_find_from(v@, '!', 0);
    }
    let p = match find_char_from(v, '!', 0) {
        Some(p) => p,
        None => {
            return None;
        },
    };
    let len = v.len();
    proof {
        assert(p < len);
    }
    if p == 0 {
        return None;
    }
    let st = run_start_exec(v, p - 1);
    proof {
        lemma_run_start(v@, p - 1);
    }
    match parse_digits(v, st, p) {
        None => None,
        Some(n) => {
            if n > 12 {
                return None;
            }
            proof {
                crate::numbers::lemma_digits_val_nonneg(v@.subrange(st as int, p as int));
                lemma_fact_bound(n as int);
            }
            let mut f: i64 = 1;
            let mut i: i32 = 1;
            while i < n
                invariant
                    0 <= n <= 12,
                    1 <= i,
                    i <= n || i == 1,
                    f == spec_fact(i as int),
                    1 <= f <= 479001600,
                decreases n - i,
            {
                proof {
                    assert(spec_fact(i as int + 1) == (i as int + 1) * spec_fact(i as int));
                    vstd::arithmetic::mul::lemma_mul_is_commutative(
                        i as int + 1,
                        spec_fact(i as int),
                    );
                    lemma_fact_bound(i as int + 1);
                }
                f = f * ((i + 1) as i64);
                i = i + 1;
            }
            proof {
                assert(f == spec_fact(n as int));
            }
            let digits = u32_to_digits(f as u32);
            Some(splice(v, st, p + 1, &digits))
        },
    }
}

/// Rewrite every factorial, mirroring `fact_reduce`.
pub fn reduce_fact(v: &Vec<char>) -> (r: Option<Vec<char>>)
    ensures
        opt_vec_view(r) == fact_reduce(v@, count_char(v@, '!')),
{
    let mut cur = copy_range(v, 0, v.len());
    proof {
        assert(cur@ =~= v@);
    }
    loop
        invariant
            fact_reduce(v@, count_char(v@, '!')) == fact_reduce(cur@, count_char(cur@, '!')),
        decreases count_char(cur@, '!'),
    {
        if find_char_from(&cur, '!', 0).is_none() {
            return Some(cur);
        }
        proof {
            lemma_find_from(cur@, '!', 0);
            let p = find_from(cur@, '!', 0).unwrap();
            assert(cur@[p] == '!');
            assert(cur@ =~= cur@.subrange(0, p) + cur@.subrange(p, p + 1) + cur@.subrange(
                p + 1,
                cur@.len() as int,
            ));
            lemma_count_char_concat(
                cur@.subrange(0, p) + cur@.subrange(p, p + 1),
                cur@.subrange(p + 1, cur@.len() as int),
                '!',
            );
            lemma_count_char_concat(cur@.subrange(0, p), cur@.subrange(p, p + 1), '!');
            assert(cur@.subrange(p, p + 1) =~= seq![cur@[p]]);
            lemma_count_char_single(cur@[p], '!');
            assert(count_char(cur@, '!') >= 1);
        }
        match fact_step_exec(&cur) {
            None => {
                return None;
            },
            Some(t) => {
                proof {
                    lemma_fact_step_count(cur@, t@);
                }
                cur = t;
            },
        }
    }
}

/// The falling product `m * (m-1) * ... * (m-n+1)`.
pub open spec fn spec_falling(m: int, n: int) -> int
    decreases n,
{
    if n <= 0 {
        1
    } else {
        m * spec_falling(m - 1, n - 1)
    }
}

pub proof fn lemma_falling_bound(m: int, n: int)
    requires
        0 <= n <= m <= 10,
    ensures
        1 <= spec_falling(m, n) <= spec_fact(m),
        spec_fact(m) <= 3628800,
    decreases n,
{
    reveal_with_fuel(spec_fact, 12);
    assert(spec_fact(10) == 3628800);
    if n == 0 {
        lemma_fact_bound(m);
        assert(spec_fact(m) <= 3628800) by {
            lemma_fact_monotone(m, 10);
        }
    } else {
        lemma_falling_bound(m - 1, n - 1);
        assert(spec_falling(m, n) == m * spec_falling(m - 1, n - 1));
        assert(m * 1 <= m * spec_falling(m - 1, n - 1)) by {
            vstd::arithmetic::mul::lemma_mul_left_inequality(m, 1, spec_falling(m - 1, n - 1));
        }
        assert(m * spec_falling(m - 1, n - 1) <= m * spec_fact(m - 1)) by {
            vstd::arithmetic::mul::lemma_mul_left_inequality(
                m,
                spec_falling(m - 1, n - 1),
                spec_fact(m - 1),
            );
        }
        assert(m * spec_fact(m - 1) == spec_fact(m));
        lemma_fact_monotone(m, 10);
    }
}

/// One permutation rewrite: the digit runs around the first `A` become
/// the falling product, with both operands capped at 10 and `n <= m`.
pub open spec fn perm_step(s: Seq<char>) -> Option<Seq<char>> {
    match find_from(s, 'A', 0) {
        None => None,
        Some(p) => if p == 0 || p == s.len() - 1 {
            None
        } else {
            let st = run_start(s, p - 1);
            let en = run_end(s, p + 1);
            match (parse_i32_digits(s.subrange(st, p)), parse_i32_digits(s.subrange(p + 1, en))) {
                (Some(m), Some(n)) => if m > 10 || n > 10 || n > m {
                    None
                } else {
                    Some(
                        s.subrange(0, st) + spec_digits_of(spec_falling(m as int, n as int))
                            + s.subrange(en, s.len() as int),
                    )
                },
                _ => None,
            }
        },
    }
}

/// A successful permutation rewrite removes exactly one `A`.
pub proof fn lemma_perm_step_count(s: Seq<char>, t: Seq<char>)
    requires
        perm_step(s) == Some(t),
    ensures
        count_char(s, 'A') >= 1,
        count_char(t, 'A') == count_char(s, 'A') - 1,
{
    lemma_find_from(s, 'A', 0);
    let p = find_from(s, 'A', 0).unwrap();
    let st = run_start(s, p - 1);
    let en = run_end(s, p + 1);
    lemma_run_start(s, p - 1);
    lemma_run_end(s, p + 1);
    let m = parse_i32_digits(s.subrange(st, p)).unwrap();
    let n = parse_i32_digits(s.subrange(p + 1, en)).unwrap();
    lemma_digits_val_nonneg(s.subrange(st, p));
    lemma_digits_val_nonneg(s.subrange(p + 1, en));
    lemma_falling_bound(m as int, n as int);
    let mid = spec_digits_of(spec_falling(m as int, n as int));
    lemma_digits_of_all_digits(spec_falling(m as int, n as int));
    assert(s =~= s.subrange(0, p) + s.subrange(p, p + 1) + s.subrange(p + 1, en) + s.subrange(
        en,
        s.len() as int,
    ));
    lemma_count_char_concat(
        s.subrange(0, p) + s.subrange(p, p + 1) + s.subrange(p + 1, en),
        s.subrange(en, s.len() as int),
        'A',
    );
    lemma_count_char_concat(s.subrange(0, p) + s.subrange(p, p + 1), s.subrange(p + 1, en), 'A');
    lemma_count_char_concat(s.subrange(0, p), s.subrange(p, p + 1), 'A');
    lemma_count_char_zero(s.subrange(0, p), 'A');
    assert(s.subrange(p, p + 1) =~= seq![s[p]]);
    lemma_count_char_single(s[p], 'A');
    assert(forall|k: int|
        0 <= k < s.subrange(p + 1, en).len() ==> spec_is_digit(#[trigger] s.subrange(p + 1, en)[k]));
    lemma_count_char_all_digits(s.subrange(p + 1, en), 'A');
    lemma_count_char_concat(s.subrange(0, st) + mid, s.subrange(en, s.len() as int), 'A');
    lemma_count_char_concat(s.subrange(0, st), mid, 'A');
    lemma_count_char_zero(s.subrange(0, st), 'A');
    lemma_count_char_all_digits(mid, 'A');
}

/// Permutations are rewritten left to right, one `A` per pass.
pub open spec fn perm_reduce(s: Seq<char>, fuel: nat) -> Option<Seq<char>>
    decreases fuel,
{
    if find_from(s, 'A', 0) is None {
        Some(s)
    } else if fuel == 0 {
        None
    } else {
        match perm_step(s) {
            None => None,
            Some(t) => perm_reduce(t, (fuel - 1) as nat),
        }
    }
}

fn perm_step_exec(v: &Vec<char>) -> (r: Option<Vec<char>>)
    requires
        find_from(v@, 'A', 0) is Some,
    ensures
        opt_vec_view(r) == perm_step(v@),
{
    proof {
        lemma_find_from(v@, 'A', 0);
    }
    let p = match find_char_from(v, 'A', 0) {
        Some(p) => p,
        None => {
            return None;
        },
    };
    let len = v.len();
    if p == 0 || p == len - 1 {
        return None;
    }
    let st = run_start_exec(v, p - 1);
    let en = run_end_exec(v, p + 1);
    proof {
        lemma_run_start(v@, p - 1);
        lemma_run_end(v@, p + 1);
    }
    let m = match parse_digits(v, st, p) {
        Some(m) => m,
        None => {
            return None;
        },
    };
    let n = match parse_digits(v, p + 1, en) {
        Some(n) => n,
        None => {
            return None;
        },
    };
    if m > 10 || n > 10 || n > m {
        return None;
    }
    proof {
        crate::numbers::lemma_digits_val_nonneg(v@.subrange(st as int, p as int));
        crate::numbers::lemma_digits_val_nonneg(v@.subrange(p + 1 as int, en as int));
        lemma_falling_bound(m as int, n as int);
    }
    let mut f: i64 = 1;
    let mut i: i32 = 0;
    while i < n
        invariant
            0 <= i <= n <= m <= 10,
            f == spec_falling_partial(m as int, i as int),
            1 <= f <= 3628800,
        decreases n - i,
    {
        proof {
            lemma_falling_partial_step(m as int, i as int, n as int);
        }
        f = f * ((m - i) as i64);
        i = i + 1;
    }
    proof {
        lemma_falling_partial_full(m as int, n as int);
    }
    let digits = u32_to_digits(f as u32);
    Some(splice(v, st, en, &digits))
}

/// Product of the first `i` factors of the falling product from `m`.
pub open spec fn spec_falling_partial(m: int, i: int) -> int
    decreases i,
{
    if i <= 0 {
        1
    } else {
        spec_falling_partial(m, i - 1) * (m - (i - 1))
    }
}

proof fn lemma_falling_partial_step(m: int, i: int, n: int)
    requires
        0 <= i < n <= m <= 10,
    ensures
        spec_falling_partial(m, i + 1) == spec_falling_partial(m, i) * (m - i),
        1 <= spec_falling_partial(m, i + 1) <= 3628800,
{
    lemma_falling_partial_eq(m, i + 1);
    lemma_falling_bound(m, i + 1);
}

proof fn lemma_falling_partial_full(m: int, n: int)
    requires
        0 <= n <= m <= 10,
    ensures
        spec_falling_partial(m, n) == spec_falling(m, n),
        1 <= spec_falling(m, n) <= 3628800,
{
    lemma_falling_partial_eq(m, n);
    lemma_falling_bound(m, n);
}

/// The left-to-right partial product agrees with the recursive form.
proof fn lemma_falling_partial_eq(m: int, n: int)
    requires
        n >= 0,
    ensures
        spec_falling_partial(m, n) == spec_falling(m, n),
    decreases n,
{
    if n > 0 {
        lemma_falling_shift(m, n - 1);
        lemma_falling_partial_eq(m, n - 1);
    }
}

/// Peeling the last factor off the falling product.
proof fn lemma_falling_shift(m: int, k: int)
    requires
        k >= 0,
    ensures
        spec_falling(m, k + 1) == spec_falling(m, k) * (m - k),
    decreases k,
{
    if k > 0 {
        lemma_falling_shift(m - 1, k - 1);
        let x = spec_falling(m - 1, k - 1);
        assert(spec_falling(m - 1, k) == x * (m - k));
        assert(spec_falling(m, k + 1) == m * (x * (m - k)));
        assert(m * (x * (m - k)) == (m * x) * (m - k)) by (nonlinear_arith);
        assert(spec_falling(m, k) == m * x);
    } else {
        assert(spec_falling(m, k + 1) == m * spec_falling(m - 1, k));
        assert(spec_falling(m - 1, 0) == 1);
        assert(spec_falling(m, 0) == 1);
    }
}

/// Rewrite every permutation, mirroring `perm_reduce`.
pub fn reduce_perm(v: &Vec<char>) -> (r: Option<Vec<char>>)
    ensures
        opt_vec_view(r) == perm_reduce(v@, count_char(v@, 'A')),
{
    let mut cur = copy_range(v, 0, v.len());
    proof {
        assert(cur@ =~= v@);
    }
    loop
        invariant
            perm_reduce(v@, count_char(v@, 'A')) == perm_reduce(cur@, count_char(cur@, 'A')),
        decreases count_char(cur@, 'A'),
    {
        if find_char_from(&cur, 'A', 0).is_none() {
            return Some(cur);
        }
        proof {
            lemma_find_from(cur@, 'A', 0);
            let p = find_from(cur@, 'A', 0).unwrap();
            assert(cur@ =~= cur@.subrange(0, p) + cur@.subrange(p, p + 1) + cur@.subrange(
                p + 1,
                cur@.len() as int,
            ));
            lemma_count_char_concat(
                cur@.subrange(0, p) + cur@.subrange(p, p + 1),
                cur@.subrange(p + 1, cur@.len() as int),
                'A',
            );
            lemma_count_char_concat(cur@.subrange(0, p), cur@.subrange(p, p + 1), 'A');
            assert(cur@.subrange(p, p + 1) =~= seq![cur@[p]]);
            lemma_count_char_single(cur@[p], 'A');
            assert(count_char(cur@, 'A') >= 1);
        }
        match perm_step_exec(&cur) {
            None => {
                return None;
            },
            Some(t) => {
                proof {
                    lemma_perm_step_count(cur@, t@);
                }
                cur = t;
            },
        }
    }
}

/// A closing scan that starts at positive depth ends on a `]`.
pub proof fn lemma_find_close_is_bracket(s: Seq<char>, end: int, depth: int)
    requires
        0 <= end <= s.len(),
        depth >= 1,
    ensures
        match find_close(s, end, depth) {
            Some(e) => end <= e < s.len() && s[e] == ']',
            None => true,
        },
    decreases s.len() - end,
{
    if end < s.len() {
        let d2 = if s[end] == '[' {
            depth + 1
        } else if s[end] == ']' {
            depth - 1
        } else {
            depth
        };
        if d2 != 0 {
            lemma_find_close_is_bracket(s, end + 1, d2);
        }
    }
}

/// One floor rewrite neither adds nor removes any symbol other than
/// digits, the two square brackets and the inner `/`.
pub proof fn lemma_floor_step_preserves(s: Seq<char>, t: Seq<char>, c: char)
    requires
        floor_step(s) == Some(t),
        !spec_is_digit(c),
        c != '[',
        c != ']',
        c != '/',
    ensures
        count_char(t, c) == count_char(s, c),
{
    lemma_find_from(s, '[', 0);
    let p = find_from(s, '[', 0).unwrap();
    lemma_find_close_is_bracket(s, p + 1, 1);
    let e = find_close(s, p + 1, 1).unwrap();
    let inner = s.subrange(p + 1, e);
    let pre = s.subrange(0, p);
    let post = s.subrange(e + 1, s.len() as int);
    assert(s =~= pre + s.subrange(p, p + 1) + inner + s.subrange(e, e + 1) + post);
    lemma_count_char_concat(pre + s.subrange(p, p + 1) + inner + s.subrange(e, e + 1), post, c);
    lemma_count_char_concat(pre + s.subrange(p, p + 1) + inner, s.subrange(e, e + 1), c);
    lemma_count_char_concat(pre + s.subrange(p, p + 1), inner, c);
    lemma_count_char_concat(pre, s.subrange(p, p + 1), c);
    assert(s.subrange(p, p + 1) =~= seq![s[p]]);
    assert(s.subrange(e, e + 1) =~= seq![s[e]]);
    lemma_count_char_single(s[p], c);
    lemma_count_char_single(s[e], c);
    if all_digits(inner) {
        lemma_count_char_all_digits(inner, c);
        let n = parse_i32_digits(inner).unwrap();
        lemma_digits_val_nonneg(inner);
        lemma_digits_of_all_digits(n as int);
        lemma_count_char_all_digits(spec_digits_of(n as int), c);
        lemma_count_char_concat(pre + spec_digits_of(n as int), post, c);
        lemma_count_char_concat(pre, spec_digits_of(n as int), c);
    } else {
        lemma_find_from(inner, '/', 0);
        let k = find_from(inner, '/', 0).unwrap();
        let a = inner.subrange(0, k);
        let b = inner.subrange(k + 1, inner.len() as int);
        assert(inner =~= a + inner.subrange(k, k + 1) + b);
        lemma_count_char_concat(a + inner.subrange(k, k + 1), b, c);
        lemma_count_char_concat(a, inner.subrange(k, k + 1), c);
        assert(inner.subrange(k, k + 1) =~= seq![inner[k]]);
        lemma_count_char_single(inner[k], c);
        lemma_count_char_all_digits(a, c);
        lemma_count_char_all_digits(b, c);
        let num = parse_i32_digits(a).unwrap();
        let den = parse_i32_digits(b).unwrap();
        lemma_digits_val_nonneg(a);
        lemma_digits_val_nonneg(b);
        let q = num as int / den as int;
        assert(q >= 0) by {
            vstd::arithmetic::div_mod::lemma_div_pos_is_pos(num as int, den as int);
        }
        lemma_digits_of_all_digits(q);
        lemma_count_char_all_digits(spec_digits_of(q), c);
        lemma_count_char_concat(pre + spec_digits_of(q), post, c);
        lemma_count_char_concat(pre, spec_digits_of(q), c);
    }
}

/// Floor rewriting preserves the count of every symbol that the rewrite
/// never consumes or produces.
pub proof fn lemma_floor_reduce_preserves(s: Seq<char>, fuel: nat, t: Seq<char>, c: char)
    requires
        floor_reduce(s, fuel) == Some(t),
        !spec_is_digit(c),
        c != '[',
        c != ']',
        c != '/',
    ensures
        count_char(t, c) == count_char(s, c),
    decreases fuel,
{
    if find_from(s, '[', 0) is Some {
        let u = floor_step(s).unwrap();
        lemma_floor_step_preserves(s, u, c);
        lemma_floor_reduce_preserves(u, (fuel - 1) as nat, t, c);
    }
}

/// One factorial rewrite only consumes a digit run and its `!`.
pub proof fn lemma_fact_step_preserves(s: Seq<char>, t: Seq<char>, c: char)
    requires
        fact_step(s) == Some(t),
        !spec_is_digit(c),
        c != '!',
    ensures
        count_char(t, c) == count_char(s, c),
{
    lemma_find_from(s, '!', 0);
    let p = find_from(s, '!', 0).unwrap();
    let st = run_start(s, p - 1);
    lemma_run_start(s, p - 1);
    let run = s.subrange(st, p);
    let n = parse_i32_digits(run).unwrap();
    let pre = s.subrange(0, st);
    let post = s.subrange(p + 1, s.len() as int);
    assert(s =~= pre + run + s.subrange(p, p + 1) + post);
    lemma_count_char_concat(pre + run + s.subrange(p, p + 1), post, c);
    lemma_count_char_concat(pre + run, s.subrange(p, p + 1), c);
    lemma_count_char_concat(pre, run, c);
    assert(s.subrange(p, p + 1) =~= seq![s[p]]);
    lemma_count_char_single(s[p], c);
    lemma_count_char_all_digits(run, c);
    lemma_digits_val_nonneg(run);
    lemma_fact_bound(n as int);
    lemma_digits_of_all_digits(spec_fact(n as int));
    lemma_count_char_all_digits(spec_digits_of(spec_fact(n as int)), c);
    lemma_count_char_concat(pre + spec_digits_of(spec_fact(n as int)), post, c);
    lemma_count_char_concat(pre, spec_digits_of(spec_fact(n as int)), c);
}

/// Factorial rewriting preserves every unrelated symbol count.
pub proof fn lemma_fact_reduce_preserves(s: Seq<char>, fuel: nat, t: Seq<char>, c: char)
    requires
        fact_reduce(s, fuel) == Some(t),
        !spec_is_digit(c),
        c != '!',
    ensures
        count_char(t, c) == count_char(s, c),
    decreases fuel,
{
    if find_from(s, '!', 0) is Some {
        let u = fact_step(s).unwrap();
        lemma_fact_step_preserves(s, u, c);
        lemma_fact_reduce_preserves(u, (fuel - 1) as nat, t, c);
    }
}

/// One permutation rewrite only consumes two digit runs and their `A`.
pub proof fn lemma_perm_step_preserves(s: Seq<char>, t: Seq<char>, c: char)
    requires
        perm_step(s) == Some(t),
        !spec_is_digit(c),
        c != 'A',
    ensures
        count_char(t, c) == count_char(s, c),
{
    lemma_find_from(s, 'A', 0);
    let p = find_from(s, 'A', 0).unwrap();
    let st = run_start(s, p - 1);
    let en = run_end(s, p + 1);
    lemma_run_start(s, p - 1);
    lemma_run_end(s, p + 1);
    let m = parse_i32_digits(s.subrange(st, p)).unwrap();
    let n = parse_i32_digits(s.subrange(p + 1, en)).unwrap();
    lemma_digits_val_nonneg(s.subrange(st, p));
    lemma_digits_val_nonneg(s.subrange(p + 1, en));
    lemma_falling_bound(m as int, n as int);
    let mid = spec_digits_of(spec_falling(m as int, n as int));
    let pre = s.subrange(0, st);
    let post = s.subrange(en, s.len() as int);
    assert(s =~= pre + s.subrange(st, p) + s.subrange(p, p + 1) + s.subrange(p + 1, en) + post);
    lemma_count_char_concat(
        pre + s.subrange(st, p) + s.subrange(p, p + 1) + s.subrange(p + 1, en),
        post,
        c,
    );
    lemma_count_char_concat(pre + s.subrange(st, p) + s.subrange(p, p + 1), s.subrange(p + 1, en), c);
    lemma_count_char_concat(pre + s.subrange(st, p), s.subrange(p, p + 1), c);
    lemma_count_char_concat(pre, s.subrange(st, p), c);
    assert(s.subrange(p, p + 1) =~= seq![s[p]]);
    lemma_count_char_single(s[p], c);
    lemma_count_char_all_digits(s.subrange(st, p), c);
    lemma_count_char_all_digits(s.subrange(p + 1, en), c);
    lemma_digits_of_all_digits(spec_falling(m as int, n as int));
    lemma_count_char_all_digits(mid, c);
    lemma_count_char_concat(pre + mid, post, c);
    lemma_count_char_concat(pre, mid, c);
}

/// Permutation rewriting preserves every unrelated symbol count.
pub proof fn lemma_perm_reduce_preserves(s: Seq<char>, fuel: nat, t: Seq<char>, c: char)
    requires
        perm_reduce(s, fuel) == Some(t),
        !spec_is_digit(c),
        c != 'A',
    ensures
        count_char(t, c) == count_char(s, c),
    decreases fuel,
{
    if find_from(s, 'A', 0) is Some {
        let u = perm_step(s).unwrap();
        lemma_perm_step_preserves(s, u, c);
        lemma_perm_reduce_preserves(u, (fuel - 1) as nat, t, c);
    }
}

} // verus!

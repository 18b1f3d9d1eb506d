//! The backtracking search: a per-position legality predicate, a
//! position-specific candidate ordering, and the depth-first construction
//! of every string that the knowledge, the grammar and the evaluator accept.

use vstd::prelude::*;
use crate::chars::{spec_is_digit, is_digit, spec_is_binary_operator, is_binary_operator,
    spec_is_unary_post_operator, is_unary_post_operator, spec_is_operator, is_operator,
    spec_is_open_bracket, is_open_bracket, spec_is_close_bracket, is_close_bracket,
    spec_is_main_operator, is_main_operator, spec_matching_bracket, get_matching_bracket,
    spec_alpha_index, alpha_index, spec_alpha_char, spec_in_alphabet, count_char, ALPHABET_LEN};
use crate::numbers::parse_i32_digits;
use crate::reduce::{run_start, run_start_exec, lemma_run_start};
use crate::eval::{evaluate_seq, evaluate_chars, brackets_stack, brackets_ok, valid_equation,
    is_valid_equation_chars, check_brackets, scan_main, lz_at};
use crate::knowledge::{GlobalKnowledge, GkModel, gk_wf, gk_cannot, gk_forbidden};

verus! {

/// Whether the cursor stands inside an unterminated floor bracket, and
/// whether that span has already consumed its one `/`.
#[derive(Clone, Copy, PartialEq, Eq, Structural, Debug)]
pub struct FloorContext {
    pub in_floor: bool,
    pub has_slash_in_current_floor: bool,
}

/// The floor context after placing `c`.
pub open spec fn spec_next_floor(c: char, fc: FloorContext) -> FloorContext {
    if c == '[' {
        FloorContext { in_floor: true, has_slash_in_current_floor: false }
    } else if c == ']' && fc.in_floor {
        FloorContext { in_floor: false, has_slash_in_current_floor: false }
    } else if c == '/' && fc.in_floor {
        FloorContext { in_floor: true, has_slash_in_current_floor: true }
    } else {
        fc
    }
}

#[verifier::when_used_as_spec(spec_next_floor)]
pub fn next_floor(c: char, fc: FloorContext) -> (r: FloorContext)
    ensures
        r == spec_next_floor(c, fc),
{
    if c == '[' {
        FloorContext { in_floor: true, has_slash_in_current_floor: false }
    } else if c == ']' && fc.in_floor {
        FloorContext { in_floor: false, has_slash_in_current_floor: false }
    } else if c == '/' && fc.in_floor {
        FloorContext { in_floor: true, has_slash_in_current_floor: true }
    } else {
        fc
    }
}

/// The tentative main operator after placing `c`.
pub open spec fn spec_next_main(c: char, main: Option<char>) -> Option<char> {
    if spec_is_main_operator(c) {
        Some(c)
    } else {
        main
    }
}

/// Rejections that apply inside a floor span.
pub open spec fn floor_reject(c: char, index: int, s: Seq<char>, fc: FloorContext) -> bool {
    if c == '[' {
        true
    } else if spec_is_operator(c) && c != '/' {
        true
    } else if spec_is_main_operator(c) {
        true
    } else if c == '(' {
        true
    } else if c == '/' {
        fc.has_slash_in_current_floor || index == 0 || !spec_is_digit(s[index - 1])
    } else if c == ']' {
        index == 0 || !spec_is_digit(s[index - 1]) || !fc.has_slash_in_current_floor
    } else {
        !spec_is_digit(c)
    }
}

/// Rejections of a digit: a numeral may not grow a leading zero, and a
/// freshly started numeral left of `=` may not exceed the operand cap.
pub open spec fn digit_reject(
    c: char,
    index: int,
    s: Seq<char>,
    main: Option<char>,
    maxop: i32,
) -> bool {
    let rs = run_start(s, index);
    if rs < index && s[rs] == '0' {
        true
    } else if main != Some('=') {
        let starts_fresh = rs == 0 || spec_is_operator(s[rs - 1]) || spec_is_open_bracket(
            s[rs - 1],
        ) || spec_is_main_operator(s[rs - 1]);
        if starts_fresh {
            match parse_i32_digits(s.subrange(rs, index).push(c)) {
                Some(nm) => nm > maxop,
                None => false,
            }
        } else {
            false
        }
    } else {
        false
    }
}

/// Rejections keyed on the syntax class of the previous symbol.
pub open spec fn adjacency_reject(c: char, prev: char, fc: FloorContext) -> bool {
    if spec_is_digit(prev) {
        (spec_is_open_bracket(c) && c != '[') || (c == '[' && fc.in_floor)
    } else if spec_is_operator(prev) {
        (spec_is_binary_operator(c) && !(prev == 'A' && (spec_is_open_bracket(c)
            || spec_is_digit(c))) && !spec_is_unary_post_operator(prev))
            || spec_is_close_bracket(c)
            || (spec_is_main_operator(c) && !spec_is_unary_post_operator(prev))
            || (spec_is_unary_post_operator(prev) && (spec_is_digit(c) || spec_is_open_bracket(c)))
    } else if spec_is_open_bracket(prev) {
        (prev == '[' && c == '(') || spec_is_binary_operator(c) || (spec_is_close_bracket(c)
            && spec_matching_bracket(prev) != Some(c)) || spec_is_main_operator(c)
            || spec_is_unary_post_operator(c)
    } else if spec_is_close_bracket(prev) {
        spec_is_digit(c) || spec_is_open_bracket(c)
    } else if spec_is_main_operator(prev) {
        if prev == '=' {
            !spec_is_digit(c) && c != '-'
        } else {
            spec_is_main_operator(c) || spec_is_close_bracket(c)
        }
    } else {
        false
    }
}

/// Once `=` is the main operator the right side admits only digits and
/// one `-` directly after the `=`, never in last position.
pub open spec fn rhs_reject(c: char, index: int, s: Seq<char>, length: int) -> bool {
    (!spec_is_digit(c) && c != '-') || (c == '-' && (index == 0 || s[index - 1] != '='
        || index >= length - 1))
}

/// Placement rules for a comparison operator.
pub open spec fn mainop_reject(c: char, index: int, main: Option<char>, length: int) -> bool {
    (match main {
        Some(m) => (m != c && !(m == '>' && c == '=')) || (m == c && c == '='),
        None => false,
    }) || index == 0 || index >= length - 1
}

/// Placement rules for `!`: it follows a digit or a round closer, and
/// `0!` is probed through the evaluator.
pub open spec fn bang_reject(index: int, s: Seq<char>) -> bool {
    if index == 0 {
        true
    } else {
        let p = s[index - 1];
        if spec_is_digit(p) {
            p == '0' && evaluate_seq(seq!['0', '!']) is None
        } else if spec_is_close_bracket(p) {
            p == ']'
        } else {
            true
        }
    }
}

/// The per-position legality predicate: whether symbol `c` may stand at
/// `index` after the prefix `s`, under knowledge `g`, the floor context,
/// the tentative main operator, and the operand cap.
pub open spec fn can_place_spec(
    c: char,
    index: int,
    s: Seq<char>,
    main: Option<char>,
    fc: FloorContext,
    g: GkModel,
    maxop: i32,
    length: int,
) -> bool {
    match spec_alpha_index(c) {
        None => false,
        Some(a) => {
            if g.forbidden[a as int] {
                false
            } else if match g.fixed[index] {
                Some(f) => f != c,
                None => false,
            } {
                false
            } else if g.cannot[index * ALPHABET_LEN + a as int] {
                false
            } else if match g.exact[a as int] {
                Some(k) => count_char(s, c) as int >= k,
                None => false,
            } {
                false
            } else if fc.in_floor && floor_reject(c, index, s, fc) {
                false
            } else if c == ']' && !fc.in_floor {
                false
            } else if c == '[' && (fc.in_floor || length - index <= 3) {
                false
            } else if spec_is_digit(c) && digit_reject(c, index, s, main, maxop) {
                false
            } else if index == 0 && (spec_is_binary_operator(c) || spec_is_close_bracket(c)
                || spec_is_main_operator(c) || spec_is_unary_post_operator(c)) {
                false
            } else if index > 0 && adjacency_reject(c, s[index - 1], fc) {
                false
            } else if main == Some('=') && rhs_reject(c, index, s, length) {
                false
            } else if index == length - 1 && (spec_is_binary_operator(c) || spec_is_open_bracket(c)
                || spec_is_main_operator(c)) {
                false
            } else {
                match brackets_stack(s.push(c), 0, Seq::empty()) {
                    None => false,
                    Some(st) => if index == length - 1 && st.len() != 0 {
                        false
                    } else if spec_is_main_operator(c) && mainop_reject(c, index, main, length) {
                        false
                    } else if c == 'A' && (index == 0 || (!spec_is_digit(s[index - 1])
                        && !spec_is_close_bracket(s[index - 1]))) {
                        false
                    } else if index > 0 && s[index - 1] == 'A' && (!spec_is_digit(c)
                        && !spec_is_open_bracket(c)) {
                        false
                    } else if c == '!' && bang_reject(index, s) {
                        false
                    } else {
                        true
                    },
                }
            }
        },
    }
}

/// Per-symbol running counts agree with the prefix.
pub open spec fn counts_ok(counts: Seq<usize>, s: Seq<char>) -> bool {
    &&& counts.len() == ALPHABET_LEN
    &&& forall|a: int|
        0 <= a < ALPHABET_LEN ==> #[trigger] counts[a] as int == count_char(
            s,
            spec_alpha_char(a),
        ) as int
}

pub proof fn lemma_count_le_len(s: Seq<char>, c: char)
    ensures
        count_char(s, c) <= s.len(),
    decreases s.len(),
{
    if s.len() > 0 {
        lemma_count_le_len(s.drop_last(), c);
    }
}

pub proof fn lemma_count_push(s: Seq<char>, c: char, ch: char)
    ensures
        count_char(s.push(c), ch) == count_char(s, ch) + if c == ch {
            1nat
        } else {
            0nat
        },
{
    assert(s.push(c).drop_last() =~= s);
}

/// For an alphabet symbol, indexing inverts `spec_alpha_char`.
pub proof fn lemma_alpha_char_of_index(c: char)
    requires
        spec_in_alphabet(c),
    ensures
        spec_alpha_char(spec_alpha_index(c).unwrap() as int) == c,
{
}

/// Decide the legality predicate, mirroring `can_place_spec`.  The prefix
/// is `candidate[0..index]`; `counts` carries its per-symbol counts.
pub fn can_place_char(
    c: char,
    index: usize,
    candidate: &Vec<char>,
    main_op_so_far: Option<char>,
    counts: &Vec<usize>,
    fc: FloorContext,
    gk: &GlobalKnowledge,
    maxop: i32,
    length: usize,
) -> (r: bool)
    requires
        candidate@.len() == length,
        index < length,
        length * ALPHABET_LEN <= usize::MAX,
        gk_wf(gk@, length as int),
        counts_ok(counts@, candidate@.take(index as int)),
    ensures
        r == can_place_spec(
            c,
            index as int,
            candidate@.take(index as int),
            main_op_so_far,
            fc,
            gk@,
            maxop,
            length as int,
        ),
{
    let ghost s = candidate@.take(index as int);
    let a = match alpha_index(c) {
        Some(a) => a,
        None => {
            return false;
        },
    };
    proof {
        crate::chars::lemma_alpha_index_of_alphabet();
        lemma_alpha_char_of_index(c);
        assert(a < ALPHABET_LEN);
    }
    if gk.globally_forbidden[a] {
        return false;
    }
    match gk.fixed_chars[index] {
        Some(f) => {
            if f != c {
                return false;
            }
        },
        None => {},
    }
    if gk.cannot_be_at[index * 24 + a] {
        return false;
    }
    match gk.must_appear_exact_count[a] {
        Some(k) => {
            proof {
                assert(counts@[a as int] as int == count_char(s, spec_alpha_char(a as int)) as int);
            }
            if counts[a] >= k {
                return false;
            }
        },
        None => {},
    }
    let prev: Option<char> = if index > 0 {
        Some(candidate[index - 1])
    } else {
        None
    };
    proof {
        if index > 0 {
            assert(s[index - 1] == candidate@[index - 1]);
        }
    }
    if fc.in_floor {
        if c == '[' {
            return false;
        }
        if is_operator(c) && c != '/' {
            return false;
        }
        if is_main_operator(c) {
            return false;
        }
        if c == '(' {
            return false;
        }
        if c == '/' {
            if fc.has_slash_in_current_floor {
                return false;
            }
            match prev {
                None => {
                    return false;
                },
                Some(p) => {
                    if !is_digit(p) {
                        return false;
                    }
                },
            }
        } else if c == ']' {
            match prev {
                None => {
                    return false;
                },
                Some(p) => {
                    if !is_digit(p) {
                        return false;
                    }
                },
            }
            if !fc.has_slash_in_current_floor {
                return false;
            }
        } else if !is_digit(c) {
            return false;
        }
    }
    if c == ']' && !fc.in_floor {
        return false;
    }
    if c == '[' && (fc.in_floor || length - index <= 3) {
        return false;
    }
    if is_digit(c) && main_op_so_far != Some('=') {
        let rs = run_start_exec(candidate, index);
        proof {
            lemma_run_start(candidate@, index as int);
            lemma_run_start_prefix(candidate@, index as int);
            assert(run_start(s, index as int) == rs as int);
        }
        if rs < index && candidate[rs] == '0' {
            proof {
                assert(s[rs as int] == candidate@[rs as int]);
            }
            return false;
        }
        let starts_fresh = if rs == 0 {
            true
        } else {
            let b = candidate[rs - 1];
            proof {
                assert(s[rs - 1] == candidate@[rs - 1]);
            }
            is_operator(b) || is_open_bracket(b) || is_main_operator(b)
        };
        if starts_fresh {
            let mut run: Vec<char> = Vec::new();
            let mut k = rs;
            while k < index
                invariant
                    rs <= k <= index <= candidate@.len(),
                    run@ == candidate@.subrange(rs as int, k as int),
                decreases index - k,
            {
                run.push(candidate[k]);
                assert(run@ =~= candidate@.subrange(rs as int, k + 1));
                k += 1;
            }
            run.push(c);
            proof {
                assert(run@ =~= s.subrange(rs as int, index as int).push(c));
            }
            match crate::numbers::parse_digits(&run, 0, run.len()) {
                Some(nm) => {
                    proof {
                        assert(run@.subrange(0, run@.len() as int) =~= run@);
                    }
                    if nm > maxop {
                        return false;
                    }
                },
                None => {
                    proof {
                        assert(run@.subrange(0, run@.len() as int) =~= run@);
                    }
                },
            }
        }
    } else if is_digit(c) {
        let rs = run_start_exec(candidate, index);
        proof {
            lemma_run_start(candidate@, index as int);
            lemma_run_start_prefix(candidate@, index as int);
            assert(run_start(s, index as int) == rs as int);
        }
        if rs < index && candidate[rs] == '0' {
            proof {
                assert(s[rs as int] == candidate@[rs as int]);
            }
            return false;
        }
    }
    if index == 0 && (is_binary_operator(c) || is_close_bracket(c) || is_main_operator(c)
        || is_unary_post_operator(c)) {
        return false;
    }
    match prev {
        Some(p) => {
            if is_digit(p) {
                if is_open_bracket(c) && c != '[' {
                    return false;
                }
                if c == '[' && fc.in_floor {
                    return false;
                }
            } else if is_operator(p) {
                if is_binary_operator(c) && !(p == 'A' && (is_open_bracket(c) || is_digit(c)))
                    && !is_unary_post_operator(p) {
                    return false;
                }
                if is_close_bracket(c) {
                    return false;
                }
                if is_main_operator(c) && !is_unary_post_operator(p) {
                    return false;
                }
                if is_unary_post_operator(p) && (is_digit(c) || is_open_bracket(c)) {
                    return false;
                }
            } else if is_open_bracket(p) {
                if p == '[' && c == '(' {
                    return false;
                }
                if is_binary_operator(c) {
                    return false;
                }
                if is_close_bracket(c) && get_matching_bracket(p) != Some(c) {
                    return false;
                }
                if is_main_operator(c) {
                    return false;
                }
                if is_unary_post_operator(c) {
                    return false;
                }
            } else if is_close_bracket(p) {
                if is_digit(c) {
                    return false;
                }
                if is_open_bracket(c) {
                    return false;
                }
            } else if is_main_operator(p) {
                if p == '=' {
                    if !is_digit(c) && c != '-' {
                        return false;
                    }
                } else {
                    if is_main_operator(c) {
                        return false;
                    }
                    if is_close_bracket(c) {
                        return false;
                    }
                }
            }
        },
        None => {},
    }
    if main_op_so_far == Some('=') {
        if !is_digit(c) && c != '-' {
            return false;
        }
        if c == '-' {
            let bad = match prev {
                None => true,
                Some(p) => p != '=',
            };
            if bad || index >= length - 1 {
                return false;
            }
        }
    }
    if index == length - 1 && (is_binary_operator(c) || is_open_bracket(c) || is_main_operator(c)) {
        return false;
    }
    let mut pushed: Vec<char> = Vec::new();
    let mut k: usize = 0;
    while k < index
        invariant
            0 <= k <= index <= candidate@.len(),
            pushed@ == candidate@.subrange(0, k as int),
        decreases index - k,
    {
        pushed.push(candidate[k]);
        assert(pushed@ =~= candidate@.subrange(0, k + 1));
        k += 1;
    }
    pushed.push(c);
    proof {
        assert(pushed@ =~= s.push(c));
    }
    let st = match brackets_stack_exec(&pushed) {
        None => {
            return false;
        },
        Some(st) => st,
    };
    if index == length - 1 && st.len() != 0 {
        return false;
    }
    if is_main_operator(c) {
        match main_op_so_far {
            Some(m) => {
                if m != c && !(m == '>' && c == '=') {
                    return false;
                }
                if m == c && c == '=' {
                    return false;
                }
            },
            None => {},
        }
        if index == 0 || index >= length - 1 {
            return false;
        }
    }
    if c == 'A' {
        match prev {
            None => {
                return false;
            },
            Some(p) => {
                if !is_digit(p) && !is_close_bracket(p) {
                    return false;
                }
            },
        }
    }
    if prev == Some('A') {
        if !is_digit(c) && !is_open_bracket(c) {
            return false;
        }
    }
    if c == '!' {
        match prev {
            None => {
                return false;
            },
            Some(p) => {
                if is_digit(p) {
                    if p == '0' {
                        let probe = vec!['0', '!'];
                        proof {
                            assert(probe@ =~= seq!['0', '!']);
                        }
                        if evaluate_chars(&probe).is_none() {
                            return false;
                        }
                    }
                } else if is_close_bracket(p) {
                    if p == ']' {
                        return false;
                    }
                } else {
                    return false;
                }
            },
        }
    }
    true
}

/// `run_start` looks only at positions below `j`, so the prefix and the
/// full sequence agree on it.
pub proof fn lemma_run_start_prefix(v: Seq<char>, j: int)
    requires
        0 <= j <= v.len(),
    ensures
        run_start(v.take(j), j) == run_start(v, j),
    decreases j,
{
    if j > 0 && spec_is_digit(v[j - 1]) {
        lemma_run_start_prefix_inner(v, j, j);
    }
}

proof fn lemma_run_start_prefix_inner(v: Seq<char>, j: int, t: int)
    requires
        0 <= t <= j <= v.len(),
    ensures
        run_start(v.take(j), t) == run_start(v, t),
    decreases t,
{
    if t > 0 && spec_is_digit(v[t - 1]) {
        lemma_run_start_prefix_inner(v, j, t - 1);
    }
}

/// The stack left by matching the brackets of `v`, `None` on a mismatch.
pub fn brackets_stack_exec(v: &Vec<char>) -> (r: Option<Vec<char>>)
    ensures
        match r {
            Some(st) => brackets_stack(v@, 0, Seq::empty()) == Some(st@),
            None => brackets_stack(v@, 0, Seq::empty()) is None,
        },
{
    let mut stack: Vec<char> = Vec::new();
    let mut i: usize = 0;
    while i < v.len()
        invariant
            0 <= i <= v@.len(),
            brackets_stack(v@, 0, Seq::empty()) == brackets_stack(v@, i as int, stack@),
        decreases v@.len() - i,
    {
        let c = v[i];
        if c == '(' {
            stack.push(')');
        } else if c == '[' {
            stack.push(']');
        } else if c == ')' || c == ']' {
            match stack.pop() {
                Some(t) => {
                    if t != c {
                        return None;
                    }
                },
                None => {
                    return None;
                },
            }
        }
        i += 1;
    }
    Some(stack)
}

/// Some position of `s` holds `c`.
pub open spec fn seq_has(s: Seq<char>, c: char) -> bool {
    exists|i: int| 0 <= i < s.len() && #[trigger] s[i] == c
}

fn vec_contains(v: &Vec<char>, c: char) -> (r: bool)
    ensures
        r == seq_has(v@, c),
{
    let mut i: usize = 0;
    while i < v.len()
        invariant
            0 <= i <= v@.len(),
            forall|j: int| 0 <= j < i ==> #[trigger] v@[j] != c,
        decreases v@.len() - i,
    {
        if v[i] == c {
            return true;
        }
        i += 1;
    }
    false
}

pub open spec fn ord_floor_slash() -> Seq<char> {
    seq!['0', '1', '2', '3', '4', '5', '6', '7', '8', '9', ']']
}

fn ord_floor_slash_exec() -> (v: Vec<char>)
    ensures
        v@ == ord_floor_slash(),
{
    let mut v: Vec<char> = Vec::new();
    v.push('0');
    v.push('1');
    v.push('2');
    v.push('3');
    v.push('4');
    v.push('5');
    v.push('6');
    v.push('7');
    v.push('8');
    v.push('9');
    v.push(']');
    proof {
        assert(v@ =~= ord_floor_slash());
    }
    v
}

pub open spec fn ord_floor_noslash() -> Seq<char> {
    seq!['0', '1', '2', '3', '4', '5', '6', '7', '8', '9', '/']
}

fn ord_floor_noslash_exec() -> (v: Vec<char>)
    ensures
        v@ == ord_floor_noslash(),
{
    let mut v: Vec<char> = Vec::new();
    v.push('0');
    v.push('1');
    v.push('2');
    v.push('3');
    v.push('4');
    v.push('5');
    v.push('6');
    v.push('7');
    v.push('8');
    v.push('9');
    v.push('/');
    proof {
        assert(v@ =~= ord_floor_noslash());
    }
    v
}

pub open spec fn ord_rhs_start() -> Seq<char> {
    seq!['-', '0', '1', '2', '3', '4', '5', '6', '7', '8', '9']
}

fn ord_rhs_start_exec() -> (v: Vec<char>)
    ensures
        v@ == ord_rhs_start(),
{
    let mut v: Vec<char> = Vec::new();
    v.push('-');
    v.push('0');
    v.push('1');
    v.push('2');
    v.push('3');
    v.push('4');
    v.push('5');
    v.push('6');
    v.push('7');
    v.push('8');
    v.push('9');
    proof {
        assert(v@ =~= ord_rhs_start());
    }
    v
}

pub open spec fn ord_rhs() -> Seq<char> {
    seq!['0', '1', '2', '3', '4', '5', '6', '7', '8', '9']
}

fn ord_rhs_exec() -> (v: Vec<char>)
    ensures
        v@ == ord_rhs(),
{
    let mut v: Vec<char> = Vec::new();
    v.push('0');
    v.push('1');
    v.push('2');
    v.push('3');
    v.push('4');
    v.push('5');
    v.push('6');
    v.push('7');
    v.push('8');
    v.push('9');
    proof {
        assert(v@ =~= ord_rhs());
    }
    v
}

pub open spec fn ord_first() -> Seq<char> {
    seq!['1', '2', '3', '4', '5', '6', '7', '8', '9', '(', '[']
}

fn ord_first_exec() -> (v: Vec<char>)
    ensures
        v@ == ord_first(),
{
    let mut v: Vec<char> = Vec::new();
    v.push('1');
    v.push('2');
    v.push('3');
    v.push('4');
    v.push('5');
    v.push('6');
    v.push('7');
    v.push('8');
    v.push('9');
    v.push('(');
    v.push('[');
    proof {
        assert(v@ =~= ord_first());
    }
    v
}

pub open spec fn ord_after_digit() -> Seq<char> {
    seq!['0', '1', '2', '3', '4', '5', '6', '7', '8', '9', '+', '-', '*', '/', '%', '^', 'A', '!', ')', ']', '=', '>', '[']
}

fn ord_after_digit_exec() -> (v: Vec<char>)
    ensures
        v@ == ord_after_digit(),
{
    let mut v: Vec<char> = Vec::new();
    v.push('0');
    v.push('1');
    v.push('2');
    v.push('3');
    v.push('4');
    v.push('5');
    v.push('6');
    v.push('7');
    v.push('8');
    v.push('9');
    v.push('+');
    v.push('-');
    v.push('*');
    v.push('/');
    v.push('%');
    v.push('^');
    v.push('A');
    v.push('!');
    v.push(')');
    v.push(']');
    v.push('=');
    v.push('>');
    v.push('[');
    proof {
        assert(v@ =~= ord_after_digit());
    }
    v
}

pub open spec fn ord_after_operator() -> Seq<char> {
    seq!['1', '2', '3', '4', '5', '6', '7', '8', '9', '0', '(', '[']
}

fn ord_after_operator_exec() -> (v: Vec<char>)
    ensures
        v@ == ord_after_operator(),
{
    let mut v: Vec<char> = Vec::new();
    v.push('1');
    v.push('2');
    v.push('3');
    v.push('4');
    v.push('5');
    v.push('6');
    v.push('7');
    v.push('8');
    v.push('9');
    v.push('0');
    v.push('(');
    v.push('[');
    proof {
        assert(v@ =~= ord_after_operator());
    }
    v
}

pub open spec fn ord_after_closer() -> Seq<char> {
    seq!['+', '-', '*', '/', '%', '^', 'A', '!', ')', ']', '=', '>', '[']
}

fn ord_after_closer_exec() -> (v: Vec<char>)
    ensures
        v@ == ord_after_closer(),
{
    let mut v: Vec<char> = Vec::new();
    v.push('+');
    v.push('-');
    v.push('*');
    v.push('/');
    v.push('%');
    v.push('^');
    v.push('A');
    v.push('!');
    v.push(')');
    v.push(']');
    v.push('=');
    v.push('>');
    v.push('[');
    proof {
        assert(v@ =~= ord_after_closer());
    }
    v
}

pub open spec fn ord_default() -> Seq<char> {
    seq!['1', '2', '3', '4', '5', '6', '7', '8', '9', '0', '+', '-', '*', '/', '=', '(', ')', '[', ']', '%', '^', '!', 'A', '>']
}

fn ord_default_exec() -> (v: Vec<char>)
    ensures
        v@ == ord_default(),
{
    let mut v: Vec<char> = Vec::new();
    v.push('1');
    v.push('2');
    v.push('3');
    v.push('4');
    v.push('5');
    v.push('6');
    v.push('7');
    v.push('8');
    v.push('9');
    v.push('0');
    v.push('+');
    v.push('-');
    v.push('*');
    v.push('/');
    v.push('=');
    v.push('(');
    v.push(')');
    v.push('[');
    v.push(']');
    v.push('%');
    v.push('^');
    v.push('!');
    v.push('A');
    v.push('>');
    proof {
        assert(v@ =~= ord_default());
    }
    v
}

pub open spec fn ord_end() -> Seq<char> {
    seq!['0', '1', '2', '3', '4', '5', '6', '7', '8', '9', ')', ']', '!']
}

fn ord_end_exec() -> (v: Vec<char>)
    ensures
        v@ == ord_end(),
{
    let mut v: Vec<char> = Vec::new();
    v.push('0');
    v.push('1');
    v.push('2');
    v.push('3');
    v.push('4');
    v.push('5');
    v.push('6');
    v.push('7');
    v.push('8');
    v.push('9');
    v.push(')');
    v.push(']');
    v.push('!');
    proof {
        assert(v@ =~= ord_end());
    }
    v
}


/// The first `k` characters of `s` that may stand in the last position.
pub open spec fn retain_end(s: Seq<char>, k: int) -> Seq<char>
    decreases k,
    when 0 <= k <= s.len()
{
    if k <= 0 {
        Seq::empty()
    } else {
        retain_end(s, k - 1) + if seq_has(ord_end(), s[k - 1]) {
            seq![s[k - 1]]
        } else {
            Seq::empty()
        }
    }
}

/// The first `k` characters of `s`, kept once each and only where neither
/// globally forbidden nor excluded at `index`.
pub open spec fn uniq_filter(s: Seq<char>, k: int, g: GkModel, index: int) -> Seq<char>
    decreases k,
    when 0 <= k <= s.len()
{
    if k <= 0 {
        Seq::empty()
    } else {
        let u = uniq_filter(s, k - 1, g, index);
        let c = s[k - 1];
        if !seq_has(u, c) && !gk_forbidden(g, c) && !gk_cannot(g, index, c) {
            u.push(c)
        } else {
            u
        }
    }
}

/// The ordered candidate list for one position: the pinned symbol alone,
/// or a class-keyed heuristic list, trimmed for the last position and
/// filtered by the knowledge.
pub open spec fn order_spec(
    index: int,
    s: Seq<char>,
    main: Option<char>,
    fc: FloorContext,
    g: GkModel,
    length: int,
) -> Seq<char> {
    match g.fixed[index] {
        Some(f) => seq![f],
        None => {
            let prev = if index > 0 {
                s[index - 1]
            } else {
                '\0'
            };
            let base = if fc.in_floor {
                if fc.has_slash_in_current_floor {
                    ord_floor_slash()
                } else {
                    ord_floor_noslash()
                }
            } else if main == Some('=') {
                if prev == '=' {
                    ord_rhs_start()
                } else {
                    ord_rhs()
                }
            } else if index == 0 {
                ord_first()
            } else if spec_is_digit(prev) {
                ord_after_digit()
            } else if spec_is_binary_operator(prev) || prev == 'A' || (spec_is_main_operator(prev)
                && prev != '=') {
                ord_after_operator()
            } else if spec_is_open_bracket(prev) {
                ord_after_operator()
            } else if spec_is_close_bracket(prev) || spec_is_unary_post_operator(prev) {
                ord_after_closer()
            } else {
                ord_default()
            };
            let base2 = if index == length - 1 && !fc.in_floor {
                let filt = retain_end(base, base.len() as int);
                if filt.len() == 0 && prev != '\0' {
                    ord_end()
                } else if filt.len() == 0 && index == 0 && length == 1 {
                    filt + ord_rhs()
                } else {
                    filt
                }
            } else {
                base
            };
            uniq_filter(base2, base2.len() as int, g, index)
        },
    }
}

fn retain_end_exec(v: &Vec<char>) -> (out: Vec<char>)
    ensures
        out@ == retain_end(v@, v@.len() as int),
{
    let endv = ord_end_exec();
    let mut out: Vec<char> = Vec::new();
    let mut k: usize = 0;
    while k < v.len()
        invariant
            0 <= k <= v@.len(),
            endv@ == ord_end(),
            out@ == retain_end(v@, k as int),
        decreases v@.len() - k,
    {
        let c = v[k];
        if vec_contains(&endv, c) {
            out.push(c);
        }
        k += 1;
    }
    out
}

/// Produce the candidate ordering, mirroring `order_spec`.
pub fn get_optimized_char_order(
    index: usize,
    candidate: &Vec<char>,
    main_op_so_far: Option<char>,
    fc: FloorContext,
    gk: &GlobalKnowledge,
    length: usize,
) -> (out: Vec<char>)
    requires
        candidate@.len() == length,
        index < length,
        length * ALPHABET_LEN <= usize::MAX,
        gk_wf(gk@, length as int),
    ensures
        out@ == order_spec(
            index as int,
            candidate@.take(index as int),
            main_op_so_far,
            fc,
            gk@,
            length as int,
        ),
{
    let ghost s = candidate@.take(index as int);
    match gk.fixed_chars[index] {
        Some(f) => {
            let mut v: Vec<char> = Vec::new();
            v.push(f);
            proof {
                assert(v@ =~= seq![f]);
            }
            return v;
        },
        None => {},
    }
    let prev: char = if index > 0 {
        candidate[index - 1]
    } else {
        '\0'
    };
    proof {
        if index > 0 {
            assert(s[index - 1] == candidate@[index - 1]);
        }
    }
    let base: Vec<char> = if fc.in_floor {
        if fc.has_slash_in_current_floor {
            ord_floor_slash_exec()
        } else {
            ord_floor_noslash_exec()
        }
    } else if main_op_so_far == Some('=') {
        if prev == '=' {
            ord_rhs_start_exec()
        } else {
            ord_rhs_exec()
        }
    } else if index == 0 {
        ord_first_exec()
    } else if is_digit(prev) {
        ord_after_digit_exec()
    } else if is_binary_operator(prev) || prev == 'A' || (is_main_operator(prev) && prev != '=') {
        ord_after_operator_exec()
    } else if is_open_bracket(prev) {
        ord_after_operator_exec()
    } else if is_close_bracket(prev) || is_unary_post_operator(prev) {
        ord_after_closer_exec()
    } else {
        ord_default_exec()
    };
    let base2: Vec<char> = if index == length - 1 && !fc.in_floor {
        let filt = retain_end_exec(&base);
        if filt.len() == 0 && prev != '\0' {
            ord_end_exec()
        } else if filt.len() == 0 && index == 0 && length == 1 {
            let mut w = filt;
            let digits = ord_rhs_exec();
            let mut t: usize = 0;
            while t < digits.len()
                invariant
                    0 <= t <= digits@.len(),
                    w@ == retain_end(base@, base@.len() as int) + digits@.subrange(0, t as int),
                decreases digits@.len() - t,
            {
                w.push(digits[t]);
                assert(w@ =~= retain_end(base@, base@.len() as int) + digits@.subrange(0, t + 1));
                t += 1;
            }
            proof {
                assert(digits@.subrange(0, digits@.len() as int) =~= digits@);
            }
            w
        } else {
            filt
        }
    } else {
        base
    };
    let mut out: Vec<char> = Vec::new();
    let mut k: usize = 0;
    while k < base2.len()
        invariant
            0 <= k <= base2@.len(),
            index < length,
            length * ALPHABET_LEN <= usize::MAX,
            gk_wf(gk@, length as int),
            out@ == uniq_filter(base2@, k as int, gk@, index as int),
        decreases base2@.len() - k,
    {
        let c = base2[k];
        let dup = vec_contains(&out, c);
        let forb = match alpha_index(c) {
            Some(a) => {
                proof {
                    crate::chars::lemma_alpha_index_of_alphabet();
                }
                gk.globally_forbidden[a]
            },
            None => false,
        };
        let cant = match alpha_index(c) {
            Some(a) => gk.cannot_be_at[index * 24 + a],
            None => false,
        };
        if !dup && !forb && !cant {
            out.push(c);
        }
        k += 1;
    }
    out
}

/// The terminal acceptance of one finished candidate: a main operator was
/// placed, brackets balance, every count requirement is met, and the
/// string is a valid equation.
pub open spec fn counts_match(s: Seq<char>, g: GkModel) -> bool {
    forall|a: int|
        0 <= a < ALPHABET_LEN ==> match #[trigger] g.exact[a] {
            Some(k) => count_char(s, spec_alpha_char(a)) as int == k,
            None => count_char(s, spec_alpha_char(a)) as int >= g.min[a],
        }
}

pub open spec fn accept_candidate(s: Seq<char>, g: GkModel, main: Option<char>) -> Seq<Seq<char>> {
    if main is Some && brackets_ok(s) && counts_match(s, g) && valid_equation(s) {
        seq![s]
    } else {
        Seq::empty()
    }
}

/// Every candidate the depth-first search accepts below the prefix `s`,
/// in discovery order.
pub open spec fn search_from(
    g: GkModel,
    length: int,
    maxop: i32,
    index: int,
    s: Seq<char>,
    main: Option<char>,
    fc: FloorContext,
) -> Seq<Seq<char>>
    decreases length - index, 1int, 0int,
    when 0 <= index <= length
{
    if index == length {
        accept_candidate(s, g, main)
    } else {
        search_list(g, length, maxop, index, s, main, fc, order_spec(index, s, main, fc, g, length))
    }
}

/// The candidates accepted when the symbols of `chars` are tried in order
/// at `index`.
pub open spec fn search_list(
    g: GkModel,
    length: int,
    maxop: i32,
    index: int,
    s: Seq<char>,
    main: Option<char>,
    fc: FloorContext,
    chars: Seq<char>,
) -> Seq<Seq<char>>
    decreases length - index, 0int, chars.len(),
    when 0 <= index < length
{
    if chars.len() == 0 {
        Seq::empty()
    } else {
        let c = chars[0];
        (if can_place_spec(c, index, s, main, fc, g, maxop, length) {
            search_from(
                g,
                length,
                maxop,
                index + 1,
                s.push(c),
                spec_next_main(c, main),
                spec_next_floor(c, fc),
            )
        } else {
            Seq::empty()
        }) + search_list(g, length, maxop, index, s, main, fc, chars.drop_first())
    }
}

/// All results of a whole search.
pub open spec fn search_results(g: GkModel, length: int, maxop: i32) -> Seq<Seq<char>> {
    search_from(
        g,
        length,
        maxop,
        0,
        Seq::empty(),
        None,
        FloorContext { in_floor: false, has_slash_in_current_floor: false },
    )
}

/// The character sequences of a list of result strings.
pub open spec fn views_of(rs: Seq<String>) -> Seq<Seq<char>> {
    rs.map_values(|x: String| x@)
}

/// The string holds exactly one comparison symbol: its main operator.
pub open spec fn one_comparison(r: Seq<char>) -> bool {
    count_char(r, '=') + count_char(r, '>') == 1
}

/// Relies on `String: FromIterator<char>` (`Iterator::collect`): the
/// string holds exactly the characters of `v` in order.
#[verifier::external_body]
fn chars_to_string(v: &Vec<char>) -> (s: String)
    ensures
        s@ == v@,
{
    v.iter().collect()
}

/// Depth-first search from `index`: every accepted completion of the
/// current prefix is appended to `results` in discovery order; the
/// candidate prefix and the running counts are restored on return.
pub fn recursive_search(
    index: usize,
    candidate: &mut Vec<char>,
    main_op_so_far: Option<char>,
    counts: &mut Vec<usize>,
    fc: FloorContext,
    gk: &GlobalKnowledge,
    results: &mut Vec<String>,
    maxop: i32,
    length: usize,
)
    requires
        index <= length,
        1 <= length,
        old(candidate)@.len() == length,
        length * ALPHABET_LEN <= usize::MAX,
        gk_wf(gk@, length as int),
        counts_ok(old(counts)@, old(candidate)@.take(index as int)),
    ensures
        final(candidate)@.len() == length,
        final(candidate)@.take(index as int) == old(candidate)@.take(index as int),
        final(counts)@ == old(counts)@,
        views_of(final(results)@) == views_of(old(results)@) + search_from(
            gk@,
            length as int,
            maxop,
            index as int,
            old(candidate)@.take(index as int),
            main_op_so_far,
            fc,
        ),
        forall|j: int|
            0 <= j < search_from(
                gk@,
                length as int,
                maxop,
                index as int,
                old(candidate)@.take(index as int),
                main_op_so_far,
                fc,
            ).len() ==> one_comparison(
                #[trigger] search_from(
                    gk@,
                    length as int,
                    maxop,
                    index as int,
                    old(candidate)@.take(index as int),
                    main_op_so_far,
                    fc,
                )[j],
            ),
    decreases length - index,
{
    let ghost s = candidate@.take(index as int);
    if index == length {
        proof {
            assert(s =~= candidate@);
        }
        if main_op_so_far.is_none() {
            proof {
                assert(views_of(results@) =~= views_of(results@) + accept_candidate(
                    s,
                    gk@,
                    main_op_so_far,
                ));
            }
            return;
        }
        if !check_brackets(candidate) {
            proof {
                assert(views_of(results@) =~= views_of(results@) + accept_candidate(
                    s,
                    gk@,
                    main_op_so_far,
                ));
            }
            return;
        }
        let mut a: usize = 0;
        while a < 24
            invariant
                0 <= a <= 24,
                index == length,
                candidate@.len() == length,
                s == candidate@,
                candidate@ == old(candidate)@,
                counts@ == old(counts)@,
                results@ == old(results)@,
                s == old(candidate)@.take(index as int),
                main_op_so_far is Some,
                gk_wf(gk@, length as int),
                counts_ok(counts@, s),
                forall|j: int|
                    0 <= j < a ==> match #[trigger] gk@.exact[j] {
                        Some(k) => count_char(s, spec_alpha_char(j)) as int == k,
                        None => count_char(s, spec_alpha_char(j)) as int >= gk@.min[j],
                    },
            decreases 24 - a,
        {
            match gk.must_appear_exact_count[a] {
                Some(k) => {
                    if counts[a] != k {
                        proof {
                            let ai = a as int;
                            assert(gk@.exact[ai] == Some(k as int));
                            assert(counts@[ai] as int == count_char(s, spec_alpha_char(ai)) as int);
                            assert(!(match gk@.exact[ai] {
                                Some(kk) => count_char(s, spec_alpha_char(ai)) as int == kk,
                                None => count_char(s, spec_alpha_char(ai)) as int >= gk@.min[ai],
                            }));
                            assert(!counts_match(s, gk@));
                            assert(views_of(results@) =~= views_of(results@) + accept_candidate(
                                s,
                                gk@,
                                main_op_so_far,
                            ));
                        }
                        return;
                    }
                },
                None => {
                    if counts[a] < gk.must_appear_min_count[a] {
                        proof {
                            let ai = a as int;
                            assert(gk@.exact[ai] is None);
                            assert(gk@.min[ai] == gk.must_appear_min_count@[ai] as int);
                            assert(counts@[ai] as int == count_char(s, spec_alpha_char(ai)) as int);
                            assert(!(match gk@.exact[ai] {
                                Some(kk) => count_char(s, spec_alpha_char(ai)) as int == kk,
                                None => count_char(s, spec_alpha_char(ai)) as int >= gk@.min[ai],
                            }));
                            assert(!counts_match(s, gk@));
                            assert(views_of(results@) =~= views_of(results@) + accept_candidate(
                                s,
                                gk@,
                                main_op_so_far,
                            ));
                        }
                        return;
                    }
                },
            }
            a += 1;
        }
        proof {
            assert(counts_match(s, gk@));
        }
        if is_valid_equation_chars(candidate) {
            proof {
                assert(one_comparison(s));
            }
            let text = chars_to_string(candidate);
            results.push(text);
            proof {
                assert(accept_candidate(s, gk@, main_op_so_far) =~= seq![s]);
                assert(views_of(results@) =~= views_of(old(results)@) + seq![s]);
            }
        } else {
            proof {
                assert(views_of(results@) =~= views_of(results@) + accept_candidate(
                    s,
                    gk@,
                    main_op_so_far,
                ));
            }
        }
        return;
    }
    let order = get_optimized_char_order(index, candidate, main_op_so_far, fc, gk, length);
    let mut k: usize = 0;
    proof {
        assert(order@.skip(0) =~= order@);
    }
    while k < order.len()
        invariant
            0 <= k <= order@.len(),
            index < length,
            1 <= length,
            length * ALPHABET_LEN <= usize::MAX,
            gk_wf(gk@, length as int),
            candidate@.len() == length,
            candidate@.take(index as int) == s,
            s == old(candidate)@.take(index as int),
            counts@ == old(counts)@,
            counts_ok(counts@, s),
            order@ == order_spec(index as int, s, main_op_so_far, fc, gk@, length as int),
            views_of(old(results)@).len() <= views_of(results@).len(),
            forall|j: int|
                0 <= j < views_of(old(results)@).len() ==> views_of(results@)[j] == views_of(
                    old(results)@,
                )[j],
            forall|j: int|
                views_of(old(results)@).len() <= j < views_of(results@).len() ==> one_comparison(
                    #[trigger] views_of(results@)[j],
                ),
            views_of(results@) + search_list(
                gk@,
                length as int,
                maxop,
                index as int,
                s,
                main_op_so_far,
                fc,
                order@.skip(k as int),
            ) == views_of(old(results)@) + search_list(
                gk@,
                length as int,
                maxop,
                index as int,
                s,
                main_op_so_far,
                fc,
                order@,
            ),
        decreases order@.len() - k,
    {
        let c = order[k];
        proof {
            assert(order@.skip(k as int)[0] == c);
            assert(order@.skip(k as int).drop_first() =~= order@.skip(k as int + 1));
        }
        let nf = next_floor(c, fc);
        if can_place_char(c, index, candidate, main_op_so_far, counts, fc, gk, maxop, length) {
            let ghost results_before = results@;
            candidate.set(index, c);
            proof {
                assert(candidate@.take(index as int) =~= s);
                assert(candidate@.take(index as int + 1) =~= s.push(c));
            }
            let a = match alpha_index(c) {
                Some(a) => a,
                None => {
                    proof {
                        assert(false);
                    }
                    0
                },
            };
            proof {
                crate::chars::lemma_alpha_index_of_alphabet();
                lemma_alpha_char_of_index(c);
                lemma_count_le_len(s, c);
            }
            let old_count = counts[a];
            counts.set(a, old_count + 1);
            proof {
                assert forall|j: int| 0 <= j < ALPHABET_LEN implies #[trigger] counts@[j] as int
                    == count_char(s.push(c), spec_alpha_char(j)) as int by {
                    lemma_count_push(s, c, spec_alpha_char(j));
                    if j != a as int {
                        crate::chars::lemma_alpha_char_index(j);
                        assert(spec_alpha_char(j) != c);
                    }
                }
            }
            let nm = if is_main_operator(c) {
                Some(c)
            } else {
                main_op_so_far
            };
            recursive_search(index + 1, candidate, nm, counts, nf, gk, results, maxop, length);
            let back = counts[a];
            counts.set(a, back - 1);
            proof {
                assert(counts@ =~= old(counts)@);
                assert(candidate@.take(index as int) =~= s);
                assert(views_of(results@) =~= views_of(results_before) + search_from(
                    gk@,
                    length as int,
                    maxop,
                    index as int + 1,
                    s.push(c),
                    spec_next_main(c, main_op_so_far),
                    spec_next_floor(c, fc),
                ));
                assert forall|j: int|
                    views_of(old(results)@).len() <= j < views_of(results@).len() implies
                    one_comparison(#[trigger] views_of(results@)[j]) by {
                    if j < views_of(results_before).len() {
                        assert(views_of(results@)[j] == views_of(results_before)[j]);
                    } else {
                        assert(views_of(results@)[j] == search_from(
                            gk@,
                            length as int,
                            maxop,
                            index as int + 1,
                            s.push(c),
                            spec_next_main(c, main_op_so_far),
                            spec_next_floor(c, fc),
                        )[j - views_of(results_before).len()]);
                    }
                }
            }
        }
        k += 1;
        proof {
            assert(views_of(results@) + search_list(
                gk@,
                length as int,
                maxop,
                index as int,
                s,
                main_op_so_far,
                fc,
                order@.skip(k as int),
            ) =~= views_of(old(results)@) + search_list(
                gk@,
                length as int,
                maxop,
                index as int,
                s,
                main_op_so_far,
                fc,
                order@,
            ));
        }
    }
    proof {
        assert(order@.skip(order@.len() as int) =~= Seq::<char>::empty());
        assert(search_list(
            gk@,
            length as int,
            maxop,
            index as int,
            s,
            main_op_so_far,
            fc,
            Seq::<char>::empty(),
        ) =~= Seq::<Seq<char>>::empty());
        assert(views_of(results@) + Seq::<Seq<char>>::empty() =~= views_of(results@));
        assert(search_from(gk@, length as int, maxop, index as int, s, main_op_so_far, fc)
            == search_list(
            gk@,
            length as int,
            maxop,
            index as int,
            s,
            main_op_so_far,
            fc,
            order@,
        ));
        assert(views_of(results@) =~= views_of(old(results)@) + search_from(
            gk@,
            length as int,
            maxop,
            index as int,
            s,
            main_op_so_far,
            fc,
        ));
        let sf = search_from(gk@, length as int, maxop, index as int, s, main_op_so_far, fc);
        assert forall|j: int| 0 <= j < sf.len() implies one_comparison(#[trigger] sf[j]) by {
            assert(sf[j] == views_of(results@)[views_of(old(results)@).len() + j]);
        }
    }
}


/// Run a whole search: every string of length `length` that the knowledge,
/// the grammar and the evaluator accept, in discovery order.
pub fn run_search(gk: &GlobalKnowledge, length: usize, maxop: i32) -> (results: Vec<String>)
    requires
        1 <= length,
        length * ALPHABET_LEN <= usize::MAX,
        gk_wf(gk@, length as int),
    ensures
        views_of(results@) == search_results(gk@, length as int, maxop),
        forall|j: int|
            0 <= j < results@.len() ==> one_comparison(#[trigger] results@[j]@),
        forall|j1: int, j2: int|
            0 <= j1 < j2 < results@.len() ==> #[trigger] results@[j1]@ != #[trigger] results@[j2]@,
{
    let mut candidate: Vec<char> = Vec::new();
    let mut i: usize = 0;
    while i < length
        invariant
            0 <= i <= length,
            candidate@.len() == i,
        decreases length - i,
    {
        candidate.push('\0');
        i += 1;
    }
    let mut counts: Vec<usize> = Vec::new();
    let mut a: usize = 0;
    while a < 24
        invariant
            0 <= a <= 24,
            counts@.len() == a,
            forall|j: int| 0 <= j < a ==> counts@[j] == 0,
        decreases 24 - a,
    {
        counts.push(0);
        a += 1;
    }
    let mut results: Vec<String> = Vec::new();
    proof {
        assert(candidate@.take(0) =~= Seq::<char>::empty());
        assert forall|j: int| 0 <= j < ALPHABET_LEN implies #[trigger] counts@[j] as int
            == count_char(Seq::<char>::empty(), spec_alpha_char(j)) as int by {
            assert(count_char(Seq::<char>::empty(), spec_alpha_char(j)) == 0);
        }
    }
    recursive_search(
        0,
        &mut candidate,
        None,
        &mut counts,
        FloorContext { in_floor: false, has_slash_in_current_floor: false },
        gk,
        &mut results,
        maxop,
        length,
    );
    proof {
        assert(views_of(results@) =~= Seq::<Seq<char>>::empty() + search_results(
            gk@,
            length as int,
            maxop,
        ));
        assert(Seq::<Seq<char>>::empty() + search_results(gk@, length as int, maxop)
            =~= search_results(gk@, length as int, maxop));
        assert forall|j: int| 0 <= j < results@.len() implies one_comparison(
            #[trigger] results@[j]@,
        ) by {
            assert(results@[j]@ == views_of(results@)[j]);
        }
        lemma_results_distinct(gk@, length as int, maxop);
        assert forall|j1: int, j2: int| 0 <= j1 < j2 < results@.len() implies #[trigger] results@[j1]@
            != #[trigger] results@[j2]@ by {
            assert(results@[j1]@ == views_of(results@)[j1]);
            assert(results@[j2]@ == views_of(results@)[j2]);
        }
    }
    results
}

/// Position-wise conformance of a (partial) candidate to the knowledge:
/// every symbol is in the alphabet, matches its pin, and is neither
/// globally forbidden nor excluded at its position.
pub open spec fn prefix_ok(s: Seq<char>, g: GkModel) -> bool {
    forall|i: int|
        0 <= i < s.len() ==> {
            &&& spec_in_alphabet(#[trigger] s[i])
            &&& match g.fixed[i] {
                Some(f) => s[i] == f,
                None => true,
            }
            &&& !gk_forbidden(g, s[i])
            &&& !gk_cannot(g, i, s[i])
        }
}

/// No numeral token anywhere in `s` carries a leading zero.
pub open spec fn no_leading_zero(s: Seq<char>) -> bool {
    forall|i: int| !lz_at(s, i)
}

/// Everything the search promises of an accepted result.
pub open spec fn result_ok(r: Seq<char>, g: GkModel, length: int) -> bool {
    &&& r.len() == length
    &&& prefix_ok(r, g)
    &&& no_leading_zero(r)
    &&& counts_match(r, g)
    &&& brackets_ok(r)
    &&& scan_main(r, 0, 0, None) is Some
    &&& valid_equation(r)
}

/// A legal placement preserves conformance and leading-zero freedom.
proof fn lemma_can_place_extends(
    c: char,
    index: int,
    s: Seq<char>,
    main: Option<char>,
    fc: FloorContext,
    g: GkModel,
    maxop: i32,
    length: int,
)
    requires
        can_place_spec(c, index, s, main, fc, g, maxop, length),
        s.len() == index,
        0 <= index < length,
        gk_wf(g, length),
        prefix_ok(s, g),
        no_leading_zero(s),
    ensures
        prefix_ok(s.push(c), g),
        no_leading_zero(s.push(c)),
{
    let t = s.push(c);
    assert(spec_alpha_index(c) is Some);
    assert forall|i: int| 0 <= i < t.len() implies {
        &&& spec_in_alphabet(#[trigger] t[i])
        &&& match g.fixed[i] {
            Some(f) => t[i] == f,
            None => true,
        }
        &&& !gk_forbidden(g, t[i])
        &&& !gk_cannot(g, i, t[i])
    } by {
        if i < index {
            assert(t[i] == s[i]);
        } else {
            assert(t[i] == c);
        }
    }
    assert forall|i: int| !lz_at(t, i) by {
        if 0 <= i && i + 1 < t.len() {
            if i + 1 < index {
                assert(!lz_at(s, i));
                assert(t[i] == s[i] && t[i + 1] == s[i + 1]);
                if i > 0 {
                    assert(t[i - 1] == s[i - 1]);
                }
            } else {
                assert(i + 1 == index);
                if spec_is_digit(c) && t[i] == '0' && (i == 0 || !spec_is_digit(t[i - 1])) {
                    assert(s[index - 1] == '0');
                    assert(run_start(s, index) == run_start(s, index - 1));
                    assert(run_start(s, index - 1) == index - 1);
                    assert(digit_reject(c, index, s, main, maxop));
                    assert(false);
                }
            }
        }
    }
}

/// Soundness of the search below a conforming prefix: every result is a
/// full-length, valid, conforming candidate.
proof fn lemma_search_from_sound(
    g: GkModel,
    length: int,
    maxop: i32,
    index: int,
    s: Seq<char>,
    main: Option<char>,
    fc: FloorContext,
)
    requires
        gk_wf(g, length),
        0 <= index <= length,
        s.len() == index,
        prefix_ok(s, g),
        no_leading_zero(s),
    ensures
        forall|j: int|
            0 <= j < search_from(g, length, maxop, index, s, main, fc).len() ==> result_ok(
                #[trigger] search_from(g, length, maxop, index, s, main, fc)[j],
                g,
                length,
            ),
    decreases length - index, 1int, 0int,
{
    if index == length {
        let res = search_from(g, length, maxop, index, s, main, fc);
        assert forall|j: int| 0 <= j < res.len() implies result_ok(#[trigger] res[j], g, length) by {
            assert(res == accept_candidate(s, g, main));
            assert(res[j] == s);
        }
    } else {
        lemma_search_list_sound(
            g,
            length,
            maxop,
            index,
            s,
            main,
            fc,
            order_spec(index, s, main, fc, g, length),
        );
        let res = search_from(g, length, maxop, index, s, main, fc);
        let lst = search_list(
            g,
            length,
            maxop,
            index,
            s,
            main,
            fc,
            order_spec(index, s, main, fc, g, length),
        );
        assert(res == lst);
        assert forall|j: int| 0 <= j < res.len() implies result_ok(
            #[trigger] res[j],
            g,
            length,
        ) by {
            assert(res[j] == lst[j]);
        }
    }
}

proof fn lemma_search_list_sound(
    g: GkModel,
    length: int,
    maxop: i32,
    index: int,
    s: Seq<char>,
    main: Option<char>,
    fc: FloorContext,
    chars: Seq<char>,
)
    requires
        gk_wf(g, length),
        0 <= index < length,
        s.len() == index,
        prefix_ok(s, g),
        no_leading_zero(s),
    ensures
        forall|j: int|
            0 <= j < search_list(g, length, maxop, index, s, main, fc, chars).len() ==> result_ok(
                #[trigger] search_list(g, length, maxop, index, s, main, fc, chars)[j],
                g,
                length,
            ),
    decreases length - index, 0int, chars.len(),
{
    if chars.len() > 0 {
        let c = chars[0];
        let head: Seq<Seq<char>> = if can_place_spec(c, index, s, main, fc, g, maxop, length) {
            search_from(
                g,
                length,
                maxop,
                index + 1,
                s.push(c),
                spec_next_main(c, main),
                spec_next_floor(c, fc),
            )
        } else {
            Seq::empty()
        };
        if can_place_spec(c, index, s, main, fc, g, maxop, length) {
            lemma_can_place_extends(c, index, s, main, fc, g, maxop, length);
            lemma_search_from_sound(
                g,
                length,
                maxop,
                index + 1,
                s.push(c),
                spec_next_main(c, main),
                spec_next_floor(c, fc),
            );
        }
        lemma_search_list_sound(g, length, maxop, index, s, main, fc, chars.drop_first());
        let tail = search_list(g, length, maxop, index, s, main, fc, chars.drop_first());
        let whole = search_list(g, length, maxop, index, s, main, fc, chars);
        assert(whole == head + tail);
        assert forall|j: int| 0 <= j < whole.len() implies result_ok(
            #[trigger] whole[j],
            g,
            length,
        ) by {
            if j < head.len() {
                assert(whole[j] == head[j]);
            } else {
                assert(whole[j] == tail[j - head.len()]);
            }
        }
    }
}

/// Every accepted result has the query's length, balanced brackets, one
/// coherent top-level comparison operator, and passes the full equation
/// check.
pub proof fn lemma_results_valid(g: GkModel, length: int, maxop: i32)
    requires
        gk_wf(g, length),
        1 <= length,
    ensures
        forall|j: int|
            0 <= j < search_results(g, length, maxop).len() ==> {
                let r = #[trigger] search_results(g, length, maxop)[j];
                &&& r.len() == length
                &&& brackets_ok(r)
                &&& scan_main(r, 0, 0, None) is Some
                &&& valid_equation(r)
            },
{
    lemma_results_sound(g, length, maxop);
}

/// Every accepted result meets each exact-count requirement exactly, each
/// bare minimum requirement at least, and holds no forbidden symbol.
pub proof fn lemma_results_counts(g: GkModel, length: int, maxop: i32)
    requires
        gk_wf(g, length),
        1 <= length,
    ensures
        forall|j: int|
            0 <= j < search_results(g, length, maxop).len() ==> counts_match(
                #[trigger] search_results(g, length, maxop)[j],
                g,
            ),
        forall|j: int, a: int|
            0 <= j < search_results(g, length, maxop).len() && 0 <= a < ALPHABET_LEN
                && g.forbidden[a] ==> count_char(
                #[trigger] search_results(g, length, maxop)[j],
                #[trigger] spec_alpha_char(a),
            ) == 0,
{
    lemma_results_sound(g, length, maxop);
    let res = search_results(g, length, maxop);
    assert forall|j: int, a: int|
        0 <= j < res.len() && 0 <= a < ALPHABET_LEN && g.forbidden[a] implies count_char(
        #[trigger] res[j],
        #[trigger] spec_alpha_char(a),
    ) == 0 by {
        let r = res[j];
        let ch = spec_alpha_char(a);
        crate::chars::lemma_alpha_char_index(a);
        assert forall|i: int| 0 <= i < r.len() implies #[trigger] r[i] != ch by {
            assert(!gk_forbidden(g, r[i]));
        }
        crate::reduce::lemma_count_char_zero(r, ch);
    }
}

/// Every pinned position holds its pinned symbol in every accepted result.
pub proof fn lemma_results_pins(g: GkModel, length: int, maxop: i32)
    requires
        gk_wf(g, length),
        1 <= length,
    ensures
        forall|j: int, i: int|
            0 <= j < search_results(g, length, maxop).len() && 0 <= i < length ==> match g.fixed[i] {
                Some(f) => #[trigger] search_results(g, length, maxop)[j][i] == f,
                None => true,
            },
{
    lemma_results_sound(g, length, maxop);
    let res = search_results(g, length, maxop);
    assert forall|j: int, i: int|
        0 <= j < res.len() && 0 <= i < length implies match g.fixed[i] {
        Some(f) => #[trigger] res[j][i] == f,
        None => true,
    } by {
        assert(result_ok(res[j], g, length));
        assert(prefix_ok(res[j], g));
        assert(0 <= i < res[j].len());
    }
}

/// No accepted result contains a numeral token with a leading zero.
pub proof fn lemma_results_no_leading_zero(g: GkModel, length: int, maxop: i32)
    requires
        gk_wf(g, length),
        1 <= length,
    ensures
        forall|j: int|
            0 <= j < search_results(g, length, maxop).len() ==> no_leading_zero(
                #[trigger] search_results(g, length, maxop)[j],
            ),
{
    lemma_results_sound(g, length, maxop);
}

proof fn lemma_results_sound(g: GkModel, length: int, maxop: i32)
    requires
        gk_wf(g, length),
        1 <= length,
    ensures
        forall|j: int|
            0 <= j < search_results(g, length, maxop).len() ==> result_ok(
                #[trigger] search_results(g, length, maxop)[j],
                g,
                length,
            ),
{
    lemma_search_from_sound(
        g,
        length,
        maxop,
        0,
        Seq::empty(),
        None,
        FloorContext { in_floor: false, has_slash_in_current_floor: false },
    );
}

/// Results below a prefix extend it and have the full length.
proof fn lemma_search_from_extends(
    g: GkModel,
    length: int,
    maxop: i32,
    index: int,
    s: Seq<char>,
    main: Option<char>,
    fc: FloorContext,
)
    requires
        0 <= index <= length,
        s.len() == index,
    ensures
        forall|j: int|
            0 <= j < search_from(g, length, maxop, index, s, main, fc).len() ==> {
                let r = #[trigger] search_from(g, length, maxop, index, s, main, fc)[j];
                r.len() == length && r.subrange(0, index) == s
            },
    decreases length - index, 1int, 0int,
{
    if index == length {
        let res = search_from(g, length, maxop, index, s, main, fc);
        assert forall|j: int| 0 <= j < res.len() implies {
            let r = #[trigger] res[j];
            r.len() == length && r.subrange(0, index) == s
        } by {
            assert(res[j] == s);
            assert(s.subrange(0, index) =~= s);
        }
    } else {
        lemma_search_list_extends(
            g,
            length,
            maxop,
            index,
            s,
            main,
            fc,
            order_spec(index, s, main, fc, g, length),
        );
        let res = search_from(g, length, maxop, index, s, main, fc);
        let lst = search_list(
            g,
            length,
            maxop,
            index,
            s,
            main,
            fc,
            order_spec(index, s, main, fc, g, length),
        );
        assert(res == lst);
        assert forall|j: int| 0 <= j < res.len() implies {
            let r = #[trigger] res[j];
            r.len() == length && r.subrange(0, index) == s
        } by {
            assert(res[j] == lst[j]);
        }
    }
}

/// Results of trying a character list extend the prefix, have the full
/// length, and carry one of the listed characters at the tried position.
proof fn lemma_search_list_extends(
    g: GkModel,
    length: int,
    maxop: i32,
    index: int,
    s: Seq<char>,
    main: Option<char>,
    fc: FloorContext,
    chars: Seq<char>,
)
    requires
        0 <= index < length,
        s.len() == index,
    ensures
        forall|j: int|
            0 <= j < search_list(g, length, maxop, index, s, main, fc, chars).len() ==> {
                let r = #[trigger] search_list(g, length, maxop, index, s, main, fc, chars)[j];
                r.len() == length && r.subrange(0, index) == s && chars.contains(r[index])
            },
    decreases length - index, 0int, chars.len(),
{
    if chars.len() > 0 {
        let c = chars[0];
        let head: Seq<Seq<char>> = if can_place_spec(c, index, s, main, fc, g, maxop, length) {
            search_from(
                g,
                length,
                maxop,
                index + 1,
                s.push(c),
                spec_next_main(c, main),
                spec_next_floor(c, fc),
            )
        } else {
            Seq::empty()
        };
        if can_place_spec(c, index, s, main, fc, g, maxop, length) {
            lemma_search_from_extends(
                g,
                length,
                maxop,
                index + 1,
                s.push(c),
                spec_next_main(c, main),
                spec_next_floor(c, fc),
            );
        }
        lemma_search_list_extends(g, length, maxop, index, s, main, fc, chars.drop_first());
        let tail = search_list(g, length, maxop, index, s, main, fc, chars.drop_first());
        let whole = search_list(g, length, maxop, index, s, main, fc, chars);
        assert(whole == head + tail);
        assert forall|j: int| 0 <= j < whole.len() implies {
            let r = #[trigger] whole[j];
            r.len() == length && r.subrange(0, index) == s && chars.contains(r[index])
        } by {
            if j < head.len() {
                assert(whole[j] == head[j]);
                let r = head[j];
                assert(r.subrange(0, index + 1) == s.push(c));
                assert(r.subrange(0, index) =~= r.subrange(0, index + 1).subrange(0, index));
                assert(s.push(c).subrange(0, index) =~= s);
                assert(r[index] == r.subrange(0, index + 1)[index]);
                assert(r[index] == c);
                assert(chars[0] == c);
            } else {
                assert(whole[j] == tail[j - head.len()]);
                let r = tail[j - head.len()];
                assert(chars.drop_first().contains(r[index]));
                let i = choose|i: int|
                    0 <= i < chars.drop_first().len() && chars.drop_first()[i] == r[index];
                assert(chars[i + 1] == r[index]);
            }
        }
    }
}

/// The constraint filter keeps each symbol at most once.
proof fn lemma_uniq_filter_distinct(s: Seq<char>, k: int, g: GkModel, index: int)
    requires
        0 <= k <= s.len(),
    ensures
        forall|i1: int, i2: int|
            0 <= i1 < i2 < uniq_filter(s, k, g, index).len() ==> #[trigger] uniq_filter(
                s,
                k,
                g,
                index,
            )[i1] != #[trigger] uniq_filter(s, k, g, index)[i2],
    decreases k,
{
    if k > 0 {
        lemma_uniq_filter_distinct(s, k - 1, g, index);
        let u = uniq_filter(s, k - 1, g, index);
        let c = s[k - 1];
        let w = uniq_filter(s, k, g, index);
        if !seq_has(u, c) && !gk_forbidden(g, c) && !gk_cannot(g, index, c) {
            assert forall|i1: int, i2: int| 0 <= i1 < i2 < w.len() implies #[trigger] w[i1]
                != #[trigger] w[i2] by {
                if i2 < u.len() {
                    assert(w[i1] == u[i1] && w[i2] == u[i2]);
                } else {
                    assert(w[i2] == c && w[i1] == u[i1]);
                    assert(!(exists|i: int| 0 <= i < u.len() && #[trigger] u[i] == c));
                }
            }
        }
    }
}

/// The candidate ordering never repeats a symbol.
proof fn lemma_order_distinct(
    index: int,
    s: Seq<char>,
    main: Option<char>,
    fc: FloorContext,
    g: GkModel,
    length: int,
)
    ensures
        forall|i1: int, i2: int|
            0 <= i1 < i2 < order_spec(index, s, main, fc, g, length).len() ==> #[trigger] order_spec(
                index,
                s,
                main,
                fc,
                g,
                length,
            )[i1] != #[trigger] order_spec(index, s, main, fc, g, length)[i2],
{
    match g.fixed[index] {
        Some(f) => {},
        None => {
            let prev = if index > 0 {
                s[index - 1]
            } else {
                '\0'
            };
            let base = if fc.in_floor {
                if fc.has_slash_in_current_floor {
                    ord_floor_slash()
                } else {
                    ord_floor_noslash()
                }
            } else if main == Some('=') {
                if prev == '=' {
                    ord_rhs_start()
                } else {
                    ord_rhs()
                }
            } else if index == 0 {
                ord_first()
            } else if spec_is_digit(prev) {
                ord_after_digit()
            } else if spec_is_binary_operator(prev) || prev == 'A' || (spec_is_main_operator(prev)
                && prev != '=') {
                ord_after_operator()
            } else if spec_is_open_bracket(prev) {
                ord_after_operator()
            } else if spec_is_close_bracket(prev) || spec_is_unary_post_operator(prev) {
                ord_after_closer()
            } else {
                ord_default()
            };
            let base2 = if index == length - 1 && !fc.in_floor {
                let filt = retain_end(base, base.len() as int);
                if filt.len() == 0 && prev != '\0' {
                    ord_end()
                } else if filt.len() == 0 && index == 0 && length == 1 {
                    filt + ord_rhs()
                } else {
                    filt
                }
            } else {
                base
            };
            lemma_uniq_filter_distinct(base2, base2.len() as int, g, index);
        },
    }
}

/// No two results of a search below one prefix are equal.
proof fn lemma_search_from_distinct(
    g: GkModel,
    length: int,
    maxop: i32,
    index: int,
    s: Seq<char>,
    main: Option<char>,
    fc: FloorContext,
)
    requires
        0 <= index <= length,
        s.len() == index,
    ensures
        forall|j1: int, j2: int|
            0 <= j1 < j2 < search_from(g, length, maxop, index, s, main, fc).len()
                ==> #[trigger] search_from(g, length, maxop, index, s, main, fc)[j1]
                != #[trigger] search_from(g, length, maxop, index, s, main, fc)[j2],
    decreases length - index, 1int, 0int,
{
    if index < length {
        lemma_order_distinct(index, s, main, fc, g, length);
        lemma_search_list_distinct(
            g,
            length,
            maxop,
            index,
            s,
            main,
            fc,
            order_spec(index, s, main, fc, g, length),
        );
        let res = search_from(g, length, maxop, index, s, main, fc);
        let lst = search_list(
            g,
            length,
            maxop,
            index,
            s,
            main,
            fc,
            order_spec(index, s, main, fc, g, length),
        );
        assert(res == lst);
        assert forall|j1: int, j2: int| 0 <= j1 < j2 < res.len() implies #[trigger] res[j1]
            != #[trigger] res[j2] by {
            assert(res[j1] == lst[j1] && res[j2] == lst[j2]);
        }
    }
}

/// Distinct characters tried in turn yield pairwise distinct results:
/// results of different branches differ at the tried position.
proof fn lemma_search_list_distinct(
    g: GkModel,
    length: int,
    maxop: i32,
    index: int,
    s: Seq<char>,
    main: Option<char>,
    fc: FloorContext,
    chars: Seq<char>,
)
    requires
        0 <= index < length,
        s.len() == index,
        forall|i1: int, i2: int|
            0 <= i1 < i2 < chars.len() ==> #[trigger] chars[i1] != #[trigger] chars[i2],
    ensures
        forall|j1: int, j2: int|
            0 <= j1 < j2 < search_list(g, length, maxop, index, s, main, fc, chars).len()
                ==> #[trigger] search_list(g, length, maxop, index, s, main, fc, chars)[j1]
                != #[trigger] search_list(g, length, maxop, index, s, main, fc, chars)[j2],
    decreases length - index, 0int, chars.len(),
{
    if chars.len() > 0 {
        let c = chars[0];
        let head: Seq<Seq<char>> = if can_place_spec(c, index, s, main, fc, g, maxop, length) {
            search_from(
                g,
                length,
                maxop,
                index + 1,
                s.push(c),
                spec_next_main(c, main),
                spec_next_floor(c, fc),
            )
        } else {
            Seq::empty()
        };
        if can_place_spec(c, index, s, main, fc, g, maxop, length) {
            lemma_search_from_distinct(
                g,
                length,
                maxop,
                index + 1,
                s.push(c),
                spec_next_main(c, main),
                spec_next_floor(c, fc),
            );
            lemma_search_from_extends(
                g,
                length,
                maxop,
                index + 1,
                s.push(c),
                spec_next_main(c, main),
                spec_next_floor(c, fc),
            );
        }
        assert forall|i1: int, i2: int|
            0 <= i1 < i2 < chars.drop_first().len() implies #[trigger] chars.drop_first()[i1]
            != #[trigger] chars.drop_first()[i2] by {
            assert(chars.drop_first()[i1] == chars[i1 + 1]);
            assert(chars.drop_first()[i2] == chars[i2 + 1]);
        }
        lemma_search_list_distinct(g, length, maxop, index, s, main, fc, chars.drop_first());
        lemma_search_list_extends(g, length, maxop, index, s, main, fc, chars.drop_first());
        let tail = search_list(g, length, maxop, index, s, main, fc, chars.drop_first());
        let whole = search_list(g, length, maxop, index, s, main, fc, chars);
        assert(whole == head + tail);
        assert forall|j1: int, j2: int| 0 <= j1 < j2 < whole.len() implies #[trigger] whole[j1]
            != #[trigger] whole[j2] by {
            if j2 < head.len() {
                assert(whole[j1] == head[j1] && whole[j2] == head[j2]);
            } else if j1 >= head.len() {
                assert(whole[j1] == tail[j1 - head.len()] && whole[j2] == tail[j2 - head.len()]);
            } else {
                let r1 = head[j1];
                let r2 = tail[j2 - head.len()];
                assert(whole[j1] == r1 && whole[j2] == r2);
                assert(r1.subrange(0, index + 1) == s.push(c));
                assert(r1[index] == r1.subrange(0, index + 1)[index]);
                assert(r1[index] == c);
                assert(chars.drop_first().contains(r2[index]));
                let i = choose|i: int|
                    0 <= i < chars.drop_first().len() && chars.drop_first()[i] == r2[index];
                assert(chars[i + 1] == r2[index]);
                assert(chars[0] != chars[i + 1]);
                assert(r1[index] != r2[index]);
            }
        }
    }
}

/// No search ever reports the same candidate twice: every accepted result
/// is the unique leaf of its own branch.
pub proof fn lemma_results_distinct(g: GkModel, length: int, maxop: i32)
    requires
        gk_wf(g, length),
        1 <= length,
    ensures
        forall|j1: int, j2: int|
            0 <= j1 < j2 < search_results(g, length, maxop).len() ==> #[trigger] search_results(
                g,
                length,
                maxop,
            )[j1] != #[trigger] search_results(g, length, maxop)[j2],
{
    lemma_search_from_distinct(
        g,
        length,
        maxop,
        0,
        Seq::empty(),
        None,
        FloorContext { in_floor: false, has_slash_in_current_floor: false },
    );
}

} // verus!

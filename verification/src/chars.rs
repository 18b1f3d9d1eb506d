//! The fixed 24-symbol alphabet and the syntax classes of its symbols.

use vstd::prelude::*;

verus! {

/// Number of symbols in the alphabet.
pub const ALPHABET_LEN: usize = 24;

/// The alphabet, as an indexed sequence: digits, binary operators,
/// comparison operators, brackets, factorial and the permutation symbol.
pub open spec fn spec_alphabet() -> Seq<char> {
    seq![
        '0', '1', '2', '3', '4', '5', '6', '7', '8', '9',
        '+', '-', '*', '/', '%', '^', '=', '(', ')', '!',
        '[', ']', '>', 'A',
    ]
}

/// Index of a symbol in the alphabet, `None` for a character outside it.
pub open spec fn spec_alpha_index(c: char) -> Option<usize> {
    match c {
        '0' => Some(0usize),
        '1' => Some(1usize),
        '2' => Some(2usize),
        '3' => Some(3usize),
        '4' => Some(4usize),
        '5' => Some(5usize),
        '6' => Some(6usize),
        '7' => Some(7usize),
        '8' => Some(8usize),
        '9' => Some(9usize),
        '+' => Some(10usize),
        '-' => Some(11usize),
        '*' => Some(12usize),
        '/' => Some(13usize),
        '%' => Some(14usize),
        '^' => Some(15usize),
        '=' => Some(16usize),
        '(' => Some(17usize),
        ')' => Some(18usize),
        '!' => Some(19usize),
        '[' => Some(20usize),
        ']' => Some(21usize),
        '>' => Some(22usize),
        'A' => Some(23usize),
        _ => None,
    }
}

/// Indexing and the alphabet sequence agree.
pub proof fn lemma_alpha_index_of_alphabet()
    ensures
        forall|i: int|
            0 <= i < ALPHABET_LEN ==> spec_alpha_index(#[trigger] spec_alphabet()[i]) == Some(
                i as usize,
            ),
{
}

#[verifier::when_used_as_spec(spec_alpha_index)]
pub fn alpha_index(c: char) -> (r: Option<usize>)
    ensures
        r == spec_alpha_index(c),
{
    match c {
        '0' => Some(0),
        '1' => Some(1),
        '2' => Some(2),
        '3' => Some(3),
        '4' => Some(4),
        '5' => Some(5),
        '6' => Some(6),
        '7' => Some(7),
        '8' => Some(8),
        '9' => Some(9),
        '+' => Some(10),
        '-' => Some(11),
        '*' => Some(12),
        '/' => Some(13),
        '%' => Some(14),
        '^' => Some(15),
        '=' => Some(16),
        '(' => Some(17),
        ')' => Some(18),
        '!' => Some(19),
        '[' => Some(20),
        ']' => Some(21),
        '>' => Some(22),
        'A' => Some(23),
        _ => None,
    }
}

/// The alphabet symbol at index `i`.
pub open spec fn spec_alpha_char(i: int) -> char {
    spec_alphabet()[i]
}

pub proof fn lemma_alpha_char_index(i: int)
    requires
        0 <= i < ALPHABET_LEN,
    ensures
        spec_alpha_index(spec_alpha_char(i)) == Some(i as usize),
{
}

/// Whether `c` is one of the 24 alphabet symbols.
pub open spec fn spec_in_alphabet(c: char) -> bool {
    spec_alpha_index(c) is Some
}

pub open spec fn spec_is_digit(c: char) -> bool {
    '0' <= c && c <= '9'
}

#[verifier::when_used_as_spec(spec_is_digit)]
pub fn is_digit(c: char) -> (r: bool)
    ensures
        r == spec_is_digit(c),
{
    '0' <= c && c <= '9'
}

/// Numeric value of a digit character.
pub open spec fn spec_digit_value(c: char) -> int {
    c as int - '0' as int
}

pub open spec fn spec_is_binary_operator(c: char) -> bool {
    c == '+' || c == '-' || c == '*' || c == '/' || c == '%' || c == '^' || c == 'A'
}

#[verifier::when_used_as_spec(spec_is_binary_operator)]
pub fn is_binary_operator(c: char) -> (r: bool)
    ensures
        r == spec_is_binary_operator(c),
{
    c == '+' || c == '-' || c == '*' || c == '/' || c == '%' || c == '^' || c == 'A'
}

pub open spec fn spec_is_unary_post_operator(c: char) -> bool {
    c == '!'
}

#[verifier::when_used_as_spec(spec_is_unary_post_operator)]
pub fn is_unary_post_operator(c: char) -> (r: bool)
    ensures
        r == spec_is_unary_post_operator(c),
{
    c == '!'
}

pub open spec fn spec_is_operator(c: char) -> bool {
    spec_is_binary_operator(c) || spec_is_unary_post_operator(c)
}

#[verifier::when_used_as_spec(spec_is_operator)]
pub fn is_operator(c: char) -> (r: bool)
    ensures
        r == spec_is_operator(c),
{
    is_binary_operator(c) || is_unary_post_operator(c)
}

pub open spec fn spec_is_open_bracket(c: char) -> bool {
    c == '(' || c == '['
}

#[verifier::when_used_as_spec(spec_is_open_bracket)]
pub fn is_open_bracket(c: char) -> (r: bool)
    ensures
        r == spec_is_open_bracket(c),
{
    c == '(' || c == '['
}

pub open spec fn spec_is_close_bracket(c: char) -> bool {
    c == ')' || c == ']'
}

#[verifier::when_used_as_spec(spec_is_close_bracket)]
pub fn is_close_bracket(c: char) -> (r: bool)
    ensures
        r == spec_is_close_bracket(c),
{
    c == ')' || c == ']'
}

/// The two comparison symbols that can act as the main operator.
pub open spec fn spec_is_main_operator(c: char) -> bool {
    c == '=' || c == '>'
}

#[verifier::when_used_as_spec(spec_is_main_operator)]
pub fn is_main_operator(c: char) -> (r: bool)
    ensures
        r == spec_is_main_operator(c),
{
    c == '=' || c == '>'
}

/// The closing bracket matching an opening one.
pub open spec fn spec_matching_bracket(open: char) -> Option<char> {
    if open == '(' {
        Some(')')
    } else if open == '[' {
        Some(']')
    } else {
        None
    }
}

#[verifier::when_used_as_spec(spec_matching_bracket)]
pub fn get_matching_bracket(open: char) -> (r: Option<char>)
    ensures
        r == spec_matching_bracket(open),
{
    if open == '(' {
        Some(')')
    } else if open == '[' {
        Some(']')
    } else {
        None
    }
}

/// Number of occurrences of `c` in `s`.
pub open spec fn count_char(s: Seq<char>, c: char) -> nat
    decreases s.len(),
{
    if s.len() == 0 {
        0
    } else {
        count_char(s.drop_last(), c) + if s.last() == c {
            1nat
        } else {
            0nat
        }
    }
}

pub proof fn lemma_count_char_concat(a: Seq<char>, b: Seq<char>, c: char)
    ensures
        count_char(a + b, c) == count_char(a, c) + count_char(b, c),
    decreases b.len(),
{
    if b.len() == 0 {
        assert(a + b =~= a);
    } else {
        lemma_count_char_concat(a, b.drop_last(), c);
        assert((a + b).drop_last() =~= a + b.drop_last());
    }
}

/// In a sequence of digits no character `c` other than a digit occurs.
pub proof fn lemma_count_char_all_digits(s: Seq<char>, c: char)
    requires
        forall|i: int| 0 <= i < s.len() ==> spec_is_digit(#[trigger] s[i]),
        !spec_is_digit(c),
    ensures
        count_char(s, c) == 0,
    decreases s.len(),
{
    if s.len() > 0 {
        lemma_count_char_all_digits(s.drop_last(), c);
    }
}

} // verus!

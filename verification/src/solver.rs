//! The public solver: construction, the single-expression utilities, and
//! the feedback-driven query.

use vstd::prelude::*;
use vstd::string::StrSliceExecFns;
use crate::chars::ALPHABET_LEN;
use crate::eval::{evaluate_seq, evaluate_chars, valid_equation, is_valid_equation_chars};
use crate::knowledge::{Tile, Conflict, GlobalKnowledge, GkModel, compile_spec,
    preprocess_constraints};
use crate::search::{search_results, views_of, one_comparison, run_search};

verus! {

/// Results of one query: every accepted candidate of the compiled
/// knowledge, or none at all when compilation reports a conflict.
pub open spec fn search_pipeline(rows: Seq<Vec<Tile>>, length: int, maxop: i32) -> Seq<Seq<char>> {
    match compile_spec(rows, length) {
        Ok(g) => search_results(g, length, maxop),
        Err(_) => Seq::empty(),
    }
}

/// Identical feedback yields identical result sequences in identical
/// order: the whole query is a function of the feedback alone.
pub proof fn lemma_search_idempotent(
    rows1: Seq<Vec<Tile>>,
    rows2: Seq<Vec<Tile>>,
    length: int,
    maxop: i32,
)
    requires
        rows1 == rows2,
    ensures
        search_pipeline(rows1, length, maxop) == search_pipeline(rows2, length, maxop),
{
}

fn str_to_chars(s: &str) -> (v: Vec<char>)
    ensures
        v@ == s@,
{
    let n = s.unicode_len();
    let mut v: Vec<char> = Vec::new();
    let mut i: usize = 0;
    while i < n
        invariant
            0 <= i <= n == s@.len(),
            v@ == s@.take(i as int),
        decreases n - i,
    {
        v.push(s.get_char(i));
        assert(v@ =~= s@.take(i + 1));
        i += 1;
    }
    proof {
        assert(s@.take(n as int) =~= s@);
    }
    v
}

/// The solver: a fixed candidate length and a cap on the value of any
/// freshly started numeral left of `=`.
pub struct SumzleSolver {
    length: usize,
    max_operand_value: i32,
}

impl SumzleSolver {
    pub closed spec fn spec_length(&self) -> usize {
        self.length
    }

    pub closed spec fn spec_max_operand(&self) -> i32 {
        self.max_operand_value
    }

    pub closed spec fn wf(&self) -> bool {
        &&& 1 <= self.length
        &&& self.length * ALPHABET_LEN <= usize::MAX
        &&& 1 <= self.max_operand_value
    }

    /// A solver for candidates of `length` symbols with fresh numerals
    /// capped by `max_operand_value`; both are positive, and the length
    /// keeps the exclusion table addressable.
    pub fn new(length: usize, max_operand_value: i32) -> (s: Self)
        requires
            1 <= length,
            length * ALPHABET_LEN <= usize::MAX,
            1 <= max_operand_value,
        ensures
            s.wf(),
            s.spec_length() == length,
            s.spec_max_operand() == max_operand_value,
    {
        SumzleSolver { length, max_operand_value }
    }

    /// The numeric value of one expression under the full reduction and
    /// evaluation pipeline; `None` on any malformed or out-of-range input.
    pub fn evaluate_expression(&self, expr: &str) -> (r: Option<i32>)
        ensures
            r == evaluate_seq(expr@),
    {
        let v = str_to_chars(expr);
        evaluate_chars(&v)
    }

    /// Whether the string is a valid equation or inequality.
    pub fn is_valid_solution(&self, expression: &str) -> (r: bool)
        ensures
            r == valid_equation(expression@),
    {
        self.is_valid_equation(expression)
    }

    fn is_valid_equation(&self, expression: &str) -> (r: bool)
        ensures
            r == valid_equation(expression@),
    {
        let v = str_to_chars(expression);
        is_valid_equation_chars(&v)
    }

    /// Compile feedback rows into knowledge, or report the first conflict.
    pub fn preprocess_constraints(&self, rows: &Vec<Vec<Tile>>) -> (r: Result<
        GlobalKnowledge,
        Conflict,
    >)
        requires
            self.wf(),
        ensures
            (match r {
                Ok(gk) => compile_spec(rows@, self.spec_length() as int) == Ok::<
                    GkModel,
                    Conflict,
                >(gk@),
                Err(e) => compile_spec(rows@, self.spec_length() as int) == Err::<
                    GkModel,
                    Conflict,
                >(e),
            }),
    {
        preprocess_constraints(rows, self.length)
    }

    /// Every candidate string that the feedback, the grammar and the
    /// evaluator accept, in discovery order; the empty sequence when the
    /// feedback is contradictory.  Each result carries exactly one
    /// comparison symbol — its main operator — and no result is reported
    /// twice.
    pub fn search(&self, rows: &Vec<Vec<Tile>>) -> (results: Vec<String>)
        requires
            self.wf(),
        ensures
            views_of(results@) == search_pipeline(
                rows@,
                self.spec_length() as int,
                self.spec_max_operand(),
            ),
            forall|j: int| 0 <= j < results@.len() ==> one_comparison(#[trigger] results@[j]@),
            forall|j1: int, j2: int|
                0 <= j1 < j2 < results@.len() ==> #[trigger] results@[j1]@
                    != #[trigger] results@[j2]@,
    {
        match preprocess_constraints(rows, self.length) {
            Err(_) => {
                let results: Vec<String> = Vec::new();
                proof {
                    assert(views_of(results@) =~= Seq::<Seq<char>>::empty());
                }
                results
            },
            Ok(gk) => run_search(&gk, self.length, self.max_operand_value),
        }
    }
}

} // verus!

//! Feedback tiles and the compiled constraint knowledge the search runs on.

use vstd::prelude::*;
use crate::chars::{spec_alpha_index, spec_in_alphabet, spec_alpha_char, spec_alphabet, ALPHABET_LEN};

verus! {

/// Feedback state of one tile of a guess row.
#[derive(Clone, Copy, PartialEq, Eq, Structural, Debug)]
pub enum TileState {
    /// The symbol is confirmed at this exact position.
    Correct,
    /// The symbol appears in the answer, but not at this position.
    Present,
    /// The symbol's occurrences are fully accounted for by this row.
    Empty,
}

/// One tile of a guess row: an optional symbol and its feedback state.
/// Tiles without a symbol are ignored.
#[derive(Clone, Copy, PartialEq, Eq, Structural, Debug)]
pub struct Tile {
    pub symbol: Option<char>,
    pub state: TileState,
}

/// A contradiction found while compiling feedback into knowledge.
#[derive(Clone, Copy, PartialEq, Eq, Structural, Debug)]
pub enum Conflict {
    /// A tile carries a character outside the alphabet.
    SymbolOutsideAlphabet { symbol: char },
    /// Two rows pin the same position to different symbols.
    PositionPinnedTwice { position: usize, first: char, second: char },
    /// Two rows derive different exact counts for one symbol.
    ExactCountsDisagree { symbol: char, first: usize, second: usize },
    /// A symbol's exact count lies below its required minimum.
    ExactBelowMin { symbol: char, exact: usize, min: usize },
    /// A pinned symbol is globally forbidden.
    PinnedForbidden { symbol: char, position: usize },
    /// A pinned symbol is excluded at its own position.
    PinnedExcluded { symbol: char, position: usize },
    /// A globally forbidden symbol is also required to appear.
    ForbiddenRequired { symbol: char },
}

/// Compiled constraints: per-position pins and exclusions, and per-symbol
/// count requirements, all indexed by alphabet position.  The exclusion
/// table is stored flat: position `i`, symbol `a` lives at `i * 24 + a`.
pub struct GlobalKnowledge {
    pub fixed_chars: Vec<Option<char>>,
    pub cannot_be_at: Vec<bool>,
    pub must_appear_min_count: Vec<usize>,
    pub must_appear_exact_count: Vec<Option<usize>>,
    pub globally_forbidden: Vec<bool>,
}

/// The mathematical content of `GlobalKnowledge`.
pub ghost struct GkModel {
    pub fixed: Seq<Option<char>>,
    pub cannot: Seq<bool>,
    pub min: Seq<int>,
    pub exact: Seq<Option<int>>,
    pub forbidden: Seq<bool>,
}

impl View for GlobalKnowledge {
    type V = GkModel;

    open spec fn view(&self) -> GkModel {
        GkModel {
            fixed: self.fixed_chars@,
            cannot: self.cannot_be_at@,
            min: self.must_appear_min_count@.map_values(|x: usize| x as int),
            exact: self.must_appear_exact_count@.map_values(
                |o: Option<usize>|
                    match o {
                        Some(x) => Some(x as int),
                        None => None,
                    },
            ),
            forbidden: self.globally_forbidden@,
        }
    }
}

/// Shape and content invariants of compiled knowledge.
pub open spec fn gk_wf(g: GkModel, length: int) -> bool {
    &&& g.fixed.len() == length
    &&& g.cannot.len() == length * ALPHABET_LEN
    &&& g.min.len() == ALPHABET_LEN
    &&& g.exact.len() == ALPHABET_LEN
    &&& g.forbidden.len() == ALPHABET_LEN
    &&& forall|i: int|
        0 <= i < length ==> match #[trigger] g.fixed[i] {
            Some(f) => spec_in_alphabet(f),
            None => true,
        }
}

/// Whether symbol `c` is excluded at position `i`.
pub open spec fn gk_cannot(g: GkModel, i: int, c: char) -> bool {
    match spec_alpha_index(c) {
        Some(a) => g.cannot[i * ALPHABET_LEN + a as int],
        None => false,
    }
}

/// Whether symbol `c` is globally forbidden.
pub open spec fn gk_forbidden(g: GkModel, c: char) -> bool {
    match spec_alpha_index(c) {
        Some(a) => g.forbidden[a as int],
        None => false,
    }
}


/// The exclusion table after a correct tile at `col`: every symbol other
/// than the one at alphabet index `a` becomes excluded there.
pub open spec fn forbid_others(cannot: Seq<bool>, col: int, a: int) -> Seq<bool> {
    Seq::new(
        cannot.len(),
        |k: int|
            if col * ALPHABET_LEN <= k < col * ALPHABET_LEN + ALPHABET_LEN && k != col
                * ALPHABET_LEN + a {
                true
            } else {
                cannot[k]
            },
    )
}

/// One tile's effect on the pin and exclusion tables.
pub open spec fn phase_a_tile(
    st: Result<(Seq<Option<char>>, Seq<bool>), Conflict>,
    tile: Tile,
    col: int,
    length: int,
) -> Result<(Seq<Option<char>>, Seq<bool>), Conflict> {
    match st {
        Err(e) => Err(e),
        Ok((fixed, cannot)) => {
            if col >= length {
                Ok((fixed, cannot))
            } else {
                match tile.symbol {
                    None => Ok((fixed, cannot)),
                    Some(c) => match spec_alpha_index(c) {
                        None => Err(Conflict::SymbolOutsideAlphabet { symbol: c }),
                        Some(a) => match tile.state {
                            TileState::Correct => {
                                if match fixed[col] {
                                    Some(f) => f != c,
                                    None => false,
                                } {
                                    Err(
                                        Conflict::PositionPinnedTwice {
                                            position: col as usize,
                                            first: fixed[col].unwrap(),
                                            second: c,
                                        },
                                    )
                                } else {
                                    Ok(
                                        (
                                            fixed.update(col, Some(c)),
                                            forbid_others(cannot, col, a as int),
                                        ),
                                    )
                                }
                            },
                            TileState::Present => Ok(
                                (fixed, cannot.update(col * ALPHABET_LEN + a as int, true)),
                            ),
                            TileState::Empty => Ok(
                                (fixed, cannot.update(col * ALPHABET_LEN + a as int, true)),
                            ),
                        },
                    },
                }
            }
        },
    }
}

/// The first `t` tiles of one row, folded left to right.
pub open spec fn phase_a_cols(
    st: Result<(Seq<Option<char>>, Seq<bool>), Conflict>,
    row: Seq<Tile>,
    t: int,
    length: int,
) -> Result<(Seq<Option<char>>, Seq<bool>), Conflict>
    decreases t,
    when 0 <= t <= row.len()
{
    if t <= 0 {
        st
    } else {
        phase_a_tile(phase_a_cols(st, row, t - 1, length), row[t - 1], t - 1, length)
    }
}

/// The first `r` rows, folded in order.
pub open spec fn phase_a_rows(
    st: Result<(Seq<Option<char>>, Seq<bool>), Conflict>,
    rows: Seq<Vec<Tile>>,
    r: int,
    length: int,
) -> Result<(Seq<Option<char>>, Seq<bool>), Conflict>
    decreases r,
    when 0 <= r <= rows.len()
{
    if r <= 0 {
        st
    } else {
        let prev = phase_a_rows(st, rows, r - 1, length);
        phase_a_cols(prev, rows[r - 1]@, rows[r - 1]@.len() as int, length)
    }
}

pub open spec fn phase_a_init(length: int) -> Result<(Seq<Option<char>>, Seq<bool>), Conflict> {
    Ok(
        (
            Seq::new(length as nat, |i: int| None::<char>),
            Seq::new((length * ALPHABET_LEN) as nat, |k: int| false),
        ),
    )
}

pub open spec fn phase_a(rows: Seq<Vec<Tile>>, length: int) -> Result<
    (Seq<Option<char>>, Seq<bool>),
    Conflict,
> {
    phase_a_rows(phase_a_init(length), rows, rows.len() as int, length)
}

pub proof fn lemma_phase_a_cols_err(e: Conflict, row: Seq<Tile>, t: int, length: int)
    requires
        0 <= t <= row.len(),
    ensures
        phase_a_cols(Err(e), row, t, length) == Err::<(Seq<Option<char>>, Seq<bool>), Conflict>(e),
    decreases t,
{
    if t > 0 {
        lemma_phase_a_cols_err(e, row, t - 1, length);
    }
}

pub proof fn lemma_phase_a_rows_err(e: Conflict, rows: Seq<Vec<Tile>>, r: int, length: int)
    requires
        0 <= r <= rows.len(),
    ensures
        phase_a_rows(Err(e), rows, r, length) == Err::<(Seq<Option<char>>, Seq<bool>), Conflict>(e),
    decreases r,
{
    if r > 0 {
        lemma_phase_a_rows_err(e, rows, r - 1, length);
        lemma_phase_a_cols_err(e, rows[r - 1]@, rows[r - 1]@.len() as int, length);
    }
}

/// Count of `c` among the first `t` tiles with a correct or present state.
pub open spec fn count_gy(row: Seq<Tile>, c: char, t: int) -> int
    decreases t,
    when 0 <= t <= row.len()
{
    if t <= 0 {
        0
    } else {
        count_gy(row, c, t - 1) + (match row[t - 1].symbol {
            Some(x) => if x == c && (row[t - 1].state is Correct || row[t - 1].state is Present) {
                1int
            } else {
                0int
            },
            None => 0int,
        })
    }
}

/// Whether `c` occurs on a tile among the first `t`.
pub open spec fn row_has(row: Seq<Tile>, c: char, t: int) -> bool
    decreases t,
    when 0 <= t <= row.len()
{
    if t <= 0 {
        false
    } else {
        row_has(row, c, t - 1) || row[t - 1].symbol == Some(c)
    }
}

/// Whether `c` occurs on an empty-state tile among the first `t`.
pub open spec fn row_has_empty(row: Seq<Tile>, c: char, t: int) -> bool
    decreases t,
    when 0 <= t <= row.len()
{
    if t <= 0 {
        false
    } else {
        row_has_empty(row, c, t - 1) || (row[t - 1].symbol == Some(c) && row[t - 1].state
            is Empty)
    }
}

/// Fold of the per-row counts of one symbol: the running minimum is the
/// largest correct-plus-present count over rows holding the symbol; a row
/// with an empty-state tile of it pins the exact count, and two such rows
/// must agree.
pub open spec fn sym_fold(rows: Seq<Vec<Tile>>, c: char, r: int, length: int) -> Result<
    (int, Option<int>),
    Conflict,
>
    decreases r,
    when 0 <= r <= rows.len()
{
    if r <= 0 {
        Ok((0, None))
    } else {
        match sym_fold(rows, c, r - 1, length) {
            Err(e) => Err(e),
            Ok((mn, ex)) => {
                let row = if rows[r - 1]@.len() > length {
                    rows[r - 1]@.take(length)
                } else {
                    rows[r - 1]@
                };
                if !row_has(row, c, row.len() as int) {
                    Ok((mn, ex))
                } else {
                    let m = count_gy(row, c, row.len() as int);
                    let mn2 = if m > mn {
                        m
                    } else {
                        mn
                    };
                    if row_has_empty(row, c, row.len() as int) {
                        match ex {
                            Some(e) => if e != m {
                                Err(
                                    Conflict::ExactCountsDisagree {
                                        symbol: c,
                                        first: e as usize,
                                        second: m as usize,
                                    },
                                )
                            } else {
                                Ok((mn2, ex))
                            },
                            None => Ok((mn2, Some(m))),
                        }
                    } else {
                        Ok((mn2, ex))
                    }
                }
            },
        }
    }
}

/// The per-symbol counts with the exact-below-minimum cross-check.
pub open spec fn sym_check(rows: Seq<Vec<Tile>>, c: char, length: int) -> Result<
    (int, Option<int>),
    Conflict,
> {
    match sym_fold(rows, c, rows.len() as int, length) {
        Err(e) => Err(e),
        Ok((mn, ex)) => if match ex {
            Some(e) => e < mn,
            None => false,
        } {
            Err(
                Conflict::ExactBelowMin {
                    symbol: c,
                    exact: ex.unwrap() as usize,
                    min: mn as usize,
                },
            )
        } else {
            Ok((mn, ex))
        },
    }
}

/// First conflict among the symbols from alphabet index `a` on.
pub open spec fn phase_b_err(rows: Seq<Vec<Tile>>, a: int, length: int) -> Option<Conflict>
    decreases ALPHABET_LEN - a,
    when 0 <= a <= ALPHABET_LEN
{
    if a >= ALPHABET_LEN {
        None
    } else {
        match sym_check(rows, crate::chars::spec_alpha_char(a), length) {
            Err(e) => Some(e),
            Ok(_) => phase_b_err(rows, a + 1, length),
        }
    }
}

pub open spec fn sym_min(rows: Seq<Vec<Tile>>, c: char, length: int) -> int {
    match sym_fold(rows, c, rows.len() as int, length) {
        Ok((mn, _)) => mn,
        Err(_) => 0,
    }
}

pub open spec fn sym_exact(rows: Seq<Vec<Tile>>, c: char, length: int) -> Option<int> {
    match sym_fold(rows, c, rows.len() as int, length) {
        Ok((_, ex)) => ex,
        Err(_) => None,
    }
}

/// A symbol whose derived exact and minimum counts are both zero never
/// appears in the answer.
pub open spec fn sym_forbidden(rows: Seq<Vec<Tile>>, c: char, length: int) -> bool {
    sym_exact(rows, c, length) == Some(0int) && sym_min(rows, c, length) == 0
}

/// Whether `c` is pinned at some position below `i`.
pub open spec fn pinned_somewhere(fixed: Seq<Option<char>>, c: char, i: int) -> bool
    decreases i,
    when 0 <= i <= fixed.len()
{
    if i <= 0 {
        false
    } else {
        pinned_somewhere(fixed, c, i - 1) || fixed[i - 1] == Some(c)
    }
}

/// The minimum count after pins raise it to at least one.
pub open spec fn sym_min_bumped(
    rows: Seq<Vec<Tile>>,
    fixed: Seq<Option<char>>,
    c: char,
    length: int,
) -> int {
    if pinned_somewhere(fixed, c, fixed.len() as int) {
        if sym_min(rows, c, length) < 1 {
            1
        } else {
            sym_min(rows, c, length)
        }
    } else {
        sym_min(rows, c, length)
    }
}

/// First cross-check conflict at a pinned position at or after `i`.
pub open spec fn phase_c_err(
    fixed: Seq<Option<char>>,
    cannot: Seq<bool>,
    rows: Seq<Vec<Tile>>,
    i: int,
    length: int,
) -> Option<Conflict>
    decreases length - i,
    when 0 <= i <= length
{
    if i >= length {
        None
    } else {
        match fixed[i] {
            None => phase_c_err(fixed, cannot, rows, i + 1, length),
            Some(f) => match spec_alpha_index(f) {
                None => phase_c_err(fixed, cannot, rows, i + 1, length),
                Some(a) => if sym_forbidden(rows, f, length) {
                    Some(Conflict::PinnedForbidden { symbol: f, position: i as usize })
                } else if cannot[i * ALPHABET_LEN + a as int] {
                    Some(Conflict::PinnedExcluded { symbol: f, position: i as usize })
                } else if match sym_exact(rows, f, length) {
                    Some(e) => e < if sym_min(rows, f, length) < 1 {
                        1int
                    } else {
                        sym_min(rows, f, length)
                    },
                    None => false,
                } {
                    Some(
                        Conflict::ExactBelowMin {
                            symbol: f,
                            exact: sym_exact(rows, f, length).unwrap() as usize,
                            min: (if sym_min(rows, f, length) < 1 {
                                1int
                            } else {
                                sym_min(rows, f, length)
                            }) as usize,
                        },
                    )
                } else {
                    phase_c_err(fixed, cannot, rows, i + 1, length)
                },
            },
        }
    }
}

/// Final exact-versus-minimum recheck, from alphabet index `a` on.
pub open spec fn phase_d1_err(
    rows: Seq<Vec<Tile>>,
    fixed: Seq<Option<char>>,
    a: int,
    length: int,
) -> Option<Conflict>
    decreases ALPHABET_LEN - a,
    when 0 <= a <= ALPHABET_LEN
{
    if a >= ALPHABET_LEN {
        None
    } else {
        let c = crate::chars::spec_alpha_char(a);
        if match sym_exact(rows, c, length) {
            Some(e) => e < sym_min_bumped(rows, fixed, c, length),
            None => false,
        } {
            Some(
                Conflict::ExactBelowMin {
                    symbol: c,
                    exact: sym_exact(rows, c, length).unwrap() as usize,
                    min: sym_min_bumped(rows, fixed, c, length) as usize,
                },
            )
        } else {
            phase_d1_err(rows, fixed, a + 1, length)
        }
    }
}

/// Final forbidden-versus-required recheck, from alphabet index `a` on.
pub open spec fn phase_d2_err(
    rows: Seq<Vec<Tile>>,
    fixed: Seq<Option<char>>,
    a: int,
    length: int,
) -> Option<Conflict>
    decreases ALPHABET_LEN - a,
    when 0 <= a <= ALPHABET_LEN
{
    if a >= ALPHABET_LEN {
        None
    } else {
        let c = crate::chars::spec_alpha_char(a);
        if sym_forbidden(rows, c, length) && (sym_min_bumped(rows, fixed, c, length) > 0 || match
            sym_exact(rows, c, length) {
            Some(e) => e > 0,
            None => false,
        }) {
            Some(Conflict::ForbiddenRequired { symbol: c })
        } else {
            phase_d2_err(rows, fixed, a + 1, length)
        }
    }
}

/// The whole constraint compilation: pins and exclusions, per-symbol
/// counts, and the cross-checks, in order; the first conflict wins.
pub open spec fn compile_spec(rows: Seq<Vec<Tile>>, length: int) -> Result<GkModel, Conflict> {
    match phase_a(rows, length) {
        Err(e) => Err(e),
        Ok((fixed, cannot)) => match phase_b_err(rows, 0, length) {
            Some(e) => Err(e),
            None => match phase_c_err(fixed, cannot, rows, 0, length) {
                Some(e) => Err(e),
                None => match phase_d1_err(rows, fixed, 0, length) {
                    Some(e) => Err(e),
                    None => match phase_d2_err(rows, fixed, 0, length) {
                        Some(e) => Err(e),
                        None => Ok(
                            GkModel {
                                fixed: fixed,
                                cannot: cannot,
                                min: Seq::new(
                                    ALPHABET_LEN as nat,
                                    |a: int|
                                        sym_min_bumped(
                                            rows,
                                            fixed,
                                            crate::chars::spec_alpha_char(a),
                                            length,
                                        ),
                                ),
                                exact: Seq::new(
                                    ALPHABET_LEN as nat,
                                    |a: int|
                                        sym_exact(rows, crate::chars::spec_alpha_char(a), length),
                                ),
                                forbidden: Seq::new(
                                    ALPHABET_LEN as nat,
                                    |a: int|
                                        sym_forbidden(
                                            rows,
                                            crate::chars::spec_alpha_char(a),
                                            length,
                                        ),
                                ),
                            },
                        ),
                    },
                },
            },
        },
    }
}

pub open spec fn opt_usize_int(o: Option<usize>) -> Option<int> {
    match o {
        Some(x) => Some(x as int),
        None => None,
    }
}

pub proof fn lemma_phase_a_cols_err_from(
    st: Result<(Seq<Option<char>>, Seq<bool>), Conflict>,
    row: Seq<Tile>,
    t: int,
    u: int,
    length: int,
)
    requires
        0 <= t <= u <= row.len(),
        phase_a_cols(st, row, t, length) is Err,
    ensures
        phase_a_cols(st, row, u, length) == phase_a_cols(st, row, t, length),
    decreases u - t,
{
    if t < u {
        lemma_phase_a_cols_err_from(st, row, t, u - 1, length);
    }
}

pub proof fn lemma_phase_a_rows_err_from(
    st: Result<(Seq<Option<char>>, Seq<bool>), Conflict>,
    rows: Seq<Vec<Tile>>,
    r: int,
    u: int,
    length: int,
)
    requires
        0 <= r <= u <= rows.len(),
        phase_a_rows(st, rows, r, length) is Err,
    ensures
        phase_a_rows(st, rows, u, length) == phase_a_rows(st, rows, r, length),
    decreases u - r,
{
    if r < u {
        lemma_phase_a_rows_err_from(st, rows, r, u - 1, length);
        let prev = phase_a_rows(st, rows, u - 1, length);
        match prev {
            Err(e) => {
                lemma_phase_a_cols_err(e, rows[u - 1]@, rows[u - 1]@.len() as int, length);
            },
            Ok(_) => {},
        }
    }
}

pub proof fn lemma_sym_fold_err_from(rows: Seq<Vec<Tile>>, c: char, t: int, u: int, length: int)
    requires
        0 <= t <= u <= rows.len(),
        sym_fold(rows, c, t, length) is Err,
    ensures
        sym_fold(rows, c, u, length) == sym_fold(rows, c, t, length),
    decreases u - t,
{
    if t < u {
        lemma_sym_fold_err_from(rows, c, t, u - 1, length);
    }
}

pub fn alpha_char(a: usize) -> (c: char)
    requires
        a < ALPHABET_LEN,
    ensures
        c == spec_alpha_char(a as int),
{
    let c = match a {
        0 => '0',
        1 => '1',
        2 => '2',
        3 => '3',
        4 => '4',
        5 => '5',
        6 => '6',
        7 => '7',
        8 => '8',
        9 => '9',
        10 => '+',
        11 => '-',
        12 => '*',
        13 => '/',
        14 => '%',
        15 => '^',
        16 => '=',
        17 => '(',
        18 => ')',
        19 => '!',
        20 => '[',
        21 => ']',
        22 => '>',
        _ => 'A',
    };
    proof {
        assert(spec_alphabet()[a as int] == c);
    }
    c
}

/// Compile feedback rows into knowledge, mirroring `compile_spec`.
#[verifier::rlimit(60)]
pub fn preprocess_constraints(rows: &Vec<Vec<Tile>>, length: usize) -> (r: Result<
    GlobalKnowledge,
    Conflict,
>)
    requires
        1 <= length,
        length * ALPHABET_LEN <= usize::MAX,
    ensures
        (match r {
            Ok(gk) => compile_spec(rows@, length as int) == Ok::<GkModel, Conflict>(gk@) && gk_wf(
                gk@,
                length as int,
            ),
            Err(e) => compile_spec(rows@, length as int) == Err::<GkModel, Conflict>(e),
        }),
{
    let ghost g_rows = rows@;
    let ghost glen = length as int;
    let mut fixed: Vec<Option<char>> = Vec::new();
    let mut i: usize = 0;
    while i < length
        invariant
            0 <= i <= length,
            fixed@.len() == i,
            forall|j: int| 0 <= j < i ==> fixed@[j] is None,
        decreases length - i,
    {
        fixed.push(None);
        i += 1;
    }
    let cap = length * 24;
    let mut cannot: Vec<bool> = Vec::new();
    let mut k: usize = 0;
    while k < cap
        invariant
            0 <= k <= cap == length * 24,
            cannot@.len() == k,
            forall|j: int| 0 <= j < k ==> !cannot@[j],
        decreases cap - k,
    {
        cannot.push(false);
        k += 1;
    }
    proof {
        assert(fixed@ =~= Seq::new(glen as nat, |i: int| None::<char>));
        assert(cannot@ =~= Seq::new((glen * ALPHABET_LEN) as nat, |k: int| false));
        assert(phase_a_init(glen) == Ok::<_, Conflict>((fixed@, cannot@)));
    }
    let mut r: usize = 0;
    while r < rows.len()
        invariant
            0 <= r <= g_rows.len(),
            g_rows == rows@,
            1 <= length,
            length * ALPHABET_LEN <= usize::MAX,
            fixed@.len() == glen == length,
            cannot@.len() == glen * ALPHABET_LEN,
            forall|j: int|
                0 <= j < glen ==> match #[trigger] fixed@[j] {
                    Some(f) => spec_in_alphabet(f),
                    None => true,
                },
            phase_a_rows(phase_a_init(glen), g_rows, r as int, glen) == Ok::<_, Conflict>(
                (fixed@, cannot@),
            ),
        decreases g_rows.len() - r,
    {
        let ghost st_r = phase_a_rows(phase_a_init(glen), g_rows, r as int, glen);
        let row = &rows[r];
        let mut t: usize = 0;
        while t < row.len()
            invariant
                0 <= t <= row@.len(),
                g_rows == rows@,
                row@ == g_rows[r as int]@,
                r < g_rows.len(),
                1 <= length,
                length * ALPHABET_LEN <= usize::MAX,
                fixed@.len() == glen == length,
                cannot@.len() == glen * ALPHABET_LEN,
                forall|j: int|
                    0 <= j < glen ==> match #[trigger] fixed@[j] {
                        Some(f) => spec_in_alphabet(f),
                        None => true,
                    },
                st_r == phase_a_rows(phase_a_init(glen), g_rows, r as int, glen),
                phase_a_cols(st_r, row@, t as int, glen) == Ok::<_, Conflict>((fixed@, cannot@)),
            decreases row@.len() - t,
        {
            let tile = row[t];
            if t < length {
                match tile.symbol {
                    None => {},
                    Some(c) => {
                        match crate::chars::alpha_index(c) {
                            None => {
                                let e = Conflict::SymbolOutsideAlphabet { symbol: c };
                                proof {
                                    assert(phase_a_cols(st_r, row@, t as int + 1, glen) == Err::<
                                        (Seq<Option<char>>, Seq<bool>),
                                        _,
                                    >(e));
                                    lemma_phase_a_cols_err_from(
                                        st_r,
                                        row@,
                                        t as int + 1,
                                        row@.len() as int,
                                        glen,
                                    );
                                    assert(phase_a_rows(phase_a_init(glen), g_rows, r as int + 1, glen)
                                        == Err::<(Seq<Option<char>>, Seq<bool>), _>(e));
                                    lemma_phase_a_rows_err_from(
                                        phase_a_init(glen),
                                        g_rows,
                                        r as int + 1,
                                        g_rows.len() as int,
                                        glen,
                                    );
                                }
                                return Err(e);
                            },
                            Some(a) => {
                                match tile.state {
                                    TileState::Correct => {
                                        match fixed[t] {
                                            Some(f) => {
                                                if f != c {
                                                    let e = Conflict::PositionPinnedTwice {
                                                        position: t,
                                                        first: f,
                                                        second: c,
                                                    };
                                                    proof {
                                                        assert(phase_a_cols(st_r, row@, t as int + 1, glen)
                                                            == Err::<(Seq<Option<char>>, Seq<bool>), _>(e));
                                                        lemma_phase_a_cols_err_from(
                                                            st_r,
                                                            row@,
                                                            t as int + 1,
                                                            row@.len() as int,
                                                            glen,
                                                        );
                                                        lemma_phase_a_rows_err_from(
                                                            phase_a_init(glen),
                                                            g_rows,
                                                            r as int + 1,
                                                            g_rows.len() as int,
                                                            glen,
                                                        );
                                                    }
                                                    return Err(e);
                                                }
                                            },
                                            None => {},
                                        }
                                        let ghost old_cannot = cannot@;
                                        fixed.set(t, Some(c));
                                        let base = t * 24;
                                        let mut j: usize = 0;
                                        while j < 24
                                            invariant
                                                0 <= j <= 24,
                                                a < 24,
                                                t < length,
                                                base == t * 24,
                                                length * ALPHABET_LEN <= usize::MAX,
                                                cannot@.len() == old_cannot.len() == glen
                                                    * ALPHABET_LEN,
                                                glen == length,
                                                forall|m: int|
                                                    0 <= m < cannot@.len() ==> #[trigger] cannot@[m]
                                                        == (if base <= m < base + j && m != base
                                                        + a {
                                                        true
                                                    } else {
                                                        old_cannot[m]
                                                    }),
                                            decreases 24 - j,
                                        {
                                            if j != a {
                                                cannot.set(base + j, true);
                                            }
                                            j += 1;
                                        }
                                        proof {
                                            assert(cannot@ =~= forbid_others(
                                                old_cannot,
                                                t as int,
                                                a as int,
                                            ));
                                        }
                                    },
                                    TileState::Present => {
                                        cannot.set(t * 24 + a, true);
                                    },
                                    TileState::Empty => {
                                        cannot.set(t * 24 + a, true);
                                    },
                                }
                            },
                        }
                    },
                }
            }
            proof {
                assert(row@[t as int] == tile);
                assert(phase_a_cols(st_r, row@, t as int + 1, glen) == Ok::<_, Conflict>(
                    (fixed@, cannot@),
                ));
            }
            t += 1;
        }
        proof {
            assert(phase_a_rows(phase_a_init(glen), g_rows, r as int + 1, glen) == Ok::<
                _,
                Conflict,
            >((fixed@, cannot@)));
        }
        r += 1;
    }
    proof {
        assert(phase_a(g_rows, glen) == Ok::<_, Conflict>((fixed@, cannot@)));
    }
    let ghost g_fixed = fixed@;
    let ghost g_cannot = cannot@;
    let mut minv: Vec<usize> = Vec::new();
    let mut exactv: Vec<Option<usize>> = Vec::new();
    let mut forbv: Vec<bool> = Vec::new();
    let mut a: usize = 0;
    while a < 24
        invariant
            0 <= a <= 24,
            g_rows == rows@,
            glen == length,
            phase_a(g_rows, glen) == Ok::<(Seq<Option<char>>, Seq<bool>), Conflict>(
                (g_fixed, g_cannot),
            ),
            minv@.len() == a,
            exactv@.len() == a,
            forbv@.len() == a,
            phase_b_err(g_rows, 0, glen) == phase_b_err(g_rows, a as int, glen),
            forall|j: int|
                0 <= j < a ==> #[trigger] minv@[j] as int == sym_min(
                    g_rows,
                    spec_alpha_char(j),
                    glen,
                ),
            forall|j: int|
                0 <= j < a ==> #[trigger] opt_usize_int(exactv@[j]) == sym_exact(
                    g_rows,
                    spec_alpha_char(j),
                    glen,
                ),
            forall|j: int|
                0 <= j < a ==> #[trigger] forbv@[j] == sym_forbidden(
                    g_rows,
                    spec_alpha_char(j),
                    glen,
                ),
        decreases 24 - a,
    {
        let c = alpha_char(a);
        let mut mn: usize = 0;
        let mut ex: Option<usize> = None;
        let mut r2: usize = 0;
        while r2 < rows.len()
            invariant
                0 <= r2 <= g_rows.len(),
                g_rows == rows@,
                glen == length,
                phase_a(g_rows, glen) == Ok::<(Seq<Option<char>>, Seq<bool>), Conflict>(
                    (g_fixed, g_cannot),
                ),
                c == spec_alpha_char(a as int),
                a < 24,
                phase_b_err(g_rows, 0, glen) == phase_b_err(g_rows, a as int, glen),
                sym_fold(g_rows, c, r2 as int, glen) == Ok::<_, Conflict>(
                    (mn as int, opt_usize_int(ex)),
                ),
            decreases g_rows.len() - r2,
        {
            let row = &rows[r2];
            let ghost trow = if g_rows[r2 as int]@.len() > glen {
                g_rows[r2 as int]@.take(glen)
            } else {
                g_rows[r2 as int]@
            };
            let lim = if row.len() > length {
                length
            } else {
                row.len()
            };
            proof {
                assert(trow.len() == lim);
            }
            let mut has = false;
            let mut he = false;
            let mut m: usize = 0;
            let mut t2: usize = 0;
            while t2 < lim
                invariant
                    0 <= t2 <= lim == trow.len(),
                    glen == length,
                    trow == (if g_rows[r2 as int]@.len() > glen {
                        g_rows[r2 as int]@.take(glen)
                    } else {
                        g_rows[r2 as int]@
                    }),
                    row@ == g_rows[r2 as int]@,
                    r2 < g_rows.len(),
                    has == row_has(trow, c, t2 as int),
                    he == row_has_empty(trow, c, t2 as int),
                    m <= t2,
                    m as int == count_gy(trow, c, t2 as int),
                decreases lim - t2,
            {
                let tile = row[t2];
                let is_c = match tile.symbol {
                    Some(x) => x == c,
                    None => false,
                };
                if is_c {
                    has = true;
                    let gy = match tile.state {
                        TileState::Correct => true,
                        TileState::Present => true,
                        TileState::Empty => false,
                    };
                    if gy {
                        m += 1;
                    }
                    let emp = match tile.state {
                        TileState::Empty => true,
                        _ => false,
                    };
                    if emp {
                        he = true;
                    }
                }
                proof {
                    assert(trow[t2 as int] == tile);
                }
                t2 += 1;
            }
            if has {
                let mn2 = if m > mn {
                    m
                } else {
                    mn
                };
                if he {
                    match ex {
                        Some(e0) => {
                            if e0 != m {
                                let e = Conflict::ExactCountsDisagree {
                                    symbol: c,
                                    first: e0,
                                    second: m,
                                };
                                proof {
                                    assert(sym_fold(g_rows, c, r2 as int + 1, glen) == Err::<
                                        (int, Option<int>),
                                        _,
                                    >(e));
                                    lemma_sym_fold_err_from(
                                        g_rows,
                                        c,
                                        r2 as int + 1,
                                        g_rows.len() as int,
                                        glen,
                                    );
                                    assert(sym_check(g_rows, c, glen) == Err::<
                                        (int, Option<int>),
                                        _,
                                    >(e));
                                    assert(phase_b_err(g_rows, a as int, glen) == Some(e));
                                    assert(compile_spec(g_rows, glen) == Err::<GkModel, _>(e));
                                }
                                return Err(e);
                            }
                            mn = mn2;
                        },
                        None => {
                            ex = Some(m);
                            mn = mn2;
                        },
                    }
                } else {
                    mn = mn2;
                }
            }
            proof {
                assert(sym_fold(g_rows, c, r2 as int + 1, glen) == Ok::<_, Conflict>(
                    (mn as int, opt_usize_int(ex)),
                ));
            }
            r2 += 1;
        }
        match ex {
            Some(e0) => {
                if e0 < mn {
                    let e = Conflict::ExactBelowMin { symbol: c, exact: e0, min: mn };
                    proof {
                        assert(sym_check(g_rows, c, glen) == Err::<(int, Option<int>), _>(e));
                        assert(phase_b_err(g_rows, a as int, glen) == Some(e));
                        assert(compile_spec(g_rows, glen) == Err::<GkModel, _>(e));
                    }
                    return Err(e);
                }
            },
            None => {},
        }
        proof {
            assert(sym_check(g_rows, c, glen) == Ok::<_, Conflict>(
                (mn as int, opt_usize_int(ex)),
            ));
            assert(phase_b_err(g_rows, a as int, glen) == phase_b_err(g_rows, a as int + 1, glen));
        }
        minv.push(mn);
        exactv.push(ex);
        let fb = match ex {
            Some(x) => x == 0 && mn == 0,
            None => false,
        };
        proof {
            assert(fb == sym_forbidden(g_rows, c, glen));
        }
        forbv.push(fb);
        a += 1;
    }
    proof {
        assert(phase_b_err(g_rows, 0, glen) is None);
    }
    let mut i2: usize = 0;
    while i2 < length
        invariant
            0 <= i2 <= length,
            g_rows == rows@,
            glen == length,
            1 <= length,
            length * ALPHABET_LEN <= usize::MAX,
            fixed@ == g_fixed,
            cannot@ == g_cannot,
            fixed@.len() == glen,
            cannot@.len() == glen * ALPHABET_LEN,
            minv@.len() == 24,
            exactv@.len() == 24,
            forbv@.len() == 24,
            forall|j: int|
                0 <= j < glen ==> match #[trigger] fixed@[j] {
                    Some(f) => spec_in_alphabet(f),
                    None => true,
                },
            phase_a(g_rows, glen) == Ok::<_, Conflict>((g_fixed, g_cannot)),
            phase_b_err(g_rows, 0, glen) is None,
            phase_c_err(g_fixed, g_cannot, g_rows, 0, glen) == phase_c_err(
                g_fixed,
                g_cannot,
                g_rows,
                i2 as int,
                glen,
            ),
            forall|j: int|
                0 <= j < 24 ==> #[trigger] minv@[j] as int == (if pinned_somewhere(
                    g_fixed,
                    spec_alpha_char(j),
                    i2 as int,
                ) {
                    if sym_min(g_rows, spec_alpha_char(j), glen) < 1 {
                        1int
                    } else {
                        sym_min(g_rows, spec_alpha_char(j), glen)
                    }
                } else {
                    sym_min(g_rows, spec_alpha_char(j), glen)
                }),
            forall|j: int|
                0 <= j < 24 ==> #[trigger] opt_usize_int(exactv@[j]) == sym_exact(
                    g_rows,
                    spec_alpha_char(j),
                    glen,
                ),
            forall|j: int|
                0 <= j < 24 ==> #[trigger] forbv@[j] == sym_forbidden(
                    g_rows,
                    spec_alpha_char(j),
                    glen,
                ),
        decreases length - i2,
    {
        match fixed[i2] {
            None => {},
            Some(f) => {
                let af = match crate::chars::alpha_index(f) {
                    Some(af) => af,
                    None => {
                        proof {
                            assert(false);
                        }
                        0
                    },
                };
                proof {
                    crate::chars::lemma_alpha_index_of_alphabet();
                    assert(af < 24);
                    assert(spec_alpha_char(af as int) == f) by {
                        crate::chars::lemma_alpha_char_index(af as int);
                        assert(spec_alpha_index(spec_alpha_char(af as int)) == Some(af));
                        assert(spec_alpha_index(f) == Some(af));
                        lemma_alpha_index_injective(f, spec_alpha_char(af as int));
                    }
                }
                proof {
                    assert(opt_usize_int(exactv@[af as int]) == sym_exact(
                        g_rows,
                        spec_alpha_char(af as int),
                        glen,
                    ));
                    assert(minv@[af as int] as int == (if pinned_somewhere(
                        g_fixed,
                        spec_alpha_char(af as int),
                        i2 as int,
                    ) {
                        if sym_min(g_rows, spec_alpha_char(af as int), glen) < 1 {
                            1int
                        } else {
                            sym_min(g_rows, spec_alpha_char(af as int), glen)
                        }
                    } else {
                        sym_min(g_rows, spec_alpha_char(af as int), glen)
                    }));
                    assert(forbv@[af as int] == sym_forbidden(
                        g_rows,
                        spec_alpha_char(af as int),
                        glen,
                    ));
                }
                if forbv[af] {
                    let e = Conflict::PinnedForbidden { symbol: f, position: i2 };
                    proof {
                        assert(phase_c_err(g_fixed, g_cannot, g_rows, i2 as int, glen) == Some(e));
                        assert(compile_spec(g_rows, glen) == Err::<GkModel, _>(e));
                    }
                    return Err(e);
                }
                if cannot[i2 * 24 + af] {
                    let e = Conflict::PinnedExcluded { symbol: f, position: i2 };
                    proof {
                        assert(phase_c_err(g_fixed, g_cannot, g_rows, i2 as int, glen) == Some(e));
                        assert(compile_spec(g_rows, glen) == Err::<GkModel, _>(e));
                    }
                    return Err(e);
                }
                let cur = minv[af];
                let bumped = if cur < 1 {
                    1
                } else {
                    cur
                };
                minv.set(af, bumped);
                match exactv[af] {
                    Some(e0) => {
                        if e0 < bumped {
                            let e = Conflict::ExactBelowMin { symbol: f, exact: e0, min: bumped };
                            proof {
                                assert(phase_c_err(g_fixed, g_cannot, g_rows, i2 as int, glen)
                                    == Some(e));
                                assert(compile_spec(g_rows, glen) == Err::<GkModel, _>(e));
                            }
                            return Err(e);
                        }
                    },
                    None => {},
                }
                proof {
                    assert(phase_c_err(g_fixed, g_cannot, g_rows, i2 as int, glen) == phase_c_err(
                        g_fixed,
                        g_cannot,
                        g_rows,
                        i2 as int + 1,
                        glen,
                    ));
                }
            },
        }
        proof {
            assert(g_fixed[i2 as int] == fixed@[i2 as int]);
            assert forall|j: int| 0 <= j < 24 implies #[trigger] minv@[j] as int == (if
                pinned_somewhere(g_fixed, spec_alpha_char(j), i2 as int + 1) {
                if sym_min(g_rows, spec_alpha_char(j), glen) < 1 {
                    1int
                } else {
                    sym_min(g_rows, spec_alpha_char(j), glen)
                }
            } else {
                sym_min(g_rows, spec_alpha_char(j), glen)
            }) by {
                match g_fixed[i2 as int] {
                    Some(f2) => {
                        crate::chars::lemma_alpha_char_index(j);
                        if spec_alpha_char(j) != f2 {
                            assert(pinned_somewhere(g_fixed, spec_alpha_char(j), i2 as int + 1)
                                == pinned_somewhere(g_fixed, spec_alpha_char(j), i2 as int));
                        }
                    },
                    None => {},
                }
            }
            if fixed@[i2 as int] is None {
                assert(phase_c_err(g_fixed, g_cannot, g_rows, i2 as int, glen) == phase_c_err(
                    g_fixed,
                    g_cannot,
                    g_rows,
                    i2 as int + 1,
                    glen,
                ));
            }
        }
        i2 += 1;
    }
    proof {
        assert(phase_c_err(g_fixed, g_cannot, g_rows, 0, glen) is None);
    }
    let mut a2: usize = 0;
    while a2 < 24
        invariant
            0 <= a2 <= 24,
            g_rows == rows@,
            glen == length,
            phase_a(g_rows, glen) == Ok::<(Seq<Option<char>>, Seq<bool>), Conflict>(
                (g_fixed, g_cannot),
            ),
            phase_b_err(g_rows, 0, glen) is None,
            phase_c_err(g_fixed, g_cannot, g_rows, 0, glen) is None,
            minv@.len() == 24,
            exactv@.len() == 24,
            forbv@.len() == 24,
            phase_d1_err(g_rows, g_fixed, 0, glen) == phase_d1_err(
                g_rows,
                g_fixed,
                a2 as int,
                glen,
            ),
            forall|j: int|
                0 <= j < 24 ==> #[trigger] minv@[j] as int == sym_min_bumped(
                    g_rows,
                    g_fixed,
                    spec_alpha_char(j),
                    glen,
                ),
            forall|j: int|
                0 <= j < 24 ==> #[trigger] opt_usize_int(exactv@[j]) == sym_exact(
                    g_rows,
                    spec_alpha_char(j),
                    glen,
                ),
            forall|j: int|
                0 <= j < 24 ==> #[trigger] forbv@[j] == sym_forbidden(
                    g_rows,
                    spec_alpha_char(j),
                    glen,
                ),
            g_fixed.len() == glen,
        decreases 24 - a2,
    {
        proof {
            assert(opt_usize_int(exactv@[a2 as int]) == sym_exact(
                g_rows,
                spec_alpha_char(a2 as int),
                glen,
            ));
            assert(minv@[a2 as int] as int == sym_min_bumped(
                g_rows,
                g_fixed,
                spec_alpha_char(a2 as int),
                glen,
            ));
        }
        match exactv[a2] {
            Some(e0) => {
                if e0 < minv[a2] {
                    let e = Conflict::ExactBelowMin {
                        symbol: alpha_char(a2),
                        exact: e0,
                        min: minv[a2],
                    };
                    proof {
                        assert(phase_d1_err(g_rows, g_fixed, a2 as int, glen) == Some(e));
                        assert(compile_spec(g_rows, glen) == Err::<GkModel, _>(e));
                    }
                    return Err(e);
                }
            },
            None => {},
        }
        proof {
            assert(phase_d1_err(g_rows, g_fixed, a2 as int, glen) == phase_d1_err(
                g_rows,
                g_fixed,
                a2 as int + 1,
                glen,
            ));
        }
        a2 += 1;
    }
    let mut a3: usize = 0;
    while a3 < 24
        invariant
            0 <= a3 <= 24,
            g_rows == rows@,
            glen == length,
            phase_a(g_rows, glen) == Ok::<(Seq<Option<char>>, Seq<bool>), Conflict>(
                (g_fixed, g_cannot),
            ),
            phase_b_err(g_rows, 0, glen) is None,
            phase_c_err(g_fixed, g_cannot, g_rows, 0, glen) is None,
            minv@.len() == 24,
            exactv@.len() == 24,
            forbv@.len() == 24,
            phase_d1_err(g_rows, g_fixed, 0, glen) is None,
            phase_d2_err(g_rows, g_fixed, 0, glen) == phase_d2_err(
                g_rows,
                g_fixed,
                a3 as int,
                glen,
            ),
            forall|j: int|
                0 <= j < 24 ==> #[trigger] minv@[j] as int == sym_min_bumped(
                    g_rows,
                    g_fixed,
                    spec_alpha_char(j),
                    glen,
                ),
            forall|j: int|
                0 <= j < 24 ==> #[trigger] opt_usize_int(exactv@[j]) == sym_exact(
                    g_rows,
                    spec_alpha_char(j),
                    glen,
                ),
            forall|j: int|
                0 <= j < 24 ==> #[trigger] forbv@[j] == sym_forbidden(
                    g_rows,
                    spec_alpha_char(j),
                    glen,
                ),
            g_fixed.len() == glen,
        decreases 24 - a3,
    {
        proof {
            assert(opt_usize_int(exactv@[a3 as int]) == sym_exact(
                g_rows,
                spec_alpha_char(a3 as int),
                glen,
            ));
            assert(minv@[a3 as int] as int == sym_min_bumped(
                g_rows,
                g_fixed,
                spec_alpha_char(a3 as int),
                glen,
            ));
            assert(forbv@[a3 as int] == sym_forbidden(
                g_rows,
                spec_alpha_char(a3 as int),
                glen,
            ));
        }
        let positive_exact = match exactv[a3] {
            Some(x) => x > 0,
            None => false,
        };
        if forbv[a3] && (minv[a3] > 0 || positive_exact) {
            let e = Conflict::ForbiddenRequired { symbol: alpha_char(a3) };
            proof {
                assert(phase_d2_err(g_rows, g_fixed, a3 as int, glen) == Some(e));
                assert(compile_spec(g_rows, glen) == Err::<GkModel, _>(e));
            }
            return Err(e);
        }
        proof {
            assert(phase_d2_err(g_rows, g_fixed, a3 as int, glen) == phase_d2_err(
                g_rows,
                g_fixed,
                a3 as int + 1,
                glen,
            ));
        }
        a3 += 1;
    }
    let gk = GlobalKnowledge {
        fixed_chars: fixed,
        cannot_be_at: cannot,
        must_appear_min_count: minv,
        must_appear_exact_count: exactv,
        globally_forbidden: forbv,
    };
    proof {
        assert(gk@.min =~= Seq::new(
            ALPHABET_LEN as nat,
            |a: int| sym_min_bumped(g_rows, g_fixed, spec_alpha_char(a), glen),
        ));
        assert forall|j: int| 0 <= j < ALPHABET_LEN implies gk@.exact[j] == Seq::new(
            ALPHABET_LEN as nat,
            |a: int| sym_exact(g_rows, spec_alpha_char(a), glen),
        )[j] by {
            assert(opt_usize_int(exactv@[j]) == sym_exact(g_rows, spec_alpha_char(j), glen));
        }
        assert(gk@.exact =~= Seq::new(
            ALPHABET_LEN as nat,
            |a: int| sym_exact(g_rows, spec_alpha_char(a), glen),
        ));
        assert(gk@.forbidden =~= Seq::new(
            ALPHABET_LEN as nat,
            |a: int| sym_forbidden(g_rows, spec_alpha_char(a), glen),
        ));
        assert(compile_spec(g_rows, glen) == Ok::<GkModel, Conflict>(gk@));
        assert(gk_wf(gk@, glen));
    }
    Ok(gk)
}

/// Distinct alphabet symbols have distinct indices.
pub proof fn lemma_alpha_index_injective(x: char, y: char)
    requires
        spec_alpha_index(x) is Some,
        spec_alpha_index(x) == spec_alpha_index(y),
    ensures
        x == y,
{
}

} // verus!

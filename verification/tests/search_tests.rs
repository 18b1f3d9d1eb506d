use sumzle::{SumzleSolver, Tile, TileState, Conflict};

fn tile(c: char, state: TileState) -> Tile {
    Tile { symbol: Some(c), state }
}

fn blank() -> Tile {
    Tile { symbol: None, state: TileState::Present }
}

fn has_leading_zero_token(s: &str) -> bool {
    let cs: Vec<char> = s.chars().collect();
    for i in 0..cs.len() {
        if cs[i] == '0' && i + 1 < cs.len() && cs[i + 1].is_ascii_digit() && (i == 0
            || !cs[i - 1].is_ascii_digit()) {
            return true;
        }
    }
    false
}

#[test]
fn unconstrained_short_search_is_sound() {
    let solver = SumzleSolver::new(3, 1000);
    let results = solver.search(&vec![]);
    assert!(!results.is_empty());
    for r in &results {
        assert_eq!(r.chars().count(), 3);
        assert!(solver.is_valid_solution(r));
        assert!(!has_leading_zero_token(r));
    }
    for i in 0..results.len() {
        for j in (i + 1)..results.len() {
            assert_ne!(results[i], results[j]);
        }
    }
    assert!(results.iter().any(|r| r == "1=1"));
    assert!(results.iter().any(|r| r == "2>1"));
    assert!(!results.iter().any(|r| r == "1=2"));
}

#[test]
fn five_symbol_search_results_are_valid_and_distinct() {
    let solver = SumzleSolver::new(5, 100);
    let results = solver.search(&vec![]);
    assert!(!results.is_empty());
    for r in &results {
        assert_eq!(r.chars().count(), 5);
        assert!(solver.is_valid_solution(r));
        assert!(!has_leading_zero_token(r));
        let top_level: Vec<char> = r.chars().filter(|c| *c == '=' || *c == '>').collect();
        assert!(!top_level.is_empty());
    }
    for i in 0..results.len() {
        for j in (i + 1)..results.len() {
            assert_ne!(results[i], results[j]);
        }
    }
    assert!(results.iter().any(|r| r == "1+2=3"));
}

#[test]
fn search_is_idempotent() {
    let solver = SumzleSolver::new(4, 50);
    let feedback = vec![vec![tile('1', TileState::Correct), blank(), blank(), blank()]];
    let first = solver.search(&feedback);
    let second = solver.search(&feedback);
    assert_eq!(first, second);
}

#[test]
fn pinned_position_is_respected() {
    let solver = SumzleSolver::new(3, 50);
    let feedback = vec![vec![tile('2', TileState::Correct)]];
    let results = solver.search(&feedback);
    assert!(!results.is_empty());
    for r in &results {
        assert_eq!(r.chars().next(), Some('2'));
        assert!(solver.is_valid_solution(r));
    }
    assert!(results.iter().any(|r| r == "2=2"));
}

#[test]
fn exact_count_is_respected() {
    let solver = SumzleSolver::new(3, 50);
    let feedback = vec![vec![tile('2', TileState::Correct), tile('2', TileState::Empty)]];
    let results = solver.search(&feedback);
    assert!(!results.is_empty());
    for r in &results {
        assert_eq!(r.chars().filter(|c| *c == '2').count(), 1);
        assert_eq!(r.chars().next(), Some('2'));
        assert_ne!(r.chars().nth(1), Some('2'));
    }
    assert!(results.iter().any(|r| r == "2>1"));
}

#[test]
fn forbidden_symbol_never_appears() {
    let solver = SumzleSolver::new(3, 50);
    let feedback = vec![vec![blank(), tile('=', TileState::Empty), blank()]];
    let results = solver.search(&feedback);
    assert!(!results.is_empty());
    for r in &results {
        assert!(!r.contains('='));
        assert!(solver.is_valid_solution(r));
    }
    assert!(results.iter().any(|r| r == "2>1"));
}

#[test]
fn minimum_count_is_respected() {
    let solver = SumzleSolver::new(3, 50);
    let feedback = vec![vec![blank(), tile('3', TileState::Present), blank()]];
    let results = solver.search(&feedback);
    assert!(!results.is_empty());
    for r in &results {
        assert!(r.chars().filter(|c| *c == '3').count() >= 1);
        assert_ne!(r.chars().nth(1), Some('3'));
    }
}

#[test]
fn conflicting_pins_give_empty_search() {
    let solver = SumzleSolver::new(3, 50);
    let feedback = vec![
        vec![tile('5', TileState::Correct)],
        vec![tile('6', TileState::Correct)],
    ];
    let results = solver.search(&feedback);
    assert!(results.is_empty());
    let compiled = solver.preprocess_constraints(&feedback);
    assert!(matches!(
        compiled,
        Err(Conflict::PositionPinnedTwice { position: 0, first: '5', second: '6' })
    ));
}

#[test]
fn disagreeing_exact_counts_conflict() {
    let solver = SumzleSolver::new(3, 50);
    let feedback = vec![
        vec![tile('+', TileState::Present), tile('+', TileState::Empty)],
        vec![tile('+', TileState::Empty)],
    ];
    let compiled = solver.preprocess_constraints(&feedback);
    assert!(matches!(compiled, Err(Conflict::ExactCountsDisagree { symbol: '+', .. })));
    assert!(solver.search(&feedback).is_empty());
}

#[test]
fn pinned_but_excluded_symbol_conflicts() {
    let solver = SumzleSolver::new(3, 50);
    let feedback = vec![
        vec![tile('5', TileState::Present)],
        vec![tile('5', TileState::Correct)],
    ];
    let compiled = solver.preprocess_constraints(&feedback);
    assert!(matches!(
        compiled,
        Err(Conflict::PinnedExcluded { symbol: '5', position: 0 })
    ));
}

#[test]
fn symbol_outside_alphabet_conflicts() {
    let solver = SumzleSolver::new(3, 50);
    let feedback = vec![vec![tile('x', TileState::Present)]];
    let compiled = solver.preprocess_constraints(&feedback);
    assert!(matches!(compiled, Err(Conflict::SymbolOutsideAlphabet { symbol: 'x' })));
    assert!(solver.search(&feedback).is_empty());
}

#[test]
fn tiles_beyond_length_are_ignored() {
    let solver = SumzleSolver::new(3, 50);
    let feedback = vec![vec![blank(), blank(), blank(), tile('5', TileState::Correct)]];
    let results = solver.search(&feedback);
    let unconstrained = solver.search(&vec![]);
    assert_eq!(results, unconstrained);
}

#[test]
fn pinned_floor_bracket_equation_found() {
    let solver = SumzleSolver::new(7, 50);
    let feedback = vec![vec![
        tile('[', TileState::Correct),
        tile('4', TileState::Correct),
        tile('/', TileState::Correct),
        tile('2', TileState::Correct),
        tile(']', TileState::Correct),
        tile('=', TileState::Correct),
    ]];
    let results = solver.search(&feedback);
    assert_eq!(results, vec!["[4/2]=2".to_string()]);
}

#[test]
fn pinned_factorial_equation_found() {
    let solver = SumzleSolver::new(4, 50);
    let feedback = vec![vec![
        tile('3', TileState::Correct),
        tile('!', TileState::Correct),
        tile('=', TileState::Correct),
    ]];
    let results = solver.search(&feedback);
    assert_eq!(results, vec!["3!=6".to_string()]);
}

#[test]
fn pinned_permutation_equation_found() {
    let solver = SumzleSolver::new(6, 50);
    let feedback = vec![vec![
        tile('4', TileState::Correct),
        tile('A', TileState::Correct),
        tile('2', TileState::Correct),
        tile('=', TileState::Correct),
    ]];
    let results = solver.search(&feedback);
    assert_eq!(results, vec!["4A2=12".to_string()]);
}

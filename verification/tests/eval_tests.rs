use sumzle::SumzleSolver;

fn solver() -> SumzleSolver {
    SumzleSolver::new(5, 1000000)
}

#[test]
fn floor_bracket_division_floors() {
    assert_eq!(solver().evaluate_expression("[7/2]"), Some(3));
}

#[test]
fn floor_bracket_plain_number() {
    assert_eq!(solver().evaluate_expression("[5]"), Some(5));
}

#[test]
fn floor_bracket_division_by_zero_fails() {
    assert_eq!(solver().evaluate_expression("[7/0]"), None);
}

#[test]
fn factorial_small_value() {
    assert_eq!(solver().evaluate_expression("4!"), Some(24));
}

#[test]
fn factorial_of_zero_via_probe() {
    assert_eq!(solver().evaluate_expression("0!"), Some(1));
}

#[test]
fn factorial_above_cap_fails() {
    assert_eq!(solver().evaluate_expression("13!"), None);
}

#[test]
fn factorial_at_cap() {
    assert_eq!(solver().evaluate_expression("12!"), Some(479001600));
}

#[test]
fn permutation_value() {
    assert_eq!(solver().evaluate_expression("5A2"), Some(20));
}

#[test]
fn permutation_needs_n_at_most_m() {
    assert_eq!(solver().evaluate_expression("2A5"), None);
}

#[test]
fn permutation_above_cap_fails() {
    assert_eq!(solver().evaluate_expression("11A2"), None);
}

#[test]
fn plain_arithmetic() {
    assert_eq!(solver().evaluate_expression("1+2*3"), Some(7));
    assert_eq!(solver().evaluate_expression("(1+2)*3"), Some(9));
    assert_eq!(solver().evaluate_expression("2^3"), Some(8));
    assert_eq!(solver().evaluate_expression("7%4"), Some(3));
}

#[test]
fn non_integer_result_fails() {
    assert_eq!(solver().evaluate_expression("7/2"), None);
    assert_eq!(solver().evaluate_expression("10/2"), Some(5));
}

#[test]
fn empty_expression_fails() {
    assert_eq!(solver().evaluate_expression(""), None);
}

#[test]
fn leading_zero_numeral_fails() {
    assert_eq!(solver().evaluate_expression("05"), None);
    assert_eq!(solver().evaluate_expression("1+02"), None);
}

#[test]
fn nan_text_fails() {
    assert_eq!(solver().evaluate_expression("NaN"), None);
}

#[test]
fn nested_floor_brackets_fail() {
    assert_eq!(solver().evaluate_expression("[[4]]"), None);
}

#[test]
fn floor_bracket_with_operator_inside_fails() {
    assert_eq!(solver().evaluate_expression("[1+2]"), None);
}

#[test]
fn reductions_compose() {
    assert_eq!(solver().evaluate_expression("[7/2]!"), Some(6));
    assert_eq!(solver().evaluate_expression("3!+4A2"), Some(18));
}

#[test]
fn valid_equation_simple() {
    assert!(solver().is_valid_solution("1+2=3"));
    assert!(!solver().is_valid_solution("1+2=4"));
}

#[test]
fn valid_inequality() {
    assert!(solver().is_valid_solution("5>4"));
    assert!(!solver().is_valid_solution("4>5"));
}

#[test]
fn equation_with_floor_bracket() {
    assert!(solver().is_valid_solution("[7/2]=3"));
}

#[test]
fn equation_needs_main_operator() {
    assert!(!solver().is_valid_solution("1+2"));
}

#[test]
fn conflicting_main_operators_rejected() {
    assert!(!solver().is_valid_solution("1=2>3"));
}

#[test]
fn greater_then_equal_splits_sides_unevaluably() {
    assert!(!solver().is_valid_solution("5>=4"));
}

#[test]
fn unbalanced_brackets_rejected() {
    assert!(!solver().is_valid_solution("(1+2=3"));
    assert!(!solver().is_valid_solution("1+2)=3"));
}

#[test]
fn main_operator_not_at_edge() {
    assert!(!solver().is_valid_solution("=3"));
    assert!(!solver().is_valid_solution("3="));
}

#[test]
fn negative_right_side() {
    assert!(solver().is_valid_solution("5-6=-1"));
    assert_eq!(solver().evaluate_expression("5-6"), Some(-1));
    assert_eq!(solver().evaluate_expression("-1"), Some(-1));
}

#[test]
fn fractional_exponent_with_integral_value() {
    assert_eq!(solver().evaluate_expression("4^(1/2)"), Some(2));
    assert_eq!(solver().evaluate_expression("2^(1/2)"), None);
}

#[test]
fn out_of_range_result_fails() {
    assert_eq!(solver().evaluate_expression("9^9*9^9"), None);
    assert_eq!(solver().evaluate_expression("2^30"), Some(1073741824));
}

#[test]
fn whitespace_only_expression_fails() {
    assert_eq!(solver().evaluate_expression(" "), None);
    assert_eq!(solver().evaluate_expression(" \t\r\n"), None);
    assert!(!solver().is_valid_solution(" = "));
}

#[test]
fn surrounding_whitespace_is_tolerated() {
    assert_eq!(solver().evaluate_expression(" 1+2 "), Some(3));
}

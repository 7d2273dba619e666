use simplify_truths::expression::Expression;
use simplify_truths::expression::BinaryOperator;

fn atomic(s: &str) -> Expression {
    simplify_truths::expression::atomic(s)
}

fn not(e: Expression) -> Expression {
    simplify_truths::expression::not(e)
}

fn and(l: Expression, r: Expression) -> Expression {
    simplify_truths::expression::and(l, r)
}

fn or(l: Expression, r: Expression) -> Expression {
    simplify_truths::expression::or(l, r)
}

fn implies(l: Expression, r: Expression) -> Expression {
    simplify_truths::expression::binary(l, BinaryOperator::Implication, r)
}

#[test]
fn test_eq_ignore_case_atomics() {
    let expression_lower = atomic("a");
    let expression_upper = atomic("A");
    assert!(expression_lower.eq(&expression_upper, true));
}

#[test]
fn test_eq_ignore_case_not() {
    let expression_lower = not(atomic("a"));
    let expression_upper = not(atomic("A"));
    assert!(expression_lower.eq(&expression_upper, true));
}

#[test]
fn test_eq_ignore_case_and() {
    let expression_lower = and(atomic("a"), atomic("b"));
    let expression_upper = and(atomic("A"), atomic("B"));
    assert!(expression_lower.eq(&expression_upper, true));
}

#[test]
fn test_eq_ignore_case_equal() {
    let expression_lower = or(atomic("a"), atomic("b"));
    let expression_upper = or(atomic("a"), atomic("b"));
    assert!(expression_lower.eq(&expression_upper, true));
}

#[test]
fn test_eq_ignore_case_unequal() {
    let expression_lower = or(atomic("a"), atomic("b"));
    let expression_upper = or(atomic("a"), atomic("c"));
    assert!(!expression_lower.eq(&expression_upper, true));
}

#[test]
fn test_eq_dont_ignore_case() {
    let expression_lower = or(atomic("a"), atomic("b"));
    let expression_upper = or(atomic("a"), atomic("B"));
    assert!(!expression_lower.eq(&expression_upper, false));
}

#[test]
fn test_expression_a_and_not_b_display() {
    let expression = and(atomic("a"), not(atomic("b")));
    assert_eq!(expression.render(), "a \u{22c0} \u{ac}b");
}

#[test]
fn test_expression_a_or_b_and_c_display() {
    let expression = or(atomic("a"), and(atomic("b"), atomic("c")));
    assert_eq!(expression.render(), "a \u{22c1} b \u{22c0} c");
}

#[test]
fn test_expression_a_or_b() {
    let expression = or(atomic("a"), atomic("b"));
    assert_eq!(expression.render(), "a \u{22c1} b");
}

#[test]
fn test_expression_double_or() {
    let expression = or(atomic("a"), or(atomic("b"), atomic("c")));
    assert_eq!(expression.render(), "a \u{22c1} b \u{22c1} c");
}

#[test]
fn test_expression_triple_or() {
    let expression = or(atomic("a"), or(atomic("b"), or(atomic("c"), atomic("d"))));
    assert_eq!(expression.render(), "a \u{22c1} b \u{22c1} c \u{22c1} d");
}

#[test]
fn test_expression_nested_parenthesized_or() {
    let expression = or(atomic("a"), and(atomic("b"), or(atomic("b"), atomic("c"))));
    assert_eq!(expression.render(), "a \u{22c1} b \u{22c0} (b \u{22c1} c)");
}

#[test]
fn test_expression_c_and_a_or_b_display() {
    let expression = and(or(atomic("a"), atomic("b")), atomic("c"));
    assert_eq!(expression.render(), "(a \u{22c1} b) \u{22c0} c");
}

#[test]
fn test_expression_a_implies_b_display() {
    let expression = implies(atomic("a"), atomic("b"));
    assert_eq!(expression.render(), "a \u{2794} b");
}

#[test]
fn test_expression_not_a_and_b_display() {
    let expression = not(and(atomic("a"), atomic("b")));
    assert_eq!(expression.render(), "\u{ac}(a \u{22c0} b)");
}

#[test]
fn test_from_str_into_expression_atomic() {
    let expression: Expression = Expression::try_from("a").unwrap();
    assert_eq!(expression, atomic("a"));
}

#[test]
fn test_from_str_into_expression_not() {
    let expression: Expression = Expression::try_from("!a").unwrap();
    assert_eq!(expression, not(atomic("a")));
}

#[test]
fn test_from_str_into_expression_and() {
    let expression: Expression = Expression::try_from("a & b").unwrap();
    assert_eq!(expression, and(atomic("a"), atomic("b")));
}

#[test]
fn test_from_str_into_expression_or() {
    let expression: Expression = Expression::try_from("a | b").unwrap();
    assert_eq!(expression, or(atomic("a"), atomic("b")));
}

#[test]
fn test_from_str_into_expression_implies() {
    let expression: Expression = Expression::try_from("a => b").unwrap();
    assert_eq!(expression, implies(atomic("a"), atomic("b")));
}

#[test]
fn test_from_str_into_expression_complex() {
    let expression: Expression = Expression::try_from("a & b | c").unwrap();
    assert_eq!(expression, or(and(atomic("a"), atomic("b")), atomic("c")));
}

#[test]
fn test_from_str_into_expression_complex_parentheses() {
    let expression: Expression = Expression::try_from("a & (b | c)").unwrap();
    assert_eq!(expression, and(atomic("a"), or(atomic("b"), atomic("c"))));
}

#[test]
fn test_from_str_into_expression_very_complex_parentheses() {
    let expression: Expression = Expression::try_from("(a & b) | c => (d & e)").unwrap();
    assert_eq!(
        expression,
        implies(
            or(and(atomic("a"), atomic("b")), atomic("c")),
            and(atomic("d"), atomic("e"))
        )
    );
}

#[test]
fn test_from_str_into_expression_empty() {
    assert!(Expression::try_from("").is_err());
}

use simplify_truths::expression::BinaryOperator;
use simplify_truths::expression::Expression;
use simplify_truths::errors::ErrorKind;
use simplify_truths::parser::parse_expression;

fn atomic(s: &str) -> Expression {
    simplify_truths::expression::atomic(s)
}

fn not(e: Expression) -> Expression {
    simplify_truths::expression::not(e)
}

fn and(l: Expression, r: Expression) -> Expression {
    simplify_truths::expression::and(l, r)
}

fn or(l: Expression, r: Expression) -> Expression {
    simplify_truths::expression::or(l, r)
}

fn implies(l: Expression, r: Expression) -> Expression {
    simplify_truths::expression::binary(l, BinaryOperator::Implication, r)
}

#[test]
fn test_parse() {
    let input = "a & b => c";
    let result = parse_expression(input);
    assert_eq!(result.unwrap(), implies(and(atomic("a"), atomic("b")), atomic("c")));
}

#[test]
fn test_parse_complex() {
    let input = "a => b | !(!c | d & e) => b";
    let result = parse_expression(input);
    assert_eq!(
        result.unwrap(),
        implies(
            implies(
                atomic("a"),
                or(
                    atomic("b"),
                    not(or(not(atomic("c")), and(atomic("d"), atomic("e")))),
                ),
            ),
            atomic("b"),
        )
    );
}

#[test]
fn test_operator_weight() {
    let input = "A & B | C => D | E & F";
    let result = parse_expression(input);
    assert_eq!(
        result.unwrap(),
        implies(
            or(and(atomic("A"), atomic("B")), atomic("C")),
            or(atomic("D"), and(atomic("E"), atomic("F")))
        )
    );
}

#[test]
fn test_implies_chain() {
    let input = "a => b => c";
    let result = parse_expression(input);
    assert_eq!(result.unwrap(), implies(implies(atomic("a"), atomic("b")), atomic("c")));
}

#[test]
fn test_parse_parentheses() {
    let input = "a & (b => c)";
    let result = parse_expression(input);
    assert_eq!(result.unwrap(), and(atomic("a"), implies(atomic("b"), atomic("c"))));
}

#[test]
fn test_parse_not() {
    let input = "!a";
    let result = parse_expression(input);
    assert_eq!(result.unwrap(), not(atomic("a")));
}

#[test]
fn test_parse_not_parentheses() {
    let input = "!(a & b)";
    let result = parse_expression(input);
    assert_eq!(result.unwrap(), not(and(atomic("a"), atomic("b"))));
}

#[test]
fn test_expression_with_not_inside_and() {
    let input = "a & !b";
    let result = parse_expression(input);
    assert_eq!(result.unwrap(), and(atomic("a"), not(atomic("b"))));
}

#[test]
fn test_expression_with_not_inside_or() {
    let input = "a | !b";
    let result = parse_expression(input);
    assert_eq!(result.unwrap(), or(atomic("a"), not(atomic("b"))));
}

#[test]
fn test_expression_with_not_inside_implies() {
    let input = "a => !b";
    let result = parse_expression(input);
    assert_eq!(result.unwrap(), implies(atomic("a"), not(atomic("b"))));
}

#[test]
fn test_expression_with_not_inside_parentheses() {
    let input = "a & !(b | c)";
    let result = parse_expression(input);
    assert_eq!(result.unwrap(), and(atomic("a"), not(or(atomic("b"), atomic("c")))));
}

#[test]
fn test_even_not() {
    let input = "!!!!a";
    let result = parse_expression(input);
    assert_eq!(result.unwrap(), not(not(not(not(atomic("a"))))));
}

#[test]
fn test_odd_not() {
    let input = "!!!!!a";
    let result = parse_expression(input);
    assert_eq!(result.unwrap(), not(not(not(not(not(atomic("a")))))));
}

#[test]
fn test_atomic() {
    let input = "a";
    let result = parse_expression(input);
    assert_eq!(result.unwrap(), atomic("a"));
}

#[test]
fn test_atomic_with_underscore() {
    let input = "a_b";
    let result = parse_expression(input);
    assert_eq!(result.unwrap(), atomic("a_b"));
}

#[test]
fn test_atomic_with_digits() {
    let input = "a1";
    let result = parse_expression(input);
    assert_eq!(result.unwrap(), atomic("a1"));
}

#[test]
fn test_empty() {
    let input = "";
    let result = parse_expression(input);
    assert!(result.is_err());
}

#[test]
fn test_or_chain() {
    let input = "a | b | c | d | e | f | g";
    let result = parse_expression(input);
    assert_eq!(
        result.unwrap(),
        or(
            or(
                or(
                    or(or(or(atomic("a"), atomic("b")), atomic("c")), atomic("d")),
                    atomic("e")
                ),
                atomic("f")
            ),
            atomic("g")
        )
    );
}

#[test]
fn test_trailing_input_is_rejected() {
    let result = parse_expression("a b");
    let error = result.err().unwrap();
    assert_eq!(error.kind, ErrorKind::InvalidExpression);
    assert_eq!(error.message, " b");
}

#[test]
fn test_leading_space_is_rejected() {
    assert!(parse_expression(" a").is_err());
}

#[test]
fn test_atom_render_round_trip() {
    let text = "Abc_1";
    let parsed = parse_expression(text).unwrap();
    let rendered = parsed.render();
    assert_eq!(rendered, text);
    let reparsed = parse_expression(&rendered).unwrap();
    assert_eq!(reparsed.render(), rendered);
}

use simplify_truths::expression::Expression;
use simplify_truths::iterator::ExpressionIterator;

fn atomic(s: &str) -> Expression {
    simplify_truths::expression::atomic(s)
}

fn not(e: Expression) -> Expression {
    simplify_truths::expression::not(e)
}

fn and(l: Expression, r: Expression) -> Expression {
    simplify_truths::expression::and(l, r)
}

#[test]
fn test_expression_iterator() {
    let expression = not(and(atomic("A"), atomic("B")));
    let mut iterator = ExpressionIterator::new(expression.clone());
    assert_eq!(iterator.next().unwrap(), expression);
    assert_eq!(iterator.next().unwrap(), and(atomic("A"), atomic("B")));
    assert_eq!(iterator.next().unwrap(), atomic("A"));
    assert_eq!(iterator.next().unwrap(), atomic("B"));
    assert_eq!(iterator.next(), None);
}

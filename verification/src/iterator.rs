//! A pre-order walk over an expression tree, parents before children, left
//! before right.

use vstd::prelude::*;

use crate::expression::Expression;

verus! {

/// The sub-expressions of `e` in pre-order: the node itself, then the left
/// subtree, then the right.
pub open spec fn pre_nodes(e: Expression) -> Seq<Expression>
    decreases e,
{
    match e {
        Expression::Not(x) => seq![e] + pre_nodes(*x),
        Expression::Binary { left, right, .. } => seq![e] + pre_nodes(*left) + pre_nodes(*right),
        Expression::Atomic(_) => seq![e],
    }
}

/// The concatenated pre-orders of a stack of trees, popped from the end.
pub open spec fn stack_nodes(stack: Seq<Expression>) -> Seq<Expression>
    decreases stack.len(),
{
    if stack.len() == 0 {
        Seq::empty()
    } else {
        pre_nodes(stack.last()) + stack_nodes(stack.drop_last())
    }
}

/// Walks an expression tree in pre-order.
pub struct ExpressionIterator {
    pub stack: Vec<Expression>,
}

impl ExpressionIterator {
    /// The sub-expressions still to be yielded, in order.
    pub open spec fn remaining(self) -> Seq<Expression> {
        stack_nodes(self.stack@)
    }

    /// Starts a walk that will yield every sub-expression of `expression`
    /// in pre-order.
    pub fn new(expression: Expression) -> (r: ExpressionIterator)
        ensures
            r.remaining() == pre_nodes(expression),
    {
        let mut stack: Vec<Expression> = Vec::new();
        stack.push(expression);
        let r = ExpressionIterator { stack };
        proof {
            assert(r.stack@.drop_last() =~= Seq::<Expression>::empty());
            assert(stack_nodes(Seq::<Expression>::empty()) =~= Seq::<Expression>::empty());
            assert(r.stack@.last() == expression);
            assert(r.remaining() =~= pre_nodes(expression));
        }
        r
    }

    /// Yields the next sub-expression of the walk, or nothing when it is
    /// done.
    pub fn next(&mut self) -> (r: Option<Expression>)
        ensures
            old(self).remaining().len() == 0 ==> r is None && final(self).remaining()
                == old(self).remaining(),
            old(self).remaining().len() > 0 ==> r == Some(old(self).remaining().first())
                && final(self).remaining() == old(self).remaining().drop_first(),
    {
        let popped = self.stack.pop();
        match popped {
            Option::None => {
                proof {
                    assert(old(self).stack@.len() == 0);
                    assert(old(self).remaining() =~= Seq::<Expression>::empty());
                }
                Option::None
            },
            Option::Some(expression) => {
                proof {
                    assert(old(self).stack@.last() == expression);
                    assert(self.stack@ == old(self).stack@.drop_last());
                    assert(old(self).remaining() == pre_nodes(expression) + stack_nodes(
                        self.stack@,
                    ));
                    assert(pre_nodes(expression).len() >= 1);
                }
                match &expression {
                    Expression::Atomic(_) => {
                        proof {
                            assert(pre_nodes(expression) =~= seq![expression]);
                            assert(old(self).remaining().drop_first() =~= stack_nodes(
                                self.stack@,
                            ));
                        }
                        Option::Some(expression)
                    },
                    Expression::Not(inner) => {
                        let inner_clone = (**inner).clone();
                        self.stack.push(inner_clone);
                        proof {
                            assert(self.stack@.drop_last() == old(self).stack@.drop_last());
                            assert(stack_nodes(self.stack@) == pre_nodes(self.stack@.last())
                                + stack_nodes(old(self).stack@.drop_last()));
                            assert(old(self).remaining().drop_first() =~= stack_nodes(
                                self.stack@,
                            ));
                        }
                        Option::Some(expression)
                    },
                    Expression::Binary { left, right, .. } => {
                        let left_clone = (**left).clone();
                        let right_clone = (**right).clone();
                        self.stack.push(right_clone);
                        let ghost mid = self.stack@;
                        self.stack.push(left_clone);
                        proof {
                            assert(self.stack@.drop_last() == mid);
                            assert(mid.drop_last() == old(self).stack@.drop_last());
                            assert(stack_nodes(self.stack@) == pre_nodes(self.stack@.last())
                                + stack_nodes(mid));
                            assert(stack_nodes(mid) == pre_nodes(mid.last()) + stack_nodes(
                                old(self).stack@.drop_last(),
                            ));
                            assert(old(self).remaining().drop_first() =~= stack_nodes(
                                self.stack@,
                            ));
                        }
                        Option::Some(expression)
                    },
                }
            },
        }
    }
}

} // verus!

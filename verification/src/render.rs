//! The canonical printer: a fixed, parenthesization-rule-governed string form
//! of an expression, used for display and as a deduplication key.
//!
//! `Not` wraps a non-atomic operand in parentheses; `And` and `Implication`
//! print their operands bare; `Or` is wrapped in parentheses exactly when it
//! is the immediate operand of an `And`, since it binds most loosely.

use vstd::prelude::*;

use crate::expression::{Expression, ExpressionView, BinaryOperator};

verus! {

/// The canonical rendering of a formula. `under_and` says whether the formula
/// is a direct operand of a conjunction, which is the one position where a
/// disjunction needs parentheses.
pub open spec fn render_view(v: ExpressionView, under_and: bool) -> Seq<char>
    decreases v,
{
    match v {
        ExpressionView::Atomic(s) => s,
        ExpressionView::Not(x) => {
            if x.is_atomic_view() {
                seq!['\u{ac}'] + render_view(*x, false)
            } else {
                seq!['\u{ac}', '('] + render_view(*x, false) + seq![')']
            }
        },
        ExpressionView::Binary { left, operator, right } => {
            match operator {
                BinaryOperator::And => render_view(*left, true) + seq![' ', '\u{22c0}', ' ']
                    + render_view(*right, true),
                BinaryOperator::Or => {
                    let inner = render_view(*left, false) + seq![' ', '\u{22c1}', ' ']
                        + render_view(*right, false);
                    if under_and {
                        seq!['('] + inner + seq![')']
                    } else {
                        inner
                    }
                },
                BinaryOperator::Implication => render_view(*left, false) + seq![
                    ' ',
                    '\u{2794}',
                    ' ',
                ] + render_view(*right, false),
            }
        },
    }
}

/// The rendering of a whole tree, i.e. with no enclosing context.
pub open spec fn render_of(v: ExpressionView) -> Seq<char> {
    render_view(v, false)
}

/// Relies on `<String as FromIterator<char>>::from_iter` (through
/// `Iterator::collect`): the resulting string holds exactly the characters of
/// the iterator, in order.
#[verifier::external_body]
pub(crate) fn chars_to_string(v: &Vec<char>) -> (r: String)
    ensures
        r@ == v@,
{
    v.iter().collect()
}

impl Expression {
    /// Appends the canonical rendering of `self` to `out`.
    fn render_into(&self, under_and: bool, out: &mut Vec<char>)
        ensures
            final(out)@ == old(out)@ + render_view(self@, under_and),
        decreases *self,
    {
        match self {
            Expression::Atomic(s) => {
                push_str_chars(s, out);
            },
            Expression::Not(x) => {
                if x.is_atomic() {
                    out.push('\u{ac}');
                    x.render_into(false, out);
                } else {
                    out.push('\u{ac}');
                    out.push('(');
                    x.render_into(false, out);
                    out.push(')');
                }
                proof {
                    assert(final(out)@ =~= old(out)@ + render_view(self@, under_and));
                }
            },
            Expression::Binary { left, operator, right } => {
                match operator {
                    BinaryOperator::And => {
                        left.render_into(true, out);
                        out.push(' ');
                        out.push('\u{22c0}');
                        out.push(' ');
                        right.render_into(true, out);
                    },
                    BinaryOperator::Or => {
                        if under_and {
                            out.push('(');
                        }
                        left.render_into(false, out);
                        out.push(' ');
                        out.push('\u{22c1}');
                        out.push(' ');
                        right.render_into(false, out);
                        if under_and {
                            out.push(')');
                        }
                    },
                    BinaryOperator::Implication => {
                        left.render_into(false, out);
                        out.push(' ');
                        out.push('\u{2794}');
                        out.push(' ');
                        right.render_into(false, out);
                    },
                }
                proof {
                    assert(final(out)@ =~= old(out)@ + render_view(self@, under_and));
                }
            },
        }
    }

    /// The canonical string form of the formula.
    pub fn render(&self) -> (r: String)
        ensures
            r@ == render_of(self@),
    {
        let mut out: Vec<char> = Vec::new();
        self.render_into(false, &mut out);
        proof {
            assert(out@ =~= render_of(self@));
        }
        chars_to_string(&out)
    }
}

/// Appends the characters of `s` to `out`.
fn push_str_chars(s: &String, out: &mut Vec<char>)
    ensures
        final(out)@ == old(out)@ + s@,
{
    let n = s.as_str().unicode_len();
    let mut i: usize = 0;
    while i < n
        invariant
            n == s@.len(),
            0 <= i <= n,
            out@ == old(out)@ + s@.subrange(0, i as int),
        decreases n - i,
    {
        let c = s.as_str().get_char(i);
        out.push(c);
        proof {
            assert(out@ =~= old(out)@ + s@.subrange(0, i + 1));
        }
        i = i + 1;
    }
    proof {
        assert(s@.subrange(0, n as int) =~= s@);
        assert(out@ =~= old(out)@ + s@);
    }
}

} // verus!

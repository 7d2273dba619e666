//! The truth semantics of formulas: evaluation under an assignment of the
//! variables.

use vstd::prelude::*;

use crate::expression::ExpressionView;

verus! {

/// The truth value of a formula under `env`, which assigns a boolean to each
/// variable name.
pub open spec fn eval_view(v: ExpressionView, env: Map<Seq<char>, bool>) -> bool
    decreases v,
{
    match v {
        ExpressionView::Not(x) => !eval_view(*x, env),
        ExpressionView::Binary { left, operator, right } => operator.eval_spec(
            eval_view(*left, env),
            eval_view(*right, env),
        ),
        ExpressionView::Atomic(s) => env[s],
    }
}

/// Two formulas are equivalent when they evaluate alike under every
/// assignment.
pub open spec fn equivalent(a: ExpressionView, b: ExpressionView) -> bool {
    forall|env: Map<Seq<char>, bool>| eval_view(a, env) == eval_view(b, env)
}

} // verus!

//! Laws of the rewrite engine, proved once and for all: every pass preserves
//! the truth value of the expression under every assignment (in the
//! case-insensitive comparison mode, under every assignment that respects
//! case folding), the pipeline leaves no implication behind, and its first
//! and last passes are fixed points on its output.

use vstd::prelude::*;

use crate::expression::{eq_view, names_equal, opposite_view, BinaryOperator, Expression,
    ExpressionView};
use crate::semantics::eval_view;
use crate::simplify::{absorb_spec, aop_spec, dist_spec, dm_spec, dne_spec, elim_spec,
    lemma_dm_weight, simplify_spec, weight};

verus! {

/// The view of a built negation is the negation of the view.
pub broadcast proof fn lemma_view_not(x: Expression)
    ensures
        #[trigger] (crate::expression::not_spec(x))@ == (ExpressionView::Not(Box::new(x@))),
{
}

/// The view of a built binary node is the binary node of the views.
pub broadcast proof fn lemma_view_binary(l: Expression, op: BinaryOperator, r: Expression)
    ensures
        #[trigger] (crate::expression::binary_spec(l, op, r))@ == (ExpressionView::Binary {
            left: Box::new(l@),
            operator: op,
            right: Box::new(r@),
        }),
{
}

/// An assignment that respects case folding: names equal up to ASCII case
/// are assigned the same truth value. Every assignment satisfies this
/// trivially when comparisons are case-sensitive, which is why the lemmas
/// below require it only in the case-insensitive mode.
pub open spec fn env_folds_case(env: Map<Seq<char>, bool>) -> bool {
    forall|a: Seq<char>, b: Seq<char>| #[trigger] names_equal(a, b, true) ==> env[a] == env[b]
}

/// Structurally equal formulas evaluate alike; in the case-insensitive mode
/// this needs the assignment to respect case folding.
pub proof fn lemma_eq_view_eval(
    a: ExpressionView,
    b: ExpressionView,
    ic: bool,
    env: Map<Seq<char>, bool>,
)
    requires
        eq_view(a, b, ic),
        ic ==> env_folds_case(env),
    ensures
        eval_view(a, env) == eval_view(b, env),
    decreases a,
{
    match (a, b) {
        (ExpressionView::Not(x), ExpressionView::Not(y)) => {
            lemma_eq_view_eval(*x, *y, ic, env);
        },
        (
            ExpressionView::Binary { left: al, operator: ao, right: ar },
            ExpressionView::Binary { left: bl, operator: bo, right: br },
        ) => {
            lemma_eq_view_eval(*al, *bl, ic, env);
            lemma_eq_view_eval(*ar, *br, ic, env);
        },
        (ExpressionView::Atomic(s), ExpressionView::Atomic(t)) => {
            if !ic {
                assert(s == t);
            } else {
                assert(names_equal(s, t, true));
            }
        },
        _ => {},
    }
}

/// Opposite formulas evaluate to opposite truth values; in the
/// case-insensitive mode this needs the assignment to respect case folding.
pub proof fn lemma_opposite_eval(
    a: ExpressionView,
    b: ExpressionView,
    ic: bool,
    env: Map<Seq<char>, bool>,
)
    requires
        opposite_view(a, b, ic),
        ic ==> env_folds_case(env),
    ensures
        eval_view(a, env) == !eval_view(b, env),
{
    match (a, b) {
        (ExpressionView::Not(x), ExpressionView::Not(y)) => {},
        (ExpressionView::Not(x), _) => {
            lemma_eq_view_eval(*x, b, ic, env);
        },
        (_, ExpressionView::Not(y)) => {
            lemma_eq_view_eval(a, *y, ic, env);
        },
        _ => {},
    }
}

/// Implication elimination preserves the truth value under every assignment.
pub proof fn lemma_elim_preserves(e: Expression, env: Map<Seq<char>, bool>)
    ensures
        eval_view(elim_spec(e)@, env) == eval_view(e@, env),
    decreases e,
{
    broadcast use lemma_view_not, lemma_view_binary;

    match e {
        Expression::Not(x) => {
            lemma_elim_preserves(*x, env);
            assert(eval_view(elim_spec(e)@, env) == !eval_view(elim_spec(*x)@, env));
            assert(eval_view(e@, env) == !eval_view((*x)@, env));
        },
        Expression::Binary { left, operator, right } => {
            lemma_elim_preserves(*left, env);
            lemma_elim_preserves(*right, env);
            let l2 = elim_spec(*left);
            let r2 = elim_spec(*right);
            assert(eval_view(e@, env) == operator.eval_spec(
                eval_view((*left)@, env),
                eval_view((*right)@, env),
            ));
            if operator is Implication {
                assert(eval_view((crate::expression::not_spec(l2))@, env) == !eval_view(
                    l2@,
                    env,
                ));
                assert(eval_view(elim_spec(e)@, env) == (!eval_view(l2@, env) || eval_view(
                    r2@,
                    env,
                )));
            } else {
                assert(eval_view(elim_spec(e)@, env) == operator.eval_spec(
                    eval_view(l2@, env),
                    eval_view(r2@, env),
                ));
            }
        },
        Expression::Atomic(_) => {},
    }
}

/// The De Morgan pass preserves the truth value under every assignment.
pub proof fn lemma_dm_preserves(e: Expression, env: Map<Seq<char>, bool>)
    ensures
        eval_view(dm_spec(e)@, env) == eval_view(e@, env),
    decreases weight(e), e,
{
    broadcast use lemma_view_not, lemma_view_binary;

    match e {
        Expression::Not(x) => match *x {
            Expression::Binary { left, operator, right } => {
                if operator is And || operator is Or {
                    lemma_dm_preserves(*left, env);
                    lemma_dm_preserves(*right, env);
                    let la = crate::expression::not_spec(dm_spec(*left));
                    let ra = crate::expression::not_spec(dm_spec(*right));
                    let res = if operator is And {
                        crate::expression::or_spec(la, ra)
                    } else {
                        crate::expression::and_spec(la, ra)
                    };
                    lemma_dm_weight(*left);
                    lemma_dm_weight(*right);
                    assert(weight(e) == 2 * weight(*x));
                    assert(weight(*x) == weight(*left) + weight(*right) + 1);
                    assert(weight(la) == 2 * weight(dm_spec(*left)));
                    assert(weight(ra) == 2 * weight(dm_spec(*right)));
                    assert(weight(res) < weight(e));
                    assert(eval_view(la@, env) == !eval_view(dm_spec(*left)@, env));
                    assert(eval_view(ra@, env) == !eval_view(dm_spec(*right)@, env));
                    if operator is And {
                        assert(eval_view(res@, env) == (eval_view(la@, env) || eval_view(
                            ra@,
                            env,
                        )));
                    } else {
                        assert(eval_view(res@, env) == (eval_view(la@, env) && eval_view(
                            ra@,
                            env,
                        )));
                    }
                    assert(eval_view(e@, env) == !eval_view((*x)@, env));
                    assert(eval_view((*x)@, env) == operator.eval_spec(
                        eval_view((*left)@, env),
                        eval_view((*right)@, env),
                    ));
                    lemma_dm_preserves(res, env);
                } else {
                    lemma_dm_preserves(*x, env);
                    assert(eval_view(dm_spec(e)@, env) == !eval_view(dm_spec(*x)@, env));
                    assert(eval_view(e@, env) == !eval_view((*x)@, env));
                }
            },
            _ => {
                lemma_dm_preserves(*x, env);
                assert(eval_view(dm_spec(e)@, env) == !eval_view(dm_spec(*x)@, env));
                assert(eval_view(e@, env) == !eval_view((*x)@, env));
            },
        },
        Expression::Binary { left, operator, right } => {
            lemma_dm_preserves(*left, env);
            lemma_dm_preserves(*right, env);
            assert(eval_view(dm_spec(e)@, env) == operator.eval_spec(
                eval_view(dm_spec(*left)@, env),
                eval_view(dm_spec(*right)@, env),
            ));
            assert(eval_view(e@, env) == operator.eval_spec(
                eval_view((*left)@, env),
                eval_view((*right)@, env),
            ));
        },
        Expression::Atomic(_) => {},
    }
}

/// The absorption pass preserves the truth value under every assignment; in
/// the case-insensitive mode, under every assignment that respects case
/// folding.
#[verifier::rlimit(100)]
#[verifier::spinoff_prover]
pub proof fn lemma_absorb_preserves(e: Expression, ic: bool, env: Map<Seq<char>, bool>)
    requires
        ic ==> env_folds_case(env),
    ensures
        eval_view(absorb_spec(e, ic)@, env) == eval_view(e@, env),
    decreases e,
{
    broadcast use lemma_view_not, lemma_view_binary;

    match e {
        Expression::Not(x) => {
            lemma_absorb_preserves(*x, ic, env);
        },
        Expression::Binary { left, operator, right } => {
            let l = *left;
            let r = *right;
            lemma_absorb_preserves(l, ic, env);
            lemma_absorb_preserves(r, ic, env);
            if eq_view(l@, r@, ic) {
                lemma_eq_view_eval(l@, r@, ic, env);
            }
            match l@ {
                ExpressionView::Binary { left: vl, right: vr, .. } => {
                    if eq_view(r@, *vl, ic) {
                        lemma_eq_view_eval(r@, *vl, ic, env);
                    }
                    if eq_view(r@, *vr, ic) {
                        lemma_eq_view_eval(r@, *vr, ic, env);
                    }
                },
                _ => {},
            }
            match r@ {
                ExpressionView::Binary { left: vl, right: vr, .. } => {
                    if eq_view(l@, *vl, ic) {
                        lemma_eq_view_eval(l@, *vl, ic, env);
                    }
                    if eq_view(l@, *vr, ic) {
                        lemma_eq_view_eval(l@, *vr, ic, env);
                    }
                },
                _ => {},
            }
        },
        Expression::Atomic(_) => {},
    }
}


/// The opposite-literal absorption pass preserves the truth value under
/// every assignment; in the case-insensitive mode, under every assignment
/// that respects case folding.
#[verifier::rlimit(100)]
#[verifier::spinoff_prover]
pub proof fn lemma_aop_preserves(e: Expression, ic: bool, env: Map<Seq<char>, bool>)
    requires
        ic ==> env_folds_case(env),
    ensures
        eval_view(aop_spec(e, ic)@, env) == eval_view(e@, env),
    decreases e,
{
    broadcast use lemma_view_not, lemma_view_binary;

    match e {
        Expression::Not(x) => {
            lemma_aop_preserves(*x, ic, env);
        },
        Expression::Binary { left, operator, right } => {
            let l = *left;
            let r = *right;
            lemma_aop_preserves(l, ic, env);
            lemma_aop_preserves(r, ic, env);
            lemma_absorb_preserves(l, ic, env);
            lemma_absorb_preserves(r, ic, env);
            assert(eval_view(e@, env) == operator.eval_spec(
                eval_view(l@, env),
                eval_view(r@, env),
            ));
            match r {
                Expression::Binary { left: rl, operator: ro, right: rr } => {
                    lemma_absorb_preserves(*rl, ic, env);
                    lemma_absorb_preserves(*rr, ic, env);
                    if eq_view(l@, (*rl)@, ic) {
                        lemma_eq_view_eval(l@, (*rl)@, ic, env);
                    }
                    if eq_view(l@, (*rr)@, ic) {
                        lemma_eq_view_eval(l@, (*rr)@, ic, env);
                    }
                    if opposite_view(l@, (*rl)@, ic) {
                        lemma_opposite_eval(l@, (*rl)@, ic, env);
                    }
                    if opposite_view(l@, (*rr)@, ic) {
                        lemma_opposite_eval(l@, (*rr)@, ic, env);
                    }
                    assert(eval_view(r@, env) == ro.eval_spec(
                        eval_view((*rl)@, env),
                        eval_view((*rr)@, env),
                    ));
                },
                _ => {},
            }
            match l {
                Expression::Binary { left: ll, operator: lo, right: lr } => {
                    lemma_absorb_preserves(*ll, ic, env);
                    lemma_absorb_preserves(*lr, ic, env);
                    if eq_view(r@, (*ll)@, ic) {
                        lemma_eq_view_eval(r@, (*ll)@, ic, env);
                    }
                    if eq_view(r@, (*lr)@, ic) {
                        lemma_eq_view_eval(r@, (*lr)@, ic, env);
                    }
                    if opposite_view(r@, (*ll)@, ic) {
                        lemma_opposite_eval(r@, (*ll)@, ic, env);
                    }
                    if opposite_view(r@, (*lr)@, ic) {
                        lemma_opposite_eval(r@, (*lr)@, ic, env);
                    }
                    assert(eval_view(l@, env) == lo.eval_spec(
                        eval_view((*ll)@, env),
                        eval_view((*lr)@, env),
                    ));
                },
                _ => {},
            }
        },
        Expression::Atomic(_) => {},
    }
}

/// The distribution pass preserves the truth value under every assignment.
#[verifier::rlimit(100)]
#[verifier::spinoff_prover]
pub proof fn lemma_dist_preserves(e: Expression, env: Map<Seq<char>, bool>)
    ensures
        eval_view(dist_spec(e)@, env) == eval_view(e@, env),
    decreases e,
{
    broadcast use lemma_view_not, lemma_view_binary;

    match e {
        Expression::Not(x) => {
            lemma_dist_preserves(*x, env);
        },
        Expression::Binary { left, operator, right } => {
            let l = *left;
            let r = *right;
            lemma_dist_preserves(l, env);
            lemma_dist_preserves(r, env);
            assert(eval_view(e@, env) == operator.eval_spec(
                eval_view(l@, env),
                eval_view(r@, env),
            ));
            match r {
                Expression::Binary { left: rl, operator: ro, right: rr } => {
                    lemma_dist_preserves(*rl, env);
                    lemma_dist_preserves(*rr, env);
                    assert(eval_view(r@, env) == ro.eval_spec(
                        eval_view((*rl)@, env),
                        eval_view((*rr)@, env),
                    ));
                    assert(eval_view((crate::expression::binary_spec(
                        l,
                        operator,
                        dist_spec(*rl),
                    ))@, env) == operator.eval_spec(
                        eval_view(l@, env),
                        eval_view(dist_spec(*rl)@, env),
                    ));
                    assert(eval_view((crate::expression::binary_spec(
                        l,
                        operator,
                        dist_spec(*rr),
                    ))@, env) == operator.eval_spec(
                        eval_view(l@, env),
                        eval_view(dist_spec(*rr)@, env),
                    ));
                },
                _ => {},
            }
            match l {
                Expression::Binary { left: ll, operator: lo, right: lr } => {
                    lemma_dist_preserves(*ll, env);
                    lemma_dist_preserves(*lr, env);
                    assert(eval_view(l@, env) == lo.eval_spec(
                        eval_view((*ll)@, env),
                        eval_view((*lr)@, env),
                    ));
                    assert(eval_view((crate::expression::binary_spec(
                        dist_spec(*ll),
                        operator,
                        r,
                    ))@, env) == operator.eval_spec(
                        eval_view(dist_spec(*ll)@, env),
                        eval_view(r@, env),
                    ));
                    assert(eval_view((crate::expression::binary_spec(
                        dist_spec(*lr),
                        operator,
                        r,
                    ))@, env) == operator.eval_spec(
                        eval_view(dist_spec(*lr)@, env),
                        eval_view(r@, env),
                    ));
                },
                _ => {},
            }
        },
        Expression::Atomic(_) => {},
    }
}

/// Double-negation elimination preserves the truth value under every
/// assignment.
pub proof fn lemma_dne_preserves(e: Expression, env: Map<Seq<char>, bool>)
    ensures
        eval_view(dne_spec(e)@, env) == eval_view(e@, env),
    decreases e,
{
    broadcast use lemma_view_not, lemma_view_binary;

    match e {
        Expression::Not(x) => match *x {
            Expression::Not(y) => {
                lemma_dne_preserves(*y, env);
                assert(eval_view(e@, env) == !eval_view((*x)@, env));
                assert(eval_view((*x)@, env) == !eval_view((*y)@, env));
            },
            _ => {},
        },
        Expression::Binary { left, operator, right } => {
            lemma_dne_preserves(*left, env);
            lemma_dne_preserves(*right, env);
            assert(eval_view(dne_spec(e)@, env) == operator.eval_spec(
                eval_view(dne_spec(*left)@, env),
                eval_view(dne_spec(*right)@, env),
            ));
            assert(eval_view(e@, env) == operator.eval_spec(
                eval_view((*left)@, env),
                eval_view((*right)@, env),
            ));
        },
        Expression::Atomic(_) => {},
    }
}

/// Semantic preservation of the whole pipeline: the simplified expression
/// evaluates exactly as the original under every assignment of the
/// variables; in the case-insensitive mode, under every assignment that
/// respects case folding.
pub proof fn lemma_simplify_preserves(e: Expression, ic: bool, env: Map<Seq<char>, bool>)
    requires
        ic ==> env_folds_case(env),
    ensures
        eval_view(simplify_spec(e, ic)@, env) == eval_view(e@, env),
{
    let e1 = elim_spec(e);
    let e2 = dm_spec(e1);
    let e3 = absorb_spec(e2, ic);
    let e4 = aop_spec(e3, ic);
    let e5 = dist_spec(e4);
    lemma_elim_preserves(e, env);
    lemma_dm_preserves(e1, env);
    lemma_absorb_preserves(e2, ic, env);
    lemma_aop_preserves(e3, ic, env);
    lemma_dist_preserves(e4, env);
    lemma_dne_preserves(e5, env);
}

/// Whether a formula is free of the implication connective.
pub open spec fn implication_free(e: Expression) -> bool
    decreases e,
{
    match e {
        Expression::Not(x) => implication_free(*x),
        Expression::Binary { left, operator, right } => !(operator is Implication)
            && implication_free(*left) && implication_free(*right),
        Expression::Atomic(_) => true,
    }
}

/// Implication elimination leaves no implication behind.
pub proof fn lemma_elim_implication_free(e: Expression)
    ensures
        implication_free(elim_spec(e)),
    decreases e,
{
    match e {
        Expression::Not(x) => {
            lemma_elim_implication_free(*x);
        },
        Expression::Binary { left, operator, right } => {
            lemma_elim_implication_free(*left);
            lemma_elim_implication_free(*right);
            assert(implication_free(crate::expression::not_spec(elim_spec(*left))));
            assert(implication_free(elim_spec(e)));
        },
        Expression::Atomic(_) => {},
    }
}

/// On an implication-free tree, implication elimination is the identity.
pub proof fn lemma_elim_identity(e: Expression)
    requires
        implication_free(e),
    ensures
        elim_spec(e) == e,
    decreases e,
{
    match e {
        Expression::Not(x) => {
            lemma_elim_identity(*x);
        },
        Expression::Binary { left, operator, right } => {
            lemma_elim_identity(*left);
            lemma_elim_identity(*right);
        },
        Expression::Atomic(_) => {},
    }
}

/// Implication elimination reaches a fixed point in one pass: applying it
/// twice gives the same tree as applying it once.
pub proof fn lemma_elim_idempotent(e: Expression)
    ensures
        elim_spec(elim_spec(e)) == elim_spec(e),
{
    lemma_elim_implication_free(e);
    lemma_elim_identity(elim_spec(e));
}

/// Double-negation elimination reaches a fixed point in one pass: applying
/// it twice gives the same tree as applying it once.
pub proof fn lemma_dne_idempotent(e: Expression)
    ensures
        dne_spec(dne_spec(e)) == dne_spec(e),
    decreases e,
{
    match e {
        Expression::Not(x) => match *x {
            Expression::Not(y) => {
                lemma_dne_idempotent(*y);
            },
            _ => {},
        },
        Expression::Binary { left, operator, right } => {
            lemma_dne_idempotent(*left);
            lemma_dne_idempotent(*right);
        },
        Expression::Atomic(_) => {},
    }
}


/// The De Morgan pass keeps an implication-free tree implication-free.
proof fn lemma_dm_implication_free(e: Expression)
    requires
        implication_free(e),
    ensures
        implication_free(dm_spec(e)),
    decreases weight(e), e,
{
    match e {
        Expression::Not(x) => match *x {
            Expression::Binary { left, operator, right } => {
                assert(implication_free(*x));
                assert(implication_free(*left) && implication_free(*right));
                if operator is And || operator is Or {
                    lemma_dm_implication_free(*left);
                    lemma_dm_implication_free(*right);
                    let la = crate::expression::not_spec(dm_spec(*left));
                    let ra = crate::expression::not_spec(dm_spec(*right));
                    let res = if operator is And {
                        crate::expression::or_spec(la, ra)
                    } else {
                        crate::expression::and_spec(la, ra)
                    };
                    lemma_dm_weight(*left);
                    lemma_dm_weight(*right);
                    assert(weight(e) == 2 * weight(*x));
                    assert(weight(*x) == weight(*left) + weight(*right) + 1);
                    assert(weight(la) == 2 * weight(dm_spec(*left)));
                    assert(weight(ra) == 2 * weight(dm_spec(*right)));
                    assert(weight(res) < weight(e));
                    assert(implication_free(la));
                    assert(implication_free(ra));
                    assert(implication_free(res));
                    lemma_dm_implication_free(res);
                } else {
                    lemma_dm_implication_free(*x);
                }
            },
            _ => {
                assert(implication_free(*x));
                lemma_dm_implication_free(*x);
            },
        },
        Expression::Binary { left, operator, right } => {
            lemma_dm_implication_free(*left);
            lemma_dm_implication_free(*right);
        },
        Expression::Atomic(_) => {},
    }
}

/// The absorption pass keeps an implication-free tree implication-free.
proof fn lemma_absorb_implication_free(e: Expression, ic: bool)
    requires
        implication_free(e),
    ensures
        implication_free(absorb_spec(e, ic)),
    decreases e,
{
    match e {
        Expression::Not(x) => {
            lemma_absorb_implication_free(*x, ic);
        },
        Expression::Binary { left, operator, right } => {
            lemma_absorb_implication_free(*left, ic);
            lemma_absorb_implication_free(*right, ic);
        },
        Expression::Atomic(_) => {},
    }
}

/// The opposite-literal absorption pass keeps an implication-free tree
/// implication-free.
#[verifier::rlimit(100)]
#[verifier::spinoff_prover]
proof fn lemma_aop_implication_free(e: Expression, ic: bool)
    requires
        implication_free(e),
    ensures
        implication_free(aop_spec(e, ic)),
    decreases e,
{
    match e {
        Expression::Not(x) => {
            lemma_aop_implication_free(*x, ic);
        },
        Expression::Binary { left, operator, right } => {
            lemma_aop_implication_free(*left, ic);
            lemma_aop_implication_free(*right, ic);
            lemma_absorb_implication_free(*left, ic);
            lemma_absorb_implication_free(*right, ic);
            match *right {
                Expression::Binary { left: rl, right: rr, .. } => {
                    assert(implication_free(*right));
                    assert(implication_free(*rl) && implication_free(*rr));
                    lemma_absorb_implication_free(*rl, ic);
                    lemma_absorb_implication_free(*rr, ic);
                },
                _ => {},
            }
            match *left {
                Expression::Binary { left: ll, right: lr, .. } => {
                    assert(implication_free(*left));
                    assert(implication_free(*ll) && implication_free(*lr));
                    lemma_absorb_implication_free(*ll, ic);
                    lemma_absorb_implication_free(*lr, ic);
                },
                _ => {},
            }
        },
        Expression::Atomic(_) => {},
    }
}

/// The distribution pass keeps an implication-free tree implication-free.
proof fn lemma_dist_implication_free(e: Expression)
    requires
        implication_free(e),
    ensures
        implication_free(dist_spec(e)),
    decreases e,
{
    match e {
        Expression::Not(x) => {
            lemma_dist_implication_free(*x);
        },
        Expression::Binary { left, operator, right } => {
            lemma_dist_implication_free(*left);
            lemma_dist_implication_free(*right);
            match *right {
                Expression::Binary { left: rl, right: rr, .. } => {
                    assert(implication_free(*right));
                    assert(implication_free(*rl) && implication_free(*rr));
                    lemma_dist_implication_free(*rl);
                    lemma_dist_implication_free(*rr);
                },
                _ => {},
            }
            match *left {
                Expression::Binary { left: ll, right: lr, .. } => {
                    assert(implication_free(*left));
                    assert(implication_free(*ll) && implication_free(*lr));
                    lemma_dist_implication_free(*ll);
                    lemma_dist_implication_free(*lr);
                },
                _ => {},
            }
            if operator is And || operator is Or {
                let inner: BinaryOperator = if operator is And {
                    BinaryOperator::Or
                } else {
                    BinaryOperator::And
                };
                match *right {
                    Expression::Binary { left: rl, operator: ro, right: rr } => {
                        assert(implication_free(crate::expression::binary_spec(
                            *left,
                            operator,
                            dist_spec(*rl),
                        )));
                        assert(implication_free(crate::expression::binary_spec(
                            *left,
                            operator,
                            dist_spec(*rr),
                        )));
                    },
                    _ => {},
                }
                match *left {
                    Expression::Binary { left: ll, operator: lo, right: lr } => {
                        assert(implication_free(crate::expression::binary_spec(
                            dist_spec(*ll),
                            operator,
                            *right,
                        )));
                        assert(implication_free(crate::expression::binary_spec(
                            dist_spec(*lr),
                            operator,
                            *right,
                        )));
                    },
                    _ => {},
                }
            }
        },
        Expression::Atomic(_) => {},
    }
}

/// Double-negation elimination keeps an implication-free tree
/// implication-free.
proof fn lemma_dne_implication_free(e: Expression)
    requires
        implication_free(e),
    ensures
        implication_free(dne_spec(e)),
    decreases e,
{
    match e {
        Expression::Not(x) => match *x {
            Expression::Not(y) => {
                assert(implication_free(*x));
                assert(implication_free(*y));
                lemma_dne_implication_free(*y);
            },
            _ => {},
        },
        Expression::Binary { left, operator, right } => {
            lemma_dne_implication_free(*left);
            lemma_dne_implication_free(*right);
        },
        Expression::Atomic(_) => {},
    }
}

/// The whole pipeline leaves no implication behind, whatever the comparison
/// mode.
pub proof fn lemma_simplify_implication_free(e: Expression, ic: bool)
    ensures
        implication_free(simplify_spec(e, ic)),
{
    let e1 = elim_spec(e);
    let e2 = dm_spec(e1);
    let e3 = absorb_spec(e2, ic);
    let e4 = aop_spec(e3, ic);
    let e5 = dist_spec(e4);
    lemma_elim_implication_free(e);
    lemma_dm_implication_free(e1);
    lemma_absorb_implication_free(e2, ic);
    lemma_aop_implication_free(e3, ic);
    lemma_dist_implication_free(e4);
    lemma_dne_implication_free(e5);
}

/// A partial fixed point of the pipeline: its output holds no implication,
/// so the first pass of a second run returns it unchanged.
pub proof fn lemma_simplify_elim_fixed(e: Expression, ic: bool)
    ensures
        elim_spec(simplify_spec(e, ic)) == simplify_spec(e, ic),
{
    lemma_simplify_implication_free(e, ic);
    lemma_elim_identity(simplify_spec(e, ic));
}

/// The pipeline ends with double-negation elimination, which is idempotent,
/// so the final pass of a second run returns its input unchanged as well.
pub proof fn lemma_simplify_dne_fixed(e: Expression, ic: bool)
    ensures
        dne_spec(simplify_spec(e, ic)) == simplify_spec(e, ic),
{
    lemma_dne_idempotent(dist_spec(aop_spec(absorb_spec(dm_spec(elim_spec(e)), ic), ic)));
}

} // verus!

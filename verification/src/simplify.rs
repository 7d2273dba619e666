//! The rewrite engine: an ordered pipeline of Boolean-algebra rewrite passes,
//! each of which appends a record of every change it makes to a shared log.

use vstd::prelude::*;

use crate::expression::{
    and, and_spec, binary, binary_spec, eq_view, is_bin_op, is_operand_view, not, not_spec,
    opposite_view, or, or_spec, BinaryOperator, Expression,
};
use crate::errors::{Error, ErrorKind};
use crate::render::render_of;

verus! {

/// The Boolean-algebra laws the engine knows by name. The associative and
/// commutative laws are recognised but not implemented: invoking them fails
/// with an explicit error rather than silently returning the input.
#[derive(Debug, Copy, Clone, PartialEq, Eq, Structural)]
pub enum Law {
    EliminationOfImplication,
    DeMorgansLaws,
    AbsorptionLaw,
    AssociativeLaw,
    DistributiveLaw,
    DoubleNegationElimination,
    CommutativeLaw,
}

/// One recorded rewrite step: the renderings of the sub-expression before and
/// after the change, and the law that produced it.
#[derive(Debug, PartialEq)]
pub struct Operation {
    pub before: String,
    pub after: String,
    pub law: Law,
}

impl Operation {
    /// The mathematical content of the record.
    pub open spec fn model(self) -> (Seq<char>, Seq<char>, Law) {
        (self.before@, self.after@, self.law)
    }

    /// Records a step from `before` to `after`; a no-op rewrite (structurally
    /// equal trees) is not recorded.
    pub fn new(before: &Expression, after: &Expression, law: Law) -> (r: Option<Operation>)
        ensures
            (r is Some) <==> before@ != after@,
            r matches Some(op) ==> op.model() == (render_of(before@), render_of(after@), law),
    {
        if !before.view_eq(after) {
            Some(Operation { before: before.render(), after: after.render(), law })
        } else {
            None
        }
    }
}

/// The models of a log, in order.
pub open spec fn op_models(s: Seq<Operation>) -> Seq<(Seq<char>, Seq<char>, Law)> {
    s.map_values(|o: Operation| o.model())
}

/// The record that a rewrite of `b` into `a` appends: nothing when the trees
/// are equal, else one entry under `law`.
pub open spec fn op_entry(b: Expression, a: Expression, law: Law) -> Seq<
    (Seq<char>, Seq<char>, Law),
> {
    if b@ != a@ {
        seq![(render_of(b@), render_of(a@), law)]
    } else {
        Seq::empty()
    }
}

/// The options of the rewrite pipeline itself.
#[derive(Debug, Copy, Clone)]
pub struct Options {
    pub ignore_case: bool,
}

impl Default for Options {
    /// Case-sensitive comparisons by default.
    fn default() -> (r: Options)
        ensures
            r.ignore_case == false,
    {
        Options { ignore_case: false }
    }
}

/// The options a caller hands the simplification entry point: whether to run
/// the pipeline at all, and whether equality checks ignore ASCII case.
#[derive(Debug, Copy, Clone)]
pub struct SimplifyOptions {
    pub simplify: bool,
    pub ignore_case: bool,
}

impl Default for SimplifyOptions {
    /// Simplification on, case-sensitive comparisons.
    fn default() -> (r: SimplifyOptions)
        ensures
            r.simplify == true,
            r.ignore_case == false,
    {
        SimplifyOptions { simplify: true, ignore_case: false }
    }
}

impl From<SimplifyOptions> for Options {
    fn from(options: SimplifyOptions) -> Options {
        Options { ignore_case: options.ignore_case }
    }
}

impl vstd::std_specs::convert::FromSpecImpl<SimplifyOptions> for Options {
    open spec fn obeys_from_spec() -> bool {
        true
    }

    open spec fn from_spec(options: SimplifyOptions) -> Options {
        Options { ignore_case: options.ignore_case }
    }
}

/// The tree after implication elimination: bottom-up, `a ➔ b` becomes
/// `¬a ⋁ b`.
pub open spec fn elim_spec(e: Expression) -> Expression
    decreases e,
{
    match e {
        Expression::Not(x) => not_spec(elim_spec(*x)),
        Expression::Binary { left, operator, right } => {
            let l = elim_spec(*left);
            let r = elim_spec(*right);
            if operator is Implication {
                or_spec(not_spec(l), r)
            } else {
                binary_spec(l, operator, r)
            }
        },
        Expression::Atomic(_) => e,
    }
}

/// The log entries implication elimination appends, in order.
pub open spec fn elim_ops(e: Expression) -> Seq<(Seq<char>, Seq<char>, Law)>
    decreases e,
{
    match e {
        Expression::Not(x) => elim_ops(*x),
        Expression::Binary { left, operator, right } => {
            let l = elim_spec(*left);
            let r = elim_spec(*right);
            let sub = elim_ops(*left) + elim_ops(*right);
            if operator is Implication {
                sub + op_entry(
                    binary_spec(l, operator, r),
                    or_spec(not_spec(l), r),
                    Law::EliminationOfImplication,
                )
            } else {
                sub
            }
        },
        Expression::Atomic(_) => Seq::empty(),
    }
}

impl Expression {
    /// Eliminates the implication operator: `a ➔ b` is replaced with
    /// `¬a ⋁ b`, bottom-up, logging each replacement.
    pub fn elimination_of_implication(&self, operations: &mut Vec<Operation>) -> (r: Expression)
        ensures
            r == elim_spec(*self),
            op_models(final(operations)@) == op_models(old(operations)@) + elim_ops(*self),
        decreases *self,
    {
        match self {
            Expression::Not(expr) => {
                let inner = expr.elimination_of_implication(operations);
                proof {
                    assert(op_models(operations@) =~= op_models(old(operations)@) + elim_ops(
                        *self,
                    ));
                }
                not(inner)
            },
            Expression::Binary { left, operator, right } => {
                let l_result = left.elimination_of_implication(operations);
                let r_result = right.elimination_of_implication(operations);
                let ghost ops2 = operations@;
                let before = binary(l_result.clone(), *operator, r_result.clone());
                if matches!(operator, BinaryOperator::Implication) {
                    let after = or(not(l_result), r_result);
                    proof {
                        assert(before@ == binary_spec(
                            elim_spec(**left),
                            *operator,
                            elim_spec(**right),
                        )@);
                        assert(after@ == or_spec(not_spec(elim_spec(**left)), elim_spec(**right))@);
                    }
                    if let Some(operation) = Operation::new(
                        &before,
                        &after,
                        Law::EliminationOfImplication,
                    ) {
                        operations.push(operation);
                        proof {
                            assert(op_models(operations@) =~= op_models(ops2) + seq![
                                operation.model(),
                            ]);
                        }
                    }
                    proof {
                        assert(op_models(ops2) =~= op_models(old(operations)@) + elim_ops(**left)
                            + elim_ops(**right));
                        assert(op_models(operations@) =~= op_models(old(operations)@) + elim_ops(
                            *self,
                        ));
                    }
                    after
                } else {
                    proof {
                        assert(op_models(operations@) =~= op_models(old(operations)@) + elim_ops(
                            *self,
                        ));
                    }
                    before
                }
            },
            Expression::Atomic(_) => {
                proof {
                    assert(op_models(operations@) =~= op_models(old(operations)@) + elim_ops(
                        *self,
                    ));
                }
                self.clone()
            },
        }
    }
}


/// The tree after double-negation elimination: any run of negations collapses
/// to its parity. A single negation over a compound operand is left in place.
pub open spec fn dne_spec(e: Expression) -> Expression
    decreases e,
{
    match e {
        Expression::Not(x) => match *x {
            Expression::Not(y) => dne_spec(*y),
            _ => e,
        },
        Expression::Binary { left, operator, right } => binary_spec(
            dne_spec(*left),
            operator,
            dne_spec(*right),
        ),
        Expression::Atomic(_) => e,
    }
}

/// The log entries double-negation elimination appends, in order.
pub open spec fn dne_ops(e: Expression) -> Seq<(Seq<char>, Seq<char>, Law)>
    decreases e,
{
    match e {
        Expression::Not(x) => match *x {
            Expression::Not(y) => op_entry(e, *y, Law::DoubleNegationElimination) + dne_ops(*y),
            _ => Seq::empty(),
        },
        Expression::Binary { left, operator, right } => dne_ops(*left) + dne_ops(*right),
        Expression::Atomic(_) => Seq::empty(),
    }
}

/// The tree after one distribution pass: `a ⋀ (b ⋁ c)` becomes
/// `(a ⋀ b) ⋁ (a ⋀ c)` and dually `a ⋁ (b ⋀ c)` becomes
/// `(a ⋁ b) ⋀ (a ⋁ c)`, applied only when one operand is a bare variable and
/// the other a binary node of the complementary connective.
pub open spec fn dist_spec(e: Expression) -> Expression
    decreases e,
{
    match e {
        Expression::Binary { left, operator, right } => {
            if operator is And || operator is Or {
                let inner: BinaryOperator = if operator is And {
                    BinaryOperator::Or
                } else {
                    BinaryOperator::And
                };
                match (*left, *right) {
                    (Expression::Atomic(_), Expression::Binary { left: rl, operator: ro, right: rr }) => {
                        if ro == inner {
                            binary_spec(
                                binary_spec(*left, operator, dist_spec(*rl)),
                                inner,
                                binary_spec(*left, operator, dist_spec(*rr)),
                            )
                        } else {
                            binary_spec(dist_spec(*left), operator, dist_spec(*right))
                        }
                    },
                    (Expression::Binary { left: ll, operator: lo, right: lr }, Expression::Atomic(_)) => {
                        if lo == inner {
                            binary_spec(
                                binary_spec(dist_spec(*ll), operator, *right),
                                inner,
                                binary_spec(dist_spec(*lr), operator, *right),
                            )
                        } else {
                            binary_spec(dist_spec(*left), operator, dist_spec(*right))
                        }
                    },
                    _ => binary_spec(dist_spec(*left), operator, dist_spec(*right)),
                }
            } else {
                binary_spec(dist_spec(*left), operator, dist_spec(*right))
            }
        },
        Expression::Not(x) => not_spec(dist_spec(*x)),
        Expression::Atomic(_) => e,
    }
}

/// The log entries the distribution pass appends, in order.
pub open spec fn dist_ops(e: Expression) -> Seq<(Seq<char>, Seq<char>, Law)>
    decreases e,
{
    match e {
        Expression::Binary { left, operator, right } => {
            if operator is And || operator is Or {
                let inner: BinaryOperator = if operator is And {
                    BinaryOperator::Or
                } else {
                    BinaryOperator::And
                };
                match (*left, *right) {
                    (Expression::Atomic(_), Expression::Binary { left: rl, operator: ro, right: rr }) => {
                        if ro == inner {
                            dist_ops(*rl) + dist_ops(*rr) + op_entry(
                                binary_spec(*left, operator, *right),
                                binary_spec(
                                    binary_spec(*left, operator, dist_spec(*rl)),
                                    inner,
                                    binary_spec(*left, operator, dist_spec(*rr)),
                                ),
                                Law::DistributiveLaw,
                            )
                        } else {
                            dist_ops(*left) + dist_ops(*right)
                        }
                    },
                    (Expression::Binary { left: ll, operator: lo, right: lr }, Expression::Atomic(_)) => {
                        if lo == inner {
                            dist_ops(*ll) + dist_ops(*lr) + op_entry(
                                binary_spec(*left, operator, *right),
                                binary_spec(
                                    binary_spec(dist_spec(*ll), operator, *right),
                                    inner,
                                    binary_spec(dist_spec(*lr), operator, *right),
                                ),
                                Law::DistributiveLaw,
                            )
                        } else {
                            dist_ops(*left) + dist_ops(*right)
                        }
                    },
                    _ => dist_ops(*left) + dist_ops(*right),
                }
            } else {
                dist_ops(*left) + dist_ops(*right)
            }
        },
        Expression::Not(x) => dist_ops(*x),
        Expression::Atomic(_) => Seq::empty(),
    }
}

impl Expression {
    /// Eliminates double negations: `¬¬a` becomes `a`, collapsing any run of
    /// nested negations to its parity, logging one step per removed pair.
    pub fn double_negation_elimination(&self, operations: &mut Vec<Operation>) -> (r: Expression)
        ensures
            r == dne_spec(*self),
            op_models(final(operations)@) == op_models(old(operations)@) + dne_ops(*self),
        decreases *self,
    {
        match self {
            Expression::Not(expr) => {
                match &**expr {
                    Expression::Not(after) => {
                        if let Some(operation) = Operation::new(
                            self,
                            after,
                            Law::DoubleNegationElimination,
                        ) {
                            operations.push(operation);
                        }
                        let ghost ops1 = operations@;
                        let r = after.double_negation_elimination(operations);
                        proof {
                            assert(op_models(ops1) =~= op_models(old(operations)@) + op_entry(
                                *self,
                                **after,
                                Law::DoubleNegationElimination,
                            ));
                            assert(op_models(operations@) =~= op_models(old(operations)@)
                                + dne_ops(*self));
                        }
                        r
                    },
                    _ => {
                        proof {
                            assert(op_models(operations@) =~= op_models(old(operations)@)
                                + dne_ops(*self));
                        }
                        self.clone()
                    },
                }
            },
            Expression::Binary { left, operator, right } => {
                let l = left.double_negation_elimination(operations);
                let ghost ops1 = operations@;
                let r = right.double_negation_elimination(operations);
                proof {
                    assert(op_models(operations@) =~= op_models(old(operations)@) + dne_ops(
                        *self,
                    ));
                }
                binary(l, *operator, r)
            },
            Expression::Atomic(_) => {
                proof {
                    assert(op_models(operations@) =~= op_models(old(operations)@) + dne_ops(
                        *self,
                    ));
                }
                self.clone()
            },
        }
    }

    /// Applies the distributive law once, bottom-up, logging each
    /// application.
    pub fn distributive_law(&self, operations: &mut Vec<Operation>) -> (r: Expression)
        ensures
            r == dist_spec(*self),
            op_models(final(operations)@) == op_models(old(operations)@) + dist_ops(*self),
        decreases *self,
    {
        match self {
            Expression::Binary { left, operator, right } => {
                if matches!(operator, BinaryOperator::And) || matches!(
                    operator,
                    BinaryOperator::Or,
                ) {
                    let inner_op: BinaryOperator = if matches!(operator, BinaryOperator::And) {
                        BinaryOperator::Or
                    } else {
                        BinaryOperator::And
                    };
                    match (&**left, &**right) {
                        (
                            Expression::Atomic(_),
                            Expression::Binary { left: rl, operator: ro, right: rr },
                        ) if *ro == inner_op => {
                            let rl2 = rl.distributive_law(operations);
                            let ghost ops1 = operations@;
                            let rr2 = rr.distributive_law(operations);
                            let ghost ops2 = operations@;
                            let before = binary((**left).clone(), *operator, (**right).clone());
                            let after = binary(
                                binary((**left).clone(), *operator, rl2),
                                inner_op,
                                binary((**left).clone(), *operator, rr2),
                            );
                            if let Some(operation) = Operation::new(
                                &before,
                                &after,
                                Law::DistributiveLaw,
                            ) {
                                operations.push(operation);
                                proof {
                                    assert(op_models(operations@) =~= op_models(ops2) + seq![
                                        operation.model(),
                                    ]);
                                }
                            }
                            proof {
                                assert(op_models(operations@) =~= op_models(old(operations)@)
                                    + dist_ops(*self));
                            }
                            after
                        },
                        (
                            Expression::Binary { left: ll, operator: lo, right: lr },
                            Expression::Atomic(_),
                        ) if *lo == inner_op => {
                            let ll2 = ll.distributive_law(operations);
                            let ghost ops1 = operations@;
                            let lr2 = lr.distributive_law(operations);
                            let ghost ops2 = operations@;
                            let before = binary((**left).clone(), *operator, (**right).clone());
                            let after = binary(
                                binary(ll2, *operator, (**right).clone()),
                                inner_op,
                                binary(lr2, *operator, (**right).clone()),
                            );
                            if let Some(operation) = Operation::new(
                                &before,
                                &after,
                                Law::DistributiveLaw,
                            ) {
                                operations.push(operation);
                                proof {
                                    assert(op_models(operations@) =~= op_models(ops2) + seq![
                                        operation.model(),
                                    ]);
                                }
                            }
                            proof {
                                assert(op_models(operations@) =~= op_models(old(operations)@)
                                    + dist_ops(*self));
                            }
                            after
                        },
                        _ => {
                            let l = left.distributive_law(operations);
                            let r = right.distributive_law(operations);
                            proof {
                                assert(op_models(operations@) =~= op_models(old(operations)@)
                                    + dist_ops(*self));
                            }
                            binary(l, *operator, r)
                        },
                    }
                } else {
                    let l = left.distributive_law(operations);
                    let r = right.distributive_law(operations);
                    proof {
                        assert(op_models(operations@) =~= op_models(old(operations)@) + dist_ops(
                            *self,
                        ));
                    }
                    binary(l, *operator, r)
                }
            },
            Expression::Not(expr) => {
                let inner = expr.distributive_law(operations);
                proof {
                    assert(op_models(operations@) =~= op_models(old(operations)@) + dist_ops(
                        *self,
                    ));
                }
                not(inner)
            },
            Expression::Atomic(_) => {
                proof {
                    assert(op_models(operations@) =~= op_models(old(operations)@) + dist_ops(
                        *self,
                    ));
                }
                self.clone()
            },
        }
    }
}


/// A termination measure for the De Morgan pass: negations double the weight
/// of their operand, so pushing a negation inward strictly shrinks it.
pub open spec fn weight(e: Expression) -> nat
    decreases e,
{
    match e {
        Expression::Not(x) => 2 * weight(*x),
        Expression::Binary { left, right, .. } => weight(*left) + weight(*right) + 1,
        Expression::Atomic(_) => 1,
    }
}

/// The tree after the De Morgan pass: `¬(a ⋀ b)` becomes `¬a ⋁ ¬b` and
/// `¬(a ⋁ b)` becomes `¬a ⋀ ¬b`; the rewritten node is visited again, since
/// the new negated operands may call for further expansion.
pub open spec fn dm_spec(e: Expression) -> Expression
    decreases weight(e), e,
{
    match e {
        Expression::Not(x) => match *x {
            Expression::Binary { left, operator, right } => {
                if operator is And || operator is Or {
                    let la = not_spec(dm_spec(*left));
                    let ra = not_spec(dm_spec(*right));
                    let res = if operator is And {
                        or_spec(la, ra)
                    } else {
                        and_spec(la, ra)
                    };
                    if weight(res) < weight(e) {
                        dm_spec(res)
                    } else {
                        res
                    }
                } else {
                    not_spec(dm_spec(*x))
                }
            },
            _ => not_spec(dm_spec(*x)),
        },
        Expression::Binary { left, operator, right } => binary_spec(
            dm_spec(*left),
            operator,
            dm_spec(*right),
        ),
        Expression::Atomic(_) => e,
    }
}

/// The log entries the De Morgan pass appends, in order.
pub open spec fn dm_ops(e: Expression) -> Seq<(Seq<char>, Seq<char>, Law)>
    decreases weight(e), e,
{
    match e {
        Expression::Not(x) => match *x {
            Expression::Binary { left, operator, right } => {
                if operator is And || operator is Or {
                    let la = not_spec(dm_spec(*left));
                    let ra = not_spec(dm_spec(*right));
                    let res = if operator is And {
                        or_spec(la, ra)
                    } else {
                        and_spec(la, ra)
                    };
                    dm_ops(*left) + dm_ops(*right) + op_entry(e, res, Law::DeMorgansLaws) + (
                    if weight(res) < weight(e) {
                        dm_ops(res)
                    } else {
                        Seq::empty()
                    })
                } else {
                    dm_ops(*x)
                }
            },
            _ => dm_ops(*x),
        },
        Expression::Binary { left, operator, right } => dm_ops(*left) + dm_ops(*right),
        Expression::Atomic(_) => Seq::empty(),
    }
}

/// The De Morgan pass never increases the weight of the tree, so the revisit
/// of a rewritten node is always the recursive case of [`dm_spec`].
pub proof fn lemma_dm_weight(e: Expression)
    ensures
        weight(dm_spec(e)) <= weight(e),
        weight(dm_spec(e)) >= 1,
    decreases weight(e), e,
{
    match e {
        Expression::Not(x) => match *x {
            Expression::Binary { left, operator, right } => {
                if operator is And || operator is Or {
                    lemma_dm_weight(*left);
                    lemma_dm_weight(*right);
                    let la = not_spec(dm_spec(*left));
                    let ra = not_spec(dm_spec(*right));
                    let res = if operator is And {
                        or_spec(la, ra)
                    } else {
                        and_spec(la, ra)
                    };
                    assert(weight(e) == 2 * (weight(*left) + weight(*right) + 1));
                    assert(weight(la) == 2 * weight(dm_spec(*left)));
                    assert(weight(ra) == 2 * weight(dm_spec(*right)));
                    assert(weight(res) == weight(la) + weight(ra) + 1);
                    assert(weight(res) < weight(e));
                    lemma_dm_weight(res);
                } else {
                    lemma_dm_weight(*x);
                }
            },
            _ => lemma_dm_weight(*x),
        },
        Expression::Binary { left, operator, right } => {
            lemma_dm_weight(*left);
            lemma_dm_weight(*right);
        },
        Expression::Atomic(_) => {},
    }
}

impl Expression {
    /// Applies De Morgan's laws, pushing negations over conjunctions and
    /// disjunctions inward, logging each application.
    pub fn de_morgans_laws(&self, operations: &mut Vec<Operation>) -> (r: Expression)
        ensures
            r == dm_spec(*self),
            op_models(final(operations)@) == op_models(old(operations)@) + dm_ops(*self),
        decreases weight(*self), *self,
    {
        match self {
            Expression::Not(expr) => {
                match &**expr {
                    Expression::Binary { left, operator, right } => {
                        if matches!(operator, BinaryOperator::And) || matches!(
                            operator,
                            BinaryOperator::Or,
                        ) {
                            proof {
                                assert(weight(*self) == 2 * weight(**expr));
                                assert(weight(**expr) == weight(**left) + weight(**right) + 1);
                            }
                            let la = left.de_morgans_laws(operations);
                            let ghost ops1 = operations@;
                            let ra = right.de_morgans_laws(operations);
                            let ghost ops2 = operations@;
                            let lneg = not(la);
                            let rneg = not(ra);
                            let result = if matches!(operator, BinaryOperator::And) {
                                or(lneg, rneg)
                            } else {
                                and(lneg, rneg)
                            };
                            if let Some(operation) = Operation::new(
                                self,
                                &result,
                                Law::DeMorgansLaws,
                            ) {
                                operations.push(operation);
                                proof {
                                    assert(op_models(operations@) =~= op_models(ops2) + seq![
                                        operation.model(),
                                    ]);
                                }
                            }
                            let ghost ops3 = operations@;
                            proof {
                                lemma_dm_weight(**left);
                                lemma_dm_weight(**right);
                                assert(weight(result) == weight(not_spec(dm_spec(**left)))
                                    + weight(not_spec(dm_spec(**right))) + 1);
                                assert(weight(not_spec(dm_spec(**left))) == 2 * weight(
                                    dm_spec(**left),
                                ));
                                assert(weight(not_spec(dm_spec(**right))) == 2 * weight(
                                    dm_spec(**right),
                                ));
                                assert(weight(result) < weight(*self));
                            }
                            let final_result = result.de_morgans_laws(operations);
                            proof {
                                assert(op_models(ops3) =~= op_models(old(operations)@) + dm_ops(
                                    **left,
                                ) + dm_ops(**right) + op_entry(
                                    *self,
                                    result,
                                    Law::DeMorgansLaws,
                                ));
                                assert(op_models(operations@) =~= op_models(old(operations)@)
                                    + dm_ops(*self));
                            }
                            final_result
                        } else {
                            let inner = expr.de_morgans_laws(operations);
                            proof {
                                assert(op_models(operations@) =~= op_models(old(operations)@)
                                    + dm_ops(*self));
                            }
                            not(inner)
                        }
                    },
                    _ => {
                        let inner = expr.de_morgans_laws(operations);
                        proof {
                            assert(op_models(operations@) =~= op_models(old(operations)@) + dm_ops(
                                *self,
                            ));
                        }
                        not(inner)
                    },
                }
            },
            Expression::Binary { left, operator, right } => {
                let l = left.de_morgans_laws(operations);
                let r = right.de_morgans_laws(operations);
                proof {
                    assert(op_models(operations@) =~= op_models(old(operations)@) + dm_ops(
                        *self,
                    ));
                }
                binary(l, *operator, r)
            },
            Expression::Atomic(_) => {
                proof {
                    assert(op_models(operations@) =~= op_models(old(operations)@) + dm_ops(
                        *self,
                    ));
                }
                self.clone()
            },
        }
    }
}


/// The tree after the absorption pass. A binary node with equal operands
/// collapses to one of them; `a ⋀ (a ⋁ b)`, `(a ⋁ b) ⋀ a` and their duals
/// collapse to the shared operand; a disjunction that repeats one of its own
/// disjuncts drops the repetition. Operand equality honours `ic`.
pub open spec fn absorb_spec(e: Expression, ic: bool) -> Expression
    decreases e,
{
    match e {
        Expression::Binary { left, operator, right } => {
            let l = *left;
            let r = *right;
            if (operator is And || operator is Or) && eq_view(l@, r@, ic) {
                absorb_spec(l, ic)
            } else if operator is And && (is_operand_view(r@, l@, ic) && is_bin_op(
                l,
                BinaryOperator::And,
            ) || is_operand_view(l@, r@, ic) && is_bin_op(r, BinaryOperator::Or)) {
                absorb_spec(l, ic)
            } else if operator is And && (is_operand_view(r@, l@, ic) && is_bin_op(
                l,
                BinaryOperator::Or,
            ) || is_operand_view(l@, r@, ic) && is_bin_op(r, BinaryOperator::And)) {
                absorb_spec(r, ic)
            } else if operator is Or && (is_operand_view(r@, l@, ic) && is_bin_op(
                l,
                BinaryOperator::And,
            ) || is_operand_view(l@, r@, ic) && is_bin_op(r, BinaryOperator::Or)) {
                absorb_spec(r, ic)
            } else if operator is Or && is_operand_view(r@, l@, ic) && is_bin_op(
                l,
                BinaryOperator::Or,
            ) {
                absorb_spec(l, ic)
            } else if operator is Or && is_operand_view(l@, r@, ic) && is_bin_op(
                r,
                BinaryOperator::And,
            ) {
                absorb_spec(l, ic)
            } else {
                binary_spec(absorb_spec(l, ic), operator, absorb_spec(r, ic))
            }
        },
        Expression::Not(x) => not_spec(absorb_spec(*x, ic)),
        Expression::Atomic(_) => e,
    }
}

/// The log entries the absorption pass appends, in order.
pub open spec fn absorb_ops(e: Expression, ic: bool) -> Seq<(Seq<char>, Seq<char>, Law)>
    decreases e,
{
    match e {
        Expression::Binary { left, operator, right } => {
            let l = *left;
            let r = *right;
            if (operator is And || operator is Or) && eq_view(l@, r@, ic) {
                op_entry(e, l, Law::AbsorptionLaw) + absorb_ops(l, ic)
            } else if operator is And && (is_operand_view(r@, l@, ic) && is_bin_op(
                l,
                BinaryOperator::And,
            ) || is_operand_view(l@, r@, ic) && is_bin_op(r, BinaryOperator::Or)) {
                op_entry(e, l, Law::AbsorptionLaw) + absorb_ops(l, ic)
            } else if operator is And && (is_operand_view(r@, l@, ic) && is_bin_op(
                l,
                BinaryOperator::Or,
            ) || is_operand_view(l@, r@, ic) && is_bin_op(r, BinaryOperator::And)) {
                op_entry(e, r, Law::AbsorptionLaw) + absorb_ops(r, ic)
            } else if operator is Or && (is_operand_view(r@, l@, ic) && is_bin_op(
                l,
                BinaryOperator::And,
            ) || is_operand_view(l@, r@, ic) && is_bin_op(r, BinaryOperator::Or)) {
                op_entry(e, r, Law::AbsorptionLaw) + absorb_ops(r, ic)
            } else if operator is Or && is_operand_view(r@, l@, ic) && is_bin_op(
                l,
                BinaryOperator::Or,
            ) {
                op_entry(e, l, Law::AbsorptionLaw) + absorb_ops(l, ic)
            } else if operator is Or && is_operand_view(l@, r@, ic) && is_bin_op(
                r,
                BinaryOperator::And,
            ) {
                op_entry(e, l, Law::AbsorptionLaw) + absorb_ops(l, ic)
            } else {
                absorb_ops(l, ic) + absorb_ops(r, ic)
            }
        },
        Expression::Not(x) => absorb_ops(*x, ic),
        Expression::Atomic(_) => Seq::empty(),
    }
}

impl Expression {
    /// Applies the absorption law, collapsing duplicated operands, logging
    /// each collapse.
    pub fn absorption_law(&self, operations: &mut Vec<Operation>, ignore_case: bool) -> (r:
        Expression)
        ensures
            r == absorb_spec(*self, ignore_case),
            op_models(final(operations)@) == op_models(old(operations)@) + absorb_ops(
                *self,
                ignore_case,
            ),
        decreases *self,
    {
        match self {
            Expression::Binary { left, operator, right } => {
                let is_and_or = matches!(operator, BinaryOperator::And) || matches!(
                    operator,
                    BinaryOperator::Or,
                );
                if is_and_or && (&**left).eq(&**right, ignore_case) {
                    if let Some(operation) = Operation::new(self, left, Law::AbsorptionLaw) {
                        operations.push(operation);
                    }
                    let ghost ops1 = operations@;
                    let r = left.absorption_law(operations, ignore_case);
                    proof {
                        assert(op_models(ops1) =~= op_models(old(operations)@) + op_entry(
                            *self,
                            **left,
                            Law::AbsorptionLaw,
                        ));
                        assert(op_models(operations@) =~= op_models(old(operations)@)
                            + absorb_ops(*self, ignore_case));
                    }
                    return r;
                }
                if matches!(operator, BinaryOperator::And) {
                    if right.is_in(&**left, ignore_case) && left.is_and() || left.is_in(
                        &**right,
                        ignore_case,
                    ) && right.is_or() {
                        if let Some(operation) = Operation::new(self, left, Law::AbsorptionLaw) {
                            operations.push(operation);
                        }
                        let ghost ops1 = operations@;
                        let r = left.absorption_law(operations, ignore_case);
                        proof {
                            assert(op_models(ops1) =~= op_models(old(operations)@) + op_entry(
                                *self,
                                **left,
                                Law::AbsorptionLaw,
                            ));
                            assert(op_models(operations@) =~= op_models(old(operations)@)
                                + absorb_ops(*self, ignore_case));
                        }
                        return r;
                    }
                    if right.is_in(&**left, ignore_case) && left.is_or() || left.is_in(
                        &**right,
                        ignore_case,
                    ) && right.is_and() {
                        if let Some(operation) = Operation::new(self, right, Law::AbsorptionLaw) {
                            operations.push(operation);
                        }
                        let ghost ops1 = operations@;
                        let r = right.absorption_law(operations, ignore_case);
                        proof {
                            assert(op_models(ops1) =~= op_models(old(operations)@) + op_entry(
                                *self,
                                **right,
                                Law::AbsorptionLaw,
                            ));
                            assert(op_models(operations@) =~= op_models(old(operations)@)
                                + absorb_ops(*self, ignore_case));
                        }
                        return r;
                    }
                }
                if matches!(operator, BinaryOperator::Or) {
                    if right.is_in(&**left, ignore_case) && left.is_and() || left.is_in(
                        &**right,
                        ignore_case,
                    ) && right.is_or() {
                        if let Some(operation) = Operation::new(self, right, Law::AbsorptionLaw) {
                            operations.push(operation);
                        }
                        let ghost ops1 = operations@;
                        let r = right.absorption_law(operations, ignore_case);
                        proof {
                            assert(op_models(ops1) =~= op_models(old(operations)@) + op_entry(
                                *self,
                                **right,
                                Law::AbsorptionLaw,
                            ));
                            assert(op_models(operations@) =~= op_models(old(operations)@)
                                + absorb_ops(*self, ignore_case));
                        }
                        return r;
                    }
                    if right.is_in(&**left, ignore_case) && left.is_or() || left.is_in(
                        &**right,
                        ignore_case,
                    ) && right.is_and() {
                        if let Some(operation) = Operation::new(self, left, Law::AbsorptionLaw) {
                            operations.push(operation);
                        }
                        let ghost ops1 = operations@;
                        let r = left.absorption_law(operations, ignore_case);
                        proof {
                            assert(op_models(ops1) =~= op_models(old(operations)@) + op_entry(
                                *self,
                                **left,
                                Law::AbsorptionLaw,
                            ));
                            assert(op_models(operations@) =~= op_models(old(operations)@)
                                + absorb_ops(*self, ignore_case));
                        }
                        return r;
                    }
                }
                let l2 = left.absorption_law(operations, ignore_case);
                let r2 = right.absorption_law(operations, ignore_case);
                proof {
                    assert(op_models(operations@) =~= op_models(old(operations)@) + absorb_ops(
                        *self,
                        ignore_case,
                    ));
                }
                binary(l2, *operator, r2)
            },
            Expression::Not(x) => {
                let inner = x.absorption_law(operations, ignore_case);
                proof {
                    assert(op_models(operations@) =~= op_models(old(operations)@) + absorb_ops(
                        *self,
                        ignore_case,
                    ));
                }
                not(inner)
            },
            Expression::Atomic(_) => {
                proof {
                    assert(op_models(operations@) =~= op_models(old(operations)@) + absorb_ops(
                        *self,
                        ignore_case,
                    ));
                }
                self.clone()
            },
        }
    }
}


/// The other of the two lattice connectives.
pub open spec fn dual_of(op: BinaryOperator) -> BinaryOperator {
    if op is And {
        BinaryOperator::Or
    } else {
        BinaryOperator::And
    }
}

/// What [`evaluate_equals_or_opposites`] returns: given the top node `this`
/// joined by `op` with a compound of the dual connective whose operands are
/// `l` and `r`, the collapsed replacement, or nothing when no collapse
/// applies.
pub open spec fn eeo_spec(
    this: Expression,
    l: Expression,
    r: Expression,
    op: BinaryOperator,
    ic: bool,
) -> Option<Expression> {
    if eq_view(this@, l@, ic) || eq_view(this@, r@, ic) {
        Some(absorb_spec(this, ic))
    } else if l@.is_atomic_view() && r@.is_atomic_view() {
        if opposite_view(this@, l@, ic) {
            Some(binary_spec(absorb_spec(r, ic), op, absorb_spec(this, ic)))
        } else if opposite_view(this@, r@, ic) {
            Some(binary_spec(absorb_spec(l, ic), op, absorb_spec(this, ic)))
        } else {
            None
        }
    } else {
        None
    }
}

/// The log entries [`evaluate_equals_or_opposites`] appends, in order.
pub open spec fn eeo_ops(
    this: Expression,
    l: Expression,
    r: Expression,
    op: BinaryOperator,
    ic: bool,
) -> Seq<(Seq<char>, Seq<char>, Law)> {
    if eq_view(this@, l@, ic) || eq_view(this@, r@, ic) {
        absorb_ops(this, ic)
    } else if l@.is_atomic_view() && r@.is_atomic_view() {
        if opposite_view(this@, l@, ic) {
            absorb_ops(r, ic) + absorb_ops(this, ic)
        } else if opposite_view(this@, r@, ic) {
            absorb_ops(l, ic) + absorb_ops(this, ic)
        } else {
            Seq::empty()
        }
    } else {
        Seq::empty()
    }
}

/// When `this` equals an operand of the compound side, the join collapses to
/// `this`; when `this` is a literal opposite to one of two atomic operands,
/// the opposite operand drops out. Returns the replacement, or nothing.
fn evaluate_equals_or_opposites(
    this: &Expression,
    l: &Expression,
    r: &Expression,
    op: BinaryOperator,
    ignore_case: bool,
    operations: &mut Vec<Operation>,
) -> (res: Option<Expression>)
    ensures
        res == eeo_spec(*this, *l, *r, op, ignore_case),
        op_models(final(operations)@) == op_models(old(operations)@) + eeo_ops(
            *this,
            *l,
            *r,
            op,
            ignore_case,
        ),
{
    if this.eq(l, ignore_case) || this.eq(r, ignore_case) {
        let res = this.absorption_law(operations, ignore_case);
        proof {
            assert(op_models(operations@) =~= op_models(old(operations)@) + eeo_ops(
                *this,
                *l,
                *r,
                op,
                ignore_case,
            ));
        }
        return Some(res);
    }
    if l.is_atomic() && r.is_atomic() {
        if this.opposite_eq(l, ignore_case) {
            let a = r.absorption_law(operations, ignore_case);
            let b = this.absorption_law(operations, ignore_case);
            proof {
                assert(op_models(operations@) =~= op_models(old(operations)@) + eeo_ops(
                    *this,
                    *l,
                    *r,
                    op,
                    ignore_case,
                ));
            }
            return Some(binary(a, op, b));
        }
        if this.opposite_eq(r, ignore_case) {
            let a = l.absorption_law(operations, ignore_case);
            let b = this.absorption_law(operations, ignore_case);
            proof {
                assert(op_models(operations@) =~= op_models(old(operations)@) + eeo_ops(
                    *this,
                    *l,
                    *r,
                    op,
                    ignore_case,
                ));
            }
            return Some(binary(a, op, b));
        }
    }
    proof {
        assert(op_models(operations@) =~= op_models(old(operations)@) + eeo_ops(
            *this,
            *l,
            *r,
            op,
            ignore_case,
        ));
    }
    None
}

/// Whether the right operand is a compound of the dual connective.
pub open spec fn aop_right_dual(r: Expression, op: BinaryOperator) -> bool {
    r matches Expression::Binary { operator: ro, .. } && ro == dual_of(op)
}

/// Whether the right operand repeats the connective and its left operand is
/// the opposite of `l`.
pub open spec fn aop_right_opp_left(l: Expression, r: Expression, op: BinaryOperator, ic: bool) -> bool {
    r matches Expression::Binary { left: rl, operator: ro, .. } && ro == op && opposite_view(
        l@,
        (*rl)@,
        ic,
    )
}

/// Whether the right operand repeats the connective and its right operand is
/// the opposite of `l`.
pub open spec fn aop_right_opp_right(l: Expression, r: Expression, op: BinaryOperator, ic: bool) -> bool {
    r matches Expression::Binary { right: rr, operator: ro, .. } && ro == op && opposite_view(
        l@,
        (*rr)@,
        ic,
    )
}

/// The collapse of a node `l op r` whose right operand is a compound of the
/// dual connective.
pub open spec fn aop_dual_result(this: Expression, compound: Expression, l: Expression, r: Expression, op: BinaryOperator, ic: bool) -> Expression
    recommends
        compound is Binary,
{
    match eeo_spec(this, *compound->Binary_left, *compound->Binary_right, op, ic) {
        Some(x) => x,
        None => binary_spec(absorb_spec(l, ic), op, absorb_spec(r, ic)),
    }
}

/// The log of such a collapse: the inner collapse attempt, then the eager
/// absorption of both operands, whose results are used only when the attempt
/// found nothing.
pub open spec fn aop_dual_ops(this: Expression, l: Expression, r: Expression, op: BinaryOperator, ic: bool, other: Expression) -> Seq<(Seq<char>, Seq<char>, Law)>
    recommends
        other is Binary,
{
    eeo_ops(this, *other->Binary_left, *other->Binary_right, op, ic) + absorb_ops(l, ic)
        + absorb_ops(r, ic)
}

/// The tree after the opposite-literal absorption pass, which extends the
/// absorption law to a literal joined with a compound side that holds its
/// opposite: the opposite drops out, or a contradiction or tautology of two
/// opposite literals is kept as such.
pub open spec fn aop_spec(e: Expression, ic: bool) -> Expression
    decreases e,
{
    match e {
        Expression::Binary { left, operator, right } => {
            let l = *left;
            let r = *right;
            if operator is And || operator is Or {
                if aop_right_dual(r, operator) {
                    aop_dual_result(l, r, l, r, operator, ic)
                } else if aop_right_opp_left(l, r, operator, ic) {
                    binary_spec(l, operator, *r->Binary_left)
                } else if aop_right_opp_right(l, r, operator, ic) {
                    binary_spec(l, operator, *r->Binary_right)
                } else if aop_right_dual(l, operator) {
                    aop_dual_result(r, l, l, r, operator, ic)
                } else if aop_right_opp_left(r, l, operator, ic) {
                    binary_spec(r, operator, *l->Binary_left)
                } else if aop_right_opp_right(r, l, operator, ic) {
                    binary_spec(r, operator, *l->Binary_right)
                } else {
                    binary_spec(aop_spec(l, ic), operator, aop_spec(r, ic))
                }
            } else {
                binary_spec(aop_spec(l, ic), operator, aop_spec(r, ic))
            }
        },
        Expression::Not(x) => not_spec(aop_spec(*x, ic)),
        Expression::Atomic(_) => e,
    }
}

/// The log entries the opposite-literal absorption pass appends, in order.
pub open spec fn aop_ops(e: Expression, ic: bool) -> Seq<(Seq<char>, Seq<char>, Law)>
    decreases e,
{
    match e {
        Expression::Binary { left, operator, right } => {
            let l = *left;
            let r = *right;
            if operator is And || operator is Or {
                if aop_right_dual(r, operator) {
                    aop_dual_ops(l, l, r, operator, ic, r) + op_entry(
                        e,
                        aop_dual_result(l, r, l, r, operator, ic),
                        Law::AbsorptionLaw,
                    )
                } else if aop_right_opp_left(l, r, operator, ic) {
                    op_entry(e, binary_spec(l, operator, *r->Binary_left), Law::AbsorptionLaw)
                } else if aop_right_opp_right(l, r, operator, ic) {
                    op_entry(e, binary_spec(l, operator, *r->Binary_right), Law::AbsorptionLaw)
                } else if aop_right_dual(l, operator) {
                    aop_dual_ops(r, l, r, operator, ic, l) + op_entry(
                        e,
                        aop_dual_result(r, l, l, r, operator, ic),
                        Law::AbsorptionLaw,
                    )
                } else if aop_right_opp_left(r, l, operator, ic) {
                    op_entry(e, binary_spec(r, operator, *l->Binary_left), Law::AbsorptionLaw)
                } else if aop_right_opp_right(r, l, operator, ic) {
                    op_entry(e, binary_spec(r, operator, *l->Binary_right), Law::AbsorptionLaw)
                } else {
                    aop_ops(l, ic) + aop_ops(r, ic)
                }
            } else {
                aop_ops(l, ic) + aop_ops(r, ic)
            }
        },
        Expression::Not(x) => aop_ops(*x, ic),
        Expression::Atomic(_) => Seq::empty(),
    }
}

impl Expression {
    /// Extends the absorption law to opposite literals: in a join of a
    /// literal with a compound side holding its opposite, the opposite drops
    /// out. Logs each change.
    pub fn absorb_opposites(&self, operations: &mut Vec<Operation>, ignore_case: bool) -> (res:
        Expression)
        ensures
            res == aop_spec(*self, ignore_case),
            op_models(final(operations)@) == op_models(old(operations)@) + aop_ops(
                *self,
                ignore_case,
            ),
        decreases *self,
    {
        match self {
            Expression::Binary { left, operator, right } => {
                let is_and_or = matches!(operator, BinaryOperator::And) || matches!(
                    operator,
                    BinaryOperator::Or,
                );
                if is_and_or {
                    let other_op = if matches!(operator, BinaryOperator::And) {
                        BinaryOperator::Or
                    } else {
                        BinaryOperator::And
                    };
                    let mut right_applies = false;
                    if let Expression::Binary { left: rl, operator: ro, right: rr } = &**right {
                        right_applies = *ro == other_op || (*ro == *operator && (left.opposite_eq(
                            rl,
                            ignore_case,
                        ) || left.opposite_eq(rr, ignore_case)));
                    }
                    if right_applies {
                        return self.absorb_opposites_right(operations, ignore_case);
                    }
                    let mut left_applies = false;
                    if let Expression::Binary { left: ll, operator: lo, right: lr } = &**left {
                        left_applies = *lo == other_op || (*lo == *operator && (right.opposite_eq(
                            ll,
                            ignore_case,
                        ) || right.opposite_eq(lr, ignore_case)));
                    }
                    if left_applies {
                        return self.absorb_opposites_left(operations, ignore_case);
                    }
                }
                let l2 = left.absorb_opposites(operations, ignore_case);
                let r2 = right.absorb_opposites(operations, ignore_case);
                proof {
                    assert(op_models(operations@) =~= op_models(old(operations)@) + aop_ops(
                        *self,
                        ignore_case,
                    ));
                }
                binary(l2, *operator, r2)
            },
            Expression::Not(x) => {
                let inner = x.absorb_opposites(operations, ignore_case);
                proof {
                    assert(op_models(operations@) =~= op_models(old(operations)@) + aop_ops(
                        *self,
                        ignore_case,
                    ));
                }
                not(inner)
            },
            Expression::Atomic(_) => {
                proof {
                    assert(op_models(operations@) =~= op_models(old(operations)@) + aop_ops(
                        *self,
                        ignore_case,
                    ));
                }
                self.clone()
            },
        }
    }

    /// The sub-case of [`Expression::absorb_opposites`] where the right
    /// operand is the side that matches.
    #[verifier::rlimit(100)]
    #[verifier::spinoff_prover]
    fn absorb_opposites_right(&self, operations: &mut Vec<Operation>, ignore_case: bool) -> (res:
        Expression)
        requires
            *self matches Expression::Binary { left, operator, right } && (operator is And
                || operator is Or) && (aop_right_dual(*right, operator) || aop_right_opp_left(
                *left,
                *right,
                operator,
                ignore_case,
            ) || aop_right_opp_right(*left, *right, operator, ignore_case)),
        ensures
            res == aop_spec(*self, ignore_case),
            op_models(final(operations)@) == op_models(old(operations)@) + aop_ops(
                *self,
                ignore_case,
            ),
    {
        if let Expression::Binary { left, operator, right } = self {
            if let Expression::Binary { left: rl, operator: ro, right: rr } = &**right {
                if *ro == if matches!(operator, BinaryOperator::And) {
                    BinaryOperator::Or
                } else {
                    BinaryOperator::And
                } {
                    let inner = evaluate_equals_or_opposites(
                        left,
                        rl,
                        rr,
                        *operator,
                        ignore_case,
                        operations,
                    );
                    let dl = left.absorption_law(operations, ignore_case);
                    let dr = right.absorption_law(operations, ignore_case);
                    let ghost ops1 = operations@;
                    let result = match inner {
                        Some(x) => x,
                        None => binary(dl, *operator, dr),
                    };
                    if let Some(operation) = Operation::new(self, &result, Law::AbsorptionLaw) {
                        operations.push(operation);
                        proof {
                            assert(op_models(operations@) =~= op_models(ops1) + seq![
                                operation.model(),
                            ]);
                        }
                    }
                    proof {
                        assert(op_models(operations@) =~= op_models(old(operations)@) + aop_ops(
                            *self,
                            ignore_case,
                        ));
                    }
                    return result;
                }
                if left.opposite_eq(rl, ignore_case) {
                    let result = binary((**left).clone(), *operator, (**rl).clone());
                    if let Some(operation) = Operation::new(self, &result, Law::AbsorptionLaw) {
                        operations.push(operation);
                    }
                    proof {
                        assert(op_models(operations@) =~= op_models(old(operations)@) + aop_ops(
                            *self,
                            ignore_case,
                        ));
                    }
                    return result;
                }
                let result = binary((**left).clone(), *operator, (**rr).clone());
                if let Some(operation) = Operation::new(self, &result, Law::AbsorptionLaw) {
                    operations.push(operation);
                }
                proof {
                    assert(op_models(operations@) =~= op_models(old(operations)@) + aop_ops(
                        *self,
                        ignore_case,
                    ));
                }
                return result;
            }
            proof {
                assert(false);
            }
            (**left).clone()
        } else {
            proof {
                assert(false);
            }
            self.clone()
        }
    }

    /// The sub-case of [`Expression::absorb_opposites`] where only the left
    /// operand is the side that matches.
    #[verifier::rlimit(100)]
    #[verifier::spinoff_prover]
    fn absorb_opposites_left(&self, operations: &mut Vec<Operation>, ignore_case: bool) -> (res:
        Expression)
        requires
            *self matches Expression::Binary { left, operator, right } && (operator is And
                || operator is Or) && !(aop_right_dual(*right, operator) || aop_right_opp_left(
                *left,
                *right,
                operator,
                ignore_case,
            ) || aop_right_opp_right(*left, *right, operator, ignore_case)) && (aop_right_dual(
                *left,
                operator,
            ) || aop_right_opp_left(*right, *left, operator, ignore_case) || aop_right_opp_right(
                *right,
                *left,
                operator,
                ignore_case,
            )),
        ensures
            res == aop_spec(*self, ignore_case),
            op_models(final(operations)@) == op_models(old(operations)@) + aop_ops(
                *self,
                ignore_case,
            ),
    {
        if let Expression::Binary { left, operator, right } = self {
            if let Expression::Binary { left: ll, operator: lo, right: lr } = &**left {
                if *lo == if matches!(operator, BinaryOperator::And) {
                    BinaryOperator::Or
                } else {
                    BinaryOperator::And
                } {
                    let inner = evaluate_equals_or_opposites(
                        right,
                        ll,
                        lr,
                        *operator,
                        ignore_case,
                        operations,
                    );
                    let dl = left.absorption_law(operations, ignore_case);
                    let dr = right.absorption_law(operations, ignore_case);
                    let ghost ops1 = operations@;
                    let result = match inner {
                        Some(x) => x,
                        None => binary(dl, *operator, dr),
                    };
                    if let Some(operation) = Operation::new(self, &result, Law::AbsorptionLaw) {
                        operations.push(operation);
                        proof {
                            assert(op_models(operations@) =~= op_models(ops1) + seq![
                                operation.model(),
                            ]);
                        }
                    }
                    proof {
                        assert(op_models(operations@) =~= op_models(old(operations)@) + aop_ops(
                            *self,
                            ignore_case,
                        ));
                    }
                    return result;
                }
                if right.opposite_eq(ll, ignore_case) {
                    let result = binary((**right).clone(), *operator, (**ll).clone());
                    if let Some(operation) = Operation::new(self, &result, Law::AbsorptionLaw) {
                        operations.push(operation);
                    }
                    proof {
                        assert(op_models(operations@) =~= op_models(old(operations)@) + aop_ops(
                            *self,
                            ignore_case,
                        ));
                    }
                    return result;
                }
                let result = binary((**right).clone(), *operator, (**lr).clone());
                if let Some(operation) = Operation::new(self, &result, Law::AbsorptionLaw) {
                    operations.push(operation);
                }
                proof {
                    assert(op_models(operations@) =~= op_models(old(operations)@) + aop_ops(
                        *self,
                        ignore_case,
                    ));
                }
                return result;
            }
            proof {
                assert(false);
            }
            (**left).clone()
        } else {
            proof {
                assert(false);
            }
            self.clone()
        }
    }
}


/// The tree the full pipeline produces: implication elimination, De Morgan,
/// absorption, opposite-literal absorption, distribution, double-negation
/// elimination, in that order, each run once.
pub open spec fn simplify_spec(e: Expression, ic: bool) -> Expression {
    dne_spec(dist_spec(aop_spec(absorb_spec(dm_spec(elim_spec(e)), ic), ic)))
}

/// The full log of the pipeline, in pass order.
pub open spec fn simplify_ops(e: Expression, ic: bool) -> Seq<(Seq<char>, Seq<char>, Law)> {
    let e1 = elim_spec(e);
    let e2 = dm_spec(e1);
    let e3 = absorb_spec(e2, ic);
    let e4 = aop_spec(e3, ic);
    let e5 = dist_spec(e4);
    elim_ops(e) + dm_ops(e1) + absorb_ops(e2, ic) + aop_ops(e3, ic) + dist_ops(e4) + dne_ops(e5)
}

impl Expression {
    /// Runs the rewrite pipeline once, in its fixed order, and returns the
    /// simplified expression together with the ordered log of every change.
    pub fn simplify(&self, options: Options) -> (r: (Expression, Vec<Operation>))
        ensures
            r.0 == simplify_spec(*self, options.ignore_case),
            op_models(r.1@) == simplify_ops(*self, options.ignore_case),
            forall|env: Map<Seq<char>, bool>|
                (options.ignore_case ==> crate::laws::env_folds_case(env))
                    ==> #[trigger] crate::semantics::eval_view(r.0@, env)
                    == crate::semantics::eval_view(self@, env),
    {
        let mut operations: Vec<Operation> = Vec::new();
        let e1 = self.elimination_of_implication(&mut operations);
        let e2 = e1.de_morgans_laws(&mut operations);
        let e3 = e2.absorption_law(&mut operations, options.ignore_case);
        let e4 = e3.absorb_opposites(&mut operations, options.ignore_case);
        let e5 = e4.distributive_law(&mut operations);
        let e6 = e5.double_negation_elimination(&mut operations);
        proof {
            assert(op_models(operations@) =~= simplify_ops(*self, options.ignore_case));
            assert forall|env: Map<Seq<char>, bool>|
                (options.ignore_case ==> crate::laws::env_folds_case(env)) implies
                #[trigger] crate::semantics::eval_view(e6@, env) == crate::semantics::eval_view(
                    self@,
                    env,
                ) by {
                crate::laws::lemma_simplify_preserves(*self, options.ignore_case, env);
            }
        }
        (e6, operations)
    }

    /// The associative law is recognised but not implemented: invoking it
    /// always fails with an unsupported-operation error and leaves the log
    /// untouched.
    pub fn associative_law(&self, operations: &mut Vec<Operation>) -> (r: Result<Expression, Error>)
        ensures
            r matches Err(e) && e.kind == ErrorKind::UnsupportedOperation,
            *final(operations) == *old(operations),
    {
        let _ = operations;
        Err(Error::new(String::new(), ErrorKind::UnsupportedOperation))
    }

    /// The commutative law is recognised but not implemented: invoking it
    /// always fails with an unsupported-operation error and leaves the log
    /// untouched.
    pub fn commutative_law(&self, operations: &mut Vec<Operation>) -> (r: Result<Expression, Error>)
        ensures
            r matches Err(e) && e.kind == ErrorKind::UnsupportedOperation,
            *final(operations) == *old(operations),
    {
        let _ = operations;
        Err(Error::new(String::new(), ErrorKind::UnsupportedOperation))
    }
}

} // verus!

//! The expression tree: a recursive sum type for propositional formulas,
//! its constructors, and its structural operations.

use vstd::prelude::*;

verus! {

/// The binary connectives, ordered here from loosest- to tightest-binding.
#[derive(Debug, Copy, Clone, PartialEq, Eq, Structural, Hash)]
pub enum BinaryOperator {
    Implication,
    Or,
    And,
}

/// An immutable propositional formula: a variable leaf, a negation, or a
/// binary connective applied to two sub-formulas.
#[derive(Debug)]
pub enum Expression {
    Not(Box<Expression>),
    Binary { left: Box<Expression>, operator: BinaryOperator, right: Box<Expression> },
    Atomic(String),
}

/// The mathematical shape of an [`Expression`]: the same tree with variable
/// names abstracted to character sequences.
#[verifier::ext_equal]
pub enum ExpressionView {
    Not(Box<ExpressionView>),
    Binary { left: Box<ExpressionView>, operator: BinaryOperator, right: Box<ExpressionView> },
    Atomic(Seq<char>),
}

pub open spec fn expr_view(e: Expression) -> ExpressionView
    decreases e,
{
    match e {
        Expression::Not(x) => ExpressionView::Not(Box::new(expr_view(*x))),
        Expression::Binary { left, operator, right } => ExpressionView::Binary {
            left: Box::new(expr_view(*left)),
            operator,
            right: Box::new(expr_view(*right)),
        },
        Expression::Atomic(s) => ExpressionView::Atomic(s@),
    }
}

impl View for Expression {
    type V = ExpressionView;

    open spec fn view(&self) -> ExpressionView {
        expr_view(*self)
    }
}

impl BinaryOperator {
    /// The truth semantics of the connective.
    pub fn eval(&self, left: bool, right: bool) -> (r: bool)
        ensures
            r == self.eval_spec(left, right),
    {
        match self {
            BinaryOperator::And => left && right,
            BinaryOperator::Or => left || right,
            BinaryOperator::Implication => !left || right,
        }
    }

    pub open spec fn eval_spec(self, left: bool, right: bool) -> bool {
        match self {
            BinaryOperator::And => left && right,
            BinaryOperator::Or => left || right,
            BinaryOperator::Implication => !left || right,
        }
    }

    pub fn is_and(&self) -> (r: bool)
        ensures
            r == (self is And),
    {
        matches!(self, BinaryOperator::And)
    }

    pub fn is_or(&self) -> (r: bool)
        ensures
            r == (self is Or),
    {
        matches!(self, BinaryOperator::Or)
    }
}

/// Lower-cases an ASCII upper-case letter code; leaves every other character
/// code unchanged. Used for the case-insensitive comparison of variable names.
pub open spec fn fold_code(c: char) -> u32 {
    if 65 <= c as u32 <= 90 {
        (c as u32 + 32) as u32
    } else {
        c as u32
    }
}

/// Equality of two variable names, optionally ignoring ASCII case.
pub open spec fn names_equal(a: Seq<char>, b: Seq<char>, ignore_case: bool) -> bool {
    if ignore_case {
        a.len() == b.len() && forall|i: int| 0 <= i < a.len() ==> fold_code(a[i]) == fold_code(b[i])
    } else {
        a == b
    }
}

/// Structural equality of two formulas; variable names are compared with
/// [`names_equal`], operators and shape exactly.
pub open spec fn eq_view(a: ExpressionView, b: ExpressionView, ignore_case: bool) -> bool
    decreases a,
{
    match (a, b) {
        (ExpressionView::Not(x), ExpressionView::Not(y)) => eq_view(*x, *y, ignore_case),
        (
            ExpressionView::Binary { left: al, operator: ao, right: ar },
            ExpressionView::Binary { left: bl, operator: bo, right: br },
        ) => eq_view(*al, *bl, ignore_case) && ao == bo && eq_view(*ar, *br, ignore_case),
        (ExpressionView::Atomic(s), ExpressionView::Atomic(t)) => names_equal(s, t, ignore_case),
        _ => false,
    }
}

/// Two formulas are opposites when exactly one is a negation and its operand
/// equals the other; two negations are never opposites of each other.
pub open spec fn opposite_view(a: ExpressionView, b: ExpressionView, ignore_case: bool) -> bool {
    match (a, b) {
        (ExpressionView::Not(_), ExpressionView::Not(_)) => false,
        (ExpressionView::Not(x), _) => eq_view(*x, b, ignore_case),
        (_, ExpressionView::Not(y)) => eq_view(a, *y, ignore_case),
        _ => false,
    }
}

/// Whether `a` equals one of the two direct operands of the binary node `b`.
pub open spec fn is_operand_view(a: ExpressionView, b: ExpressionView, ignore_case: bool) -> bool {
    b matches ExpressionView::Binary { left, right, .. } && (eq_view(a, *left, ignore_case)
        || eq_view(a, *right, ignore_case))
}

/// Whether `e` is a binary node whose operator is `op`.
pub open spec fn is_bin_op(e: Expression, op: BinaryOperator) -> bool {
    e matches Expression::Binary { operator: o, .. } && o == op
}

/// The set of variable names occurring in a formula.
pub open spec fn atom_set(v: ExpressionView) -> Set<Seq<char>>
    decreases v,
{
    match v {
        ExpressionView::Not(x) => atom_set(*x),
        ExpressionView::Binary { left, right, .. } => atom_set(*left).union(atom_set(*right)),
        ExpressionView::Atomic(s) => Set::empty().insert(s),
    }
}

/// Compares two variable names, optionally ignoring ASCII case.
fn names_eq(a: &String, b: &String, ignore_case: bool) -> (r: bool)
    ensures
        r == names_equal(a@, b@, ignore_case),
{
    if !ignore_case {
        return a.eq(b);
    }
    let alen = a.as_str().unicode_len();
    let blen = b.as_str().unicode_len();
    if alen != blen {
        return false;
    }
    let mut i: usize = 0;
    while i < alen
        invariant
            alen == a@.len(),
            blen == b@.len(),
            alen == blen,
            0 <= i <= alen,
            forall|j: int| 0 <= j < i ==> fold_code(a@[j]) == fold_code(b@[j]),
        decreases alen - i,
    {
        let ca = a.as_str().get_char(i);
        let cb = b.as_str().get_char(i);
        let ua = ca as u32;
        let ub = cb as u32;
        let fa = if 65 <= ua && ua <= 90 { ua + 32 } else { ua };
        let fb = if 65 <= ub && ub <= 90 { ub + 32 } else { ub };
        if fa != fb {
            return false;
        }
        i = i + 1;
    }
    true
}

impl Expression {
    /// True for a variable leaf, and recursively for a negation of one.
    pub fn is_atomic(&self) -> (r: bool)
        ensures
            r == self@.is_atomic_view(),
        decreases *self,
    {
        match self {
            Expression::Not(expr) => expr.is_atomic(),
            Expression::Binary { .. } => false,
            Expression::Atomic(_) => true,
        }
    }

    /// Structural equality, optionally ignoring the ASCII case of variable
    /// names; operators and tree shape are always compared exactly.
    pub fn eq(&self, other: &Self, ignore_case: bool) -> (r: bool)
        ensures
            r == eq_view(self@, other@, ignore_case),
        decreases *self,
    {
        match (self, other) {
            (Expression::Not(a), Expression::Not(b)) => (&**a).eq(&**b, ignore_case),
            (
                Expression::Binary { left: al, operator: ao, right: ar },
                Expression::Binary { left: bl, operator: bo, right: br },
            ) => (&**al).eq(&**bl, ignore_case) && ao == bo && (&**ar).eq(&**br, ignore_case),
            (Expression::Atomic(a), Expression::Atomic(b)) => names_eq(a, b, ignore_case),
            _ => false,
        }
    }

    /// Whether `self` is a conjunction node.
    pub fn is_and(&self) -> (r: bool)
        ensures
            r == is_bin_op(*self, BinaryOperator::And),
    {
        match self {
            Expression::Binary { operator, .. } => operator.is_and(),
            _ => false,
        }
    }

    /// Whether `self` is a disjunction node.
    pub fn is_or(&self) -> (r: bool)
        ensures
            r == is_bin_op(*self, BinaryOperator::Or),
    {
        match self {
            Expression::Binary { operator, .. } => operator.is_or(),
            _ => false,
        }
    }

    /// Whether the two formulas are opposite, as defined by [`opposite_view`].
    pub fn opposite_eq(&self, other: &Self, ignore_case: bool) -> (r: bool)
        ensures
            r == opposite_view(self@, other@, ignore_case),
    {
        match (self, other) {
            (Expression::Not(_), Expression::Not(_)) => false,
            (Expression::Not(a), _) => (&**a).eq(other, ignore_case),
            (_, Expression::Not(b)) => self.eq(&**b, ignore_case),
            _ => false,
        }
    }

    /// Whether `self` equals one of the two direct operands of the binary
    /// node `other`.
    pub fn is_in(&self, other: &Self, ignore_case: bool) -> (r: bool)
        ensures
            r == is_operand_view(self@, other@, ignore_case),
    {
        match other {
            Expression::Binary { left, right, .. } => self.eq(&**left, ignore_case) || self.eq(
                &**right,
                ignore_case,
            ),
            _ => false,
        }
    }

    /// The distinct variable names appearing anywhere in the tree, in order
    /// of first occurrence.
    pub fn get_atomic_values(&self) -> (r: Vec<String>)
        ensures
            str_views(r@) == add_atoms(Seq::empty(), *self),
            forall|i: int, j: int| 0 <= i < j < r@.len() ==> r@[i]@ != r@[j]@,
            forall|i: int| 0 <= i < r@.len() ==> atom_set(self@).contains(#[trigger] r@[i]@),
            forall|n: Seq<char>| atom_set(self@).contains(n) ==> has_name(r@, n),
    {
        let mut out: Vec<String> = Vec::new();
        proof {
            assert(str_views(out@) =~= Seq::<Seq<char>>::empty());
        }
        self.push_atoms(&mut out);
        out
    }

    /// Appends to `out` every variable name of `self` not already present.
    fn push_atoms(&self, out: &mut Vec<String>)
        ensures
            final(out)@.len() >= old(out)@.len(),
            forall|i: int| 0 <= i < old(out)@.len() ==> final(out)@[i] == old(out)@[i],
            (forall|i: int, j: int| 0 <= i < j < old(out)@.len() ==> old(out)@[i]@ != old(
                out,
            )@[j]@) ==> forall|i: int, j: int|
                0 <= i < j < final(out)@.len() ==> final(out)@[i]@ != final(out)@[j]@,
            forall|i: int| old(out)@.len() <= i < final(out)@.len() ==> atom_set(
                self@,
            ).contains(#[trigger] final(out)@[i]@),
            forall|n: Seq<char>| atom_set(self@).contains(n) ==> #[trigger] has_name(
                final(out)@,
                n,
            ),
            forall|n: Seq<char>| has_name(old(out)@, n) ==> #[trigger] has_name(final(out)@, n),
            str_views(final(out)@) == add_atoms(str_views(old(out)@), *self),
        decreases *self,
    {
        match self {
            Expression::Not(expr) => {
                expr.push_atoms(out);
                proof {
                    assert(atom_set(self@) == atom_set(expr@));
                    assert forall|n: Seq<char>| atom_set(self@).contains(n) implies #[trigger] has_name(out@, n) by {
                        assert(atom_set(expr@).contains(n));
                    }
                    assert forall|n: Seq<char>| has_name(old(out)@, n) implies #[trigger] has_name(out@, n) by {
                        assert(has_name(out@, n));
                    }
                }
            },
            Expression::Binary { left, right, .. } => {
                left.push_atoms(out);
                let ghost mid = out@;
                right.push_atoms(out);
                proof {
                    assert forall|n: Seq<char>| atom_set(self@).contains(n) implies #[trigger] has_name(out@, n) by {
                        if atom_set(left@).contains(n) {
                            assert(has_name(mid, n));
                        } else {
                            assert(atom_set(right@).contains(n));
                        }
                    }
                    assert forall|n: Seq<char>| has_name(old(out)@, n) implies #[trigger] has_name(out@, n) by {
                        assert(has_name(mid, n));
                    }
                }
            },
            Expression::Atomic(value) => {
                let ghost prev = out@;
                let present = contains_name(out, value);
                proof {
                    if present {
                        let i = choose|i: int| 0 <= i < prev.len() && #[trigger] prev[i]@
                            == value@;
                        assert(str_views(prev)[i] == value@);
                        assert(seq_has(str_views(prev), value@));
                    } else {
                        assert forall|i: int|
                            0 <= i < str_views(prev).len() implies #[trigger] str_views(prev)[i]
                            != value@ by {
                            assert(prev[i]@ != value@);
                        }
                        assert(!seq_has(str_views(prev), value@));
                    }
                }
                if !present {
                    out.push(value.clone());
                    proof {
                        assert(out@[out@.len() - 1]@ == value@);
                        assert(str_views(out@) =~= str_views(prev).push(value@));
                    }
                }
                proof {
                    assert(str_views(out@) =~= add_atoms(str_views(old(out)@), *self));
                }
                proof {
                    assert(atom_set(self@).contains(value@));
                    assert forall|n: Seq<char>| atom_set(self@).contains(n) implies #[trigger] has_name(out@, n) by {
                        assert(n == value@);
                        assert(has_name(out@, value@));
                    }
                    assert forall|n: Seq<char>| has_name(old(out)@, n) implies #[trigger] has_name(out@, n) by {
                        let i = choose|i: int| 0 <= i < old(out)@.len() && #[trigger] old(out)@[i]@ == n;
                        assert(out@[i]@ == n);
                    }
                }
            },
        }
    }
}

/// Whether the name sequence `s` holds some string whose characters are `n`.
pub open spec fn has_name(s: Seq<String>, n: Seq<char>) -> bool {
    exists|i: int| 0 <= i < s.len() && #[trigger] s[i]@ == n
}

/// The character contents of a sequence of strings.
pub open spec fn str_views(s: Seq<String>) -> Seq<Seq<char>> {
    s.map_values(|x: String| x@)
}

/// Whether `r` occurs in the sequence `s`.
pub open spec fn seq_has(s: Seq<Seq<char>>, r: Seq<char>) -> bool {
    exists|i: int| 0 <= i < s.len() && s[i] == r
}

/// Appends `r` unless it is already present.
pub open spec fn push_unless_present(acc: Seq<Seq<char>>, r: Seq<char>) -> Seq<Seq<char>> {
    if seq_has(acc, r) {
        acc
    } else {
        acc.push(r)
    }
}

/// The distinct variable names of `e` appended to `acc` in order of first
/// occurrence, left to right.
pub open spec fn add_atoms(acc: Seq<Seq<char>>, e: Expression) -> Seq<Seq<char>>
    decreases e,
{
    match e {
        Expression::Not(x) => add_atoms(acc, *x),
        Expression::Binary { left, right, .. } => add_atoms(add_atoms(acc, *left), *right),
        Expression::Atomic(n) => push_unless_present(acc, n@),
    }
}

/// Whether some element of `v` has the same character content as `s`.
pub fn contains_name(v: &Vec<String>, s: &String) -> (r: bool)
    ensures
        r == has_name(v@, s@),
{
    let mut i: usize = 0;
    while i < v.len()
        invariant
            0 <= i <= v@.len(),
            forall|j: int| 0 <= j < i ==> v@[j]@ != s@,
        decreases v@.len() - i,
    {
        if v[i].eq(s) {
            return true;
        }
        i = i + 1;
    }
    false
}

impl ExpressionView {
    /// True for a variable leaf, and recursively for a negation of one.
    pub open spec fn is_atomic_view(self) -> bool
        decreases self,
    {
        match self {
            ExpressionView::Not(expr) => expr.is_atomic_view(),
            ExpressionView::Binary { .. } => false,
            ExpressionView::Atomic(_) => true,
        }
    }
}

/// Builds a conjunction.
pub fn and(left: Expression, right: Expression) -> (r: Expression)
    ensures
        r == and_spec(left, right),
{
    binary(left, BinaryOperator::And, right)
}

/// Builds a disjunction.
pub fn or(left: Expression, right: Expression) -> (r: Expression)
    ensures
        r == or_spec(left, right),
{
    binary(left, BinaryOperator::Or, right)
}

/// Builds an implication.
pub fn implies(left: Expression, right: Expression) -> (r: Expression)
    ensures
        r == implies_spec(left, right),
{
    binary(left, BinaryOperator::Implication, right)
}

/// Builds a binary node from its operator and operands.
pub fn binary(left: Expression, operator: BinaryOperator, right: Expression) -> (r: Expression)
    ensures
        r == binary_spec(left, operator, right),
{
    Expression::Binary { left: Box::new(left), operator, right: Box::new(right) }
}

/// Builds a negation.
pub fn not(value: Expression) -> (r: Expression)
    ensures
        r == not_spec(value),
{
    Expression::Not(Box::new(value))
}

/// Builds a variable leaf.
pub fn atomic(value: &str) -> (r: Expression)
    ensures
        r matches Expression::Atomic(s) && s@ == value@,
        r@ == ExpressionView::Atomic(value@),
{
    Expression::Atomic(value.to_owned())
}

impl Expression {
    /// Builds the conjunction of `self` and `other`.
    pub fn and(self, other: Expression) -> (r: Expression)
        ensures
            r == and_spec(self, other),
    {
        and(self, other)
    }

    /// Builds the disjunction of `self` and `other`.
    pub fn or(self, other: Expression) -> (r: Expression)
        ensures
            r == or_spec(self, other),
    {
        or(self, other)
    }

    /// Builds the implication from `self` to `other`.
    pub fn implies(self, other: Expression) -> (r: Expression)
        ensures
            r == implies_spec(self, other),
    {
        implies(self, other)
    }

    /// Builds the negation of `self`.
    pub fn not(self) -> (r: Expression)
        ensures
            r == not_spec(self),
    {
        not(self)
    }
}

pub open spec fn binary_spec(
    left: Expression,
    operator: BinaryOperator,
    right: Expression,
) -> Expression {
    Expression::Binary { left: Box::new(left), operator, right: Box::new(right) }
}

pub open spec fn and_spec(left: Expression, right: Expression) -> Expression {
    binary_spec(left, BinaryOperator::And, right)
}

pub open spec fn or_spec(left: Expression, right: Expression) -> Expression {
    binary_spec(left, BinaryOperator::Or, right)
}

pub open spec fn implies_spec(left: Expression, right: Expression) -> Expression {
    binary_spec(left, BinaryOperator::Implication, right)
}

pub open spec fn not_spec(value: Expression) -> Expression {
    Expression::Not(Box::new(value))
}

impl Expression {
    /// Structurally copies the tree; the copy is equal to the original.
    fn dup(&self) -> (r: Expression)
        ensures
            r == *self,
        decreases *self,
    {
        match self {
            Expression::Not(x) => Expression::Not(Box::new(x.dup())),
            Expression::Binary { left, operator, right } => Expression::Binary {
                left: Box::new(left.dup()),
                operator: *operator,
                right: Box::new(right.dup()),
            },
            Expression::Atomic(s) => Expression::Atomic(s.clone()),
        }
    }

    /// Exact structural equality: shape, operators and variable names,
    /// including their case.
    pub(crate) fn view_eq(&self, other: &Self) -> (r: bool)
        ensures
            r == (self@ == other@),
        decreases *self,
    {
        match (self, other) {
            (Expression::Not(a), Expression::Not(b)) => a.view_eq(b),
            (
                Expression::Binary { left: al, operator: ao, right: ar },
                Expression::Binary { left: bl, operator: bo, right: br },
            ) => al.view_eq(bl) && ao == bo && ar.view_eq(br),
            (Expression::Atomic(a), Expression::Atomic(b)) => a.eq(b),
            _ => false,
        }
    }
}

impl Clone for Expression {
    /// The clone is spec-equal to the original.
    fn clone(&self) -> (r: Self)
        ensures
            r == *self,
    {
        self.dup()
    }
}

impl PartialEq for Expression {
    fn eq(&self, other: &Self) -> bool {
        self.view_eq(other)
    }
}

impl vstd::std_specs::cmp::PartialEqSpecImpl for Expression {
    open spec fn obeys_eq_spec() -> bool {
        true
    }

    open spec fn eq_spec(&self, other: &Expression) -> bool {
        self@ == other@
    }
}

impl Eq for Expression {

}



} // verus!

use simplify_truths::expression::BinaryOperator;
use simplify_truths::expression::Expression;
use simplify_truths::errors::ErrorKind;
use simplify_truths::simplify::Law;
use simplify_truths::simplify::Operation;
use simplify_truths::simplify::Options;

fn atomic(s: &str) -> Expression {
    simplify_truths::expression::atomic(s)
}

fn not(e: Expression) -> Expression {
    simplify_truths::expression::not(e)
}

fn and(l: Expression, r: Expression) -> Expression {
    simplify_truths::expression::and(l, r)
}

fn or(l: Expression, r: Expression) -> Expression {
    simplify_truths::expression::or(l, r)
}

fn implies(l: Expression, r: Expression) -> Expression {
    simplify_truths::expression::binary(l, BinaryOperator::Implication, r)
}

#[test]
fn test_simplify() {
    let (expression, operations) = implies(atomic("a"), atomic("b")).simplify(Default::default());
    assert_eq!(expression, or(not(atomic("a")), atomic("b")));
    assert_eq!(operations.len(), 1);
    assert_eq!(operations[0].law, Law::EliminationOfImplication);
}

#[test]
fn test_simplify_a_and_a() {
    let (expression, operations) = and(atomic("a"), atomic("a")).simplify(Default::default());
    assert_eq!(expression, atomic("a"));
    assert_eq!(operations.len(), 1);
    assert_eq!(operations[0].law, Law::AbsorptionLaw);
}

#[test]
fn test_implication_and_de_morgans() {
    let expression =
        implies(and(not(atomic("a")), atomic("b")), atomic("c")).simplify(Default::default()).0;
    assert_eq!(expression, or(or(atomic("a"), not(atomic("b"))), atomic("c")));
}

#[test]
fn test_elimination_of_implication() {
    let mut operations = vec![];
    let expression =
        implies(atomic("a"), atomic("b")).elimination_of_implication(&mut operations);
    assert_eq!(expression, or(not(atomic("a")), atomic("b")));
    assert_eq!(operations.len(), 1);
    assert_eq!(operations[0].law, Law::EliminationOfImplication);
    assert_eq!(operations[0].before, "a \u{2794} b");
    assert_eq!(operations[0].after, "\u{ac}a \u{22c1} b");
}

#[test]
fn test_elimination_of_implication_nested() {
    let mut operations = vec![];
    let expression = implies(atomic("a"), implies(atomic("b"), atomic("c")))
        .elimination_of_implication(&mut operations);
    assert_eq!(expression, or(not(atomic("a")), or(not(atomic("b")), atomic("c"))));
    assert_eq!(operations.len(), 2);
    assert_eq!(operations[0].law, Law::EliminationOfImplication);
    assert_eq!(operations[0].before, "b \u{2794} c");
    assert_eq!(operations[0].after, "\u{ac}b \u{22c1} c");
    assert_eq!(operations[1].law, Law::EliminationOfImplication);
    assert_eq!(operations[1].before, "a \u{2794} \u{ac}b \u{22c1} c");
    assert_eq!(operations[1].after, "\u{ac}a \u{22c1} \u{ac}b \u{22c1} c");
}

#[test]
fn test_elimination_of_implication_none() {
    let mut operations = vec![];
    let expression = and(atomic("a"), atomic("b")).elimination_of_implication(&mut operations);
    assert_eq!(expression, and(atomic("a"), atomic("b")));
    assert_eq!(operations.len(), 0);
}

#[test]
fn test_elimination_of_implication_nested_none() {
    let mut operations = vec![];
    let expression =
        or(atomic("a"), and(atomic("b"), atomic("c"))).elimination_of_implication(&mut operations);
    assert_eq!(expression, or(atomic("a"), and(atomic("b"), atomic("c"))));
    assert_eq!(operations.len(), 0);
}

#[test]
fn test_double_negation_elimination() {
    let mut operations = vec![];
    let expression = not(not(atomic("a"))).double_negation_elimination(&mut operations);
    assert_eq!(expression, atomic("a"));
    assert_eq!(operations.len(), 1);
    assert_eq!(operations[0].law, Law::DoubleNegationElimination);
    assert_eq!(operations[0].before, "\u{ac}\u{ac}a");
    assert_eq!(operations[0].after, "a");
}

#[test]
fn test_triple_negation_elimination() {
    let mut operations = vec![];
    let expression = not(not(not(atomic("a")))).double_negation_elimination(&mut operations);
    assert_eq!(expression, not(atomic("a")));
    assert_eq!(operations.len(), 1);
    assert_eq!(operations[0].law, Law::DoubleNegationElimination);
    assert_eq!(operations[0].before, "\u{ac}\u{ac}\u{ac}a");
    assert_eq!(operations[0].after, "\u{ac}a");
}

#[test]
fn test_five_negation_elimination() {
    let mut operations = vec![];
    let expression =
        not(not(not(not(not(atomic("a")))))).double_negation_elimination(&mut operations);
    assert_eq!(expression, not(atomic("a")));
    assert_eq!(operations.len(), 2);
    assert_eq!(operations[0].law, Law::DoubleNegationElimination);
    assert_eq!(operations[0].before, "\u{ac}\u{ac}\u{ac}\u{ac}\u{ac}a");
    assert_eq!(operations[0].after, "\u{ac}\u{ac}\u{ac}a");
    assert_eq!(operations[1].law, Law::DoubleNegationElimination);
    assert_eq!(operations[1].before, "\u{ac}\u{ac}\u{ac}a");
    assert_eq!(operations[1].after, "\u{ac}a");
}

#[test]
fn test_no_negation_elimination() {
    let mut operations = vec![];
    let expression = atomic("a").double_negation_elimination(&mut operations);
    assert_eq!(expression, atomic("a"));
}

#[test]
fn test_double_negation_nested_elimination() {
    let mut operations = vec![];
    let expression = and(or(not(not(atomic("a"))), atomic("b")), not(not(atomic("c"))))
        .double_negation_elimination(&mut operations);
    assert_eq!(expression, and(or(atomic("a"), atomic("b")), atomic("c")));
    assert_eq!(operations.len(), 2);
    assert_eq!(operations[0].law, Law::DoubleNegationElimination);
    assert_eq!(operations[0].before, "\u{ac}\u{ac}a");
    assert_eq!(operations[0].after, "a");
    assert_eq!(operations[1].law, Law::DoubleNegationElimination);
    assert_eq!(operations[1].before, "\u{ac}\u{ac}c");
    assert_eq!(operations[1].after, "c");
}

#[test]
fn test_de_morgans_laws_and() {
    let mut operations = vec![];
    let expression = not(and(atomic("a"), atomic("b"))).de_morgans_laws(&mut operations);
    assert_eq!(expression, or(not(atomic("a")), not(atomic("b"))));
    assert_eq!(operations.len(), 1);
    assert_eq!(operations[0].law, Law::DeMorgansLaws);
    assert_eq!(operations[0].before, "\u{ac}(a \u{22c0} b)");
    assert_eq!(operations[0].after, "\u{ac}a \u{22c1} \u{ac}b");
}

#[test]
fn test_de_morgans_laws_or() {
    let mut operations = vec![];
    let expression = not(or(atomic("a"), atomic("b"))).de_morgans_laws(&mut operations);
    assert_eq!(expression, and(not(atomic("a")), not(atomic("b"))));
    assert_eq!(operations.len(), 1);
    assert_eq!(operations[0].law, Law::DeMorgansLaws);
    assert_eq!(operations[0].before, "\u{ac}(a \u{22c1} b)");
    assert_eq!(operations[0].after, "\u{ac}a \u{22c0} \u{ac}b");
}

#[test]
fn test_de_morgans_laws_nested_or() {
    let mut operations = vec![];
    let expression =
        not(or(and(atomic("a"), atomic("b")), atomic("c"))).de_morgans_laws(&mut operations);
    assert_eq!(expression, and(or(not(atomic("a")), not(atomic("b"))), not(atomic("c"))));
    assert_eq!(operations.len(), 2);
    assert_eq!(operations[0].law, Law::DeMorgansLaws);
    assert_eq!(operations[0].before, "\u{ac}(a \u{22c0} b \u{22c1} c)");
    assert_eq!(operations[0].after, "\u{ac}(a \u{22c0} b) \u{22c0} \u{ac}c");
    assert_eq!(operations[1].law, Law::DeMorgansLaws);
    assert_eq!(operations[1].before, "\u{ac}(a \u{22c0} b)");
    assert_eq!(operations[1].after, "\u{ac}a \u{22c1} \u{ac}b");
}

#[test]
fn test_de_morgans_laws_nested_and() {
    let mut operations = vec![];
    let expression =
        not(and(or(atomic("a"), atomic("b")), atomic("c"))).de_morgans_laws(&mut operations);
    assert_eq!(expression, or(and(not(atomic("a")), not(atomic("b"))), not(atomic("c"))));
    assert_eq!(operations.len(), 2);
    assert_eq!(operations[0].law, Law::DeMorgansLaws);
    assert_eq!(operations[0].before, "\u{ac}((a \u{22c1} b) \u{22c0} c)");
    assert_eq!(operations[0].after, "\u{ac}(a \u{22c1} b) \u{22c1} \u{ac}c");
    assert_eq!(operations[1].law, Law::DeMorgansLaws);
    assert_eq!(operations[1].before, "\u{ac}(a \u{22c1} b)");
    assert_eq!(operations[1].after, "\u{ac}a \u{22c0} \u{ac}b");
}

#[test]
fn test_de_morgans_laws_nested_and_or() {
    let mut operations = vec![];
    let expression = not(and(or(atomic("a"), atomic("b")), or(atomic("c"), atomic("d"))))
        .de_morgans_laws(&mut operations);
    assert_eq!(
        expression,
        or(
            and(not(atomic("a")), not(atomic("b"))),
            and(not(atomic("c")), not(atomic("d")))
        )
    );
    assert_eq!(operations.len(), 3);
}

#[test]
fn test_absorption_law_and() {
    let mut operations = vec![];
    let expression =
        and(atomic("a"), or(atomic("a"), atomic("b"))).absorption_law(&mut operations, false);
    assert_eq!(expression, atomic("a"));
    assert_eq!(operations.len(), 1);
}

#[test]
fn test_absorption_law_or() {
    let mut operations = vec![];
    let expression =
        or(atomic("a"), and(atomic("a"), atomic("b"))).absorption_law(&mut operations, false);
    assert_eq!(expression, atomic("a"));
    assert_eq!(operations.len(), 1);
}

#[test]
fn test_absorption_law_duplicate() {
    let mut operations = vec![];
    let expression = or(
        not(atomic("a")),
        or(not(atomic("a")), or(atomic("a"), atomic("b"))),
    )
    .absorption_law(&mut operations, false);
    assert_eq!(expression, or(not(atomic("a")), or(atomic("a"), atomic("b"))));
    assert_eq!(operations.len(), 1);
}

#[test]
fn test_absorption_law_not() {
    let mut operations = vec![];
    let expression = or(and(not(atomic("a")), atomic("b")), atomic("a"))
        .absorb_opposites(&mut operations, Default::default());
    assert_eq!(expression, or(atomic("b"), atomic("a")));
    assert_eq!(operations.len(), 1);
    assert_eq!(operations[0].law, Law::AbsorptionLaw);
    assert_eq!(operations[0].before, "\u{ac}a \u{22c0} b \u{22c1} a");
    assert_eq!(operations[0].after, "b \u{22c1} a");
}

#[test]
fn test_absorption_law_duplicate_not() {
    let mut operations = vec![];
    let expression = and(not(atomic("A")), not(atomic("A")));
    let simplified = expression.absorption_law(&mut operations, Default::default());
    assert_eq!(simplified, not(atomic("A")));
    assert_eq!(operations.len(), 1);
    assert_eq!(operations[0].law, Law::AbsorptionLaw);
    assert_eq!(operations[0].before, "\u{ac}A \u{22c0} \u{ac}A");
    assert_eq!(operations[0].after, "\u{ac}A");
}

#[test]
fn test_absorption_law_not_reversed() {
    let mut operations = vec![];
    let expression = or(and(atomic("a"), atomic("b")), not(atomic("a")))
        .absorb_opposites(&mut operations, Default::default());
    assert_eq!(expression, or(atomic("b"), not(atomic("a"))));
    assert_eq!(operations.len(), 1);
}

#[test]
fn test_absorption_law_not_duplicate() {
    let mut operations = vec![];
    let expression = or(atomic("a"), or(not(atomic("a")), atomic("b")))
        .absorb_opposites(&mut operations, Default::default());
    assert_eq!(expression, or(atomic("a"), not(atomic("a"))));
    assert_eq!(operations.len(), 1);
}

#[test]
fn test_absorption_law_double_not() {
    let mut operations = vec![];
    let expression = or(and(not(atomic("a")), atomic("b")), not(atomic("a")))
        .absorption_law(&mut operations, Default::default());
    assert_eq!(expression, not(atomic("a")));
    assert_eq!(operations.len(), 1);
}

#[test]
fn test_absorption_law_duplicate_atomic() {
    let mut operations = vec![];
    let expression = and(atomic("A"), atomic("A"));
    let simplified = expression.absorption_law(&mut operations, Default::default());
    assert_eq!(simplified, atomic("A"));
    assert_eq!(operations.len(), 1);
    assert_eq!(operations[0].law, Law::AbsorptionLaw);
    assert_eq!(operations[0].before, "A \u{22c0} A");
    assert_eq!(operations[0].after, "A");
}

#[test]
fn test_absorption_law_double_duplicates() {
    let mut operations = vec![];
    let expression = and(or(atomic("A"), atomic("A")), or(atomic("B"), atomic("B")));
    let simplified = expression.absorption_law(&mut operations, Default::default());
    assert_eq!(simplified, and(atomic("A"), atomic("B")));
    assert_eq!(operations.len(), 2);
    assert_eq!(operations[0].law, Law::AbsorptionLaw);
    assert_eq!(operations[0].before, "A \u{22c1} A");
    assert_eq!(operations[0].after, "A");
    assert_eq!(operations[1].law, Law::AbsorptionLaw);
    assert_eq!(operations[1].before, "B \u{22c1} B");
    assert_eq!(operations[1].after, "B");
}

#[test]
fn test_in_parenthesis() {
    let mut operations = vec![];
    let expression = and(or(atomic("a"), atomic("b")), not(atomic("a")))
        .absorb_opposites(&mut operations, Default::default());
    assert_eq!(expression, and(atomic("b"), not(atomic("a"))));
    assert_eq!(operations.len(), 1);
    assert_eq!(operations[0].law, Law::AbsorptionLaw);
    assert_eq!(operations[0].before, "(a \u{22c1} b) \u{22c0} \u{ac}a");
    assert_eq!(operations[0].after, "b \u{22c0} \u{ac}a");
}

#[test]
fn test_distributive_law_and() {
    let mut operations = vec![];
    let expression =
        and(atomic("a"), or(atomic("b"), atomic("c"))).distributive_law(&mut operations);
    assert_eq!(
        expression,
        or(and(atomic("a"), atomic("b")), and(atomic("a"), atomic("c")))
    );
    assert_eq!(operations.len(), 1);
    assert_eq!(operations[0].law, Law::DistributiveLaw);
    assert_eq!(operations[0].before, "a \u{22c0} (b \u{22c1} c)");
    assert_eq!(operations[0].after, "a \u{22c0} b \u{22c1} a \u{22c0} c");
}

#[test]
fn test_distributive_law_or() {
    let mut operations = vec![];
    let expression =
        or(atomic("a"), and(atomic("b"), atomic("c"))).distributive_law(&mut operations);
    assert_eq!(
        expression,
        and(or(atomic("a"), atomic("b")), or(atomic("a"), atomic("c")))
    );
    assert_eq!(operations.len(), 1);
    assert_eq!(operations[0].law, Law::DistributiveLaw);
    assert_eq!(operations[0].before, "a \u{22c1} b \u{22c0} c");
    assert_eq!(operations[0].after, "(a \u{22c1} b) \u{22c0} (a \u{22c1} c)");
}

#[test]
fn test_distributive_law_nested_not() {
    let mut operations = vec![];
    let expression =
        and(atomic("a"), not(or(atomic("b"), atomic("c")))).distributive_law(&mut operations);
    assert_eq!(expression, and(atomic("a"), not(or(atomic("b"), atomic("c")))));
    assert_eq!(operations.len(), 0);
}

#[test]
fn test_distributive_law_duplicates() {
    let mut operations = vec![];
    let expression = and(
        and(atomic("A"), or(atomic("B"), atomic("C"))),
        and(atomic("A"), or(atomic("B"), atomic("C"))),
    )
    .distributive_law(&mut operations);
    assert_eq!(
        expression,
        and(
            or(and(atomic("A"), atomic("B")), and(atomic("A"), atomic("C"))),
            or(and(atomic("A"), atomic("B")), and(atomic("A"), atomic("C"))),
        )
    );
    assert_eq!(operations.len(), 2);
    assert_eq!(operations[0].law, Law::DistributiveLaw);
    assert_eq!(operations[0].before, "A \u{22c0} (B \u{22c1} C)");
    assert_eq!(operations[0].after, "A \u{22c0} B \u{22c1} A \u{22c0} C");
    assert_eq!(operations[1].law, Law::DistributiveLaw);
    assert_eq!(operations[1].before, "A \u{22c0} (B \u{22c1} C)");
    assert_eq!(operations[1].after, "A \u{22c0} B \u{22c1} A \u{22c0} C");
}

#[test]
fn test_simplify_keeps_simplify_result_fixed_for_elimination() {
    let mut first_log: Vec<Operation> = vec![];
    let once = implies(atomic("a"), atomic("b")).elimination_of_implication(&mut first_log);
    let mut second_log: Vec<Operation> = vec![];
    let twice = once.elimination_of_implication(&mut second_log);
    assert_eq!(twice, once);
    assert_eq!(second_log.len(), 0);
}

#[test]
fn test_simplify_keeps_simplify_result_fixed_for_double_negation() {
    let mut first_log: Vec<Operation> = vec![];
    let once = not(not(not(not(atomic("a"))))).double_negation_elimination(&mut first_log);
    let mut second_log: Vec<Operation> = vec![];
    let twice = once.double_negation_elimination(&mut second_log);
    assert_eq!(twice, once);
    assert_eq!(second_log.len(), 0);
}

#[test]
fn test_simplify_preserves_truth_values() {
    let expression = implies(and(atomic("a"), atomic("b")), atomic("c"));
    let (simplified, _) = expression.simplify(Options { ignore_case: false });
    let original_table =
        simplify_truths::truth_table::TruthTable::new(&expression, Default::default());
    let simplified_table =
        simplify_truths::truth_table::TruthTable::new(&simplified, Default::default());
    let original_results: Vec<bool> = original_table
        .truth_matrix
        .iter()
        .map(|row| *row.last().unwrap())
        .collect();
    let simplified_results: Vec<bool> = simplified_table
        .truth_matrix
        .iter()
        .map(|row| *row.last().unwrap())
        .collect();
    assert_eq!(original_results, simplified_results);
}

#[test]
fn test_associative_law_is_unsupported() {
    let mut operations = vec![];
    let result = and(atomic("a"), atomic("b")).associative_law(&mut operations);
    assert_eq!(result.err().unwrap().kind, ErrorKind::UnsupportedOperation);
    assert_eq!(operations.len(), 0);
}

#[test]
fn test_commutative_law_is_unsupported() {
    let mut operations = vec![];
    let result = and(atomic("a"), atomic("b")).commutative_law(&mut operations);
    assert_eq!(result.err().unwrap().kind, ErrorKind::UnsupportedOperation);
    assert_eq!(operations.len(), 0);
}

#[test]
fn test_simplify_ignore_case_merges_mixed_case_duplicates() {
    let (expression, operations) =
        and(atomic("A"), atomic("a")).simplify(Options { ignore_case: true });
    assert_eq!(expression, atomic("A"));
    assert_eq!(operations.len(), 1);
    assert_eq!(operations[0].law, Law::AbsorptionLaw);
}

#[test]
fn test_even_nots_fully_collapse_after_parsing() {
    let parsed = simplify_truths::parser::parse_expression("!!!!a").unwrap();
    let mut operations: Vec<Operation> = vec![];
    let collapsed = parsed.double_negation_elimination(&mut operations);
    assert_eq!(collapsed, atomic("a"));
    assert_eq!(operations.len(), 2);
}

#[test]
fn test_simplify_twice_on_implication_is_fixed() {
    let (once, _) = implies(atomic("a"), atomic("b")).simplify(Default::default());
    let (twice, _) = once.simplify(Default::default());
    assert_eq!(twice, once);
}

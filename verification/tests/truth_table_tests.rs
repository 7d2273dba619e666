use simplify_truths::expression::BinaryOperator;
use simplify_truths::expression::Expression;
use simplify_truths::truth_table::Hide;
use simplify_truths::truth_table::Sort;
use simplify_truths::truth_table::TruthTable;
use simplify_truths::truth_table::TruthTableOptions;

fn atomic(s: &str) -> Expression {
    simplify_truths::expression::atomic(s)
}

fn not(e: Expression) -> Expression {
    simplify_truths::expression::not(e)
}

fn and(l: Expression, r: Expression) -> Expression {
    simplify_truths::expression::and(l, r)
}

fn or(l: Expression, r: Expression) -> Expression {
    simplify_truths::expression::or(l, r)
}

fn implies(l: Expression, r: Expression) -> Expression {
    simplify_truths::expression::binary(l, BinaryOperator::Implication, r)
}

fn strings(items: &[&str]) -> Vec<String> {
    items.iter().map(|s| s.to_string()).collect()
}

#[test]
fn test_new_truth_table() {
    let expression = and(atomic("A"), atomic("B"));
    let truth_table = TruthTable::new(&expression, Default::default());
    assert_eq!(truth_table.header, vec!["A", "B", "A \u{22c0} B"]);
    assert_ne!(
        truth_table.truth_matrix,
        vec![
            vec![true, true, true],
            vec![false, true, false],
            vec![true, false, false],
            vec![false, false, false],
        ]
    );
    assert_eq!(
        truth_table.truth_matrix,
        vec![
            vec![true, true, true],
            vec![true, false, false],
            vec![false, true, false],
            vec![false, false, false],
        ]
    );
}

#[test]
fn test_new_truth_table_a_and_b_or_c() {
    let expression = and(or(atomic("A"), atomic("C")), or(atomic("B"), atomic("C")));
    let truth_table = TruthTable::new(&expression, Default::default());
    let atomics = 3;

    assert_eq!(
        truth_table.header,
        vec![
            "A",
            "C",
            "A \u{22c1} C",
            "B",
            "B \u{22c1} C",
            "(A \u{22c1} C) \u{22c0} (B \u{22c1} C)"
        ]
    );
    assert_eq!(truth_table.truth_matrix.len(), 2usize.pow(atomics as u32));
    assert_eq!(truth_table.truth_matrix[0].len(), 6);
    assert_eq!(truth_table.truth_matrix[0], vec![true, true, true, true, true, true]);
    assert_eq!(truth_table.truth_matrix[1], vec![true, false, true, true, true, true]);
    assert_eq!(truth_table.truth_matrix[2], vec![true, true, true, false, true, true]);
    assert_eq!(truth_table.truth_matrix[3], vec![true, false, true, false, false, false]);
    assert_eq!(truth_table.truth_matrix[4], vec![false, true, true, true, true, true]);
    assert_eq!(truth_table.truth_matrix[5], vec![false, false, false, true, true, false]);
    assert_eq!(truth_table.truth_matrix[6], vec![false, true, true, false, true, true]);
    assert_eq!(truth_table.truth_matrix[7], vec![false, false, false, false, false, false]);
}

#[test]
fn test_new_truth_table_and_hide_intermediate_steps() {
    let expression = and(atomic("A"), or(atomic("B"), atomic("C")));
    let truth_table = TruthTable::new(
        &expression,
        TruthTableOptions { hide_intermediate_steps: true, ..Default::default() },
    );
    assert_eq!(truth_table.header, vec!["A", "B", "C", "A \u{22c0} (B \u{22c1} C)"]);
    for (index, row) in truth_table.truth_matrix.iter().enumerate() {
        assert_eq!(row.len(), 4, "Row at {index}: {:?}", row);
    }
}

#[test]
fn test_sort_matrix_true_first() {
    let mut matrix = vec![
        vec![true, true, true],
        vec![true, false, false],
        vec![false, true, true],
        vec![false, false, false],
    ];
    TruthTable::sort_matrix(&mut matrix, Sort::TrueFirst);
    assert_eq!(
        matrix,
        vec![
            vec![true, true, true],
            vec![false, true, true],
            vec![true, false, false],
            vec![false, false, false],
        ]
    );
}

#[test]
fn test_sort_matrix_true_first_all_false_should_not_change() {
    let mut matrix = vec![
        vec![false, true, false],
        vec![false, true, false],
        vec![true, false, false],
        vec![true, false, false],
    ];
    TruthTable::sort_matrix(&mut matrix, Sort::TrueFirst);
    assert_eq!(
        matrix,
        vec![
            vec![false, true, false],
            vec![false, true, false],
            vec![true, false, false],
            vec![true, false, false],
        ]
    );
}

#[test]
fn test_sort_matrix_default_should_not_change() {
    let mut matrix = vec![
        vec![true, true, true],
        vec![true, false, false],
        vec![false, true, true],
        vec![false, false, false],
    ];
    TruthTable::sort_matrix(&mut matrix, Sort::Unsorted);
    assert_eq!(
        matrix,
        vec![
            vec![true, true, true],
            vec![true, false, false],
            vec![false, true, true],
            vec![false, false, false],
        ]
    );
}

#[test]
fn test_sort_matrix_false_first() {
    let mut matrix = vec![
        vec![true, true, true],
        vec![true, false, false],
        vec![false, true, true],
        vec![false, false, false],
    ];
    TruthTable::sort_matrix(&mut matrix, Sort::FalseFirst);
    assert_eq!(
        matrix,
        vec![
            vec![true, false, false],
            vec![false, false, false],
            vec![true, true, true],
            vec![false, true, true],
        ]
    );
}

#[test]
fn test_hide_true_values() {
    let expected = vec![
        vec![true, false, false],
        vec![false, true, false],
        vec![false, false, false],
    ];
    let header = strings(&["A", "B", "A \u{22c0} B"]);
    let matrix = TruthTable::generate_truth_matrix(
        &and(atomic("A"), atomic("B")),
        &header,
        Hide::True,
        false,
    );
    assert_eq!(expected, matrix);
}

#[test]
fn test_hide_false_values() {
    let expected = vec![vec![true, true, true]];
    let header = strings(&["A", "B", "A \u{22c0} B"]);
    let matrix = TruthTable::generate_truth_matrix(
        &and(atomic("A"), atomic("B")),
        &header,
        Hide::False,
        false,
    );
    assert_eq!(expected, matrix);
}

#[test]
fn test_hide_none() {
    let expected = vec![
        vec![true, true, true],
        vec![true, false, false],
        vec![false, true, false],
        vec![false, false, false],
    ];
    let header = strings(&["A", "B", "A \u{22c0} B"]);
    let matrix = TruthTable::generate_truth_matrix(
        &and(atomic("A"), atomic("B")),
        &header,
        Hide::Off,
        false,
    );
    assert_eq!(expected, matrix);
}

#[test]
fn test_truth_combinations_2() {
    let combinations = TruthTable::truth_combinations(2);
    assert_eq!(
        combinations,
        vec![
            vec![true, true],
            vec![true, false],
            vec![false, true],
            vec![false, false],
        ]
    );
}

#[test]
fn test_truth_combinations_3() {
    let combinations = TruthTable::truth_combinations(3);
    assert_eq!(
        combinations,
        vec![
            vec![true, true, true],
            vec![true, true, false],
            vec![true, false, true],
            vec![true, false, false],
            vec![false, true, true],
            vec![false, true, false],
            vec![false, false, true],
            vec![false, false, false],
        ]
    );
}

#[test]
fn test_resolve_expression_hide_intermediate_steps() {
    let expression = and(atomic("A"), or(atomic("B"), atomic("C")));
    let names = strings(&["A", "B", "C"]);
    let booleans = vec![true, false, true];
    let header = strings(&["A", "B", "C", "B \u{22c1} C", "A \u{22c0} (B \u{22c1} C)"]);
    let values = TruthTable::resolve_expression(&expression, &names, &booleans, &header, true);
    assert_eq!(values.len(), 4);
    assert_eq!(values, vec![true, false, true, true]);
}

#[test]
fn test_resolve_expression_and_all_true() {
    let expression = and(atomic("A"), atomic("B"));
    let names = strings(&["A", "B"]);
    let booleans = vec![true, true];
    let header = strings(&["A", "B", "A \u{22c0} B"]);
    let values = TruthTable::resolve_expression(&expression, &names, &booleans, &header, false);
    assert_eq!(values, vec![true, true, true]);
}

#[test]
fn test_resolve_expression_and_1_true_1_false() {
    let expression = and(atomic("A"), atomic("B"));
    let names = strings(&["A", "B"]);
    let booleans = vec![true, false];
    let header = strings(&["A", "B", "A \u{22c0} B"]);
    let values = TruthTable::resolve_expression(&expression, &names, &booleans, &header, false);
    assert_eq!(values, vec![true, false, false]);
}

#[test]
fn test_resolve_expression_or_1_true_1_false() {
    let expression = or(atomic("A"), atomic("B"));
    let names = strings(&["A", "B"]);
    let booleans = vec![true, false];
    let header = strings(&["A", "B", "A \u{22c1} B"]);
    let values = TruthTable::resolve_expression(&expression, &names, &booleans, &header, false);
    assert_eq!(values, vec![true, false, true]);
}

#[test]
fn test_resolve_expression_duplicate_atomic() {
    let expression = and(atomic("A"), atomic("A"));
    let names = strings(&["A"]);
    let booleans = vec![true];
    let header = strings(&["A", "A \u{22c0} A"]);
    let values = TruthTable::resolve_expression(&expression, &names, &booleans, &header, false);
    assert_eq!(values, vec![true, true]);
}

#[test]
fn test_resolve_expression_even_more_duplicates() {
    let expression = and(atomic("A"), and(atomic("A"), and(atomic("A"), atomic("A"))));
    let names = strings(&["A"]);
    let booleans = vec![true];
    let header = strings(&[
        "A",
        "A \u{22c0} A",
        "A \u{22c0} A \u{22c0} A",
        "A \u{22c0} A \u{22c0} A \u{22c0} A",
    ]);
    let values = TruthTable::resolve_expression(&expression, &names, &booleans, &header, false);
    assert_eq!(values, vec![true, true, true, true]);
}

#[test]
fn test_atomic_expression() {
    let expression = atomic("A");
    let header = TruthTable::extract_header(&expression);
    assert_eq!(header, vec!["A"]);
}

#[test]
fn test_not_expression() {
    let expression = not(atomic("A"));
    let header = TruthTable::extract_header(&expression);
    assert_eq!(header, vec!["A", "\u{ac}A"]);
}

#[test]
fn test_binary_and_expression() {
    let expression = and(atomic("A"), atomic("B"));
    let header = TruthTable::extract_header(&expression);
    assert_eq!(header, vec!["A", "B", "A \u{22c0} B"]);
}

#[test]
fn test_binary_or_expression() {
    let expression = or(atomic("A"), atomic("B"));
    let header = TruthTable::extract_header(&expression);
    assert_eq!(header, vec!["A", "B", "A \u{22c1} B"]);
}

#[test]
fn test_binary_implies_expression() {
    let expression = implies(atomic("A"), atomic("B"));
    let header = TruthTable::extract_header(&expression);
    assert_eq!(header, vec!["A", "B", "A \u{2794} B"]);
}

#[test]
fn test_equal_expressions_should_not_duplicate() {
    let expression = and(atomic("A"), and(atomic("A"), and(atomic("A"), atomic("A"))));
    let header = TruthTable::extract_header(&expression);
    assert_eq!(
        header,
        vec![
            "A",
            "A \u{22c0} A",
            "A \u{22c0} A \u{22c0} A",
            "A \u{22c0} A \u{22c0} A \u{22c0} A"
        ]
    );
}

#[test]
fn test_somewhat_equal() {
    let expression = and(
        atomic("A"),
        and(or(not(atomic("A")), atomic("B")), atomic("A")),
    );
    let header = TruthTable::extract_header(&expression);
    assert_eq!(
        header,
        vec![
            "A",
            "\u{ac}A",
            "B",
            "\u{ac}A \u{22c1} B",
            "(\u{ac}A \u{22c1} B) \u{22c0} A",
            "A \u{22c0} (\u{ac}A \u{22c1} B) \u{22c0} A"
        ]
    );
}

#[test]
fn test_header_never_repeats_a_column() {
    let expression = implies(
        and(atomic("x"), atomic("y")),
        or(and(atomic("x"), atomic("y")), atomic("x")),
    );
    let header = TruthTable::extract_header(&expression);
    for i in 0..header.len() {
        for j in 0..header.len() {
            if i != j {
                assert_ne!(header[i], header[j]);
            }
        }
    }
}

#[test]
fn test_matrix_size_is_a_power_of_two_of_the_variables() {
    let expression = implies(
        or(atomic("p"), atomic("q")),
        and(atomic("r"), or(atomic("p"), atomic("s"))),
    );
    let truth_table = TruthTable::new(&expression, Default::default());
    assert_eq!(truth_table.truth_matrix.len(), 2usize.pow(4));
}

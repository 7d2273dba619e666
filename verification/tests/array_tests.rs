use simplify_truths::array::Distinct;

#[test]
fn test_distinct() {
    let mut vec = vec![1, 2, 3, 1, 2, 3];
    vec.distinct();
    assert_eq!(vec, vec![1, 2, 3]);
}

#[test]
fn test_distinct_strings_keep_first_occurrence_order() {
    let mut vec: Vec<String> =
        vec!["b".to_string(), "a".to_string(), "b".to_string(), "c".to_string()];
    vec.distinct();
    assert_eq!(vec, vec!["b", "a", "c"]);
}

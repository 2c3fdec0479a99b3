use qfactors::report::distinct_factor_names;

#[test]
fn factor_names_are_distinct_in_row_order() {
    let values = vec![
        Some("mom".to_string()),
        None,
        Some("rev".to_string()),
        Some("mom".to_string()),
        Some("size".to_string()),
        Some("rev".to_string()),
    ];
    assert_eq!(distinct_factor_names(&values), ["mom", "rev", "size"]);
    assert!(distinct_factor_names(&vec![None, None]).is_empty());
}

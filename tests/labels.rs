use mvcc::labels::validate_label;

#[test]
fn test_store_labels() {
    let invalid_cases = vec!["", "123*", ".123", "💖"];

    for case in invalid_cases {
        assert!(validate_label(case, "dummy").is_err());
    }

    let valid_cases = vec!["a", "0", "a.1-2", "Cab", "abC", "b_1.2", "cab-012", "3ac.8b2"];

    for case in valid_cases {
        validate_label(case, "dummy").unwrap();
    }
}

#[test]
fn label_edges() {
    assert!(validate_label("a-", "dummy").is_err());
    assert!(validate_label("a b", "dummy").is_err());
    assert!(validate_label("ab", "dummy").is_ok());
    let e = validate_label("x?", "zone").unwrap_err();
    assert_eq!(e.kind, "zone");
    assert_eq!(e.label, "x?");
}

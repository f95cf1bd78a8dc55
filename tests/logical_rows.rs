use mvcc::evaluate::EvaluateError;
use mvcc::logical_rows::LogicalEvents;

#[test]
fn identical_rows() {
    let rows = LogicalEvents::new_ident(3);
    assert!(rows.is_ident());
    assert_eq!(rows.len(), 3);
    assert!(!rows.is_empty());
    assert_eq!(rows.get_idx(2), 2);
    assert_eq!(rows.as_slice(), vec![0, 1, 2]);
    let mut it = rows.into_iter();
    assert_eq!(it.next(), Some(0));
    assert_eq!(it.next(), Some(1));
    assert_eq!(it.next(), Some(2));
    assert_eq!(it.next(), None);
}

#[test]
fn referenced_rows() {
    let data = [4usize, 1, 7];
    let rows = LogicalEvents::from_slice(&data);
    assert!(!rows.is_ident());
    assert_eq!(rows.len(), 3);
    assert_eq!(rows.get_idx(2), 7);
    assert_eq!(rows.as_slice(), vec![4, 1, 7]);
    assert!(LogicalEvents::from_slice(&[]).is_empty());
}

#[test]
fn evaluate_error_codes() {
    assert_eq!(EvaluateError::DeadlineExceeded.code(), 9007);
    assert_eq!(EvaluateError::InvalidCharacterString { charset: "utf8".to_owned() }.code(), 1300);
    assert_eq!(EvaluateError::Custom { code: 42, msg: String::new() }.code(), 42);
    assert_eq!(EvaluateError::Other(String::new()).code(), 10000);
}

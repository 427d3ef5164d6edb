use relvar::differ::{diff, DiffError};
use relvar::relation::{Attribute, Relation, Row, ScalarType, ScalarValue};

fn schema() -> Relation {
    Relation::new(vec![
        Attribute { name: "id".to_string(), ty: ScalarType::Int },
        Attribute { name: "val".to_string(), ty: ScalarType::String },
    ])
}

fn row(id: i64, val: &str) -> Row {
    Row { values: vec![ScalarValue::Int(id), ScalarValue::String(val.to_string())] }
}

fn key() -> Vec<String> {
    vec!["id".to_string()]
}

#[test]
fn test_diff_no_key_insert_delete() {
    let mut old = schema();
    let mut new = schema();
    old.insert(row(1, "A"));
    old.insert(row(2, "B"));
    new.insert(row(2, "B"));
    new.insert(row(3, "C"));
    let report = diff(&old, &new, None).unwrap();
    assert_eq!(report.inserted.cardinality(), 1);
    assert!(report.inserted.contains(&row(3, "C")));
    assert_eq!(report.deleted.cardinality(), 1);
    assert!(report.deleted.contains(&row(1, "A")));
    assert!(report.updated.is_empty());
}

#[test]
fn test_diff_with_key_update() {
    let mut old = schema();
    let mut new = schema();
    old.insert(row(1, "A"));
    new.insert(row(1, "B"));
    let report = diff(&old, &new, Some(&key())).unwrap();
    assert!(report.inserted.is_empty());
    assert!(report.deleted.is_empty());
    assert_eq!(report.updated.len(), 1);
    let (old_t, new_t) = &report.updated[0];
    assert_eq!(old_t, &row(1, "A"));
    assert_eq!(new_t, &row(1, "B"));
}

#[test]
fn test_diff_with_key_mixed() {
    let mut old = schema();
    let mut new = schema();
    old.insert(row(1, "Keep"));
    old.insert(row(2, "Delete"));
    old.insert(row(3, "UpdateOld"));
    new.insert(row(1, "Keep"));
    new.insert(row(3, "UpdateNew"));
    new.insert(row(4, "Insert"));
    let report = diff(&old, &new, Some(&key())).unwrap();
    assert_eq!(report.inserted.cardinality(), 1);
    assert_eq!(report.deleted.cardinality(), 1);
    assert_eq!(report.updated.len(), 1);
    assert!(!report.is_empty());
}

#[test]
fn differ_doc_example() {
    let mut old = schema();
    old.insert(row(1, "A"));
    let mut new = schema();
    new.insert(row(1, "B"));
    new.insert(row(2, "C"));
    let report = diff(&old, &new, Some(&key())).unwrap();
    assert_eq!(report.updated.len(), 1);
    assert_eq!(report.inserted.cardinality(), 1);
}

#[test]
fn differ_errors() {
    let mut old = schema();
    old.insert(row(1, "A"));
    let other = Relation::new(vec![Attribute { name: "id".to_string(), ty: ScalarType::Int }]);
    assert!(matches!(diff(&old, &other, None), Err(DiffError::TypeMismatch)));
    let bad = vec!["nope".to_string()];
    match diff(&old, &schema(), Some(&bad)) {
        Err(DiffError::KeyAttributeMissing(a)) => assert_eq!(a, "nope"),
        _ => panic!("expected a missing key attribute"),
    }
    // Both empty: nothing to extract a key from, so no error.
    assert!(diff(&schema(), &schema(), Some(&bad)).unwrap().is_empty());
}

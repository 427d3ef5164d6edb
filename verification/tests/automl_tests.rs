use relvar::automl::{naive_bayes_counts, scalar_label};
use relvar::pivot::DatabaseError;
use relvar::relation::{Attribute, Relation, Row, ScalarType, ScalarValue};

fn attr(name: &str, ty: ScalarType) -> Attribute {
    Attribute { name: name.to_string(), ty }
}

fn s(x: &str) -> ScalarValue {
    ScalarValue::String(x.to_string())
}

fn golf() -> Relation {
    let mut r = Relation::new(vec![attr("id", ScalarType::Int), attr("outlook", ScalarType::String), attr("play", ScalarType::String)]);
    r.insert(Row { values: vec![ScalarValue::Int(1), s("sunny"), s("no")] });
    r.insert(Row { values: vec![ScalarValue::Int(2), s("sunny"), s("no")] });
    r.insert(Row { values: vec![ScalarValue::Int(3), s("overcast"), s("yes")] });
    r
}

fn count(entries: &[(String, String, usize)], a: &str, b: &str) -> Option<usize> {
    entries.iter().find(|e| e.0 == a && e.1 == b).map(|e| e.2)
}

#[test]
fn test_naive_bayes_counts() {
    let m = naive_bayes_counts(&golf(), "play").ok().unwrap();
    assert_eq!(m.total, 3);
    assert_eq!(m.classes.len(), 2);
    assert_eq!(count(&m.classes, "no", ""), Some(2));
    assert_eq!(count(&m.classes, "yes", ""), Some(1));
    assert_eq!(m.features.len(), 2);
    assert_eq!(m.features[0].feature, "id");
    assert_eq!(m.features[1].feature, "outlook");
    let outlook = &m.features[1];
    assert_eq!(outlook.vocabulary.len(), 2);
    assert_eq!(count(&outlook.pairs, "no", "sunny"), Some(2));
    assert_eq!(count(&outlook.pairs, "yes", "overcast"), Some(1));
    assert_eq!(count(&outlook.pairs, "yes", "sunny"), None);
}

#[test]
fn test_naive_bayes_counts_missing_target() {
    match naive_bayes_counts(&golf(), "nope") {
        Err(DatabaseError::AttributeNotFound(a, b)) => {
            assert_eq!(a, "nope");
            assert_eq!(b, "<input_relation>");
        }
        _ => panic!("expected a missing attribute"),
    }
}

#[test]
fn test_scalar_label() {
    assert_eq!(scalar_label(&ScalarValue::Int(-12)), "-12");
    assert_eq!(scalar_label(&ScalarValue::Bool(false)), "false");
    assert_eq!(scalar_label(&ScalarValue::Bytes(vec![1, 2])), "Bytes([1, 2])");
}

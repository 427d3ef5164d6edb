use relvar::delta::Delta;
use relvar::pivot::DatabaseError;
use relvar::relation::{Attribute, Relation, Row, ScalarType, ScalarValue};

fn test_type() -> Vec<Attribute> {
    vec![Attribute { name: "x".to_string(), ty: ScalarType::Int }]
}

fn t(x: i64) -> Row {
    Row { values: vec![ScalarValue::Int(x)] }
}

fn rel(xs: &[i64]) -> Relation {
    let mut r = Relation::new(test_type());
    for x in xs {
        r.insert(t(*x));
    }
    r
}

fn same(a: &Relation, b: &Relation) -> bool {
    a.heading == b.heading && a.cardinality() == b.cardinality() && a.tuples.iter().all(|x| b.contains(x))
}

#[test]
fn test_delta_between_empty() {
    let r1 = rel(&[]);
    let r2 = rel(&[]);
    let delta = Delta::between(&r1, &r2).unwrap();
    assert!(delta.inserted.is_empty());
    assert!(delta.deleted.is_empty());
}

#[test]
fn test_delta_simple() {
    let r1 = rel(&[1]);
    let r2 = rel(&[2]);
    let delta = Delta::between(&r1, &r2).unwrap();
    assert_eq!(delta.deleted.cardinality(), 1);
    assert!(delta.deleted.contains(&t(1)));
    assert_eq!(delta.inserted.cardinality(), 1);
    assert!(delta.inserted.contains(&t(2)));
    let r3 = delta.apply(&r1).unwrap();
    assert!(same(&r3, &r2));
}

#[test]
fn test_invert() {
    let r1 = rel(&[1]);
    let r2 = rel(&[2]);
    let delta = Delta::between(&r1, &r2).unwrap();
    let inv = delta.invert();
    assert!(inv.deleted.contains(&t(2)));
    assert!(inv.inserted.contains(&t(1)));
    let r_back = inv.apply(&r2).unwrap();
    assert!(same(&r_back, &r1));
}

#[test]
fn test_compose() {
    let r1 = rel(&[1]);
    let r2 = rel(&[2]);
    let r3 = rel(&[3]);
    let d1 = Delta::between(&r1, &r2).unwrap();
    let d2 = Delta::between(&r2, &r3).unwrap();
    let d3 = d1.compose(&d2).unwrap();
    assert!(d3.deleted.contains(&t(1)));
    assert!(!d3.deleted.contains(&t(2)));
    assert!(d3.inserted.contains(&t(3)));
    assert!(!d3.inserted.contains(&t(2)));
    let r_final = d3.apply(&r1).unwrap();
    assert!(same(&r_final, &r3));
}

#[test]
fn test_compose_overlapping() {
    let r1 = rel(&[]);
    let r2 = rel(&[1]);
    let r3 = rel(&[1, 2]);
    let d1 = Delta::between(&r1, &r2).unwrap();
    let d2 = Delta::between(&r2, &r3).unwrap();
    let d3 = d1.compose(&d2).unwrap();
    assert_eq!(d3.inserted.cardinality(), 2);
    assert!(d3.inserted.contains(&t(1)));
    assert!(d3.inserted.contains(&t(2)));
    let r_final = d3.apply(&r1).unwrap();
    assert!(same(&r_final, &r3));
}

#[test]
fn compose_with_inverse_is_empty() {
    let d = Delta::between(&rel(&[1, 2, 3]), &rel(&[3, 4])).unwrap();
    let c = d.compose(&d.invert()).unwrap();
    assert!(c.inserted.is_empty());
    assert!(c.deleted.is_empty());
}

#[test]
fn type_mismatch_is_refused() {
    let other = Relation::new(vec![Attribute { name: "y".to_string(), ty: ScalarType::Int }]);
    let d = Delta::between(&rel(&[1]), &rel(&[2])).unwrap();
    match d.apply(&other) {
        Err(DatabaseError::AlgebraError(m)) => assert_eq!(m, "Type mismatch: Cannot apply delta to relation of different type"),
        _ => panic!("expected a type mismatch"),
    }
    match Delta::between(&rel(&[1]), &other) {
        Err(DatabaseError::AlgebraError(m)) => {
            assert_eq!(m, "Type mismatch: Cannot compute delta between relations of different types")
        }
        _ => panic!("expected a type mismatch"),
    }
    assert!(matches!(Delta::new(rel(&[1]), other), Err(DatabaseError::AlgebraError(_))));
    let d2 = Delta::new(Relation::new(vec![Attribute { name: "y".to_string(), ty: ScalarType::Int }]), Relation::new(vec![Attribute { name: "y".to_string(), ty: ScalarType::Int }])).unwrap();
    assert!(matches!(d.compose(&d2), Err(DatabaseError::AlgebraError(m)) if m == "Type mismatch: Cannot compose deltas of different types"));
}

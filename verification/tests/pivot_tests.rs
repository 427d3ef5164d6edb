use relvar::pivot::{pivot, DatabaseError};
use relvar::relation::{Attribute, Relation, Row, ScalarType, ScalarValue};

fn attr(name: &str, ty: ScalarType) -> Attribute {
    Attribute { name: name.to_string(), ty }
}

fn s(x: &str) -> ScalarValue {
    ScalarValue::String(x.to_string())
}

fn get<'a>(r: &Relation, t: &'a Row, name: &str) -> Option<&'a ScalarValue> {
    r.attribute_index(&name.to_string()).map(|i| &t.values[i])
}

fn find<'a>(r: &'a Relation, name: &str, v: &ScalarValue) -> &'a Row {
    r.tuples.iter().find(|t| get(r, t, name) == Some(v)).unwrap()
}

#[test]
fn test_pivot_basic() {
    let mut r = Relation::new(vec![
        attr("A", ScalarType::String),
        attr("M", ScalarType::String),
        attr("V", ScalarType::Int),
    ]);
    r.insert(Row { values: vec![s("X"), s("Jan"), ScalarValue::Int(10)] });
    r.insert(Row { values: vec![s("X"), s("Feb"), ScalarValue::Int(20)] });
    r.insert(Row { values: vec![s("Y"), s("Jan"), ScalarValue::Int(30)] });

    let p = pivot(&r, "M", "V", ScalarValue::Int(0)).unwrap();
    assert_eq!(p.cardinality(), 2);

    let t_x = find(&p, "A", &s("X"));
    assert_eq!(get(&p, t_x, "Jan"), Some(&ScalarValue::Int(10)));
    assert_eq!(get(&p, t_x, "Feb"), Some(&ScalarValue::Int(20)));

    let t_y = find(&p, "A", &s("Y"));
    assert_eq!(get(&p, t_y, "Jan"), Some(&ScalarValue::Int(30)));
    assert_eq!(get(&p, t_y, "Feb"), Some(&ScalarValue::Int(0)));
}

#[test]
fn test_pivot_heading_sorted() {
    let mut r = Relation::new(vec![
        attr("A", ScalarType::String),
        attr("M", ScalarType::String),
        attr("V", ScalarType::Int),
    ]);
    r.insert(Row { values: vec![s("X"), s("Jan"), ScalarValue::Int(10)] });
    r.insert(Row { values: vec![s("X"), s("Feb"), ScalarValue::Int(20)] });
    let p = pivot(&r, "M", "V", ScalarValue::Int(0)).unwrap();
    let names: Vec<&str> = p.heading.iter().map(|a| a.name.as_str()).collect();
    assert_eq!(names, vec!["A", "Feb", "Jan"]);
    assert_eq!(p.tuples[0].values, vec![s("X"), ScalarValue::Int(20), ScalarValue::Int(10)]);
}

#[test]
fn test_pivot_conflict() {
    let mut r = Relation::new(vec![
        attr("K", ScalarType::String),
        attr("P", ScalarType::String),
        attr("V", ScalarType::Int),
    ]);
    r.insert(Row { values: vec![s("K1"), s("P1"), ScalarValue::Int(10)] });
    r.insert(Row { values: vec![s("K1"), s("P1"), ScalarValue::Int(20)] });

    let p = pivot(&r, "P", "V", ScalarValue::Int(0)).unwrap();
    assert_eq!(p.cardinality(), 1);
    let t = &p.tuples[0];
    assert_eq!(get(&p, t, "P1"), Some(&ScalarValue::Int(20)));
}

#[test]
fn test_pivot_errors() {
    let mut r = Relation::new(vec![
        attr("A", ScalarType::String),
        attr("Jan", ScalarType::String),
        attr("M", ScalarType::String),
        attr("V", ScalarType::Int),
    ]);
    r.insert(Row { values: vec![s("X"), s("Y"), s("Jan"), ScalarValue::Int(10)] });

    let err = pivot(&r, "Missing", "V", ScalarValue::Int(0)).unwrap_err();
    assert!(matches!(err, DatabaseError::AttributeNotFound(..)));

    let err = pivot(&r, "M", "Missing", ScalarValue::Int(0)).unwrap_err();
    assert!(matches!(err, DatabaseError::AttributeNotFound(..)));

    let err = pivot(&r, "M", "V", ScalarValue::Int(0)).unwrap_err();
    assert!(matches!(err, DatabaseError::DuplicateAttributeName(..)));

    let mut r2 = Relation::new(vec![
        attr("A", ScalarType::String),
        attr("M", ScalarType::String),
        attr("V", ScalarType::Int),
    ]);
    r2.insert(Row { values: vec![s("X"), s("Jan"), ScalarValue::Int(10)] });
    let err = pivot(&r2, "M", "V", ScalarValue::String("0".to_string())).unwrap_err();
    assert!(matches!(err, DatabaseError::AlgebraError(..)));

    let mut r3 = Relation::new(vec![
        attr("A", ScalarType::String),
        attr("M", ScalarType::Bytes),
        attr("V", ScalarType::Int),
    ]);
    r3.insert(Row { values: vec![s("X"), ScalarValue::Bytes(vec![1]), ScalarValue::Int(10)] });
    let err = pivot(&r3, "M", "V", ScalarValue::Int(0)).unwrap_err();
    assert!(matches!(err, DatabaseError::AlgebraError(..)));
}

#[test]
fn test_pivot_error_messages() {
    let mut r = Relation::new(vec![
        attr("A", ScalarType::String),
        attr("Jan", ScalarType::String),
        attr("M", ScalarType::String),
        attr("V", ScalarType::Int),
    ]);
    r.insert(Row { values: vec![s("X"), s("Y"), s("Jan"), ScalarValue::Int(10)] });
    match pivot(&r, "M", "V", ScalarValue::Int(0)) {
        Err(DatabaseError::DuplicateAttributeName(m)) => {
            assert_eq!(m, "Pivoted column 'Jan' conflicts with grouping attribute")
        }
        _ => panic!("expected a collision"),
    }
    match pivot(&r, "Nope", "V", ScalarValue::Int(0)) {
        Err(DatabaseError::AttributeNotFound(a, b)) => {
            assert_eq!(a, "Nope");
            assert_eq!(b, "relation");
        }
        _ => panic!("expected a missing attribute"),
    }
    match pivot(&r, "A", "V", ScalarValue::Bool(true)) {
        Err(DatabaseError::AlgebraError(m)) => {
            assert_eq!(m, "Default value type (Bool) mismatch with value attribute (Int)")
        }
        _ => panic!("expected a type mismatch"),
    }
}

#[test]
fn test_pivot_int_and_bool_keys() {
    let mut r = Relation::new(vec![
        attr("g", ScalarType::Bool),
        attr("k", ScalarType::Int),
        attr("v", ScalarType::Int),
    ]);
    r.insert(Row { values: vec![ScalarValue::Bool(true), ScalarValue::Int(-2), ScalarValue::Int(5)] });
    r.insert(Row { values: vec![ScalarValue::Bool(false), ScalarValue::Int(7), ScalarValue::Int(6)] });
    let p = pivot(&r, "k", "v", ScalarValue::Int(0)).unwrap();
    let names: Vec<&str> = p.heading.iter().map(|a| a.name.as_str()).collect();
    assert_eq!(names, vec!["-2", "7", "g"]);
    assert_eq!(p.cardinality(), 2);
}

use relvar::mock::{relation_of_rows, MockRelation};
use relvar::relation::Row;
use relvar::relation::{Attribute, ScalarType, ScalarValue};

fn attr(name: &str, ty: ScalarType) -> Attribute {
    Attribute { name: name.to_string(), ty }
}

#[test]
fn test_generate_mock_relation() {
    let heading = vec![attr("active", ScalarType::Bool), attr("id", ScalarType::Int), attr("name", ScalarType::String)];
    let relation = MockRelation::new(heading).count(50).seed(12345).generate();
    assert_eq!(relation.cardinality(), 50);
    assert_eq!(relation.degree(), 3);
}

#[test]
fn test_generate_all_types() {
    let heading = vec![
        attr("bool_val", ScalarType::Bool),
        attr("bytes_val", ScalarType::Bytes),
        attr("int_val", ScalarType::Int),
        attr("str_val", ScalarType::String),
    ];
    let relation = MockRelation::new(heading).count(10).seed(42).generate();
    assert_eq!(relation.degree(), 4);
    assert_eq!(relation.cardinality(), 10);
    for t in relation.tuples.iter() {
        match &t.values[1] {
            ScalarValue::Bytes(b) => assert!(!b.is_empty() && b.len() <= 32),
            _ => panic!("bytes expected"),
        }
        match &t.values[3] {
            ScalarValue::String(s) => {
                assert!(s.len() >= 5 && s.len() <= 15);
                assert!(s.chars().all(|c| c.is_ascii_alphanumeric()));
            }
            _ => panic!("string expected"),
        }
    }
}

#[test]
fn test_determinism() {
    let heading = || vec![attr("val", ScalarType::Int)];
    let rel1 = MockRelation::new(heading()).count(10).seed(42).generate();
    let rel2 = MockRelation::new(heading()).count(10).seed(42).generate();
    assert_eq!(rel1.tuples, rel2.tuples);
}

#[test]
fn test_generate_nothing() {
    let relation = MockRelation::new(vec![attr("val", ScalarType::Int)]).generate();
    assert_eq!(relation.cardinality(), 0);
}

#[test]
fn test_relation_of_rows_keeps_each_tuple_once() {
    let rows = vec![
        Row { values: vec![ScalarValue::Int(1)] },
        Row { values: vec![ScalarValue::Int(2)] },
        Row { values: vec![ScalarValue::Int(1)] },
    ];
    let r = relation_of_rows(vec![attr("id", ScalarType::Int)], rows);
    assert_eq!(r.cardinality(), 2);
    assert!(r.contains(&Row { values: vec![ScalarValue::Int(1)] }));
    assert!(r.contains(&Row { values: vec![ScalarValue::Int(2)] }));
}

#[test]
fn test_count_gives_that_many_distinct_tuples() {
    let r = MockRelation::new(vec![attr("id", ScalarType::Int), attr("name", ScalarType::String)])
        .count(100)
        .seed(7)
        .generate();
    assert_eq!(r.cardinality(), 100);
}

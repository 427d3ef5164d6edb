use relvar::exporter::{json_objects, to_ascii_table, to_csv, to_json};
use relvar::relation::{Attribute, Relation, Row, ScalarType, ScalarValue};

fn attr(name: &str, ty: ScalarType) -> Attribute {
    Attribute { name: name.to_string(), ty }
}

fn create_test_relation() -> Relation {
    let mut relation = Relation::new(vec![
        attr("active", ScalarType::Bool),
        attr("id", ScalarType::Int),
        attr("name", ScalarType::String),
    ]);
    relation.insert(Row {
        values: vec![ScalarValue::Bool(true), ScalarValue::Int(1), ScalarValue::String("Alice".to_string())],
    });
    relation.insert(Row {
        values: vec![ScalarValue::Bool(false), ScalarValue::Int(2), ScalarValue::String("Bob".to_string())],
    });
    relation
}

#[test]
fn test_to_csv() {
    let relation = create_test_relation();
    let csv = to_csv(&relation, ',').unwrap();
    let expected = "active,id,name\nfalse,2,\"Bob\"\ntrue,1,\"Alice\"\n";
    assert_eq!(csv, expected);
}

#[test]
fn test_to_csv_doc_example() {
    let mut relation = Relation::new(vec![attr("col1", ScalarType::Int), attr("col2", ScalarType::String)]);
    relation.insert(Row { values: vec![ScalarValue::Int(1), ScalarValue::String("foo".to_string())] });
    assert_eq!(to_csv(&relation, ',').unwrap(), "col1,col2\n1,\"foo\"\n");
}

#[test]
fn test_to_csv_escapes_and_bytes() {
    let mut relation = Relation::new(vec![attr("b", ScalarType::Bytes), attr("s", ScalarType::String)]);
    relation.insert(Row {
        values: vec![ScalarValue::Bytes(vec![1, 2, 30]), ScalarValue::String("say \"hi\"".to_string())],
    });
    relation.insert(Row { values: vec![ScalarValue::Bytes(vec![]), ScalarValue::String("x".to_string())] });
    assert_eq!(
        to_csv(&relation, '\t').unwrap(),
        "b\ts\n[]\t\"x\"\n[1, 2, 30]\t\"say \"\"hi\"\"\"\n"
    );
}

#[test]
fn test_to_csv_negative_numbers_sorted() {
    let mut relation = Relation::new(vec![attr("n", ScalarType::Int)]);
    relation.insert(Row { values: vec![ScalarValue::Int(10)] });
    relation.insert(Row { values: vec![ScalarValue::Int(-3)] });
    relation.insert(Row { values: vec![ScalarValue::Int(0)] });
    assert_eq!(to_csv(&relation, ',').unwrap(), "n\n-3\n0\n10\n");
}

#[test]
fn test_to_ascii_table() {
    let relation = create_test_relation();
    let table = to_ascii_table(&relation);
    assert!(table.contains("| active | id | name  |"));
    assert!(table.contains("| false  | 2  | Bob   |"));
    assert!(table.contains("| true   | 1  | Alice |"));
}

#[test]
fn test_to_ascii_table_whole_text() {
    let mut relation = Relation::new(vec![attr("name", ScalarType::String), attr("score", ScalarType::Int)]);
    relation.insert(Row { values: vec![ScalarValue::String("Alice".to_string()), ScalarValue::Int(100)] });
    let expected = "+-------+-------+\n| name  | score |\n+-------+-------+\n| Alice | 100   |\n+-------+-------+\n";
    assert_eq!(to_ascii_table(&relation), expected);
}

#[test]
fn test_to_ascii_table_empty_heading() {
    let relation = Relation::new(vec![]);
    assert_eq!(to_ascii_table(&relation), "(empty relation)");
}

#[test]
fn test_to_ascii_table_bytes_cell() {
    let mut relation = Relation::new(vec![attr("b", ScalarType::Bytes)]);
    relation.insert(Row { values: vec![ScalarValue::Bytes(vec![7])] });
    assert_eq!(to_ascii_table(&relation), "+---------+\n| b       |\n+---------+\n| <Bytes> |\n+---------+\n");
}

#[test]
fn test_export_ignores_insertion_order() {
    let a = create_test_relation();
    let mut b = Relation::new(vec![
        attr("active", ScalarType::Bool),
        attr("id", ScalarType::Int),
        attr("name", ScalarType::String),
    ]);
    b.insert(Row {
        values: vec![ScalarValue::Bool(false), ScalarValue::Int(2), ScalarValue::String("Bob".to_string())],
    });
    b.insert(Row {
        values: vec![ScalarValue::Bool(true), ScalarValue::Int(1), ScalarValue::String("Alice".to_string())],
    });
    assert_eq!(to_csv(&a, ';').unwrap(), to_csv(&b, ';').unwrap());
    assert_eq!(to_ascii_table(&a), to_ascii_table(&b));
}

#[test]
fn test_to_json() {
    let relation = create_test_relation();
    let json = to_json(&relation).unwrap();
    let val: serde_json::Value = serde_json::from_str(&json).unwrap();
    assert!(val.is_array());
    let arr = val.as_array().unwrap();
    assert_eq!(arr.len(), 2);
}

#[test]
fn test_json_export_all_types() {
    let mut relation = Relation::new(vec![
        attr("bool_col", ScalarType::Bool),
        attr("bytes_col", ScalarType::Bytes),
        attr("int_col", ScalarType::Int),
        attr("str_col", ScalarType::String),
    ]);
    relation.insert(Row {
        values: vec![
            ScalarValue::Bool(true),
            ScalarValue::Bytes(vec![1, 2, 3]),
            ScalarValue::Int(123),
            ScalarValue::String("hello".to_string()),
        ],
    });
    let json = to_json(&relation).unwrap();
    let parsed: serde_json::Value = serde_json::from_str(&json).unwrap();
    let obj = &parsed[0];
    assert_eq!(obj["int_col"], 123);
    assert_eq!(obj["str_col"], "hello");
    assert_eq!(obj["bool_col"], true);
    assert_eq!(obj["bytes_col"], serde_json::Value::from(vec![1u8, 2, 3]));
}

#[test]
fn test_to_json_exact_text() {
    let mut relation = Relation::new(vec![attr("id", ScalarType::Int)]);
    relation.insert(Row { values: vec![ScalarValue::Int(2)] });
    relation.insert(Row { values: vec![ScalarValue::Int(1)] });
    let json = to_json(&relation).unwrap();
    assert_eq!(json, "[\n  {\n    \"id\": 1\n  },\n  {\n    \"id\": 2\n  }\n]");
    let objs = json_objects(&relation);
    assert_eq!(objs.len(), 2);
    assert_eq!(objs[0], vec![("id".to_string(), ScalarValue::Int(1))]);
}

#[test]
fn test_to_json_empty() {
    let relation = Relation::new(vec![attr("id", ScalarType::Int)]);
    assert_eq!(to_json(&relation).unwrap(), "[]");
}

#[test]
fn test_table_has_cardinality_plus_four_lines() {
    let relation = create_test_relation();
    let table = to_ascii_table(&relation);
    assert_eq!(table.matches('\n').count(), relation.cardinality() + 4);
    assert!(table.ends_with('\n'));
    let empty = Relation::new(vec![]);
    assert_eq!(to_ascii_table(&empty), "(empty relation)");
}

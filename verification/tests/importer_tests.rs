use relvar::csv::parse_csv_line;
use relvar::importer::{from_csv, is_blank, parse_int, str_to_scalar, ImporterError};
use relvar::relation::{Attribute, Row, ScalarType, ScalarValue};

fn attr(name: &str, ty: ScalarType) -> Attribute {
    Attribute { name: name.to_string(), ty }
}

fn lines(text: &str) -> Vec<String> {
    text.lines().map(|l| l.to_string()).collect()
}

fn heading() -> Vec<Attribute> {
    vec![attr("active", ScalarType::Bool), attr("id", ScalarType::Int), attr("name", ScalarType::String)]
}

#[test]
fn test_from_csv_simple() {
    let csv = "id,name,active\n1,\"Alice\",true\n2,Bob,false";
    let relation = from_csv(&lines(csv), heading(), ',').unwrap();
    assert_eq!(relation.cardinality(), 2);
    assert!(relation.contains(&Row {
        values: vec![ScalarValue::Bool(true), ScalarValue::Int(1), ScalarValue::String("Alice".to_string())]
    }));
}

#[test]
fn test_from_csv_empty_input() {
    match from_csv(&vec![], heading(), ',') {
        Err(ImporterError::FormatError(m)) => assert_eq!(m, "Empty CSV input"),
        _ => panic!("expected a format error"),
    }
}

#[test]
fn test_from_csv_missing_header() {
    match from_csv(&lines("id,name\n1,a"), heading(), ',') {
        Err(ImporterError::MissingValue(m)) => assert_eq!(m, "Header missing attribute 'active'"),
        _ => panic!("expected a missing value"),
    }
}

#[test]
fn test_from_csv_wrong_width() {
    match from_csv(&lines("id,name,active\n1,a,true\n2,b"), heading(), ',') {
        Err(ImporterError::FormatError(m)) => assert_eq!(m, "Row 2 has 2 fields, expected 3"),
        _ => panic!("expected a format error"),
    }
}

#[test]
fn test_from_csv_type_error() {
    match from_csv(&lines("id,name,active\nx1,a,true"), heading(), ',') {
        Err(ImporterError::TypeError(a, t, m)) => {
            assert_eq!(a, "id");
            assert_eq!(t, "Int");
            assert_eq!(m, "invalid digit found in string");
        }
        _ => panic!("expected a type error"),
    }
}

#[test]
fn test_from_csv_blank_lines_duplicates_and_extra_columns() {
    let csv = "extra,id,name,active\nq,1,a,true\n   \nq,1,a,true\nz,2,b,false";
    let relation = from_csv(&lines(csv), heading(), ',').unwrap();
    assert_eq!(relation.cardinality(), 2);
}

#[test]
fn test_parse_int_messages() {
    assert_eq!(parse_int("42"), Ok(42));
    assert_eq!(parse_int("+7"), Ok(7));
    assert_eq!(parse_int("-9223372036854775808"), Ok(i64::MIN));
    assert_eq!(parse_int("").unwrap_err(), "cannot parse integer from empty string");
    assert_eq!(parse_int("-").unwrap_err(), "invalid digit found in string");
    assert_eq!(parse_int("12a").unwrap_err(), "invalid digit found in string");
    assert_eq!(parse_int("9223372036854775808").unwrap_err(), "number too large to fit in target type");
    assert_eq!(parse_int("-9223372036854775809").unwrap_err(), "number too small to fit in target type");
}

#[test]
fn test_str_to_scalar() {
    assert_eq!(str_to_scalar("true", ScalarType::Bool), Ok(ScalarValue::Bool(true)));
    assert_eq!(
        str_to_scalar("yes", ScalarType::Bool).unwrap_err(),
        "provided string was not `true` or `false`"
    );
    assert_eq!(str_to_scalar("[1, 2, 255]", ScalarType::Bytes), Ok(ScalarValue::Bytes(vec![1, 2, 255])));
    assert_eq!(str_to_scalar("[256]", ScalarType::Bytes).unwrap_err(), "Invalid bytes format");
    assert_eq!(str_to_scalar("hi", ScalarType::String), Ok(ScalarValue::String("hi".to_string())));
}

#[test]
fn test_parse_csv_line_quoted_delimiter() {
    let fields = parse_csv_line("1,\"Alice, Bob\",3", ',');
    assert_eq!(fields, vec!["1", "Alice, Bob", "3"]);
}

use relvar::importer::{from_json, from_json_value, json_value_to_scalar, Json, JsonNode, JsonNumber};

fn num(i: i64) -> Json {
    Json {
        node: JsonNode::Number(JsonNumber {
            as_i64: Some(i),
            as_u64: if i >= 0 { Some(i as u64) } else { None },
            text: i.to_string(),
        }),
        debug: format!("Number({})", i),
    }
}

fn text(s: &str) -> Json {
    Json { node: JsonNode::String(s.to_string()), debug: format!("String({:?})", s) }
}

fn object(entries: Vec<(&str, Json)>) -> Json {
    Json {
        node: JsonNode::Object(entries.into_iter().map(|(k, v)| (k.to_string(), v)).collect()),
        debug: "Object {..}".to_string(),
    }
}

fn array(items: Vec<Json>) -> Json {
    Json { node: JsonNode::Array(items), debug: "Array [..]".to_string() }
}

#[test]
fn test_from_json_simple() {
    let json = r#"[
            {"id": 1, "name": "Alice"},
            {"id": 2, "name": "Bob"}
        ]"#;
    let relation = from_json(json.as_bytes(), vec![attr("id", ScalarType::Int), attr("name", ScalarType::String)]).unwrap();
    assert_eq!(relation.cardinality(), 2);
}

#[test]
fn test_from_json_value_simple() {
    let root = array(vec![
        object(vec![("id", num(1)), ("name", text("Alice"))]),
        object(vec![("id", num(2)), ("name", text("Bob"))]),
    ]);
    let relation = from_json_value(&root, vec![attr("id", ScalarType::Int), attr("name", ScalarType::String)]).unwrap();
    assert_eq!(relation.cardinality(), 2);
}

#[test]
fn test_from_json_bytes_errors() {
    let h = || vec![attr("id", ScalarType::Int)];
    assert!(matches!(from_json(b"[{\"id\": 1,", h()), Err(ImporterError::JsonError(_))));
    match from_json(b"{\"id\": 1}", h()) {
        Err(ImporterError::FormatError(m)) => assert_eq!(m, "JSON root must be an array"),
        _ => panic!("expected a format error"),
    }
    let r = from_json(b"[{\"id\": 7}, {\"id\": 7}, {\"id\": -3}]", h()).unwrap();
    assert_eq!(r.cardinality(), 2);
    match from_json(b"[{\"id\": \"x\"}]", h()) {
        Err(ImporterError::TypeError(a, _, _)) => assert_eq!(a, "id"),
        _ => panic!("expected a type error"),
    }
}

#[test]
fn test_from_json_errors() {
    let h = || vec![attr("id", ScalarType::Int)];
    match from_json_value(&num(3), h()) {
        Err(ImporterError::FormatError(m)) => assert_eq!(m, "JSON root must be an array"),
        _ => panic!("expected a format error"),
    }
    match from_json_value(&array(vec![object(vec![("id", num(1))]), num(2)]), h()) {
        Err(ImporterError::FormatError(m)) => assert_eq!(m, "Item at index 1 is not an object"),
        _ => panic!("expected a format error"),
    }
    match from_json_value(&array(vec![object(vec![("other", num(1))])]), h()) {
        Err(ImporterError::MissingValue(m)) => assert_eq!(m, "id"),
        _ => panic!("expected a missing value"),
    }
    match from_json_value(&array(vec![object(vec![("id", text("x"))])]), h()) {
        Err(ImporterError::TypeError(a, t, m)) => {
            assert_eq!(a, "id");
            assert_eq!(t, "Int");
            assert_eq!(m, "Incompatible value String(\"x\") for type Int");
        }
        _ => panic!("expected a type error"),
    }
}

#[test]
fn test_json_value_to_scalar_bytes() {
    assert_eq!(
        json_value_to_scalar(&array(vec![num(1), num(255)]), ScalarType::Bytes),
        Ok(ScalarValue::Bytes(vec![1, 255]))
    );
    assert_eq!(
        json_value_to_scalar(&array(vec![num(1), num(256)]), ScalarType::Bytes).unwrap_err(),
        "Byte value 256 out of range"
    );
    assert_eq!(
        json_value_to_scalar(&array(vec![num(-1)]), ScalarType::Bytes).unwrap_err(),
        "Invalid byte value Number(-1)"
    );
}

#[test]
fn test_is_blank_unicode_spaces() {
    let mut s = String::new();
    for code in [0x09u32, 0x0A, 0x20, 0x85, 0xA0, 0x1680, 0x2000, 0x200A, 0x2028, 0x2029, 0x202F, 0x205F, 0x3000] {
        s.push(char::from_u32(code).unwrap());
    }
    assert!(is_blank(&s));
    assert!(!is_blank("\u{200B}"));
    assert!(!is_blank(" a "));
}

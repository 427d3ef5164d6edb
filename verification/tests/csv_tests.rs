use relvar::csv::{parse_csv_line, quote_csv_field};

#[test]
fn test_parse_csv_line() {
    let line = "1,\"Alice, Bob\",3";
    let fields = parse_csv_line(line, ',');
    assert_eq!(fields, vec!["1", "Alice, Bob", "3"]);

    let line = "1,\"Alice \"\"The Great\"\"\",3";
    let fields = parse_csv_line(line, ',');
    assert_eq!(fields, vec!["1", "Alice \"The Great\"", "3"]);
}

#[test]
fn parse_empty_line_gives_one_empty_field() {
    assert_eq!(parse_csv_line("", ','), vec![""]);
    assert_eq!(parse_csv_line(",", ','), vec!["", ""]);
}

#[test]
fn parse_with_other_delimiter() {
    assert_eq!(parse_csv_line("a;b,c;\"d;e\"", ';'), vec!["a", "b,c", "d;e"]);
}

#[test]
fn quote_doubles_quotes() {
    assert_eq!(quote_csv_field("plain"), "\"plain\"");
    assert_eq!(quote_csv_field("say \"hi\""), "\"say \"\"hi\"\"\"");
    assert_eq!(quote_csv_field(""), "\"\"");
}

#[test]
fn quoted_fields_round_trip() {
    let fields = vec!["a,b", "x\"y", "", "\"\""];
    let line: Vec<String> = fields.iter().map(|f| quote_csv_field(f)).collect();
    let line = line.join(",");
    assert_eq!(parse_csv_line(&line, ','), fields);
}

#[test]
fn test_plain_line_splits_at_each_delimiter() {
    let line = "a;bb;;c d";
    let fields = parse_csv_line(line, ';');
    let expected: Vec<String> = line.split(';').map(String::from).collect();
    assert_eq!(fields, expected);
    assert_eq!(fields.join(";"), line);
}

#[test]
fn test_field_count_counts_delimiters_outside_quotes() {
    let fields = parse_csv_line("x,\"a,b,c\",y,\"\"\",\"", ',');
    assert_eq!(fields.len(), 4);
    assert_eq!(fields[1], "a,b,c");
    assert_eq!(fields[3], "\",");
}

#[test]
fn test_quote_free_line_rejoins() {
    let line = "a;;b c;d;";
    let fields = parse_csv_line(line, ';');
    assert_eq!(fields, line.split(';').map(String::from).collect::<Vec<String>>());
    assert_eq!(fields.join(";"), line);
    assert!(fields.iter().all(|f| !f.contains(';')));
}

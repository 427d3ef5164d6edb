use relvar::parser::{BinaryRule, CykParser, ParseEntry, Symbol, TerminalRule};

fn term(l: &str, r: &str) -> TerminalRule {
    TerminalRule { lhs: l.to_string(), rhs: r.to_string() }
}

fn rule(l: &str, a: &str, b: &str) -> BinaryRule {
    BinaryRule { lhs: l.to_string(), rhs1: a.to_string(), rhs2: b.to_string() }
}

fn input(s: &str) -> Vec<Symbol> {
    s.chars().enumerate().map(|(i, c)| Symbol { pos: i as i64, ch: c.to_string() }).collect()
}

#[test]
fn test_cyk_parser() {
    let parser = CykParser::new(vec![term("A", "a"), term("B", "b")], vec![rule("S", "A", "B")]);
    let table = parser.parse(&input("ab"));
    assert!(CykParser::is_accepted(&table, "S", 2));
}

#[test]
fn test_cyk_parser_complex() {
    let parser = CykParser::new(
        vec![term("A", "a"), term("B", "b")],
        vec![rule("S", "A", "B"), rule("S", "S", "S")],
    );
    let table = parser.parse(&input("abab"));
    assert!(CykParser::is_accepted(&table, "S", 4));
    assert!(!CykParser::is_accepted(&table, "S", 3));
}

#[test]
fn cyk_table_holds_exact_entries() {
    let parser = CykParser::new(vec![term("A", "a"), term("B", "b")], vec![rule("S", "A", "B")]);
    let mut table = parser.parse(&input("ab"));
    table.sort_by(|x, y| (x.start, x.length, x.non_terminal.clone()).cmp(&(y.start, y.length, y.non_terminal.clone())));
    let e = |s: i64, l: i64, n: &str| ParseEntry { start: s, length: l, non_terminal: n.to_string() };
    assert_eq!(table, vec![e(0, 1, "A"), e(0, 2, "S"), e(1, 1, "B")]);
}

#[test]
fn cyk_rejects_wrong_order() {
    let parser = CykParser::new(vec![term("A", "a"), term("B", "b")], vec![rule("S", "A", "B")]);
    let table = parser.parse(&input("ba"));
    assert!(!CykParser::is_accepted(&table, "S", 2));
    assert_eq!(table.len(), 2);
}

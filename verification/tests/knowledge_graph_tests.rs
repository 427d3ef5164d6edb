use relvar::knowledge_graph::{KnowledgeGraph, QueryError, QueryResult, Term, TriplePattern};

fn column(r: &QueryResult, var: &str) -> Vec<String> {
    let idx = r.variables.iter().position(|v| v == var).expect("variable");
    r.rows.iter().map(|row| row[idx].clone()).collect()
}

#[test]
fn test_knowledge_graph_basic_query() {
    let mut kg = KnowledgeGraph::new();
    kg.insert("Alice", "type", "Artist");
    kg.insert("Bob", "type", "Artist");
    kg.insert("Charlie", "type", "Programmer");
    kg.insert("Alice", "knows", "Bob");
    kg.insert("Bob", "knows", "Charlie");

    let q1 = vec![TriplePattern::new(Term::var("person"), Term::val("type"), Term::val("Artist"))];
    let res1 = kg.query(&q1).unwrap();
    assert_eq!(res1.rows.len(), 2);
    let mut artists = column(&res1, "person");
    artists.sort();
    assert_eq!(artists, vec!["Alice", "Bob"]);

    let q2 = vec![
        TriplePattern::new(Term::var("p1"), Term::val("type"), Term::val("Artist")),
        TriplePattern::new(Term::var("p2"), Term::val("type"), Term::val("Artist")),
        TriplePattern::new(Term::var("p1"), Term::val("knows"), Term::var("p2")),
    ];
    let res2 = kg.query(&q2).unwrap();
    assert_eq!(res2.rows.len(), 1);
    assert_eq!(column(&res2, "p1"), vec!["Alice"]);
    assert_eq!(column(&res2, "p2"), vec!["Bob"]);
}

#[test]
fn test_knowledge_graph_empty_query() {
    let kg = KnowledgeGraph::new();
    assert_eq!(kg.query(&[]).err(), Some(QueryError::AlgebraError("Empty query".to_string())));
}

#[test]
fn term_constructors() {
    assert_eq!(Term::var("x"), Term::Variable("x".to_string()));
    assert_eq!(Term::val("v"), Term::Value("v".to_string()));
    let p = TriplePattern::new(Term::var("s"), Term::val("p"), Term::var("o"));
    assert_eq!(p.subject, Term::var("s"));
    assert_eq!(p.predicate, Term::val("p"));
    assert_eq!(p.object, Term::var("o"));
}

#[test]
fn insert_keeps_triples_unique() {
    let mut kg = KnowledgeGraph::new();
    kg.insert("a", "b", "c");
    kg.insert("a", "b", "c");
    assert_eq!(kg.triples.len(), 1);
}

#[test]
fn ground_pattern_gives_one_empty_answer_or_none() {
    let mut kg = KnowledgeGraph::new();
    kg.insert("a", "b", "c");
    let yes = kg.query(&[TriplePattern::new(Term::val("a"), Term::val("b"), Term::val("c"))]).unwrap();
    assert!(yes.variables.is_empty());
    assert_eq!(yes.rows.len(), 1);
    let no = kg.query(&[TriplePattern::new(Term::val("a"), Term::val("b"), Term::val("x"))]).unwrap();
    assert_eq!(no.rows.len(), 0);
}

#[test]
fn answers_are_distinct() {
    let mut kg = KnowledgeGraph::new();
    kg.insert("a", "knows", "b");
    kg.insert("a", "knows", "c");
    let r = kg.query(&[TriplePattern::new(Term::var("x"), Term::val("knows"), Term::var("y"))]).unwrap();
    assert_eq!(r.rows.len(), 2);
    let r = kg.query(&[TriplePattern::new(Term::var("x"), Term::val("knows"), Term::val("b")),
                       TriplePattern::new(Term::var("x"), Term::val("knows"), Term::var("y"))]).unwrap();
    assert_eq!(r.rows.len(), 2);
    assert_eq!(column(&r, "x"), vec!["a", "a"]);
}

#[test]
fn repeated_variable_requires_equal_components() {
    let mut kg = KnowledgeGraph::new();
    kg.insert("a", "likes", "a");
    kg.insert("a", "likes", "b");
    let r = kg.query(&[TriplePattern::new(Term::var("x"), Term::val("likes"), Term::var("x"))]).unwrap();
    assert_eq!(r.rows.len(), 1);
    assert_eq!(column(&r, "x"), vec!["a"]);
}

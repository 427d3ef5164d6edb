use relvar::fsa::{FsaTransition, RelationalFsa};

fn states(names: &[&str]) -> Vec<String> {
    names.iter().map(|s| s.to_string()).collect()
}

fn transitions(ts: &[(&str, &str, &str)]) -> Vec<FsaTransition> {
    ts.iter()
        .map(|(a, b, c)| FsaTransition { state: a.to_string(), symbol: b.to_string(), next_state: c.to_string() })
        .collect()
}

#[test]
fn test_fsa_matching_ab_plus() {
    let t = transitions(&[("q0", "a", "q1"), ("q1", "b", "q2"), ("q2", "a", "q1")]);
    let accept = states(&["q2"]);
    let start = states(&["q0"]);
    let fsa = RelationalFsa::new(t, accept);
    assert!(fsa.evaluate(&start, &["a", "b"]));
    assert!(fsa.evaluate(&start, &["a", "b", "a", "b"]));
    assert!(fsa.evaluate(&start, &["a", "b", "a", "b", "a", "b"]));
    assert!(!fsa.evaluate(&start, &[]));
    assert!(!fsa.evaluate(&start, &["a"]));
    assert!(!fsa.evaluate(&start, &["a", "a"]));
    assert!(!fsa.evaluate(&start, &["a", "b", "a"]));
    assert!(!fsa.evaluate(&start, &["b"]));
}

#[test]
fn test_nfa_multiple_paths() {
    let t = transitions(&[("q0", "0", "q0"), ("q0", "0", "q1"), ("q0", "1", "q0"), ("q1", "1", "q2")]);
    let fsa = RelationalFsa::new(t, states(&["q2"]));
    let start = states(&["q0"]);
    assert!(fsa.evaluate(&start, &["0", "1"]));
    assert!(fsa.evaluate(&start, &["1", "0", "1"]));
    assert!(fsa.evaluate(&start, &["0", "0", "0", "1"]));
    assert!(!fsa.evaluate(&start, &["0"]));
    assert!(!fsa.evaluate(&start, &["1"]));
    assert!(!fsa.evaluate(&start, &["0", "1", "0"]));
    assert!(!fsa.evaluate(&start, &["1", "0", "0"]));
}

#[test]
fn initial_accepting_state_accepts_empty_input() {
    let fsa = RelationalFsa::new(vec![], states(&["s"]));
    assert!(fsa.evaluate(&states(&["s"]), &[]));
    assert!(!fsa.evaluate(&states(&[]), &[]));
}

#[test]
fn multi_character_symbols() {
    let t = transitions(&[("s", "go", "t")]);
    let fsa = RelationalFsa::new(t, states(&["t"]));
    assert!(fsa.evaluate(&states(&["s"]), &["go"]));
    assert!(!fsa.evaluate(&states(&["s"]), &["g"]));
}

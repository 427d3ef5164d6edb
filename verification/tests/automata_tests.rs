use relvar::automata::{NfaState, NfaTransition, RelationalNfa};

fn state(name: &str, is_start: bool, is_accept: bool) -> NfaState {
    NfaState { state: name.to_string(), is_start, is_accept }
}

fn trans(from: &str, symbol: &str, to: &str) -> NfaTransition {
    NfaTransition { from_state: from.to_string(), symbol: symbol.to_string(), to_state: to.to_string() }
}

fn build_nfa() -> RelationalNfa {
    let states = vec![state("q0", true, false), state("q1", false, false), state("q2", false, true)];
    let transitions = vec![
        trans("q0", "a", "q1"),
        trans("q1", "b", "q2"),
        trans("q1", "", "q2"),
        trans("q2", "c", "q2"),
    ];
    RelationalNfa::new(states, transitions)
}

#[test]
fn test_nfa_ab() {
    let nfa = build_nfa();
    assert!(nfa.accepts("ab"));
}

#[test]
fn test_nfa_a() {
    let nfa = build_nfa();
    assert!(nfa.accepts("a"));
}

#[test]
fn test_nfa_ac() {
    let nfa = build_nfa();
    assert!(nfa.accepts("ac"));
}

#[test]
fn test_nfa_abc() {
    let nfa = build_nfa();
    assert!(nfa.accepts("abc"));
}

#[test]
fn test_nfa_reject() {
    let nfa = build_nfa();
    assert!(!nfa.accepts("b"));
    assert!(!nfa.accepts(""));
    assert!(!nfa.accepts("abccx"));
}

#[test]
fn test_nfa_star() {
    let states = vec![state("q0", true, true), state("q1", false, false)];
    let transitions = vec![trans("q0", "a", "q1"), trans("q1", "", "q0")];
    let nfa = RelationalNfa::new(states, transitions);
    assert!(nfa.accepts(""));
    assert!(nfa.accepts("a"));
    assert!(nfa.accepts("aa"));
    assert!(nfa.accepts("aaa"));
    assert!(!nfa.accepts("b"));
    assert!(!nfa.accepts("ab"));
}

#[test]
fn test_nfa_union() {
    let states = vec![
        state("start", true, false),
        state("b1", false, false),
        state("b2", false, true),
        state("c1", false, false),
        state("c2", false, true),
        state("b1_a", false, false),
        state("c1_a", false, false),
    ];
    let transitions = vec![
        trans("start", "", "b1"),
        trans("b1", "a", "b1_a"),
        trans("b1_a", "b", "b2"),
        trans("start", "", "c1"),
        trans("c1", "a", "c1_a"),
        trans("c1_a", "c", "c2"),
    ];
    let nfa = RelationalNfa::new(states, transitions);
    assert!(nfa.accepts("ab"));
    assert!(nfa.accepts("ac"));
    assert!(!nfa.accepts("a"));
    assert!(!nfa.accepts("abc"));
}

#[test]
fn undeclared_state_without_epsilon_moves_is_dropped() {
    // q9 is reached on "a" but is not listed, so the closure drops it.
    let states = vec![state("q0", true, false)];
    let transitions = vec![trans("q0", "a", "q9")];
    let nfa = RelationalNfa::new(states, transitions);
    assert!(!nfa.accepts("a"));
}

#[test]
fn multi_character_symbols_never_match() {
    let states = vec![state("q0", true, false), state("q1", false, true)];
    let transitions = vec![trans("q0", "ab", "q1")];
    let nfa = RelationalNfa::new(states, transitions);
    assert!(!nfa.accepts("ab"));
    assert!(!nfa.accepts("a"));
}

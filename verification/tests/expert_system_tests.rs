use relvar::expert_system::ExpertSystem;

fn strs(v: &[&str]) -> Vec<String> {
    v.iter().map(|s| s.to_string()).collect()
}

fn pairs(v: &[(&str, &str)]) -> Vec<(String, String)> {
    v.iter().map(|(a, b)| (a.to_string(), b.to_string())).collect()
}

#[test]
fn test_socrates_mortal() {
    let es = ExpertSystem::new(
        strs(&["Socrates is a man"]),
        pairs(&[("rule1", "Socrates is a man")]),
        pairs(&[("rule1", "Socrates is mortal")]),
    );
    let facts = es.infer();
    assert_eq!(facts.len(), 2);
    assert!(facts.iter().any(|f| f == "Socrates is mortal"));
}

#[test]
fn test_multiple_conditions() {
    let es = ExpertSystem::new(
        strs(&["Has fur", "Barks"]),
        pairs(&[
            ("dog_rule", "Has fur"),
            ("dog_rule", "Barks"),
            ("cat_rule", "Has fur"),
            ("cat_rule", "Meows"),
        ]),
        pairs(&[("dog_rule", "Is a Dog"), ("cat_rule", "Is a Cat")]),
    );
    let facts = es.infer();
    assert_eq!(facts.len(), 3);
    assert!(facts.iter().any(|f| f == "Is a Dog"));
    assert!(!facts.iter().any(|f| f == "Is a Cat"));
}

#[test]
fn test_chained_inference() {
    let es = ExpertSystem::new(
        strs(&["A"]),
        pairs(&[("r1", "A"), ("r2", "B"), ("r3", "C")]),
        pairs(&[("r1", "B"), ("r2", "C"), ("r3", "D")]),
    );
    let facts = es.infer();
    assert_eq!(facts.len(), 4);
    assert!(facts.iter().any(|f| f == "D"));
}

#[test]
fn expert_no_rules_keeps_facts_once() {
    let es = ExpertSystem::new(strs(&["x", "x", "y"]), vec![], vec![]);
    let mut facts = es.infer();
    facts.sort();
    assert_eq!(facts, strs(&["x", "y"]));
}

#[test]
fn expert_rule_without_conditions_never_fires() {
    let es = ExpertSystem::new(strs(&["a"]), vec![], pairs(&[("r", "b")]));
    assert_eq!(es.infer(), strs(&["a"]));
}

#[test]
fn expert_result_is_closed_under_rules() {
    // Law: every rule whose conditions hold in the result has its conclusion there.
    let es = ExpertSystem::new(
        strs(&["p"]),
        pairs(&[("r1", "p"), ("r2", "q"), ("r2", "p"), ("r3", "z")]),
        pairs(&[("r1", "q"), ("r2", "s"), ("r3", "t")]),
    );
    let mut facts = es.infer();
    facts.sort();
    assert_eq!(facts, strs(&["p", "q", "s"]));
}

use relvar::knn::majority_class;

fn labels(v: &[&str]) -> Vec<String> {
    v.iter().map(|s| s.to_string()).collect()
}

#[test]
fn test_majority_class_counts_votes() {
    assert_eq!(majority_class(&labels(&["A", "B", "A"])), Some("A".to_string()));
    assert_eq!(majority_class(&labels(&["B", "B", "A"])), Some("B".to_string()));
}

#[test]
fn test_majority_class_tie_goes_to_first_name() {
    assert_eq!(majority_class(&labels(&["B", "A"])), Some("A".to_string()));
    assert_eq!(majority_class(&labels(&["yes", "no", "no", "yes"])), Some("no".to_string()));
}

#[test]
fn test_majority_class_empty() {
    assert_eq!(majority_class(&vec![]), None);
}

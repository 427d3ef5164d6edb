use relvar::crdt::OrSet;

#[test]
fn test_orset_basic() {
    let mut set = OrSet::new();
    set.add("A", "tag1");
    set.add("B", "tag2");
    let elements = set.read();
    assert_eq!(elements.len(), 2);
    set.remove("A");
    let elements2 = set.read();
    assert_eq!(elements2.len(), 1);
    set.add("A", "tag3");
    let elements3 = set.read();
    assert_eq!(elements3.len(), 2);
}

#[test]
fn test_orset_merge_concurrent_add_remove() {
    let mut replica1 = OrSet::new();
    let mut replica2 = OrSet::new();
    replica1.add("A", "tag1");
    replica2.merge(&replica1);
    replica1.remove("A");
    replica2.add("A", "tag2");
    replica1.merge(&replica2);
    let elements = replica1.read();
    assert_eq!(elements.len(), 1);
    assert_eq!(elements[0], "A");
}

#[test]
fn merge_is_commutative_on_reads() {
    let mut a = OrSet::new();
    a.add("x", "1");
    a.add("y", "2");
    let mut b = OrSet::new();
    b.add("x", "1");
    b.remove("x");
    let mut ab = OrSet::new();
    ab.merge(&a);
    ab.merge(&b);
    let mut ba = OrSet::new();
    ba.merge(&b);
    ba.merge(&a);
    let mut r1 = ab.read();
    let mut r2 = ba.read();
    r1.sort();
    r2.sort();
    assert_eq!(r1, r2);
    assert_eq!(r1, vec!["y"]);
}

#[test]
fn merge_with_self_changes_nothing() {
    let mut a = OrSet::default();
    a.add("x", "1");
    a.remove("x");
    a.add("y", "2");
    let copy = OrSet { adds: a.adds.clone(), removes: a.removes.clone() };
    a.merge(&copy);
    assert_eq!(a.adds.len(), 2);
    assert_eq!(a.removes.len(), 1);
    assert_eq!(a.read(), vec!["y"]);
}

#[test]
fn removing_absent_element_is_harmless() {
    let mut a = OrSet::new();
    a.add("x", "1");
    a.remove("z");
    assert!(a.removes.is_empty());
    assert_eq!(a.read(), vec!["x"]);
}

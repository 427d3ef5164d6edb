use relvar::apriori::{Apriori, Basket};

fn b(tid: i64, item: &str) -> Basket {
    Basket { tid, item: item.to_string() }
}

fn sample() -> Apriori {
    Apriori::new(vec![
        b(1, "A"), b(1, "B"), b(1, "C"),
        b(2, "A"), b(2, "B"),
        b(3, "A"), b(3, "C"),
        b(4, "B"), b(4, "C"),
    ])
}

#[test]
fn test_apriori() {
    let apriori = sample();
    assert_eq!(apriori.frequent_1_itemsets(3).len(), 3);
    assert_eq!(apriori.frequent_2_itemsets(2).len(), 3);
    assert_eq!(apriori.frequent_2_itemsets(3).len(), 0);
}

#[test]
fn apriori_doc_example() {
    let apriori = Apriori::new(vec![
        b(1, "Apple"), b(1, "Banana"),
        b(2, "Apple"), b(2, "Banana"),
        b(3, "Banana"), b(3, "Cherry"),
    ]);
    let pairs = apriori.frequent_2_itemsets(2);
    assert_eq!(pairs.len(), 1);
    assert_eq!(pairs[0].item1, "Apple");
    assert_eq!(pairs[0].item2, "Banana");
    assert_eq!(pairs[0].support, 2);
}

#[test]
fn apriori_supports_are_counts_of_transactions() {
    let apriori = sample();
    let f1 = apriori.frequent_1_itemsets(0);
    assert_eq!(f1.len(), 3);
    assert!(f1.iter().all(|s| s.support == 3));
    let f2 = apriori.frequent_2_itemsets(0);
    assert!(f2.iter().all(|p| p.item1 < p.item2 && p.support == 2));
}

#[test]
fn apriori_repeated_basket_counts_once() {
    let apriori = Apriori::new(vec![b(1, "X"), b(1, "X"), b(2, "X")]);
    let f1 = apriori.frequent_1_itemsets(1);
    assert_eq!(f1.len(), 1);
    assert_eq!(f1[0].support, 2);
}

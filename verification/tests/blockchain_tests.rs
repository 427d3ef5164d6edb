use relvar::blockchain::{Block, Blockchain, Transaction};

fn block(id: i64, prev: &str, hash: &str) -> Block {
    Block { block_id: id, prev_hash: prev.to_string(), hash: hash.to_string() }
}

fn tx(id: &str, from: &str, to: &str, amount: i64, block_id: i64) -> Transaction {
    Transaction { tx_id: id.to_string(), from: from.to_string(), to: to.to_string(), amount, block_id }
}

fn balance(bc: &Blockchain, acc: &str) -> i64 {
    bc.compute_balances().into_iter().find(|b| b.account == acc).unwrap().balance
}

#[test]
fn test_valid_blockchain() {
    let blocks = vec![block(1, "0000", "1111"), block(2, "1111", "2222")];
    let txs = vec![tx("tx1", "Mint", "Alice", 100, 1), tx("tx2", "Alice", "Bob", 30, 2)];
    let bc = Blockchain::new(blocks, txs);
    assert_eq!(balance(&bc, "Alice"), 70);
    assert_eq!(balance(&bc, "Bob"), 30);
    assert!(bc.is_valid());
}

#[test]
fn test_invalid_hash_link() {
    let blocks = vec![block(1, "0000", "1111"), block(2, "WRONG", "2222")];
    let bc = Blockchain::new(blocks, vec![]);
    assert!(!bc.is_valid());
}

#[test]
fn test_double_spend_negative_balance() {
    let blocks = vec![block(1, "0000", "1111")];
    let txs = vec![tx("tx1", "Mint", "Alice", 10, 1), tx("tx2", "Alice", "Bob", 20, 1)];
    let bc = Blockchain::new(blocks, txs);
    assert!(!bc.is_valid());
}

#[test]
fn blockchain_mint_may_go_negative() {
    let bc = Blockchain::new(vec![block(1, "0", "a")], vec![tx("t", "Mint", "A", 5, 1)]);
    assert_eq!(balance(&bc, "Mint"), -5);
    assert!(bc.is_valid());
}

#[test]
fn blockchain_gap_in_ids_is_invalid() {
    let bc = Blockchain::new(vec![block(1, "0", "a"), block(3, "a", "b")], vec![]);
    assert!(!bc.is_valid());
}

#[test]
fn blockchain_empty_chain_is_valid() {
    let bc = Blockchain::new(vec![], vec![]);
    assert!(bc.is_valid());
    assert!(bc.compute_balances().is_empty());
}

#[test]
fn blockchain_self_transfer_counts_once_each_way() {
    // Debit (t, A, -0) and credit (t, A, 0) are the same movement; balance 0.
    let bc = Blockchain::new(vec![], vec![tx("t", "A", "A", 0, 1), tx("u", "A", "A", 7, 1)]);
    assert_eq!(balance(&bc, "A"), 0);
    assert_eq!(bc.compute_balances().len(), 1);
}

#[test]
fn test_balance_is_received_less_sent() {
    let txs = vec![
        tx("t1", "Mint", "Alice", 50, 1),
        tx("t2", "Mint", "Alice", 50, 1),
        tx("t3", "Alice", "Bob", 20, 2),
        tx("t4", "Bob", "Alice", 5, 2),
        tx("t5", "Alice", "Alice", 7, 2),
    ];
    let bc = Blockchain::new(vec![block(1, "0", "1"), block(2, "1", "2")], txs);
    assert_eq!(balance(&bc, "Alice"), 85);
    assert_eq!(balance(&bc, "Bob"), 15);
    assert_eq!(balance(&bc, "Mint"), -100);
    assert!(bc.is_valid());
}

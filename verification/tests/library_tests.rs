use std::collections::HashMap;
use std::sync::Arc;

use eviction_mempool::{Mempool, MempoolError, MockStateProvider, StateProvider, Transaction};

fn pool(capacity: usize, min_fee: u64) -> Mempool<MockStateProvider> {
    Mempool::new(capacity, min_fee, Arc::new(MockStateProvider::new()))
}

fn tx(sender: &str, nonce: u64, fee: u64) -> Transaction {
    Transaction::new(String::from(sender), nonce, fee, format!("{}-{}", sender, nonce).into_bytes())
}

fn fees(txs: &[Transaction]) -> Vec<u64> {
    txs.iter().map(|t| t.fee).collect()
}

fn senders(txs: &[Transaction]) -> Vec<String> {
    txs.iter().map(|t| t.sender.clone()).collect()
}

#[test]
fn messages_render_each_rejection() {
    assert_eq!(
        MempoolError::FeeBelowMinimum { fee: 4, min_fee: 5 }.to_string(),
        "transaction fee 4 is below minimum 5"
    );
    assert_eq!(
        MempoolError::Eviction { fee: 6, worst_fee: 16 }.to_string(),
        "pool full: fee 6 does not outbid worst fee 16"
    );
    assert_eq!(MempoolError::PoolFull.to_string(), "pool full");
    assert_eq!(
        MempoolError::NonceGap { sender: String::from("Alice"), expected: 1, got: 3 }.to_string(),
        "nonce gap for Alice: expected 1, got 3"
    );
    assert_eq!(
        MempoolError::Duplicate {
            sender: String::from("Bob"),
            nonce: 0,
            existing_fee: 20,
            new_fee: 10
        }
        .to_string(),
        "duplicate (sender=Bob, nonce=0): new fee 10 must exceed existing fee 20"
    );
    assert_eq!(
        MempoolError::UnexpectedNonce { sender: String::from("Carol"), expected: 3, got: 2 }
            .to_string(),
        "Unexpected nonce for Carol: expected 3, got 2"
    );
    assert_eq!(
        MempoolError::InsufficientBalance { sender: String::from("Dave"), balance: 5, fee: 10 }
            .to_string(),
        "Insufficient balance for Dave: balance 5, fee 10"
    );
    assert_eq!(
        MempoolError::UnknownSender { sender: String::from("Eve") }.to_string(),
        "Unknown sender: Eve"
    );
}

#[test]
fn messages_render_large_numbers() {
    assert_eq!(
        MempoolError::FeeBelowMinimum { fee: 0, min_fee: u64::MAX }.to_string(),
        "transaction fee 0 is below minimum 18446744073709551615"
    );
    assert_eq!(
        MempoolError::Eviction { fee: 1000, worst_fee: 1001 }.to_string(),
        "pool full: fee 1000 does not outbid worst fee 1001"
    );
}

#[test]
fn pool_full_when_capacity_is_zero() {
    let mut m = pool(0, 5);
    match m.insert(tx("Alice", 0, 10)) {
        Err(MempoolError::PoolFull) => {}
        other => panic!("expected PoolFull, got {:?}", other),
    }
    assert_eq!(m.size(), 0);
    assert_eq!(m.rejection_count(), 0);
}

#[test]
fn eviction_is_not_a_rejection() {
    let mut m = pool(1, 5);
    m.insert(tx("Alice", 0, 10)).unwrap();
    match m.insert(tx("Bob", 0, 10)) {
        Err(MempoolError::Eviction { fee: 10, worst_fee: 10 }) => {}
        other => panic!("expected Eviction, got {:?}", other),
    }
    assert_eq!(m.rejection_count(), 0);
    assert_eq!(m.eviction_count(), 0);
    m.insert(tx("Bob", 0, 11)).unwrap();
    assert_eq!(m.eviction_count(), 1);
    assert_eq!(m.size(), 1);
    assert_eq!(senders(&m.get_transactions()), vec![String::from("Bob")]);
}

#[test]
fn state_checks_come_first() {
    let mut m = pool(10, 5);
    match m.insert_with_state(tx("Alice", 1, 3), 2, Some(0)) {
        Err(MempoolError::UnexpectedNonce { expected: 2, got: 1, .. }) => {}
        other => panic!("expected UnexpectedNonce, got {:?}", other),
    }
    match m.insert_with_state(tx("Alice", 2, 3), 2, Some(0)) {
        Err(MempoolError::InsufficientBalance { balance: 0, fee: 3, .. }) => {}
        other => panic!("expected InsufficientBalance, got {:?}", other),
    }
    match m.insert_with_state(tx("Alice", 2, 3), 2, None) {
        Err(MempoolError::FeeBelowMinimum { fee: 3, min_fee: 5 }) => {}
        other => panic!("expected FeeBelowMinimum, got {:?}", other),
    }
    assert_eq!(m.rejection_count(), 3);
    assert!(m.insert_with_state(tx("Alice", 2, 5), 2, Some(5)).is_ok());
    assert_eq!(m.size(), 1);
}

#[test]
fn pop_worst_takes_newest_at_lowest_fee() {
    let mut m = pool(10, 1);
    m.insert(tx("A", 0, 5)).unwrap();
    m.insert(tx("B", 0, 5)).unwrap();
    m.insert(tx("C", 0, 9)).unwrap();
    let worst = m.pop_worst().unwrap();
    assert_eq!(worst.sender, "B");
    assert_eq!(worst.fee, 5);
    assert_eq!(m.eviction_count(), 1);
    assert_eq!(m.size(), 2);
    assert_eq!(m.pop_worst().unwrap().sender, "A");
    assert_eq!(m.pop_worst().unwrap().sender, "C");
    assert!(m.pop_worst().is_none());
    assert_eq!(m.eviction_count(), 3);
}

#[test]
fn pop_best_takes_newest_at_highest_fee() {
    let mut m = pool(10, 1);
    m.insert(tx("A", 0, 9)).unwrap();
    m.insert(tx("B", 0, 9)).unwrap();
    m.insert(tx("C", 0, 5)).unwrap();
    assert_eq!(m.pop_best().unwrap().sender, "B");
    assert_eq!(m.pop_best().unwrap().sender, "A");
    assert_eq!(m.pop_best().unwrap().sender, "C");
    assert!(m.pop_best().is_none());
    assert_eq!(m.eviction_count(), 0);
}

#[test]
fn listings_order_buckets_and_arrivals() {
    let mut m = pool(10, 1);
    m.insert(tx("A", 0, 7)).unwrap();
    m.insert(tx("B", 0, 3)).unwrap();
    m.insert(tx("C", 0, 7)).unwrap();
    m.insert(tx("D", 0, 5)).unwrap();
    let asc = m.get_transactions();
    assert_eq!(fees(&asc), vec![3, 5, 7, 7]);
    assert_eq!(senders(&asc), vec!["B", "D", "A", "C"]);
    let desc = m.snapshot(10);
    assert_eq!(fees(&desc), vec![7, 7, 5, 3]);
    assert_eq!(senders(&desc), vec!["A", "C", "D", "B"]);
    assert_eq!(senders(&m.snapshot(1)), vec!["A"]);
    assert_eq!(m.snapshot(0).len(), 0);
    assert_eq!(m.size(), 4);
}

#[test]
fn snapshot_copies_payloads() {
    let mut m = pool(10, 1);
    m.insert(Transaction::new(String::from("A"), 0, 7, vec![1, 2, 3])).unwrap();
    let snap = m.snapshot(1);
    assert_eq!(snap[0], Transaction::new(String::from("A"), 0, 7, vec![1, 2, 3]));
}

#[test]
fn total_fee_sums_every_fee() {
    let mut m = pool(10, 1);
    assert_eq!(m.total_fee(), 0);
    m.insert(tx("A", 0, u64::MAX)).unwrap();
    m.insert(tx("B", 0, u64::MAX)).unwrap();
    m.insert(tx("C", 0, 1)).unwrap();
    assert_eq!(m.total_fee(), 2 * (u64::MAX as u128) + 1);
}

#[test]
fn lowest_fee_tracks_the_worst_bucket() {
    let mut m = pool(10, 1);
    assert_eq!(m.lowest_fee(), None);
    m.insert(tx("A", 0, 8)).unwrap();
    m.insert(tx("B", 0, 4)).unwrap();
    assert_eq!(m.lowest_fee(), Some(4));
    m.pop_worst();
    assert_eq!(m.lowest_fee(), Some(8));
}

#[test]
fn replacing_an_earlier_nonce_keeps_its_place() {
    let mut m = pool(10, 1);
    m.insert(tx("Alice", 0, 10)).unwrap();
    m.insert(tx("Alice", 1, 10)).unwrap();
    assert!(m.insert(tx("Alice", 0, 20)).is_ok());
    assert_eq!(m.size(), 2);
    let all = m.get_transactions();
    assert_eq!(all[0], tx("Alice", 1, 10));
    assert_eq!(all[1], tx("Alice", 0, 20));
    assert_eq!(m.rejection_count(), 0);
    m.insert(tx("Alice", 2, 10)).unwrap();
    assert_eq!(m.size(), 3);
}

#[test]
fn rejected_offer_changes_nothing() {
    let mut m = pool(2, 1);
    m.insert(tx("Alice", 0, 10)).unwrap();
    m.insert(tx("Alice", 1, 10)).unwrap();
    let before = m.get_transactions();
    assert!(m.insert(tx("Alice", 0, 10)).is_err());
    assert!(m.insert(tx("Alice", 5, 30)).is_err());
    assert!(m.insert(tx("Bob", 0, 10)).is_err());
    assert_eq!(m.get_transactions(), before);
    assert_eq!(m.eviction_count(), 0);
    assert_eq!(m.rejection_count(), 2);
}

#[test]
fn full_pool_accepts_a_replacement_without_evicting() {
    let mut m = pool(2, 1);
    m.insert(tx("A", 0, 5)).unwrap();
    m.insert(tx("B", 0, 9)).unwrap();
    let mut rx = m.subscribe_evictions();
    m.insert(tx("A", 0, 6)).unwrap();
    assert_eq!(m.size(), 2);
    assert_eq!(m.eviction_count(), 0);
    assert!(rx.try_recv().is_err());
    assert_eq!(fees(&m.get_transactions()), vec![6, 9]);
}

#[test]
fn only_the_latest_subscription_hears_evictions() {
    let mut m = pool(3, 1);
    m.insert(tx("A", 0, 5)).unwrap();
    m.insert(tx("B", 0, 6)).unwrap();
    m.insert(tx("C", 0, 7)).unwrap();
    let mut first = m.subscribe_evictions();
    let mut second = m.subscribe_evictions();
    m.pop_best();
    assert!(second.try_recv().is_err());
    m.pop_worst();
    m.pop_worst();
    assert_eq!(second.try_recv().unwrap().sender, "A");
    assert_eq!(second.try_recv().unwrap().sender, "B");
    assert!(second.try_recv().is_err());
    assert!(first.try_recv().is_err());
}

#[test]
fn replacement_keeps_one_transaction_per_slot() {
    let mut m = pool(10, 1);
    m.insert(tx("Alice", 0, 10)).unwrap();
    m.insert(tx("Alice", 0, 11)).unwrap();
    m.insert(tx("Alice", 0, 12)).unwrap();
    let all = m.get_transactions();
    assert_eq!(all.len(), 1);
    assert_eq!(all[0].fee, 12);
    assert_eq!(m.size(), 1);
}

#[test]
fn nonce_overflow_is_detected_before_insert() {
    let mut m = pool(10, 1);
    m.insert_with_state(tx("Max", u64::MAX, 10), u64::MAX, None).unwrap();
    assert!(m.nonce_would_overflow(&tx("Max", 7, 10)));
    assert!(!m.nonce_would_overflow(&tx("Max", 7, 0)));
    assert!(!m.nonce_would_overflow(&tx("Max", u64::MAX, 11)));
    assert!(!m.nonce_would_overflow(&tx("Other", 0, 10)));
}

#[test]
fn eviction_broadcasts_a_copy_to_subscribers() {
    let mut m = pool(1, 1);
    m.insert(tx("A", 0, 5)).unwrap();
    let mut rx = m.subscribe_evictions();
    assert!(rx.try_recv().is_err());
    m.insert(tx("B", 0, 6)).unwrap();
    let evicted = rx.try_recv().unwrap();
    assert_eq!(evicted.sender, "A");
    assert_eq!(evicted.fee, 5);
    assert!(rx.try_recv().is_err());
    assert_eq!(m.eviction_count(), 1);
    assert_eq!(m.size(), 1);
}

#[test]
fn pop_worst_without_subscriber_still_counts() {
    let mut m = pool(3, 1);
    m.insert(tx("A", 0, 5)).unwrap();
    assert_eq!(m.pop_worst().unwrap().sender, "A");
    assert_eq!(m.eviction_count(), 1);
}

#[test]
fn mock_provider_answers_from_its_tables() {
    let nonces = HashMap::from([(String::from("Alice"), 4)]);
    let balances = HashMap::from([(String::from("Alice"), 9)]);
    let provider = MockStateProvider::new_with_values(nonces, balances);
    assert_eq!(provider.get_nonce("Alice"), Some(4));
    assert_eq!(provider.get_balance("Alice"), Some(9));
    assert_eq!(provider.get_nonce("Bob"), None);
    assert_eq!(MockStateProvider::new().get_balance("Alice"), None);
}

#[test]
fn unknown_sender_on_chain_starts_at_nonce_zero() {
    let mut m = pool(10, 1);
    match m.insert(tx("Alice", 1, 10)) {
        Err(MempoolError::NonceGap { expected: 0, got: 1, .. }) => {}
        other => panic!("expected NonceGap, got {:?}", other),
    }
}

#[test]
fn clone_keeps_every_field() {
    let t = Transaction::new(String::from("A"), 3, 9, vec![4, 5]);
    let c = t.clone();
    assert_eq!(c, t);
    assert_eq!(c.get_nonce(), 3);
    assert_eq!(c.get_fee(), 9);
    assert_eq!(c.get_sender(), "A");
}

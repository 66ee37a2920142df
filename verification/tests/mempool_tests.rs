use std::collections::HashMap;
use std::sync::Arc;

use eviction_mempool::{Mempool, MempoolError, MockStateProvider, Transaction};

fn mock_mempool(capacity: usize, min_fee: u64) -> Mempool<MockStateProvider> {
    Mempool::new(capacity, min_fee, Arc::new(MockStateProvider::new()))
}

fn tx(sender: &str, nonce: u64, fee: u64, data: &str) -> Transaction {
    Transaction::new(String::from(sender), nonce, fee, data.as_bytes().to_vec())
}

#[test]
fn test_pop_best_empty() -> Result<(), MempoolError> {
    let mut mempool = mock_mempool(10, 5);
    assert!(mempool.pop_best().is_none());
    Ok(())
}

#[test]
fn test_pop_best_highest_fee() -> Result<(), MempoolError> {
    let mut mempool = mock_mempool(10, 5);
    mempool.insert(tx("Alice", 0, 10, "test1"))?;
    mempool.insert(tx("Alice", 1, 20, "test2"))?;
    mempool.insert(tx("Bob", 0, 15, "test3"))?;
    let best_tx = mempool.pop_best().unwrap();
    assert_eq!(best_tx.fee, 20);
    Ok(())
}

#[test]
fn test_pop_best_multi_same_fee() -> Result<(), MempoolError> {
    let mut mempool = mock_mempool(10, 5);
    mempool.insert(tx("Alice", 0, 50, "test1"))?;
    mempool.insert(tx("Bob", 0, 50, "test2"))?;
    mempool.insert(tx("Charlie", 0, 10, "test3"))?;
    mempool.insert(tx("David", 0, 10, "test4"))?;
    let mut best_tx = mempool.pop_best().unwrap();
    assert_eq!(best_tx.fee, 50);
    assert_eq!(mempool.size(), 3);
    best_tx = mempool.pop_best().unwrap();
    assert_eq!(best_tx.fee, 50);
    assert_eq!(mempool.size(), 2);
    best_tx = mempool.pop_best().unwrap();
    assert_eq!(best_tx.fee, 10);
    assert_eq!(mempool.size(), 1);
    Ok(())
}

#[test]
fn test_snapshot_descending() -> Result<(), MempoolError> {
    let mut mempool = mock_mempool(10, 5);
    mempool.insert(tx("Alice", 0, 10, "test1"))?;
    mempool.insert(tx("Bob", 0, 30, "test2"))?;
    mempool.insert(tx("Charlie", 0, 20, "test3"))?;
    let snapshot = mempool.snapshot(3);
    assert_eq!(snapshot[0].fee, 30);
    assert_eq!(snapshot[1].fee, 20);
    assert_eq!(snapshot[2].fee, 10);
    Ok(())
}

#[test]
fn test_snapshot_top_n() -> Result<(), MempoolError> {
    let mut mempool = mock_mempool(10, 5);
    mempool.insert(tx("Alice", 0, 10, "test1"))?;
    mempool.insert(tx("Bob", 0, 30, "test2"))?;
    mempool.insert(tx("Charlie", 0, 20, "test3"))?;
    mempool.insert(tx("Charlie", 1, 12, "test4"))?;
    mempool.insert(tx("Charlie", 2, 35, "test5"))?;
    let snapshot = mempool.snapshot(3);
    assert_eq!(snapshot.len(), 3);
    assert_eq!(snapshot[0].fee, 35);
    assert_eq!(snapshot[1].fee, 30);
    assert_eq!(snapshot[2].fee, 20);
    Ok(())
}

#[test]
fn test_snapsphot_no_mutate_pool() -> Result<(), MempoolError> {
    let mut mempool = mock_mempool(10, 5);
    mempool.insert(tx("Alice", 0, 10, "test1"))?;
    mempool.insert(tx("Bob", 0, 30, "test2"))?;
    mempool.insert(tx("Charlie", 0, 20, "test3"))?;
    mempool.insert(tx("David", 0, 20, "test3"))?;
    let snapshot = mempool.snapshot(10);
    assert_eq!(mempool.size(), 4);
    assert_eq!(snapshot.len(), 4);
    Ok(())
}

#[test]
fn test_reject_minfee() {
    let mut mempool = mock_mempool(10, 5);
    let res = mempool.insert(tx("Alice", 0, 4, "test1"));
    match res {
        Err(MempoolError::FeeBelowMinimum { fee, min_fee }) => {
            assert_eq!(fee, 4);
            assert_eq!(min_fee, 5);
        }
        other => panic!("expected FeeBelowMinimum, got {:?}", other),
    }
}

#[test]
fn test_eviction() -> Result<(), MempoolError> {
    let capacity = 6;
    let mut mempool = mock_mempool(capacity, 5);
    for i in 0..capacity {
        mempool.insert(Transaction::new(
            String::from("Alice"),
            i as u64,
            6 + i as u64,
            format!("test{}", i).as_bytes().to_vec(),
        ))?;
    }
    mempool.insert(tx("Alice", capacity as u64, 8, "test1"))?;
    assert_eq!(mempool.size(), capacity);
    assert_eq!(mempool.lowest_fee(), Some(7u64));
    Ok(())
}

#[test]
fn test_no_eviction() -> Result<(), MempoolError> {
    let capacity = 6;
    let mut mempool = mock_mempool(capacity, 5);
    for i in 0..capacity {
        mempool.insert(Transaction::new(
            String::from("Alice"),
            i as u64,
            6 + i as u64,
            format!("test{}", i).as_bytes().to_vec(),
        ))?;
    }
    let res = mempool.insert(tx("Alice", capacity as u64, 6, "test1"));
    match res {
        Err(MempoolError::Eviction { fee, worst_fee }) => {
            assert_eq!(fee, 6);
            assert_eq!(worst_fee, 6);
        }
        other => panic!("expected Eviction, got {:?}", other),
    }
    assert_eq!(mempool.size(), capacity);
    assert_eq!(mempool.lowest_fee(), Some(6u64));
    Ok(())
}

#[test]
fn test_reject_lowerfee() -> Result<(), MempoolError> {
    let capacity = 6;
    let mut mempool = mock_mempool(capacity, 5);
    mempool.insert(tx("Alice", 0, 20, "test1"))?;
    let res = mempool.insert(tx("Alice", 0, 10, "test2"));
    match res {
        Err(MempoolError::Duplicate { sender, nonce, existing_fee, new_fee }) => {
            assert_eq!(sender, "Alice");
            assert_eq!(nonce, 0);
            assert_eq!(existing_fee, 20);
            assert_eq!(new_fee, 10);
        }
        other => panic!("expected Duplicate, got {:?}", other),
    }
    Ok(())
}

#[test]
fn test_duplicate_higher_fee_replaces() -> Result<(), MempoolError> {
    let capacity = 6;
    let mut mempool = mock_mempool(capacity, 5);
    mempool.insert(tx("Alice", 0, 10, "test1"))?;
    let res = mempool.insert(tx("Alice", 0, 20, "test2"));
    assert!(res.is_ok());
    assert_eq!(mempool.size(), 1);
    assert_eq!(mempool.lowest_fee(), Some(20u64));
    Ok(())
}

#[test]
fn test_nonce_gap_rejected() -> Result<(), MempoolError> {
    let capacity = 6;
    let mut mempool = mock_mempool(capacity, 5);
    mempool.insert(tx("Alice", 0, 10, "test1"))?;
    let res = mempool.insert(tx("Alice", 3, 20, "test2"));
    match res {
        Err(MempoolError::NonceGap { sender, expected, got }) => {
            assert_eq!(sender, "Alice");
            assert_eq!(expected, 1);
            assert_eq!(got, 3);
        }
        other => panic!("expected NonceGap, got {:?}", other),
    }
    Ok(())
}

#[test]
fn test_nonce_sequential_accepted() -> Result<(), MempoolError> {
    let capacity = 6;
    let mut mempool = mock_mempool(capacity, 5);
    mempool.insert(tx("Alice", 0, 10, "test1"))?;
    let res = mempool.insert(tx("Alice", 1, 20, "test2"));
    assert!(res.is_ok());
    assert_eq!(mempool.size(), 2);
    Ok(())
}

#[test]
fn test_eviction_notification() -> Result<(), MempoolError> {
    let capacity = 6;
    let mut mempool = mock_mempool(capacity, 5);
    let mut rx = mempool.subscribe_evictions();
    for i in 0..capacity {
        mempool.insert(Transaction::new(
            String::from("Alice"),
            i as u64,
            6 + i as u64,
            format!("test{}", i).as_bytes().to_vec(),
        ))?;
    }
    mempool.insert(tx("Alice", capacity as u64, 8, "test1"))?;
    assert_eq!(mempool.size(), capacity);
    assert_eq!(mempool.lowest_fee(), Some(7u64));
    assert_eq!(mempool.eviction_count(), 1);
    let recv = rx.try_recv().unwrap();
    assert_eq!(recv.fee, 6);
    assert_eq!(recv.sender, "Alice");
    assert_eq!(recv.get_nonce(), 0);
    Ok(())
}

#[test]
fn test_stale_nonce_rejected() -> Result<(), MempoolError> {
    let balances = HashMap::from([(String::from("Alice"), 3)]);
    let nonces = HashMap::from([(String::from("Alice"), 3)]);
    let mut mempool = Mempool::new(
        10,
        5,
        Arc::new(MockStateProvider::new_with_values(nonces, balances)),
    );
    let res = mempool.insert(tx("Alice", 2, 8, "test1"));
    match res {
        Err(MempoolError::UnexpectedNonce { sender, expected, got }) => {
            assert_eq!(sender, "Alice");
            assert_eq!(expected, 3);
            assert_eq!(got, 2);
        }
        other => panic!("expected UnexpectedNonce, got {:?}", other),
    }
    Ok(())
}

#[test]
fn test_insufficient_balance_rejected() -> Result<(), MempoolError> {
    let balances = HashMap::from([(String::from("Alice"), 5)]);
    let nonces = HashMap::from([(String::from("Alice"), 3)]);
    let mut mempool = Mempool::new(
        10,
        5,
        Arc::new(MockStateProvider::new_with_values(nonces, balances)),
    );
    let res = mempool.insert(tx("Alice", 3, 10, "test1"));
    match res {
        Err(MempoolError::InsufficientBalance { sender, balance, fee }) => {
            assert_eq!(sender, "Alice");
            assert_eq!(balance, 5);
            assert_eq!(fee, 10);
        }
        other => panic!("expected InsufficientBalance, got {:?}", other),
    }
    Ok(())
}

#[test]
fn test_balance_nonce_valid() -> Result<(), MempoolError> {
    let balances = HashMap::from([(String::from("Alice"), 100)]);
    let nonces = HashMap::from([(String::from("Alice"), 0)]);
    let mut mempool = Mempool::new(
        10,
        5,
        Arc::new(MockStateProvider::new_with_values(nonces, balances)),
    );
    mempool.insert(tx("Alice", 0, 10, "test1"))?;
    Ok(())
}

#[test]
fn test_rejection_count() -> Result<(), MempoolError> {
    let capacity = 6;
    let mut mempool = mock_mempool(capacity, 5);
    mempool.insert(tx("Alice", 0, 10, "test1"))?;
    let mut res = mempool.insert(tx("Alice", 1, 2, "test1"));
    match res {
        Err(MempoolError::FeeBelowMinimum { fee, min_fee }) => {
            assert_eq!(min_fee, 5);
            assert_eq!(fee, 2);
        }
        other => panic!("expected InsufficientBalance, got {:?}", other),
    }
    res = mempool.insert(tx("Alice", 0, 10, "test1"));
    match res {
        Err(MempoolError::Duplicate { sender, nonce, existing_fee, new_fee }) => {
            assert_eq!(sender, "Alice");
            assert_eq!(nonce, 0);
            assert_eq!(existing_fee, 10);
            assert_eq!(new_fee, 10);
        }
        other => panic!("expected InsufficientBalance, got {:?}", other),
    }
    assert_eq!(mempool.rejection_count(), 2);
    Ok(())
}

/// The average fee of the pending transactions, zero for an empty pool.
fn avg_fee(mempool: &Mempool<MockStateProvider>) -> f64 {
    if mempool.size() == 0 {
        return 0.0;
    }
    mempool.total_fee() as f64 / mempool.size() as f64
}

#[test]
fn test_avg_fee_correct() -> Result<(), MempoolError> {
    let capacity = 6;
    let mut mempool = mock_mempool(capacity, 5);
    assert_eq!(avg_fee(&mempool), 0.0);
    mempool.insert(tx("Alice", 0, 10, "test1"))?;
    mempool.insert(tx("Alice", 1, 20, "test1"))?;
    mempool.insert(tx("Alice", 2, 30, "test1"))?;
    assert_eq!(avg_fee(&mempool), 20.0);
    Ok(())
}

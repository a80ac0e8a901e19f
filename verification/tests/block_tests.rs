use blockchain_rust::block::Block;
use blockchain_rust::transaction::Transaction;

#[test]
fn sealing_is_deterministic() {
    let b1 = Block::new_at_time(vec![], "", 0).unwrap();
    let b2 = Block::new_at_time(vec![], "", 0).unwrap();
    assert_eq!(b1.nonce, b2.nonce);
    assert_eq!(b1.hash, b2.hash);
}

#[test]
fn sealing_finds_the_least_nonce() {
    // the search over this exact content is pinned byte for byte
    let b = Block::new_at_time(vec![], "", 0).unwrap();
    assert_eq!(b.nonce, 354571);
    assert_eq!(b.hash, "0000e2bf0448679b0a49b923fd9febc511f966cc632b07d7976ebecd5884b376");
}

#[test]
fn sealed_hash_meets_difficulty() {
    // sixteen leading zero bits: four leading zero hex digits
    let tx = Transaction::new_coinbase_tx("alice", "");
    let b = Block::new_at_time(vec![tx], "", 77).unwrap();
    assert_eq!(&b.hash[0..4], "0000");
    assert_eq!(b.hash.len(), 64);
}

#[test]
fn serialization_round_trips() {
    let tx = Transaction::new_coinbase_tx("alice", "hello");
    let b = Block::new_at_time(vec![tx], "", 1234).unwrap();
    let bytes = b.serialize();
    let back = Block::deserialize(&bytes).unwrap();
    assert_eq!(back, b);
    assert_eq!(back.timestamp, 1234);
    assert_eq!(back.nonce, b.nonce);
    assert_eq!(back.hash, b.hash);
    assert_eq!(back.prev_block_hash, "");
    assert_eq!(back.transactions.len(), 1);
    assert_eq!(back.transactions[0], b.transactions[0]);
}

#[test]
fn malformed_bytes_are_rejected() {
    assert!(Block::deserialize(&vec![]).is_none());
    assert!(Block::deserialize(&vec![1, 2, 3]).is_none());
    // a valid block with a trailing byte is rejected too
    let b = Block::new_at_time(vec![], "", 0).unwrap();
    let mut bytes = b.serialize();
    bytes.push(0);
    assert!(Block::deserialize(&bytes).is_none());
}

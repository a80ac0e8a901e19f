use blockchain_rust::{Blockchain, ChainError};
use blockchain_rust::transaction::Transaction;
use blockchain_rust::utxo::total_value;

fn unique_path(tag: &str) -> String {
    let nanos = std::time::SystemTime::now()
        .duration_since(std::time::UNIX_EPOCH)
        .unwrap()
        .as_nanos();
    format!("/tmp/blockchain_rust_test_{}_{}", tag, nanos)
}

fn chain_length(bc: &Blockchain) -> usize {
    let mut it = bc.iter();
    let mut n: usize = 0;
    while let Some(_) = it.next() {
        n += 1;
    }
    n
}

fn balance(bc: &Blockchain, address: &str) -> i64 {
    total_value(&bc.find_utxo(address).unwrap())
}

#[test]
fn genesis_balance_is_the_subsidy() {
    let path = unique_path("genesis");
    let bc = Blockchain::create_blockchain(&path, "alice").unwrap();
    assert_eq!(balance(&bc, "alice"), 10);
    assert_eq!(balance(&bc, "bob"), 0);
    assert_eq!(chain_length(&bc), 1);
}

#[test]
fn transfer_conserves_value() {
    let path = unique_path("transfer");
    let mut bc = Blockchain::create_blockchain(&path, "alice").unwrap();
    let tx = Transaction::new_utxo_transaction("alice", "bob", 4, &bc).unwrap();
    bc.mine_block(vec![tx]).unwrap();
    assert_eq!(balance(&bc, "alice"), 6);
    assert_eq!(balance(&bc, "bob"), 4);
    assert_eq!(chain_length(&bc), 2);
}

#[test]
fn exact_balance_leaves_no_change() {
    let path = unique_path("exact");
    let mut bc = Blockchain::create_blockchain(&path, "alice").unwrap();
    let tx = Transaction::new_utxo_transaction("alice", "bob", 10, &bc).unwrap();
    assert_eq!(tx.v_out.len(), 1);
    bc.mine_block(vec![tx]).unwrap();
    assert_eq!(balance(&bc, "alice"), 0);
    assert_eq!(balance(&bc, "bob"), 10);
}

#[test]
fn self_transfer_keeps_the_balance() {
    let path = unique_path("selfsend");
    let mut bc = Blockchain::create_blockchain(&path, "alice").unwrap();
    let tx = Transaction::new_utxo_transaction("alice", "alice", 4, &bc).unwrap();
    bc.mine_block(vec![tx]).unwrap();
    assert_eq!(balance(&bc, "alice"), 10);
    assert_eq!(chain_length(&bc), 2);
}

#[test]
fn insufficient_funds_leaves_no_block() {
    let path = unique_path("broke");
    let bc = Blockchain::create_blockchain(&path, "alice").unwrap();
    let r = Transaction::new_utxo_transaction("alice", "bob", 11, &bc);
    assert_eq!(r.unwrap_err(), ChainError::InsufficientFunds);
    assert_eq!(chain_length(&bc), 1);
    assert_eq!(balance(&bc, "alice"), 10);
}

#[test]
fn spent_outputs_cannot_be_spent_again() {
    let path = unique_path("doublespend");
    let mut bc = Blockchain::create_blockchain(&path, "alice").unwrap();
    let tx = Transaction::new_utxo_transaction("alice", "bob", 10, &bc).unwrap();
    bc.mine_block(vec![tx]).unwrap();
    // the coinbase output is consumed; alice cannot pay again
    let r = Transaction::new_utxo_transaction("alice", "carol", 1, &bc);
    assert_eq!(r.unwrap_err(), ChainError::InsufficientFunds);
}

#[test]
fn create_twice_is_rejected() {
    let path = unique_path("twice");
    let bc = Blockchain::create_blockchain(&path, "alice").unwrap();
    drop(bc);
    match Blockchain::create_blockchain(&path, "bob") {
        Err(e) => assert_eq!(e, ChainError::ChainAlreadyExists),
        Ok(_) => panic!("expected the second creation to be rejected"),
    }
}

#[test]
fn open_without_create_is_rejected() {
    let path = unique_path("missing");
    match Blockchain::new(&path) {
        Err(e) => assert_eq!(e, ChainError::ChainNotFound),
        Ok(_) => panic!("expected opening to fail"),
    }
}

#[test]
fn open_on_unusable_store_is_a_storage_error() {
    match Blockchain::new("/proc/no_such_store/db") {
        Err(e) => assert_eq!(e, ChainError::StorageError),
        Ok(_) => panic!("expected opening to fail"),
    }
}

#[test]
fn reopening_restores_the_chain() {
    let path = unique_path("reopen");
    {
        let mut bc = Blockchain::create_blockchain(&path, "alice").unwrap();
        let tx = Transaction::new_utxo_transaction("alice", "bob", 3, &bc).unwrap();
        bc.mine_block(vec![tx]).unwrap();
    }
    let bc = Blockchain::new(&path).unwrap();
    assert_eq!(balance(&bc, "alice"), 7);
    assert_eq!(balance(&bc, "bob"), 3);
    assert_eq!(chain_length(&bc), 2);
}

#[test]
fn iteration_walks_tip_to_genesis() {
    let path = unique_path("iterate");
    let mut bc = Blockchain::create_blockchain(&path, "alice").unwrap();
    let tx = Transaction::new_utxo_transaction("alice", "bob", 2, &bc).unwrap();
    let mined = bc.mine_block(vec![tx]).unwrap();
    let mut it = bc.iter();
    let newest = it.next().unwrap();
    let genesis = it.next().unwrap();
    assert!(it.next().is_none());
    assert_eq!(newest.hash, mined.hash);
    assert_eq!(newest.prev_block_hash, genesis.hash);
    assert_eq!(genesis.prev_block_hash, "");
    assert_ne!(newest.hash, genesis.hash);
    // a fresh walk starts again from the tip
    let mut again = bc.iter();
    assert_eq!(again.next().unwrap().hash, mined.hash);
}

#[test]
fn unspent_transactions_track_ownership() {
    let path = unique_path("unspent");
    let mut bc = Blockchain::create_blockchain(&path, "alice").unwrap();
    let genesis_unspent = bc.find_unspent_transactions("alice").unwrap();
    assert_eq!(genesis_unspent.len(), 1);
    assert!(genesis_unspent[0].is_coinbase());
    let tx = Transaction::new_utxo_transaction("alice", "bob", 4, &bc).unwrap();
    let tx_id = tx.id.clone();
    bc.mine_block(vec![tx]).unwrap();
    // the coinbase is fully consumed: each side owns part of the transfer
    let alice_unspent = bc.find_unspent_transactions("alice").unwrap();
    assert_eq!(alice_unspent.len(), 1);
    assert_eq!(alice_unspent[0].id, tx_id);
    let bob_unspent = bc.find_unspent_transactions("bob").unwrap();
    assert_eq!(bob_unspent.len(), 1);
    assert_eq!(bob_unspent[0].id, tx_id);
}

#[test]
fn spendable_outputs_accumulate_until_the_amount() {
    let path = unique_path("spendable");
    let bc = Blockchain::create_blockchain(&path, "alice").unwrap();
    let (acc, refs) = bc.find_spendable_outputs("alice", 4).unwrap();
    assert_eq!(acc, 10);
    assert_eq!(refs.len(), 1);
    assert_eq!(refs[0].v_out, 0);
    let (none_acc, none_refs) = bc.find_spendable_outputs("bob", 4).unwrap();
    assert_eq!(none_acc, 0);
    assert_eq!(none_refs.len(), 0);
}

#[test]
fn accumulation_spans_several_outputs() {
    let path = unique_path("multi");
    let mut bc = Blockchain::create_blockchain(&path, "alice").unwrap();
    // split alice's single coinbase output into two outputs she owns
    let split = Transaction::new_utxo_transaction("alice", "alice", 4, &bc).unwrap();
    assert_eq!(split.v_out.len(), 2);
    bc.mine_block(vec![split]).unwrap();
    // paying 5 needs both: 4 first, then the 6 of change
    let (acc, refs) = bc.find_spendable_outputs("alice", 5).unwrap();
    assert_eq!(acc, 10);
    assert_eq!(refs.len(), 2);
    let pay = Transaction::new_utxo_transaction("alice", "bob", 5, &bc).unwrap();
    assert_eq!(pay.v_in.len(), 2);
    bc.mine_block(vec![pay]).unwrap();
    assert_eq!(balance(&bc, "alice"), 5);
    assert_eq!(balance(&bc, "bob"), 5);
    assert_eq!(chain_length(&bc), 3);
}

use blockchain_rust::transaction::{Transaction, TxInput, TxOutput};

fn plain_tx(inputs: Vec<TxInput>, outputs: Vec<TxOutput>) -> Transaction {
    let mut tx = Transaction { id: String::new(), v_in: inputs, v_out: outputs };
    tx.set_id();
    tx
}

#[test]
fn coinbase_is_recognized() {
    let tx = Transaction::new_coinbase_tx("miner", "note");
    assert!(tx.is_coinbase());
    assert_eq!(tx.v_in.len(), 1);
    assert_eq!(tx.v_in[0].tx_id, "");
    assert_eq!(tx.v_in[0].v_out, -1);
    assert_eq!(tx.v_in[0].script_sig, "note");
    assert_eq!(tx.v_out.len(), 1);
    assert_eq!(tx.v_out[0].value, 10);
    assert_eq!(tx.v_out[0].script_pub_key, "miner");
}

#[test]
fn coinbase_default_note() {
    let tx = Transaction::new_coinbase_tx("alice", "");
    assert_eq!(tx.v_in[0].script_sig, "reward to 'alice'");
}

#[test]
fn non_coinbase_shapes_are_rejected() {
    // a real input: referenced id set and a non-sentinel index
    let spend = plain_tx(
        vec![TxInput { tx_id: "ab".to_string(), v_out: 0, script_sig: "alice".to_string() }],
        vec![TxOutput { value: 4, script_pub_key: "bob".to_string() }],
    );
    assert!(!spend.is_coinbase());
    // sentinel id but a non-sentinel index
    let wrong_index = plain_tx(
        vec![TxInput { tx_id: String::new(), v_out: 0, script_sig: "x".to_string() }],
        vec![],
    );
    assert!(!wrong_index.is_coinbase());
    // two inputs
    let two_inputs = plain_tx(
        vec![
            TxInput { tx_id: String::new(), v_out: -1, script_sig: "x".to_string() },
            TxInput { tx_id: String::new(), v_out: -1, script_sig: "y".to_string() },
        ],
        vec![],
    );
    assert!(!two_inputs.is_coinbase());
}

#[test]
fn transaction_id_is_digest_of_lists() {
    // the id of this exact transaction is pinned by the encoding and SHA-256
    let tx = Transaction::new_coinbase_tx("miner", "note");
    assert_eq!(tx.id, "3ea36a3fed77054f265d3e5175f12e0bf3361bbcfb874575212fc37edf7e719c");
}

#[test]
fn same_contents_same_id() {
    let a = Transaction::new_coinbase_tx("alice", "x");
    let b = Transaction::new_coinbase_tx("alice", "x");
    let c = Transaction::new_coinbase_tx("alice", "y");
    assert_eq!(a.id, b.id);
    assert_ne!(a.id, c.id);
}

#[test]
fn unlock_checks_are_equality() {
    let out = TxOutput { value: 5, script_pub_key: "alice".to_string() };
    assert!(out.can_be_unlocked_with("alice"));
    assert!(!out.can_be_unlocked_with("bob"));
    assert!(!out.can_be_unlocked_with(""));
    let input = TxInput { tx_id: "t".to_string(), v_out: 0, script_sig: "bob".to_string() };
    assert!(input.can_unlock_output_with("bob"));
    assert!(!input.can_unlock_output_with("alice"));
}

#[test]
fn value_bounds_are_checked() {
    let good = plain_tx(vec![], vec![TxOutput { value: 10, script_pub_key: "a".to_string() }]);
    assert!(good.values_ok());
    let negative = plain_tx(vec![], vec![TxOutput { value: -1, script_pub_key: "a".to_string() }]);
    assert!(!negative.values_ok());
}

//! Value-transfer records: outputs lock value to an address credential,
//! inputs unlock a referenced output by matching credential.

use vstd::prelude::*;
use vstd::string::StringExecFns;
use crate::codec::enc_tx_body;
use crate::hashing::{sha256, sha256_of, to_hex, hex_str_of};

verus! {

/// The reward paid by a coinbase transaction.
pub const SUBSIDY: i64 = 10;

/// The largest value a single output may carry; keeps value accumulation
/// inside `i64` arithmetic.
pub const MAX_MONEY: i64 = 0x1000_0000_0000;

/// An amount of value locked to an address credential.
#[derive(Debug, Clone, PartialEq, Eq)]
pub struct TxOutput {
    pub value: i64,
    /// The opaque address string that unlocks this output, matched by
    /// equality only.
    pub script_pub_key: String,
}

/// A reference to an earlier output, together with the credential that
/// claims it.
#[derive(Debug, Clone, PartialEq, Eq)]
pub struct TxInput {
    /// The id of the transaction whose output is consumed.
    pub tx_id: String,
    /// The index of the consumed output inside that transaction; `-1` marks
    /// the coinbase sentinel.
    pub v_out: i64,
    /// The opaque credential checked against an output's `script_pub_key`.
    pub script_sig: String,
}

/// An ordered move of value: inputs consumed, outputs created. Immutable
/// once `id` is set.
#[derive(Debug, Clone, PartialEq, Eq)]
pub struct Transaction {
    /// The hex digest of the transaction's own input and output lists.
    pub id: String,
    pub v_in: Vec<TxInput>,
    pub v_out: Vec<TxOutput>,
}

/// The mathematical model of an output.
#[verifier::ext_equal]
pub struct TxOutputV {
    pub value: i64,
    pub script_pub_key: Seq<char>,
}

/// The mathematical model of an input.
#[verifier::ext_equal]
pub struct TxInputV {
    pub tx_id: Seq<char>,
    pub v_out: i64,
    pub script_sig: Seq<char>,
}

/// The mathematical model of a transaction.
#[verifier::ext_equal]
pub struct TransactionV {
    pub id: Seq<char>,
    pub v_in: Seq<TxInputV>,
    pub v_out: Seq<TxOutputV>,
}

impl View for TxOutput {
    type V = TxOutputV;

    open spec fn view(&self) -> TxOutputV {
        TxOutputV { value: self.value, script_pub_key: self.script_pub_key@ }
    }
}

impl View for TxInput {
    type V = TxInputV;

    open spec fn view(&self) -> TxInputV {
        TxInputV { tx_id: self.tx_id@, v_out: self.v_out, script_sig: self.script_sig@ }
    }
}

/// The models of a sequence of outputs.
pub open spec fn outs_view(s: Seq<TxOutput>) -> Seq<TxOutputV> {
    s.map_values(|o: TxOutput| o@)
}

/// The models of a sequence of inputs.
pub open spec fn ins_view(s: Seq<TxInput>) -> Seq<TxInputV> {
    s.map_values(|i: TxInput| i@)
}

impl View for Transaction {
    type V = TransactionV;

    open spec fn view(&self) -> TransactionV {
        TransactionV { id: self.id@, v_in: ins_view(self.v_in@), v_out: outs_view(self.v_out@) }
    }
}

/// The models of a sequence of transactions.
pub open spec fn txs_view(s: Seq<Transaction>) -> Seq<TransactionV> {
    s.map_values(|t: Transaction| t@)
}

/// A coinbase transaction: one sentinel input with an empty referenced id
/// and output index `-1`.
pub open spec fn spec_is_coinbase(t: TransactionV) -> bool {
    &&& t.v_in.len() == 1
    &&& t.v_in[0].tx_id.len() == 0
    &&& t.v_in[0].v_out == -1
}

/// The bounds every output value on the chain keeps: non-negative and at
/// most `MAX_MONEY`, with an output list short enough to index by `i64`.
pub open spec fn tx_values_ok(t: TransactionV) -> bool {
    &&& t.v_out.len() <= 0x7fff_ffff
    &&& forall|i: int| 0 <= i < t.v_out.len() ==> 0 <= (#[trigger] t.v_out[i]).value <= MAX_MONEY
}

impl TxOutput {
    /// Whether the given credential unlocks this output: equality with the
    /// locking address, nothing cryptographic.
    pub fn can_be_unlocked_with(&self, unlock_data: &str) -> (r: bool)
        ensures
            r == (self@.script_pub_key == unlock_data@),
    {
        self.script_pub_key == unlock_data.to_owned()
    }
}

impl TxInput {
    /// Whether this input was signed with the given credential: equality,
    /// nothing cryptographic.
    pub fn can_unlock_output_with(&self, unlock_data: &str) -> (r: bool)
        ensures
            r == (self@.script_sig == unlock_data@),
    {
        self.script_sig == unlock_data.to_owned()
    }
}

/// The id a transaction earns: the hex digest of its serialized input and
/// output lists, with the id itself left out.
pub open spec fn tx_id_of(v_in: Seq<TxInputV>, v_out: Seq<TxOutputV>) -> Seq<char> {
    hex_str_of(sha256_of(enc_tx_body(v_in, v_out)))
}

/// The default note a coinbase carries when the caller gives none.
pub open spec fn coinbase_note(to: Seq<char>) -> Seq<char> {
    "reward to '"@ + to + "'"@
}

/// A transaction has the id its contents dictate.
pub open spec fn tx_id_ok(t: TransactionV) -> bool {
    t.id == tx_id_of(t.v_in, t.v_out)
}

/// The whole model of the reward transaction `new_coinbase_tx` builds: one
/// sentinel input carrying the note, one subsidy output, and the id those
/// two lists dictate.
pub open spec fn coinbase_view(to: Seq<char>, data: Seq<char>) -> TransactionV {
    let sig = if data.len() == 0 {
        coinbase_note(to)
    } else {
        data
    };
    let v_in = seq![TxInputV { tx_id: Seq::<char>::empty(), v_out: -1i64, script_sig: sig }];
    let v_out = seq![TxOutputV { value: SUBSIDY, script_pub_key: to }];
    TransactionV { id: tx_id_of(v_in, v_out), v_in, v_out }
}

impl Transaction {
    /// Stamps this transaction with the digest of its own input and output
    /// lists; the other fields stay as they are.
    pub fn set_id(&mut self)
        ensures
            final(self).v_in == old(self).v_in,
            final(self).v_out == old(self).v_out,
            final(self)@.id == tx_id_of(old(self)@.v_in, old(self)@.v_out),
            tx_id_ok(final(self)@),
    {
        let body = crate::codec::encode_tx_body(&self.v_in, &self.v_out);
        let digest = sha256(&body);
        self.id = to_hex(&digest);
    }

    /// Builds the reward transaction: one sentinel input carrying `data`
    /// (or the default note when `data` is empty), one output paying the
    /// subsidy to `to`.
    pub fn new_coinbase_tx(to: &str, data: &str) -> (r: Transaction)
        ensures
            r@ == coinbase_view(to@, data@),
            spec_is_coinbase(r@),
            tx_id_ok(r@),
            r@.v_in.len() == 1,
            r@.v_in[0].script_sig == (if data@.len() == 0 {
                coinbase_note(to@)
            } else {
                data@
            }),
            r@.v_out.len() == 1,
            r@.v_out[0].value == SUBSIDY,
            r@.v_out[0].script_pub_key == to@,
    {
        let note = if data.is_empty() {
            let s = String::from_str("reward to '").concat(to).concat("'");
            proof {
                assert(s@ == coinbase_note(to@));
            }
            s
        } else {
            data.to_owned()
        };
        let txin = TxInput { tx_id: String::new(), v_out: -1, script_sig: note };
        let txout = TxOutput { value: SUBSIDY, script_pub_key: to.to_owned() };
        let mut tx = Transaction { id: String::new(), v_in: vec![txin], v_out: vec![txout] };
        tx.set_id();
        proof {
            let cv = coinbase_view(to@, data@);
            assert(tx@.v_in[0].tx_id =~= Seq::<char>::empty());
            assert(ins_view(tx.v_in@) =~= cv.v_in);
            assert(outs_view(tx.v_out@) =~= cv.v_out);
            assert(tx@ == cv);
        }
        tx
    }

    /// Whether every output value of this transaction is within the
    /// chain's value bounds.
    pub fn values_ok(&self) -> (r: bool)
        ensures
            r == tx_values_ok(self@),
    {
        if self.v_out.len() > 0x7fff_ffff {
            proof {
                assert(self@.v_out.len() == self.v_out@.len());
            }
            return false;
        }
        let mut i: usize = 0;
        while i < self.v_out.len()
            invariant
                i <= self.v_out@.len(),
                forall|j: int| 0 <= j < i ==> 0 <= (#[trigger] outs_view(self.v_out@)[j]).value
                    <= MAX_MONEY,
            decreases self.v_out@.len() - i,
        {
            if self.v_out[i].value < 0 || self.v_out[i].value > MAX_MONEY {
                proof {
                    assert(self@.v_out[i as int].value == self.v_out@[i as int].value);
                }
                return false;
            }
            i += 1;
        }
        true
    }

    /// Whether this transaction is the reward-only coinbase: exactly one
    /// input, with an empty referenced id and output index `-1`.
    pub fn is_coinbase(&self) -> (r: bool)
        ensures
            r == spec_is_coinbase(self@),
    {
        self.v_in.len() == 1 && self.v_in[0].tx_id.as_str().is_empty() && self.v_in[0].v_out
            == -1i64
    }
}

} // verus!

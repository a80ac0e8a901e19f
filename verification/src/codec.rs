//! The persisted encoding of blocks and transactions: a length-prefixed
//! binary form whose decoder is proved to invert the encoder.

use vstd::prelude::*;
use vstd::bytes::{spec_u64_to_le_bytes, spec_u64_from_le_bytes, u64_to_le_bytes, u64_from_le_bytes,
    lemma_auto_spec_u64_to_from_le_bytes};
use vstd::utf8::{encode_utf8, decode_utf8, valid_utf8, encode_utf8_valid_utf8,
    encode_utf8_decode_utf8};
use vstd::slice::{slice_subrange, slice_to_vec};
use crate::transaction::{TxInput, TxOutput, Transaction, TxInputV, TxOutputV, TransactionV,
    ins_view, outs_view, txs_view};
use crate::block::{Block, BlockV};

verus! {

/// Relies on String::from_utf8: it succeeds exactly on valid UTF-8, and the
/// returned string's encoding is the input bytes.
#[verifier::external_body]
pub(crate) fn string_from_utf8(v: Vec<u8>) -> (r: Option<String>)
    ensures
        r matches Some(s) ==> encode_utf8(s@) == v@,
        r is Some <==> valid_utf8(v@),
{
    String::from_utf8(v).ok()
}

// ---------------------------------------------------------------- encoding

/// A 64-bit integer encodes as its eight little-endian bytes.
pub open spec fn enc_u64(x: u64) -> Seq<u8> {
    spec_u64_to_le_bytes(x)
}

/// A signed 64-bit integer encodes as its two's-complement bit pattern.
pub open spec fn enc_i64(x: i64) -> Seq<u8> {
    enc_u64(x as u64)
}

/// A string encodes as the length of its UTF-8 form, then those bytes.
pub open spec fn enc_str(s: Seq<char>) -> Seq<u8> {
    enc_u64(encode_utf8(s).len() as u64) + encode_utf8(s)
}

pub open spec fn enc_txin(t: TxInputV) -> Seq<u8> {
    enc_str(t.tx_id) + enc_i64(t.v_out) + enc_str(t.script_sig)
}

pub open spec fn enc_txout(o: TxOutputV) -> Seq<u8> {
    enc_i64(o.value) + enc_str(o.script_pub_key)
}

pub open spec fn enc_txin_seq(s: Seq<TxInputV>) -> Seq<u8>
    decreases s.len(),
{
    if s.len() == 0 {
        Seq::empty()
    } else {
        enc_txin(s.first()) + enc_txin_seq(s.drop_first())
    }
}

pub open spec fn enc_txout_seq(s: Seq<TxOutputV>) -> Seq<u8>
    decreases s.len(),
{
    if s.len() == 0 {
        Seq::empty()
    } else {
        enc_txout(s.first()) + enc_txout_seq(s.drop_first())
    }
}

/// A list encodes as its length, then its elements in order.
pub open spec fn enc_txins(s: Seq<TxInputV>) -> Seq<u8> {
    enc_u64(s.len() as u64) + enc_txin_seq(s)
}

pub open spec fn enc_txouts(s: Seq<TxOutputV>) -> Seq<u8> {
    enc_u64(s.len() as u64) + enc_txout_seq(s)
}

/// The serialized input and output lists of a transaction: the bytes whose
/// digest is the transaction's id.
pub open spec fn enc_tx_body(v_in: Seq<TxInputV>, v_out: Seq<TxOutputV>) -> Seq<u8> {
    enc_txins(v_in) + enc_txouts(v_out)
}

pub open spec fn enc_tx(t: TransactionV) -> Seq<u8> {
    enc_str(t.id) + enc_txins(t.v_in) + enc_txouts(t.v_out)
}

pub open spec fn enc_tx_seq(s: Seq<TransactionV>) -> Seq<u8>
    decreases s.len(),
{
    if s.len() == 0 {
        Seq::empty()
    } else {
        enc_tx(s.first()) + enc_tx_seq(s.drop_first())
    }
}

pub open spec fn enc_txs(s: Seq<TransactionV>) -> Seq<u8> {
    enc_u64(s.len() as u64) + enc_tx_seq(s)
}

/// A block encodes field by field, the transaction list last.
pub open spec fn enc_block(b: BlockV) -> Seq<u8> {
    enc_i64(b.timestamp) + enc_u64(b.nonce) + enc_str(b.hash) + enc_str(b.prev_block_hash)
        + enc_txs(b.transactions)
}

// ------------------------------------------------- machine-size conditions

/// The string's UTF-8 form fits a 64-bit length prefix; true of every
/// string an executable value can hold.
pub open spec fn str_ok(s: Seq<char>) -> bool {
    encode_utf8(s).len() <= u64::MAX
}

pub open spec fn txin_ok(t: TxInputV) -> bool {
    str_ok(t.tx_id) && str_ok(t.script_sig)
}

pub open spec fn txout_ok(o: TxOutputV) -> bool {
    str_ok(o.script_pub_key)
}

pub open spec fn txins_ok(s: Seq<TxInputV>) -> bool {
    s.len() <= u64::MAX && forall|i: int| 0 <= i < s.len() ==> txin_ok(#[trigger] s[i])
}

pub open spec fn txouts_ok(s: Seq<TxOutputV>) -> bool {
    s.len() <= u64::MAX && forall|i: int| 0 <= i < s.len() ==> txout_ok(#[trigger] s[i])
}

pub open spec fn tx_ok(t: TransactionV) -> bool {
    str_ok(t.id) && txins_ok(t.v_in) && txouts_ok(t.v_out)
}

pub open spec fn txs_ok(s: Seq<TransactionV>) -> bool {
    s.len() <= u64::MAX && forall|i: int| 0 <= i < s.len() ==> tx_ok(#[trigger] s[i])
}

pub open spec fn block_ok(b: BlockV) -> bool {
    str_ok(b.hash) && str_ok(b.prev_block_hash) && txs_ok(b.transactions)
}

// ----------------------------------------------------------------- parsing

/// Parsers consume a prefix and return the value with the remainder, or
/// nothing when the bytes do not start with a valid encoding.
pub open spec fn parse_u64(s: Seq<u8>) -> Option<(u64, Seq<u8>)> {
    if s.len() >= 8 {
        Some((spec_u64_from_le_bytes(s.take(8)), s.skip(8)))
    } else {
        None
    }
}

pub open spec fn parse_i64(s: Seq<u8>) -> Option<(i64, Seq<u8>)> {
    match parse_u64(s) {
        Some((x, r)) => Some((x as i64, r)),
        None => None,
    }
}

pub open spec fn parse_str(s: Seq<u8>) -> Option<(Seq<char>, Seq<u8>)> {
    match parse_u64(s) {
        Some((n, r)) => if n <= r.len() && valid_utf8(r.take(n as int)) {
            Some((decode_utf8(r.take(n as int)), r.skip(n as int)))
        } else {
            None
        },
        None => None,
    }
}

pub open spec fn parse_txin(s: Seq<u8>) -> Option<(TxInputV, Seq<u8>)> {
    match parse_str(s) {
        Some((tx_id, r)) => match parse_i64(r) {
            Some((v_out, r)) => match parse_str(r) {
                Some((script_sig, r)) => Some((TxInputV { tx_id, v_out, script_sig }, r)),
                None => None,
            },
            None => None,
        },
        None => None,
    }
}

pub open spec fn parse_txout(s: Seq<u8>) -> Option<(TxOutputV, Seq<u8>)> {
    match parse_i64(s) {
        Some((value, r)) => match parse_str(r) {
            Some((script_pub_key, r)) => Some((TxOutputV { value, script_pub_key }, r)),
            None => None,
        },
        None => None,
    }
}

pub open spec fn parse_txin_seq(s: Seq<u8>, n: nat) -> Option<(Seq<TxInputV>, Seq<u8>)>
    decreases n,
{
    if n == 0 {
        Some((Seq::empty(), s))
    } else {
        match parse_txin(s) {
            Some((t, r)) => match parse_txin_seq(r, (n - 1) as nat) {
                Some((l, r2)) => Some((seq![t] + l, r2)),
                None => None,
            },
            None => None,
        }
    }
}

pub open spec fn parse_txout_seq(s: Seq<u8>, n: nat) -> Option<(Seq<TxOutputV>, Seq<u8>)>
    decreases n,
{
    if n == 0 {
        Some((Seq::empty(), s))
    } else {
        match parse_txout(s) {
            Some((o, r)) => match parse_txout_seq(r, (n - 1) as nat) {
                Some((l, r2)) => Some((seq![o] + l, r2)),
                None => None,
            },
            None => None,
        }
    }
}

pub open spec fn parse_txins(s: Seq<u8>) -> Option<(Seq<TxInputV>, Seq<u8>)> {
    match parse_u64(s) {
        Some((n, r)) => parse_txin_seq(r, n as nat),
        None => None,
    }
}

pub open spec fn parse_txouts(s: Seq<u8>) -> Option<(Seq<TxOutputV>, Seq<u8>)> {
    match parse_u64(s) {
        Some((n, r)) => parse_txout_seq(r, n as nat),
        None => None,
    }
}

pub open spec fn parse_tx(s: Seq<u8>) -> Option<(TransactionV, Seq<u8>)> {
    match parse_str(s) {
        Some((id, r)) => match parse_txins(r) {
            Some((v_in, r)) => match parse_txouts(r) {
                Some((v_out, r)) => Some((TransactionV { id, v_in, v_out }, r)),
                None => None,
            },
            None => None,
        },
        None => None,
    }
}

pub open spec fn parse_tx_seq(s: Seq<u8>, n: nat) -> Option<(Seq<TransactionV>, Seq<u8>)>
    decreases n,
{
    if n == 0 {
        Some((Seq::empty(), s))
    } else {
        match parse_tx(s) {
            Some((t, r)) => match parse_tx_seq(r, (n - 1) as nat) {
                Some((l, r2)) => Some((seq![t] + l, r2)),
                None => None,
            },
            None => None,
        }
    }
}

pub open spec fn parse_txs(s: Seq<u8>) -> Option<(Seq<TransactionV>, Seq<u8>)> {
    match parse_u64(s) {
        Some((n, r)) => parse_tx_seq(r, n as nat),
        None => None,
    }
}

pub open spec fn parse_block(s: Seq<u8>) -> Option<(BlockV, Seq<u8>)> {
    match parse_i64(s) {
        Some((timestamp, r)) => match parse_u64(r) {
            Some((nonce, r)) => match parse_str(r) {
                Some((hash, r)) => match parse_str(r) {
                    Some((prev_block_hash, r)) => match parse_txs(r) {
                        Some((transactions, r)) => Some(
                            (BlockV { timestamp, transactions, hash, prev_block_hash, nonce }, r),
                        ),
                        None => None,
                    },
                    None => None,
                },
                None => None,
            },
            None => None,
        },
        None => None,
    }
}

/// A whole serialized block: a block encoding and nothing after it.
pub open spec fn parse_block_exact(s: Seq<u8>) -> Option<BlockV> {
    match parse_block(s) {
        Some((b, r)) => if r.len() == 0 {
            Some(b)
        } else {
            None
        },
        None => None,
    }
}

// ------------------------------------------- parsing inverts the encoding

pub proof fn lemma_parse_enc_u64(x: u64, rest: Seq<u8>)
    ensures
        parse_u64(enc_u64(x) + rest) == Some((x, rest)),
{
    lemma_auto_spec_u64_to_from_le_bytes();
    let s = enc_u64(x) + rest;
    assert(s.take(8) =~= enc_u64(x));
    assert(s.skip(8) =~= rest);
}

pub proof fn lemma_parse_enc_i64(x: i64, rest: Seq<u8>)
    ensures
        parse_i64(enc_i64(x) + rest) == Some((x, rest)),
{
    lemma_parse_enc_u64(x as u64, rest);
    assert((x as u64) as i64 == x) by (bit_vector);
}

pub proof fn lemma_parse_enc_str(s: Seq<char>, rest: Seq<u8>)
    requires
        str_ok(s),
    ensures
        parse_str(enc_str(s) + rest) == Some((s, rest)),
{
    let eb = encode_utf8(s);
    let n = eb.len() as u64;
    assert(enc_str(s) + rest =~= enc_u64(n) + (eb + rest));
    lemma_parse_enc_u64(n, eb + rest);
    assert((eb + rest).take(n as int) =~= eb);
    assert((eb + rest).skip(n as int) =~= rest);
    encode_utf8_valid_utf8(s);
    encode_utf8_decode_utf8(s);
}

pub proof fn lemma_parse_enc_txin(t: TxInputV, rest: Seq<u8>)
    requires
        txin_ok(t),
    ensures
        parse_txin(enc_txin(t) + rest) == Some((t, rest)),
{
    let r2 = enc_str(t.script_sig) + rest;
    let r1 = enc_i64(t.v_out) + r2;
    assert(enc_txin(t) + rest =~= enc_str(t.tx_id) + r1);
    lemma_parse_enc_str(t.tx_id, r1);
    lemma_parse_enc_i64(t.v_out, r2);
    lemma_parse_enc_str(t.script_sig, rest);
    assert(TxInputV { tx_id: t.tx_id, v_out: t.v_out, script_sig: t.script_sig } == t);
}

pub proof fn lemma_parse_enc_txout(o: TxOutputV, rest: Seq<u8>)
    requires
        txout_ok(o),
    ensures
        parse_txout(enc_txout(o) + rest) == Some((o, rest)),
{
    let r1 = enc_str(o.script_pub_key) + rest;
    assert(enc_txout(o) + rest =~= enc_i64(o.value) + r1);
    lemma_parse_enc_i64(o.value, r1);
    lemma_parse_enc_str(o.script_pub_key, rest);
    assert(TxOutputV { value: o.value, script_pub_key: o.script_pub_key } == o);
}

proof fn lemma_parse_enc_txin_seq(s: Seq<TxInputV>, rest: Seq<u8>)
    requires
        forall|i: int| 0 <= i < s.len() ==> txin_ok(#[trigger] s[i]),
    ensures
        parse_txin_seq(enc_txin_seq(s) + rest, s.len() as nat) == Some((s, rest)),
    decreases s.len(),
{
    if s.len() == 0 {
        assert(enc_txin_seq(s) + rest =~= rest);
        assert(parse_txin_seq(rest, 0) == Some((Seq::<TxInputV>::empty(), rest)));
        assert(Seq::<TxInputV>::empty() =~= s);
    } else {
        let tail = enc_txin_seq(s.drop_first()) + rest;
        assert(enc_txin_seq(s) + rest =~= enc_txin(s.first()) + tail);
        lemma_parse_enc_txin(s.first(), tail);
        lemma_parse_enc_txin_seq(s.drop_first(), rest);
        assert(seq![s.first()] + s.drop_first() =~= s);
    }
}

proof fn lemma_parse_enc_txout_seq(s: Seq<TxOutputV>, rest: Seq<u8>)
    requires
        forall|i: int| 0 <= i < s.len() ==> txout_ok(#[trigger] s[i]),
    ensures
        parse_txout_seq(enc_txout_seq(s) + rest, s.len() as nat) == Some((s, rest)),
    decreases s.len(),
{
    if s.len() == 0 {
        assert(enc_txout_seq(s) + rest =~= rest);
        assert(parse_txout_seq(rest, 0) == Some((Seq::<TxOutputV>::empty(), rest)));
        assert(Seq::<TxOutputV>::empty() =~= s);
    } else {
        let tail = enc_txout_seq(s.drop_first()) + rest;
        assert(enc_txout_seq(s) + rest =~= enc_txout(s.first()) + tail);
        lemma_parse_enc_txout(s.first(), tail);
        lemma_parse_enc_txout_seq(s.drop_first(), rest);
        assert(seq![s.first()] + s.drop_first() =~= s);
    }
}

pub proof fn lemma_parse_enc_txins(s: Seq<TxInputV>, rest: Seq<u8>)
    requires
        txins_ok(s),
    ensures
        parse_txins(enc_txins(s) + rest) == Some((s, rest)),
{
    let body = enc_txin_seq(s) + rest;
    assert(enc_txins(s) + rest =~= enc_u64(s.len() as u64) + body);
    lemma_parse_enc_u64(s.len() as u64, body);
    lemma_parse_enc_txin_seq(s, rest);
}

pub proof fn lemma_parse_enc_txouts(s: Seq<TxOutputV>, rest: Seq<u8>)
    requires
        txouts_ok(s),
    ensures
        parse_txouts(enc_txouts(s) + rest) == Some((s, rest)),
{
    let body = enc_txout_seq(s) + rest;
    assert(enc_txouts(s) + rest =~= enc_u64(s.len() as u64) + body);
    lemma_parse_enc_u64(s.len() as u64, body);
    lemma_parse_enc_txout_seq(s, rest);
}

pub proof fn lemma_parse_enc_tx(t: TransactionV, rest: Seq<u8>)
    requires
        tx_ok(t),
    ensures
        parse_tx(enc_tx(t) + rest) == Some((t, rest)),
{
    let r2 = enc_txouts(t.v_out) + rest;
    let r1 = enc_txins(t.v_in) + r2;
    assert(enc_tx(t) + rest =~= enc_str(t.id) + r1);
    lemma_parse_enc_str(t.id, r1);
    lemma_parse_enc_txins(t.v_in, r2);
    lemma_parse_enc_txouts(t.v_out, rest);
    assert(TransactionV { id: t.id, v_in: t.v_in, v_out: t.v_out } == t);
}

proof fn lemma_parse_enc_tx_seq(s: Seq<TransactionV>, rest: Seq<u8>)
    requires
        forall|i: int| 0 <= i < s.len() ==> tx_ok(#[trigger] s[i]),
    ensures
        parse_tx_seq(enc_tx_seq(s) + rest, s.len() as nat) == Some((s, rest)),
    decreases s.len(),
{
    if s.len() == 0 {
        assert(enc_tx_seq(s) + rest =~= rest);
        assert(parse_tx_seq(rest, 0) == Some((Seq::<TransactionV>::empty(), rest)));
        assert(Seq::<TransactionV>::empty() =~= s);
    } else {
        let tail = enc_tx_seq(s.drop_first()) + rest;
        assert(enc_tx_seq(s) + rest =~= enc_tx(s.first()) + tail);
        lemma_parse_enc_tx(s.first(), tail);
        lemma_parse_enc_tx_seq(s.drop_first(), rest);
        assert(seq![s.first()] + s.drop_first() =~= s);
    }
}

pub proof fn lemma_parse_enc_txs(s: Seq<TransactionV>, rest: Seq<u8>)
    requires
        txs_ok(s),
    ensures
        parse_txs(enc_txs(s) + rest) == Some((s, rest)),
{
    let body = enc_tx_seq(s) + rest;
    assert(enc_txs(s) + rest =~= enc_u64(s.len() as u64) + body);
    lemma_parse_enc_u64(s.len() as u64, body);
    lemma_parse_enc_tx_seq(s, rest);
}

pub proof fn lemma_parse_enc_block(b: BlockV, rest: Seq<u8>)
    requires
        block_ok(b),
    ensures
        parse_block(enc_block(b) + rest) == Some((b, rest)),
{
    let r4 = enc_txs(b.transactions) + rest;
    let r3 = enc_str(b.prev_block_hash) + r4;
    let r2 = enc_str(b.hash) + r3;
    let r1 = enc_u64(b.nonce) + r2;
    assert(enc_block(b) + rest =~= enc_i64(b.timestamp) + r1);
    lemma_parse_enc_i64(b.timestamp, r1);
    lemma_parse_enc_u64(b.nonce, r2);
    lemma_parse_enc_str(b.hash, r3);
    lemma_parse_enc_str(b.prev_block_hash, r4);
    lemma_parse_enc_txs(b.transactions, rest);
    assert(BlockV {
        timestamp: b.timestamp,
        transactions: b.transactions,
        hash: b.hash,
        prev_block_hash: b.prev_block_hash,
        nonce: b.nonce,
    } == b);
}

/// Decoding a serialized block gives back the block: the round trip is
/// exact on every field.
pub proof fn lemma_block_round_trip(b: BlockV)
    requires
        block_ok(b),
    ensures
        parse_block_exact(enc_block(b)) == Some(b),
{
    lemma_parse_enc_block(b, Seq::empty());
    assert(enc_block(b) + Seq::<u8>::empty() =~= enc_block(b));
}

// ------------------------------------------------------------ exec writers

proof fn lemma_enc_txin_seq_push(l: Seq<TxInputV>, x: TxInputV)
    ensures
        enc_txin_seq(l.push(x)) == enc_txin_seq(l) + enc_txin(x),
    decreases l.len(),
{
    if l.len() == 0 {
        assert(l.push(x).first() == x);
        assert(l.push(x).drop_first() =~= Seq::<TxInputV>::empty());
        assert(enc_txin_seq(Seq::<TxInputV>::empty()) =~= Seq::<u8>::empty());
        assert(enc_txin_seq(l.push(x)) =~= enc_txin_seq(l) + enc_txin(x));
    } else {
        assert(l.push(x).first() == l.first());
        assert(l.push(x).drop_first() =~= l.drop_first().push(x));
        lemma_enc_txin_seq_push(l.drop_first(), x);
        assert(enc_txin(l.first()) + (enc_txin_seq(l.drop_first()) + enc_txin(x)) =~= (enc_txin(
            l.first(),
        ) + enc_txin_seq(l.drop_first())) + enc_txin(x));
    }
}

proof fn lemma_enc_txout_seq_push(l: Seq<TxOutputV>, x: TxOutputV)
    ensures
        enc_txout_seq(l.push(x)) == enc_txout_seq(l) + enc_txout(x),
    decreases l.len(),
{
    if l.len() == 0 {
        assert(l.push(x).first() == x);
        assert(l.push(x).drop_first() =~= Seq::<TxOutputV>::empty());
        assert(enc_txout_seq(Seq::<TxOutputV>::empty()) =~= Seq::<u8>::empty());
        assert(enc_txout_seq(l.push(x)) =~= enc_txout_seq(l) + enc_txout(x));
    } else {
        assert(l.push(x).first() == l.first());
        assert(l.push(x).drop_first() =~= l.drop_first().push(x));
        lemma_enc_txout_seq_push(l.drop_first(), x);
        assert(enc_txout(l.first()) + (enc_txout_seq(l.drop_first()) + enc_txout(x)) =~= (enc_txout(
            l.first(),
        ) + enc_txout_seq(l.drop_first())) + enc_txout(x));
    }
}

proof fn lemma_enc_tx_seq_push(l: Seq<TransactionV>, x: TransactionV)
    ensures
        enc_tx_seq(l.push(x)) == enc_tx_seq(l) + enc_tx(x),
    decreases l.len(),
{
    if l.len() == 0 {
        assert(l.push(x).first() == x);
        assert(l.push(x).drop_first() =~= Seq::<TransactionV>::empty());
        assert(enc_tx_seq(Seq::<TransactionV>::empty()) =~= Seq::<u8>::empty());
        assert(enc_tx_seq(l.push(x)) =~= enc_tx_seq(l) + enc_tx(x));
    } else {
        assert(l.push(x).first() == l.first());
        assert(l.push(x).drop_first() =~= l.drop_first().push(x));
        lemma_enc_tx_seq_push(l.drop_first(), x);
        assert(enc_tx(l.first()) + (enc_tx_seq(l.drop_first()) + enc_tx(x)) =~= (enc_tx(l.first())
            + enc_tx_seq(l.drop_first())) + enc_tx(x));
    }
}

pub(crate) fn write_u64(out: &mut Vec<u8>, x: u64)
    ensures
        final(out)@ == old(out)@ + enc_u64(x),
{
    let b = u64_to_le_bytes(x);
    out.extend_from_slice(b.as_slice());
    proof {
        assert(out@ =~= old(out)@ + enc_u64(x));
    }
}

pub(crate) fn write_i64(out: &mut Vec<u8>, x: i64)
    ensures
        final(out)@ == old(out)@ + enc_i64(x),
{
    write_u64(out, x as u64);
}

fn write_str(out: &mut Vec<u8>, s: &str)
    ensures
        final(out)@ == old(out)@ + enc_str(s@),
        str_ok(s@),
{
    let b = s.as_bytes_vec();
    write_u64(out, b.len() as u64);
    out.extend_from_slice(b.as_slice());
    proof {
        assert(out@ =~= old(out)@ + enc_str(s@));
    }
}

fn write_txin(out: &mut Vec<u8>, t: &TxInput)
    ensures
        final(out)@ == old(out)@ + enc_txin(t@),
        txin_ok(t@),
{
    write_str(out, t.tx_id.as_str());
    write_i64(out, t.v_out);
    write_str(out, t.script_sig.as_str());
    proof {
        assert(out@ =~= old(out)@ + enc_txin(t@));
    }
}

fn write_txout(out: &mut Vec<u8>, o: &TxOutput)
    ensures
        final(out)@ == old(out)@ + enc_txout(o@),
        txout_ok(o@),
{
    write_i64(out, o.value);
    write_str(out, o.script_pub_key.as_str());
    proof {
        assert(out@ =~= old(out)@ + enc_txout(o@));
    }
}

fn write_txins(out: &mut Vec<u8>, s: &Vec<TxInput>)
    ensures
        final(out)@ == old(out)@ + enc_txins(ins_view(s@)),
        txins_ok(ins_view(s@)),
{
    write_u64(out, s.len() as u64);
    let mut i: usize = 0;
    while i < s.len()
        invariant
            i <= s.len(),
            out@ == old(out)@ + enc_u64(s@.len() as u64) + enc_txin_seq(
                ins_view(s@.take(i as int)),
            ),
            forall|j: int| 0 <= j < i ==> txin_ok(#[trigger] ins_view(s@)[j]),
        decreases s.len() - i,
    {
        write_txin(out, &s[i]);
        proof {
            assert(ins_view(s@.take(i + 1 as int)) =~= ins_view(s@.take(i as int)).push(
                s@[i as int]@,
            ));
            lemma_enc_txin_seq_push(ins_view(s@.take(i as int)), s@[i as int]@);
            assert(out@ =~= old(out)@ + enc_u64(s@.len() as u64) + enc_txin_seq(
                ins_view(s@.take(i + 1 as int)),
            ));
        }
        i += 1;
    }
    proof {
        assert(s@.take(s@.len() as int) =~= s@);
        assert(out@ =~= old(out)@ + enc_txins(ins_view(s@)));
    }
}

fn write_txouts(out: &mut Vec<u8>, s: &Vec<TxOutput>)
    ensures
        final(out)@ == old(out)@ + enc_txouts(outs_view(s@)),
        txouts_ok(outs_view(s@)),
{
    write_u64(out, s.len() as u64);
    let mut i: usize = 0;
    while i < s.len()
        invariant
            i <= s.len(),
            out@ == old(out)@ + enc_u64(s@.len() as u64) + enc_txout_seq(
                outs_view(s@.take(i as int)),
            ),
            forall|j: int| 0 <= j < i ==> txout_ok(#[trigger] outs_view(s@)[j]),
        decreases s.len() - i,
    {
        write_txout(out, &s[i]);
        proof {
            assert(outs_view(s@.take(i + 1 as int)) =~= outs_view(s@.take(i as int)).push(
                s@[i as int]@,
            ));
            lemma_enc_txout_seq_push(outs_view(s@.take(i as int)), s@[i as int]@);
            assert(out@ =~= old(out)@ + enc_u64(s@.len() as u64) + enc_txout_seq(
                outs_view(s@.take(i + 1 as int)),
            ));
        }
        i += 1;
    }
    proof {
        assert(s@.take(s@.len() as int) =~= s@);
        assert(out@ =~= old(out)@ + enc_txouts(outs_view(s@)));
    }
}

fn write_tx(out: &mut Vec<u8>, t: &Transaction)
    ensures
        final(out)@ == old(out)@ + enc_tx(t@),
        tx_ok(t@),
{
    write_str(out, t.id.as_str());
    write_txins(out, &t.v_in);
    write_txouts(out, &t.v_out);
    proof {
        assert(out@ =~= old(out)@ + enc_tx(t@));
    }
}

fn write_txs(out: &mut Vec<u8>, s: &Vec<Transaction>)
    ensures
        final(out)@ == old(out)@ + enc_txs(txs_view(s@)),
        txs_ok(txs_view(s@)),
{
    write_u64(out, s.len() as u64);
    let mut i: usize = 0;
    while i < s.len()
        invariant
            i <= s.len(),
            out@ == old(out)@ + enc_u64(s@.len() as u64) + enc_tx_seq(txs_view(s@.take(i as int))),
            forall|j: int| 0 <= j < i ==> tx_ok(#[trigger] txs_view(s@)[j]),
        decreases s.len() - i,
    {
        write_tx(out, &s[i]);
        proof {
            assert(txs_view(s@.take(i + 1 as int)) =~= txs_view(s@.take(i as int)).push(
                s@[i as int]@,
            ));
            lemma_enc_tx_seq_push(txs_view(s@.take(i as int)), s@[i as int]@);
            assert(out@ =~= old(out)@ + enc_u64(s@.len() as u64) + enc_tx_seq(
                txs_view(s@.take(i + 1 as int)),
            ));
        }
        i += 1;
    }
    proof {
        assert(s@.take(s@.len() as int) =~= s@);
        assert(out@ =~= old(out)@ + enc_txs(txs_view(s@)));
    }
}

/// Serializes a block for the persistent store.
pub(crate) fn encode_block_bytes(b: &Block) -> (r: Vec<u8>)
    ensures
        r@ == enc_block(b@),
        block_ok(b@),
{
    let mut out: Vec<u8> = Vec::new();
    write_i64(&mut out, b.timestamp);
    write_u64(&mut out, b.nonce);
    write_str(&mut out, b.hash.as_str());
    write_str(&mut out, b.prev_block_hash.as_str());
    write_txs(&mut out, &b.transactions);
    proof {
        assert(out@ =~= enc_block(b@));
    }
    out
}

/// Serializes a transaction's input and output lists: the bytes a
/// transaction id is the digest of.
pub(crate) fn encode_tx_body(v_in: &Vec<TxInput>, v_out: &Vec<TxOutput>) -> (r: Vec<u8>)
    ensures
        r@ == enc_tx_body(ins_view(v_in@), outs_view(v_out@)),
        txins_ok(ins_view(v_in@)),
        txouts_ok(outs_view(v_out@)),
{
    let mut out: Vec<u8> = Vec::new();
    write_txins(&mut out, v_in);
    write_txouts(&mut out, v_out);
    proof {
        assert(out@ =~= enc_tx_body(ins_view(v_in@), outs_view(v_out@)));
    }
    out
}

// ------------------------------------------------------------ exec readers

fn read_u64(bytes: &Vec<u8>, pos: usize) -> (r: Option<(u64, usize)>)
    requires
        pos <= bytes@.len(),
    ensures
        r is None ==> parse_u64(bytes@.skip(pos as int)) is None,
        r matches Some((x, p2)) ==> pos <= p2 <= bytes@.len() && parse_u64(
            bytes@.skip(pos as int),
        ) == Some((x, bytes@.skip(p2 as int))),
{
    if bytes.len() - pos >= 8 {
        let sl = slice_subrange(bytes.as_slice(), pos, pos + 8);
        let x = u64_from_le_bytes(sl);
        proof {
            lemma_auto_spec_u64_to_from_le_bytes();
            assert(bytes@.skip(pos as int).take(8) =~= bytes@.subrange(
                pos as int,
                pos as int + 8,
            ));
            assert(bytes@.skip(pos as int).skip(8) =~= bytes@.skip(pos as int + 8));
        }
        Some((x, pos + 8))
    } else {
        None
    }
}

fn read_i64(bytes: &Vec<u8>, pos: usize) -> (r: Option<(i64, usize)>)
    requires
        pos <= bytes@.len(),
    ensures
        r is None ==> parse_i64(bytes@.skip(pos as int)) is None,
        r matches Some((x, p2)) ==> pos <= p2 <= bytes@.len() && parse_i64(
            bytes@.skip(pos as int),
        ) == Some((x, bytes@.skip(p2 as int))),
{
    match read_u64(bytes, pos) {
        Some((x, p2)) => Some((x as i64, p2)),
        None => None,
    }
}

fn read_str(bytes: &Vec<u8>, pos: usize) -> (r: Option<(String, usize)>)
    requires
        pos <= bytes@.len(),
    ensures
        r is None ==> parse_str(bytes@.skip(pos as int)) is None,
        r matches Some((s, p2)) ==> pos <= p2 <= bytes@.len() && parse_str(
            bytes@.skip(pos as int),
        ) == Some((s@, bytes@.skip(p2 as int))),
{
    match read_u64(bytes, pos) {
        None => None,
        Some((n, p1)) => {
            let rem = bytes.len() - p1;
            if n > rem as u64 {
                proof {
                    assert(bytes@.skip(p1 as int).len() == rem);
                }
                None
            } else {
                let n_us = n as usize;
                let sl = slice_subrange(bytes.as_slice(), p1, p1 + n_us);
                let v = slice_to_vec(sl);
                proof {
                    assert(bytes@.skip(p1 as int).take(n as int) =~= bytes@.subrange(
                        p1 as int,
                        p1 as int + n_us as int,
                    ));
                }
                match string_from_utf8(v) {
                    Some(s) => {
                        proof {
                            encode_utf8_decode_utf8(s@);
                            assert(bytes@.skip(p1 as int).skip(n as int) =~= bytes@.skip(
                                p1 as int + n_us as int,
                            ));
                        }
                        Some((s, p1 + n_us))
                    },
                    None => None,
                }
            }
        },
    }
}

fn read_txin(bytes: &Vec<u8>, pos: usize) -> (r: Option<(TxInput, usize)>)
    requires
        pos <= bytes@.len(),
    ensures
        r is None ==> parse_txin(bytes@.skip(pos as int)) is None,
        r matches Some((t, p2)) ==> pos <= p2 <= bytes@.len() && parse_txin(
            bytes@.skip(pos as int),
        ) == Some((t@, bytes@.skip(p2 as int))),
{
    match read_str(bytes, pos) {
        None => None,
        Some((tx_id, p1)) => match read_i64(bytes, p1) {
            None => None,
            Some((v_out, p2)) => match read_str(bytes, p2) {
                None => None,
                Some((script_sig, p3)) => Some((TxInput { tx_id, v_out, script_sig }, p3)),
            },
        },
    }
}

fn read_txout(bytes: &Vec<u8>, pos: usize) -> (r: Option<(TxOutput, usize)>)
    requires
        pos <= bytes@.len(),
    ensures
        r is None ==> parse_txout(bytes@.skip(pos as int)) is None,
        r matches Some((o, p2)) ==> pos <= p2 <= bytes@.len() && parse_txout(
            bytes@.skip(pos as int),
        ) == Some((o@, bytes@.skip(p2 as int))),
{
    match read_i64(bytes, pos) {
        None => None,
        Some((value, p1)) => match read_str(bytes, p1) {
            None => None,
            Some((script_pub_key, p2)) => Some((TxOutput { value, script_pub_key }, p2)),
        },
    }
}

fn read_txins(bytes: &Vec<u8>, pos: usize) -> (r: Option<(Vec<TxInput>, usize)>)
    requires
        pos <= bytes@.len(),
    ensures
        r is None ==> parse_txins(bytes@.skip(pos as int)) is None,
        r matches Some((v, p2)) ==> pos <= p2 <= bytes@.len() && parse_txins(
            bytes@.skip(pos as int),
        ) == Some((ins_view(v@), bytes@.skip(p2 as int))),
{
    match read_u64(bytes, pos) {
        None => None,
        Some((n, p1)) => {
            let mut acc: Vec<TxInput> = Vec::new();
            let mut p: usize = p1;
            let mut i: u64 = 0;
            while i < n
                invariant
                    i <= n,
                    pos <= p1 <= p <= bytes@.len(),
                    acc@.len() == i,
                    parse_u64(bytes@.skip(pos as int)) == Some((n, bytes@.skip(p1 as int))),
                    parse_txin_seq(bytes@.skip(p as int), (n - i) as nat) matches Some(pr)
                        ==> parse_txin_seq(bytes@.skip(p1 as int), n as nat) == Some(
                        (ins_view(acc@) + pr.0, pr.1),
                    ),
                    parse_txin_seq(bytes@.skip(p as int), (n - i) as nat) is None
                        ==> parse_txin_seq(bytes@.skip(p1 as int), n as nat) is None,
                decreases n - i,
            {
                match read_txin(bytes, p) {
                    None => {
                        proof {
                            assert(parse_txin_seq(bytes@.skip(p as int), (n - i) as nat) is None);
                        }
                        return None;
                    },
                    Some((t, p2)) => {
                        proof {
                            match parse_txin_seq(bytes@.skip(p2 as int), (n - i - 1) as nat) {
                                Some((l, rr)) => {
                                    assert(ins_view(acc@) + (seq![t@] + l) =~= (ins_view(acc@)
                                        + seq![t@]) + l);
                                    assert(ins_view(acc@.push(t)) =~= ins_view(acc@) + seq![t@]);
                                },
                                None => {},
                            }
                        }
                        acc.push(t);
                        p = p2;
                        i = i + 1;
                    },
                }
            }
            proof {
                assert(parse_txin_seq(bytes@.skip(p as int), 0) == Some(
                    (Seq::<TxInputV>::empty(), bytes@.skip(p as int)),
                ));
                assert(ins_view(acc@) + Seq::<TxInputV>::empty() =~= ins_view(acc@));
            }
            Some((acc, p))
        },
    }
}

fn read_txouts(bytes: &Vec<u8>, pos: usize) -> (r: Option<(Vec<TxOutput>, usize)>)
    requires
        pos <= bytes@.len(),
    ensures
        r is None ==> parse_txouts(bytes@.skip(pos as int)) is None,
        r matches Some((v, p2)) ==> pos <= p2 <= bytes@.len() && parse_txouts(
            bytes@.skip(pos as int),
        ) == Some((outs_view(v@), bytes@.skip(p2 as int))),
{
    match read_u64(bytes, pos) {
        None => None,
        Some((n, p1)) => {
            let mut acc: Vec<TxOutput> = Vec::new();
            let mut p: usize = p1;
            let mut i: u64 = 0;
            while i < n
                invariant
                    i <= n,
                    pos <= p1 <= p <= bytes@.len(),
                    acc@.len() == i,
                    parse_u64(bytes@.skip(pos as int)) == Some((n, bytes@.skip(p1 as int))),
                    parse_txout_seq(bytes@.skip(p as int), (n - i) as nat) matches Some(pr)
                        ==> parse_txout_seq(bytes@.skip(p1 as int), n as nat) == Some(
                        (outs_view(acc@) + pr.0, pr.1),
                    ),
                    parse_txout_seq(bytes@.skip(p as int), (n - i) as nat) is None
                        ==> parse_txout_seq(bytes@.skip(p1 as int), n as nat) is None,
                decreases n - i,
            {
                match read_txout(bytes, p) {
                    None => {
                        proof {
                            assert(parse_txout_seq(bytes@.skip(p as int), (n - i) as nat) is None);
                        }
                        return None;
                    },
                    Some((o, p2)) => {
                        proof {
                            match parse_txout_seq(bytes@.skip(p2 as int), (n - i - 1) as nat) {
                                Some((l, rr)) => {
                                    assert(outs_view(acc@) + (seq![o@] + l) =~= (outs_view(acc@)
                                        + seq![o@]) + l);
                                    assert(outs_view(acc@.push(o)) =~= outs_view(acc@) + seq![o@]);
                                },
                                None => {},
                            }
                        }
                        acc.push(o);
                        p = p2;
                        i = i + 1;
                    },
                }
            }
            proof {
                assert(parse_txout_seq(bytes@.skip(p as int), 0) == Some(
                    (Seq::<TxOutputV>::empty(), bytes@.skip(p as int)),
                ));
                assert(outs_view(acc@) + Seq::<TxOutputV>::empty() =~= outs_view(acc@));
            }
            Some((acc, p))
        },
    }
}

fn read_tx(bytes: &Vec<u8>, pos: usize) -> (r: Option<(Transaction, usize)>)
    requires
        pos <= bytes@.len(),
    ensures
        r is None ==> parse_tx(bytes@.skip(pos as int)) is None,
        r matches Some((t, p2)) ==> pos <= p2 <= bytes@.len() && parse_tx(bytes@.skip(pos as int))
            == Some((t@, bytes@.skip(p2 as int))),
{
    match read_str(bytes, pos) {
        None => None,
        Some((id, p1)) => match read_txins(bytes, p1) {
            None => None,
            Some((v_in, p2)) => match read_txouts(bytes, p2) {
                None => None,
                Some((v_out, p3)) => Some((Transaction { id, v_in, v_out }, p3)),
            },
        },
    }
}

fn read_txs(bytes: &Vec<u8>, pos: usize) -> (r: Option<(Vec<Transaction>, usize)>)
    requires
        pos <= bytes@.len(),
    ensures
        r is None ==> parse_txs(bytes@.skip(pos as int)) is None,
        r matches Some((v, p2)) ==> pos <= p2 <= bytes@.len() && parse_txs(
            bytes@.skip(pos as int),
        ) == Some((txs_view(v@), bytes@.skip(p2 as int))),
{
    match read_u64(bytes, pos) {
        None => None,
        Some((n, p1)) => {
            let mut acc: Vec<Transaction> = Vec::new();
            let mut p: usize = p1;
            let mut i: u64 = 0;
            while i < n
                invariant
                    i <= n,
                    pos <= p1 <= p <= bytes@.len(),
                    acc@.len() == i,
                    parse_u64(bytes@.skip(pos as int)) == Some((n, bytes@.skip(p1 as int))),
                    parse_tx_seq(bytes@.skip(p as int), (n - i) as nat) matches Some(pr)
                        ==> parse_tx_seq(bytes@.skip(p1 as int), n as nat) == Some(
                        (txs_view(acc@) + pr.0, pr.1),
                    ),
                    parse_tx_seq(bytes@.skip(p as int), (n - i) as nat) is None ==> parse_tx_seq(
                        bytes@.skip(p1 as int),
                        n as nat,
                    ) is None,
                decreases n - i,
            {
                match read_tx(bytes, p) {
                    None => {
                        proof {
                            assert(parse_tx_seq(bytes@.skip(p as int), (n - i) as nat) is None);
                        }
                        return None;
                    },
                    Some((t, p2)) => {
                        proof {
                            match parse_tx_seq(bytes@.skip(p2 as int), (n - i - 1) as nat) {
                                Some((l, rr)) => {
                                    assert(txs_view(acc@) + (seq![t@] + l) =~= (txs_view(acc@)
                                        + seq![t@]) + l);
                                    assert(txs_view(acc@.push(t)) =~= txs_view(acc@) + seq![t@]);
                                },
                                None => {},
                            }
                        }
                        acc.push(t);
                        p = p2;
                        i = i + 1;
                    },
                }
            }
            proof {
                assert(parse_tx_seq(bytes@.skip(p as int), 0) == Some(
                    (Seq::<TransactionV>::empty(), bytes@.skip(p as int)),
                ));
                assert(txs_view(acc@) + Seq::<TransactionV>::empty() =~= txs_view(acc@));
            }
            Some((acc, p))
        },
    }
}

/// Deserializes a whole block, failing on malformed or trailing bytes.
pub(crate) fn decode_block(bytes: &Vec<u8>) -> (r: Option<Block>)
    ensures
        r matches Some(b) ==> parse_block_exact(bytes@) == Some(b@),
        r is None ==> parse_block_exact(bytes@) is None,
{
    proof {
        assert(bytes@.skip(0) =~= bytes@);
    }
    match read_i64(bytes, 0) {
        None => None,
        Some((timestamp, p1)) => match read_u64(bytes, p1) {
            None => None,
            Some((nonce, p2)) => match read_str(bytes, p2) {
                None => None,
                Some((hash, p3)) => match read_str(bytes, p3) {
                    None => None,
                    Some((prev_block_hash, p4)) => match read_txs(bytes, p4) {
                        None => None,
                        Some((transactions, p5)) => {
                            if p5 == bytes.len() {
                                Some(
                                    Block {
                                        timestamp,
                                        transactions,
                                        hash,
                                        prev_block_hash,
                                        nonce,
                                    },
                                )
                            } else {
                                None
                            }
                        },
                    },
                },
            },
        },
    }
}

} // verus!

//! A sealed block: an immutable record of transactions, chained to its
//! predecessor by hash and secured by a proof-of-work nonce.

use vstd::prelude::*;
use vstd::utf8::encode_utf8;
use crate::codec::{enc_block, parse_block_exact, encode_block_bytes, decode_block, block_ok};
use crate::errors::ChainError;
use crate::hashing::{hex_str_of, hex_bytes_of};
use crate::proof_of_work::{ProofOfWork, pow_digest, below_target, lemma_pow_deterministic};
use crate::transaction::{Transaction, TransactionV, txs_view};

verus! {

/// The difficulty every block is sealed under: this many leading zero bits.
pub const TARGET_BITS: u32 = 16;

/// Immutable once sealed: `hash` is always the digest of the other fields
/// at the recorded `nonce`.
#[derive(Debug, Clone, PartialEq, Eq)]
pub struct Block {
    /// Seconds since the epoch, stamped at construction.
    pub timestamp: i64,
    /// The ordered transactions; the order is hashed.
    pub transactions: Vec<Transaction>,
    /// The hex digest of this block's sealed contents.
    pub hash: String,
    /// The hex digest of the predecessor; empty for the genesis block.
    pub prev_block_hash: String,
    /// The nonce found by proof-of-work.
    pub nonce: u64,
}

/// The mathematical model of a block.
#[verifier::ext_equal]
pub struct BlockV {
    pub timestamp: i64,
    pub transactions: Seq<TransactionV>,
    pub hash: Seq<char>,
    pub prev_block_hash: Seq<char>,
    pub nonce: u64,
}

impl View for Block {
    type V = BlockV;

    open spec fn view(&self) -> BlockV {
        BlockV {
            timestamp: self.timestamp,
            transactions: txs_view(self.transactions@),
            hash: self.hash@,
            prev_block_hash: self.prev_block_hash@,
            nonce: self.nonce,
        }
    }
}

/// A block is sealed when its hash is the hex digest of its other fields
/// at the recorded nonce, that digest meets the difficulty target, and no
/// smaller nonce does.
pub open spec fn sealed(b: BlockV) -> bool {
    let d = pow_digest(b.prev_block_hash, b.transactions, b.timestamp, TARGET_BITS, b.nonce);
    &&& below_target(d, TARGET_BITS)
    &&& forall|m: u64|
        m < b.nonce ==> !below_target(
            pow_digest(b.prev_block_hash, b.transactions, b.timestamp, TARGET_BITS, m),
            TARGET_BITS,
        )
    &&& b.hash == hex_str_of(d)
    &&& encode_utf8(b.hash) == hex_bytes_of(d)
    &&& encode_utf8(b.hash).len() == 64
}

/// Every nonce in the search space misses the target for these fields:
/// sealing them must fail, and no block results.
pub open spec fn mining_exhausted(prev: Seq<char>, txs: Seq<TransactionV>, timestamp: i64) -> bool {
    forall|m: u64|
        m < u64::MAX ==> !below_target(
            pow_digest(prev, txs, timestamp, TARGET_BITS, m),
            TARGET_BITS,
        )
}

/// Relies on chrono::Local::now for the current Unix timestamp. Nothing is
/// promised of the value: callers hold for every timestamp.
#[verifier::external_body]
fn unix_time_now() -> i64 {
    chrono::Local::now().timestamp()
}

impl Block {
    /// Stamps the current time and seals the block over the given
    /// transactions and predecessor hash by running proof-of-work to
    /// completion.
    pub fn new(transactions: Vec<Transaction>, prev_block_hash: &str) -> (r: Result<Block, ChainError>)
        ensures
            r matches Ok(b) ==> {
                &&& b@.prev_block_hash == prev_block_hash@
                &&& b@.transactions == txs_view(transactions@)
                &&& sealed(b@)
                &&& b@.nonce < u64::MAX
            },
            r matches Err(e) ==> e == ChainError::MiningExhausted,
            r is Err ==> exists|ts: i64|
                #[trigger] mining_exhausted(prev_block_hash@, txs_view(transactions@), ts),
    {
        let timestamp = unix_time_now();
        let ghost txv = txs_view(transactions@);
        let r = Block::new_at_time(transactions, prev_block_hash, timestamp);
        proof {
            if r is Err {
                assert(mining_exhausted(prev_block_hash@, txv, timestamp));
                assert(exists|ts: i64| #[trigger] mining_exhausted(prev_block_hash@, txv, ts));
            }
        }
        r
    }

    /// Seals a block at a caller-chosen timestamp; `new` stamps the clock
    /// and defers here. The result is a function of the arguments alone,
    /// and failure comes only from a truly exhausted nonce space.
    pub fn new_at_time(
        transactions: Vec<Transaction>,
        prev_block_hash: &str,
        timestamp: i64,
    ) -> (r: Result<Block, ChainError>)
        ensures
            r matches Ok(b) ==> {
                &&& b@.timestamp == timestamp
                &&& b@.prev_block_hash == prev_block_hash@
                &&& b@.transactions == txs_view(transactions@)
                &&& sealed(b@)
                &&& b@.nonce < u64::MAX
            },
            r matches Err(e) ==> e == ChainError::MiningExhausted,
            r is Err ==> mining_exhausted(prev_block_hash@, txs_view(transactions@), timestamp),
    {
        let pow = ProofOfWork::new(&transactions, prev_block_hash, timestamp, TARGET_BITS);
        match pow.run() {
            Ok((nonce, hash)) => Ok(
                Block {
                    timestamp,
                    transactions,
                    hash,
                    prev_block_hash: prev_block_hash.to_owned(),
                    nonce,
                },
            ),
            Err(e) => Err(e),
        }
    }

    /// Serializes this block for the persistent store.
    pub fn serialize(&self) -> (r: Vec<u8>)
        ensures
            r@ == enc_block(self@),
            block_ok(self@),
    {
        encode_block_bytes(self)
    }

    /// Reads a block back from its serialized form; malformed bytes are an
    /// error, never skipped.
    pub fn deserialize(data: &Vec<u8>) -> (r: Option<Block>)
        ensures
            r matches Some(b) ==> parse_block_exact(data@) == Some(b@),
            r is None ==> parse_block_exact(data@) is None,
    {
        decode_block(data)
    }
}

/// Every sealed block meets the difficulty: its digest, read as a
/// big-endian integer, is strictly below `2^(256 - TARGET_BITS)`.
pub proof fn lemma_sealed_meets_target(b: BlockV)
    requires
        sealed(b),
    ensures
        crate::proof_of_work::be_val(
            pow_digest(b.prev_block_hash, b.transactions, b.timestamp, TARGET_BITS, b.nonce),
        ) < vstd::arithmetic::power2::pow2((256 - TARGET_BITS) as nat),
{
}

/// Sealing is deterministic: two sealed blocks over the same timestamp,
/// transactions and predecessor carry the same nonce and the same hash.
pub proof fn lemma_sealing_deterministic(b1: BlockV, b2: BlockV)
    requires
        sealed(b1),
        sealed(b2),
        b1.prev_block_hash == b2.prev_block_hash,
        b1.transactions == b2.transactions,
        b1.timestamp == b2.timestamp,
    ensures
        b1.nonce == b2.nonce,
        b1.hash == b2.hash,
{
    lemma_pow_deterministic(
        b1.prev_block_hash,
        b1.transactions,
        b1.timestamp,
        TARGET_BITS,
        b1.nonce,
        b2.nonce,
    );
}

} // verus!

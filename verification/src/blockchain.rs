//! The persisted chain: a tip pointer and a block store, with backward
//! iteration and the unspent-output resolver.

use vstd::prelude::*;
use vstd::utf8::{encode_utf8, is_ascii_chars, is_ascii_chars_encode_utf8};
use crate::block::{Block, BlockV, sealed, mining_exhausted};
use crate::transaction::{coinbase_view, txs_view};
use crate::codec::parse_block_exact;
use crate::errors::ChainError;
use crate::store::{db_view, open_db, db_get, db_insert, db_flush};
use crate::transaction::{Transaction, TransactionV};

verus! {

/// The reserved store key that holds the current tip hash.
pub open spec fn tip_key() -> Seq<u8> {
    encode_utf8("l"@)
}

proof fn lemma_tip_key_len()
    ensures
        tip_key().len() == 1,
{
    reveal_strlit("l");
    assert(is_ascii_chars("l"@));
    is_ascii_chars_encode_utf8("l"@);
}

/// The persisted, singly linked chain: the hash of its newest block, the
/// store holding every sealed block, and the model of the blocks from
/// genesis to tip.
pub struct Blockchain {
    tip: String,
    db: sled::Db,
    chain: Ghost<Seq<BlockV>>,
}

impl Blockchain {
    /// The model: the sealed blocks from genesis (first) to tip (last).
    pub closed spec fn spec_chain(self) -> Seq<BlockV> {
        self.chain@
    }

    /// The hash of the newest block.
    pub closed spec fn spec_tip(self) -> Seq<char> {
        self.tip@
    }

    /// The chain invariant: at least a genesis block whose predecessor is
    /// the empty sentinel, every later block naming its predecessor's
    /// hash, no repeated hash, the tip naming the last block, and the
    /// store holding the tip under the reserved key and every block under
    /// its own hash.
    pub closed spec fn wf(self) -> bool {
        let c = self.chain@;
        let m = db_view(self.db);
        &&& c.len() >= 1
        &&& c[0].prev_block_hash == Seq::<char>::empty()
        &&& forall|i: int| 1 <= i < c.len() ==> (#[trigger] c[i]).prev_block_hash == c[i - 1].hash
        &&& forall|i: int, j: int| 0 <= i < j < c.len() ==> c[i].hash != c[j].hash
        &&& self.tip@ == c[c.len() - 1].hash
        &&& forall|i: int| 0 <= i < c.len() ==> encode_utf8((#[trigger] c[i]).hash).len() == 64
        &&& m.contains_key(tip_key())
        &&& m[tip_key()] == encode_utf8(self.tip@)
        &&& forall|i: int| 0 <= i < c.len() ==> m.contains_key(encode_utf8((#[trigger] c[i]).hash))
        &&& forall|i: int|
            0 <= i < c.len() ==> parse_block_exact(m[encode_utf8((#[trigger] c[i]).hash)])
                == Some(c[i])
        &&& forall|i: int, t: int|
            0 <= i < c.len() && 0 <= t < c[i].transactions.len() ==> crate::transaction::tx_values_ok(
                #[trigger] c[i].transactions[t],
            )
    }

    /// Creates a fresh chain at the store: seals a genesis block holding
    /// one coinbase rewarding `genesis_address`, persists it, and points
    /// the tip at it. A store that already holds a chain is rejected, not
    /// reused.
    pub fn create_blockchain(path: &str, genesis_address: &str) -> (r: Result<Blockchain, ChainError>)
        ensures
            r matches Ok(bc) ==> {
                &&& bc.wf()
                &&& bc.spec_chain().len() == 1
                &&& sealed(bc.spec_chain()[0])
                &&& bc.spec_chain()[0].prev_block_hash == Seq::<char>::empty()
                &&& bc.spec_chain()[0].transactions.len() == 1
                &&& crate::transaction::spec_is_coinbase(bc.spec_chain()[0].transactions[0])
                &&& bc.spec_chain()[0].transactions[0].v_out.len() == 1
                &&& bc.spec_chain()[0].transactions[0].v_out[0].value
                    == crate::transaction::SUBSIDY
                &&& bc.spec_chain()[0].transactions[0].v_out[0].script_pub_key
                    == genesis_address@
            },
            r matches Err(e) ==> (e == ChainError::ChainAlreadyExists || e == ChainError::StorageError || e
                == ChainError::MiningExhausted),
            r == Err::<Blockchain, ChainError>(ChainError::MiningExhausted) ==> exists|ts: i64|
                #[trigger] mining_exhausted(
                    Seq::<char>::empty(),
                    seq![coinbase_view(genesis_address@, Seq::<char>::empty())],
                    ts,
                ),
    {
        let mut db = match open_db(path) {
            Ok(d) => d,
            Err(_) => {
                return Err(ChainError::StorageError);
            },
        };
        match db_get(&db, "l".as_bytes()) {
            Err(_) => Err(ChainError::StorageError),
            Ok(Some(_)) => Err(ChainError::ChainAlreadyExists),
            Ok(None) => {
                let coinbase = Transaction::new_coinbase_tx(genesis_address, "");
                let txs = vec![coinbase];
                let ghost txv = txs_view(txs@);
                let genesis = match Block::new(txs, "") {
                    Ok(b) => b,
                    Err(e) => {
                        proof {
                            reveal_strlit("");
                            assert(""@ =~= Seq::<char>::empty());
                            assert(txv =~= seq![
                                coinbase_view(genesis_address@, Seq::<char>::empty()),
                            ]);
                            let ts = choose|ts: i64| #[trigger] mining_exhausted(""@, txv, ts);
                            assert(mining_exhausted(
                                Seq::<char>::empty(),
                                seq![coinbase_view(genesis_address@, Seq::<char>::empty())],
                                ts,
                            ));
                        }
                        return Err(e);
                    },
                };
                let bytes = genesis.serialize();
                let hash_bytes = genesis.hash.as_str().as_bytes_vec();
                if let Err(_) = db_insert(&mut db, "l".as_bytes(), hash_bytes.as_slice()) {
                    return Err(ChainError::StorageError);
                }
                if let Err(_) = db_insert(&mut db, hash_bytes.as_slice(), bytes.as_slice()) {
                    return Err(ChainError::StorageError);
                }
                if let Err(_) = db_flush(&db) {
                    return Err(ChainError::StorageError);
                }
                let tip = genesis.hash.clone();
                let ghost gchain: Seq<BlockV> = seq![genesis@];
                let bc = Blockchain { tip, db, chain: Ghost(gchain) };
                proof {
                    lemma_tip_key_len();
                    reveal_strlit("");
                    assert(""@ =~= Seq::<char>::empty());
                    crate::codec::lemma_block_round_trip(genesis@);
                    assert(bc.wf());
                }
                Ok(bc)
            },
        }
    }

    /// Opens the chain already at the store, walking it back from the tip
    /// to genesis and rejecting a store whose contents do not form a
    /// well-linked chain. A store with no chain is `ChainNotFound`.
    pub fn new(path: &str) -> (r: Result<Blockchain, ChainError>)
        ensures
            r matches Ok(bc) ==> bc.wf(),
            r matches Err(e) ==> (e == ChainError::ChainNotFound || e == ChainError::StorageError),
    {
        let db = match open_db(path) {
            Ok(d) => d,
            Err(_) => {
                return Err(ChainError::StorageError);
            },
        };
        let tip_bytes = match db_get(&db, "l".as_bytes()) {
            Ok(Some(v)) => v,
            Ok(None) => {
                return Err(ChainError::ChainNotFound);
            },
            Err(_) => {
                return Err(ChainError::StorageError);
            },
        };
        let tip = match crate::codec::string_from_utf8(tip_bytes) {
            Some(s) => s,
            None => {
                return Err(ChainError::StorageError);
            },
        };
        let ghost m = db_view(db);
        let mut cur: String = tip.clone();
        let mut seen: Vec<String> = Vec::new();
        let ghost mut rev: Seq<BlockV> = Seq::empty();
        let mut done: bool = false;
        let mut steps: u64 = 0;
        while !done
            invariant
                m == db_view(db),
                m.contains_key(tip_key()),
                m[tip_key()] == encode_utf8(tip@),
                seen@.len() == rev.len(),
                forall|i: int| 0 <= i < rev.len() ==> seen@[i]@ == (#[trigger] rev[i]).hash,
                rev.len() > 0 ==> rev[0].hash == tip@,
                !done ==> (rev.len() == 0 ==> cur@ == tip@),
                !done ==> (rev.len() > 0 ==> cur@ == rev[rev.len() - 1].prev_block_hash),
                forall|i: int|
                    0 <= i < rev.len() - 1 ==> (#[trigger] rev[i]).prev_block_hash == rev[i
                        + 1].hash,
                forall|i: int, j: int| 0 <= i < j < rev.len() ==> rev[i].hash != rev[j].hash,
                forall|i: int|
                    0 <= i < rev.len() ==> encode_utf8((#[trigger] rev[i]).hash).len() == 64,
                forall|i: int|
                    0 <= i < rev.len() ==> m.contains_key(encode_utf8((#[trigger] rev[i]).hash)),
                forall|i: int|
                    0 <= i < rev.len() ==> parse_block_exact(
                        m[encode_utf8((#[trigger] rev[i]).hash)],
                    ) == Some(rev[i]),
                forall|i: int, t: int|
                    0 <= i < rev.len() && 0 <= t < rev[i].transactions.len()
                        ==> crate::transaction::tx_values_ok(#[trigger] rev[i].transactions[t]),
                done ==> rev.len() >= 1,
                done ==> rev[rev.len() - 1].prev_block_hash == Seq::<char>::empty(),
            decreases u64::MAX - steps,
        {
            if steps == u64::MAX {
                return Err(ChainError::StorageError);
            }
            steps = steps + 1;
            let stored = match db_get(&db, cur.as_str().as_bytes()) {
                Ok(Some(v)) => v,
                _ => {
                    return Err(ChainError::StorageError);
                },
            };
            let block = match Block::deserialize(&stored) {
                Some(b) => b,
                None => {
                    return Err(ChainError::StorageError);
                },
            };
            if !(block.hash == cur) {
                return Err(ChainError::StorageError);
            }
            let hash_bytes = block.hash.as_str().as_bytes_vec();
            if hash_bytes.len() != 64 {
                return Err(ChainError::StorageError);
            }
            if contains_hash(&seen, &block.hash) {
                return Err(ChainError::StorageError);
            }
            if !check_tx_values(&block.transactions) {
                return Err(ChainError::StorageError);
            }
            let is_genesis = block.prev_block_hash.as_str().is_empty();
            seen.push(block.hash.clone());
            proof {
                assert(encode_utf8(block@.hash).len() == 64);
                rev = rev.push(block@);
                assert(rev[rev.len() - 1] == block@);
            }
            if is_genesis {
                proof {
                    assert(block@.prev_block_hash =~= Seq::<char>::empty());
                }
                done = true;
            } else {
                cur = block.prev_block_hash.clone();
            }
        }
        let ghost c = rev.reverse();
        let bc = Blockchain { tip, db, chain: Ghost(c) };
        proof {
            let n = rev.len() as int;
            assert(c.len() == n);
            assert forall|i: int| 0 <= i < n implies c[i] == rev[n - 1 - i] by {}
            assert(c[0] == rev[n - 1]);
            assert(c[n - 1] == rev[0]);
            assert forall|i: int| 1 <= i < n implies (#[trigger] c[i]).prev_block_hash == c[i
                - 1].hash by {
                assert(c[i] == rev[n - 1 - i]);
                assert(c[i - 1] == rev[n - i]);
                assert(rev[n - 1 - i].prev_block_hash == rev[n - i].hash);
            }
            lemma_tip_key_len();
            assert(bc.wf());
        }
        Ok(bc)
    }

    /// Seals a new block over the given transactions, whose predecessor is
    /// the block the tip names, persists it, and advances the tip. On
    /// success the chain grows by exactly that block.
    #[verifier::rlimit(60)]
    pub fn mine_block(&mut self, transactions: Vec<Transaction>) -> (r: Result<Block, ChainError>)
        requires
            old(self).wf(),
            forall|t: int|
                0 <= t < transactions@.len() ==> crate::transaction::tx_values_ok(
                    #[trigger] crate::transaction::txs_view(transactions@)[t],
                ),
        ensures
            r matches Ok(b) ==> {
                &&& final(self).wf()
                &&& final(self).spec_chain() == old(self).spec_chain().push(b@)
                &&& sealed(b@)
                &&& b@.transactions == crate::transaction::txs_view(transactions@)
                &&& b@.prev_block_hash == old(self).spec_chain()[old(self).spec_chain().len()
                    - 1].hash
            },
            r matches Err(e) ==> (e == ChainError::StorageError || e == ChainError::MiningExhausted),
            r == Err::<Block, ChainError>(ChainError::MiningExhausted) ==> exists|ts: i64|
                #[trigger] mining_exhausted(
                    old(self).spec_chain()[old(self).spec_chain().len() - 1].hash,
                    txs_view(transactions@),
                    ts,
                ),
    {
        let ghost c0 = self.chain@;
        proof {
            assert(parse_block_exact(
                db_view(self.db)[encode_utf8(c0[c0.len() - 1].hash)],
            ) == Some(c0[c0.len() - 1]));
        }
        let stored = match db_get(&self.db, self.tip.as_str().as_bytes()) {
            Ok(Some(v)) => v,
            _ => {
                return Err(ChainError::StorageError);
            },
        };
        let last_block = match Block::deserialize(&stored) {
            Some(b) => b,
            None => {
                proof {
                    assert(false);
                }
                return Err(ChainError::StorageError);
            },
        };
        proof {
            assert(last_block@ == c0[c0.len() - 1]);
        }
        let ghost txv = txs_view(transactions@);
        let new_block = match Block::new(transactions, last_block.hash.as_str()) {
            Ok(b) => b,
            Err(e) => {
                proof {
                    assert(last_block@.hash == c0[c0.len() - 1].hash);
                    let ts = choose|ts: i64| #[trigger] mining_exhausted(last_block.hash@, txv, ts);
                    assert(mining_exhausted(c0[c0.len() - 1].hash, txv, ts));
                    assert(c0 == old(self).spec_chain());
                    assert(exists|ts2: i64|
                        #[trigger] mining_exhausted(
                            old(self).spec_chain()[old(self).spec_chain().len() - 1].hash,
                            txv,
                            ts2,
                        ));
                }
                return Err(e);
            },
        };
        let new_hash_bytes = new_block.hash.as_str().as_bytes_vec();
        match db_get(&self.db, new_hash_bytes.as_slice()) {
            Ok(None) => {},
            _ => {
                return Err(ChainError::StorageError);
            },
        }
        if let Err(_) = db_insert(&mut self.db, "l".as_bytes(), new_hash_bytes.as_slice()) {
            return Err(ChainError::StorageError);
        }
        let bytes = new_block.serialize();
        if let Err(_) = db_insert(&mut self.db, new_hash_bytes.as_slice(), bytes.as_slice()) {
            return Err(ChainError::StorageError);
        }
        if let Err(_) = db_flush(&self.db) {
            return Err(ChainError::StorageError);
        }
        self.tip = new_block.hash.clone();
        proof {
            self.chain@ = c0.push(new_block@);
            lemma_tip_key_len();
            crate::codec::lemma_block_round_trip(new_block@);
            let c = self.chain@;
            assert forall|i: int| 0 <= i < c0.len() implies (#[trigger] c[i]) == c0[i] by {}
            assert(self.wf());
        }
        Ok(new_block)
    }

    /// Starts a fresh backward walk at the tip.
    pub fn iter(&self) -> (it: BlockchainIterator)
        requires
            self.wf(),
        ensures
            it.wf(),
            it.spec_chain() == self.spec_chain(),
            it.spec_pos() == self.spec_chain().len(),
    {
        BlockchainIterator {
            current_hash: self.tip.clone(),
            block_chain: self,
            pos: Ghost(self.chain@.len() as int),
        }
    }
}

/// Whether any string in `seen` reads the same as `h`.
fn contains_hash(seen: &Vec<String>, h: &String) -> (r: bool)
    ensures
        r == exists|i: int| 0 <= i < seen@.len() && seen@[i]@ == h@,
{
    let mut i: usize = 0;
    while i < seen.len()
        invariant
            i <= seen@.len(),
            forall|j: int| 0 <= j < i ==> seen@[j]@ != h@,
        decreases seen@.len() - i,
    {
        if seen[i] == *h {
            return true;
        }
        i += 1;
    }
    false
}

/// Whether every transaction's outputs are within the value bounds the
/// chain keeps.
fn check_tx_values(txs: &Vec<Transaction>) -> (r: bool)
    ensures
        r == forall|t: int|
            0 <= t < txs@.len() ==> crate::transaction::tx_values_ok(
                #[trigger] crate::transaction::txs_view(txs@)[t],
            ),
{
    let mut i: usize = 0;
    while i < txs.len()
        invariant
            i <= txs@.len(),
            forall|t: int|
                0 <= t < i ==> crate::transaction::tx_values_ok(
                    #[trigger] crate::transaction::txs_view(txs@)[t],
                ),
        decreases txs@.len() - i,
    {
        if !txs[i].values_ok() {
            proof {
                assert(crate::transaction::txs_view(txs@)[i as int] == txs@[i as int]@);
            }
            return false;
        }
        i += 1;
    }
    true
}

/// A lazy, one-pass backward walk from the tip to genesis; a fresh walk
/// starts again from the tip.
pub struct BlockchainIterator<'a> {
    current_hash: String,
    block_chain: &'a Blockchain,
    pos: Ghost<int>,
}

impl<'a> BlockchainIterator<'a> {
    /// The chain being walked.
    pub closed spec fn spec_chain(self) -> Seq<BlockV> {
        self.block_chain.spec_chain()
    }

    /// How many blocks are still to come: the next block yielded is
    /// `spec_chain()[spec_pos() - 1]`.
    pub closed spec fn spec_pos(self) -> int {
        self.pos@
    }

    pub closed spec fn wf(self) -> bool {
        &&& self.block_chain.wf()
        &&& 0 <= self.pos@ <= self.block_chain.spec_chain().len()
        &&& (self.pos@ > 0 ==> self.current_hash@ == self.block_chain.spec_chain()[self.pos@
            - 1].hash)
        &&& (self.pos@ == 0 ==> self.current_hash@.len() == 0)
    }

    /// One backward step: the block the cursor names, or `Ok(None)` once
    /// the genesis sentinel is reached; a store failure is an error.
    pub(crate) fn try_next(&mut self) -> (r: Result<Option<Block>, ChainError>)
        requires
            old(self).wf(),
        ensures
            final(self).wf(),
            final(self).spec_chain() == old(self).spec_chain(),
            r matches Ok(Some(b)) ==> old(self).spec_pos() > 0 && b@ == old(self).spec_chain()[old(
                self,
            ).spec_pos() - 1] && final(self).spec_pos() == old(self).spec_pos() - 1,
            r matches Ok(None) ==> old(self).spec_pos() == 0 && final(self).spec_pos() == 0,
            r is Err ==> final(self).spec_pos() == old(self).spec_pos(),
    {
        if self.current_hash.as_str().is_empty() {
            proof {
                if self.pos@ > 0 {
                    assert(self.current_hash@ =~= Seq::<char>::empty());
                    assert(encode_utf8(self.current_hash@) =~= Seq::<u8>::empty());
                }
            }
            return Ok(None);
        }
        let ghost c = self.block_chain.spec_chain();
        let ghost p = self.pos@;
        proof {
            if p == 0 {
                assert(self.current_hash@.len() == 0);
            }
            assert(parse_block_exact(
                db_view(self.block_chain.db)[encode_utf8(c[p - 1].hash)],
            ) == Some(c[p - 1]));
        }
        let stored = match db_get(&self.block_chain.db, self.current_hash.as_str().as_bytes()) {
            Ok(Some(v)) => v,
            Ok(None) => {
                proof {
                    assert(false);
                }
                return Err(ChainError::StorageError);
            },
            Err(_) => {
                return Err(ChainError::StorageError);
            },
        };
        let block = match Block::deserialize(&stored) {
            Some(b) => b,
            None => {
                proof {
                    assert(false);
                }
                return Err(ChainError::StorageError);
            },
        };
        proof {
            assert(block@ == c[p - 1]);
        }
        self.current_hash = block.prev_block_hash.clone();
        proof {
            self.pos@ = p - 1;
            if p - 1 > 0 {
                assert(c[p - 1].prev_block_hash == c[p - 2].hash);
            }
        }
        Ok(Some(block))
    }

    /// One backward step, storage failures folded into the end of the
    /// walk: `Some` until genesis has been yielded or the store fails.
    pub fn next(&mut self) -> (r: Option<Block>)
        requires
            old(self).wf(),
        ensures
            final(self).wf(),
            final(self).spec_chain() == old(self).spec_chain(),
            r matches Some(b) ==> old(self).spec_pos() > 0 && b@ == old(self).spec_chain()[old(
                self,
            ).spec_pos() - 1] && final(self).spec_pos() == old(self).spec_pos() - 1,
            old(self).spec_pos() == 0 ==> r is None,
    {
        match self.try_next() {
            Ok(Some(b)) => Some(b),
            _ => None,
        }
    }
}

/// Every transaction on a well-formed chain keeps the value bounds.
pub proof fn lemma_wf_values(bc: Blockchain)
    requires
        bc.wf(),
    ensures
        forall|i: int, t: int|
            0 <= i < bc.spec_chain().len() && 0 <= t < bc.spec_chain()[i].transactions.len()
                ==> crate::transaction::tx_values_ok(
                #[trigger] bc.spec_chain()[i].transactions[t],
            ),
{
}

/// Chain integrity: from the tip, following predecessor links walks every
/// block down to genesis, whose predecessor is the empty sentinel, and no
/// hash repeats along the way.
pub proof fn lemma_chain_integrity(bc: Blockchain)
    requires
        bc.wf(),
    ensures
        bc.spec_chain().len() >= 1,
        bc.spec_tip() == bc.spec_chain()[bc.spec_chain().len() - 1].hash,
        forall|i: int|
            1 <= i < bc.spec_chain().len() ==> (#[trigger] bc.spec_chain()[i]).prev_block_hash
                == bc.spec_chain()[i - 1].hash,
        bc.spec_chain()[0].prev_block_hash == Seq::<char>::empty(),
        forall|i: int, j: int|
            0 <= i < j < bc.spec_chain().len() ==> bc.spec_chain()[i].hash != bc.spec_chain()[
                j].hash,
{
}

} // verus!

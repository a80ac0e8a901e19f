//! Proof-of-work: search for the least nonce whose digest, read as a
//! big-endian integer, falls below the difficulty target.

use vstd::prelude::*;
use vstd::arithmetic::power2::{pow2, lemma_pow2_adds, lemma_pow2_strictly_increases, lemma2_to64};
use vstd::utf8::encode_utf8;
use crate::codec::{enc_u64, enc_i64};
use crate::errors::ChainError;
use crate::hashing::{sha256, sha256_of, to_hex, hex_bytes_of, hex_str_of};
use crate::transaction::{Transaction, TransactionV, txs_view};

verus! {

/// A byte string read as a big-endian unsigned integer.
pub open spec fn be_val(s: Seq<u8>) -> nat
    decreases s.len(),
{
    if s.len() == 0 {
        0
    } else {
        be_val(s.drop_last()) * 256 + (s.last() as nat)
    }
}

/// The difficulty test: the digest's value is strictly below
/// `2^(256 - bits)`.
pub open spec fn below_target(digest: Seq<u8>, bits: u32) -> bool
    recommends
        digest.len() == 32,
        bits <= 256,
{
    be_val(digest) < pow2((256 - bits) as nat)
}

/// The concatenated ids of a transaction list, in order.
pub open spec fn ids_bytes(txs: Seq<TransactionV>) -> Seq<u8>
    decreases txs.len(),
{
    if txs.len() == 0 {
        Seq::empty()
    } else {
        ids_bytes(txs.drop_last()) + encode_utf8(txs.last().id)
    }
}

/// The hex rendering of the digest of a block's transaction ids: what
/// commits a block to its transaction set.
pub open spec fn txs_digest_hex(txs: Seq<TransactionV>) -> Seq<u8> {
    hex_bytes_of(sha256_of(ids_bytes(txs)))
}

/// The bytes a candidate block hashes at a given nonce: predecessor hash,
/// transaction commitment, timestamp, difficulty, nonce.
pub open spec fn pow_data(
    prev: Seq<char>,
    txs: Seq<TransactionV>,
    timestamp: i64,
    bits: u32,
    nonce: u64,
) -> Seq<u8> {
    encode_utf8(prev) + txs_digest_hex(txs) + enc_i64(timestamp) + enc_u64(bits as u64) + enc_u64(
        nonce,
    )
}

/// The digest of a candidate block at a given nonce.
pub open spec fn pow_digest(
    prev: Seq<char>,
    txs: Seq<TransactionV>,
    timestamp: i64,
    bits: u32,
    nonce: u64,
) -> Seq<u8> {
    sha256_of(pow_data(prev, txs, timestamp, bits, nonce))
}

proof fn lemma_be_val_bound(s: Seq<u8>)
    ensures
        be_val(s) < pow2((8 * s.len()) as nat),
    decreases s.len(),
{
    if s.len() == 0 {
        lemma2_to64();
    } else {
        lemma_be_val_bound(s.drop_last());
        lemma_pow2_adds((8 * (s.len() - 1)) as nat, 8);
        lemma2_to64();
        assert(be_val(s.drop_last()) * 256 + s.last() < pow2((8 * (s.len() - 1)) as nat) * 256)
            by (nonlinear_arith)
            requires
                be_val(s.drop_last()) < pow2((8 * (s.len() - 1)) as nat),
                s.last() < 256,
        ;
    }
}

proof fn lemma_be_val_zero(s: Seq<u8>)
    requires
        forall|j: int| 0 <= j < s.len() ==> s[j] == 0,
    ensures
        be_val(s) == 0,
    decreases s.len(),
{
    if s.len() > 0 {
        lemma_be_val_zero(s.drop_last());
    }
}

proof fn lemma_be_val_split(s: Seq<u8>, k: int)
    requires
        0 <= k <= s.len(),
    ensures
        be_val(s) == be_val(s.take(k)) * pow2((8 * (s.len() - k)) as nat) + be_val(s.skip(k)),
    decreases s.len(),
{
    if k == s.len() {
        assert(s.take(k) =~= s);
        assert(s.skip(k) =~= Seq::<u8>::empty());
        lemma2_to64();
    } else {
        let dl = s.drop_last();
        lemma_be_val_split(dl, k);
        assert(dl.take(k) =~= s.take(k));
        assert(dl.skip(k) =~= s.skip(k).drop_last());
        assert(s.skip(k).last() == s.last());
        lemma_pow2_adds((8 * (s.len() - 1 - k)) as nat, 8);
        lemma2_to64();
        let a = be_val(s.take(k));
        let p = pow2((8 * (s.len() - 1 - k)) as nat);
        let b = be_val(dl.skip(k));
        let c = s.last();
        assert((a * p + b) * 256 + c == a * (p * 256) + (b * 256 + c)) by (nonlinear_arith);
    }
}

/// The first byte of a sequence weighs its value: a value below the whole.
proof fn lemma_be_val_first(s: Seq<u8>)
    requires
        s.len() > 0,
    ensures
        be_val(s) == s[0] * pow2((8 * (s.len() - 1)) as nat) + be_val(s.skip(1)),
{
    lemma_be_val_split(s, 1);
    let one = s.take(1);
    assert(one.drop_last() =~= Seq::<u8>::empty());
    assert(be_val(Seq::<u8>::empty()) == 0);
    assert(be_val(one) == s[0]);
}

/// The digest comparison is a prefix test: the value is below `2^(256 -
/// bits)` exactly when the first `bits` bits are zero.
proof fn lemma_below_target_prefix(s: Seq<u8>, bits: u32)
    requires
        s.len() == 32,
        bits <= 256,
    ensures
        below_target(s, bits) <==> {
            let full = (bits / 8) as int;
            let rem = (bits % 8) as int;
            (forall|j: int| 0 <= j < full ==> s[j] == 0) && (rem == 0 || s[full] < pow2(
                (8 - rem) as nat,
            ))
        },
{
    let full = (bits / 8) as int;
    let rem = (bits % 8) as int;
    assert(8 * full + rem == bits);
    if (forall|j: int| 0 <= j < full ==> s[j] == 0) && (rem == 0 || s[full] < pow2(
        (8 - rem) as nat,
    )) {
        lemma_be_val_split(s, full);
        lemma_be_val_zero(s.take(full));
        assert(be_val(s) == be_val(s.skip(full)));
        let t = s.skip(full);
        if rem == 0 {
            lemma_be_val_bound(t);
            assert((8 * t.len()) as nat == (256 - bits) as nat);
        } else {
            lemma_be_val_first(t);
            lemma_be_val_bound(t.skip(1));
            assert(t[0] == s[full]);
            let p = pow2((8 * (t.len() - 1)) as nat);
            lemma_pow2_adds((8 - rem) as nat, (8 * (t.len() - 1)) as nat);
            assert(t[0] * p + be_val(t.skip(1)) < pow2((8 - rem) as nat) * p) by (nonlinear_arith)
                requires
                    t[0] < pow2((8 - rem) as nat),
                    be_val(t.skip(1)) < p,
            ;
            assert((8 - rem) + 8 * (t.len() - 1) == 256 - bits);
        }
    } else {
        if exists|j: int| 0 <= j < full && s[j] != 0 {
            let j = choose|j: int| 0 <= j < full && s[j] != 0;
            lemma_be_val_split(s, j + 1);
            let head = s.take(j + 1);
            assert(head.last() == s[j]);
            assert(be_val(head) == be_val(head.drop_last()) * 256 + s[j]);
            assert(be_val(head) >= 1) by (nonlinear_arith)
                requires
                    be_val(head) == be_val(head.drop_last()) * 256 + s[j],
                    s[j] >= 1,
            ;
            let p = pow2((8 * (s.len() - j - 1)) as nat);
            assert(be_val(head) * p >= p) by (nonlinear_arith)
                requires
                    be_val(head) >= 1,
                    p >= 0,
            ;
            if (8 * (s.len() - j - 1)) as nat > (256 - bits) as nat {
                lemma_pow2_strictly_increases((256 - bits) as nat, (8 * (s.len() - j - 1)) as nat);
            }
            assert(be_val(s) >= pow2((256 - bits) as nat));
        } else {
            assert(rem != 0 && s[full] >= pow2((8 - rem) as nat));
            lemma_be_val_split(s, full);
            lemma_be_val_zero(s.take(full));
            let t = s.skip(full);
            lemma_be_val_first(t);
            assert(t[0] == s[full]);
            let p = pow2((8 * (t.len() - 1)) as nat);
            lemma_pow2_adds((8 - rem) as nat, (8 * (t.len() - 1)) as nat);
            assert(t[0] * p >= pow2((8 - rem) as nat) * p) by (nonlinear_arith)
                requires
                    t[0] >= pow2((8 - rem) as nat),
                    p >= 0,
            ;
            assert((8 - rem) + 8 * (t.len() - 1) == 256 - bits);
            assert(be_val(s) >= pow2((256 - bits) as nat));
        }
    }
}

/// Tests whether a 32-byte digest falls below the difficulty target.
fn digest_below_target(digest: &Vec<u8>, bits: u32) -> (r: bool)
    requires
        digest@.len() == 32,
        bits <= 256,
    ensures
        r == below_target(digest@, bits),
{
    proof {
        lemma_below_target_prefix(digest@, bits);
    }
    let full = (bits / 8) as usize;
    let rem = bits % 8;
    let mut i: usize = 0;
    while i < full
        invariant
            0 <= i <= full,
            full == bits / 8,
            bits <= 256,
            digest@.len() == 32,
            forall|j: int| 0 <= j < i ==> digest@[j] == 0,
        decreases full - i,
    {
        if digest[i] != 0 {
            proof {
                lemma_below_target_prefix(digest@, bits);
            }
            return false;
        }
        i += 1;
    }
    if rem == 0 {
        return true;
    }
    let limit: u8 = match rem {
        1 => 128,
        2 => 64,
        3 => 32,
        4 => 16,
        5 => 8,
        6 => 4,
        _ => 2,
    };
    proof {
        lemma2_to64();
        assert(limit == pow2((8 - rem) as nat));
    }
    digest[full] < limit
}

/// The proof-of-work engine for one candidate block: the pre-seal fields
/// and the difficulty they will be sealed under.
pub struct ProofOfWork {
    prev_block_hash: String,
    /// The hex digest of the candidate's transaction ids.
    tx_digest: Vec<u8>,
    timestamp: i64,
    target_bits: u32,
    /// The transactions the digest commits to.
    txs: Ghost<Seq<TransactionV>>,
}

impl ProofOfWork {
    /// The commitment field matches the remembered transactions, and the
    /// difficulty is meaningful.
    pub closed spec fn wf(self) -> bool {
        &&& self.tx_digest@ == txs_digest_hex(self.txs@)
        &&& self.target_bits <= 256
    }

    pub closed spec fn spec_prev(self) -> Seq<char> {
        self.prev_block_hash@
    }

    pub closed spec fn spec_txs(self) -> Seq<TransactionV> {
        self.txs@
    }

    pub closed spec fn spec_timestamp(self) -> i64 {
        self.timestamp
    }

    pub closed spec fn spec_target_bits(self) -> u32 {
        self.target_bits
    }

    /// Prepares the engine for a candidate block's fields.
    pub fn new(
        transactions: &Vec<Transaction>,
        prev_block_hash: &str,
        timestamp: i64,
        target_bits: u32,
    ) -> (p: ProofOfWork)
        requires
            target_bits <= 256,
        ensures
            p.wf(),
            p.spec_prev() == prev_block_hash@,
            p.spec_txs() == txs_view(transactions@),
            p.spec_timestamp() == timestamp,
            p.spec_target_bits() == target_bits,
    {
        let mut ids: Vec<u8> = Vec::new();
        let mut i: usize = 0;
        while i < transactions.len()
            invariant
                i <= transactions.len(),
                ids@ == ids_bytes(txs_view(transactions@.take(i as int))),
            decreases transactions.len() - i,
        {
            let id_bytes = transactions[i].id.as_str().as_bytes_vec();
            ids.extend_from_slice(id_bytes.as_slice());
            proof {
                assert(txs_view(transactions@.take(i + 1 as int)).drop_last() =~= txs_view(
                    transactions@.take(i as int),
                ));
                assert(txs_view(transactions@.take(i + 1 as int)).last() == transactions@[
                    i as int]@);
                assert(ids@ =~= ids_bytes(txs_view(transactions@.take(i + 1 as int))));
            }
            i += 1;
        }
        proof {
            assert(transactions@.take(transactions@.len() as int) =~= transactions@);
        }
        let digest = sha256(&ids);
        let hex = to_hex(&digest);
        let tx_digest = hex.as_str().as_bytes_vec();
        ProofOfWork {
            prev_block_hash: prev_block_hash.to_owned(),
            tx_digest,
            timestamp,
            target_bits,
            txs: Ghost(txs_view(transactions@)),
        }
    }

    /// The bytes hashed at one nonce.
    fn prepare_data(&self, nonce: u64) -> (r: Vec<u8>)
        requires
            self.wf(),
        ensures
            r@ == pow_data(
                self.spec_prev(),
                self.spec_txs(),
                self.spec_timestamp(),
                self.spec_target_bits(),
                nonce,
            ),
    {
        let mut out: Vec<u8> = self.prev_block_hash.as_str().as_bytes_vec();
        out.extend_from_slice(self.tx_digest.as_slice());
        crate::codec::write_i64(&mut out, self.timestamp);
        crate::codec::write_u64(&mut out, self.target_bits as u64);
        crate::codec::write_u64(&mut out, nonce);
        proof {
            assert(out@ =~= pow_data(
                self.spec_prev(),
                self.spec_txs(),
                self.spec_timestamp(),
                self.spec_target_bits(),
                nonce,
            ));
        }
        out
    }

    /// Searches nonces in increasing order from zero and returns the first
    /// that seals the block, with the block's hex hash. Reproducible: the
    /// result is pinned to the least satisfying nonce. Fails only when
    /// every nonce below `u64::MAX` misses the target.
    pub fn run(&self) -> (r: Result<(u64, String), ChainError>)
        requires
            self.wf(),
        ensures
            r matches Ok((nonce, hash)) ==> {
                let d = pow_digest(
                    self.spec_prev(),
                    self.spec_txs(),
                    self.spec_timestamp(),
                    self.spec_target_bits(),
                    nonce,
                );
                &&& below_target(d, self.spec_target_bits())
                &&& forall|m: u64|
                    m < nonce ==> !below_target(
                        pow_digest(
                            self.spec_prev(),
                            self.spec_txs(),
                            self.spec_timestamp(),
                            self.spec_target_bits(),
                            m,
                        ),
                        self.spec_target_bits(),
                    )
                &&& hash@ == hex_str_of(d)
                &&& encode_utf8(hash@) == hex_bytes_of(d)
                &&& encode_utf8(hash@).len() == 64
                &&& nonce < u64::MAX
            },
            r matches Err(e) ==> e == ChainError::MiningExhausted && forall|m: u64|
                m < u64::MAX ==> !below_target(
                    pow_digest(
                        self.spec_prev(),
                        self.spec_txs(),
                        self.spec_timestamp(),
                        self.spec_target_bits(),
                        m,
                    ),
                    self.spec_target_bits(),
                ),
    {
        let mut nonce: u64 = 0;
        while nonce < u64::MAX
            invariant
                self.wf(),
                forall|m: u64|
                    m < nonce ==> !below_target(
                        pow_digest(
                            self.spec_prev(),
                            self.spec_txs(),
                            self.spec_timestamp(),
                            self.spec_target_bits(),
                            m,
                        ),
                        self.spec_target_bits(),
                    ),
            decreases u64::MAX - nonce,
        {
            let data = self.prepare_data(nonce);
            let digest = sha256(&data);
            if digest_below_target(&digest, self.target_bits) {
                let hash = to_hex(&digest);
                return Ok((nonce, hash));
            }
            nonce += 1;
        }
        Err(ChainError::MiningExhausted)
    }
}

/// Proof-of-work is deterministic: two successful searches over the same
/// content, predecessor, timestamp and difficulty agree on the nonce.
pub proof fn lemma_pow_deterministic(
    prev: Seq<char>,
    txs: Seq<TransactionV>,
    timestamp: i64,
    bits: u32,
    n1: u64,
    n2: u64,
)
    requires
        below_target(pow_digest(prev, txs, timestamp, bits, n1), bits),
        forall|m: u64| m < n1 ==> !below_target(pow_digest(prev, txs, timestamp, bits, m), bits),
        below_target(pow_digest(prev, txs, timestamp, bits, n2), bits),
        forall|m: u64| m < n2 ==> !below_target(pow_digest(prev, txs, timestamp, bits, m), bits),
    ensures
        n1 == n2,
{
    if n1 < n2 {
        assert(!below_target(pow_digest(prev, txs, timestamp, bits, n1), bits));
    } else if n2 < n1 {
        assert(!below_target(pow_digest(prev, txs, timestamp, bits, n2), bits));
    }
}

} // verus!

//! The unspent-output resolver: walks the chain newest-to-oldest, marking
//! spends before the outputs they consume are examined.

use vstd::prelude::*;
use crate::block::BlockV;
use crate::blockchain::Blockchain;
use crate::errors::ChainError;
use crate::transaction::{Transaction, TransactionV, TxOutput, TxOutputV, spec_is_coinbase,
    tx_values_ok, txs_view, outs_view, MAX_MONEY};

verus! {

/// All transactions of a chain in scan order: newest block first, each
/// block's transactions in their stored order.
pub open spec fn chain_txs(c: Seq<BlockV>) -> Seq<TransactionV>
    decreases c.len(),
{
    if c.len() == 0 {
        Seq::empty()
    } else {
        c.last().transactions + chain_txs(c.drop_last())
    }
}

/// The spends among the first `n` inputs of a transaction that carry the
/// given credential: references as `(transaction id, output index)`.
pub open spec fn spends_below(t: TransactionV, addr: Seq<char>, n: int) -> Seq<(Seq<char>, i64)>
    decreases n,
{
    if n <= 0 {
        Seq::empty()
    } else {
        spends_below(t, addr, n - 1) + if t.v_in[n - 1].script_sig == addr {
            seq![(t.v_in[n - 1].tx_id, t.v_in[n - 1].v_out)]
        } else {
            Seq::empty()
        }
    }
}

/// What a transaction spends for the credential: nothing for a coinbase,
/// whose sentinel input is never checked.
pub open spec fn spends_of(t: TransactionV, addr: Seq<char>) -> Seq<(Seq<char>, i64)> {
    if spec_is_coinbase(t) {
        Seq::empty()
    } else {
        spends_below(t, addr, t.v_in.len() as int)
    }
}

/// The spends recorded by the first `k` transactions of the scan: the
/// newest ones, whose spends must suppress older outputs.
pub open spec fn spent_list(txs: Seq<TransactionV>, k: int, addr: Seq<char>) -> Seq<
    (Seq<char>, i64),
>
    decreases k,
{
    if k <= 0 {
        Seq::empty()
    } else {
        spent_list(txs, k - 1, addr) + spends_of(txs[k - 1], addr)
    }
}

pub open spec fn list_contains(l: Seq<(Seq<char>, i64)>, id: Seq<char>, idx: int) -> bool {
    exists|j: int| 0 <= j < l.len() && l[j].0 == id && l[j].1 == idx
}

/// Output `i` of scan transaction `k` is an unspent output for the
/// credential: it is locked to it and no newer transaction consumed it.
pub open spec fn utxo_at(txs: Seq<TransactionV>, k: int, i: int, addr: Seq<char>) -> bool {
    &&& 0 <= k < txs.len()
    &&& 0 <= i < txs[k].v_out.len()
    &&& txs[k].v_out[i].script_pub_key == addr
    &&& !list_contains(spent_list(txs, k, addr), txs[k].id, i)
}

pub open spec fn tx_has_utxo(txs: Seq<TransactionV>, k: int, addr: Seq<char>) -> bool {
    exists|i: int| utxo_at(txs, k, i, addr)
}

/// An unspent output as the resolver reports it: the owning transaction's
/// id, the output's index there, and the output itself.
#[verifier::ext_equal]
pub struct UtxoEntryV {
    pub tx_id: Seq<char>,
    pub out_idx: i64,
    pub output: TxOutputV,
}

pub open spec fn tx_entries_below(
    txs: Seq<TransactionV>,
    k: int,
    addr: Seq<char>,
    n: int,
) -> Seq<UtxoEntryV>
    decreases n,
{
    if n <= 0 {
        Seq::empty()
    } else {
        tx_entries_below(txs, k, addr, n - 1) + if utxo_at(txs, k, n - 1, addr) {
            seq![
                UtxoEntryV {
                    tx_id: txs[k].id,
                    out_idx: (n - 1) as i64,
                    output: txs[k].v_out[n - 1],
                },
            ]
        } else {
            Seq::empty()
        }
    }
}

pub open spec fn utxo_entries_upto(txs: Seq<TransactionV>, k: int, addr: Seq<char>) -> Seq<
    UtxoEntryV,
>
    decreases k,
{
    if k <= 0 {
        Seq::empty()
    } else {
        utxo_entries_upto(txs, k - 1, addr) + tx_entries_below(
            txs,
            k - 1,
            addr,
            txs[k - 1].v_out.len() as int,
        )
    }
}

/// Every unspent output of the chain for the credential, in scan order.
pub open spec fn chain_utxo_entries(c: Seq<BlockV>, addr: Seq<char>) -> Seq<UtxoEntryV> {
    utxo_entries_upto(chain_txs(c), chain_txs(c).len() as int, addr)
}

/// The unspent outputs themselves, in scan order.
pub open spec fn chain_utxos(c: Seq<BlockV>, addr: Seq<char>) -> Seq<TxOutputV> {
    chain_utxo_entries(c, addr).map_values(|e: UtxoEntryV| e.output)
}

pub open spec fn unspent_txs_upto(txs: Seq<TransactionV>, k: int, addr: Seq<char>) -> Seq<
    TransactionV,
>
    decreases k,
{
    if k <= 0 {
        Seq::empty()
    } else {
        unspent_txs_upto(txs, k - 1, addr) + if tx_has_utxo(txs, k - 1, addr) {
            seq![txs[k - 1]]
        } else {
            Seq::empty()
        }
    }
}

/// The transactions that still own an unspent output for the credential,
/// in scan order.
pub open spec fn chain_unspent_txs(c: Seq<BlockV>, addr: Seq<char>) -> Seq<TransactionV> {
    unspent_txs_upto(chain_txs(c), chain_txs(c).len() as int, addr)
}

/// The total value of a list of outputs.
pub open spec fn sum_values(outs: Seq<TxOutputV>) -> int
    decreases outs.len(),
{
    if outs.len() == 0 {
        0
    } else {
        sum_values(outs.drop_last()) + outs.last().value
    }
}

/// The greedy accumulation: take unspent outputs in scan order until the
/// running total reaches the amount, and report the total taken and the
/// references taken.
pub open spec fn greedy_pick(es: Seq<UtxoEntryV>, amount: int) -> (int, Seq<(Seq<char>, i64)>)
    decreases es.len(),
{
    if es.len() == 0 || amount <= 0 {
        (0, Seq::empty())
    } else {
        let rest = greedy_pick(es.drop_first(), amount - es.first().output.value);
        (es.first().output.value + rest.0, seq![(es.first().tx_id, es.first().out_idx)] + rest.1)
    }
}

/// A reference to one spendable output: the owning transaction's id and
/// the output's index there.
#[derive(Debug, Clone, PartialEq, Eq)]
pub struct OutputRef {
    pub tx_id: String,
    pub v_out: i64,
}

impl View for OutputRef {
    type V = (Seq<char>, i64);

    open spec fn view(&self) -> (Seq<char>, i64) {
        (self.tx_id@, self.v_out)
    }
}

pub open spec fn refs_view(s: Seq<OutputRef>) -> Seq<(Seq<char>, i64)> {
    s.map_values(|r: OutputRef| r@)
}

/// One row of the resolver's working set.
pub struct UtxoEntry {
    pub tx_id: String,
    pub out_idx: i64,
    pub output: TxOutput,
}

impl View for UtxoEntry {
    type V = UtxoEntryV;

    open spec fn view(&self) -> UtxoEntryV {
        UtxoEntryV { tx_id: self.tx_id@, out_idx: self.out_idx, output: self.output@ }
    }
}

pub open spec fn entries_view(s: Seq<UtxoEntry>) -> Seq<UtxoEntryV> {
    s.map_values(|e: UtxoEntry| e@)
}

// ------------------------------------------------------------------ lemmas

/// Consuming one more block during the walk appends its transactions to
/// the scanned prefix.
proof fn lemma_chain_txs_step(c: Seq<BlockV>, p: int)
    requires
        0 < p <= c.len(),
    ensures
        chain_txs(c.skip(p - 1)) == chain_txs(c.skip(p)) + c[p - 1].transactions,
    decreases c.len(),
{
    if p == c.len() {
        assert(c.skip(p) =~= Seq::<BlockV>::empty());
        assert(chain_txs(c.skip(p)) =~= Seq::<TransactionV>::empty());
        assert(c.skip(p - 1) =~= seq![c[p - 1]]);
        let single = c.skip(p - 1);
        assert(single.drop_last() =~= Seq::<BlockV>::empty());
        assert(chain_txs(single) =~= c[p - 1].transactions);
        assert(chain_txs(c.skip(p)) + c[p - 1].transactions =~= c[p - 1].transactions);
    } else {
        let dl = c.drop_last();
        lemma_chain_txs_step(dl, p);
        assert(c.skip(p - 1).drop_last() =~= dl.skip(p - 1));
        assert(c.skip(p).drop_last() =~= dl.skip(p));
        assert(c.skip(p - 1).last() == c[c.len() - 1]);
        assert(c.skip(p).last() == c[c.len() - 1]);
        assert(dl[p - 1] == c[p - 1]);
        assert(chain_txs(c.skip(p - 1)) == c[c.len() - 1].transactions + chain_txs(dl.skip(p - 1)));
        assert(chain_txs(c.skip(p)) == c[c.len() - 1].transactions + chain_txs(dl.skip(p)));
        assert(c[c.len() - 1].transactions + (chain_txs(dl.skip(p)) + c[p - 1].transactions) =~= (c[
            c.len() - 1].transactions + chain_txs(dl.skip(p))) + c[p - 1].transactions);
    }
}

/// The scan covers the whole chain: what the walk has consumed plus what
/// remains is all of it.
proof fn lemma_chain_txs_split(c: Seq<BlockV>, p: int)
    requires
        0 <= p <= c.len(),
    ensures
        chain_txs(c) == chain_txs(c.skip(p)) + chain_txs(c.take(p)),
    decreases p,
{
    if p == 0 {
        assert(c.skip(0) =~= c);
        assert(c.take(0) =~= Seq::<BlockV>::empty());
        assert(chain_txs(c.take(0)) =~= Seq::<TransactionV>::empty());
        assert(chain_txs(c.skip(0)) + chain_txs(c.take(0)) =~= chain_txs(c));
    } else {
        lemma_chain_txs_split(c, p - 1);
        lemma_chain_txs_step(c, p);
        assert(c.take(p).drop_last() =~= c.take(p - 1));
        assert(c.take(p).last() == c[p - 1]);
        assert(chain_txs(c.take(p)) == c[p - 1].transactions + chain_txs(c.take(p - 1)));
        assert((chain_txs(c.skip(p)) + c[p - 1].transactions) + chain_txs(c.take(p - 1)) =~= chain_txs(
            c.skip(p),
        ) + (c[p - 1].transactions + chain_txs(c.take(p - 1))));
    }
}

/// Every transaction of the scan keeps the chain's value bounds.
proof fn lemma_chain_txs_values_ok(c: Seq<BlockV>)
    requires
        forall|i: int, t: int|
            0 <= i < c.len() && 0 <= t < c[i].transactions.len() ==> tx_values_ok(
                #[trigger] c[i].transactions[t],
            ),
    ensures
        forall|k: int| 0 <= k < chain_txs(c).len() ==> tx_values_ok(#[trigger] chain_txs(c)[k]),
    decreases c.len(),
{
    if c.len() > 0 {
        let dl = c.drop_last();
        assert(forall|i: int, t: int|
            0 <= i < dl.len() && 0 <= t < dl[i].transactions.len() ==> tx_values_ok(
                #[trigger] dl[i].transactions[t],
            ));
        lemma_chain_txs_values_ok(dl);
        let last_txs = c[c.len() - 1].transactions;
        assert forall|k: int| 0 <= k < chain_txs(c).len() implies tx_values_ok(
            #[trigger] chain_txs(c)[k],
        ) by {
            if k < last_txs.len() {
                assert(chain_txs(c)[k] == c[c.len() - 1].transactions[k]);
            } else {
                assert(chain_txs(c)[k] == chain_txs(dl)[k - last_txs.len()]);
            }
        }
    }
}

// -------------------------------------------------------------- exec parts

fn clone_output(o: &TxOutput) -> (r: TxOutput)
    ensures
        r@ == o@,
{
    TxOutput { value: o.value, script_pub_key: o.script_pub_key.clone() }
}

fn clone_tx(t: &Transaction) -> (r: Transaction)
    ensures
        r@ == t@,
{
    let mut v_in: Vec<crate::transaction::TxInput> = Vec::new();
    let mut i: usize = 0;
    while i < t.v_in.len()
        invariant
            i <= t.v_in@.len(),
            v_in@.len() == i,
            forall|k: int| 0 <= k < i ==> (#[trigger] v_in@[k])@ == t.v_in@[k]@,
        decreases t.v_in@.len() - i,
    {
        let nin = crate::transaction::TxInput {
            tx_id: t.v_in[i].tx_id.clone(),
            v_out: t.v_in[i].v_out,
            script_sig: t.v_in[i].script_sig.clone(),
        };
        proof {
            assert(nin@ == t.v_in@[i as int]@);
        }
        v_in.push(nin);
        i += 1;
    }
    let mut v_out: Vec<TxOutput> = Vec::new();
    let mut j: usize = 0;
    while j < t.v_out.len()
        invariant
            j <= t.v_out@.len(),
            v_out@.len() == j,
            forall|k: int| 0 <= k < j ==> (#[trigger] v_out@[k])@ == t.v_out@[k]@,
        decreases t.v_out@.len() - j,
    {
        v_out.push(clone_output(&t.v_out[j]));
        j += 1;
    }
    proof {
        assert(crate::transaction::ins_view(v_in@) =~= crate::transaction::ins_view(t.v_in@));
        assert(outs_view(v_out@) =~= outs_view(t.v_out@));
    }
    Transaction { id: t.id.clone(), v_in, v_out }
}

/// Whether the recorded spends already name this output.
fn refs_contain(refs: &Vec<OutputRef>, id: &String, idx: i64) -> (r: bool)
    ensures
        r == list_contains(refs_view(refs@), id@, idx as int),
{
    let mut i: usize = 0;
    while i < refs.len()
        invariant
            i <= refs@.len(),
            forall|j: int|
                0 <= j < i ==> !((#[trigger] refs_view(refs@)[j]).0 == id@ && refs_view(refs@)[j].1
                    == idx),
        decreases refs@.len() - i,
    {
        if refs[i].tx_id == *id && refs[i].v_out == idx {
            proof {
                assert(refs_view(refs@)[i as int].0 == id@);
            }
            return true;
        }
        proof {
            assert(refs_view(refs@)[i as int] == refs@[i as int]@);
        }
        i += 1;
    }
    false
}

impl Blockchain {
    /// Walks the chain from the tip and collects, for the credential, the
    /// transactions that still own an unspent output and every unspent
    /// output itself, both in scan order.
    fn scan_unspent(&self, address: &str) -> (r: Result<
        (Vec<Transaction>, Vec<UtxoEntry>),
        ChainError,
    >)
        requires
            self.wf(),
        ensures
            r matches Ok((utx, ents)) ==> {
                let txs = chain_txs(self.spec_chain());
                &&& txs_view(utx@) == chain_unspent_txs(self.spec_chain(), address@)
                &&& entries_view(ents@) == chain_utxo_entries(self.spec_chain(), address@)
                &&& forall|e: int|
                    0 <= e < ents@.len() ==> 0 <= (#[trigger] entries_view(ents@)[e]).output.value
                        <= MAX_MONEY
            },
            r matches Err(e) ==> e == ChainError::StorageError,
    {
        let ghost c = self.spec_chain();
        let ghost txs = chain_txs(c);
        let ghost addr = address@;
        proof {
            crate::blockchain::lemma_wf_values(*self);
            lemma_chain_txs_values_ok(c);
        }
        let mut it = self.iter();
        let mut unspent: Vec<Transaction> = Vec::new();
        let mut ents: Vec<UtxoEntry> = Vec::new();
        let mut spent: Vec<OutputRef> = Vec::new();
        let ghost mut kk: int = 0;
        proof {
            assert(c.skip(c.len() as int) =~= Seq::<BlockV>::empty());
            assert(chain_txs(c.skip(c.len() as int)) =~= Seq::<TransactionV>::empty());
        }
        let mut done: bool = false;
        while !done
            invariant
                self.wf(),
                it.wf(),
                it.spec_chain() == c,
                c == self.spec_chain(),
                txs == chain_txs(c),
                addr == address@,
                forall|k: int| 0 <= k < txs.len() ==> tx_values_ok(#[trigger] txs[k]),
                0 <= it.spec_pos() <= c.len(),
                done ==> it.spec_pos() == 0,
                kk == chain_txs(c.skip(it.spec_pos())).len(),
                kk <= txs.len(),
                txs_view(unspent@) == unspent_txs_upto(txs, kk, addr),
                entries_view(ents@) == utxo_entries_upto(txs, kk, addr),
                refs_view(spent@) == spent_list(txs, kk, addr),
                forall|e: int|
                    0 <= e < ents@.len() ==> 0 <= (#[trigger] entries_view(ents@)[e]).output.value
                        <= MAX_MONEY,
            decreases it.spec_pos() + (if done {
                0int
            } else {
                1int
            }),
        {
            let ghost p0 = it.spec_pos();
            let next = match it.try_next() {
                Ok(n) => n,
                Err(_) => {
                    return Err(ChainError::StorageError);
                },
            };
            let block = match next {
                Some(b) => b,
                None => {
                    done = true;
                    continue;
                },
            };
            let ghost kk0 = kk;
            proof {
                lemma_chain_txs_step(c, p0);
                lemma_chain_txs_split(c, p0);
                assert(chain_txs(c) == chain_txs(c.skip(p0)) + chain_txs(c.take(p0)));
                assert(chain_txs(c.skip(p0 - 1)) == chain_txs(c.skip(p0)) + block@.transactions);
                lemma_chain_txs_split(c, p0 - 1);
                assert forall|jj: int| 0 <= jj < block@.transactions.len() implies txs[kk0 + jj]
                    == block@.transactions[jj] by {
                    assert(txs[kk0 + jj] == chain_txs(c.skip(p0 - 1))[kk0 + jj]);
                }
                assert(kk0 + block@.transactions.len() <= txs.len());
            }
            let mut j: usize = 0;
            while j < block.transactions.len()
                invariant
                    j <= block.transactions@.len(),
                    txs == chain_txs(c),
                    addr == address@,
                    forall|k: int| 0 <= k < txs.len() ==> tx_values_ok(#[trigger] txs[k]),
                    kk0 + block@.transactions.len() <= txs.len(),
                    kk0 >= 0,
                    forall|jj: int|
                        0 <= jj < block@.transactions.len() ==> txs[kk0 + jj]
                            == block@.transactions[jj],
                    block@.transactions.len() == block.transactions@.len(),
                    txs_view(unspent@) == unspent_txs_upto(txs, kk0 + j, addr),
                    entries_view(ents@) == utxo_entries_upto(txs, kk0 + j, addr),
                    refs_view(spent@) == spent_list(txs, kk0 + j, addr),
                    forall|e: int|
                        0 <= e < ents@.len() ==> 0 <= (#[trigger] entries_view(
                            ents@,
                        )[e]).output.value <= MAX_MONEY,
                decreases block.transactions@.len() - j,
            {
                let t = &block.transactions[j];
                let ghost gk = kk0 + j;
                proof {
                    assert(txs[gk] == block@.transactions[j as int]);
                    assert(txs[gk] == t@);
                    assert(tx_values_ok(txs[gk]));
                }
                let mut found: bool = false;
                let mut i: usize = 0;
                while i < t.v_out.len()
                    invariant
                        i <= t.v_out@.len(),
                        txs == chain_txs(c),
                        addr == address@,
                        0 <= gk < txs.len(),
                        txs[gk] == t@,
                        tx_values_ok(txs[gk]),
                        t@.v_out.len() == t.v_out@.len(),
                        entries_view(ents@) == utxo_entries_upto(txs, gk, addr)
                            + tx_entries_below(txs, gk, addr, i as int),
                        found == exists|ii: int| 0 <= ii < i && utxo_at(txs, gk, ii, addr),
                        refs_view(spent@) == spent_list(txs, gk, addr),
                        forall|e: int|
                            0 <= e < ents@.len() ==> 0 <= (#[trigger] entries_view(
                                ents@,
                            )[e]).output.value <= MAX_MONEY,
                    decreases t.v_out@.len() - i,
                {
                    let already_spent = refs_contain(&spent, &t.id, i as i64);
                    let unlocks = t.v_out[i].can_be_unlocked_with(address);
                    proof {
                        assert(t@.v_out[i as int] == t.v_out@[i as int]@);
                        assert((i as i64) as int == i as int);
                        assert(utxo_at(txs, gk, i as int, addr) == (unlocks && !already_spent));
                    }
                    if unlocks && !already_spent {
                        let entry = UtxoEntry {
                            tx_id: t.id.clone(),
                            out_idx: i as i64,
                            output: clone_output(&t.v_out[i]),
                        };
                        let ghost ev0 = entries_view(ents@);
                        let ghost ev = entry@;
                        proof {
                            assert(ev == UtxoEntryV {
                                tx_id: txs[gk].id,
                                out_idx: i as i64,
                                output: txs[gk].v_out[i as int],
                            });
                        }
                        ents.push(entry);
                        proof {
                            assert(entries_view(ents@) =~= ev0.push(ev));
                            assert(tx_entries_below(txs, gk, addr, i + 1 as int)
                                =~= tx_entries_below(txs, gk, addr, i as int) + seq![ev]);
                            assert((utxo_entries_upto(txs, gk, addr) + tx_entries_below(
                                txs,
                                gk,
                                addr,
                                i as int,
                            )).push(ev) =~= utxo_entries_upto(txs, gk, addr) + (tx_entries_below(
                                txs,
                                gk,
                                addr,
                                i as int,
                            ) + seq![ev]));
                        }
                        found = true;
                    } else {
                        proof {
                            assert(tx_entries_below(txs, gk, addr, i + 1 as int)
                                =~= tx_entries_below(txs, gk, addr, i as int));
                        }
                    }
                    i += 1;
                }
                proof {
                    assert(tx_entries_below(txs, gk, addr, t.v_out@.len() as int)
                        == tx_entries_below(txs, gk, addr, txs[gk].v_out.len() as int));
                    assert(entries_view(ents@) =~= utxo_entries_upto(txs, gk + 1, addr));
                    assert(found == tx_has_utxo(txs, gk, addr)) by {
                        if found {
                        } else {
                            assert forall|ii: int| !utxo_at(txs, gk, ii, addr) by {
                                if 0 <= ii < t.v_out@.len() {
                                    assert(!utxo_at(txs, gk, ii, addr));
                                }
                            }
                        }
                    }
                }
                if found {
                    let copy = clone_tx(t);
                    let ghost uv0 = txs_view(unspent@);
                    let ghost uv = copy@;
                    unspent.push(copy);
                    proof {
                        assert(txs_view(unspent@) =~= uv0.push(uv));
                        assert(unspent_txs_upto(txs, gk + 1, addr) =~= unspent_txs_upto(
                            txs,
                            gk,
                            addr,
                        ) + seq![txs[gk]]);
                        assert(uv0.push(uv) =~= uv0 + seq![txs[gk]]);
                    }
                } else {
                    proof {
                        assert(unspent_txs_upto(txs, gk + 1, addr) =~= unspent_txs_upto(
                            txs,
                            gk,
                            addr,
                        ));
                    }
                }
                if !t.is_coinbase() {
                    let mut ii: usize = 0;
                    while ii < t.v_in.len()
                        invariant
                            ii <= t.v_in@.len(),
                            txs == chain_txs(c),
                            addr == address@,
                            0 <= gk < txs.len(),
                            txs[gk] == t@,
                            t@.v_in.len() == t.v_in@.len(),
                            !spec_is_coinbase(t@),
                            refs_view(spent@) == spent_list(txs, gk, addr) + spends_below(
                                t@,
                                addr,
                                ii as int,
                            ),
                        decreases t.v_in@.len() - ii,
                    {
                        proof {
                            assert(t@.v_in[ii as int] == t.v_in@[ii as int]@);
                        }
                        if t.v_in[ii].can_unlock_output_with(address) {
                            let sref = OutputRef {
                                tx_id: t.v_in[ii].tx_id.clone(),
                                v_out: t.v_in[ii].v_out,
                            };
                            let ghost sv0 = refs_view(spent@);
                            let ghost sv = sref@;
                            proof {
                                assert(sv == (t@.v_in[ii as int].tx_id, t@.v_in[ii as int].v_out));
                            }
                            spent.push(sref);
                            proof {
                                assert(refs_view(spent@) =~= sv0.push(sv));
                                assert(spends_below(t@, addr, ii + 1 as int) =~= spends_below(
                                    t@,
                                    addr,
                                    ii as int,
                                ) + seq![sv]);
                                assert((spent_list(txs, gk, addr) + spends_below(
                                    t@,
                                    addr,
                                    ii as int,
                                )).push(sv) =~= spent_list(txs, gk, addr) + (spends_below(
                                    t@,
                                    addr,
                                    ii as int,
                                ) + seq![sv]));
                            }
                        } else {
                            proof {
                                assert(spends_below(t@, addr, ii + 1 as int) =~= spends_below(
                                    t@,
                                    addr,
                                    ii as int,
                                ));
                            }
                        }
                        ii += 1;
                    }
                    proof {
                        assert(spends_below(t@, addr, t.v_in@.len() as int) == spends_of(
                            txs[gk],
                            addr,
                        ));
                        assert(refs_view(spent@) =~= spent_list(txs, gk + 1, addr));
                    }
                } else {
                    proof {
                        assert(spends_of(txs[gk], addr) =~= Seq::<(Seq<char>, i64)>::empty());
                        assert(refs_view(spent@) =~= spent_list(txs, gk + 1, addr));
                    }
                }
                j += 1;
            }
            proof {
                kk = kk0 + block@.transactions.len();
            }
        }
        proof {
            assert(c.skip(0) =~= c);
            assert(kk == txs.len());
        }
        Ok((unspent, ents))
    }

    /// The transactions that still own an unspent output unlockable with
    /// `address`, newest first.
    pub fn find_unspent_transactions(&self, address: &str) -> (r: Result<
        Vec<Transaction>,
        ChainError,
    >)
        requires
            self.wf(),
        ensures
            r matches Ok(v) ==> txs_view(v@) == chain_unspent_txs(self.spec_chain(), address@),
            r matches Err(e) ==> e == ChainError::StorageError,
    {
        match self.scan_unspent(address) {
            Ok((unspent, _)) => Ok(unspent),
            Err(e) => Err(e),
        }
    }

    /// Every unspent output unlockable with `address`: the balance is
    /// their total value.
    pub fn find_utxo(&self, address: &str) -> (r: Result<Vec<TxOutput>, ChainError>)
        requires
            self.wf(),
        ensures
            r matches Ok(v) ==> outs_view(v@) == chain_utxos(self.spec_chain(), address@),
            r matches Err(e) ==> e == ChainError::StorageError,
    {
        let ents = match self.scan_unspent(address) {
            Ok((_, ents)) => ents,
            Err(e) => {
                return Err(e);
            },
        };
        let mut outs: Vec<TxOutput> = Vec::new();
        let mut i: usize = 0;
        while i < ents.len()
            invariant
                i <= ents@.len(),
                entries_view(ents@) == chain_utxo_entries(self.spec_chain(), address@),
                outs_view(outs@) == entries_view(ents@).take(i as int).map_values(
                    |e: UtxoEntryV| e.output,
                ),
            decreases ents@.len() - i,
        {
            let o = clone_output(&ents[i].output);
            let ghost ov0 = outs_view(outs@);
            let ghost ov = o@;
            proof {
                assert(ov == entries_view(ents@)[i as int].output);
            }
            outs.push(o);
            proof {
                assert(outs_view(outs@) =~= ov0.push(ov));
                assert(entries_view(ents@).take(i + 1 as int) =~= entries_view(ents@).take(
                    i as int,
                ).push(entries_view(ents@)[i as int]));
                assert(entries_view(ents@).take(i as int).push(
                    entries_view(ents@)[i as int],
                ).map_values(|e: UtxoEntryV| e.output) =~= entries_view(ents@).take(
                    i as int,
                ).map_values(|e: UtxoEntryV| e.output).push(ov));
            }
            i += 1;
        }
        proof {
            assert(entries_view(ents@).take(ents@.len() as int) =~= entries_view(ents@));
        }
        Ok(outs)
    }

    /// Greedily accumulates unspent outputs of `address`, in scan order,
    /// until the total reaches `amount`; returns the accumulated total and
    /// the references taken. The order is stable, not value-optimized.
    pub fn find_spendable_outputs(&self, address: &str, amount: i64) -> (r: Result<
        (i64, Vec<OutputRef>),
        ChainError,
    >)
        requires
            self.wf(),
            0 <= amount <= MAX_MONEY,
        ensures
            r matches Ok((acc, refs)) ==> {
                let picked = greedy_pick(chain_utxo_entries(self.spec_chain(), address@),
                    amount as int);
                &&& acc == picked.0
                &&& refs_view(refs@) == picked.1
                &&& acc < amount + MAX_MONEY
            },
            r matches Err(e) ==> e == ChainError::StorageError,
    {
        let ents = match self.scan_unspent(address) {
            Ok((_, ents)) => ents,
            Err(e) => {
                return Err(e);
            },
        };
        let ghost evs = entries_view(ents@);
        let mut acc: i64 = 0;
        let mut refs: Vec<OutputRef> = Vec::new();
        let mut i: usize = 0;
        proof {
            assert(evs.skip(0) =~= evs);
        }
        while i < ents.len() && acc < amount
            invariant
                i <= ents@.len(),
                evs == entries_view(ents@),
                evs == chain_utxo_entries(self.spec_chain(), address@),
                forall|e: int|
                    0 <= e < ents@.len() ==> 0 <= (#[trigger] entries_view(ents@)[e]).output.value
                        <= MAX_MONEY,
                0 <= acc < amount + MAX_MONEY,
                0 <= amount <= MAX_MONEY,
                greedy_pick(evs, amount as int) == {
                    let rest = greedy_pick(evs.skip(i as int), amount - acc);
                    (acc + rest.0, refs_view(refs@) + rest.1)
                },
            decreases ents@.len() - i,
        {
            let e = &ents[i];
            proof {
                assert(evs.skip(i as int).first() == evs[i as int]);
                assert(evs.skip(i as int).drop_first() =~= evs.skip(i + 1 as int));
                assert(evs[i as int] == ents@[i as int]@);
                let rest2 = greedy_pick(evs.skip(i + 1 as int), amount - acc - evs[i as int].output.value);
                assert(refs_view(refs@) + (seq![(evs[i as int].tx_id, evs[i as int].out_idx)]
                    + rest2.1) =~= (refs_view(refs@) + seq![
                    (evs[i as int].tx_id, evs[i as int].out_idx),
                ]) + rest2.1);
            }
            let ghost refs0 = refs_view(refs@);
            acc = acc + e.output.value;
            refs.push(OutputRef { tx_id: e.tx_id.clone(), v_out: e.out_idx });
            proof {
                assert(refs_view(refs@) =~= refs0 + seq![
                    (evs[i as int].tx_id, evs[i as int].out_idx),
                ]);
            }
            i += 1;
        }
        proof {
            if i == ents@.len() && acc < amount {
                assert(evs.skip(i as int) =~= Seq::<UtxoEntryV>::empty());
            }
            assert(refs_view(refs@) + Seq::<(Seq<char>, i64)>::empty() =~= refs_view(refs@));
        }
        Ok((acc, refs))
    }
}


/// The greedy total equals the sum of every unspent output whenever it
/// falls short of the amount: stopping early only happens at or above it.
pub proof fn lemma_greedy_short_is_total(es: Seq<UtxoEntryV>, amount: int)
    ensures
        greedy_pick(es, amount).0 < amount ==> greedy_pick(es, amount).0 == sum_entry_values(es),
    decreases es.len(),
{
    if es.len() == 0 || amount <= 0 {
    } else {
        lemma_greedy_short_is_total(es.drop_first(), amount - es.first().output.value);
        assert(sum_entry_values(es) == es.first().output.value + sum_entry_values(
            es.drop_first(),
        ));
    }
}

/// The total value of a list of unspent entries, front first.
pub open spec fn sum_entry_values(es: Seq<UtxoEntryV>) -> int
    decreases es.len(),
{
    if es.len() == 0 {
        0
    } else {
        es.first().output.value + sum_entry_values(es.drop_first())
    }
}

/// The two sums agree: outputs of the entries, summed either way.
pub proof fn lemma_sum_entries_outputs(es: Seq<UtxoEntryV>)
    ensures
        sum_entry_values(es) == sum_values(es.map_values(|e: UtxoEntryV| e.output)),
    decreases es.len(),
{
    if es.len() > 0 {
        lemma_sum_entries_outputs(es.drop_first());
        let outs = es.map_values(|e: UtxoEntryV| e.output);
        assert(outs.drop_last() =~= es.drop_last().map_values(|e: UtxoEntryV| e.output));
        lemma_sum_values_first(outs);
        assert(es.drop_first().map_values(|e: UtxoEntryV| e.output) =~= outs.drop_first());
    }
}

/// Summing outputs front-first or back-first gives the same total.
proof fn lemma_sum_values_first(outs: Seq<TxOutputV>)
    requires
        outs.len() > 0,
    ensures
        sum_values(outs) == outs.first().value + sum_values(outs.drop_first()),
    decreases outs.len(),
{
    if outs.len() == 1 {
        assert(outs.drop_first() =~= Seq::<TxOutputV>::empty());
        assert(outs.drop_last() =~= Seq::<TxOutputV>::empty());
    } else {
        lemma_sum_values_first(outs.drop_last());
        assert(outs.drop_last().first() == outs.first());
        assert(outs.drop_last().drop_first() =~= outs.drop_first().drop_last());
        assert(outs.drop_first().last() == outs.last());
        assert(sum_values(outs.drop_first()) == sum_values(outs.drop_first().drop_last())
            + outs.last().value);
    }
}

proof fn lemma_sum_entry_values_nonneg(es: Seq<UtxoEntryV>)
    requires
        forall|e: int| 0 <= e < es.len() ==> (#[trigger] es[e]).output.value >= 0,
    ensures
        sum_entry_values(es) >= 0,
    decreases es.len(),
{
    if es.len() > 0 {
        assert(forall|e: int|
            0 <= e < es.drop_first().len() ==> (#[trigger] es.drop_first()[e]).output.value >= 0);
        lemma_sum_entry_values_nonneg(es.drop_first());
    }
}

/// The greedy total never exceeds the total unspent value.
pub proof fn lemma_greedy_at_most_total(es: Seq<UtxoEntryV>, amount: int)
    requires
        forall|e: int| 0 <= e < es.len() ==> (#[trigger] es[e]).output.value >= 0,
    ensures
        greedy_pick(es, amount).0 <= sum_entry_values(es),
    decreases es.len(),
{
    if es.len() == 0 || amount <= 0 {
        lemma_sum_entry_values_nonneg(es);
    } else {
        assert(forall|e: int|
            0 <= e < es.drop_first().len() ==> (#[trigger] es.drop_first()[e]).output.value >= 0);
        lemma_greedy_at_most_total(es.drop_first(), amount - es.first().output.value);
    }
}

proof fn lemma_tx_entries_below_bounds(txs: Seq<TransactionV>, k: int, addr: Seq<char>, n: int)
    requires
        0 <= k < txs.len(),
        tx_values_ok(txs[k]),
        n <= txs[k].v_out.len(),
    ensures
        forall|e: int|
            0 <= e < tx_entries_below(txs, k, addr, n).len() ==> 0 <= (#[trigger] tx_entries_below(
                txs,
                k,
                addr,
                n,
            )[e]).output.value <= MAX_MONEY,
    decreases n,
{
    if n > 0 {
        lemma_tx_entries_below_bounds(txs, k, addr, n - 1);
        let prev = tx_entries_below(txs, k, addr, n - 1);
        let cur = tx_entries_below(txs, k, addr, n);
        assert forall|e: int| 0 <= e < cur.len() implies 0 <= (#[trigger] cur[e]).output.value
            <= MAX_MONEY by {
            if e < prev.len() {
                assert(cur[e] == prev[e]);
            } else {
                assert(cur[e].output == txs[k].v_out[n - 1]);
            }
        }
    }
}

proof fn lemma_utxo_entries_upto_bounds(txs: Seq<TransactionV>, k: int, addr: Seq<char>)
    requires
        forall|j: int| 0 <= j < txs.len() ==> tx_values_ok(#[trigger] txs[j]),
        k <= txs.len(),
    ensures
        forall|e: int|
            0 <= e < utxo_entries_upto(txs, k, addr).len() ==> 0 <= (#[trigger] utxo_entries_upto(
                txs,
                k,
                addr,
            )[e]).output.value <= MAX_MONEY,
    decreases k,
{
    if k > 0 {
        lemma_utxo_entries_upto_bounds(txs, k - 1, addr);
        lemma_tx_entries_below_bounds(txs, k - 1, addr, txs[k - 1].v_out.len() as int);
        let prev = utxo_entries_upto(txs, k - 1, addr);
        let block_part = tx_entries_below(txs, k - 1, addr, txs[k - 1].v_out.len() as int);
        let cur = utxo_entries_upto(txs, k, addr);
        assert forall|e: int| 0 <= e < cur.len() implies 0 <= (#[trigger] cur[e]).output.value
            <= MAX_MONEY by {
            if e < prev.len() {
                assert(cur[e] == prev[e]);
            } else {
                assert(cur[e] == block_part[e - prev.len()]);
            }
        }
    }
}

/// Every unspent entry of a well-formed chain keeps the value bounds.
pub proof fn lemma_chain_entries_bounds(bc: Blockchain, addr: Seq<char>)
    requires
        bc.wf(),
    ensures
        forall|e: int|
            0 <= e < chain_utxo_entries(bc.spec_chain(), addr).len() ==> 0 <= (
            #[trigger] chain_utxo_entries(bc.spec_chain(), addr)[e]).output.value <= MAX_MONEY,
{
    crate::blockchain::lemma_wf_values(bc);
    lemma_chain_txs_values_ok(bc.spec_chain());
    let txs = chain_txs(bc.spec_chain());
    lemma_utxo_entries_upto_bounds(txs, txs.len() as int, addr);
}

impl Transaction {
    /// Builds a transfer of `amount` from `from` to `to`: consumes the
    /// greedily chosen unspent outputs of `from`, pays `amount` to `to`,
    /// and returns any excess to `from` as change. Fails with
    /// `InsufficientFunds` exactly when the unspent total of `from` is
    /// below `amount`.
    pub fn new_utxo_transaction(
        from: &str,
        to: &str,
        amount: i64,
        blockchain: &Blockchain,
    ) -> (r: Result<Transaction, ChainError>)
        requires
            blockchain.wf(),
            0 <= amount <= MAX_MONEY,
        ensures
            r matches Ok(tx) ==> {
                let picked = greedy_pick(
                    chain_utxo_entries(blockchain.spec_chain(), from@),
                    amount as int,
                );
                &&& picked.0 >= amount
                &&& tx@.v_in.len() == picked.1.len()
                &&& forall|j: int|
                    0 <= j < picked.1.len() ==> (#[trigger] tx@.v_in[j]).tx_id == picked.1[j].0
                        && tx@.v_in[j].v_out == picked.1[j].1 && tx@.v_in[j].script_sig == from@
                &&& tx@.v_out[0].value == amount
                &&& tx@.v_out[0].script_pub_key == to@
                &&& (picked.0 > amount ==> tx@.v_out.len() == 2 && tx@.v_out[1].value == picked.0
                    - amount && tx@.v_out[1].script_pub_key == from@)
                &&& (picked.0 == amount ==> tx@.v_out.len() == 1)
                &&& crate::transaction::tx_id_ok(tx@)
                &&& crate::transaction::tx_values_ok(tx@)
            },
            r == Err::<Transaction, ChainError>(ChainError::InsufficientFunds) ==> sum_values(
                chain_utxos(blockchain.spec_chain(), from@),
            ) < amount,
            r is Ok ==> sum_values(chain_utxos(blockchain.spec_chain(), from@)) >= amount,
            r matches Err(e) ==> (e == ChainError::InsufficientFunds || e
                == ChainError::StorageError),
    {
        let (acc, refs) = match blockchain.find_spendable_outputs(from, amount) {
            Ok(p) => p,
            Err(_) => {
                return Err(ChainError::StorageError);
            },
        };
        if acc < amount {
            proof {
                let es = chain_utxo_entries(blockchain.spec_chain(), from@);
                lemma_greedy_short_is_total(es, amount as int);
                lemma_sum_entries_outputs(es);
            }
            return Err(ChainError::InsufficientFunds);
        }
        proof {
            let es = chain_utxo_entries(blockchain.spec_chain(), from@);
            lemma_chain_entries_bounds(*blockchain, from@);
            lemma_greedy_at_most_total(es, amount as int);
            lemma_sum_entries_outputs(es);
        }
        let mut inputs: Vec<crate::transaction::TxInput> = Vec::new();
        let mut i: usize = 0;
        while i < refs.len()
            invariant
                i <= refs@.len(),
                inputs@.len() == i,
                forall|k: int|
                    0 <= k < i ==> (#[trigger] inputs@[k])@.tx_id == refs_view(refs@)[k].0
                        && inputs@[k]@.v_out == refs_view(refs@)[k].1 && inputs@[k]@.script_sig
                        == from@,
            decreases refs@.len() - i,
        {
            let nin = crate::transaction::TxInput {
                tx_id: refs[i].tx_id.clone(),
                v_out: refs[i].v_out,
                script_sig: from.to_owned(),
            };
            proof {
                assert(refs_view(refs@)[i as int] == refs@[i as int]@);
            }
            inputs.push(nin);
            i += 1;
        }
        let mut outputs: Vec<TxOutput> = Vec::new();
        outputs.push(TxOutput { value: amount, script_pub_key: to.to_owned() });
        if acc > amount {
            outputs.push(TxOutput { value: acc - amount, script_pub_key: from.to_owned() });
        }
        let mut tx = Transaction { id: String::new(), v_in: inputs, v_out: outputs };
        tx.set_id();
        Ok(tx)
    }
}


/// Balance of a list of outputs: the sum of their values.
pub fn total_value(outs: &Vec<TxOutput>) -> (r: i64)
    requires
        outs@.len() <= 0x8000,
        forall|i: int|
            0 <= i < outs@.len() ==> 0 <= (#[trigger] outs_view(outs@)[i]).value <= MAX_MONEY,
    ensures
        r == sum_values(outs_view(outs@)),
{
    let mut total: i64 = 0;
    let mut i: usize = 0;
    proof {
        assert(outs_view(outs@).take(0) =~= Seq::<TxOutputV>::empty());
    }
    while i < outs.len()
        invariant
            i <= outs@.len(),
            outs@.len() <= 0x8000,
            forall|k: int|
                0 <= k < outs@.len() ==> 0 <= (#[trigger] outs_view(outs@)[k]).value <= MAX_MONEY,
            total == sum_values(outs_view(outs@).take(i as int)),
            0 <= total <= i * MAX_MONEY,
        decreases outs@.len() - i,
    {
        proof {
            assert(0 <= outs_view(outs@)[i as int].value <= MAX_MONEY);
            assert(outs_view(outs@)[i as int].value == outs@[i as int]@.value);
        }
        total = total + outs[i].value;
        proof {
            assert(outs_view(outs@).take(i + 1 as int).drop_last() =~= outs_view(outs@).take(
                i as int,
            ));
            assert(outs_view(outs@).take(i + 1 as int).last() == outs_view(outs@)[i as int]);
        }
        i += 1;
    }
    proof {
        assert(outs_view(outs@).take(outs@.len() as int) =~= outs_view(outs@));
    }
    total
}

/// Value conservation over one transfer: a chain holding one genesis
/// coinbase of value `s` to `a` gives `a` a balance of `s`; after a block
/// moving `m` of it to `b` with change back to `a`, the balances are
/// `s - m` and `m`.
pub proof fn lemma_utxo_conservation(
    g: BlockV,
    b2: BlockV,
    a: Seq<char>,
    b: Seq<char>,
    s: i64,
    m: i64,
)
    requires
        a != b,
        0 < m < s,
        g.transactions.len() == 1,
        spec_is_coinbase(g.transactions[0]),
        g.transactions[0].v_out =~= seq![TxOutputV { value: s, script_pub_key: a }],
        b2.transactions.len() == 1,
        b2.transactions[0].v_in =~= seq![
            crate::transaction::TxInputV {
                tx_id: g.transactions[0].id,
                v_out: 0,
                script_sig: a,
            },
        ],
        b2.transactions[0].v_out =~= seq![
            TxOutputV { value: m, script_pub_key: b },
            TxOutputV { value: (s - m) as i64, script_pub_key: a },
        ],
    ensures
        sum_values(chain_utxos(seq![g], a)) == s,
        sum_values(chain_utxos(seq![g, b2], a)) == s - m,
        sum_values(chain_utxos(seq![g, b2], b)) == m,
{
    let cb = g.transactions[0];
    let t = b2.transactions[0];
    assert(!spec_is_coinbase(t));

    // the one-block chain: its only transaction is the coinbase
    let c1 = seq![g];
    let txs1 = chain_txs(c1);
    assert(c1.drop_last() =~= Seq::<BlockV>::empty());
    assert(chain_txs(Seq::<BlockV>::empty()) =~= Seq::<TransactionV>::empty());
    assert(txs1 =~= seq![cb]);
    assert(spent_list(txs1, 0, a) =~= Seq::<(Seq<char>, i64)>::empty());
    assert(utxo_at(txs1, 0, 0, a));
    assert(tx_entries_below(txs1, 0, a, 0) =~= Seq::<UtxoEntryV>::empty());
    let e1 = UtxoEntryV { tx_id: cb.id, out_idx: 0, output: cb.v_out[0] };
    assert(tx_entries_below(txs1, 0, a, 1) =~= seq![e1]);
    assert(utxo_entries_upto(txs1, 0, a) =~= Seq::<UtxoEntryV>::empty());
    assert(utxo_entries_upto(txs1, 1, a) =~= seq![e1]);
    assert(chain_utxo_entries(c1, a) =~= seq![e1]);
    assert(chain_utxos(c1, a).len() == 1);
    assert(chain_utxos(c1, a)[0] == e1.output);
    assert(chain_utxos(c1, a) =~= seq![cb.v_out[0]]);
    assert(sum_values(seq![cb.v_out[0]]) == s) by {
        assert(seq![cb.v_out[0]].drop_last() =~= Seq::<TxOutputV>::empty());
        assert(sum_values(Seq::<TxOutputV>::empty()) == 0);
        assert(seq![cb.v_out[0]].last() == cb.v_out[0]);
    }

    // the two-block chain: the transfer first (newest), the coinbase after
    let c2 = seq![g, b2];
    let txs2 = chain_txs(c2);
    assert(c2.drop_last() =~= seq![g]);
    assert(c2.last() == b2);
    assert(txs2 =~= seq![t, cb]);
    assert(txs2[0] == t && txs2[1] == cb);

    // what the transfer spends for `a`: the coinbase output
    assert(spends_below(t, a, 0) =~= Seq::<(Seq<char>, i64)>::empty());
    assert(spends_below(t, a, 1) =~= seq![(cb.id, 0i64)]);
    assert(spends_of(t, a) =~= seq![(cb.id, 0i64)]);
    assert(spent_list(txs2, 0, a) =~= Seq::<(Seq<char>, i64)>::empty());
    assert(spent_list(txs2, 1, a) =~= seq![(cb.id, 0i64)]);

    // unspent for `a` after the transfer: only the change output
    assert(!utxo_at(txs2, 0, 0, a));
    assert(utxo_at(txs2, 0, 1, a));
    assert(list_contains(spent_list(txs2, 1, a), cb.id, 0)) by {
        assert(spent_list(txs2, 1, a)[0] == (cb.id, 0i64));
    }
    assert(!utxo_at(txs2, 1, 0, a));
    let e2 = UtxoEntryV { tx_id: t.id, out_idx: 1, output: t.v_out[1] };
    assert(tx_entries_below(txs2, 0, a, 0) =~= Seq::<UtxoEntryV>::empty());
    assert(tx_entries_below(txs2, 0, a, 1) =~= Seq::<UtxoEntryV>::empty());
    assert(tx_entries_below(txs2, 0, a, 2) =~= seq![e2]);
    assert(tx_entries_below(txs2, 1, a, 0) =~= Seq::<UtxoEntryV>::empty());
    assert(tx_entries_below(txs2, 1, a, 1) =~= Seq::<UtxoEntryV>::empty());
    assert(utxo_entries_upto(txs2, 0, a) =~= Seq::<UtxoEntryV>::empty());
    assert(utxo_entries_upto(txs2, 1, a) =~= seq![e2]);
    assert(utxo_entries_upto(txs2, 2, a) =~= seq![e2]);
    assert(chain_utxo_entries(c2, a) =~= seq![e2]);
    assert(chain_utxos(c2, a).len() == 1);
    assert(chain_utxos(c2, a)[0] == e2.output);
    assert(chain_utxos(c2, a) =~= seq![t.v_out[1]]);
    assert(sum_values(seq![t.v_out[1]]) == s - m) by {
        assert(seq![t.v_out[1]].drop_last() =~= Seq::<TxOutputV>::empty());
        assert(sum_values(Seq::<TxOutputV>::empty()) == 0);
        assert(seq![t.v_out[1]].last() == t.v_out[1]);
    }

    // unspent for `b`: only the paid output
    assert(spends_below(t, b, 0) =~= Seq::<(Seq<char>, i64)>::empty());
    assert(spends_below(t, b, 1) =~= Seq::<(Seq<char>, i64)>::empty());
    assert(spends_of(t, b) =~= Seq::<(Seq<char>, i64)>::empty());
    assert(spent_list(txs2, 0, b) =~= Seq::<(Seq<char>, i64)>::empty());
    assert(spent_list(txs2, 1, b) =~= Seq::<(Seq<char>, i64)>::empty());
    assert(utxo_at(txs2, 0, 0, b));
    assert(!utxo_at(txs2, 0, 1, b));
    assert(!utxo_at(txs2, 1, 0, b));
    let e3 = UtxoEntryV { tx_id: t.id, out_idx: 0, output: t.v_out[0] };
    assert(tx_entries_below(txs2, 0, b, 0) =~= Seq::<UtxoEntryV>::empty());
    assert(tx_entries_below(txs2, 0, b, 1) =~= seq![e3]);
    assert(tx_entries_below(txs2, 0, b, 2) =~= seq![e3]);
    assert(tx_entries_below(txs2, 1, b, 0) =~= Seq::<UtxoEntryV>::empty());
    assert(tx_entries_below(txs2, 1, b, 1) =~= Seq::<UtxoEntryV>::empty());
    assert(utxo_entries_upto(txs2, 0, b) =~= Seq::<UtxoEntryV>::empty());
    assert(utxo_entries_upto(txs2, 1, b) =~= seq![e3]);
    assert(utxo_entries_upto(txs2, 2, b) =~= seq![e3]);
    assert(chain_utxo_entries(c2, b) =~= seq![e3]);
    assert(chain_utxos(c2, b).len() == 1);
    assert(chain_utxos(c2, b)[0] == e3.output);
    assert(chain_utxos(c2, b) =~= seq![t.v_out[0]]);
    assert(sum_values(seq![t.v_out[0]]) == m) by {
        assert(seq![t.v_out[0]].drop_last() =~= Seq::<TxOutputV>::empty());
        assert(sum_values(Seq::<TxOutputV>::empty()) == 0);
        assert(seq![t.v_out[0]].last() == t.v_out[0]);
    }
}

} // verus!

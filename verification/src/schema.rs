//! The store of pending transactions and its operations: insert, remove, load
//! the queue, collect garbage.

use vstd::prelude::*;
use std::collections::HashMap;
use std::collections::VecDeque;
use crate::error::{IdsExhausted, MempoolError};
use crate::garbage::{finalized_hashes, lemma_single_among_members, pass_outcome};
use crate::hash_key::{hash_key, hash_keys, hash_views, hex_string, key_views, keys_of};
use crate::loader::{accepts_payloads, decodable, load_fails, loads};
use crate::queue::{
    group_txs, lemma_queue_members, lemma_queue_unbound, lemma_queue_without_batch, members,
    queue_view, row_txs, QueueItem, TxVariant,
};
use crate::records::{records_of, MempoolBatchBinding, MempoolTx, NewMempoolTx};
use crate::store::{
    binding_map, has_none_of, ids_below, lemma_insert_wf, lemma_remove_keys_push,
    lemma_remove_keys_wf, tables_fit, MempoolView,
};

verus! {

/// The store of the transactions that wait for a block. It holds them in the
/// order in which they came, together with the index that binds some of them
/// to batches. `P` is the type of a serialized transaction.
pub struct MempoolSchema<P> {
    txs: Vec<MempoolTx<P>>,
    bindings: HashMap<i64, i64>,
    next_id: i64,
}

impl<P> View for MempoolSchema<P> {
    type V = MempoolView<P>;

    closed spec fn view(&self) -> MempoolView<P> {
        MempoolView {
            txs: records_of(self.txs@),
            bindings: self.bindings@,
            next_id: self.next_id as int,
        }
    }
}

/// Whether `key` is one of `keys`.
fn key_among(keys: &Vec<String>, key: &String) -> (found: bool)
    ensures
        found == key_views(keys@).contains(key@),
{
    let mut i: usize = 0;
    while i < keys.len()
        invariant
            i <= keys.len(),
            forall|j: int| 0 <= j < i ==> (#[trigger] keys[j])@ != key@,
        decreases keys.len() - i,
    {
        if keys[i] == *key {
            return true;
        }
        i += 1;
    }
    false
}

impl<P> MempoolSchema<P> {
    /// Whether the store is in order: see [`MempoolView::wf`].
    pub open spec fn wf(&self) -> bool {
        self@.wf()
    }

    /// A store that holds nothing yet.
    pub fn new() -> (s: Self)
        ensures
            s.wf(),
            s@ == MempoolView::<P>::empty(),
    {
        let s = MempoolSchema { txs: Vec::new(), bindings: HashMap::new(), next_id: 1 };
        assert(s@.txs =~= Seq::empty());
        s
    }

    /// The store that holds the given tables: `txs` in this order, and the
    /// bindings of `bindings`. The next id is the least id from 1 on that is
    /// above every id of the tables. Gives nothing when the tables do not fit:
    /// see [`tables_fit`].
    pub fn from_tables(txs: Vec<MempoolTx<P>>, bindings: Vec<MempoolBatchBinding>) -> (r: Option<Self>)
        ensures
            r is Some <==> tables_fit(records_of(txs@), bindings@),
            r matches Some(s) ==> {
                &&& s.wf()
                &&& s@.txs == records_of(txs@)
                &&& s@.bindings == binding_map(bindings@)
                &&& ids_below(s@.txs, bindings@, s@.next_id)
                &&& s@.next_id == 1 || !ids_below(s@.txs, bindings@, s@.next_id - 1)
            },
    {
        let ghost rows = records_of(txs@);
        let mut next_id: i64 = 1;
        let mut i: usize = 0;
        while i < txs.len()
            invariant
                i <= txs.len(),
                rows == records_of(txs@),
                1 <= next_id,
                forall|a: int, b: int| 0 <= a < b < i ==> (#[trigger] rows[a]).id < (#[trigger] rows[b]).id,
                forall|a: int| 0 <= a < i ==> (#[trigger] rows[a]).id < next_id,
                next_id == 1 || exists|a: int| 0 <= a < i && (#[trigger] rows[a]).id == next_id - 1,
            decreases txs.len() - i,
        {
            let id = txs[i].id;
            assert(rows[i as int].id == id);
            if id == i64::MAX {
                return None;
            }
            if i > 0 && id <= txs[i - 1].id {
                assert(rows[i - 1].id == txs[i - 1].id);
                return None;
            }
            assert forall|a: int| 0 <= a < i implies (#[trigger] rows[a]).id < id by {
                if a < i - 1 {
                    assert(rows[a].id < rows[i - 1].id);
                }
            }
            if id >= next_id {
                next_id = id + 1;
            }
            i += 1;
        }
        let mut index: HashMap<i64, i64> = HashMap::new();
        let mut k: usize = 0;
        while k < bindings.len()
            invariant
                k <= bindings.len(),
                rows == records_of(txs@),
                1 <= next_id,
                forall|a: int, b: int|
                    0 <= a < b < rows.len() ==> (#[trigger] rows[a]).id < (#[trigger] rows[b]).id,
                forall|a: int| 0 <= a < rows.len() ==> (#[trigger] rows[a]).id < next_id,
                forall|a: int| 0 <= a < k ==> (#[trigger] bindings[a]).mempool_tx_id < next_id,
                forall|a: int, b: int|
                    0 <= a < b < k ==> (#[trigger] bindings[a]).mempool_tx_id != (
                    #[trigger] bindings[b]).mempool_tx_id,
                next_id == 1 || (exists|a: int| 0 <= a < rows.len() && (#[trigger] rows[a]).id == next_id - 1)
                    || (exists|a: int| 0 <= a < k && (#[trigger] bindings[a]).mempool_tx_id == next_id - 1),
                index@ == binding_map(bindings@.take(k as int)),
                forall|id: i64|
                    index@.contains_key(id) <==> exists|a: int|
                        0 <= a < k && (#[trigger] bindings[a]).mempool_tx_id == id,
            decreases bindings.len() - k,
        {
            let binding = bindings[k];
            if binding.mempool_tx_id == i64::MAX {
                return None;
            }
            if index.contains_key(&binding.mempool_tx_id) {
                return None;
            }
            index.insert(binding.mempool_tx_id, binding.batch_id);
            if binding.mempool_tx_id >= next_id {
                next_id = binding.mempool_tx_id + 1;
            }
            assert(bindings@.take(k + 1).drop_last() =~= bindings@.take(k as int));
            k += 1;
        }
        assert(bindings@.take(bindings.len() as int) =~= bindings@);
        Some(MempoolSchema { txs, bindings: index, next_id })
    }

    /// The number of stored transactions.
    pub fn len(&self) -> (n: usize)
        ensures
            n == self@.txs.len(),
    {
        self.txs.len()
    }

    /// The stored rows, in the order of their ids.
    pub fn rows(&self) -> (rows: &Vec<MempoolTx<P>>)
        ensures
            records_of(rows@) == self@.txs,
    {
        &self.txs
    }

    /// The batch that the transaction with this id is bound to, if any.
    pub fn batch_of(&self, id: i64) -> (batch_id: Option<i64>)
        ensures
            batch_id == self@.batch_of(id),
    {
        match self.bindings.get(&id) {
            Some(batch_id) => Some(*batch_id),
            None => None,
        }
    }

    /// Whether a transaction with this id is stored.
    pub fn holds_id(&self, id: i64) -> (held: bool)
        ensures
            held == self@.holds_id(id),
    {
        let mut i: usize = 0;
        while i < self.txs.len()
            invariant
                i <= self.txs.len(),
                forall|j: int| 0 <= j < i ==> (#[trigger] self@.txs[j]).id != id,
            decreases self.txs.len() - i,
        {
            if self.txs[i].id == id {
                assert(self@.txs[i as int].id == id);
                return true;
            }
            i += 1;
        }
        false
    }

    /// Binds the stored transaction `tx_id` to batch `batch_id`, in place of
    /// the batch that it was bound to before, if any. Does nothing and
    /// returns `false` when no transaction with that id is stored.
    pub fn bind_batch(&mut self, tx_id: i64, batch_id: i64) -> (bound: bool)
        requires
            old(self).wf(),
        ensures
            final(self).wf(),
            bound == old(self)@.holds_id(tx_id),
            bound ==> final(self)@ == old(self)@.bind(tx_id, batch_id),
            !bound ==> final(self)@ == old(self)@,
    {
        let held = self.holds_id(tx_id);
        if held {
            self.bindings.insert(tx_id, batch_id);
            assert(self@.bindings =~= old(self)@.bindings.insert(tx_id, batch_id));
        }
        held
    }

    /// Appends a transaction with hash `tx_hash` and payload `tx` under the
    /// next id. Hashes need not be distinct: a hash that is stored already is
    /// stored once more.
    pub fn insert_tx(&mut self, tx_hash: &[u8], tx: P) -> (r: Result<(), IdsExhausted>)
        requires
            old(self).wf(),
        ensures
            final(self).wf(),
            match r {
                Ok(()) => old(self)@.next_id < i64::MAX && final(self)@ == old(self)@.insert(
                    hex_string(tx_hash@),
                    tx,
                ),
                Err(_) => old(self)@.next_id == i64::MAX && final(self)@ == old(self)@,
            },
    {
        if self.next_id == i64::MAX {
            return Err(IdsExhausted);
        }
        let entry = NewMempoolTx::new(tx_hash, tx);
        let id = self.next_id;
        let row = MempoolTx { id, tx_hash: entry.tx_hash, tx: entry.tx };
        self.txs.push(row);
        self.next_id = id + 1;
        proof {
            let before = old(self)@;
            assert(self@.txs =~= before.txs.push(before.new_row(hex_string(tx_hash@), tx)));
            lemma_insert_wf(before, hex_string(tx_hash@), tx);
        }
        Ok(())
    }

    /// Removes the rows whose key is one of `keys`.
    fn remove_rows(&mut self, keys: &Vec<String>)
        requires
            old(self).wf(),
        ensures
            final(self).wf(),
            final(self)@ == old(self)@.remove_keys(key_views(keys@)),
    {
        let ghost gone = key_views(keys@);
        let ghost all = old(self)@.txs;
        let mut rows: Vec<MempoolTx<P>> = Vec::new();
        core::mem::swap(&mut self.txs, &mut rows);
        let mut kept: Vec<MempoolTx<P>> = Vec::new();
        proof {
            reveal(Seq::filter);
        }
        for row in it: rows.into_iter()
            invariant
                records_of(it.seq()) == all,
                gone == key_views(keys@),
                records_of(kept@) == all.take(it.index() as int).filter(has_none_of(gone)),
        {
            proof {
                let i = it.index() as int;
                assert(all.take(i + 1) =~= all.take(i).push(row@));
                lemma_remove_keys_push(all.take(i), row@, gone);
            }
            if !key_among(keys, &row.tx_hash) {
                kept.push(row);
            }
        }
        self.txs = kept;
        proof {
            assert(all.take(all.len() as int) =~= all);
            lemma_remove_keys_wf(old(self)@, gone);
        }
    }

    /// Removes every row that is stored for hash `tx`. A hash for which
    /// nothing is stored is no error: the store stays as it is. Bindings are
    /// not touched.
    pub fn remove_tx(&mut self, tx: &[u8])
        requires
            old(self).wf(),
        ensures
            final(self).wf(),
            final(self)@ == old(self)@.remove(hex_string(tx@)),
    {
        let mut keys: Vec<String> = Vec::new();
        keys.push(hash_key(tx));
        assert(key_views(keys@) =~= set![hex_string(tx@)]) by {
            assert(keys[0]@ == hex_string(tx@));
        }
        self.remove_rows(&keys);
    }

    /// Removes every row that is stored for one of the hashes `txs`, in one
    /// go. Hashes for which nothing is stored are no error. Bindings are not
    /// touched.
    pub fn remove_txs(&mut self, txs: &[Vec<u8>])
        requires
            old(self).wf(),
        ensures
            final(self).wf(),
            final(self)@ == old(self)@.remove_keys(keys_of(hash_views(txs@))),
    {
        let keys = hash_keys(txs);
        self.remove_rows(&keys);
    }

    /// Loads the queue: decodes the payload of every row, in the order of the
    /// ids, and groups the transactions by the batches that their rows are
    /// bound to. Stops at the first payload that `decode` refuses and returns
    /// that failure; no part of the queue is returned then.
    pub fn load_txs<T, E, D: Fn(&P) -> Result<T, E>>(&self, decode: D) -> (r: Result<
        VecDeque<TxVariant<T>>,
        MempoolError<E>,
    >)
        requires
            accepts_payloads(decode, self@.txs),
        ensures
            match r {
                Ok(queue) => loads(self@, decode, queue_view(queue@)),
                Err(MempoolError::Deserialization { id, cause }) => load_fails(
                    self@,
                    decode,
                    id,
                    cause,
                ),
                Err(_) => false,
            },
    {
        let mut joined: Vec<(Option<i64>, T)> = Vec::new();
        let mut i: usize = 0;
        while i < self.txs.len()
            invariant
                i <= self.txs.len(),
                accepts_payloads(decode, self@.txs),
                joined.len() == i,
                forall|j: int|
                    0 <= j < i ==> (#[trigger] joined[j]).0 == self@.batch_of(self@.txs[j].id)
                        && decode.ensures((&self@.txs[j].tx,), Ok(joined[j].1)),
            decreases self.txs.len() - i,
        {
            let row = &self.txs[i];
            assert(self@.txs[i as int] == row@);
            let batch_id = self.batch_of(row.id);
            match decode(&row.tx) {
                Ok(tx) => {
                    joined.push((batch_id, tx));
                },
                Err(cause) => {
                    proof {
                        assert forall|j: int| 0 <= j < i implies decodable(
                            decode,
                            (#[trigger] self@.txs[j]).tx,
                        ) by {
                            assert(decode.ensures((&self@.txs[j].tx,), Ok(joined[j].1)));
                        }
                    }
                    return Err(MempoolError::Deserialization { id: row.id, cause });
                },
            }
            i += 1;
        }
        let ghost rows = joined@;
        let queue = group_txs(joined);
        proof {
            lemma_queue_members(rows);
            assert(rows =~= self@.joined(row_txs(rows)));
        }
        Ok(queue)
    }

    /// Removes the transactions that the ledger of finalized transactions
    /// already holds, and returns their hashes.
    ///
    /// Loads the queue, asks `hash_of` for the hash of each single transaction
    /// and `lookup` whether the ledger holds it, from the head of the queue
    /// on, and then removes the rows of the hashes that the ledger holds. A
    /// batch in the queue fails the whole pass, and so does a payload that
    /// cannot be decoded and a hash for which the ledger gives no answer. On
    /// every failure the store stays as it was.
    pub fn collect_garbage<
        T,
        E,
        D: Fn(&P) -> Result<T, E>,
        H: Fn(&T) -> Vec<u8>,
        L: Fn(&Vec<u8>) -> Result<bool, E>,
    >(&mut self, decode: D, hash_of: H, lookup: L) -> (r: Result<Vec<Vec<u8>>, MempoolError<E>>)
        requires
            old(self).wf(),
            accepts_payloads(decode, old(self)@.txs),
            forall|i: int, tx: T|
                0 <= i < old(self)@.txs.len() && #[trigger] decode.ensures(
                    (&old(self)@.txs[i].tx,),
                    Ok(tx),
                ) ==> hash_of.requires((&tx,)),
            forall|tx: T, hash: Vec<u8>| #[trigger]
                hash_of.ensures((&tx,), hash) ==> lookup.requires((&hash,)),
        ensures
            final(self).wf(),
            match r {
                Ok(finalized) => old(self)@.unbound() && final(self)@ == old(self)@.remove_keys(
                    keys_of(hash_views(finalized@)),
                ),
                Err(_) => final(self)@ == old(self)@,
            },
            match r {
                Err(MempoolError::Deserialization { id, cause }) => load_fails(
                    old(self)@,
                    decode,
                    id,
                    cause,
                ),
                _ => exists|queue: Seq<QueueItem<T>>| #[trigger]
                    loads(old(self)@, decode, queue) && pass_outcome(hash_of, lookup, queue, r),
            },
            r is Err && r->Err_0 is UnreconciledBatch ==> !old(self)@.unbound(),
    {
        let queue = match self.load_txs(decode) {
            Ok(queue) => queue,
            Err(e) => {
                return Err(e);
            },
        };
        let ghost entries = queue_view(queue@);
        proof {
            assert forall|j: int| 0 <= j < entries.len() && (#[trigger] entries[j]) is Single implies hash_of.requires(
                (&entries[j]->Single_0,),
            ) by {
                lemma_single_among_members(entries, j);
                let i = choose|i: int|
                    0 <= i < members(entries).len() && members(entries)[i] == entries[j]->Single_0;
                assert(decode.ensures((&self@.txs[i].tx,), Ok(members(entries)[i])));
            }
        }
        let r = finalized_hashes(&queue, hash_of, lookup);
        proof {
            let s = self@;
            let rows = s.joined(members(entries));
            if r is Ok {
                lemma_queue_without_batch(rows);
                assert forall|i: int| 0 <= i < s.txs.len() implies !s.bindings.contains_key(
                    (#[trigger] s.txs[i]).id,
                ) by {
                    assert(rows[i].0 is None);
                }
            }
            if r is Err && r->Err_0 is UnreconciledBatch && s.unbound() {
                lemma_queue_unbound(rows);
            }
        }
        match r {
            Ok(finalized) => {
                self.remove_txs(finalized.as_slice());
                Ok(finalized)
            },
            Err(e) => Err(e),
        }
    }
}

} // verus!

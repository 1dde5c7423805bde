//! The mathematical model of the store: the table of pending transactions in
//! the order of their ids, the index of batch bindings, and the next id.

use vstd::prelude::*;
use crate::records::{MempoolBatchBinding, TxRecord};

verus! {

/// The state of the store.
pub struct MempoolView<P> {
    /// The stored transactions, in the order of their ids.
    pub txs: Seq<TxRecord<P>>,
    /// The batch of each transaction that is bound to one, by transaction id.
    pub bindings: Map<i64, i64>,
    /// The id that the next transaction gets.
    pub next_id: int,
}

/// The index that a table of bindings stands for: each bound transaction id
/// with its batch.
pub open spec fn binding_map(bindings: Seq<MempoolBatchBinding>) -> Map<i64, i64>
    decreases bindings.len(),
{
    if bindings.len() == 0 {
        Map::empty()
    } else {
        binding_map(bindings.drop_last()).insert(
            bindings.last().mempool_tx_id,
            bindings.last().batch_id,
        )
    }
}

/// Whether every id of the rows and every bound transaction id is below `n`.
pub open spec fn ids_below<P>(rows: Seq<TxRecord<P>>, bindings: Seq<MempoolBatchBinding>, n: int) -> bool {
    &&& forall|i: int| 0 <= i < rows.len() ==> (#[trigger] rows[i]).id < n
    &&& forall|k: int| 0 <= k < bindings.len() ==> (#[trigger] bindings[k]).mempool_tx_id < n
}

/// Whether two tables can be the tables of a store: the rows come with
/// growing ids, no transaction is bound twice, and an id is left for the next
/// transaction.
pub open spec fn tables_fit<P>(rows: Seq<TxRecord<P>>, bindings: Seq<MempoolBatchBinding>) -> bool {
    &&& forall|i: int, j: int| 0 <= i < j < rows.len() ==> (#[trigger] rows[i]).id < (#[trigger] rows[j]).id
    &&& forall|k: int, l: int|
        0 <= k < l < bindings.len() ==> (#[trigger] bindings[k]).mempool_tx_id != (
        #[trigger] bindings[l]).mempool_tx_id
    &&& ids_below(rows, bindings, i64::MAX as int)
}

/// The test that a row passes when its key is none of `keys`.
pub open spec fn has_none_of<P>(keys: Set<Seq<char>>) -> spec_fn(TxRecord<P>) -> bool {
    |row: TxRecord<P>| !keys.contains(row.tx_hash)
}

impl<P> MempoolView<P> {
    /// Ids grow along the rows, every id that is held or bound was handed out
    /// before, and the next id still fits its type.
    pub open spec fn wf(self) -> bool {
        &&& forall|i: int, j: int|
            0 <= i < j < self.txs.len() ==> (#[trigger] self.txs[i]).id < (#[trigger] self.txs[j]).id
        &&& forall|i: int| 0 <= i < self.txs.len() ==> (#[trigger] self.txs[i]).id < self.next_id
        &&& forall|id: i64| #[trigger] self.bindings.contains_key(id) ==> id < self.next_id
        &&& 1 <= self.next_id <= i64::MAX
    }

    /// The store that holds nothing yet. Its first id is 1.
    pub open spec fn empty() -> Self {
        MempoolView { txs: Seq::empty(), bindings: Map::empty(), next_id: 1 }
    }

    /// Whether a row with this id is stored.
    pub open spec fn holds_id(self, id: i64) -> bool {
        exists|i: int| 0 <= i < self.txs.len() && (#[trigger] self.txs[i]).id == id
    }

    /// Whether a row with this key is stored.
    pub open spec fn holds_key(self, key: Seq<char>) -> bool {
        exists|i: int| 0 <= i < self.txs.len() && (#[trigger] self.txs[i]).tx_hash == key
    }

    /// The row that an insertion adds.
    pub open spec fn new_row(self, tx_hash: Seq<char>, tx: P) -> TxRecord<P> {
        TxRecord { id: self.next_id as i64, tx_hash, tx }
    }

    /// The store after one more transaction was appended under the next id.
    pub open spec fn insert(self, tx_hash: Seq<char>, tx: P) -> Self {
        MempoolView {
            txs: self.txs.push(self.new_row(tx_hash, tx)),
            bindings: self.bindings,
            next_id: self.next_id + 1,
        }
    }

    /// The store after the entries, each a key with a payload, were inserted
    /// one by one in their order.
    pub open spec fn insert_all(self, entries: Seq<(Seq<char>, P)>) -> Self
        decreases entries.len(),
    {
        if entries.len() == 0 {
            self
        } else {
            self.insert_all(entries.drop_last()).insert(entries.last().0, entries.last().1)
        }
    }

    /// The store without the rows whose key is among `keys`. The other rows
    /// keep their order, and the bindings stay as they are.
    pub open spec fn remove_keys(self, keys: Set<Seq<char>>) -> Self {
        MempoolView {
            txs: self.txs.filter(has_none_of(keys)),
            bindings: self.bindings,
            next_id: self.next_id,
        }
    }

    /// The store without the rows that are filed under `key`.
    pub open spec fn remove(self, key: Seq<char>) -> Self {
        self.remove_keys(set![key])
    }

    /// The store after transaction `tx_id` was bound to batch `batch_id`.
    pub open spec fn bind(self, tx_id: i64, batch_id: i64) -> Self {
        MempoolView {
            txs: self.txs,
            bindings: self.bindings.insert(tx_id, batch_id),
            next_id: self.next_id,
        }
    }

    /// The batch that transaction `id` is bound to, if any.
    pub open spec fn batch_of(self, id: i64) -> Option<i64> {
        if self.bindings.contains_key(id) {
            Some(self.bindings[id])
        } else {
            None
        }
    }

    /// The rows joined with the bindings: for each row in order, its batch if
    /// it has one, and the transaction that `txs` holds at the row's place.
    pub open spec fn joined<T>(self, txs: Seq<T>) -> Seq<(Option<i64>, T)> {
        Seq::new(self.txs.len(), |i: int| (self.batch_of(self.txs[i].id), txs[i]))
    }

    /// Whether no stored row is bound to a batch.
    pub open spec fn unbound(self) -> bool {
        forall|i: int| 0 <= i < self.txs.len() ==> !self.bindings.contains_key((#[trigger] self.txs[i]).id)
    }
}

/// An insertion keeps a store well formed.
pub proof fn lemma_insert_wf<P>(s: MempoolView<P>, key: Seq<char>, payload: P)
    requires
        s.wf(),
        s.next_id < i64::MAX,
    ensures
        s.insert(key, payload).wf(),
{
}

/// Appending a row to the rows of a store and then dropping the rows under
/// `keys` is dropping first and appending the row after, if it stays.
pub proof fn lemma_remove_keys_push<P>(rows: Seq<TxRecord<P>>, row: TxRecord<P>, keys: Set<Seq<char>>)
    ensures
        rows.push(row).filter(has_none_of(keys)) == if keys.contains(row.tx_hash) {
            rows.filter(has_none_of(keys))
        } else {
            rows.filter(has_none_of(keys)).push(row)
        },
{
    rows.lemma_filter_push(row, has_none_of(keys));
}

/// Dropping rows keeps a store well formed.
pub proof fn lemma_remove_keys_wf<P>(s: MempoolView<P>, keys: Set<Seq<char>>)
    requires
        s.wf(),
    ensures
        s.remove_keys(keys).wf(),
{
    let kept = s.txs.filter(has_none_of(keys));
    assert forall|i: int| 0 <= i < kept.len() implies (#[trigger] kept[i]).id < s.next_id by {
        s.txs.lemma_filter_contains_rev(has_none_of(keys), kept[i]);
    }
    assert forall|i: int, j: int| 0 <= i < j < kept.len() implies (#[trigger] kept[i]).id < (
    #[trigger] kept[j]).id by {
        lemma_filter_keeps_order(s.txs, keys, i, j);
    }
}

/// Two rows that stay after a removal were stored in the same order before it.
proof fn lemma_filter_keeps_order<P>(rows: Seq<TxRecord<P>>, keys: Set<Seq<char>>, i: int, j: int)
    requires
        forall|a: int, b: int| 0 <= a < b < rows.len() ==> (#[trigger] rows[a]).id < (#[trigger] rows[b]).id,
        0 <= i < j < rows.filter(has_none_of(keys)).len(),
    ensures
        rows.filter(has_none_of(keys))[i].id < rows.filter(has_none_of(keys))[j].id,
    decreases rows.len(),
{
    reveal(Seq::filter);
    if rows.len() > 0 {
        let head = rows.drop_last();
        let kept_head = head.filter(has_none_of(keys));
        if j < kept_head.len() {
            lemma_filter_keeps_order(head, keys, i, j);
        } else {
            head.lemma_filter_contains_rev(has_none_of(keys), kept_head[i]);
            let a = choose|a: int| 0 <= a < head.len() && head[a] == kept_head[i];
            assert(rows[a].id < rows.last().id);
        }
    }
}

} // verus!

//! What holds across the operations of the store.

use vstd::prelude::*;
use crate::error::MempoolError;
use crate::garbage::{finalized_among, judged, lemma_finalized_among, pass_outcome};
use crate::hash_key::{hash_views, hex_string, keys_of, lemma_hex_string_injective};
use crate::loader::{decodable, loads};
use crate::queue::{
    lemma_queue_members, lemma_queue_push_unbound, lemma_queue_unbound, members, queue_of, row_txs,
    QueueItem,
};
use crate::records::TxRecord;
use crate::store::{has_none_of, lemma_insert_wf, MempoolView};

verus! {

/// An insertion keeps the store in order, puts the new row last, under the
/// key of the given hash and with the given payload, and leaves the rows
/// before it and all bindings as they were.
pub proof fn lemma_insert_appends<P>(s: MempoolView<P>, tx_hash: Seq<u8>, payload: P)
    requires
        s.wf(),
        s.next_id < i64::MAX,
    ensures
        s.insert(hex_string(tx_hash), payload).wf(),
        s.insert(hex_string(tx_hash), payload).txs.drop_last() == s.txs,
        s.insert(hex_string(tx_hash), payload).txs.last() == (TxRecord {
            id: s.next_id as i64,
            tx_hash: hex_string(tx_hash),
            tx: payload,
        }),
        s.insert(hex_string(tx_hash), payload).bindings == s.bindings,
        s.insert(hex_string(tx_hash), payload).batch_of(s.next_id as i64) is None,
{
    lemma_insert_wf(s, hex_string(tx_hash), payload);
}

/// The rows of the store joined with the bindings, after an insertion: the
/// joined rows from before, and then the new row, bound to no batch.
proof fn lemma_insert_joined<P, T>(s: MempoolView<P>, key: Seq<char>, payload: P, txs: Seq<T>, tx: T)
    requires
        s.wf(),
        s.next_id < i64::MAX,
        txs.len() == s.txs.len(),
    ensures
        s.insert(key, payload).joined(txs.push(tx)) == s.joined(txs).push((None, tx)),
{
}

/// Insert, then load. Where `queue` is a result of loading the store and
/// `decode` may give `tx` for a payload, then after that payload was inserted
/// `queue` followed by the one single entry `tx` is a result of loading it.
pub proof fn lemma_insert_then_load<P, T, E, D: Fn(&P) -> Result<T, E>>(
    s: MempoolView<P>,
    decode: D,
    queue: Seq<QueueItem<T>>,
    tx_hash: Seq<u8>,
    payload: P,
    tx: T,
)
    requires
        s.wf(),
        s.next_id < i64::MAX,
        loads(s, decode, queue),
        decode.ensures((&payload,), Ok(tx)),
    ensures
        loads(s.insert(hex_string(tx_hash), payload), decode, queue.push(QueueItem::Single(tx))),
{
    let longer = queue.push(QueueItem::Single(tx));
    assert(longer.drop_last() =~= queue);
    assert(members(longer) =~= members(queue).push(tx));
    lemma_insert_joined(s, hex_string(tx_hash), payload, members(queue), tx);
    lemma_queue_push_unbound(s.joined(members(queue)), tx);
}

/// Load after an insertion. Every result of loading the store after a
/// payload was inserted ends with exactly one entry for it: a single
/// transaction that `decode` may give for the payload. The entries before it
/// are a result of loading the store as it was before the insertion.
pub proof fn lemma_load_after_insert<P, T, E, D: Fn(&P) -> Result<T, E>>(
    s: MempoolView<P>,
    decode: D,
    tx_hash: Seq<u8>,
    payload: P,
    queue: Seq<QueueItem<T>>,
)
    requires
        s.wf(),
        s.next_id < i64::MAX,
        loads(s.insert(hex_string(tx_hash), payload), decode, queue),
    ensures
        queue.len() > 0,
        queue.last() is Single,
        decode.ensures((&payload,), Ok(queue.last()->Single_0)),
        loads(s, decode, queue.drop_last()),
{
    let after = s.insert(hex_string(tx_hash), payload);
    let all = members(queue);
    let n = s.txs.len() as int;
    let txs = all.take(n);
    let tx = all[n];
    assert(after.txs[n].tx == payload);
    assert(all =~= txs.push(tx));
    lemma_insert_joined(s, hex_string(tx_hash), payload, txs, tx);
    lemma_queue_push_unbound(s.joined(txs), tx);
    let before = queue_of(s.joined(txs));
    assert(queue.drop_last() =~= before);
    lemma_queue_members(s.joined(txs));
    assert(row_txs(s.joined(txs)) =~= txs);
    assert forall|i: int| 0 <= i < s.txs.len() implies #[trigger] decode.ensures(
        (&s.txs[i].tx,),
        Ok(txs[i]),
    ) by {
        assert(after.txs[i] == s.txs[i]);
    }
}

/// Order. Where no stored row is bound to a batch, every result of loading
/// the store holds one single entry per row, in the order of the rows: the
/// entry at a row's place is a transaction that `decode` may give for the
/// payload of that row.
pub proof fn lemma_unbound_store_loads_in_order<P, T, E, D: Fn(&P) -> Result<T, E>>(
    s: MempoolView<P>,
    decode: D,
    queue: Seq<QueueItem<T>>,
)
    requires
        s.unbound(),
        loads(s, decode, queue),
    ensures
        queue.len() == s.txs.len(),
        forall|i: int|
            0 <= i < s.txs.len() ==> (#[trigger] queue[i]) is Single && decode.ensures(
                (&s.txs[i].tx,),
                Ok(queue[i]->Single_0),
            ),
{
    lemma_queue_unbound(s.joined(members(queue)));
}

/// Insertions keep what is stored and its order: after transactions were
/// inserted one by one, the rows from before come first, unchanged, and then
/// one row per insertion, in the order of the insertions, under ids that grow
/// by one. The bindings stay as they were.
pub proof fn lemma_inserts_keep_order<P>(s: MempoolView<P>, entries: Seq<(Seq<char>, P)>)
    requires
        s.wf(),
        s.next_id + entries.len() <= i64::MAX,
    ensures
        s.insert_all(entries).wf(),
        s.insert_all(entries).next_id == s.next_id + entries.len(),
        s.insert_all(entries).bindings == s.bindings,
        s.insert_all(entries).txs.len() == s.txs.len() + entries.len(),
        s.insert_all(entries).txs.take(s.txs.len() as int) == s.txs,
        forall|i: int|
            0 <= i < entries.len() ==> #[trigger] s.insert_all(entries).txs[s.txs.len() + i] == (
            TxRecord { id: (s.next_id + i) as i64, tx_hash: entries[i].0, tx: entries[i].1 }),
    decreases entries.len(),
{
    if entries.len() > 0 {
        let head = entries.drop_last();
        lemma_inserts_keep_order(s, head);
        lemma_insert_wf(s.insert_all(head), entries.last().0, entries.last().1);
    }
}

/// Insert some, then load. Where no row of the store is bound to a batch,
/// every result of loading it after some transactions were inserted one by
/// one ends with one single entry per insertion, in the order of the
/// insertions: each a transaction that `decode` may give for the payload
/// that was inserted at its place.
pub proof fn lemma_inserted_load_in_order<P, T, E, D: Fn(&P) -> Result<T, E>>(
    s: MempoolView<P>,
    decode: D,
    entries: Seq<(Seq<char>, P)>,
    queue: Seq<QueueItem<T>>,
)
    requires
        s.wf(),
        s.unbound(),
        s.next_id + entries.len() <= i64::MAX,
        loads(s.insert_all(entries), decode, queue),
    ensures
        queue.len() == s.txs.len() + entries.len(),
        forall|i: int|
            0 <= i < entries.len() ==> (#[trigger] queue[s.txs.len() + i]) is Single
                && decode.ensures((&entries[i].1,), Ok(queue[s.txs.len() + i]->Single_0)),
{
    let after = s.insert_all(entries);
    let n = s.txs.len() as int;
    lemma_inserts_keep_order(s, entries);
    assert forall|k: int| 0 <= k < after.txs.len() implies !after.bindings.contains_key(
        (#[trigger] after.txs[k]).id,
    ) by {
        if k < n {
            assert(after.txs.take(n)[k] == after.txs[k]);
        } else {
            assert(after.txs[n + (k - n)].id == (s.next_id + (k - n)) as i64);
        }
    }
    lemma_unbound_store_loads_in_order(after, decode, queue);
}

/// Removal of what is not there. Where no stored row has a key among `keys`,
/// removing those keys leaves the store exactly as it is.
pub proof fn lemma_remove_absent_keys<P>(s: MempoolView<P>, keys: Set<Seq<char>>)
    requires
        forall|i: int| 0 <= i < s.txs.len() ==> !keys.contains((#[trigger] s.txs[i]).tx_hash),
    ensures
        s.remove_keys(keys) == s,
{
    lemma_filter_keeps_all(s.txs, keys);
}

/// Removal of a hash for which nothing is stored leaves the store exactly as
/// it is.
pub proof fn lemma_remove_absent<P>(s: MempoolView<P>, tx_hash: Seq<u8>)
    requires
        !s.holds_key(hex_string(tx_hash)),
    ensures
        s.remove(hex_string(tx_hash)) == s,
{
    lemma_remove_absent_keys(s, set![hex_string(tx_hash)]);
}

/// After a removal nothing is stored for the removed keys, so that removing
/// them once more changes nothing.
pub proof fn lemma_remove_twice<P>(s: MempoolView<P>, keys: Set<Seq<char>>)
    ensures
        forall|i: int|
            0 <= i < s.remove_keys(keys).txs.len() ==> !keys.contains(
                (#[trigger] s.remove_keys(keys).txs[i]).tx_hash,
            ),
        s.remove_keys(keys).remove_keys(keys) == s.remove_keys(keys),
{
    lemma_remove_absent_keys(s.remove_keys(keys), keys);
}

/// A removal takes exactly the rows of the removed keys: a row is stored
/// afterwards if and only if it was stored before and its key is none of
/// `keys`.
pub proof fn lemma_remove_takes_exactly<P>(s: MempoolView<P>, keys: Set<Seq<char>>, row: TxRecord<P>)
    ensures
        s.remove_keys(keys).txs.contains(row) <==> s.txs.contains(row) && !keys.contains(row.tx_hash),
{
    let kept = s.txs.filter(has_none_of(keys));
    if kept.contains(row) {
        s.txs.lemma_filter_contains_rev(has_none_of(keys), row);
        let i = choose|i: int| 0 <= i < kept.len() && kept[i] == row;
        s.txs.lemma_filter_pred(has_none_of(keys), i);
    }
    if s.txs.contains(row) && !keys.contains(row.tx_hash) {
        let i = choose|i: int| 0 <= i < s.txs.len() && s.txs[i] == row;
        s.txs.lemma_filter_contains(has_none_of(keys), i);
    }
}

/// Garbage is what the ledger holds. Say that the caller's functions are
/// functions in the strict sense: `decode` gives `dec(p)` for payload `p`,
/// `hash_of` gives the bytes `hash(t)` for transaction `t`, and `lookup`
/// answers `held(h)` for hash `h`. Say also that every row is filed under the
/// key of the hash of its own transaction. Then a pass that succeeds removes a
/// row exactly when the ledger holds the hash of its transaction: the rows
/// that stay are the rows from before whose transaction the ledger does not
/// hold.
pub proof fn lemma_garbage_is_what_the_ledger_holds<
    P,
    T,
    E,
    D: Fn(&P) -> Result<T, E>,
    H: Fn(&T) -> Vec<u8>,
    L: Fn(&Vec<u8>) -> Result<bool, E>,
>(
    s: MempoolView<P>,
    decode: D,
    hash_of: H,
    lookup: L,
    dec: spec_fn(P) -> T,
    hash: spec_fn(T) -> Seq<u8>,
    held: spec_fn(Seq<u8>) -> bool,
    queue: Seq<QueueItem<T>>,
    finalized: Vec<Vec<u8>>,
    row: TxRecord<P>,
)
    requires
        forall|p: P, r: Result<T, E>| #[trigger] decode.ensures((&p,), r) ==> r == Ok::<T, E>(dec(p)),
        forall|t: T, h: Vec<u8>| #[trigger] hash_of.ensures((&t,), h) ==> h@ == hash(t),
        forall|h: Vec<u8>, r: Result<bool, E>| #[trigger]
            lookup.ensures((&h,), r) ==> r == Ok::<bool, E>(held(h@)),
        forall|i: int|
            0 <= i < s.txs.len() ==> (#[trigger] s.txs[i]).tx_hash == hex_string(hash(dec(s.txs[i].tx))),
        loads(s, decode, queue),
        pass_outcome(hash_of, lookup, queue, Ok::<Vec<Vec<u8>>, MempoolError<E>>(finalized)),
    ensures
        s.remove_keys(keys_of(hash_views(finalized@))).txs.contains(row) <==> s.txs.contains(row)
            && !held(hash(dec(row.tx))),
{
    let gone = keys_of(hash_views(finalized@));
    let txs = members(queue);
    let (hashes, found) = choose|hashes: Seq<Vec<u8>>, found: Seq<bool>| #[trigger]
        judged(hash_of, lookup, txs, hashes, found) && hash_views(finalized@) == finalized_among(
            hash_views(hashes),
            found,
        );
    lemma_remove_takes_exactly(s, gone, row);
    if s.txs.contains(row) {
        let i = choose|i: int| 0 <= i < s.txs.len() && s.txs[i] == row;
        assert(decode.ensures((&s.txs[i].tx,), Ok(txs[i])));
        assert(hash_of.ensures((&txs[i],), hashes[i]));
        assert(hash_views(hashes)[i] == hash(dec(row.tx)));
        if held(hash(dec(row.tx))) {
            lemma_finalized_among(hash_views(hashes), found, hash(dec(row.tx)));
        }
        if gone.contains(row.tx_hash) {
            let k = choose|k: int|
                0 <= k < hash_views(finalized@).len() && row.tx_hash == hex_string(
                    #[trigger] hash_views(finalized@)[k],
                );
            let other = hash_views(finalized@)[k];
            lemma_finalized_among(hash_views(hashes), found, other);
            let m = choose|m: int|
                0 <= m < hashes.len() && found[m] && #[trigger] hash_views(hashes)[m] == other;
            assert(hash_of.ensures((&txs[m],), hashes[m]));
            lemma_hex_string_injective(other, hash(dec(row.tx)));
        }
    }
}

/// Rows of which none fails the test all pass the filter.
proof fn lemma_filter_keeps_all<P>(rows: Seq<TxRecord<P>>, keys: Set<Seq<char>>)
    requires
        forall|i: int| 0 <= i < rows.len() ==> !keys.contains((#[trigger] rows[i]).tx_hash),
    ensures
        rows.filter(has_none_of(keys)) == rows,
    decreases rows.len(),
{
    reveal(Seq::filter);
    if rows.len() > 0 {
        lemma_filter_keeps_all(rows.drop_last(), keys);
    }
}

/// All or nothing. A load that gives a queue has decoded the payload of
/// every stored row: where `decode` gives a transaction for none of the
/// values of some stored payload, no queue is a result of loading, not even
/// one of the rows that can be decoded.
pub proof fn lemma_load_needs_every_payload<P, T, E, D: Fn(&P) -> Result<T, E>>(
    s: MempoolView<P>,
    decode: D,
    queue: Seq<QueueItem<T>>,
    i: int,
)
    requires
        0 <= i < s.txs.len(),
        !decodable(decode, s.txs[i].tx),
    ensures
        !loads(s, decode, queue),
{
    if loads(s, decode, queue) {
        assert(decode.ensures((&s.txs[i].tx,), Ok(members(queue)[i])));
    }
}

/// Nothing is lost or doubled by loading: the transactions of a loaded queue,
/// batches flattened, are as many as the stored rows.
pub proof fn lemma_load_holds_every_row<P, T, E, D: Fn(&P) -> Result<T, E>>(
    s: MempoolView<P>,
    decode: D,
    queue: Seq<QueueItem<T>>,
)
    requires
        loads(s, decode, queue),
    ensures
        members(queue).len() == s.txs.len(),
        queue.len() <= s.txs.len(),
{
    lemma_queue_len(s.joined(members(queue)));
}

/// A queue has at most as many entries as there are rows.
proof fn lemma_queue_len<T>(rows: Seq<(Option<i64>, T)>)
    ensures
        queue_of(rows).len() <= rows.len(),
    decreases rows.len(),
{
    if rows.len() > 0 {
        lemma_queue_len(rows.drop_last());
    }
}

} // verus!

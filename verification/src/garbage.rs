//! The pass that finds the garbage of a queue: the single transactions that
//! the ledger of finalized transactions already holds.
//!
//! The hash of a transaction and the answer of the ledger come from the
//! caller's functions. The contracts here say what holds for whatever those
//! functions return.

use vstd::prelude::*;
use std::collections::VecDeque;
use crate::error::MempoolError;
use crate::hash_key::hash_views;
use crate::queue::{members, queue_view, singles, QueueItem, TxVariant};

verus! {

/// The hashes that the ledger holds: those of `hashes` at whose place `found`
/// says so, in order. A hash for which `found` has no place is not among them.
pub open spec fn finalized_among(hashes: Seq<Seq<u8>>, found: Seq<bool>) -> Seq<Seq<u8>>
    decreases hashes.len(),
{
    if hashes.len() == 0 {
        Seq::empty()
    } else {
        let rest = finalized_among(hashes.drop_last(), found);
        let place = hashes.len() - 1;
        if place < found.len() && found[place] {
            rest.push(hashes.last())
        } else {
            rest
        }
    }
}

/// Whether `hashes` and `found` are results that the caller's functions may
/// give for `txs`: for each transaction its hash, and for each hash the
/// ledger's answer whether it holds a transaction of that hash.
pub open spec fn judged<T, E, H: Fn(&T) -> Vec<u8>, L: Fn(&Vec<u8>) -> Result<bool, E>>(
    hash_of: H,
    lookup: L,
    txs: Seq<T>,
    hashes: Seq<Vec<u8>>,
    found: Seq<bool>,
) -> bool {
    &&& hashes.len() == txs.len()
    &&& found.len() == txs.len()
    &&& forall|i: int|
        0 <= i < txs.len() ==> #[trigger] hash_of.ensures((&txs[i],), hashes[i]) && lookup.ensures(
            (&hashes[i],),
            Ok(found[i]),
        )
}

/// Whether the pass over `queue` can make its calls: `hash_of` can be called
/// on every single transaction of the queue, and `lookup` on every hash that
/// `hash_of` may give.
pub open spec fn can_judge<T, E, H: Fn(&T) -> Vec<u8>, L: Fn(&Vec<u8>) -> Result<bool, E>>(
    hash_of: H,
    lookup: L,
    queue: Seq<QueueItem<T>>,
) -> bool {
    &&& forall|j: int|
        0 <= j < queue.len() && (#[trigger] queue[j]) is Single ==> hash_of.requires(
            (&queue[j]->Single_0,),
        )
    &&& forall|tx: T, hash: Vec<u8>| #[trigger] hash_of.ensures((&tx,), hash) ==> lookup.requires((&hash,))
}

/// Whether every entry before place `k` is a single transaction.
pub open spec fn singles_before<T>(queue: Seq<QueueItem<T>>, k: int) -> bool {
    forall|j: int| 0 <= j < k ==> (#[trigger] queue[j]) is Single
}

/// Whether the pass may get as far as place `k` of the queue: every entry
/// before that place is a single transaction for which `hash_of` may give a
/// hash that `lookup` may answer.
pub open spec fn answered_before<T, E, H: Fn(&T) -> Vec<u8>, L: Fn(&Vec<u8>) -> Result<bool, E>>(
    hash_of: H,
    lookup: L,
    queue: Seq<QueueItem<T>>,
    k: int,
) -> bool {
    &&& singles_before(queue, k)
    &&& forall|j: int|
        0 <= j < k ==> exists|hash: Vec<u8>, held: bool| #[trigger]
            hash_of.ensures((&(#[trigger] queue[j])->Single_0,), hash) && #[trigger] lookup.ensures(
                (&hash,),
                Ok(held),
            )
}

/// Whether `r` is a result that the pass over `queue` may give.
///
/// The pass succeeds only on a queue of single transactions, and then returns
/// the hashes of those that the ledger holds, in the order of the queue. It
/// fails at the first entry that is a batch, and at the first transaction for
/// which the ledger gives no answer, whichever comes first.
pub open spec fn pass_outcome<T, E, H: Fn(&T) -> Vec<u8>, L: Fn(&Vec<u8>) -> Result<bool, E>>(
    hash_of: H,
    lookup: L,
    queue: Seq<QueueItem<T>>,
    r: Result<Vec<Vec<u8>>, MempoolError<E>>,
) -> bool {
    match r {
        Ok(finalized) => {
            &&& queue == singles(members(queue))
            &&& exists|hashes: Seq<Vec<u8>>, found: Seq<bool>|
                #[trigger] judged(hash_of, lookup, members(queue), hashes, found) && hash_views(
                    finalized@,
                ) == finalized_among(hash_views(hashes), found)
        },
        Err(MempoolError::UnreconciledBatch) => {
            exists|k: int|
                0 <= k < queue.len() && #[trigger] answered_before(hash_of, lookup, queue, k)
                    && queue[k] is Batch
        },
        Err(MempoolError::Ledger { cause }) => {
            exists|k: int, hash: Vec<u8>|
                0 <= k < queue.len() && #[trigger] answered_before(hash_of, lookup, queue, k)
                    && queue[k] is Single && #[trigger] hash_of.ensures(
                    (&queue[k]->Single_0,),
                    hash,
                ) && lookup.ensures((&hash,), Err(cause))
        },
        Err(MempoolError::Deserialization { .. }) => false,
    }
}

/// A hash is among the finalized ones exactly when it stands at a place of
/// `hashes` where `found` says that the ledger holds it.
pub proof fn lemma_finalized_among(hashes: Seq<Seq<u8>>, found: Seq<bool>, hash: Seq<u8>)
    requires
        hashes.len() <= found.len(),
    ensures
        finalized_among(hashes, found).contains(hash) <==> exists|i: int|
            0 <= i < hashes.len() && found[i] && #[trigger] hashes[i] == hash,
    decreases hashes.len(),
{
    if hashes.len() > 0 {
        let head = hashes.drop_last();
        let rest = finalized_among(head, found);
        let n = hashes.len() - 1;
        lemma_finalized_among(head, found, hash);
        if finalized_among(hashes, found).contains(hash) && !(found[n] && hashes[n] == hash) {
            assert(rest.contains(hash)) by {
                if found[n] {
                    let k = choose|k: int|
                        0 <= k < rest.len() + 1 && rest.push(hashes.last())[k] == hash;
                    assert(rest[k] == hash);
                }
            }
            let i = choose|i: int| 0 <= i < n && found[i] && #[trigger] head[i] == hash;
            assert(found[i] && hashes[i] == hash);
        }
        if exists|i: int| 0 <= i < hashes.len() && found[i] && #[trigger] hashes[i] == hash {
            let i = choose|i: int| 0 <= i < hashes.len() && found[i] && #[trigger] hashes[i] == hash;
            if i < n {
                assert(found[i] && head[i] == hash);
                let k = choose|k: int| 0 <= k < rest.len() && rest[k] == hash;
                assert(finalized_among(hashes, found)[k] == hash);
            } else {
                assert(rest.push(hashes.last())[rest.len() as int] == hash);
            }
        }
    }
}

/// A single transaction of the queue is one of the queue's transactions.
pub proof fn lemma_single_among_members<T>(queue: Seq<QueueItem<T>>, j: int)
    requires
        0 <= j < queue.len(),
        queue[j] is Single,
    ensures
        members(queue).contains(queue[j]->Single_0),
    decreases queue.len(),
{
    let head = queue.drop_last();
    let tx = queue[j]->Single_0;
    if j < head.len() {
        lemma_single_among_members(head, j);
        let i = choose|i: int| 0 <= i < members(head).len() && members(head)[i] == tx;
        assert(members(queue)[i] == tx);
    } else {
        assert(members(queue)[members(head).len() as int] == tx);
    }
}

/// A queue of single transactions is the queue of its transactions.
pub proof fn lemma_singles_members<T>(queue: Seq<QueueItem<T>>)
    requires
        singles_before(queue, queue.len() as int),
    ensures
        members(queue).len() == queue.len(),
        queue == singles(members(queue)),
    decreases queue.len(),
{
    if queue.len() > 0 {
        let head = queue.drop_last();
        lemma_singles_members(head);
        assert forall|j: int| 0 <= j < queue.len() implies queue[j] == singles(members(queue))[j] by {
            if j < head.len() {
                assert(queue[j] == head[j]);
            }
        }
    }
}

/// Picks the hashes that the ledger holds: the hashes at whose place `found`
/// holds `true`, in their order.
pub fn select_finalized(hashes: Vec<Vec<u8>>, found: &Vec<bool>) -> (finalized: Vec<Vec<u8>>)
    ensures
        hash_views(finalized@) == finalized_among(hash_views(hashes@), found@),
{
    let ghost all = hash_views(hashes@);
    let total = hashes.len();
    let mut finalized: Vec<Vec<u8>> = Vec::new();
    let mut place: usize = 0;
    for hash in it: hashes.into_iter()
        invariant
            hash_views(it.seq()) == all,
            it.seq().len() == total,
            place == it.index(),
            hash_views(finalized@) == finalized_among(all.take(place as int), found@),
    {
        assert(all.take(place + 1).drop_last() =~= all.take(place as int));
        if place < found.len() && found[place] {
            finalized.push(hash);
        }
        place += 1;
    }
    assert(all.take(all.len() as int) =~= all);
    finalized
}

/// Goes through the queue from its head and returns the hashes of the single
/// transactions that the ledger holds. Asks `hash_of` for the hash of each
/// transaction and then `lookup` whether the ledger holds that hash.
pub fn finalized_hashes<T, E, H: Fn(&T) -> Vec<u8>, L: Fn(&Vec<u8>) -> Result<bool, E>>(
    queue: &VecDeque<TxVariant<T>>,
    hash_of: H,
    lookup: L,
) -> (r: Result<Vec<Vec<u8>>, MempoolError<E>>)
    requires
        can_judge(hash_of, lookup, queue_view(queue@)),
    ensures
        pass_outcome(hash_of, lookup, queue_view(queue@), r),
{
    let ghost entries = queue_view(queue@);
    let mut hashes: Vec<Vec<u8>> = Vec::new();
    let mut found: Vec<bool> = Vec::new();
    let mut k: usize = 0;
    while k < queue.len()
        invariant
            k <= queue.len(),
            entries == queue_view(queue@),
            can_judge(hash_of, lookup, entries),
            singles_before(entries, k as int),
            hashes.len() == k,
            found.len() == k,
            forall|j: int|
                0 <= j < k ==> (#[trigger] entries[j]) is Single && hash_of.ensures(
                    (&entries[j]->Single_0,),
                    hashes[j],
                ) && lookup.ensures((&hashes[j],), Ok(found[j])),
        decreases queue.len() - k,
    {
        match &queue[k] {
            TxVariant::Single(tx) => {
                let hash = hash_of(tx);
                match lookup(&hash) {
                    Ok(held) => {
                        hashes.push(hash);
                        found.push(held);
                    },
                    Err(cause) => {
                        assert(answered_before(hash_of, lookup, entries, k as int)
                            && hash_of.ensures((&entries[k as int]->Single_0,), hash)
                            && lookup.ensures((&hash,), Err(cause)));
                        return Err(MempoolError::Ledger { cause });
                    },
                }
            },
            TxVariant::Batch(_) => {
                assert(answered_before(hash_of, lookup, entries, k as int) && entries[k as int] is Batch);
                return Err(MempoolError::UnreconciledBatch);
            },
        }
        k += 1;
    }
    proof {
        lemma_singles_members(entries);
        let txs = members(entries);
        let hashes = hashes@;
        let found = found@;
        assert forall|i: int| 0 <= i < txs.len() implies #[trigger] hash_of.ensures(
            (&txs[i],),
            hashes[i],
        ) && lookup.ensures((&hashes[i],), Ok(found[i])) by {
            assert(entries[i] == singles(txs)[i]);
        }
        assert(judged(hash_of, lookup, txs, hashes, found));
    }
    Ok(select_finalized(hashes, &found))
}

} // verus!

//! What it means to load the queue from the store.
//!
//! The payload of each row is decoded by a function of the caller. The
//! predicates here relate the store, that function and the result.

use vstd::prelude::*;
use crate::queue::{members, queue_of, QueueItem};
use crate::records::TxRecord;
use crate::store::MempoolView;

verus! {

/// Whether `decode` can be called on the payload of every row.
pub open spec fn accepts_payloads<P, T, E, D: Fn(&P) -> Result<T, E>>(
    decode: D,
    rows: Seq<TxRecord<P>>,
) -> bool {
    forall|i: int| 0 <= i < rows.len() ==> decode.requires((&(#[trigger] rows[i]).tx,))
}

/// Whether `decode` may give a transaction for this payload.
pub open spec fn decodable<P, T, E, D: Fn(&P) -> Result<T, E>>(decode: D, payload: P) -> bool {
    exists|tx: T| #[trigger] decode.ensures((&payload,), Ok(tx))
}

/// Whether `txs` holds, row by row, a transaction that `decode` may give for
/// the payload of the row.
pub open spec fn decodes_to<P, T, E, D: Fn(&P) -> Result<T, E>>(
    decode: D,
    rows: Seq<TxRecord<P>>,
    txs: Seq<T>,
) -> bool {
    &&& txs.len() == rows.len()
    &&& forall|i: int| 0 <= i < rows.len() ==> #[trigger] decode.ensures((&rows[i].tx,), Ok(txs[i]))
}

/// Whether `queue` is a result of loading store `s` with `decode`: its
/// transactions are those decoded from the rows, in the order of the rows, and
/// it groups them as the bindings of the rows say.
pub open spec fn loads<P, T, E, D: Fn(&P) -> Result<T, E>>(
    s: MempoolView<P>,
    decode: D,
    queue: Seq<QueueItem<T>>,
) -> bool {
    &&& decodes_to(decode, s.txs, members(queue))
    &&& queue == queue_of(s.joined(members(queue)))
}

/// Whether loading store `s` with `decode` may fail at the row with this id
/// for this cause: the row is stored, `decode` may refuse its payload for this
/// cause, and every row before it can be decoded.
pub open spec fn load_fails<P, T, E, D: Fn(&P) -> Result<T, E>>(
    s: MempoolView<P>,
    decode: D,
    id: i64,
    cause: E,
) -> bool {
    exists|i: int|
        0 <= i < s.txs.len() && (#[trigger] s.txs[i]).id == id && decode.ensures(
            (&s.txs[i].tx,),
            Err(cause),
        ) && forall|j: int| 0 <= j < i ==> decodable(decode, (#[trigger] s.txs[j]).tx)
}

} // verus!

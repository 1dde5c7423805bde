//! The rows of the two tables behind the store.

use vstd::prelude::*;
use crate::hash_key::{hash_key, hex_string};

verus! {

/// A stored pending transaction.
#[derive(Debug, Clone, PartialEq, Eq)]
pub struct MempoolTx<P> {
    /// Assigned by the store on insertion; later rows have larger ids.
    pub id: i64,
    /// The key of the transaction's hash.
    pub tx_hash: String,
    /// The serialized transaction.
    pub tx: P,
}

/// A pending transaction that has no id yet.
#[derive(Debug, Clone, PartialEq, Eq)]
pub struct NewMempoolTx<P> {
    /// The key of the transaction's hash.
    pub tx_hash: String,
    /// The serialized transaction.
    pub tx: P,
}

/// The membership of one stored transaction in a batch.
#[derive(Debug, Clone, Copy, PartialEq, Eq)]
pub struct MempoolBatchBinding {
    /// The id of the stored transaction.
    pub mempool_tx_id: i64,
    /// The batch that the transaction belongs to.
    pub batch_id: i64,
}

/// What a stored transaction is to the contracts: its id, the characters of its
/// key and its payload.
pub struct TxRecord<P> {
    /// The id of the row.
    pub id: i64,
    /// The characters of the key of the transaction's hash.
    pub tx_hash: Seq<char>,
    /// The serialized transaction.
    pub tx: P,
}

impl<P> View for MempoolTx<P> {
    type V = TxRecord<P>;

    open spec fn view(&self) -> TxRecord<P> {
        TxRecord { id: self.id, tx_hash: self.tx_hash@, tx: self.tx }
    }
}

/// The records of a vector of rows, in the order of the rows.
pub open spec fn records_of<P>(rows: Seq<MempoolTx<P>>) -> Seq<TxRecord<P>> {
    Seq::new(rows.len(), |i: int| rows[i]@)
}

impl<P> NewMempoolTx<P> {
    /// The row to store for a transaction with hash `hash` and payload `tx`.
    pub fn new(hash: &[u8], tx: P) -> (entry: Self)
        ensures
            entry.tx_hash@ == hex_string(hash@),
            entry.tx == tx,
    {
        NewMempoolTx { tx_hash: hash_key(hash), tx }
    }
}

} // verus!

//! The ways in which an operation of the store fails.

use vstd::prelude::*;

verus! {

/// A failure of loading the queue or of collecting garbage. `E` is the error of
/// the caller's decoder and ledger.
#[derive(Debug, Clone, PartialEq, Eq)]
pub enum MempoolError<E> {
    /// The payload of the row with this id could not be decoded.
    Deserialization { id: i64, cause: E },
    /// The ledger of finalized transactions could not answer.
    Ledger { cause: E },
    /// The queue holds a batch, and no rule says when a batch is garbage.
    UnreconciledBatch,
}

/// The store has handed out its last id and takes no further transaction.
#[derive(Debug, Clone, Copy, PartialEq, Eq)]
pub struct IdsExhausted;

} // verus!

//! A verified staging store for transactions that wait for inclusion in a block.
//!
//! The store keeps pending transactions in the order in which they were
//! submitted, knows which of them are bound to a batch, rebuilds the ordered
//! queue of single transactions and batches from its rows, and drops the
//! transactions that a ledger of finalized transactions already holds.
//!
//! The type of a transaction is the caller's. The store sees a transaction as
//! a hash and a payload, and gets the functions that decode a payload, hash a
//! transaction and ask the ledger from the caller. Its contracts say what holds
//! for whatever those functions return.
//!
//! - [`records`]: the rows of the two tables behind the store.
//! - [`hash_key`]: the key under which a hash is filed.
//! - [`store`]: the state of the store as the contracts see it.
//! - [`queue`]: the queue and how rows are grouped into it.
//! - [`loader`]: what it means to load the queue.
//! - [`garbage`]: the pass that finds what the ledger already holds.
//! - [`schema`]: the store itself, with its operations.
//! - [`laws`]: what holds across the operations.
//! - [`error`]: the failures.

pub mod error;
pub mod garbage;
pub mod hash_key;
pub mod laws;
pub mod loader;
pub mod queue;
pub mod records;
pub mod schema;
pub mod store;

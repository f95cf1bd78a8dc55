//! Multi-version concurrency control for a transactional key-value store.
//!
//! - `codec`: raw keys with an appended, inverted big-endian timestamp.
//! - `table`, `store`: the lock, write and default column families of a
//!   snapshot, the buffered changes a transaction makes, and the reads the
//!   transaction engine needs.
//! - `txn`, `commands`: prewrite, pessimistic locking, commit, rollback,
//!   cleanup and garbage collection.
//! - `order`, `cursor`, `scanner`: key order, cursors over one family, and
//!   the forward scanner that reconciles locks and versions.
//! - `waiter`: the pessimistic-lock wait table and the wait manager's
//!   decisions.
//! - `labels`, `logical_rows`, `evaluate`: store labels, logical row
//!   indices and evaluation error codes.
use vstd::prelude::*;

pub mod codec;
pub mod types;
pub mod table;
pub mod errors;
pub mod store;
pub mod txn;
pub mod waiter;
pub mod labels;
pub mod logical_rows;
pub mod order;
pub mod cursor;
pub mod scanner;
pub mod evaluate;
pub mod commands;

verus! {

} // verus!

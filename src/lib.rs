use vstd::prelude::*;

pub mod begin;
pub mod docids;
pub mod freeids;
pub mod graph;
pub mod keys;
pub mod number;
pub mod kvs;
pub mod plan;
pub mod planner;
pub mod state;
pub mod strand;

use crate::state::DecodeError;

verus! {

/// Compact surrogate for a document key, used inside secondary indexes.
pub type DocId = u64;

/// The errors of the index and planning core.
#[derive(Clone, Copy, Debug, PartialEq, Eq, Structural)]
pub enum Error {
    /// A write was attempted in a read transaction.
    TxReadonly,
    /// A persisted state record matched none of the known layouts, or
    /// holds free ids beyond its counter.
    Revision(DecodeError),
    /// Every id is taken and none is free.
    IdsExhausted,
    /// Bytes that match no key layout.
    InvalidKey,
}

} // verus!

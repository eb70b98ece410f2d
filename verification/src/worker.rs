//! The replies a background worker sends back to the UI.

use vstd::prelude::*;
use crate::engine::{Progress, QuantizeResult};
use crate::tile_reduce::TileReduceResult;

verus! {

/// What a worker sends back. Exactly one of the `*Done` variants ends a
/// request; `Progress` may arrive any number of times before it.
#[derive(Debug, Clone)]
pub enum WorkerReply {
    Progress(Progress),
    /// `None` when the run was cancelled.
    QuantizeDone(Option<Result<QuantizeResult, String>>),
    /// `None` when the run was cancelled.
    TileReduceDone(Option<TileReduceResult>),
}

impl WorkerReply {
    /// Whether this reply ends its request.
    pub fn is_final(&self) -> (done: bool)
        ensures
            done == !(self is Progress),
    {
        match self {
            WorkerReply::Progress(_) => false,
            _ => true,
        }
    }
}

} // verus!

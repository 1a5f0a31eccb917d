//! Failure taxonomy of the batch core. A batch either fully resolves, with one
//! result per request, or fails as a whole with one of these errors.

use vstd::prelude::*;

verus! {

/// Why a whole batch failed.
#[derive(Clone, Copy, Debug, PartialEq, Eq)]
pub enum BatchError {
    /// Partition-to-node resolution failed: the topology has no owner for a
    /// request's partition. Fails the entire batch.
    Routing,
    /// A worker task did not run to completion.
    Scheduling,
    /// The network collaborator failed during a node's round trip, or its
    /// response did not match the request group.
    Execution,
}

} // verus!

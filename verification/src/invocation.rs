//! The life cycle of a function invocation in a serverless platform.

use vstd::prelude::*;

verus! {

/// Where an invocation stands in its life cycle.
#[derive(Clone, Copy, Debug, PartialEq, Eq, Structural)]
pub enum InvocationStatus {
    /// Invocation is registered, but simulation time has not reached its arrival time yet.
    NotArrived,
    /// Invocation is queued at one of the invokers.
    Queued,
    /// Invocation is waiting for the assigned container to start.
    WaitingForContainer,
    /// Invocation is running.
    Running,
    /// Invocation is finished.
    Finished,
}

} // verus!

use vstd::prelude::*;

verus! {

/// What one resumption of a computation reports.
#[derive(Clone, Copy, Debug, PartialEq, Eq, Structural)]
pub enum Poll {
    /// The computation ran to completion.
    Ready,
    /// The computation suspended and waits to be woken.
    Pending,
}

/// A wake signal was delivered for a task that the task table no longer
/// holds: it was woken twice, or a timer outlived it. The reactor treats this
/// as a programming error and gives up the run.
#[derive(Clone, Copy, Debug, PartialEq, Eq, Structural)]
pub struct StaleWakeError {
    pub task_id: usize,
}

} // verus!

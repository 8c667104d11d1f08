//! Running the tasks in dependency order.

pub mod scheduler;
pub mod task;

use vstd::prelude::*;

verus! {

/// How many rounds the runner waits for the tasks before it gives up.
pub const MAX_ITERATIONS: u32 = 10;

/// How a run ended.
#[derive(Debug, PartialEq, Eq, Structural)]
pub enum RunOutcome {
    /// Every task has completed.
    AllExecuted,
    /// The runner stopped before its last round with tasks left over.
    CyclicDependency,
    /// The runner used all its rounds with tasks left over.
    TimedOut,
}

/// The outcome of a run that completed `executed` of `total` tasks and
/// stopped after `iterations` rounds.
pub fn run_outcome(executed: usize, total: usize, iterations: u32) -> (r: RunOutcome)
    ensures
        r == (if executed == total {
            RunOutcome::AllExecuted
        } else if iterations < MAX_ITERATIONS {
            RunOutcome::CyclicDependency
        } else {
            RunOutcome::TimedOut
        }),
{
    if executed == total {
        RunOutcome::AllExecuted
    } else if iterations < MAX_ITERATIONS {
        RunOutcome::CyclicDependency
    } else {
        RunOutcome::TimedOut
    }
}

} // verus!

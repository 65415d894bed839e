//! How many worker threads the directory walk may use.

use vstd::prelude::*;

verus! {

/// The walk never uses more worker threads than this.
pub const MAX_WORKERS: usize = 4;

/// The size of the worker pool on a machine with `cpus` processors: half of
/// them, rounded down, and at most [`MAX_WORKERS`]. With a single processor
/// that is no worker at all, and the walk is left to choose for itself.
pub open spec fn pool_size(cpus: nat) -> nat {
    if cpus / 2 < MAX_WORKERS as nat {
        cpus / 2
    } else {
        MAX_WORKERS as nat
    }
}

/// The number of processors that the machine offers to this process.
///
/// Calls `num_cpus::get`. The count depends on the machine, on the affinity
/// mask of the thread and on cgroup quotas, so nothing is claimed of it: not
/// even that it is at least one, which the pool size does not depend on.
#[verifier::external_body]
fn available_cpus() -> usize {
    num_cpus::get()
}

/// The size of the worker pool for a given processor count.
pub fn worker_threads_for(cpus: usize) -> (threads: usize)
    ensures
        threads as nat == pool_size(cpus as nat),
{
    let half: usize = cpus / 2;
    if half < MAX_WORKERS {
        half
    } else {
        MAX_WORKERS
    }
}

/// The size of the worker pool on this machine.
pub fn worker_threads() -> (threads: usize)
    ensures
        exists|cpus: nat| threads as nat == #[trigger] pool_size(cpus),
        threads <= MAX_WORKERS,
{
    let cpus: usize = available_cpus();
    worker_threads_for(cpus)
}

} // verus!

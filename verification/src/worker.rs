//! What a worker of the parallel executor does next, given what it saw.
use vstd::prelude::*;

verus! {

/// What the executor asks of its workers.
#[derive(Clone, Copy)]
pub enum ExecutorState {
    Pausing,
    Running,
    Exit,
}

/// What a worker does after it ran its own queue and polled its futures.
#[derive(Clone, Copy)]
pub enum WorkerAction {
    /// Help finish the work in flight, then wait for the executor to run again.
    Pause,
    /// Look for more work.
    Continue,
    /// Stop.
    Exit,
}

/// What a worker does after its own queue ran dry: pause when the executor
/// is pausing, stop when it exits, and otherwise go on.
pub fn after_own_work(state: ExecutorState) -> (a: WorkerAction)
    ensures
        state is Pausing <==> a is Pause,
        state is Running <==> a is Continue,
        state is Exit <==> a is Exit,
{
    match state {
        ExecutorState::Pausing => WorkerAction::Pause,
        ExecutorState::Running => WorkerAction::Continue,
        ExecutorState::Exit => WorkerAction::Exit,
    }
}

/// What a worker does once its pause ends: stop when the executor exits,
/// otherwise go on.
pub fn after_pause(state: ExecutorState) -> (a: WorkerAction)
    ensures
        state is Exit <==> a is Exit,
        !(state is Exit) <==> a is Continue,
{
    match state {
        ExecutorState::Exit => WorkerAction::Exit,
        _ => WorkerAction::Continue,
    }
}

/// Whether a worker that found no work of its own waits for a system to
/// finish: it does when it started none from the waiting systems (or could
/// not look at them) and took none from another worker.
pub fn should_wait(looked_at_waiting: bool, started_some: bool, stole_some: bool) -> (w: bool)
    ensures
        w == (!(looked_at_waiting && started_some) && !stole_some),
{
    !(looked_at_waiting && started_some) && !stole_some
}

/// Whether a worker that pauses is the last of `n_workers` to do so, given
/// how many had paused before it; the last one tells the executor that all
/// work is flushed.
pub fn last_to_pause(paused_before: usize, n_workers: usize) -> (last: bool)
    requires
        n_workers > 0,
    ensures
        last == (paused_before + 1 == n_workers),
{
    paused_before == n_workers - 1
}

} // verus!

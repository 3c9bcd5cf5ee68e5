//! The life of the tunnel process of one batch, as a state machine.
//!
//! The caller starts, watches and ends the process; what to do next is
//! decided here. A process is ready once it has given a first sign of life
//! on its diagnostic output. If that sign does not come, the end of the
//! process is awaited, what it wrote is read, and the start has failed. A
//! stop ends the process wherever one may be running, after a failed start
//! too; the process is ended once however often a stop is asked for, and a
//! fault while ending it is a warning, no failure.

use vstd::prelude::*;

verus! {

/// Where the tunnel process of a batch stands.
#[derive(Debug, Clone, Copy, PartialEq, Eq, Structural)]
pub enum TunnelState {
    /// Nothing was asked for yet.
    Idle,
    /// The process was asked for.
    Spawning,
    /// The process runs; its first sign of life is awaited.
    Starting,
    /// No sign of life came; the end of the process is awaited.
    Exiting,
    /// The process has ended; what it wrote is read.
    Draining,
    /// The process runs and listens.
    Ready,
    /// The process was told to end.
    Stopping,
    /// The process is gone, or never was.
    Stopped,
    /// The start has failed, and the process may still be running.
    Aborted,
    /// The start has failed, and no process is left.
    Failed,
}

/// What the caller saw.
#[derive(Debug, Clone, Copy, PartialEq, Eq, Structural)]
pub enum TunnelEvent {
    /// A batch is at hand.
    Start,
    /// The process runs.
    Spawned,
    /// The process could not be started.
    SpawnFailed,
    /// The process wrote a first byte.
    FirstByte,
    /// No first byte could be read.
    ReadFailed,
    /// The process has ended.
    Exited,
    /// The end of the process could not be awaited.
    WaitFailed,
    /// All that the process wrote was read.
    Drained,
    /// What the process wrote could not be read.
    DrainFailed,
    /// The batch is done, or given up.
    Stop,
    /// The process was ended.
    Killed,
    /// The process could not be ended.
    KillFailed,
}

/// The fault that a failed start is reported with.
#[derive(Debug, Clone, Copy, PartialEq, Eq, Structural)]
pub enum LaunchFault {
    /// The fault of starting the process.
    Spawn,
    /// The fault of reading the first byte, with all that the process wrote.
    FirstByte,
    /// The fault of awaiting the end of the process.
    Wait,
    /// The fault of reading what the process wrote.
    Drain,
}

/// What the caller is to do.
#[derive(Debug, Clone, Copy, PartialEq, Eq, Structural)]
pub enum TunnelAction {
    /// Start the process.
    Spawn,
    /// Read one byte of the diagnostic output.
    AwaitFirstByte,
    /// Wait for the process to end.
    AwaitExit,
    /// Read the rest of the diagnostic output.
    Drain,
    /// End the process and wait until it is gone.
    Kill,
    /// Go on with the batch.
    Proceed,
    /// Give the run up: the process did not start.
    Fail(LaunchFault),
    /// Note the fault of ending the process, and go on.
    Warn,
    /// Nothing.
    Nothing,
}

/// A process may be running.
pub open spec fn holds_process(state: TunnelState) -> bool {
    state is Starting || state is Exiting || state is Ready || state is Aborted
        || state is Stopping
}

/// The state after an event, and what the caller is to do. An event that
/// the state does not await changes nothing.
pub open spec fn next(state: TunnelState, event: TunnelEvent) -> (TunnelState, TunnelAction) {
    match (state, event) {
        (TunnelState::Idle, TunnelEvent::Start) => (TunnelState::Spawning, TunnelAction::Spawn),
        (TunnelState::Spawning, TunnelEvent::Spawned) => (
            TunnelState::Starting,
            TunnelAction::AwaitFirstByte,
        ),
        (TunnelState::Spawning, TunnelEvent::SpawnFailed) => (
            TunnelState::Failed,
            TunnelAction::Fail(LaunchFault::Spawn),
        ),
        (TunnelState::Starting, TunnelEvent::FirstByte) => (
            TunnelState::Ready,
            TunnelAction::Proceed,
        ),
        (TunnelState::Starting, TunnelEvent::ReadFailed) => (
            TunnelState::Exiting,
            TunnelAction::AwaitExit,
        ),
        (TunnelState::Exiting, TunnelEvent::Exited) => (
            TunnelState::Draining,
            TunnelAction::Drain,
        ),
        (TunnelState::Exiting, TunnelEvent::WaitFailed) => (
            TunnelState::Aborted,
            TunnelAction::Fail(LaunchFault::Wait),
        ),
        (TunnelState::Draining, TunnelEvent::Drained) => (
            TunnelState::Failed,
            TunnelAction::Fail(LaunchFault::FirstByte),
        ),
        (TunnelState::Draining, TunnelEvent::DrainFailed) => (
            TunnelState::Failed,
            TunnelAction::Fail(LaunchFault::Drain),
        ),
        (TunnelState::Stopping, TunnelEvent::Killed) => (
            TunnelState::Stopped,
            TunnelAction::Nothing,
        ),
        (TunnelState::Stopping, TunnelEvent::KillFailed) => (
            TunnelState::Stopped,
            TunnelAction::Warn,
        ),
        (TunnelState::Stopping, TunnelEvent::Stop) => (
            TunnelState::Stopping,
            TunnelAction::Nothing,
        ),
        (_, TunnelEvent::Stop) => if holds_process(state) {
            (TunnelState::Stopping, TunnelAction::Kill)
        } else {
            (TunnelState::Stopped, TunnelAction::Nothing)
        },
        _ => (state, TunnelAction::Nothing),
    }
}

/// Takes an event in.
pub fn step(state: TunnelState, event: TunnelEvent) -> (r: (TunnelState, TunnelAction))
    ensures
        r == next(state, event),
{
    match (state, event) {
        (TunnelState::Idle, TunnelEvent::Start) => (TunnelState::Spawning, TunnelAction::Spawn),
        (TunnelState::Spawning, TunnelEvent::Spawned) => (
            TunnelState::Starting,
            TunnelAction::AwaitFirstByte,
        ),
        (TunnelState::Spawning, TunnelEvent::SpawnFailed) => (
            TunnelState::Failed,
            TunnelAction::Fail(LaunchFault::Spawn),
        ),
        (TunnelState::Starting, TunnelEvent::FirstByte) => (
            TunnelState::Ready,
            TunnelAction::Proceed,
        ),
        (TunnelState::Starting, TunnelEvent::ReadFailed) => (
            TunnelState::Exiting,
            TunnelAction::AwaitExit,
        ),
        (TunnelState::Exiting, TunnelEvent::Exited) => (
            TunnelState::Draining,
            TunnelAction::Drain,
        ),
        (TunnelState::Exiting, TunnelEvent::WaitFailed) => (
            TunnelState::Aborted,
            TunnelAction::Fail(LaunchFault::Wait),
        ),
        (TunnelState::Draining, TunnelEvent::Drained) => (
            TunnelState::Failed,
            TunnelAction::Fail(LaunchFault::FirstByte),
        ),
        (TunnelState::Draining, TunnelEvent::DrainFailed) => (
            TunnelState::Failed,
            TunnelAction::Fail(LaunchFault::Drain),
        ),
        (TunnelState::Stopping, TunnelEvent::Killed) => (
            TunnelState::Stopped,
            TunnelAction::Nothing,
        ),
        (TunnelState::Stopping, TunnelEvent::KillFailed) => (
            TunnelState::Stopped,
            TunnelAction::Warn,
        ),
        (TunnelState::Stopping, TunnelEvent::Stop) => (
            TunnelState::Stopping,
            TunnelAction::Nothing,
        ),
        (TunnelState::Starting, TunnelEvent::Stop) => (TunnelState::Stopping, TunnelAction::Kill),
        (TunnelState::Exiting, TunnelEvent::Stop) => (TunnelState::Stopping, TunnelAction::Kill),
        (TunnelState::Ready, TunnelEvent::Stop) => (TunnelState::Stopping, TunnelAction::Kill),
        (TunnelState::Aborted, TunnelEvent::Stop) => (TunnelState::Stopping, TunnelAction::Kill),
        (_, TunnelEvent::Stop) => (TunnelState::Stopped, TunnelAction::Nothing),
        _ => (state, TunnelAction::Nothing),
    }
}

/// A stop that follows a stop asks for nothing more: the process is ended
/// once, and a stopped supervisor stays stopped whatever comes.
pub proof fn lemma_stop_once(state: TunnelState, event: TunnelEvent)
    ensures
        next(next(state, TunnelEvent::Stop).0, TunnelEvent::Stop).1 == TunnelAction::Nothing,
        next(TunnelState::Stopped, event) == (TunnelState::Stopped, TunnelAction::Nothing),
{
}

/// The process is ended only where one may be running, and after a stop
/// none is left but the one that is being ended.
pub proof fn lemma_kill_has_process(state: TunnelState, event: TunnelEvent)
    ensures
        next(state, event).1 == TunnelAction::Kill ==> holds_process(state) && event
            == TunnelEvent::Stop,
        next(state, TunnelEvent::Stop).0 == TunnelState::Stopping || next(
            state,
            TunnelEvent::Stop,
        ).0 == TunnelState::Stopped,
{
}

/// A supervisor becomes ready by the first byte of a process that was
/// started, and in no other way.
pub proof fn lemma_ready_by_first_byte(state: TunnelState, event: TunnelEvent)
    ensures
        next(state, event).0 == TunnelState::Ready && state != TunnelState::Ready ==> state
            == TunnelState::Starting && event == TunnelEvent::FirstByte,
        next(state, event).1 == TunnelAction::Proceed <==> state == TunnelState::Starting && event
            == TunnelEvent::FirstByte,
{
}

/// A start fails with the fault of the step that failed; the fault of the
/// first byte is reported only once the process has ended and what it wrote
/// was read. After a failed start a process is left only where its end
/// could not be awaited, and a stop then ends it.
pub proof fn lemma_failure(state: TunnelState, event: TunnelEvent)
    ensures
        next(state, event).1 == TunnelAction::Fail(LaunchFault::FirstByte) <==> state
            == TunnelState::Draining && event == TunnelEvent::Drained,
        next(state, event).1 is Fail ==> next(state, event).0 == TunnelState::Failed || next(
            state,
            event,
        ).0 == TunnelState::Aborted,
        next(state, event).0 == TunnelState::Aborted && state != TunnelState::Aborted ==> state
            == TunnelState::Exiting && event == TunnelEvent::WaitFailed,
        next(TunnelState::Aborted, TunnelEvent::Stop) == (
            TunnelState::Stopping,
            TunnelAction::Kill,
        ),
{
}

} // verus!

//! The decisions of the background flusher: what to do when its wait for a
//! shutdown signal ends. The thread, the timer and the channel are the
//! caller's.
use vstd::prelude::*;

verus! {

/// How a wait of the background flusher ended.
#[derive(Debug, Clone, Copy, PartialEq, Eq, Structural)]
pub enum FlushEvent {
    /// A shutdown signal arrived.
    ShutdownSignal,
    /// The sending side of the channel is gone.
    Disconnected,
    /// The flush interval passed without a signal.
    Timeout,
}

/// What the background flusher does next.
#[derive(Debug, Clone, Copy, PartialEq, Eq, Structural)]
pub enum FlushAction {
    /// Flush every dirty page, then wait again.
    FlushAndWait,
    /// Leave the loop, flushing every dirty page one last time.
    FinalFlushAndStop,
}

/// A timeout leads to a flush and another wait; a shutdown signal or a lost
/// channel ends the loop with a final flush.
pub fn next_flush_action(event: FlushEvent) -> (action: FlushAction)
    ensures
        action == (if event == FlushEvent::Timeout {
            FlushAction::FlushAndWait
        } else {
            FlushAction::FinalFlushAndStop
        }),
{
    match event {
        FlushEvent::ShutdownSignal | FlushEvent::Disconnected => FlushAction::FinalFlushAndStop,
        FlushEvent::Timeout => FlushAction::FlushAndWait,
    }
}

} // verus!

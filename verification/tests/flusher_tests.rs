use smol_db::storage::flusher::{next_flush_action, FlushAction, FlushEvent};

#[test]
fn timeout_flushes_and_waits_signal_stops() {
    assert_eq!(next_flush_action(FlushEvent::Timeout), FlushAction::FlushAndWait);
    assert_eq!(
        next_flush_action(FlushEvent::ShutdownSignal),
        FlushAction::FinalFlushAndStop
    );
    assert_eq!(
        next_flush_action(FlushEvent::Disconnected),
        FlushAction::FinalFlushAndStop
    );
}

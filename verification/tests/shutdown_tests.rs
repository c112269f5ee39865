use universal_agent_runtime::server::{
    ShutdownCoordinator, ShutdownStart, SHUTDOWN_DEADLINE_MARKER, SHUTDOWN_GRACEFUL_MARKER,
};

#[test]
fn only_the_first_begin_arms_the_watchdogs() {
    let mut coordinator = ShutdownCoordinator::new();
    match coordinator.begin(5_000) {
        ShutdownStart::Arm { deadline_ms, hard_stop_ms } => {
            assert_eq!(deadline_ms, 5_000);
            assert_eq!(hard_stop_ms, 5_500);
        }
        ShutdownStart::AlreadyStarted => panic!("first begin arms"),
    }
    assert!(matches!(coordinator.begin(1), ShutdownStart::AlreadyStarted));
}

#[test]
fn completion_before_shutdown_writes_nothing() {
    let mut coordinator = ShutdownCoordinator::new();
    assert_eq!(coordinator.complete(), None);
    assert!(coordinator.wait_expired());
}

#[test]
fn the_graceful_marker_is_written_once_and_disarms_the_watchdog() {
    let mut coordinator = ShutdownCoordinator::new();
    coordinator.begin(100);
    assert!(coordinator.wait_expired());
    assert_eq!(coordinator.complete(), Some(SHUTDOWN_GRACEFUL_MARKER));
    assert_eq!(SHUTDOWN_GRACEFUL_MARKER, "UAR_SHUTDOWN outcome=graceful_complete\n");
    assert_eq!(coordinator.complete(), None);
    assert!(!coordinator.wait_expired());
    assert_eq!(SHUTDOWN_DEADLINE_MARKER, "UAR_SHUTDOWN outcome=deadline_enforced\n");
}

#[test]
fn cleanup_is_awaited_only_during_shutdown() {
    let mut coordinator = ShutdownCoordinator::new();
    assert!(!coordinator.must_wait_for_cleanup());
    coordinator.begin(100);
    assert!(coordinator.must_wait_for_cleanup());
    coordinator.mark_cleanup_complete();
    assert!(!coordinator.must_wait_for_cleanup());
}

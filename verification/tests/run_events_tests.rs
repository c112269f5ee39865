use universal_agent_runtime::mcp::binding_cache::McpBindingError;
use universal_agent_runtime::mcp::run_events::{Delivery, McpRunEvents};

#[test]
fn stale_and_repeated_snapshots_are_not_published() {
    let mut events = McpRunEvents::new("run-1".to_string(), "alice".to_string());
    assert_eq!(events.run_id(), "run-1");
    assert_eq!(events.decide(7, 1), Delivery::Deliver { gap: false });
    assert_eq!(events.decide(7, 1), Delivery::Skip);
    assert_eq!(events.decide(7, 2), Delivery::Deliver { gap: false });
    assert_eq!(events.decide(7, 5), Delivery::Deliver { gap: true });
    assert_eq!(events.decide(7, 4), Delivery::Skip);
    assert_eq!(events.decide(8, 0), Delivery::Deliver { gap: false });
}

#[test]
fn only_the_run_owner_may_observe() {
    let events = McpRunEvents::new("run-1".to_string(), "alice".to_string());
    assert!(events.check_owner("alice", "time").is_ok());
    match events.check_owner("bob", "time") {
        Err(McpBindingError::InvalidBinding { server }) => assert_eq!(server, "time"),
        _ => panic!("another owner is refused"),
    }
}

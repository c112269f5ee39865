use universal_agent_runtime::mcp::binding_cache::{lifecycle_failure, McpBindingError};
use universal_agent_runtime::mcp::lifecycle::{
    advance, cancel_connecting, healthy, initial_record, publish, transition, LifecycleRecord, McpServerState,
    McpStateReason,
};
use universal_agent_runtime::mcp::preflight::{availability_failure, preflight_step, McpPreflightError, McpServerFailure, PreflightStep, PreparationOutcome};
use universal_agent_runtime::mcp::runtime::McpRuntimeError;

#[test]
fn a_binding_starts_disabled_or_waiting_for_authentication() {
    let open = initial_record(7, false);
    assert_eq!(open.state, McpServerState::Disabled);
    assert_eq!(open.reason, None);
    assert_eq!(open.sequence, 0);
    let gated = initial_record(7, true);
    assert_eq!(gated.state, McpServerState::AuthRequired);
    assert_eq!(gated.reason, Some(McpStateReason::AuthenticationRequired));
}

#[test]
fn transitions_publish_only_changes_of_the_current_generation() {
    let start = initial_record(1, false);
    let connecting = transition(start, 1, McpServerState::Connecting, None).unwrap();
    assert_eq!(connecting.sequence, 1);
    assert!(transition(connecting, 1, McpServerState::Connecting, None).is_none());
    assert!(transition(connecting, 2, McpServerState::Ready, None).is_none());
    let ready = transition(connecting, 1, McpServerState::Ready, None).unwrap();
    assert!(healthy(&ready));
    assert!(!healthy(&connecting));
    let down = publish(ready, 1, McpServerState::ShuttingDown, None);
    assert!(transition(down, 1, McpServerState::Ready, None).is_none());
    let next = advance(down, 2, McpStateReason::Invalidated);
    assert_eq!(next.generation, 2);
    assert_eq!(next.state, McpServerState::Disabled);
    assert_eq!(next.sequence, 4);
}

#[test]
fn sequence_numbers_saturate() {
    let last = LifecycleRecord { generation: 1, sequence: u64::MAX, state: McpServerState::Ready, reason: None };
    assert_eq!(publish(last, 1, McpServerState::Failed, None).sequence, u64::MAX);
}

#[test]
fn only_a_connecting_binding_can_be_cancelled() {
    let start = initial_record(1, false);
    assert!(cancel_connecting(start, 1).is_none());
    let connecting = transition(start, 1, McpServerState::Connecting, None).unwrap();
    let failed = cancel_connecting(connecting, 1).unwrap();
    assert_eq!(failed.state, McpServerState::Failed);
    assert_eq!(failed.reason, Some(McpStateReason::Cancelled));
    assert!(cancel_connecting(connecting, 9).is_none());
}

#[test]
fn binding_failures_map_to_lifecycle_states() {
    let server = || "s".to_string();
    assert_eq!(
        lifecycle_failure(&McpBindingError::AuthenticationRequired { server: server() }),
        (McpServerState::AuthRequired, Some(McpStateReason::AuthenticationRequired))
    );
    assert_eq!(
        lifecycle_failure(&McpBindingError::ConnectionFailed { server: server() }),
        (McpServerState::Failed, Some(McpStateReason::ConnectionFailed))
    );
    assert_eq!(lifecycle_failure(&McpBindingError::ShuttingDown), (McpServerState::ShuttingDown, None));
}

#[test]
fn availability_failures_exclude_invariant_violations() {
    let s = || "s".to_string();
    assert_eq!(
        availability_failure(&McpRuntimeError::Binding(McpBindingError::IncompleteCatalog { server: s() })),
        Some(McpServerFailure::Discovery)
    );
    assert_eq!(
        availability_failure(&McpRuntimeError::TimedOut { server: s(), operation: "readiness" }),
        Some(McpServerFailure::Timeout)
    );
    assert_eq!(availability_failure(&McpRuntimeError::Binding(McpBindingError::Invalidated { server: s() })), None);
    assert_eq!(availability_failure(&McpRuntimeError::CatalogChanged { server: s() }), None);
}

#[test]
fn preflight_omits_optional_servers_and_stops_on_required_ones() {
    let conn = || PreparationOutcome::Failed(McpRuntimeError::Binding(McpBindingError::ConnectionFailed { server: "x".to_string() }));
    match preflight_step("x", false, false, conn()) {
        PreflightStep::Omit(w) => {
            assert_eq!(w.server(), "x");
            assert_eq!(w.reason(), McpServerFailure::Connection);
        },
        _ => panic!("an optional server is omitted"),
    }
    assert!(matches!(
        preflight_step("x", true, false, conn()),
        PreflightStep::Stop(McpPreflightError::RequiredServer { reason: McpServerFailure::Connection, .. })
    ));
    assert!(matches!(preflight_step("x", false, true, conn()), PreflightStep::Stop(McpPreflightError::Cancelled)));
    assert!(matches!(preflight_step("x", true, true, PreparationOutcome::Prepared), PreflightStep::Keep));
    assert!(matches!(
        preflight_step("x", false, true, PreparationOutcome::EnvironmentFailed),
        PreflightStep::Omit(_)
    ));
    let invalid = PreparationOutcome::Failed(McpRuntimeError::Binding(McpBindingError::InvalidBinding { server: "x".to_string() }));
    assert!(matches!(
        preflight_step("x", false, false, invalid),
        PreflightStep::Stop(McpPreflightError::Interrupted { ref server, .. }) if server == "x"
    ));
    assert_eq!(
        McpServerFailure::Timeout.message(),
        "readiness timed out; check server responsiveness and the readiness timeout"
    );
    assert_eq!(McpServerFailure::Environment.code(), "environment");
}

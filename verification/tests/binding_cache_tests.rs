use std::sync::Arc;

use universal_agent_runtime::mcp::binding_cache::{
    ConnectStep, McpBindingCache, McpBindingEnvironment, McpBindingError, McpBindingKey, McpBindingRequest,
};
use universal_agent_runtime::mcp::catalog::{ServerAuthentication, ServerDefinition, ServerSource};
use universal_agent_runtime::mcp::config::McpServerEntry;
use universal_agent_runtime::mcp::lifecycle::{McpServerState, McpStateReason};
use universal_agent_runtime::mcp::projection::ServerToolCatalog;

fn definition(name: &str, authentication: ServerAuthentication) -> Arc<ServerDefinition> {
    let entry = McpServerEntry::Stdio { command: "srv".to_string(), args: Vec::new(), env: Vec::new(), sandboxed: false };
    Arc::new(ServerDefinition::new(name.to_string(), ServerSource::Global, entry, false, authentication).ok().unwrap())
}

fn request(owner: &str, name: &str, authentication: ServerAuthentication) -> McpBindingRequest {
    let env = Arc::new(McpBindingEnvironment::new("/srv".to_string(), Vec::new()).ok().unwrap());
    McpBindingRequest::new(owner.to_string(), definition(name, authentication), env)
}

fn catalog(name: &str) -> ServerToolCatalog {
    ServerToolCatalog::new(definition(name, ServerAuthentication::NotRequired), Vec::new(), true).ok().unwrap()
}

fn key(r: &McpBindingRequest) -> &McpBindingKey {
    r.key()
}

#[test]
fn a_new_key_starts_dormant_and_is_pinned() {
    let mut cache = McpBindingCache::new();
    let req = request("alice", "time", ServerAuthentication::NotRequired);
    let ticket = cache.pin(key(&req)).ok().unwrap();
    assert!(cache.check_ticket(&ticket).is_ok());
    let record = cache.lifecycle(&ticket).ok().unwrap();
    assert_eq!(record.state, McpServerState::Disabled);
    assert_eq!(record.sequence, 0);
    assert!(cache.catalog(&ticket).ok().unwrap().is_none());
    let again = cache.pin(key(&req)).ok().unwrap();
    assert!(cache.check_ticket(&again).is_ok());
}

#[test]
fn unauthenticated_bindings_start_auth_required_and_never_connect() {
    let mut cache = McpBindingCache::new();
    let req = request("alice", "mail", ServerAuthentication::Required);
    let record = cache.observe(key(&req)).ok().unwrap();
    assert_eq!(record.state, McpServerState::AuthRequired);
    assert_eq!(record.reason, Some(McpStateReason::AuthenticationRequired));
    let ticket = cache.pin(key(&req)).ok().unwrap();
    match cache.begin_connect(&ticket, key(&req)) {
        Err(McpBindingError::AuthenticationRequired { server }) => assert_eq!(server, "mail"),
        _ => panic!("authentication must complete first"),
    }
}

#[test]
fn one_attempt_is_shared_and_its_result_is_reused() {
    let mut cache = McpBindingCache::new();
    let req = request("alice", "time", ServerAuthentication::NotRequired);
    let ticket = cache.pin(key(&req)).ok().unwrap();
    let lead = match cache.begin_connect(&ticket, key(&req)) {
        Ok(ConnectStep::Lead(id)) => id,
        _ => panic!("the first caller leads"),
    };
    assert_eq!(cache.lifecycle(&ticket).ok().unwrap().state, McpServerState::Connecting);
    match cache.begin_connect(&ticket, key(&req)) {
        Ok(ConnectStep::Wait(id)) => assert_eq!(id, lead),
        _ => panic!("a second caller waits on the same attempt"),
    }
    assert_eq!(cache.finish_refresh(key(&req), lead, Ok((7, catalog("time")))).ok(), Some(7));
    assert_eq!(cache.lifecycle(&ticket).ok().unwrap().state, McpServerState::Ready);
    assert!(cache.catalog(&ticket).ok().unwrap().is_some());
    match cache.begin_connect(&ticket, key(&req)) {
        Ok(ConnectStep::Ready(b)) => assert_eq!(b, 7),
        _ => panic!("a ready binding is reused"),
    }
}

#[test]
fn a_failed_attempt_publishes_its_reason() {
    let mut cache = McpBindingCache::new();
    let req = request("alice", "time", ServerAuthentication::NotRequired);
    let ticket = cache.pin(key(&req)).ok().unwrap();
    let lead = match cache.begin_connect(&ticket, key(&req)) {
        Ok(ConnectStep::Lead(id)) => id,
        _ => panic!("the first caller leads"),
    };
    let err = McpBindingError::ConnectionFailed { server: "time".to_string() };
    assert!(matches!(cache.finish_refresh(key(&req), lead, Err(err)), Err(McpBindingError::ConnectionFailed { .. })));
    let record = cache.lifecycle(&ticket).ok().unwrap();
    assert_eq!(record.state, McpServerState::Failed);
    assert_eq!(record.reason, Some(McpStateReason::ConnectionFailed));
}

#[test]
fn invalidation_refuses_old_tickets_and_stale_attempts() {
    let mut cache = McpBindingCache::new();
    let req = request("alice", "time", ServerAuthentication::NotRequired);
    let ticket = cache.pin(key(&req)).ok().unwrap();
    let lead = match cache.begin_connect(&ticket, key(&req)) {
        Ok(ConnectStep::Lead(id)) => id,
        _ => panic!("the first caller leads"),
    };
    let cancel = cache.invalidate(key(&req));
    assert_eq!(cancel, vec![lead]);
    match cache.check_ticket(&ticket) {
        Err(McpBindingError::Invalidated { server }) => assert_eq!(server, "time"),
        _ => panic!("an invalidated generation is refused"),
    }
    match cache.finish_refresh(key(&req), lead, Ok((9, catalog("time")))) {
        Err(McpBindingError::Invalidated { .. }) => {},
        _ => panic!("a stale attempt must not install its binding"),
    }
    let fresh = cache.pin(key(&req)).ok().unwrap();
    let record = cache.lifecycle(&fresh).ok().unwrap();
    assert_eq!(record.state, McpServerState::Disabled);
    assert_eq!(record.reason, Some(McpStateReason::Invalidated));
    assert!(matches!(cache.begin_connect(&fresh, key(&req)), Ok(ConnectStep::Lead(_))));
}

#[test]
fn owner_and_server_invalidation_leave_other_identities_alone() {
    let mut cache = McpBindingCache::new();
    let a = request("alice", "time", ServerAuthentication::NotRequired);
    let b = request("bob", "time", ServerAuthentication::NotRequired);
    let c = request("bob", "web", ServerAuthentication::NotRequired);
    let ta = cache.pin(key(&a)).ok().unwrap();
    let tb = cache.pin(key(&b)).ok().unwrap();
    let tc = cache.pin(key(&c)).ok().unwrap();
    cache.invalidate_owner("alice");
    assert!(cache.check_ticket(&ta).is_err());
    assert!(cache.check_ticket(&tb).is_ok());
    cache.invalidate_server("web");
    assert!(cache.check_ticket(&tc).is_err());
    assert!(cache.check_ticket(&tb).is_ok());
}

#[test]
fn retiring_a_connection_keeps_the_catalog_for_the_next_generation() {
    let mut cache = McpBindingCache::new();
    let req = request("alice", "time", ServerAuthentication::NotRequired);
    let ticket = cache.pin(key(&req)).ok().unwrap();
    let lead = match cache.begin_connect(&ticket, key(&req)) {
        Ok(ConnectStep::Lead(id)) => id,
        _ => panic!("the first caller leads"),
    };
    assert!(cache.finish_refresh(key(&req), lead, Ok((3, catalog("time")))).is_ok());
    assert_eq!(cache.retire_connection(&ticket).ok(), Some(None));
    assert!(cache.check_ticket(&ticket).is_err());
    let fresh = cache.pin(key(&req)).ok().unwrap();
    assert!(cache.catalog(&fresh).ok().unwrap().is_some());
    assert_eq!(cache.lifecycle(&fresh).ok().unwrap().reason, Some(McpStateReason::Retired));
}

#[test]
fn shutdown_refuses_everything_and_reaping_forgets_joined_bindings() {
    let mut cache = McpBindingCache::new();
    let req = request("alice", "time", ServerAuthentication::NotRequired);
    let ticket = cache.pin(key(&req)).ok().unwrap();
    let lead = match cache.begin_connect(&ticket, key(&req)) {
        Ok(ConnectStep::Lead(id)) => id,
        _ => panic!("the first caller leads"),
    };
    assert!(cache.finish_refresh(key(&req), lead, Ok((5, catalog("time")))).is_ok());
    let other = request("bob", "web", ServerAuthentication::NotRequired);
    let t2 = cache.pin(key(&other)).ok().unwrap();
    let lead2 = match cache.begin_connect(&t2, key(&other)) {
        Ok(ConnectStep::Lead(id)) => id,
        _ => panic!("the first caller leads"),
    };
    let awaited = cache.shutdown();
    assert_eq!(awaited, vec![lead2]);
    assert!(matches!(cache.check_ticket(&ticket), Err(McpBindingError::ShuttingDown)));
    assert!(matches!(cache.pin(key(&req)), Err(McpBindingError::ShuttingDown)));
    assert!(matches!(cache.finish_refresh(key(&other), lead2, Ok((6, catalog("web")))), Err(McpBindingError::ShuttingDown)));
    assert_eq!(cache.retired(), &vec![5, 6]);
    cache.reap_retired(&vec![5]);
    assert_eq!(cache.retired(), &vec![6]);
    cache.reap_retired(&vec![6]);
    assert!(cache.retired().is_empty());
    assert!(matches!(cache.observe(key(&req)), Err(McpBindingError::ShuttingDown)));
}

#[test]
fn a_ticket_for_another_key_is_an_invalid_binding() {
    let mut cache = McpBindingCache::new();
    let a = request("alice", "time", ServerAuthentication::NotRequired);
    let b = request("alice", "web", ServerAuthentication::NotRequired);
    let ta = cache.pin(key(&a)).ok().unwrap();
    match cache.begin_connect(&ta, key(&b)) {
        Err(McpBindingError::InvalidBinding { server }) => assert_eq!(server, "web"),
        _ => panic!("a ticket only serves its own key"),
    }
}

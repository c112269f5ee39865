use std::sync::Arc;

use universal_agent_runtime::mcp::binding_cache::{child_environment, McpBindingCache, McpBindingEnvironment, McpBindingError, McpBindingRequest};
use universal_agent_runtime::mcp::catalog::{ServerAuthentication, ServerDefinition, ServerSource};
use universal_agent_runtime::mcp::config::McpServerEntry;
use universal_agent_runtime::mcp::projection::ServerToolCatalog;
use universal_agent_runtime::mcp::runtime::{check_ready_catalog, McpRuntimeError, RunMcpCredentialLease, RunMcpGrantControl};
use universal_agent_runtime::mcp::tool_registry::{mcp_descriptor, DiscoveredTool};

fn definition(name: &str, source: ServerSource) -> Arc<ServerDefinition> {
    let entry = McpServerEntry::Stdio { command: "srv".to_string(), args: Vec::new(), env: Vec::new(), sandboxed: false };
    Arc::new(ServerDefinition::new(name.to_string(), source, entry, false, ServerAuthentication::NotRequired).ok().unwrap())
}

fn catalog(name: &str, descriptions: &[&str]) -> ServerToolCatalog {
    let tools = descriptions
        .iter()
        .enumerate()
        .map(|(i, d)| {
            let raw = format!("t{i}");
            let tool = DiscoveredTool { name: raw.clone(), description: Some(d.to_string()), read_only_hint: None, schema: "{}".to_string() };
            mcp_descriptor(name, &format!("{name}__{raw}"), &tool)
        })
        .collect();
    ServerToolCatalog::new(definition(name, ServerSource::Global), tools, true).ok().unwrap()
}

#[test]
fn leases_expire_and_stay_revoked() {
    let mut lease = RunMcpCredentialLease::new(100);
    assert!(lease.authorize("mail", 99).is_ok());
    match lease.authorize("mail", 100) {
        Err(McpBindingError::AuthenticationRequired { server }) => assert_eq!(server, "mail"),
        _ => panic!("an expired lease asks for authentication"),
    }
    assert!(lease.authorize("mail", 0).is_err());
    let mut fresh = RunMcpCredentialLease::new(100);
    fresh.revoke();
    assert!(fresh.authorize("mail", 1).is_err());
}

#[test]
fn grant_control_only_revokes_admitted_leases() {
    let connections = vec![("mail".to_string(), Some(50)), ("docs".to_string(), None)];
    let mut control = RunMcpGrantControl::from_connections(&connections);
    assert!(control.lease("docs").is_none());
    assert!(control.lease("mail").is_some());
    assert!(!control.revoke("docs"));
    assert!(control.revoke("mail"));
}

#[test]
fn a_changed_catalog_is_refused_before_use() {
    let prepared = catalog("a", &["one", "two"]);
    assert!(check_ready_catalog("a", &prepared, &catalog("a", &["one", "two"])).is_ok());
    match check_ready_catalog("a", &prepared, &catalog("a", &["one", "changed"])) {
        Err(McpRuntimeError::CatalogChanged { server }) => assert_eq!(server, "a"),
        _ => panic!("a changed descriptor must be refused"),
    }
    assert!(check_ready_catalog("a", &prepared, &catalog("a", &["one"])).is_err());
}

#[test]
fn skill_servers_may_start_lazily_from_a_cached_catalog() {
    let mut cache = McpBindingCache::new();
    let env = Arc::new(McpBindingEnvironment::new("/srv".to_string(), Vec::new()).ok().unwrap());
    let skill = McpBindingRequest::new(
        "alice".to_string(),
        definition("notes", ServerSource::Skill { skill_id: "writer".to_string() }),
        Arc::clone(&env),
    );
    let (ticket, cached) = cache.prepare(skill.key()).ok().unwrap();
    assert!(!cached);
    let lead = match cache.begin_connect(&ticket, skill.key()) {
        Ok(universal_agent_runtime::mcp::binding_cache::ConnectStep::Lead(id)) => id,
        _ => panic!("first caller leads"),
    };
    assert!(cache.finish_refresh(skill.key(), lead, Ok((1, catalog("notes", &["x"])))).is_ok());
    let (_, cached) = cache.prepare(skill.key()).ok().unwrap();
    assert!(cached);
    let global = McpBindingRequest::new("alice".to_string(), definition("time", ServerSource::Global), env);
    let (t2, _) = cache.prepare(global.key()).ok().unwrap();
    let lead = match cache.begin_connect(&t2, global.key()) {
        Ok(universal_agent_runtime::mcp::binding_cache::ConnectStep::Lead(id)) => id,
        _ => panic!("first caller leads"),
    };
    assert!(cache.finish_refresh(global.key(), lead, Ok((2, catalog("time", &["y"])))).is_ok());
    let (_, cached) = cache.prepare(global.key()).ok().unwrap();
    assert!(!cached);
}

#[test]
fn a_child_sees_only_launch_and_declared_variables() {
    let pair = |k: &str, v: &str| (k.to_string(), v.to_string());
    let captured = vec![pair("SECRET", "s"), pair("PATH", "/bin"), pair("TOKEN", "t"), pair("HOME", "/h"), pair("TMPDIR", "/tmp"), pair("PATH", "/other")];
    let declared = vec!["TOKEN".to_string(), "MISSING".to_string()];
    let env = child_environment(&captured, &declared);
    assert_eq!(env, vec![pair("PATH", "/bin"), pair("TMPDIR", "/tmp"), pair("TOKEN", "t")]);
}

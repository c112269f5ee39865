use std::sync::Arc;

use universal_agent_runtime::mcp::binding_cache::{registry_matches, McpBindingEnvironment, McpBindingRequest};
use universal_agent_runtime::mcp::catalog::{ServerAuthentication, ServerAuthority, ServerDefinition, ServerSource};
use universal_agent_runtime::mcp::config::McpServerEntry;
use universal_agent_runtime::mcp::projection::ServerToolCatalog;
use universal_agent_runtime::mcp::tool_registry::{DiscoveredTool, McpRegistry};

fn entry(command: &str) -> McpServerEntry {
    McpServerEntry::Stdio { command: command.to_string(), args: Vec::new(), env: Vec::new(), sandboxed: false }
}

fn definition(name: &str, command: &str) -> Arc<ServerDefinition> {
    Arc::new(
        ServerDefinition::new(name.to_string(), ServerSource::Global, entry(command), false, ServerAuthentication::NotRequired)
            .ok()
            .unwrap(),
    )
}

fn registry(server: &str) -> McpRegistry {
    let mut r = McpRegistry::empty();
    let tool = DiscoveredTool {
        name: "now".to_string(),
        description: Some("Current time".to_string()),
        read_only_hint: Some(true),
        schema: "{\"type\":\"object\"}".to_string(),
    };
    assert!(r.install_server_tools(server, &vec![tool]).is_ok());
    r
}

fn request(definition: Arc<ServerDefinition>) -> McpBindingRequest {
    let env = Arc::new(McpBindingEnvironment::new("/srv".to_string(), Vec::new()).ok().unwrap());
    McpBindingRequest::new("alice".to_string(), definition, env)
}

#[test]
fn a_binding_built_from_its_request_matches() {
    let def = definition("time", "time-server");
    let reg = registry("time");
    let catalog = ServerToolCatalog::new(Arc::clone(&def), reg.descriptors(), true).ok().unwrap();
    let entries = vec![("time".to_string(), entry("time-server"))];
    assert!(registry_matches(&request(def), &catalog, &reg, &entries));
}

#[test]
fn an_incomplete_catalog_never_matches() {
    let def = definition("time", "time-server");
    let reg = registry("time");
    let catalog = ServerToolCatalog::new(Arc::clone(&def), reg.descriptors(), false).ok().unwrap();
    let entries = vec![("time".to_string(), entry("time-server"))];
    assert!(!registry_matches(&request(def), &catalog, &reg, &entries));
}

#[test]
fn a_changed_configuration_never_matches() {
    let def = definition("time", "time-server");
    let reg = registry("time");
    let catalog = ServerToolCatalog::new(Arc::clone(&def), reg.descriptors(), true).ok().unwrap();
    let changed = vec![("time".to_string(), entry("other-server"))];
    assert!(!registry_matches(&request(Arc::clone(&def)), &catalog, &reg, &changed));
    let renamed = vec![("clock".to_string(), entry("time-server"))];
    assert!(!registry_matches(&request(Arc::clone(&def)), &catalog, &reg, &renamed));
    let twice = vec![("time".to_string(), entry("time-server")), ("time2".to_string(), entry("time-server"))];
    assert!(!registry_matches(&request(def), &catalog, &reg, &twice));
}

#[test]
fn a_catalog_for_another_declaration_never_matches() {
    let def = definition("time", "time-server");
    let reg = registry("time");
    let catalog = ServerToolCatalog::new(definition("time", "old-server"), Vec::new(), true).ok().unwrap();
    let entries = vec![("time".to_string(), entry("time-server"))];
    assert!(!registry_matches(&request(def), &catalog, &reg, &entries));
}

#[test]
fn authorities_and_sources_are_ordered() {
    assert!(ServerAuthority::Skill < ServerAuthority::Global);
    assert!(ServerSource::Global < ServerSource::Skill { skill_id: "a".to_string() });
    assert!(ServerSource::Skill { skill_id: "a".to_string() } < ServerSource::Skill { skill_id: "b".to_string() });
}

use std::sync::Arc;

use universal_agent_runtime::mcp::binding_cache::{EnvironmentError, McpBindingEnvironment};
use universal_agent_runtime::mcp::config::{expand_from_environment, McpServerEntry};
use universal_agent_runtime::mcp::registry::{
    merge_descriptors, namespaced_tool_name, reconnect_after_failure, route_error, route_tool_call, sanitize_tool_name,
    McpMergeError, RegistryAdmission, ServiceSlot, ToolCallRoute,
};
use universal_agent_runtime::tools::{insert_descriptor, Exposure, ToolDescriptor, ToolEffect, ToolMap, ToolSource};

fn pairs(items: &[(&str, &str)]) -> Vec<(String, String)> {
    items.iter().map(|(k, v)| (k.to_string(), v.to_string())).collect()
}

fn descriptor(name: &str, fingerprint: &str) -> Arc<ToolDescriptor> {
    Arc::new(ToolDescriptor {
        provider_name: name.to_string(),
        id: name.to_string(),
        server: None,
        description: String::new(),
        exposure: Exposure::Eager,
        source: ToolSource::Native,
        effect: ToolEffect::Unknown,
        fingerprint: fingerprint.to_string(),
    })
}

fn map(items: &[(&str, &str)]) -> ToolMap {
    let mut m = ToolMap::new();
    for (name, fingerprint) in items {
        assert!(insert_descriptor(&mut m, descriptor(name, fingerprint)).is_ok());
    }
    m
}

#[test]
fn tool_names_are_namespaced_and_sanitized() {
    assert_eq!(sanitize_tool_name("a.b:c-d_e9"), "a_b_c-d_e9");
    assert_eq!(namespaced_tool_name("tavily", "search"), "tavily__search");
    assert_eq!(namespaced_tool_name("my.server", "get/item"), "my_server__get_item");
    assert_eq!(sanitize_tool_name("é"), "_");
}

#[test]
fn tool_calls_are_routed_in_order() {
    assert_eq!(route_tool_call(true, true, "mirror", true, None, false, false), ToolCallRoute::Closed);
    assert_eq!(route_tool_call(false, true, "mirror", true, None, false, false), ToolCallRoute::Echo);
    assert_eq!(route_tool_call(true, false, "mirror", false, None, false, false), ToolCallRoute::Unknown);
    assert_eq!(route_tool_call(false, false, "native__now", true, None, false, false), ToolCallRoute::Native);
    assert_eq!(route_tool_call(false, false, "test__x", false, Some("test"), false, false), ToolCallRoute::TestTool);
    assert_eq!(route_tool_call(true, false, "test__x", false, Some("test"), true, false), ToolCallRoute::MissingBinding);
    assert_eq!(route_tool_call(false, false, "fs__read", false, Some("fs"), false, false), ToolCallRoute::MissingHandle);
    assert_eq!(route_tool_call(false, false, "fs__read", false, Some("fs"), true, false), ToolCallRoute::Call);
    assert_eq!(route_error(ToolCallRoute::Unknown, "x__y", "x"), Some("unknown tool: x__y".to_string()));
    assert_eq!(route_error(ToolCallRoute::MissingBinding, "x__y", "x"), Some("Missing frozen MCP binding: x".to_string()));
    assert_eq!(route_error(ToolCallRoute::Call, "x__y", "x"), None);
    assert!(reconnect_after_failure(false));
    assert!(!reconnect_after_failure(true));
}

#[test]
fn stale_reconnects_never_replace_a_new_configuration() {
    let mut slot = ServiceSlot::new(1);
    let generation = slot.begin_reconnect().unwrap();
    assert!(slot.begin_reconnect().is_none());
    assert!(slot.replace_configured(2));
    assert!(!slot.install_reconnected(generation, 3));
    assert!(!slot.finish_reconnect(generation));
    let next = slot.begin_reconnect().unwrap();
    assert!(slot.install_reconnected(next, 4));
    assert!(slot.finish_reconnect(next));
    assert!(slot.binding_valid(4, false));
    assert!(!slot.binding_valid(2, false));
    slot.reap(&vec![1, 3]);
    assert_eq!(slot.begin_shutdown(), 4);
    assert!(!slot.begin_update());
    assert!(!slot.replace_configured(5));
    assert!(slot.begin_reconnect().is_none());
    assert!(!slot.binding_valid(4, false));
    assert!(slot.shutdown_complete(true, true));
    assert!(!slot.shutdown_complete(false, true));
}

#[test]
fn updates_are_counted_until_shutdown() {
    let mut slot = ServiceSlot::new(1);
    assert!(slot.begin_update());
    assert!(!slot.shutdown_complete(true, true));
    slot.end_update();
    assert!(slot.shutdown_complete(true, true));
}

#[test]
fn merging_coalesces_identical_tools_and_rejects_collisions() {
    let a = map(&[("alpha", "1"), ("beta", "1")]);
    let b = map(&[("beta", "1"), ("gamma", "1")]);
    let merged = merge_descriptors(false, false, &a, &b).ok().unwrap();
    let names: Vec<String> = merged.entries().iter().map(|d| d.provider_name.clone()).collect();
    assert_eq!(names, vec!["alpha".to_string(), "beta".to_string(), "gamma".to_string()]);
    let c = map(&[("beta", "2")]);
    assert!(matches!(merge_descriptors(false, false, &a, &c).err(), Some(McpMergeError::Collision(col)) if col.provider_name == "beta"));
    assert!(matches!(merge_descriptors(true, false, &a, &b).err(), Some(McpMergeError::FrozenBinding)));
}

#[test]
fn binding_environments_resolve_overrides_against_the_parent_only() {
    let entry = McpServerEntry::Stdio {
        command: "srv".to_string(),
        args: Vec::new(),
        env: pairs(&[("HOME", "${BASE}/home"), ("BASE", "/override")]),
        sandboxed: false,
    };
    let parent = pairs(&[("BASE", "/parent"), ("PATH", "/bin")]);
    let env = McpBindingEnvironment::resolve("/work".to_string(), parent.clone(), &entry).ok().unwrap();
    assert_eq!(env.directory(), "/work");
    assert_eq!(
        env.variables(),
        &pairs(&[("HOME", "/parent/home"), ("BASE", "/override"), ("PATH", "/bin")])
    );
    assert!(matches!(
        McpBindingEnvironment::resolve("work".to_string(), parent.clone(), &entry).err(),
        Some(EnvironmentError::RelativeDirectory)
    ));
    let broken = McpServerEntry::Stdio {
        command: "srv".to_string(),
        args: Vec::new(),
        env: pairs(&[("TOKEN", "${MISSING}")]),
        sandboxed: false,
    };
    assert!(matches!(
        McpBindingEnvironment::resolve("work".to_string(), parent, &broken).err(),
        Some(EnvironmentError::Unresolved(u)) if u.name == "MISSING"
    ));
    assert!(McpBindingEnvironment::new("/".to_string(), Vec::new()).is_ok());
}

#[test]
fn host_captured_expansion_fails_at_the_first_unresolved_name() {
    let env = pairs(&[("A", "1")]);
    assert_eq!(expand_from_environment("${A}-${B:-2}", &env).ok().unwrap(), "1-2");
    assert_eq!(expand_from_environment("${X}${Y}", &env).err().unwrap().name, "X");
}

use universal_agent_runtime::mcp::config::McpHttpHeaderValue;
use universal_agent_runtime::mcp::runtime::{HeaderError, RunHttpHeaders};

#[test]
fn request_headers_split_bearer_from_normalized_headers() {
    let h = RunHttpHeaders::parse(&pairs(&[("Authorization", "Bearer abc"), ("X-Trace", "1")])).ok().unwrap();
    assert_eq!(h.bearer(), Some("abc"));
    assert_eq!(h.custom(), &pairs(&[("x-trace", "1")]));
    assert!(matches!(RunHttpHeaders::parse(&pairs(&[("Host", "x")])).err(), Some(HeaderError::TransportOwned)));
    assert!(matches!(RunHttpHeaders::parse(&pairs(&[("authorization", "Basic x")])).err(), Some(HeaderError::NotBearer)));
    assert!(matches!(RunHttpHeaders::parse(&pairs(&[("authorization", "Bearer ")])).err(), Some(HeaderError::EmptyBearer)));
    assert!(matches!(RunHttpHeaders::parse(&pairs(&[("bad name", "x")])).err(), Some(HeaderError::InvalidName)));
    assert!(matches!(RunHttpHeaders::parse(&pairs(&[("x-a", "1"), ("X-A", "2")])).err(), Some(HeaderError::Duplicate)));
    assert!(matches!(RunHttpHeaders::parse(&pairs(&[("x-a", "bad\u{1}")])).err(), Some(HeaderError::InvalidValue)));
    assert_eq!(HeaderError::Duplicate.message(), Some("MCP header is duplicated"));
}

#[test]
fn configured_headers_resolve_secrets_and_refuse_double_configuration() {
    let entry = McpServerEntry::RemoteHttp {
        url: "https://example.com/mcp".to_string(),
        env: Vec::new(),
        headers: vec![
            ("X-Team".to_string(), McpHttpHeaderValue::Literal("${TEAM:-core}".to_string())),
            (
                "Authorization".to_string(),
                McpHttpHeaderValue::SecretRef { secret_ref: "env:TOKEN".to_string(), credential_revision: "r1".to_string() },
            ),
        ],
        grant_policy: None,
    };
    let env = McpBindingEnvironment::new("/".to_string(), pairs(&[("TOKEN", "Bearer s3cret")])).ok().unwrap();
    let h = RunHttpHeaders::from_configuration(&entry, &env, None).ok().unwrap();
    assert_eq!(h.bearer(), Some("s3cret"));
    assert_eq!(h.custom(), &pairs(&[("x-team", "core")]));
    let overlay = pairs(&[("x-team", "other")]);
    assert!(matches!(RunHttpHeaders::from_configuration(&entry, &env, Some(&overlay)).err(), Some(HeaderError::ConfiguredTwice)));
    let extra = pairs(&[("X-Run", "7")]);
    let h = RunHttpHeaders::from_configuration(&entry, &env, Some(&extra)).ok().unwrap();
    assert_eq!(h.custom(), &pairs(&[("x-run", "7"), ("x-team", "core")]));
    let empty = McpBindingEnvironment::new("/".to_string(), Vec::new()).ok().unwrap();
    assert!(matches!(RunHttpHeaders::from_configuration(&entry, &empty, None).err(), Some(HeaderError::UnresolvedSecret)));
    let stdio = McpServerEntry::Stdio { command: "x".to_string(), args: Vec::new(), env: Vec::new(), sandboxed: false };
    assert!(matches!(RunHttpHeaders::from_configuration(&stdio, &env, None).err(), Some(HeaderError::NotRemote)));
}

#[test]
fn admission_refuses_entries_once_closed_and_waits_for_leavers() {
    let mut admission = RegistryAdmission::new();
    assert!(admission.enter().is_ok());
    assert!(admission.enter().is_ok());
    admission.retire(7);
    admission.retire_slot(3);
    let (services, slots) = admission.close();
    assert_eq!(services, vec![7]);
    assert_eq!(slots, vec![3]);
    match admission.enter() {
        Err(e) => assert_eq!(e.message(), "MCP registry is shutting down"),
        Ok(()) => panic!("a closed registry admits nothing"),
    }
    assert!(!admission.idle());
    assert!(!admission.leave());
    assert!(admission.leave());
    assert!(admission.idle());
}

#[test]
fn admission_reaps_only_what_closed() {
    let mut admission = RegistryAdmission::new();
    admission.retire(1);
    admission.retire(2);
    admission.retire_slot(9);
    let (services, slots) = admission.pending();
    assert_eq!(services, vec![1, 2]);
    assert_eq!(slots, vec![9]);
    admission.retire(3);
    admission.reap(&services, &slots);
    let (services, slots) = admission.pending();
    assert_eq!(services, vec![3]);
    assert!(slots.is_empty());
}

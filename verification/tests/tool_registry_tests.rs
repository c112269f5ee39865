use universal_agent_runtime::mcp::registry::{McpMergeError, ToolCallRoute};
use universal_agent_runtime::mcp::tool_registry::{
    compile_discovered_tools, confirm_descriptor, mcp_descriptor, DiscoveredTool, DiscoveryError, FreezeError, McpRegistry,
    NativeToolInfo, RegistryError, ToolAssemblyError,
};
use universal_agent_runtime::tools::{Exposure, ToolEffect, ToolSource};

fn listed(name: &str, description: &str, read_only: Option<bool>) -> DiscoveredTool {
    DiscoveredTool {
        name: name.to_string(),
        description: Some(description.to_string()),
        read_only_hint: read_only,
        schema: "{\"type\":\"object\"}".to_string(),
    }
}

fn registry_with(server: &str, tools: &[&str]) -> McpRegistry {
    let mut r = McpRegistry::empty();
    let listed_tools: Vec<DiscoveredTool> = tools.iter().map(|t| listed(t, "d", None)).collect();
    assert!(r.install_server_tools(server, &listed_tools).is_ok());
    r
}

fn strings(v: &[&str]) -> Vec<String> {
    v.iter().map(|s| s.to_string()).collect()
}

#[test]
fn mcp_descriptor_marks_read_only_hints_as_scheduling_only() {
    let d = mcp_descriptor("files", "files__read", &listed("read", "Reads", Some(true)));
    assert_eq!(d.id, "files::read");
    assert_eq!(d.provider_name, "files__read");
    assert_eq!(d.server.as_deref(), Some("files"));
    assert_eq!(d.description, "Reads");
    assert_eq!(d.effect, ToolEffect::ReadOnly);
    assert_eq!(d.exposure, Exposure::Eager);
    assert_eq!(d.source, ToolSource::Mcp);
    let plain = mcp_descriptor("files", "files__write", &listed("write", "Writes", Some(false)));
    assert_eq!(plain.effect, ToolEffect::Unknown);
    let undescribed = mcp_descriptor(
        "files",
        "files__x",
        &DiscoveredTool { name: "x".to_string(), description: None, read_only_hint: None, schema: String::new() },
    );
    assert_eq!(undescribed.description, "");
}

#[test]
fn discovery_namespaces_sanitizes_and_drops_identical_repeats() {
    let tools = vec![listed("search.web", "Search", None), listed("fetch", "Fetch", None), listed("fetch", "Fetch", None)];
    let d = compile_discovered_tools("web", &tools).ok().expect("valid listing");
    assert_eq!(d.tools, strings(&["web__search_web", "web__fetch"]));
    assert_eq!(d.index.len(), 2);
    assert_eq!(d.index[0].name, "web__search_web");
    assert_eq!(d.index[0].server, "web");
    assert_eq!(d.index[0].tool, "search.web");
    assert_eq!(d.descriptors.len(), 2);
    assert!(d.descriptors.get("web__fetch").is_some());
}

#[test]
fn discovery_rejects_blank_tool_names() {
    let tools = vec![listed("ok", "d", None), listed("  ", "d", None)];
    match compile_discovered_tools("srv", &tools) {
        Err(DiscoveryError::EmptyToolName { server }) => assert_eq!(server, "srv"),
        _ => panic!("a blank tool name must be refused"),
    }
}

#[test]
fn discovery_rejects_names_that_collide_after_sanitizing() {
    let tools = vec![listed("a.b", "d", None), listed("a_b", "d", None)];
    match compile_discovered_tools("srv", &tools) {
        Err(DiscoveryError::Collision(c)) => assert_eq!(c.provider_name, "srv__a_b"),
        _ => panic!("distinct tools under one namespaced name must collide"),
    }
}

#[test]
fn installed_tools_resolve_to_their_server_and_raw_name() {
    let r = registry_with("time", &["now", "zone.list"]);
    assert_eq!(r.server_names(), strings(&["time"]));
    assert_eq!(r.tools(), strings(&["time__now", "time__zone_list"]));
    assert_eq!(r.resolve_mcp_tool("time__zone_list"), Some(("time".to_string(), "zone.list".to_string())));
    assert_eq!(r.resolve_mcp_tool("time__missing"), None);
    let names: Vec<String> = r.descriptors().iter().map(|d| d.provider_name.clone()).collect();
    assert_eq!(names, strings(&["time__now", "time__zone_list"]));
    assert!(r.descriptor("time__now").is_some());
    assert!(!r.is_native_tool("time__now"));
}

#[test]
fn reinstalling_a_server_replaces_its_tools() {
    let mut r = registry_with("time", &["now", "old"]);
    assert!(r.install_server_tools("other", &vec![listed("keep", "d", None)]).is_ok());
    assert!(r.install_server_tools("time", &vec![listed("now", "d", None), listed("new", "d", None)]).is_ok());
    assert_eq!(r.tools(), strings(&["other__keep", "time__now", "time__new"]));
    assert_eq!(r.resolve_mcp_tool("time__old"), None);
    assert!(r.descriptor("time__old").is_none());
    assert_eq!(r.server_names(), strings(&["time", "other"]));
}

#[test]
fn install_refuses_a_colliding_descriptor_and_changes_nothing() {
    let mut r = McpRegistry::empty();
    let r2 = r.with_native_tool(&NativeToolInfo {
        name: "x".to_string(),
        description: "d".to_string(),
        effect: ToolEffect::Unknown,
        exposure: Exposure::Eager,
        fingerprint: "f".to_string(),
    });
    r = r2.ok().expect("native tool added");
    match r.install_server_tools("native", &vec![listed("x", "d", None)]) {
        Err(RegistryError::Collision(c)) => assert_eq!(c.provider_name, "native__x"),
        _ => panic!("an MCP tool may not take over a native tool's name"),
    }
    assert!(r.server_names().is_empty());
    assert_eq!(r.tools(), strings(&["native__x"]));
}

#[test]
fn removing_a_server_drops_every_tool_it_contributed() {
    let mut r = registry_with("time", &["now"]);
    assert!(r.install_server_tools("web", &vec![listed("fetch", "d", None)]).is_ok());
    assert!(r.remove_server("time"));
    assert_eq!(r.server_names(), strings(&["web"]));
    assert_eq!(r.tools(), strings(&["web__fetch"]));
    assert_eq!(r.resolve_mcp_tool("time__now"), None);
    assert!(r.descriptor("time__now").is_none());
    assert!(!r.remove_server("time"));
}

#[test]
fn shutdown_blocks_new_server_install() {
    let mut r = registry_with("resilience", &["echo"]);
    r.begin_shutdown();
    assert!(matches!(r.install_server_tools("replacement", &vec![listed("echo", "d", None)]), Err(RegistryError::ShuttingDown)));
    assert!(!r.remove_server("resilience"));
    assert_eq!(r.server_names(), strings(&["resilience"]));
}

#[test]
fn denied_filtered_views_hold_no_servers_or_tools() {
    let r = registry_with("resilience", &["echo"]);
    let none: Vec<String> = Vec::new();
    let allowed_servers = strings(&["resilience"]);
    let allowed_tools = strings(&["resilience__echo"]);
    let denied_server_view = r.filtered(Some(&none), None);
    assert!(denied_server_view.server_names().is_empty());
    assert!(denied_server_view.tools().is_empty());
    let denied_tool_view = r.filtered(Some(&allowed_servers), Some(&none));
    assert!(denied_tool_view.tools().is_empty());
    assert!(denied_tool_view.descriptors().is_empty());
    let allowed = r.filtered(Some(&allowed_servers), Some(&allowed_tools));
    assert_eq!(allowed.tools(), strings(&["resilience__echo"]));
    assert_eq!(allowed.resolve_mcp_tool("resilience__echo"), Some(("resilience".to_string(), "echo".to_string())));
    assert_eq!(allowed.route_call("resilience__echo", false), ToolCallRoute::Call);
    assert_eq!(denied_tool_view.route_call("resilience__echo", false), ToolCallRoute::Unknown);
}

#[test]
fn merging_into_an_empty_registry_keeps_everything() {
    let r = registry_with("b", &["y", "x"]);
    let merged = McpRegistry::empty().merge(&r).ok().expect("descriptors do not collide");
    assert_eq!(merged.server_names(), strings(&["b"]));
    assert_eq!(merged.tools(), strings(&["b__x", "b__y"]));
    assert_eq!(merged.resolve_mcp_tool("b__y"), Some(("b".to_string(), "y".to_string())));
    assert_eq!(merged.descriptors().len(), 2);
}

#[test]
fn merging_refuses_frozen_views_and_collisions() {
    let r = registry_with("a", &["t"]);
    let frozen = r.freeze_bindings().ok().expect("every tool is bound");
    assert!(frozen.has_frozen_bindings());
    assert!(matches!(r.merge(&frozen), Err(McpMergeError::FrozenBinding)));
    let mut other = McpRegistry::empty();
    assert!(other.install_server_tools("a", &vec![listed("t", "changed", None)]).is_ok());
    match r.merge(&other) {
        Err(McpMergeError::Collision(c)) => assert_eq!(c.provider_name, "a__t"),
        _ => panic!("different descriptors under one name must collide"),
    }
}

#[test]
fn native_tools_are_namespaced_and_routed_in_process() {
    let info = NativeToolInfo {
        name: "clock.now".to_string(),
        description: "Now".to_string(),
        effect: ToolEffect::ReadOnly,
        exposure: Exposure::Eager,
        fingerprint: "{}".to_string(),
    };
    let r = McpRegistry::empty().with_native_tool(&info).ok().expect("no collision");
    assert!(r.is_native_tool("native__clock_now"));
    assert_eq!(r.tools(), strings(&["native__clock_now"]));
    let d = r.descriptor("native__clock_now").expect("descriptor");
    assert_eq!(d.id, "clock.now");
    assert_eq!(d.source, ToolSource::Native);
    assert!(d.server.is_none());
    assert_eq!(r.route_call("native__clock_now", false), ToolCallRoute::Native);
    let changed = NativeToolInfo { description: "Other".to_string(), ..info };
    match r.with_native_tool(&changed) {
        Err(ToolAssemblyError::Collision(c)) => assert_eq!(c.provider_name, "native__clock_now"),
        _ => panic!("a different native tool under one name must collide"),
    }
}

#[test]
fn frozen_views_refuse_growth_and_close() {
    let r = registry_with("a", &["t"]);
    let mut frozen = r.freeze_bindings().ok().expect("every tool is bound");
    assert!(matches!(frozen.install_server_tools("b", &vec![listed("u", "d", None)]), Err(RegistryError::FrozenBinding)));
    assert!(!frozen.remove_server("a"));
    assert_eq!(frozen.route_call("a__t", true), ToolCallRoute::Call);
    assert_eq!(frozen.route_call("a__t", false), ToolCallRoute::MissingBinding);
    assert_eq!(frozen.route_call("mirror", true), ToolCallRoute::Unknown);
    frozen.begin_shutdown();
    assert_eq!(frozen.route_call("a__t", true), ToolCallRoute::Closed);
    assert!(matches!(frozen.freeze_bindings(), Err(FreezeError::Closed)));
}

#[test]
fn freezing_requires_every_tool_to_have_a_server() {
    let r = McpRegistry::new_with_test_tool("echo", "Echo");
    assert!(matches!(r.freeze_bindings(), Err(FreezeError::UnboundTool)));
}

#[test]
fn confirm_descriptor_detects_changed_and_missing_tools() {
    let d = mcp_descriptor("a", "a__t", &listed("t", "d", None));
    assert!(confirm_descriptor(&d, "a", "t", &vec![listed("t", "d", None)]).is_ok());
    assert!(matches!(confirm_descriptor(&d, "a", "t", &vec![listed("t", "new", None)]), Err(FreezeError::DescriptorChanged)));
    assert!(matches!(confirm_descriptor(&d, "a", "t", &vec![listed("u", "d", None)]), Err(FreezeError::ToolDisappeared)));
}

#[test]
fn test_registries_hold_one_tool_of_the_test_server() {
    let r = McpRegistry::new_with_test_tool("echo", "Echo");
    assert_eq!(r.tools(), strings(&["test__echo"]));
    assert_eq!(r.resolve_mcp_tool("test__echo"), Some(("test".to_string(), "echo".to_string())));
    assert!(r.server_names().is_empty());
    assert_eq!(r.route_call("test__echo", false), ToolCallRoute::TestTool);
    assert_eq!(r.route_call("mirror", false), ToolCallRoute::Echo);
    let annotated = McpRegistry::new_with_test_tool_annotations("read", "Reads", Some(true));
    assert_eq!(annotated.descriptors()[0].effect, ToolEffect::ReadOnly);
    let other = McpRegistry::new_with_test_tool_for_server("srv", "x", "X", None);
    assert_eq!(other.resolve_mcp_tool("srv__x"), Some(("srv".to_string(), "x".to_string())));
    assert!(McpRegistry::new_empty().tools().is_empty());
}

#[test]
fn the_test_registry_routes_its_tool_from_the_index() {
    let r = McpRegistry::new_with_test_tool("a.b", "d");
    assert_eq!(r.resolve_mcp_tool("test__a_b"), Some(("test".to_string(), "a.b".to_string())));
    assert_eq!(r.route_call("test__a_b", false), ToolCallRoute::TestTool);
    assert!(!r.has_frozen_bindings());
}

#[test]
fn the_test_tool_answers_with_its_name_and_arguments() {
    let text = universal_agent_runtime::mcp::tool_registry::test_tool_result("a.b", "Object {\"mirror\": String(\"x\")}");
    assert_eq!(text, "executed test tool a.b with args Object {\"mirror\": String(\"x\")}");
    assert!(text.starts_with("executed test tool a.b with args "));
}

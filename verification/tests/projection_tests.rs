use std::sync::Arc;

use universal_agent_runtime::mcp::catalog::{
    CatalogError, McpCatalog, ServerAuthentication, ServerDefinition, ServerSource,
};
use universal_agent_runtime::mcp::config::McpServerEntry;
use universal_agent_runtime::mcp::exposure::McpToolExposure;
use universal_agent_runtime::mcp::projection::{
    McpProjectionError, McpProjectionScope, McpServerProjection, ServerToolCatalog,
};
use universal_agent_runtime::policy::{EffectiveResourceSelection, EffectiveRunPolicy, SelectionMode};
use universal_agent_runtime::tools::{Exposure, ToolDescriptor, ToolEffect, ToolSource};

fn stdio(command: &str) -> McpServerEntry {
    McpServerEntry::Stdio { command: command.to_string(), args: Vec::new(), env: Vec::new(), sandboxed: false }
}

fn global(name: &str, command: &str, required: bool) -> ServerDefinition {
    ServerDefinition::new(name.to_string(), ServerSource::Global, stdio(command), required, ServerAuthentication::NotRequired)
        .ok()
        .unwrap()
}

fn skill(name: &str, skill_id: &str, command: &str) -> ServerDefinition {
    ServerDefinition::new(
        name.to_string(),
        ServerSource::Skill { skill_id: skill_id.to_string() },
        stdio(command),
        false,
        ServerAuthentication::NotRequired,
    )
    .ok()
    .unwrap()
}

fn all() -> EffectiveResourceSelection {
    EffectiveResourceSelection { mode: SelectionMode::All, ids: Vec::new() }
}

fn open_policy() -> EffectiveRunPolicy {
    EffectiveRunPolicy { skills: all(), mcp_servers: all(), tools: all() }
}

fn scope(skills: &[&str]) -> McpProjectionScope {
    McpProjectionScope { active_skills: skills.iter().map(|s| s.to_string()).collect() }
}

fn tool(server: &str, name: &str, exposure: Exposure) -> Arc<ToolDescriptor> {
    Arc::new(ToolDescriptor {
        provider_name: name.to_string(),
        id: format!("{server}.{name}"),
        server: Some(server.to_string()),
        description: format!("the {name} tool"),
        exposure,
        source: ToolSource::Mcp,
        effect: ToolEffect::Unknown,
        fingerprint: "v1".to_string(),
    })
}

fn project(catalog: &McpCatalog, policy: &EffectiveRunPolicy, active: &[&str]) -> McpServerProjection {
    McpServerProjection::resolve(catalog, policy, &scope(active)).ok().unwrap()
}

fn names(p: &McpServerProjection) -> Vec<String> {
    p.servers().iter().map(|d| d.name().to_string()).collect()
}

#[test]
fn blank_names_and_skill_identities_are_rejected() {
    assert!(matches!(
        ServerDefinition::new(" ".to_string(), ServerSource::Global, stdio("x"), false, ServerAuthentication::Unknown).err(),
        Some(CatalogError::MissingName)
    ));
    assert!(matches!(
        ServerDefinition::new(
            "fs".to_string(),
            ServerSource::Skill { skill_id: "".to_string() },
            stdio("x"),
            false,
            ServerAuthentication::Unknown
        )
        .err(),
        Some(CatalogError::MissingSkillIdentity { .. })
    ));
}

#[test]
fn conflicting_declarations_from_one_source_are_rejected() {
    let result = McpCatalog::from_definitions(vec![global("fs", "a", false), global("fs", "b", false)]);
    assert!(matches!(result.err(), Some(CatalogError::ConflictingDefinitions { .. })));
    let same = McpCatalog::from_definitions(vec![global("fs", "a", false), global("fs", "a", false)]).ok().unwrap();
    assert_eq!(same.definitions().len(), 1);
}

#[test]
fn the_global_declaration_wins_over_an_active_skill() {
    let catalog = McpCatalog::from_definitions(vec![skill("fs", "s1", "skill-fs"), global("fs", "global-fs", true)])
        .ok()
        .unwrap();
    let p = project(&catalog, &open_policy(), &["s1"]);
    assert_eq!(names(&p), vec!["fs".to_string()]);
    assert!(matches!(p.servers()[0].source(), ServerSource::Global));
}

#[test]
fn inactive_skills_contribute_nothing() {
    let catalog = McpCatalog::from_definitions(vec![skill("web", "s1", "w"), global("fs", "f", false)]).ok().unwrap();
    assert_eq!(names(&project(&catalog, &open_policy(), &[])), vec!["fs".to_string()]);
    assert_eq!(names(&project(&catalog, &open_policy(), &["s1"])), vec!["fs".to_string(), "web".to_string()]);
}

#[test]
fn skills_outside_the_policy_and_ambiguous_servers_are_rejected() {
    let catalog = McpCatalog::from_definitions(vec![skill("x", "s1", "one"), skill("x", "s2", "two")]).ok().unwrap();
    let mut policy = open_policy();
    policy.skills = EffectiveResourceSelection { mode: SelectionMode::Selected, ids: vec!["s1".to_string()] };
    let outside = McpServerProjection::resolve(&catalog, &policy, &scope(&["s1", "s2"]));
    assert!(matches!(outside.err(), Some(McpProjectionError::SkillOutsidePolicy { skill_id }) if skill_id == "s2"));
    let ambiguous = McpServerProjection::resolve(&catalog, &open_policy(), &scope(&["s1", "s2"]));
    assert!(matches!(ambiguous.err(), Some(McpProjectionError::AmbiguousServer { server }) if server == "x"));
    assert_eq!(names(&project(&catalog, &open_policy(), &["s2"])), vec!["x".to_string()]);
}

#[test]
fn unselected_servers_are_not_projected() {
    let catalog = McpCatalog::from_definitions(vec![global("a", "a", false), global("b", "b", false)]).ok().unwrap();
    let mut policy = open_policy();
    policy.mcp_servers = EffectiveResourceSelection { mode: SelectionMode::Selected, ids: vec!["b".to_string()] };
    assert_eq!(names(&project(&catalog, &policy, &[])), vec!["b".to_string()]);
    policy.mcp_servers = EffectiveResourceSelection { mode: SelectionMode::Nothing, ids: Vec::new() };
    assert!(names(&project(&catalog, &policy, &[])).is_empty());
}

fn fs_projection() -> (McpCatalog, McpServerProjection) {
    let catalog = McpCatalog::from_definitions(vec![global("fs", "f", true), global("web", "w", false)]).ok().unwrap();
    let p = project(&catalog, &open_policy(), &[]);
    (catalog, p)
}

fn catalog_for(p: &McpServerProjection, server: &str, tools: Vec<Arc<ToolDescriptor>>, complete: bool) -> ServerToolCatalog {
    let definition = p.servers().iter().find(|d| d.name() == server).unwrap().clone();
    ServerToolCatalog::new(definition, tools, complete).ok().unwrap()
}

#[test]
fn step_tools_are_frozen_in_name_order_without_hidden_tools() {
    let (_, p) = fs_projection();
    let fs = catalog_for(&p, "fs", vec![tool("fs", "read", Exposure::Eager), tool("fs", "secret", Exposure::Hidden)], true);
    let web = catalog_for(&p, "web", vec![tool("web", "fetch", Exposure::Deferred)], true);
    let step = p.with_tools(vec![web, fs]).ok().unwrap();
    let tools: Vec<String> = step.tools().iter().map(|t| t.descriptor().provider_name.clone()).collect();
    assert_eq!(tools, vec!["fetch".to_string(), "read".to_string()]);
    assert_eq!(step.tools()[0].server().name(), "web");
    let model: Vec<String> = step.model_tools().iter().map(|t| t.descriptor().provider_name.clone()).collect();
    assert_eq!(model, vec!["read".to_string()]);
}

#[test]
fn missing_incomplete_and_colliding_catalogs_are_rejected() {
    let (_, p) = fs_projection();
    let fs = catalog_for(&p, "fs", vec![tool("fs", "read", Exposure::Eager)], true);
    assert!(matches!(p.with_tools(vec![fs]).err(), Some(McpProjectionError::MissingCatalog { server }) if server == "web"));

    let fs = catalog_for(&p, "fs", vec![], true);
    let web = catalog_for(&p, "web", vec![], false);
    assert!(matches!(p.with_tools(vec![fs, web]).err(), Some(McpProjectionError::IncompleteCatalog { server }) if server == "web"));

    let fs = catalog_for(&p, "fs", vec![tool("fs", "get", Exposure::Eager)], true);
    let web = catalog_for(&p, "web", vec![tool("web", "get", Exposure::Eager)], true);
    assert!(matches!(p.with_tools(vec![fs, web]).err(), Some(McpProjectionError::ToolCollision(c)) if c.provider_name == "get"));

    let first = catalog_for(&p, "fs", vec![tool("fs", "a", Exposure::Eager)], true);
    let second = catalog_for(&p, "fs", vec![tool("fs", "b", Exposure::Eager)], true);
    assert!(matches!(p.with_tools(vec![first, second]).err(), Some(McpProjectionError::ConflictingCatalog { server }) if server == "fs"));
}

#[test]
fn catalogs_of_unselected_origins_are_ignored() {
    let (_, p) = fs_projection();
    let other = skill("fs", "s9", "elsewhere");
    let stray = ServerToolCatalog::new(Arc::new(other), vec![tool("fs", "evil", Exposure::Eager)], false).ok().unwrap();
    let fs = catalog_for(&p, "fs", vec![tool("fs", "read", Exposure::Eager)], true);
    let web = catalog_for(&p, "web", vec![], true);
    let step = p.with_tools(vec![stray, fs, web]).ok().unwrap();
    let tools: Vec<String> = step.tools().iter().map(|t| t.descriptor().provider_name.clone()).collect();
    assert_eq!(tools, vec!["read".to_string()]);
}

#[test]
fn policy_omitted_tools_do_not_enter() {
    let catalog = McpCatalog::from_definitions(vec![global("fs", "f", false)]).ok().unwrap();
    let mut policy = open_policy();
    policy.tools = EffectiveResourceSelection { mode: SelectionMode::Selected, ids: vec!["write".to_string(), "fs.read".to_string()] };
    let p = project(&catalog, &policy, &[]);
    let fs = catalog_for(&p, "fs", vec![tool("fs", "read", Exposure::Eager), tool("fs", "write", Exposure::Eager), tool("fs", "rm", Exposure::Eager)], true);
    let step = p.with_tools(vec![fs]).ok().unwrap();
    let tools: Vec<String> = step.tools().iter().map(|t| t.descriptor().provider_name.clone()).collect();
    assert_eq!(tools, vec!["read".to_string(), "write".to_string()]);
}

#[test]
fn foreign_descriptors_are_rejected_by_the_catalog() {
    let (_, p) = fs_projection();
    let definition = p.servers()[0].clone();
    let foreign = ServerToolCatalog::new(definition.clone(), vec![tool("web", "fetch", Exposure::Eager)], true);
    assert!(matches!(foreign.err(), Some(McpProjectionError::InvalidTool { server, provider_name }) if server == "fs" && provider_name == "fetch"));
    let repeated = ServerToolCatalog::new(definition, vec![tool("fs", "a", Exposure::Eager), tool("fs", "a", Exposure::Eager)], true);
    assert_eq!(repeated.ok().unwrap().tools().len(), 1);
}

#[test]
fn optional_servers_may_be_omitted_but_required_ones_may_not() {
    let (_, p) = fs_projection();
    let narrowed = p.without_unavailable_optional_servers(&vec!["web".to_string()]).ok().unwrap();
    assert_eq!(names(&narrowed), vec!["fs".to_string()]);
    assert!(matches!(
        p.without_unavailable_optional_servers(&vec!["fs".to_string()]).err(),
        Some(McpProjectionError::InvalidOptionalOmission { server }) if server == "fs"
    ));
    assert!(matches!(
        p.without_unavailable_optional_servers(&vec!["nope".to_string()]).err(),
        Some(McpProjectionError::InvalidOptionalOmission { server }) if server == "nope"
    ));
}

#[test]
fn exposure_advertises_eager_tools_and_defers_the_rest() {
    let (_, p) = fs_projection();
    let fs = catalog_for(&p, "fs", vec![tool("fs", "read", Exposure::Eager), tool("fs", "grep", Exposure::Deferred)], true);
    let web = catalog_for(&p, "web", vec![tool("web", "fetch", Exposure::Deferred), tool("web", "hidden", Exposure::Hidden)], true);
    let step = p.with_tools(vec![fs, web]).ok().unwrap();
    let mut state = McpToolExposure::new();
    let snapshot = step.exposure(&mut state);
    let visible: Vec<String> = snapshot.visible().entries().iter().map(|t| t.provider_name.clone()).collect();
    assert_eq!(visible, vec!["read".to_string()]);
    assert!(snapshot.has_deferred());
    assert_eq!(snapshot.exposure("read"), Exposure::Eager);
    assert_eq!(snapshot.exposure("grep"), Exposure::Deferred);
    assert_eq!(snapshot.exposure("hidden"), Exposure::Hidden);
    assert_eq!(snapshot.exposure("absent"), Exposure::Hidden);

    let hits = state.search("FETCH").ok().unwrap();
    let hit_names: Vec<String> = hits.iter().map(|t| t.provider_name.clone()).collect();
    assert_eq!(hit_names, vec!["fetch".to_string()]);
    let snapshot = step.exposure(&mut state);
    assert_eq!(snapshot.exposure("fetch"), Exposure::Eager);
    assert_eq!(snapshot.exposure("grep"), Exposure::Deferred);
}

#[test]
fn search_ranks_exact_names_then_identity_then_descriptions() {
    let (_, p) = fs_projection();
    let fs = catalog_for(
        &p,
        "fs",
        vec![tool("fs", "alpha", Exposure::Deferred), tool("fs", "beta", Exposure::Deferred), tool("fs", "fs", Exposure::Deferred)],
        true,
    );
    let web = catalog_for(&p, "web", vec![], true);
    let step = p.with_tools(vec![fs, web]).ok().unwrap();
    let mut state = McpToolExposure::new();
    let _ = step.exposure(&mut state);
    let hits: Vec<String> = state.search("fs").ok().unwrap().iter().map(|t| t.provider_name.clone()).collect();
    assert_eq!(hits, vec!["fs".to_string(), "alpha".to_string(), "beta".to_string()]);
    let described: Vec<String> = state.search("the beta tool").ok().unwrap().iter().map(|t| t.provider_name.clone()).collect();
    assert_eq!(described, vec!["beta".to_string()]);
    assert!(state.search("   ").is_err());
    assert!(state.search(&"x".repeat(513)).is_err());
    assert!(state.search(&"x".repeat(512)).is_ok());
    assert_eq!(
        state.search("").err().unwrap().message(),
        "query must contain 1 to 512 characters and not be blank"
    );
}

use std::sync::Arc;

use universal_agent_runtime::mcp::binding_cache::{McpBindingEnvironment, McpBindingError, McpBindingRequest};
use universal_agent_runtime::mcp::catalog::{ServerAuthentication, ServerDefinition, ServerSource};
use universal_agent_runtime::mcp::config::McpServerEntry;
use universal_agent_runtime::mcp::remote::{http_endpoint, resolve_remote_http_url, RemoteUrlError};
use universal_agent_runtime::urls::{replace_all, trim_end_char};

fn pairs(items: &[(&str, &str)]) -> Vec<(String, String)> {
    items.iter().map(|(k, v)| (k.to_string(), v.to_string())).collect()
}

const TAVILY_URL: &str = "https://mcp.tavily.com/mcp/?tavilyApiKey=${TAVILY_API_KEY}";

#[test]
fn tavily_key_comes_from_the_entry_env() {
    let env = pairs(&[("TAVILY_API_KEY", "tvly-123")]);
    let url = resolve_remote_http_url("tavily", TAVILY_URL, &env, &[]).ok().unwrap();
    assert_eq!(url.serialization, "https://mcp.tavily.com/mcp/?tavilyApiKey=tvly-123");
    assert_eq!(url.host.as_deref(), Some("mcp.tavily.com"));
    assert_eq!(url.query.as_deref(), Some("tavilyApiKey=tvly-123"));
}

#[test]
fn the_process_environment_fills_the_key_first() {
    let environment = pairs(&[("TAVILY_API_KEY", "from-process")]);
    let url = resolve_remote_http_url("tavily", TAVILY_URL, &[], &environment).ok().unwrap();
    assert_eq!(url.serialization, "https://mcp.tavily.com/mcp/?tavilyApiKey=from-process");
}

#[test]
fn a_missing_or_empty_tavily_key_is_refused() {
    for env in [Vec::new(), pairs(&[("TAVILY_API_KEY", "")])] {
        match resolve_remote_http_url("tavily", TAVILY_URL, &env, &[]) {
            Err(e @ RemoteUrlError::MissingTavilyKey { .. }) => {
                assert_eq!(e.message(), "remote MCP 'tavily' missing TAVILY_API_KEY")
            }
            _ => panic!("the key is required"),
        }
    }
}

#[test]
fn other_remote_servers_never_need_the_tavily_key() {
    let url = resolve_remote_http_url("surreal_memory", "http://localhost:8000/mcp", &[], &[]).ok().unwrap();
    assert_eq!(url.serialization, "http://localhost:8000/mcp");
    assert_eq!(url.scheme, "http");
}

#[test]
fn an_unresolved_placeholder_never_reaches_the_parser() {
    match resolve_remote_http_url("memory", "${UAR_TEST_UNSET_HOST}/mcp", &[], &[]) {
        Err(e @ RemoteUrlError::Unresolved { .. }) => {
            assert_eq!(e.message(), "cannot resolve url for remote MCP 'memory'")
        }
        _ => panic!("placeholders must resolve"),
    }
}

#[test]
fn defaults_resolve_before_parsing() {
    let url = resolve_remote_http_url("memory", "${UAR_TEST_UNSET_HOST:-https://h:8443}/mcp", &[], &[]).ok().unwrap();
    assert_eq!(url.serialization, "https://h:8443/mcp");
}

#[test]
fn text_that_is_no_url_is_invalid() {
    match resolve_remote_http_url("memory", "not a url", &[], &[]) {
        Err(e @ RemoteUrlError::Invalid { .. }) => assert_eq!(e.message(), "invalid url for remote MCP 'memory'"),
        _ => panic!("must not parse"),
    }
}

#[test]
fn replace_all_replaces_every_occurrence_from_the_left() {
    assert_eq!(replace_all("a${K}b${K}", "${K}", "x"), "axbx");
    assert_eq!(replace_all("aaa", "aa", "b"), "ba");
    assert_eq!(replace_all("none", "${K}", "x"), "none");
}

#[test]
fn trailing_slashes_are_all_trimmed() {
    assert_eq!(trim_end_char("https://h///", '/'), "https://h");
    assert_eq!(trim_end_char("https://h", '/'), "https://h");
    assert_eq!(trim_end_char("///", '/'), "");
}

fn remote_request(url: &str, authentication: ServerAuthentication, variables: &[(&str, &str)]) -> McpBindingRequest {
    let entry = McpServerEntry::RemoteHttp { url: url.to_string(), env: Vec::new(), headers: Vec::new(), grant_policy: None };
    let definition =
        Arc::new(ServerDefinition::new("docs".to_string(), ServerSource::Global, entry, false, authentication).ok().unwrap());
    let env = Arc::new(McpBindingEnvironment::new("/srv".to_string(), pairs(variables)).ok().unwrap());
    McpBindingRequest::new("alice".to_string(), definition, env)
}

#[test]
fn the_endpoint_resolves_only_from_the_captured_environment() {
    let req = remote_request("https://${DOCS_HOST}/mcp", ServerAuthentication::NotRequired, &[("DOCS_HOST", "docs.example")]);
    assert_eq!(http_endpoint(&req).ok().unwrap().serialization, "https://docs.example/mcp");
    let unresolved = remote_request("https://${DOCS_HOST}/mcp", ServerAuthentication::NotRequired, &[]);
    assert!(matches!(http_endpoint(&unresolved), Err(McpBindingError::ConnectionFailed { server }) if server == "docs"));
}

#[test]
fn unsettled_authentication_comes_before_the_endpoint() {
    for auth in [ServerAuthentication::Unknown, ServerAuthentication::Required] {
        let req = remote_request("https://docs.example/mcp", auth, &[]);
        assert!(matches!(http_endpoint(&req), Err(McpBindingError::AuthenticationRequired { server }) if server == "docs"));
    }
}

#[test]
fn a_stdio_definition_has_no_endpoint() {
    let entry = McpServerEntry::Stdio { command: "srv".to_string(), args: Vec::new(), env: Vec::new(), sandboxed: false };
    let definition = Arc::new(
        ServerDefinition::new("local".to_string(), ServerSource::Global, entry, false, ServerAuthentication::NotRequired)
            .ok()
            .unwrap(),
    );
    let env = Arc::new(McpBindingEnvironment::new("/srv".to_string(), Vec::new()).ok().unwrap());
    let req = McpBindingRequest::new("alice".to_string(), definition, env);
    assert!(matches!(http_endpoint(&req), Err(McpBindingError::InvalidBinding { server }) if server == "local"));
}

#[test]
fn a_rejected_url_fails_the_connection() {
    let req = remote_request("not a url", ServerAuthentication::NotRequired, &[]);
    assert!(matches!(http_endpoint(&req), Err(McpBindingError::ConnectionFailed { .. })));
}

#[test]
fn an_empty_pattern_occurs_around_every_character() {
    assert_eq!(replace_all("abc", "", "x"), "xaxbxcx");
    assert_eq!(replace_all("", "", "x"), "x");
    assert_eq!("abc".replace("", "x"), replace_all("abc", "", "x"));
}

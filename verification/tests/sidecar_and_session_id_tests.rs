use universal_agent_runtime::mcp::config::resolve_tauri_sidecar;
use universal_agent_runtime::sandbox::mcp_tools::default_session_id;

#[test]
fn only_the_known_sidecar_resolves() {
    assert_eq!(resolve_tauri_sidecar("mcp-server-dummy-test").as_deref(), Some("/usr/bin/true"));
    assert_eq!(resolve_tauri_sidecar("mcp-server-time"), None);
    assert_eq!(resolve_tauri_sidecar("npx"), None);
}

#[test]
fn default_session_ids_are_fresh_hyphenated_uuids() {
    let a = default_session_id();
    let b = default_session_id();
    assert_ne!(a, b);
    assert_eq!(a.len(), 36);
    let dashes: Vec<usize> = a.char_indices().filter(|(_, c)| *c == '-').map(|(i, _)| i).collect();
    assert_eq!(dashes, vec![8, 13, 18, 23]);
    assert!(a.chars().all(|c| c == '-' || c.is_ascii_hexdigit()));
}

#[test]
fn fresh_session_ids_carry_the_version_4_marks() {
    let id = default_session_id();
    let chars: Vec<char> = id.chars().collect();
    assert_eq!(chars[14], '4');
    assert!("89ab".contains(chars[19]));
}

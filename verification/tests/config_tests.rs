use universal_agent_runtime::mcp::config::{
    expand_env_map, expand_env_placeholders, expand_env_placeholders_strict,
};

/// The `surreal_memory` entry in `mcp.json`.
const MEMORY_MCP_URL: &str = "${UAR_MEMORY_MCP_URL:-http://127.0.0.1:1906/mcp/memory}";

fn no_env() -> Vec<(String, String)> {
    Vec::new()
}

#[test]
fn uses_default_when_var_is_unset() {
    assert_eq!(
        expand_env_placeholders(MEMORY_MCP_URL, &no_env()),
        "http://127.0.0.1:1906/mcp/memory"
    );
}

#[test]
fn strict_accepts_a_defaulted_placeholder() {
    assert_eq!(
        expand_env_placeholders_strict(MEMORY_MCP_URL, &no_env()).ok().unwrap(),
        "http://127.0.0.1:1906/mcp/memory"
    );
}

#[test]
fn strict_rejects_a_placeholder_with_no_value_and_no_default() {
    let result = expand_env_placeholders_strict("${UAR_TEST_DEFINITELY_UNSET_VAR}", &no_env());
    assert!(result.is_err(), "an unresolvable placeholder must be an error, not a literal");
    let err = result.err().unwrap();
    let msg = err.message();
    assert!(
        msg.contains("UAR_TEST_DEFINITELY_UNSET_VAR"),
        "error should name the offending variable, got: {msg}"
    );
}

#[test]
fn leaves_a_value_with_no_placeholders_untouched() {
    let plain = "http://127.0.0.1:1906/mcp/memory";
    assert_eq!(expand_env_placeholders(plain, &no_env()), plain);
    assert_eq!(expand_env_placeholders_strict(plain, &no_env()).ok().unwrap(), plain);
}

#[test]
fn an_unterminated_placeholder_is_not_expanded() {
    let input = "http://example.com/${unterminated";
    assert_eq!(expand_env_placeholders(input, &no_env()), input);
    assert_eq!(expand_env_placeholders_strict(input, &no_env()).ok().unwrap(), input);
}

#[test]
fn a_default_may_itself_contain_a_colon_or_slashes() {
    assert_eq!(
        expand_env_placeholders("${UAR_TEST_UNSET_URL:-https://h:8443/a-b}", &no_env()),
        "https://h:8443/a-b"
    );
}

#[test]
fn expands_every_placeholder_in_one_value() {
    assert_eq!(
        expand_env_placeholders("${UAR_TEST_UNSET_A:-one}/${UAR_TEST_UNSET_B:-two}", &no_env()),
        "one/two"
    );
}

#[test]
fn strict_reports_all_unresolved_names_at_once() {
    let result = expand_env_placeholders_strict("${UAR_TEST_UNSET_X}/${UAR_TEST_UNSET_Y}", &no_env());
    assert!(result.is_err(), "must reject");
    let msg = result.err().unwrap().message();
    assert!(msg.contains("UAR_TEST_UNSET_X"), "got: {msg}");
    assert!(msg.contains("UAR_TEST_UNSET_Y"), "got: {msg}");
}

#[test]
fn a_set_var_wins_over_the_default() {
    let env = vec![("UAR_TEST_EXPAND_SET_VAR".to_string(), "from-env".to_string())];
    assert_eq!(
        expand_env_placeholders("${UAR_TEST_EXPAND_SET_VAR:-fallback}", &env),
        "from-env"
    );
}

#[test]
fn an_empty_var_falls_back_to_the_default() {
    let env = vec![("UAR_TEST_EXPAND_EMPTY_VAR".to_string(), String::new())];
    assert_eq!(
        expand_env_placeholders("${UAR_TEST_EXPAND_EMPTY_VAR:-fallback}", &env),
        "fallback"
    );
}

#[test]
fn an_unset_placeholder_without_default_is_kept_verbatim() {
    assert_eq!(
        expand_env_placeholders("a${NOPE}b", &no_env()),
        "a${NOPE}b"
    );
}

#[test]
fn strict_error_message_lists_names_and_input() {
    let msg = expand_env_placeholders_strict("${A}/${B}", &no_env()).err().unwrap().message();
    assert_eq!(
        msg,
        "unresolved placeholder(s) A, B in '${A}/${B}' \u{2014} set the variable(s) or give a default with ${VAR:-default}"
    );
}

#[test]
fn expand_env_map_expands_values_only() {
    let map = vec![("K".to_string(), "${V:-x}".to_string())];
    let env = vec![("V".to_string(), "y".to_string())];
    let out = expand_env_map(&map, &env);
    assert_eq!(out, vec![("K".to_string(), "y".to_string())]);
}

#[test]
fn empty_placeholder_name_uses_default() {
    assert_eq!(expand_env_placeholders("${:-d}", &no_env()), "d");
}

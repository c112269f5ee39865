use universal_agent_runtime::normalized::{
    agui_sse_event, default_memory_operation, default_true, dual_sse_event, event_name, json_string, sse_event, Citation,
    NormalizedEvent,
};

#[test]
fn test_sse_event_format() {
    let event = NormalizedEvent::Done;
    let sse = sse_event(&event, "{\"type\":\"done\"}");
    assert!(sse.starts_with("event: done\n"));
    assert!(sse.contains("data: "));
    assert!(sse.ends_with("\n\n"));
}

#[test]
fn test_agui_event_format() {
    let event = NormalizedEvent::MessageDelta { text: "test".to_string() };
    let sse = agui_sse_event(&event, "req-123");
    assert!(sse.contains("agui.message.delta"));
    assert!(sse.contains("req-123"));
}

#[test]
fn agui_payload_keys_are_sorted_and_exact() {
    assert_eq!(
        agui_sse_event(&NormalizedEvent::Done, "r1"),
        "event: agui.done\ndata: {\"kind\":\"done\",\"request_id\":\"r1\"}\n\n"
    );
    assert_eq!(
        agui_sse_event(&NormalizedEvent::MessageDelta { text: "hi".to_string() }, "r1"),
        "event: agui.message.delta\ndata: {\"delta\":{\"text\":\"hi\"},\"kind\":\"message\",\"phase\":\"delta\",\"request_id\":\"r1\"}\n\n"
    );
    assert_eq!(
        agui_sse_event(&NormalizedEvent::StreamStart { request_id: "own".to_string() }, "other"),
        "event: agui.stream.start\ndata: {\"kind\":\"stream\",\"phase\":\"start\",\"request_id\":\"own\"}\n\n"
    );
}

#[test]
fn agui_numbers_booleans_and_nulls() {
    let usage = NormalizedEvent::Usage { prompt_tokens: 12, completion_tokens: 0, total_tokens: 4294967295 };
    assert_eq!(
        agui_sse_event(&usage, "r"),
        "event: agui.usage\ndata: {\"completion_tokens\":0,\"kind\":\"usage\",\"prompt_tokens\":12,\"request_id\":\"r\",\"total_tokens\":4294967295}\n\n"
    );
    let delta = NormalizedEvent::ToolCallDelta { call_index: 3, id: None, name: Some("f".to_string()), arguments_delta: None };
    assert_eq!(
        agui_sse_event(&delta, "r"),
        "event: agui.tool_call.delta\ndata: {\"call_index\":3,\"delta\":{\"arguments\":null},\"id\":null,\"kind\":\"tool_call\",\"name\":\"f\",\"phase\":\"delta\",\"request_id\":\"r\"}\n\n"
    );
    let result = NormalizedEvent::ToolResult {
        id: "t".to_string(),
        name: "n".to_string(),
        content: "ok".to_string(),
        success: false,
    };
    assert_eq!(
        agui_sse_event(&result, "r"),
        "event: agui.tool_result\ndata: {\"content\":\"ok\",\"id\":\"t\",\"kind\":\"tool_result\",\"name\":\"n\",\"request_id\":\"r\",\"success\":false}\n\n"
    );
}

#[test]
fn agui_citation_omits_absent_fields() {
    let citation = Citation { index: 0, url: "https://example.com".to_string(), title: Some("Example".to_string()), snippet: None };
    assert_eq!(
        agui_sse_event(&NormalizedEvent::CitationAdded(citation), "r"),
        "event: agui.citation.added\ndata: {\"citation\":{\"index\":0,\"title\":\"Example\",\"url\":\"https://example.com\"},\"kind\":\"citation\",\"phase\":\"added\",\"request_id\":\"r\"}\n\n"
    );
}

#[test]
fn agui_strings_are_json_escaped() {
    let event = NormalizedEvent::Error { message: "say \"hi\"\n".to_string(), code: Some("E\\1".to_string()) };
    assert_eq!(
        agui_sse_event(&event, "r"),
        "event: agui.error\ndata: {\"code\":\"E\\\\1\",\"kind\":\"error\",\"message\":\"say \\\"hi\\\"\\n\",\"request_id\":\"r\"}\n\n"
    );
}

#[test]
fn dual_event_is_normalized_then_agui() {
    let event = NormalizedEvent::Done;
    assert_eq!(
        dual_sse_event(&event, "r1", "{\"type\":\"done\"}"),
        "event: done\ndata: {\"type\":\"done\"}\n\nevent: agui.done\ndata: {\"kind\":\"done\",\"request_id\":\"r1\"}\n\n"
    );
}

#[test]
fn event_names_and_defaults() {
    assert_eq!(event_name(&NormalizedEvent::ToolResult { id: String::new(), name: String::new(), content: String::new(), success: true }), "tool_result");
    assert_eq!(event_name(&NormalizedEvent::MemoryUpdate { key: String::new(), value: String::new(), operation: String::new() }), "memory.update");
    assert_eq!(event_name(&NormalizedEvent::Usage { prompt_tokens: 0, completion_tokens: 0, total_tokens: 0 }), "usage");
    assert_eq!(default_memory_operation(), "set");
    assert!(default_true());
}

#[test]
fn json_strings_escape_quotes_backslashes_and_controls() {
    assert_eq!(json_string("r1"), "\"r1\"");
    assert_eq!(json_string("a\"b\\c\n\t\u{1}\u{1f}é/"), "\"a\\\"b\\\\c\\n\\t\\u0001\\u001fé/\"");
    assert_eq!(json_string("\u{8}\u{c}\r\u{7f}"), "\"\\b\\f\\r\u{7f}\"");
}

use universal_agent_runtime::anthropic::{
    convert_anthropic_messages_to_openai, AnthropicBlock, AnthropicContent, AnthropicMessage, ImageSource,
    OpenAiMessage, ResultPart, ToolResultContent, UserPart,
};

fn block(kind: &str) -> AnthropicBlock {
    AnthropicBlock {
        block_type: kind.to_string(),
        text: None,
        id: None,
        name: None,
        input_json: None,
        source: None,
        content: None,
        tool_use_id: None,
    }
}

fn text_block(kind: &str, text: &str) -> AnthropicBlock {
    let mut b = block(kind);
    b.text = Some(text.to_string());
    b
}

fn message(role: &str, blocks: Vec<AnthropicBlock>) -> AnthropicMessage {
    AnthropicMessage { role: role.to_string(), content: AnthropicContent::Blocks(blocks) }
}

fn is_fresh_toolu(id: &str) -> bool {
    id.len() == 38 && id.starts_with("toolu_") && id[6..].chars().all(|c| c.is_ascii_hexdigit())
}

#[test]
fn convert_anthropic_messages_round_trips_tool_blocks() {
    let mut tool_use = block("tool_use");
    tool_use.id = Some("call_1".to_string());
    tool_use.name = Some("edit_file".to_string());
    tool_use.input_json = Some("{\"path\":\"foo.rs\"}".to_string());
    let mut tool_result = block("tool_result");
    tool_result.tool_use_id = Some("call_1".to_string());
    tool_result.content = Some(ToolResultContent::Text("ok".to_string()));
    let messages = vec![message("assistant", vec![tool_use]), message("user", vec![tool_result])];

    let out = convert_anthropic_messages_to_openai(&None, &messages);
    assert_eq!(out.len(), 2);
    match &out[0] {
        OpenAiMessage::Assistant(text, calls) => {
            assert_eq!(text, "");
            assert_eq!(calls.len(), 1);
            assert_eq!(calls[0].id, "toolu_call_1");
            assert_eq!(calls[0].name, "edit_file");
            assert_eq!(calls[0].arguments, "{\"path\":\"foo.rs\"}");
        }
        _ => panic!("expected an assistant message"),
    }
    match &out[1] {
        OpenAiMessage::Tool(id, content) => {
            assert_eq!(id, "toolu_call_1");
            assert_eq!(content, "ok");
        }
        _ => panic!("expected a tool message"),
    }
}

#[test]
fn system_prompt_blocks_become_system_messages() {
    let system = AnthropicContent::Blocks(vec![text_block("text", "be brief"), text_block("image", "x"), text_block("text", "")]);
    let out = convert_anthropic_messages_to_openai(&Some(system), &Vec::new());
    assert_eq!(out.len(), 2);
    assert!(matches!(&out[0], OpenAiMessage::System(t) if t == "be brief"));
    assert!(matches!(&out[1], OpenAiMessage::System(t) if t.is_empty()));

    let out = convert_anthropic_messages_to_openai(&Some(AnthropicContent::Text("hi".to_string())), &Vec::new());
    assert_eq!(out.len(), 1);
    assert!(matches!(&out[0], OpenAiMessage::System(t) if t == "hi"));
}

#[test]
fn assistant_text_is_joined_and_defaults_fill_tool_calls() {
    let blocks = vec![text_block("text", "one"), text_block("text", ""), text_block("text", "two"), block("tool_use")];
    let out = convert_anthropic_messages_to_openai(&None, &vec![message("Assistant", blocks)]);
    assert_eq!(out.len(), 1);
    match &out[0] {
        OpenAiMessage::Assistant(text, calls) => {
            assert_eq!(text, "one\ntwo");
            assert_eq!(calls.len(), 1);
            assert!(is_fresh_toolu(&calls[0].id));
            assert_eq!(calls[0].name, "tool");
            assert_eq!(calls[0].arguments, "{}");
        }
        _ => panic!("expected an assistant message"),
    }
    let out = convert_anthropic_messages_to_openai(&None, &vec![message("assistant", vec![text_block("text", "")])]);
    assert!(out.is_empty());
}

#[test]
fn user_parts_are_flushed_around_tool_results() {
    let mut image = block("image");
    image.source = Some(ImageSource {
        source_type: Some("base64".to_string()),
        media_type: None,
        data: Some("AAAA".to_string()),
        url: None,
    });
    let mut result = block("tool_result");
    result.tool_use_id = Some("  toolu_x ".to_string());
    result.content = Some(ToolResultContent::Parts(
        vec![ResultPart::Text("a".to_string()), ResultPart::Other, ResultPart::Plain("b".to_string())],
        "[...]".to_string(),
    ));
    let blocks = vec![text_block("text", "look"), image, result, text_block("other", "after")];
    let out = convert_anthropic_messages_to_openai(&None, &vec![message("USER", blocks)]);
    assert_eq!(out.len(), 3);
    match &out[0] {
        OpenAiMessage::UserParts(parts) => {
            assert_eq!(parts.len(), 2);
            assert!(matches!(&parts[0], UserPart::Text(t) if t == "look"));
            assert!(matches!(&parts[1], UserPart::ImageUrl(u) if u == "data:image/png;base64,AAAA"));
        }
        _ => panic!("expected user parts"),
    }
    assert!(matches!(&out[1], OpenAiMessage::Tool(id, c) if id == "toolu_x" && c == "a\nb"));
    assert!(matches!(&out[2], OpenAiMessage::UserText(t) if t == "after"));
}

#[test]
fn tool_results_without_text_fall_back_to_json_and_fresh_ids() {
    let mut result = block("tool_result");
    result.content = Some(ToolResultContent::Parts(vec![ResultPart::Other], "[{\"n\":1}]".to_string()));
    let mut other = block("tool_result");
    other.tool_use_id = Some("   ".to_string());
    other.content = Some(ToolResultContent::Other("42".to_string()));
    let out = convert_anthropic_messages_to_openai(&None, &vec![message("user", vec![result, other, block("tool_result")])]);
    assert_eq!(out.len(), 3);
    assert!(matches!(&out[0], OpenAiMessage::Tool(id, c) if is_fresh_toolu(id) && c == "[{\"n\":1}]"));
    assert!(matches!(&out[1], OpenAiMessage::Tool(id, c) if is_fresh_toolu(id) && c == "42"));
    assert!(matches!(&out[2], OpenAiMessage::Tool(_, c) if c.is_empty()));
}

#[test]
fn image_sources_need_data_or_a_url_and_unknown_roles_are_dropped() {
    let mut url_image = block("image");
    url_image.source = Some(ImageSource {
        source_type: Some("url".to_string()),
        media_type: None,
        data: None,
        url: Some("https://x/y.png".to_string()),
    });
    let mut no_data = block("image");
    no_data.source = Some(ImageSource { source_type: Some("base64".to_string()), media_type: None, data: None, url: None });
    let messages = vec![
        message("user", vec![url_image, no_data, block("image")]),
        message("tool", vec![text_block("text", "ignored")]),
        AnthropicMessage { role: "user".to_string(), content: AnthropicContent::Text("plain".to_string()) },
        AnthropicMessage { role: "user".to_string(), content: AnthropicContent::Empty },
        message("system", vec![text_block("text", "a"), text_block("text", "b")]),
    ];
    let out = convert_anthropic_messages_to_openai(&None, &messages);
    assert_eq!(out.len(), 3);
    match &out[0] {
        OpenAiMessage::UserParts(parts) => {
            assert_eq!(parts.len(), 1);
            assert!(matches!(&parts[0], UserPart::ImageUrl(u) if u == "https://x/y.png"));
        }
        _ => panic!("expected user parts"),
    }
    assert!(matches!(&out[1], OpenAiMessage::UserText(t) if t == "plain"));
    assert!(matches!(&out[2], OpenAiMessage::System(t) if t == "a\nb"));
}

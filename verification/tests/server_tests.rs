use universal_agent_runtime::server::{
    collapse_whitespace, ensure_toolu_id, finalized_anthropic_usage, model_known, provider_anthropic_usage,
    provider_catalog_status, should_apply_request_timeout, surrealkv_lock_path, AnthropicUsage, ProviderConfig,
    ProviderModel, StreamMode,
};

#[test]
fn request_timeout_policy_skips_chat_stream_routes() {
    assert!(!should_apply_request_timeout("/api/chat/completion"));
    assert!(!should_apply_request_timeout("/v1/chat/completions"));
    assert!(!should_apply_request_timeout("/v1/messages"));

    assert!(should_apply_request_timeout("/api/generate-title"));
    assert!(should_apply_request_timeout("/api/threads"));
    assert!(should_apply_request_timeout("/assets/index.js"));
}

#[test]
fn provider_anthropic_usage_preserves_reported_cache_fields_exactly() {
    let usage = provider_anthropic_usage(41, 7, Some(29), Some(13));
    assert_eq!(usage.input_tokens, 41);
    assert_eq!(usage.output_tokens, 7);
    assert_eq!(usage.cache_creation_input_tokens, 13);
    assert_eq!(usage.cache_read_input_tokens, 29);
}

#[test]
fn absent_provider_usage_never_fabricates_cache_activity() {
    let usage = finalized_anthropic_usage(None, 9);
    assert_eq!(usage.input_tokens, 0);
    assert_eq!(usage.output_tokens, 9);
    assert_eq!(usage.cache_creation_input_tokens, 0);
    assert_eq!(usage.cache_read_input_tokens, 0);
}

#[test]
fn provider_catalog_status_marks_moonshot_credential_blocked() {
    let (status, detail) = provider_catalog_status("moonshotai", false, Some("MOONSHOT_API_KEY"));

    assert_eq!(status, "credential-blocked");
    assert!(detail.contains("MOONSHOT_API_KEY"));
    assert!(!detail.contains("sk-"));
}

#[test]
fn provider_catalog_status_prefers_configured_over_missing_credential() {
    let (status, detail) = provider_catalog_status("moonshotai", true, Some("MOONSHOT_API_KEY"));

    assert_eq!(status, "configured");
    assert!(detail.contains("configured"));
}

#[test]
fn ensure_toolu_id_prefixes_non_prefixed_ids() {
    assert_eq!(ensure_toolu_id("abc"), "toolu_abc");
    assert_eq!(ensure_toolu_id("toolu_xyz"), "toolu_xyz");
}

#[test]
fn provider_catalog_status_exact_details() {
    assert_eq!(
        provider_catalog_status("openai", true, None),
        ("configured", "openai is configured and enabled in the provider registry.".to_string())
    );
    assert_eq!(
        provider_catalog_status("moonshotai", false, Some("MOONSHOT_API_KEY")),
        (
            "credential-blocked",
            "moonshotai requires a configured credential such as MOONSHOT_API_KEY.".to_string()
        )
    );
    assert_eq!(
        provider_catalog_status("groq", false, Some("   ")),
        ("available", "groq is available in the catalog but is not configured.".to_string())
    );
    assert_eq!(
        provider_catalog_status("groq", false, None),
        ("available", "groq is available in the catalog but is not configured.".to_string())
    );
}

#[test]
fn reported_usage_is_kept_whole_and_missing_cache_is_zero() {
    let reported = provider_anthropic_usage(5, 6, None, None);
    assert_eq!(
        reported,
        AnthropicUsage { input_tokens: 5, output_tokens: 6, cache_creation_input_tokens: 0, cache_read_input_tokens: 0 }
    );
    assert_eq!(finalized_anthropic_usage(Some(reported), 99), reported);
    assert_eq!(AnthropicUsage::default(), finalized_anthropic_usage(None, 0));
}

#[test]
fn ensure_toolu_id_trims_and_mints_for_blank_ids() {
    assert_eq!(ensure_toolu_id("  abc \n"), "toolu_abc");
    assert_eq!(ensure_toolu_id("toolu"), "toolu_toolu");
    let minted = ensure_toolu_id("   ");
    assert!(minted.starts_with("toolu_"));
    let digits = &minted["toolu_".len()..];
    assert_eq!(digits.len(), 32);
    assert!(digits.chars().all(|c| c.is_ascii_hexdigit() && !c.is_ascii_uppercase()));
    assert_ne!(ensure_toolu_id(""), minted);
}

#[test]
fn stream_modes_select_their_chunk_kinds() {
    assert!(StreamMode::Openai.emits_openai_chunks());
    assert!(!StreamMode::Openai.emits_agui_chunks());
    assert!(StreamMode::Dual.emits_openai_chunks());
    assert!(StreamMode::Dual.emits_agui_chunks());
    assert!(!StreamMode::Dual.emits_agui_spec_chunks());
    assert!(StreamMode::Agui.emits_agui_chunks());
    assert!(!StreamMode::Agui.emits_openai_chunks());
    assert!(StreamMode::AguiSpec.emits_agui_spec_chunks());
    assert!(!StreamMode::AguiSpec.emits_agui_chunks());
    assert_eq!(StreamMode::default(), StreamMode::Openai);
}

#[test]
fn model_known_checks_default_and_declared_models() {
    let provider = ProviderConfig {
        default_model: Some("gpt-5".to_string()),
        models: vec![ProviderModel { id: "gpt-4o".to_string() }],
    };
    assert!(model_known(&provider, "gpt-5"));
    assert!(model_known(&provider, "gpt-4o"));
    assert!(!model_known(&provider, "mistral-large"));
    let bare = ProviderConfig { default_model: None, models: Vec::new() };
    assert!(!model_known(&bare, "gpt-5"));
}

#[test]
fn surrealkv_lock_path_for_embedded_stores_only() {
    assert_eq!(surrealkv_lock_path("surreal", "surrealkv://data/db"), Some("data/db/LOCK".to_string()));
    assert_eq!(surrealkv_lock_path("surrealdb", " rocksdb:///var/db/ "), Some("/var/db/LOCK".to_string()));
    assert_eq!(surrealkv_lock_path("surreal", "store/"), Some("store/LOCK".to_string()));
    assert_eq!(surrealkv_lock_path("surreal", "ws://localhost:8000"), None);
    assert_eq!(surrealkv_lock_path("surreal", "memory"), None);
    assert_eq!(surrealkv_lock_path("surreal", "surrealkv://"), None);
    assert_eq!(surrealkv_lock_path("surreal", "rocksdb://mem"), None);
    assert_eq!(surrealkv_lock_path("postgres", "surrealkv://data"), None);
}

#[test]
fn collapse_whitespace_joins_words_with_single_spaces() {
    assert_eq!(collapse_whitespace("  hello \t\n world  "), "hello world");
    assert_eq!(collapse_whitespace(""), "");
    assert_eq!(collapse_whitespace(" \u{3000} "), "");
    assert_eq!(collapse_whitespace("a"), "a");
}

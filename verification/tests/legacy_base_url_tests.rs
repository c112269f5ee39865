use universal_agent_runtime::server::normalize_legacy_openai_base_url;

fn provider_of(model: &str) -> &str {
    model.split('/').next().unwrap_or(model)
}

#[test]
fn normalize_legacy_openai_base_url_rewrites_known_non_openai_provider() {
    let model = "alibaba/qwen3.6-plus";
    let base_url = Some("https://api.openai.com");
    let replaced = normalize_legacy_openai_base_url(
        base_url,
        provider_of(model),
        Some("https://dashscope-intl.aliyuncs.com/compatible-mode/v1"),
    );
    assert_eq!(replaced.as_deref().or(base_url), Some("https://dashscope-intl.aliyuncs.com/compatible-mode/v1"));
}

#[test]
fn normalize_legacy_openai_base_url_adds_openai_v1_path() {
    let model = "openai/gpt-5.4";
    let base_url = Some("https://api.openai.com");
    let replaced = normalize_legacy_openai_base_url(base_url, provider_of(model), None);
    assert_eq!(replaced.as_deref().or(base_url), Some("https://api.openai.com/v1"));
}

#[test]
fn other_base_urls_and_unknown_providers_are_kept() {
    assert_eq!(normalize_legacy_openai_base_url(Some("https://example.com/v1"), "alibaba", Some("https://x")), None);
    assert_eq!(normalize_legacy_openai_base_url(None, "alibaba", Some("https://x")), None);
    assert_eq!(normalize_legacy_openai_base_url(Some(" https://api.openai.com/v1// "), "openai", None), None);
    assert_eq!(normalize_legacy_openai_base_url(Some("https://api.openai.com/v1"), "custom", None), None);
    assert_eq!(
        normalize_legacy_openai_base_url(Some("https://api.openai.com/"), "openai", None).as_deref(),
        Some("https://api.openai.com/v1")
    );
}

use universal_agent_runtime::server::{
    cookie_session_id, generate_title, resolve_session_id, title_from_text, validate_uuid_session_id, SessionIdError,
};

const ID: &str = "550e8400-e29b-41d4-a716-446655440000";

#[test]
fn titles_collapse_whitespace_and_keep_eight_words() {
    assert_eq!(title_from_text("  hello \t  world \n"), "hello world");
    assert_eq!(title_from_text("one two three four five six seven eight nine ten"), "one two three four five six seven eight");
    assert_eq!(title_from_text("   "), "New Conversation");
}

#[test]
fn long_titles_are_cut_at_sixty_four_bytes_without_trailing_space() {
    let long = "a".repeat(70);
    assert_eq!(title_from_text(&long), "a".repeat(64));
    let spaced = format!("{} b", "a".repeat(63));
    assert_eq!(title_from_text(&spaced), "a".repeat(63));
    let accented = format!("{}é", "a".repeat(62));
    assert_eq!(title_from_text(&accented), accented);
}

#[test]
fn generated_titles_prefer_the_user_message() {
    assert_eq!(generate_title(Some("Plan a trip"), Some("Sure")), "Plan a trip");
    assert_eq!(generate_title(Some("  "), Some("Reply text")), "Reply text");
    assert_eq!(generate_title(None, None), "New Conversation");
}

#[test]
fn session_ids_are_validated_and_canonicalized() {
    assert_eq!(validate_uuid_session_id(" 550E8400-E29B-41D4-A716-446655440000 ").ok(), Some(ID.to_string()));
    assert_eq!(validate_uuid_session_id("550e8400e29b41d4a716446655440000").ok(), Some(ID.to_string()));
    assert_eq!(validate_uuid_session_id("  ").ok(), Some(String::new()));
    let err = validate_uuid_session_id("not-a-uuid").err().expect("invalid");
    assert!(matches!(err, SessionIdError::Invalid));
    assert_eq!(err.message(), "session_id must be a valid UUID");
}

#[test]
fn the_session_cookie_is_found_among_other_pairs() {
    assert_eq!(cookie_session_id("theme=dark; uar_session_id=abc; x=2"), Some("abc".to_string()));
    assert_eq!(cookie_session_id(" uar_session_id=a=b"), Some("a=b".to_string()));
    assert_eq!(cookie_session_id("uar_session_idx=1; other"), None);
    assert_eq!(cookie_session_id(""), None);
}

#[test]
fn session_sources_are_tried_header_body_then_cookie() {
    let upper = "550E8400-E29B-41D4-A716-446655440000";
    assert_eq!(resolve_session_id(Some(upper), Some("bad"), None).ok(), Some(Some(ID.to_string())));
    assert_eq!(resolve_session_id(Some(" "), Some(ID), None).ok(), Some(Some(ID.to_string())));
    let cookie = format!("uar_session_id={ID}");
    assert_eq!(resolve_session_id(None, None, Some(&cookie)).ok(), Some(Some(ID.to_string())));
    assert!(resolve_session_id(None, None, Some("uar_session_id=bad")).is_err());
    assert!(resolve_session_id(Some("bad"), None, None).is_err());
    assert_eq!(resolve_session_id(None, Some(""), Some("x=1")).ok(), Some(None));
}

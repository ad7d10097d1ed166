use chatpurp::outgoing::{chat_content, reply_use, ReplyUse, UpstreamError, MODEL};

#[test]
fn thinking_prefix_is_removed_with_unicode_and_mixed_case() {
    assert_eq!(chat_content(Some("raisonnement é</THINK> réponse")).unwrap(), "réponse");
    assert_eq!(chat_content(Some("<think>secret</think> réponse")).unwrap(), "réponse");
    assert!(chat_content(Some("secret</think> ")).is_err());
}

#[test]
fn missing_or_blank_content_is_an_upstream_error() {
    assert_eq!(chat_content(None), Err(UpstreamError));
    assert_eq!(chat_content(Some("   ")), Err(UpstreamError));
    assert_eq!(chat_content(Some("  bonjour  ")).unwrap(), "bonjour");
    assert_eq!(chat_content(Some("a</think>b</think>c")).unwrap(), "b</think>c");
    assert_eq!(MODEL, "qwen3:4b");
}

#[test]
fn replies_are_used_only_on_success_without_coding() {
    assert_eq!(reply_use(200, "POST", "/api/chat", false), ReplyUse::ReadBody);
    assert_eq!(reply_use(204, "PUT", "/collections/x", false), ReplyUse::ReadBody);
    assert_eq!(reply_use(200, "POST", "/api/chat", true), ReplyUse::Refused);
    assert_eq!(reply_use(302, "POST", "/api/chat", false), ReplyUse::Refused);
    assert_eq!(reply_use(500, "POST", "/api/chat", false), ReplyUse::Refused);
    assert_eq!(
        reply_use(404, "DELETE", "/collections/lab_semantic_documents", false),
        ReplyUse::AlreadyAbsent
    );
    assert_eq!(reply_use(404, "DELETE", "/collections/other", false), ReplyUse::Refused);
    assert_eq!(
        reply_use(404, "PUT", "/collections/lab_semantic_documents", false),
        ReplyUse::Refused
    );
}

use brew::compose::{compose_draft, email_to_draft, forward_draft, Draft, DraftError, EmailReply};
use brew::thread::Email;

const BODY_SENTINEL: &str = "--- body ---";

// ── parse_draft ─────────────────────────────────────────────────────────

#[test]
fn parse_draft_extracts_all_fields() {
    let text = "To: alice@x.com\nCc: bob@x.com\nSubject: Hello\nIn-Reply-To: <123>\n--- body ---\nHi there";
    let d = Draft::parse(text);
    assert_eq!(d.to.len(), 1);
    assert_eq!(d.to[0].address(), "alice@x.com");
    assert_eq!(d.cc.len(), 1);
    assert_eq!(d.cc[0].address(), "bob@x.com");
    assert_eq!(d.subject, "Hello");
    assert_eq!(d.in_reply_to.as_deref(), Some("<123>"));
    assert_eq!(d.body, "Hi there");
}

#[test]
fn parse_draft_multiple_to() {
    let text = "To: a@x.com, b@x.com\nSubject: Hi\n--- body ---\n";
    let d = Draft::parse(text);
    assert_eq!(d.to.len(), 2);
}

#[test]
fn parse_draft_no_in_reply_to() {
    let text = "To: a@x.com\nSubject: Hi\n--- body ---\nBody";
    let d = Draft::parse(text);
    assert!(d.in_reply_to.is_none());
}

#[test]
fn parse_draft_empty_body() {
    let text = "To: a@x.com\nSubject: Hi\n--- body ---\n";
    let d = Draft::parse(text);
    assert!(d.body.is_empty());
}

#[test]
fn parse_draft_no_sentinel() {
    let text = "To: a@x.com\nSubject: Hi\n";
    let d = Draft::parse(text);
    assert!(d.body.is_empty());
}

#[test]
fn parse_draft_multiline_body() {
    let text = "To: a@x.com\nSubject: Hi\n--- body ---\nLine 1\nLine 2\nLine 3";
    let d = Draft::parse(text);
    assert_eq!(d.body, "Line 1\nLine 2\nLine 3");
}

#[test]
fn parse_draft_drops_leading_blank_lines_of_body() {
    let text = "To: a@x.com\n--- body ---\n\n\nHello\n\nBye\n";
    let d = Draft::parse(text);
    assert_eq!(d.body, "Hello\n\nBye");
}

#[test]
fn parse_draft_ignores_header_lines_after_separator() {
    let text = "Subject: One\n--- body ---\nSubject: Two\nTo: x@y.z";
    let d = Draft::parse(text);
    assert_eq!(d.subject, "One");
    assert!(d.to.is_empty());
    assert_eq!(d.body, "Subject: Two\nTo: x@y.z");
}

#[test]
fn parse_draft_later_header_wins() {
    let d = Draft::parse("Subject: One\nSubject:  Two  \n");
    assert_eq!(d.subject, "Two");
}

// ── compose_draft ───────────────────────────────────────────────────────

#[test]
fn compose_draft_has_required_headers() {
    let draft = compose_draft(None);
    assert!(draft.contains("To: "));
    assert!(draft.contains("Subject: "));
    assert!(draft.contains(BODY_SENTINEL));
}

#[test]
fn compose_draft_roundtrips() {
    let draft = compose_draft(None);
    let d = Draft::parse(&draft);
    assert!(d.to.is_empty());
    assert!(d.subject.is_empty());
    assert!(d.in_reply_to.is_none());
}

#[test]
fn compose_draft_appends_signature() {
    let draft = compose_draft(Some("-- \nBest regards"));
    assert_eq!(draft, "To: \nSubject: \n--- body ---\n\n--\n-- \nBest regards\n");
    let d = Draft::parse(&draft);
    assert!(d.to.is_empty());
    assert_eq!(d.body, "--\n-- \nBest regards");
}

// ── to_rfc2822 ──────────────────────────────────────────────────────────

#[test]
fn draft_to_rfc2822_contains_message_id() {
    let text = "To: alice@x.com\nSubject: Hi\n--- body ---\nHello";
    let rfc = Draft::parse(text).to_rfc2822("me@x.com", 1_700_000_000, 77);
    assert!(rfc.contains("Message-ID:"), "got: {rfc}");
    assert!(rfc.starts_with("Message-ID: <1700000000.77.localhost>\r\n"), "got: {rfc}");
}

#[test]
fn draft_to_rfc2822_contains_required_headers() {
    let text = "To: alice@x.com\nCc: bob@x.com\nSubject: Hi\n--- body ---\nHello";
    let rfc = Draft::parse(text).to_rfc2822("Me <me@x.com>", 1, 2);
    assert!(rfc.contains("From: Me <me@x.com>"), "got: {rfc}");
    assert!(rfc.contains("To: alice@x.com"), "got: {rfc}");
    assert!(rfc.contains("Cc: bob@x.com"), "got: {rfc}");
    assert!(rfc.contains("Subject: Hi"), "got: {rfc}");
}

#[test]
fn draft_to_rfc2822_contains_body() {
    let text = "To: alice@x.com\nSubject: Hi\n--- body ---\nHello world";
    let rfc = Draft::parse(text).to_rfc2822("me@x.com", 1, 2);
    assert!(rfc.contains("Hello world"), "got: {rfc}");
}

#[test]
fn draft_to_rfc2822_includes_in_reply_to() {
    let text = "To: alice@x.com\nSubject: Re: Hi\nIn-Reply-To: <abc@x.com>\n--- body ---\n";
    let rfc = Draft::parse(text).to_rfc2822("me@x.com", 1, 2);
    assert!(rfc.contains("In-Reply-To: <abc@x.com>"), "got: {rfc}");
}

#[test]
fn draft_to_rfc2822_exact_text() {
    let text = "To: A <a@x.com>, b@x.com\nSubject: S\n--- body ---\nl1\nl2";
    let rfc = Draft::parse(text).to_rfc2822("me@x.com", 5, 6);
    assert_eq!(
        rfc,
        "Message-ID: <5.6.localhost>\r\nFrom: me@x.com\r\nTo: A <a@x.com>, b@x.com\r\nSubject: S\r\nMIME-Version: 1.0\r\nContent-Type: text/plain; charset=utf-8\r\n\r\nl1\r\nl2"
    );
}

// ── stored messages ─────────────────────────────────────────────────────

fn stored(content: &str) -> Email {
    Email::from_file("/mb/cur/m:2,S", content.as_bytes()).unwrap()
}

#[test]
fn email_to_draft_restores_to_and_subject() {
    let content = "Message-ID: <id@test>\r\nFrom: alice@x.com\r\nTo: bob@x.com\r\nSubject: Hello\r\nDate: Mon, 01 Jan 2024 00:00:00 +0000\r\n\r\nBody text\r\n";
    let draft = email_to_draft(&stored(content), content.as_bytes()).unwrap();
    assert!(draft.contains("To: bob@x.com"), "got: {draft}");
    assert!(draft.contains("Subject: Hello"), "got: {draft}");
}

#[test]
fn email_to_draft_restores_cc() {
    let content = "Message-ID: <id@test>\r\nFrom: alice@x.com\r\nTo: bob@x.com\r\nCc: carol@x.com\r\nSubject: Hi\r\nDate: Mon, 01 Jan 2024 00:00:00 +0000\r\n\r\nBody\r\n";
    let draft = email_to_draft(&stored(content), content.as_bytes()).unwrap();
    assert!(draft.contains("Cc: carol@x.com"), "got: {draft}");
}

#[test]
fn email_to_draft_restores_body() {
    let content = "Message-ID: <id@test>\r\nFrom: alice@x.com\r\nTo: bob@x.com\r\nSubject: Hi\r\nDate: Mon, 01 Jan 2024 00:00:00 +0000\r\n\r\nHello world\r\n";
    let draft = email_to_draft(&stored(content), content.as_bytes()).unwrap();
    assert!(draft.contains("Hello world"), "got: {draft}");
}

#[test]
fn email_to_draft_roundtrips_via_rfc2822() {
    let original = "To: alice@x.com\nSubject: Test\n--- body ---\nHi there";
    let rfc = Draft::parse(original).to_rfc2822("me@x.com", 1, 2);
    let email = stored(&rfc);
    let draft = email_to_draft(&email, rfc.as_bytes()).unwrap();
    assert!(draft.contains("To: alice@x.com"), "got: {draft}");
    assert!(draft.contains("Subject: Test"), "got: {draft}");
    assert!(draft.contains("Hi there"), "got: {draft}");
}

#[test]
fn email_to_draft_keeps_in_reply_to() {
    let content = "Message-ID: <c@t>\r\nFrom: a@x.com\r\nTo: b@x.com\r\nIn-Reply-To: <p@t>\r\nSubject: Re: Hi\r\n\r\nBody\r\n";
    let draft = email_to_draft(&stored(content), content.as_bytes()).unwrap();
    assert!(draft.contains("In-Reply-To: <p@t>\n"), "got: {draft}");
    assert!(!draft.contains("Cc:"), "got: {draft}");
}

// ── reply_draft ─────────────────────────────────────────────────────────

#[test]
fn reply_draft_cc_includes_original_to() {
    let content = "Message-ID: <id@test>\r\nFrom: alice@x.com\r\nTo: me@x.com, bob@x.com\r\nSubject: Hi\r\nDate: Mon, 01 Jan 2024 00:00:00 +0000\r\n\r\nBody\r\n";
    let draft = stored(content).reply_draft(content.as_bytes(), false, "me@x.com", None).unwrap();
    assert!(draft.contains("bob@x.com"), "original To recipient should be in Cc: {draft}");
}

#[test]
fn reply_draft_cc_excludes_own_address() {
    let content = "Message-ID: <id@test>\r\nFrom: alice@x.com\r\nTo: me@x.com, bob@x.com\r\nSubject: Hi\r\nDate: Mon, 01 Jan 2024 00:00:00 +0000\r\n\r\nBody\r\n";
    let draft = stored(content).reply_draft(content.as_bytes(), false, "me@x.com", None).unwrap();
    let cc_line = draft.lines().find(|l| l.starts_with("Cc:")).unwrap_or("");
    assert!(!cc_line.contains("me@x.com"), "own address must not appear in Cc: {draft}");
}

#[test]
fn reply_draft_cc_merges_original_cc() {
    let content = "Message-ID: <id@test>\r\nFrom: alice@x.com\r\nTo: bob@x.com\r\nCc: carol@x.com\r\nSubject: Hi\r\nDate: Mon, 01 Jan 2024 00:00:00 +0000\r\n\r\nBody\r\n";
    let draft = stored(content).reply_draft(content.as_bytes(), false, "me@x.com", None).unwrap();
    assert!(draft.contains("bob@x.com"), "original To should be in Cc: {draft}");
    assert!(draft.contains("carol@x.com"), "original Cc should be in Cc: {draft}");
}

#[test]
fn reply_draft_deduplicates_cc() {
    let content = "Message-ID: <id@test>\r\nFrom: alice@x.com\r\nTo: bob@x.com\r\nCc: bob@x.com\r\nSubject: Hi\r\nDate: Mon, 01 Jan 2024 00:00:00 +0000\r\n\r\nBody\r\n";
    let draft = stored(content).reply_draft(content.as_bytes(), false, "me@x.com", None).unwrap();
    let cc_line = draft.lines().find(|l| l.starts_with("Cc:")).unwrap_or("");
    let count = cc_line.matches("bob@x.com").count();
    assert_eq!(count, 1, "bob@x.com must appear only once in Cc: {draft}");
}

#[test]
fn reply_draft_exact_text_with_quote_and_signature() {
    let content = "Message-ID: <id@test>\r\nFrom: Alice <alice@x.com>\r\nTo: ME@X.COM, Bob <bob@x.com>\r\nCc: BOB@x.com\r\nSubject: Re: Plans\r\n\r\nline one\r\nline two\r\n";
    let draft = stored(content).reply_draft(content.as_bytes(), true, "me@x.com", Some("sig")).unwrap();
    assert_eq!(
        draft,
        "To: Alice <alice@x.com>\nSubject: Re: Plans\nIn-Reply-To: <id@test>\nCc: Bob <bob@x.com>\n--- body ---\n> line one\n> line two\n\n--\nsig\n"
    );
}

#[test]
fn reply_draft_adds_re_prefix() {
    let content = "Message-ID: <id@test>\r\nFrom: a@x.com\r\nSubject: Plans\r\n\r\nB\r\n";
    let draft = stored(content).reply_draft(content.as_bytes(), false, "me@x.com", None).unwrap();
    assert!(draft.contains("Subject: Re: Plans\n"), "got: {draft}");
}

// ── forward_draft ───────────────────────────────────────────────────────

#[test]
fn forward_draft_to_is_empty() {
    let content = "Message-ID: <id@test>\r\nFrom: alice@x.com\r\nTo: bob@x.com\r\nSubject: Hello\r\nDate: Mon, 01 Jan 2024 00:00:00 +0000\r\n\r\nBody text\r\n";
    let draft = forward_draft(&stored(content), content.as_bytes(), None).unwrap();
    let to_line = draft.lines().find(|l| l.starts_with("To:")).unwrap_or("");
    assert_eq!(to_line, "To: ", "To: must be empty: {draft}");
}

#[test]
fn forward_draft_adds_fwd_prefix() {
    let content = "Message-ID: <id@test>\r\nFrom: alice@x.com\r\nTo: bob@x.com\r\nSubject: Hello\r\nDate: Mon, 01 Jan 2024 00:00:00 +0000\r\n\r\nBody\r\n";
    let draft = forward_draft(&stored(content), content.as_bytes(), None).unwrap();
    assert!(draft.contains("Subject: Fwd: Hello"), "subject must have Fwd: prefix: {draft}");
}

#[test]
fn forward_draft_does_not_double_fwd_prefix() {
    let content = "Message-ID: <id@test>\r\nFrom: alice@x.com\r\nTo: bob@x.com\r\nSubject: Fwd: Hello\r\nDate: Mon, 01 Jan 2024 00:00:00 +0000\r\n\r\nBody\r\n";
    let draft = forward_draft(&stored(content), content.as_bytes(), None).unwrap();
    assert!(!draft.contains("Fwd: Fwd:"), "subject must not double Fwd: prefix: {draft}");
}

#[test]
fn forward_draft_includes_original_body_quoted() {
    let content = "Message-ID: <id@test>\r\nFrom: alice@x.com\r\nTo: bob@x.com\r\nSubject: Hi\r\nDate: Mon, 01 Jan 2024 00:00:00 +0000\r\n\r\nOriginal body\r\n";
    let draft = forward_draft(&stored(content), content.as_bytes(), None).unwrap();
    assert!(draft.contains("> Original body"), "body must be quoted: {draft}");
}

#[test]
fn forward_draft_includes_attribution_header() {
    let content = "Message-ID: <id@test>\r\nFrom: Alice <alice@x.com>\r\nTo: bob@x.com\r\nSubject: Hi\r\nDate: Mon, 01 Jan 2024 00:00:00 +0000\r\n\r\nBody\r\n";
    let draft = forward_draft(&stored(content), content.as_bytes(), None).unwrap();
    assert!(draft.contains("Forwarded message"), "draft must contain attribution header: {draft}");
    assert!(draft.contains("alice@x.com"), "attribution must include original sender: {draft}");
}

#[test]
fn drafts_of_unparseable_messages_fail() {
    let email = Email::new("x@t", None, "", "", None, "/mb/new/x");
    assert_eq!(email_to_draft(&email, b""), Err(DraftError::Unparseable));
}

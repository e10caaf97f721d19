use brew::flags::{flagged_path_of, has_flag, is_unread, seen_path_of, unflagged_path_of, unseen_path_of, Flag};
use brew::thread::{Email, EmailError, EmailThread};

fn minimal_email(message_id: &str, in_reply_to: Option<&str>, from: &str, subject: &str) -> String {
    let mut s = format!(
        "Message-ID: <{}>\r\nFrom: {}\r\nSubject: {}\r\nDate: Mon, 01 Jan 2024 00:00:00 +0000\r\n",
        message_id, from, subject
    );
    if let Some(reply) = in_reply_to {
        s.push_str(&format!("In-Reply-To: <{}>\r\n", reply));
    }
    s.push_str("\r\nBody\r\n");
    s
}

fn make_email(path: &str) -> Email {
    Email::new("id@test", None, "", "", None, path)
}

/// Marks `email` read the way the program does: the file is renamed to
/// the path given by `read_path`, then the email records it.
fn mark_as_read(email: &mut Email) {
    if let Some(p) = email.read_path() {
        email.set_path(p);
    }
}

fn mark_as_unread(email: &mut Email) {
    if let Some(p) = email.unread_path() {
        email.set_path(p);
    }
}

fn file_name(path: &str) -> &str {
    path.rsplit('/').next().unwrap()
}

// ── is_unread ────────────────────────────────────────────────────────────

#[test]
fn is_unread_new_dir_always_unread() {
    assert!(make_email("/mb/new/msg").is_unread());
}

#[test]
fn is_unread_cur_with_seen_flag() {
    assert!(!make_email("/mb/cur/msg:2,S").is_unread());
}

#[test]
fn is_unread_cur_without_seen_flag() {
    assert!(make_email("/mb/cur/msg:2,").is_unread());
}

#[test]
fn is_unread_cur_multiple_flags_including_seen() {
    assert!(!make_email("/mb/cur/msg:2,RS").is_unread());
}

#[test]
fn is_unread_cur_no_flags_section() {
    assert!(make_email("/mb/cur/msg").is_unread());
}

#[test]
fn is_unread_cur_unrecognized_info_format() {
    assert!(make_email("/mb/cur/msg:1,S").is_unread());
}

// ── from_file ────────────────────────────────────────────────────────────

#[test]
fn from_file_parses_display_name() {
    let c = minimal_email("id@test", None, "Alice <alice@example.com>", "Hello");
    let email = Email::from_file("/mb/new/msg1", c.as_bytes()).unwrap();
    assert_eq!(email.from.name(), "Alice");
    assert_eq!(email.from.address(), "alice@example.com");
    assert_eq!(email.from.full(), "Alice <alice@example.com>");
}

#[test]
fn from_file_falls_back_to_address_when_no_name() {
    let c = minimal_email("id@test", None, "alice@example.com", "Hello");
    let email = Email::from_file("/mb/new/msg1", c.as_bytes()).unwrap();
    assert_eq!(email.from.short(), "alice@example.com");
}

#[test]
fn from_file_parses_subject_and_message_id() {
    let c = minimal_email("myid@test", None, "bob@example.com", "My Subject");
    let email = Email::from_file("/mb/new/msg1", c.as_bytes()).unwrap();
    assert_eq!(email.message_id, "myid@test");
    assert_eq!(email.subject, "My Subject");
    assert_eq!(email.path(), "/mb/new/msg1");
}

#[test]
fn from_file_parses_in_reply_to() {
    let c = minimal_email("child@test", Some("parent@test"), "bob@example.com", "Re: Hello");
    let email = Email::from_file("/mb/new/msg1", c.as_bytes()).unwrap();
    assert_eq!(email.reply_to, Some("parent@test".to_string()));
}

#[test]
fn from_file_parses_timestamp() {
    let c = minimal_email("id@test", None, "test@example.com", "Test");
    let email = Email::from_file("/mb/new/msg1", c.as_bytes()).unwrap();
    assert_eq!(email.timestamp, Some(1_704_067_200));
}

#[test]
fn from_file_missing_date_gives_none_timestamp() {
    let c = "Message-ID: <id@test>\r\nFrom: test@example.com\r\n\r\nBody\r\n";
    let email = Email::from_file("/mb/new/msg1", c.as_bytes()).unwrap();
    assert_eq!(email.timestamp, None);
}

#[test]
fn from_file_error_on_missing_message_id() {
    let c = "From: test@example.com\r\nSubject: No ID\r\n\r\nBody\r\n";
    assert_eq!(
        Email::from_file("/mb/new/msg1", c.as_bytes()).unwrap_err(),
        EmailError::NoMessageId
    );
}

#[test]
fn from_file_error_on_nonexistent_file() {
    // a file that cannot be read reaches the library as no bytes at all
    assert!(Email::from_file("/nonexistent/path/file", b"").is_err());
}

// ── mark_as_read ─────────────────────────────────────────────────────────

#[test]
fn mark_as_read_moves_from_new_to_cur() {
    let mut email = make_email("/mb/new/msg1");
    mark_as_read(&mut email);
    assert_eq!(email.path(), "/mb/cur/msg1:2,S");
    assert!(!email.is_unread());
}

#[test]
fn mark_as_read_adds_seen_flag_in_cur() {
    let mut email = make_email("/mb/cur/msg1:2,");
    mark_as_read(&mut email);
    assert!(email.path().contains(":2,S"));
    assert!(!email.is_unread());
}

#[test]
fn mark_as_read_already_seen_is_noop() {
    let mut email = make_email("/mb/cur/msg1:2,S");
    assert!(email.read_path().is_none());
    mark_as_read(&mut email);
    assert_eq!(email.path(), "/mb/cur/msg1:2,S");
}

#[test]
fn mark_as_read_inserts_s_in_alphabetical_order() {
    let mut email = make_email("/mb/cur/msg1:2,RT");
    mark_as_read(&mut email);
    assert_eq!(file_name(email.path()), "msg1:2,RST");
}

#[test]
fn mark_as_read_cur_no_flags_appends_seen() {
    let mut email = make_email("/mb/cur/msg1");
    mark_as_read(&mut email);
    assert!(file_name(email.path()).ends_with(":2,S"));
}

// ── mark_as_unread ───────────────────────────────────────────────────────

#[test]
fn mark_as_unread_in_new_is_noop() {
    let mut email = make_email("/mb/new/msg1");
    mark_as_unread(&mut email);
    assert!(email.is_unread());
    assert_eq!(file_name(email.path()), "msg1");
}

#[test]
fn mark_as_unread_removes_seen_flag() {
    let mut email = make_email("/mb/cur/msg1:2,S");
    mark_as_unread(&mut email);
    assert!(email.is_unread());
    assert_eq!(file_name(email.path()), "msg1:2,");
}

#[test]
fn mark_as_unread_removes_s_from_multiple_flags() {
    let mut email = make_email("/mb/cur/msg1:2,RST");
    mark_as_unread(&mut email);
    assert!(email.is_unread());
    assert_eq!(file_name(email.path()), "msg1:2,RT");
}

#[test]
fn mark_as_unread_already_unread_is_noop() {
    let mut email = make_email("/mb/cur/msg1:2,");
    assert!(email.unread_path().is_none());
    mark_as_unread(&mut email);
    assert_eq!(email.path(), "/mb/cur/msg1:2,");
}

#[test]
fn mark_as_unread_roundtrip() {
    let mut email = make_email("/mb/cur/msg1:2,R");
    mark_as_read(&mut email);
    assert_eq!(email.path(), "/mb/cur/msg1:2,RS");
    mark_as_unread(&mut email);
    assert_eq!(email.path(), "/mb/cur/msg1:2,R");
}

#[test]
fn email_thread_new_stores_data_and_has_no_replies() {
    let t = EmailThread::new(Email::new("a@t", Some("p@t".to_string()), "Alice", "Hi", Some(5), "/mb/new/a"));
    assert_eq!(t.parent.message_id, "a@t");
    assert_eq!(t.parent.reply_to.as_deref(), Some("p@t"));
    assert_eq!(t.parent.from.name(), "Alice");
    assert_eq!(t.parent.subject, "Hi");
    assert_eq!(t.parent.timestamp, Some(5));
    assert!(t.replies.is_empty());
}

#[test]
fn path_helpers_match_email_methods() {
    assert!(is_unread("/mb/new/x"));
    assert_eq!(seen_path_of("/mb/new/x").as_deref(), Some("/mb/cur/x:2,S"));
    assert_eq!(unseen_path_of("/mb/cur/x:2,FS").as_deref(), Some("/mb/cur/x:2,F"));
    assert_eq!(seen_path_of("mb/cur/x:2,F").as_deref(), Some("mb/cur/x:2,FS"));
}

// ── flags ───────────────────────────────────────────────────────────────────

#[test]
fn has_mark_reads_flag_letters() {
    let e = Email::new("a", None, "x", "s", None, "/mb/cur/a:2,FRS");
    assert!(e.has_mark(Flag::Flagged));
    assert!(e.has_mark(Flag::Replied));
    assert!(e.has_mark(Flag::Seen));
    assert!(!e.has_mark(Flag::Passed));
    let fresh = Email::new("b", None, "x", "s", None, "/mb/new/b:2,F");
    assert!(!fresh.has_mark(Flag::Flagged));
}

#[test]
fn mark_path_adds_sorted_letter() {
    let e = Email::new("a", None, "x", "s", None, "/mb/cur/a:2,RS");
    assert_eq!(e.mark_path(Flag::Flagged).as_deref(), Some("/mb/cur/a:2,FRS"));
    assert_eq!(e.mark_path(Flag::Passed).as_deref(), Some("/mb/cur/a:2,PRS"));
    assert_eq!(e.mark_path(Flag::Replied), None);
    let fresh = Email::new("b", None, "x", "s", None, "/mb/new/b");
    assert_eq!(fresh.mark_path(Flag::Replied).as_deref(), Some("/mb/cur/b:2,R"));
    let bare = Email::new("c", None, "x", "s", None, "/mb/cur/c");
    assert_eq!(bare.mark_path(Flag::Flagged).as_deref(), Some("/mb/cur/c:2,F"));
}

#[test]
fn clear_mark_path_drops_letter() {
    let e = Email::new("a", None, "x", "s", None, "/mb/cur/a:2,FRS");
    assert_eq!(e.clear_mark_path(Flag::Flagged).as_deref(), Some("/mb/cur/a:2,RS"));
    assert_eq!(e.clear_mark_path(Flag::Passed), None);
    let fresh = Email::new("b", None, "x", "s", None, "/mb/new/b");
    assert_eq!(fresh.clear_mark_path(Flag::Seen), None);
}

#[test]
fn marking_then_reading_status_roundtrip() {
    for p in ["/mb/new/x", "/mb/cur/x", "/mb/cur/x:2,", "/mb/cur/x:2,RF", "/mb/cur/x:1,S"] {
        let read = flagged_path_of(p, 'S').unwrap_or_else(|| p.to_string());
        assert!(!is_unread(&read), "{p} -> {read}");
        let unread = unflagged_path_of(&read, 'S').unwrap_or_else(|| read.clone());
        assert!(is_unread(&unread), "{read} -> {unread}");
        assert!(has_flag(&read, 'S'));
    }
}

#[test]
fn toggled_read_path_flips_read_state() {
    let unread = Email::new("a", None, "x", "s", None, "/mb/new/a");
    assert_eq!(unread.toggled_read_path().as_deref(), Some("/mb/cur/a:2,S"));
    let read = Email::new("b", None, "x", "s", None, "/mb/cur/b:2,FS");
    assert_eq!(read.toggled_read_path().as_deref(), Some("/mb/cur/b:2,F"));
}

#[test]
fn toggled_mark_path_flips_flag() {
    let plain = Email::new("a", None, "x", "s", None, "/mb/cur/a:2,S");
    assert_eq!(plain.toggled_mark_path(Flag::Flagged).as_deref(), Some("/mb/cur/a:2,FS"));
    let flagged = Email::new("b", None, "x", "s", None, "/mb/cur/b:2,FS");
    assert_eq!(flagged.toggled_mark_path(Flag::Flagged).as_deref(), Some("/mb/cur/b:2,S"));
}

#[test]
fn is_unread_skips_trailing_separators() {
    assert!(!is_unread("/mb/cur/msg:2,S/"));
    assert!(is_unread("/mb/cur/msg:2,/"));
    assert_eq!(seen_path_of("/mb/cur/msg:2,F/").as_deref(), Some("/mb/cur/msg:2,FS"));
}

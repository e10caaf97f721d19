use brew::editor::{is_quoted_line, HeaderField};
use brew::screen::{
    move_labels, pad_to, sidebar_label, status_bar, tab_title, thread_line, StatusKind,
};
use brew::thread::{Email, EmailThread};
use brew::threads_view::ThreadsView;

// 2024-03-13T12:00:00Z
const NOON: i64 = 1_710_331_200;

fn make_email(id: &str, from: &str, subject: &str, unread: bool) -> Email {
    let path = if unread {
        format!("/mb/new/{}", id)
    } else {
        format!("/mb/cur/{}:2,S", id)
    };
    Email::new(id, None, from, subject, Some(1_700_000_000), &path)
}

fn make_email_with_flags(id: &str, flags: &str) -> Email {
    Email::new(id, None, "sender", "Subject", Some(1_700_000_000), &format!("/mb/cur/{}:2,{}", id, flags))
}

fn row_text(email: &Email, depth: usize, width: u16) -> String {
    let l = thread_line(email, depth, width, NOON);
    format!(
        "{} {}{} {}{}{}{}",
        l.from,
        l.indent,
        l.subject,
        if l.flagged { "★" } else { " " },
        if l.replied { "↩" } else { " " },
        if l.passed { "→ " } else { "  " },
        l.date
    )
}

fn thread(id: &str, from: &str, subject: &str) -> EmailThread {
    EmailThread { parent: make_email(id, from, subject, false), replies: Vec::new() }
}

// ── tab bar ─────────────────────────────────────────────────────────────────

#[test]
fn draw_email_tab_subject_in_tab_bar() {
    assert_eq!(tab_title("Hello subject", false), " Hello subject ");
}

#[test]
fn tab_title_cuts_long_subjects_and_names_untitled_drafts() {
    assert_eq!(tab_title("A very long subject line here", false), " A very long subject… ");
    assert_eq!(tab_title("", true), " Compose ");
    assert_eq!(tab_title("", false), "  ");
    assert_eq!(tab_title("Draft", true), " Draft ");
}

// ── sidebar ─────────────────────────────────────────────────────────────────

#[test]
fn draw_sidebar_renders_all_labels() {
    for label in ["Inbox", "Sent", "Drafts"] {
        assert_eq!(sidebar_label(label, 0), label);
    }
}

#[test]
fn draw_sidebar_shows_unread_count() {
    assert_eq!(sidebar_label("Inbox", 0), "Inbox");
    assert_eq!(sidebar_label("Inbox", 12), "Inbox (12)");
}

// ── status bar ──────────────────────────────────────────────────────────────

#[test]
fn status_bar_prompt_wins() {
    let (kind, parts) = status_bar(Some("hi"), Some("boom"), true, true, None);
    assert_eq!(kind, StatusKind::Prompt);
    assert_eq!(parts, vec![" /hi_"]);
}

#[test]
fn status_bar_error_before_help() {
    let (kind, parts) = status_bar(None, Some("boom"), true, false, None);
    assert_eq!(kind, StatusKind::Error);
    assert_eq!(parts, vec![" error: boom"]);
}

#[test]
fn status_bar_main_help_with_sort_and_search() {
    let (kind, parts) = status_bar(None, None, true, true, Some("rust"));
    assert_eq!(kind, StatusKind::MainHelp);
    assert_eq!(
        parts,
        vec![
            " j/k↑↓ move  J/K mailbox  r reply  R reply+quote  C compose  / search  Q quit",
            "  |  ",
            "sort: asc",
            "  |  ",
            "search: rust"
        ]
    );
    let (_, plain) = status_bar(None, None, true, false, None);
    assert_eq!(plain.len(), 1);
}

#[test]
fn status_bar_tab_help() {
    let (kind, parts) = status_bar(None, None, false, true, Some("x"));
    assert_eq!(kind, StatusKind::TabHelp);
    assert_eq!(parts, vec![" j/k scroll  J/K email  r reply  R reply+quote  C compose  q close"]);
}

// ── move popup ──────────────────────────────────────────────────────────────

#[test]
fn move_labels_skip_current_mailbox() {
    let labels: Vec<String> = ["Inbox", "Sent", "Archive"].iter().map(|s| s.to_string()).collect();
    assert_eq!(move_labels(&labels, 1), vec!["Inbox", "Archive"]);
    assert_eq!(move_labels(&labels, 0), vec!["Sent", "Archive"]);
    assert_eq!(move_labels(&labels, 2), vec!["Inbox", "Sent"]);
}

// ── thread rows ─────────────────────────────────────────────────────────────

#[test]
fn draw_shows_threads_content() {
    let email = make_email("a", "Alice", "Hello", false);
    assert!(row_text(&email, 0, 60).contains("Alice"));
}

#[test]
fn draw_renders_from_and_subject() {
    let email = make_email("a", "Alice", "Hello world", false);
    let text = row_text(&email, 0, 80);
    assert!(text.contains("Alice"), "got: {text}");
    assert!(text.contains("Hello world"), "got: {text}");
}

#[test]
fn draw_uses_no_subject_placeholder() {
    let email = make_email("a", "Alice", "", false);
    assert!(row_text(&email, 0, 80).contains("(no subject)"));
}

#[test]
fn draw_renders_multiple_threads() {
    let view = ThreadsView::new(&vec![thread("a", "Alice", "First"), thread("b", "Bob", "Second")]);
    let text: String = view
        .rows()
        .iter()
        .map(|r| row_text(&r.email, r.depth, 80))
        .collect::<Vec<_>>()
        .join("\n");
    for word in ["Alice", "Bob", "First", "Second"] {
        assert!(text.contains(word), "got:\n{text}");
    }
}

#[test]
fn draw_shows_search_filters_results() {
    let threads = vec![thread("a", "Alice", "Hello"), thread("b", "Bob", "World")];
    let mut view = ThreadsView::new(&threads);
    view.set_search(Some("hello"), &threads);
    let text: String =
        view.rows().iter().map(|r| row_text(&r.email, r.depth, 60)).collect::<Vec<_>>().join("\n");
    assert!(text.contains("Alice"), "got:\n{text}");
    assert!(!text.contains("Bob"), "got:\n{text}");
}

#[test]
fn draw_shows_replied_indicator() {
    let email = make_email_with_flags("a", "RS");
    assert!(row_text(&email, 0, 80).contains('↩'));
}

#[test]
fn draw_shows_passed_indicator() {
    let email = make_email_with_flags("a", "PS");
    assert!(row_text(&email, 0, 80).contains('→'));
}

#[test]
fn draw_shows_flagged_indicator() {
    let email = make_email_with_flags("a", "FS");
    assert!(row_text(&email, 0, 80).contains('★'));
}

#[test]
fn draw_shows_no_indicators_for_plain_email() {
    let email = make_email("a", "Alice", "Hello", false);
    let text = row_text(&email, 0, 80);
    assert!(!text.contains('↩'));
    assert!(!text.contains('→'));
    assert!(!text.contains('★'));
}

#[test]
fn thread_line_columns_exact() {
    let email = make_email("a", "Alice <alice@x.com>", "Hi", true);
    let line = thread_line(&email, 2, 80, NOON);
    assert_eq!(line.from.chars().count(), 27);
    assert!(line.from.starts_with("Alice <alice@x.com>"));
    assert_eq!(line.indent, "  └ ");
    // 80 - 2 - 49 - 4 columns for the subject
    assert_eq!(line.subject, format!("Hi{}", " ".repeat(23)));
    assert!(line.unread);
    assert!(!line.flagged && !line.replied && !line.passed);
    // 2023-11-14, in another year than the clock
    assert_eq!(line.date, format!("Nov 14 2023{}", " ".repeat(5)));
}

#[test]
fn thread_line_narrow_row_has_no_subject_room() {
    let email = make_email("a", "Bob", "Anything", false);
    let line = thread_line(&email, 0, 40, NOON);
    assert_eq!(line.subject, "");
    assert_eq!(line.indent, "");
}

#[test]
fn pad_to_pads_but_never_cuts() {
    assert_eq!(pad_to("ab", 4), "ab  ");
    assert_eq!(pad_to("abcdef", 4), "abcdef");
}

// ── compose view ────────────────────────────────────────────────────────────

#[test]
fn quoted_lines_start_with_gt_after_spaces() {
    let q = |s: &str| is_quoted_line(&s.chars().collect::<Vec<char>>());
    assert!(q("> hello"));
    assert!(q("   >> nested"));
    assert!(!q("hello > world"));
    assert!(!q(""));
    assert!(!q("   "));
}

#[test]
fn cursor_parts_split_at_cursor() {
    let field = HeaderField::new("To", "abc");
    assert_eq!(field.cursor_parts(), ("abc".to_string(), ' ', String::new()));
}

#[test]
fn move_popup_entry_names_the_target_mailbox() {
    let labels: Vec<String> = ["Inbox", "Sent", "Archive", "Spam"].iter().map(|s| s.to_string()).collect();
    for current in 0..labels.len() {
        let entries = move_labels(&labels, current);
        for (i, entry) in entries.iter().enumerate() {
            let target = brew::navigation::move_target(current, i, labels.len()).unwrap();
            assert_eq!(entry, &labels[target]);
        }
    }
}

use brew::editor::Key;
use brew::navigation::{
    command_error, find_email_tab, move_key, move_target, new_mail_text, next_mailbox, next_tab,
    prev_mailbox, prev_tab, search_key, send_key, send_labels, sync_status, tab_after_close,
    FilterChange, MoveAction, MoveMode, SearchMode, SendAction, send_plan, sent_flag, ComposeKind,
    SendStep,
};
use brew::compose::Draft;
use brew::flags::Flag;
use brew::thread::{Email, EmailThread};
use brew::threads_view::ThreadsView;

fn make_threads(ids: &[&str]) -> Vec<EmailThread> {
    ids.iter()
        .map(|id| EmailThread {
            parent: Email::new(id, None, "", "", None, &format!("/mb/new/{}", id)),
            replies: Vec::new(),
        })
        .collect()
}

fn selected_id(view: &ThreadsView) -> String {
    view.selected().unwrap().message_id.clone()
}

// ── mailboxes ───────────────────────────────────────────────────────────────

#[test]
fn capital_j_moves_current_mb_down() {
    let labels = ["Inbox", "Sent"];
    let current = next_mailbox(0, labels.len());
    assert_eq!(labels[current], "Sent");
    assert_eq!(current, 1);
}

#[test]
fn capital_k_moves_current_mb_up() {
    let labels = ["Inbox", "Sent"];
    let current = prev_mailbox(next_mailbox(0, labels.len()));
    assert_eq!(labels[current], "Inbox");
    assert_eq!(current, 0);
}

#[test]
fn capital_j_clamped_at_last_mailbox() {
    let current = next_mailbox(next_mailbox(0, 1), 1);
    assert_eq!(current, 0);
}

#[test]
fn capital_k_clamped_at_first_mailbox() {
    assert_eq!(prev_mailbox(0), 0);
}

#[test]
fn next_mailbox_with_no_mailboxes_stays_at_zero() {
    assert_eq!(next_mailbox(0, 0), 0);
}

// ── thread selection ────────────────────────────────────────────────────────

#[test]
fn j_moves_thread_down() {
    let mut view = ThreadsView::new(&make_threads(&["a", "b"]));
    view.next_email(1);
    assert_eq!(selected_id(&view), "b");
}

#[test]
fn k_moves_thread_up() {
    let mut view = ThreadsView::new(&make_threads(&["a", "b"]));
    view.next_email(1);
    view.prev_email(1);
    assert_eq!(selected_id(&view), "a");
}

#[test]
fn g_moves_to_first_email() {
    let mut view = ThreadsView::new(&make_threads(&["a", "b", "c"]));
    view.next_email(1);
    view.next_email(1);
    view.first_email();
    assert_eq!(selected_id(&view), "a");
}

#[test]
fn g_on_empty_threads_does_not_panic() {
    let mut view = ThreadsView::new(&make_threads(&[]));
    view.first_email();
    assert!(view.selected().is_none());
}

#[test]
fn capital_g_moves_to_last_email() {
    let mut view = ThreadsView::new(&make_threads(&["a", "b", "c"]));
    view.last_email();
    assert_eq!(selected_id(&view), "c");
}

#[test]
fn capital_g_on_empty_threads_does_not_panic() {
    let mut view = ThreadsView::new(&make_threads(&[]));
    view.last_email();
    assert!(view.selected().is_none());
}

// ── tabs ────────────────────────────────────────────────────────────────────

#[test]
fn enter_on_already_open_email_switches_to_existing_tab() {
    let tabs = vec![Some("stub@test".to_string())];
    let found = find_email_tab(&tabs, "stub@test");
    assert_eq!(found, Some(0));
    // the main view is tab 0, so the email tab is tab 1
    assert_eq!(found.unwrap() + 1, 1);
}

#[test]
fn find_email_tab_skips_compose_tabs_and_other_ids() {
    let tabs = vec![None, Some("a@x".to_string()), Some("b@x".to_string())];
    assert_eq!(find_email_tab(&tabs, "b@x"), Some(2));
    assert_eq!(find_email_tab(&tabs, "c@x"), None);
    assert_eq!(find_email_tab(&[], "a@x"), None);
}

#[test]
fn brew_tab_cannot_be_closed() {
    assert_eq!(tab_after_close(0, 1), 0);
}

#[test]
fn close_only_tab_returns_to_brew() {
    // one email tab open and current; after closing it only the main view is left
    assert_eq!(tab_after_close(1, 1), 0);
}

#[test]
fn close_middle_tab_moves_to_next() {
    // tabs A, B, C with B current; two email tabs and the main view remain
    assert_eq!(tab_after_close(2, 3), 2);
}

#[test]
fn close_last_tab_moves_to_previous() {
    // tabs A, B with B current; one email tab and the main view remain
    assert_eq!(tab_after_close(2, 2), 1);
}

#[test]
fn ctrl_n_cycles_tabs_from_any_view() {
    let current = next_tab(0, 2);
    assert_eq!(current, 1);
    assert_eq!(next_tab(current, 2), 0);
}

#[test]
fn ctrl_n_from_brew_moves_to_first_email_tab() {
    assert_eq!(next_tab(0, 2), 1);
}

#[test]
fn ctrl_n_wraps_from_last_tab_to_brew() {
    assert_eq!(next_tab(2, 3), 0);
}

#[test]
fn ctrl_p_from_brew_wraps_to_last_email_tab() {
    assert_eq!(prev_tab(0, 3), 2);
}

#[test]
fn ctrl_p_moves_to_prev_tab() {
    assert_eq!(prev_tab(2, 3), 1);
}

#[test]
fn next_then_prev_tab_returns_to_start() {
    for count in 1..5usize {
        for current in 0..count {
            assert_eq!(prev_tab(next_tab(current, count), count), current);
        }
    }
}

// ── search ──────────────────────────────────────────────────────────────────

#[test]
fn search_esc_clears_and_exits() {
    let mut view = ThreadsView::new(&make_threads(&["a"]));
    let threads = make_threads(&["a"]);
    let mode = SearchMode::Typing(String::new());
    let (mode, change) = search_key(mode, Key::Char('h'));
    assert_eq!(change, FilterChange::Apply(Some("h".to_string())));
    let (mode, change) = search_key(mode, Key::Char('i'));
    assert_eq!(mode, SearchMode::Typing("hi".to_string()));
    if let FilterChange::Apply(q) = change {
        view.set_search(q.as_deref(), &threads);
    }
    assert_eq!(view.search(), Some("hi"));
    let (mode, change) = search_key(mode, Key::Esc);
    assert_eq!(mode, SearchMode::Off);
    assert_eq!(change, FilterChange::Apply(None));
    view.set_search(None, &threads);
    assert!(view.search().is_none());
}

#[test]
fn search_enter_keeps_filter() {
    let threads = make_threads(&["a"]);
    let mut view = ThreadsView::new(&threads);
    let (mode, change) = search_key(SearchMode::Typing(String::new()), Key::Char('t'));
    if let FilterChange::Apply(q) = change {
        view.set_search(q.as_deref(), &threads);
    }
    let (mode, change) = search_key(mode, Key::Enter);
    assert_eq!(mode, SearchMode::Applied);
    assert_eq!(change, FilterChange::Keep);
    assert_eq!(view.search(), Some("t"));
}

#[test]
fn search_enter_on_empty_query_turns_prompt_off() {
    let (mode, change) = search_key(SearchMode::Typing(String::new()), Key::Enter);
    assert_eq!(mode, SearchMode::Off);
    assert_eq!(change, FilterChange::Keep);
}

#[test]
fn search_backspace_to_empty_clears_filter() {
    let (mode, change) = search_key(SearchMode::Typing("x".to_string()), Key::Backspace);
    assert_eq!(mode, SearchMode::Typing(String::new()));
    assert_eq!(change, FilterChange::Apply(None));
    let (mode, change) = search_key(mode, Key::Backspace);
    assert_eq!(mode, SearchMode::Typing(String::new()));
    assert_eq!(change, FilterChange::Apply(None));
}

#[test]
fn search_keys_outside_prompt_do_nothing() {
    assert_eq!(search_key(SearchMode::Off, Key::Char('a')), (SearchMode::Off, FilterChange::Keep));
    assert_eq!(search_key(SearchMode::Applied, Key::Esc), (SearchMode::Applied, FilterChange::Keep));
}

// ── move popup ──────────────────────────────────────────────────────────────

#[test]
fn move_target_skips_current_mailbox() {
    // mailboxes 0, 1, 2 with 1 current: the popup lists 0 and 2
    assert_eq!(move_target(1, 0, 3), Some(0));
    assert_eq!(move_target(1, 1, 3), Some(2));
    assert_eq!(move_target(1, 2, 3), None);
}

#[test]
fn move_key_navigates_and_chooses() {
    let mode = MoveMode::Active { selected: 0 };
    let (mode, action) = move_key(mode, Key::Char('j'), 0, 3);
    assert_eq!(mode, MoveMode::Active { selected: 1 });
    assert_eq!(action, MoveAction::Stay);
    // clamped at the last entry
    let (mode, _) = move_key(mode, Key::Down, 0, 3);
    assert_eq!(mode, MoveMode::Active { selected: 1 });
    let (mode, action) = move_key(mode, Key::Enter, 0, 3);
    assert_eq!(mode, MoveMode::Off);
    assert_eq!(action, MoveAction::MoveTo(2));
}

#[test]
fn move_key_esc_closes_popup() {
    let (mode, action) = move_key(MoveMode::Active { selected: 0 }, Key::Esc, 0, 2);
    assert_eq!(mode, MoveMode::Off);
    assert_eq!(action, MoveAction::Stay);
    let (mode, _) = move_key(MoveMode::Active { selected: 0 }, Key::Char('k'), 0, 2);
    assert_eq!(mode, MoveMode::Active { selected: 0 });
}

// ── status texts ────────────────────────────────────────────────────────────

#[test]
fn new_mail_text_singular_and_plural() {
    assert_eq!(new_mail_text(1, "Inbox"), "1 new email in Inbox");
    assert_eq!(new_mail_text(3, "Work"), "3 new emails in Work");
}

#[test]
fn sync_status_texts() {
    assert_eq!(sync_status(None, 0), None);
    assert_eq!(sync_status(None, 2), Some("2 email(s) failed to load".to_string()));
    assert_eq!(sync_status(Some("boom"), 0), Some("sync: boom".to_string()));
    assert_eq!(
        sync_status(Some("boom"), 1),
        Some("sync: boom; 1 email(s) failed to load".to_string())
    );
}

#[test]
fn command_error_prefers_trimmed_stderr() {
    assert_eq!(command_error("  bad things\n", Some(1)), "bad things");
    assert_eq!(command_error("", Some(2)), "exit 2");
    assert_eq!(command_error("", None), "exit -1");
    assert_eq!(command_error(" \n ", Some(3)), "exit 3");
}

// ── send popup ──────────────────────────────────────────────────────────────

#[test]
fn send_labels_with_and_without_drafts() {
    assert_eq!(send_labels(true), vec!["Send Email", "Save as draft", "Discard"]);
    assert_eq!(send_labels(false), vec!["Send Email", "Discard"]);
}

#[test]
fn send_key_choices() {
    assert_eq!(send_key(0, Key::Enter, true), (0, Some(SendAction::Sent)));
    assert_eq!(send_key(0, Key::Char('j'), true), (1, None));
    assert_eq!(send_key(1, Key::Enter, true), (1, Some(SendAction::SaveDraft)));
    assert_eq!(send_key(1, Key::Enter, false), (1, Some(SendAction::Discard)));
    assert_eq!(send_key(1, Key::Down, false), (1, None));
    assert_eq!(send_key(0, Key::Up, false), (0, None));
    assert_eq!(send_key(2, Key::Esc, true), (2, Some(SendAction::GoBack)));
}

// ── after a synchronisation ─────────────────────────────────────────────────

#[test]
fn new_mail_notices_per_grown_mailbox() {
    let labels: Vec<String> = ["Inbox", "Work", "Lists"].iter().map(|s| s.to_string()).collect();
    let notices = brew::navigation::new_mail_notices(&[3, 5, 7], &[4, 5, 10], &labels);
    assert_eq!(notices, vec!["1 new email in Inbox", "3 new emails in Lists"]);
    // a mailbox that shrank sends nothing
    assert!(brew::navigation::new_mail_notices(&[4], &[2], &labels[..1]).is_empty());
}

#[test]
fn pick_icon_prefers_first_found() {
    let names: Vec<String> = ["mail-message", "mail-unread", "mail-unread-symbolic"]
        .iter()
        .map(|s| s.to_string())
        .collect();
    assert_eq!(brew::navigation::pick_icon(&names, &[false, true, true]), "mail-unread");
    assert_eq!(brew::navigation::pick_icon(&names, &[false, false, false]), "mail-unread-symbolic");
    assert_eq!(brew::navigation::pick_icon(&[], &[]), "dialog-information");
}

#[test]
fn send_popup_letter_shortcuts() {
    assert_eq!(send_key(1, Key::Char('y'), true), (1, Some(SendAction::Sent)));
    assert_eq!(send_key(0, Key::Char('d'), true), (0, Some(SendAction::SaveDraft)));
    assert_eq!(send_key(0, Key::Char('d'), false), (0, None));
    assert_eq!(send_key(0, Key::Char('n'), false), (0, Some(SendAction::Discard)));
}

#[test]
fn send_plan_follows_the_popup_answer() {
    let draft = Draft::parse("To: a@x.com\nCc: B <b@x.com>\nSubject: s\n--- body ---\nhi");
    assert!(matches!(send_plan(SendAction::GoBack, &draft, Some(2)), SendStep::Stay));
    assert!(matches!(send_plan(SendAction::Discard, &draft, Some(2)), SendStep::Close));
    assert!(matches!(send_plan(SendAction::SaveDraft, &draft, Some(2)), SendStep::SaveDraft(2)));
    assert!(matches!(send_plan(SendAction::SaveDraft, &draft, None), SendStep::Close));
    match send_plan(SendAction::Sent, &draft, None) {
        SendStep::Send { recipients, deliver } => {
            assert!(deliver);
            let addrs: Vec<&str> = recipients.iter().map(|a| a.address()).collect();
            assert_eq!(addrs, vec!["a@x.com", "b@x.com"]);
        }
        _ => panic!("expected a send step"),
    }
    let no_to = Draft::parse("To: \nCc: b@x.com\nSubject: s\n--- body ---\nhi");
    match send_plan(SendAction::Sent, &no_to, None) {
        SendStep::Send { recipients, deliver } => {
            assert!(!deliver);
            assert_eq!(recipients.len(), 1);
        }
        _ => panic!("expected a send step"),
    }
}

#[test]
fn sent_flag_marks_the_answered_message() {
    assert_eq!(sent_flag(&ComposeKind::Reply("id@x".to_string()), true), Some(("id@x".to_string(), Flag::Replied)));
    assert_eq!(sent_flag(&ComposeKind::Forward("id@x".to_string()), true), Some(("id@x".to_string(), Flag::Passed)));
    assert_eq!(sent_flag(&ComposeKind::Reply("id@x".to_string()), false), None);
    assert_eq!(sent_flag(&ComposeKind::New, true), None);
}

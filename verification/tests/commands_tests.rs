use brew::commands::{
    compose_wants_send, main_command, route_key, tab_command, KeyRoute, MainCommand, TabCommand,
};
use brew::editor::Key;
use brew::navigation::{tab_after_close, MoveMode, SearchMode};
use brew::thread::{Email, EmailThread};
use brew::threads_view::ThreadsView;

fn make_threads(ids: &[&str]) -> Vec<EmailThread> {
    ids.iter()
        .map(|id| EmailThread {
            parent: Email::new(id, None, "", "", None, &format!("/mb/new/{}", id)),
            replies: Vec::new(),
        })
        .collect()
}

// ── routing ─────────────────────────────────────────────────────────────────

#[test]
fn ctrl_n_and_ctrl_p_switch_tabs_everywhere() {
    let typing = SearchMode::Typing("x".to_string());
    assert_eq!(route_key(Key::Char('n'), true, &typing, MoveMode::Off, 0), KeyRoute::NextTab);
    assert_eq!(
        route_key(Key::Char('p'), true, &SearchMode::Off, MoveMode::Active { selected: 0 }, 3),
        KeyRoute::PrevTab
    );
}

#[test]
fn open_prompt_and_popup_take_keys_first() {
    let typing = SearchMode::Typing(String::new());
    assert_eq!(route_key(Key::Char('n'), false, &typing, MoveMode::Off, 0), KeyRoute::SearchPrompt);
    assert_eq!(
        route_key(Key::Char('j'), false, &SearchMode::Applied, MoveMode::Active { selected: 0 }, 0),
        KeyRoute::MovePopup
    );
    assert_eq!(route_key(Key::Char('j'), false, &SearchMode::Applied, MoveMode::Off, 0), KeyRoute::MainView);
    assert_eq!(route_key(Key::Char('j'), false, &SearchMode::Off, MoveMode::Off, 2), KeyRoute::Tab);
}

// ── main view ───────────────────────────────────────────────────────────────

#[test]
fn capital_q_in_main_quits() {
    assert_eq!(main_command(Key::Char('Q'), false, false, 1), MainCommand::Quit);
}

#[test]
fn lowercase_q_in_main_does_not_quit() {
    assert_eq!(main_command(Key::Char('q'), false, false, 1), MainCommand::Nothing);
}

#[test]
fn capital_d_in_main_with_no_threads_is_noop() {
    // the command is a delete; with no selection nothing is removed and the app keeps running
    let cmd = main_command(Key::Char('D'), false, false, 1);
    assert_eq!(cmd, MainCommand::Delete);
    assert_ne!(cmd, MainCommand::Quit);
}

#[test]
fn slash_enters_search_mode() {
    assert_eq!(main_command(Key::Char('/'), false, false, 1), MainCommand::StartSearch);
}

#[test]
fn main_commands_table() {
    let c = |k: Key, ctrl: bool| main_command(k, ctrl, true, 2);
    assert_eq!(c(Key::Char('s'), true), MainCommand::Sync);
    assert_eq!(c(Key::Char('s'), false), MainCommand::ToggleSort);
    assert_eq!(c(Key::Char(' '), false), MainCommand::ToggleFlagged);
    assert_eq!(c(Key::Char('V'), false), MainCommand::ToggleUnreadFilter);
    assert_eq!(c(Key::Char('J'), false), MainCommand::NextMailbox);
    assert_eq!(c(Key::Char('K'), false), MainCommand::PrevMailbox);
    assert_eq!(c(Key::Char('j'), false), MainCommand::Down(1));
    assert_eq!(c(Key::Down, false), MainCommand::Down(1));
    assert_eq!(c(Key::Char('k'), true), MainCommand::Up(1));
    assert_eq!(c(Key::Char('d'), true), MainCommand::Down(15));
    assert_eq!(c(Key::Char('d'), false), MainCommand::Nothing);
    assert_eq!(c(Key::PageDown, false), MainCommand::Down(15));
    assert_eq!(c(Key::Char('u'), true), MainCommand::Up(15));
    assert_eq!(c(Key::PageUp, false), MainCommand::Up(15));
    assert_eq!(c(Key::Char('g'), false), MainCommand::First);
    assert_eq!(c(Key::Char('G'), false), MainCommand::Last);
    assert_eq!(c(Key::Enter, false), MainCommand::Open);
    assert_eq!(c(Key::Esc, false), MainCommand::ResetSearch);
    assert_eq!(c(Key::Char('v'), false), MainCommand::ToggleRead);
    assert_eq!(c(Key::Char('m'), false), MainCommand::StartMove);
    assert_eq!(c(Key::Char('C'), false), MainCommand::Compose);
    assert_eq!(c(Key::Char('r'), false), MainCommand::Reply(false));
    assert_eq!(c(Key::Char('R'), false), MainCommand::Reply(true));
    assert_eq!(c(Key::Char('f'), false), MainCommand::Sync);
    assert_eq!(c(Key::Tab, false), MainCommand::Nothing);
}

#[test]
fn move_popup_needs_selection_and_another_mailbox() {
    assert_eq!(main_command(Key::Char('m'), false, false, 3), MainCommand::Nothing);
    assert_eq!(main_command(Key::Char('m'), false, true, 1), MainCommand::Nothing);
    assert_eq!(main_command(Key::Char('m'), false, true, 2), MainCommand::StartMove);
}

// ── email tab ───────────────────────────────────────────────────────────────

#[test]
fn q_in_email_tab_returns_true() {
    // `q` closes the tab and never quits the program
    assert_eq!(tab_command(Key::Char('q'), false, 1), TabCommand::Close);
}

#[test]
fn capital_d_in_email_tab_closes_tab() {
    assert_eq!(tab_command(Key::Char('D'), false, 1), TabCommand::Delete);
    // the only email tab is current; after it closes the main view is current
    assert_eq!(tab_after_close(1, 1), 0);
}

#[test]
fn capital_d_in_email_tab_returns_true() {
    assert_ne!(tab_command(Key::Char('D'), false, 1), TabCommand::Nothing);
}

#[test]
fn capital_j_in_email_tab_moves_thread_down() {
    let mut view = ThreadsView::new(&make_threads(&["a", "b"]));
    assert_eq!(tab_command(Key::Char('J'), false, 1), TabCommand::NextEmail);
    view.next_email(1);
    assert_eq!(view.selected().unwrap().message_id, "b");
}

#[test]
fn capital_k_in_email_tab_moves_thread_up() {
    let mut view = ThreadsView::new(&make_threads(&["a", "b"]));
    view.next_email(1);
    assert_eq!(tab_command(Key::Char('K'), false, 1), TabCommand::PrevEmail);
    view.prev_email(1);
    assert_eq!(view.selected().unwrap().message_id, "a");
}

#[test]
fn tab_commands_table() {
    let c = |k: Key, ctrl: bool| tab_command(k, ctrl, 2);
    assert_eq!(c(Key::Char('j'), false), TabCommand::ScrollDown(1));
    assert_eq!(c(Key::Char('d'), true), TabCommand::ScrollDown(15));
    assert_eq!(c(Key::PageDown, false), TabCommand::ScrollDown(15));
    assert_eq!(c(Key::Up, false), TabCommand::ScrollUp(1));
    assert_eq!(c(Key::Char('u'), true), TabCommand::ScrollUp(15));
    assert_eq!(c(Key::Char('g'), false), TabCommand::Top);
    assert_eq!(c(Key::Char('G'), false), TabCommand::Bottom);
    assert_eq!(c(Key::Char('m'), false), TabCommand::StartMove);
    assert_eq!(tab_command(Key::Char('m'), false, 1), TabCommand::Nothing);
    assert_eq!(c(Key::Char('r'), false), TabCommand::Reply(false));
    assert_eq!(c(Key::Char('R'), false), TabCommand::Reply(true));
    assert_eq!(c(Key::Char('f'), false), TabCommand::Forward);
    assert_eq!(c(Key::Char('Y'), false), TabCommand::CopyBody);
    assert_eq!(c(Key::Char('x'), false), TabCommand::Nothing);
}

#[test]
fn ctrl_q_finishes_a_draft() {
    assert!(compose_wants_send(Key::Char('q'), true));
    assert!(!compose_wants_send(Key::Char('q'), false));
    assert!(!compose_wants_send(Key::Char('s'), true));
}

#[test]
fn capital_n_also_toggles_unread_filter() {
    assert_eq!(main_command(Key::Char('N'), false, true, 1), MainCommand::ToggleUnreadFilter);
    assert_eq!(main_command(Key::Char('V'), false, true, 1), MainCommand::ToggleUnreadFilter);
}

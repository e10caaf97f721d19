//! What a key press means in the main window: which part of the window
//! handles it, and the command it stands for in the main view, in an email
//! tab and in a compose tab.
//!
//! A key press is a [`Key`] and whether Control (alone) was held.
use crate::editor::Key;
use crate::navigation::{MoveMode, SearchMode};
use vstd::prelude::*;

verus! {

/// The part of the window that handles a key.
#[derive(Debug, Clone, Copy, PartialEq, Eq, Structural)]
pub enum KeyRoute {
    /// Control-N: the next tab.
    NextTab,
    /// Control-P: the previous tab.
    PrevTab,
    /// The search prompt is open.
    SearchPrompt,
    /// The move popup is open.
    MovePopup,
    /// The main view (thread list and mailboxes).
    MainView,
    /// The current email or compose tab.
    Tab,
}

/// Where a key goes: the tab switches come first, then an open search
/// prompt, then an open move popup, then the current tab.
pub open spec fn route_spec(
    key: Key,
    ctrl: bool,
    typing: bool,
    moving: bool,
    current_tab: nat,
) -> KeyRoute {
    if ctrl && key == Key::Char('n') {
        KeyRoute::NextTab
    } else if ctrl && key == Key::Char('p') {
        KeyRoute::PrevTab
    } else if typing {
        KeyRoute::SearchPrompt
    } else if moving {
        KeyRoute::MovePopup
    } else if current_tab == 0 {
        KeyRoute::MainView
    } else {
        KeyRoute::Tab
    }
}

/// Route a key press, given the search prompt, the move popup and the
/// current tab.
pub fn route_key(
    key: Key,
    ctrl: bool,
    search: &SearchMode,
    moving: MoveMode,
    current_tab: usize,
) -> (r: KeyRoute)
    ensures
        r == route_spec(key, ctrl, *search is Typing, moving is Active, current_tab as nat),
{
    let typing = match search {
        SearchMode::Typing(_) => true,
        _ => false,
    };
    let active = match moving {
        MoveMode::Active { .. } => true,
        MoveMode::Off => false,
    };
    if ctrl && key == Key::Char('n') {
        KeyRoute::NextTab
    } else if ctrl && key == Key::Char('p') {
        KeyRoute::PrevTab
    } else if typing {
        KeyRoute::SearchPrompt
    } else if active {
        KeyRoute::MovePopup
    } else if current_tab == 0 {
        KeyRoute::MainView
    } else {
        KeyRoute::Tab
    }
}

// ──────────────────────────────── main view ─────────────────────────────────

/// A command of the main view.
#[derive(Debug, Clone, Copy, PartialEq, Eq, Structural)]
pub enum MainCommand {
    /// Leave the program.
    Quit,
    /// Run the synchronisation command now (`f`, or Control-S).
    Sync,
    /// Set or clear the Flagged flag of the selected thread.
    ToggleFlagged,
    /// Delete the selected thread's email.
    Delete,
    /// Show only unread threads, or all again (`V`, or `N`).
    ToggleUnreadFilter,
    /// Flip the sort order of the mailbox.
    ToggleSort,
    /// Go to the next mailbox.
    NextMailbox,
    /// Go to the previous mailbox.
    PrevMailbox,
    /// Move the selection this many rows down.
    Down(usize),
    /// Move the selection this many rows up.
    Up(usize),
    /// Select the first row.
    First,
    /// Select the last row.
    Last,
    /// Open the selected email.
    Open,
    /// Open the search prompt.
    StartSearch,
    /// Clear the search.
    ResetSearch,
    /// Mark the selected email read or unread.
    ToggleRead,
    /// Open the move popup.
    StartMove,
    /// Write a new email.
    Compose,
    /// Reply to the selected email (`true`: quoting it).
    Reply(bool),
    /// The key does nothing here.
    Nothing,
}

/// The command of a key in the main view.  The move popup only opens with
/// an email selected and another mailbox to move it to.
pub open spec fn main_command_spec(
    key: Key,
    ctrl: bool,
    has_selection: bool,
    mailboxes: nat,
) -> MainCommand {
    if key == Key::Char('Q') {
        MainCommand::Quit
    } else if (ctrl && key == Key::Char('s')) || key == Key::Char('f') {
        MainCommand::Sync
    } else if key == Key::Char(' ') {
        MainCommand::ToggleFlagged
    } else if key == Key::Char('D') {
        MainCommand::Delete
    } else if key == Key::Char('V') || key == Key::Char('N') {
        MainCommand::ToggleUnreadFilter
    } else if key == Key::Char('s') {
        MainCommand::ToggleSort
    } else if key == Key::Char('J') {
        MainCommand::NextMailbox
    } else if key == Key::Char('K') {
        MainCommand::PrevMailbox
    } else if key == Key::Char('j') || key == Key::Down {
        MainCommand::Down(1)
    } else if key == Key::Char('k') || key == Key::Up {
        MainCommand::Up(1)
    } else if (ctrl && key == Key::Char('d')) || key == Key::PageDown {
        MainCommand::Down(15)
    } else if (ctrl && key == Key::Char('u')) || key == Key::PageUp {
        MainCommand::Up(15)
    } else if key == Key::Char('g') {
        MainCommand::First
    } else if key == Key::Char('G') {
        MainCommand::Last
    } else if key == Key::Enter {
        MainCommand::Open
    } else if key == Key::Char('/') {
        MainCommand::StartSearch
    } else if key == Key::Esc {
        MainCommand::ResetSearch
    } else if key == Key::Char('v') {
        MainCommand::ToggleRead
    } else if key == Key::Char('m') {
        if has_selection && mailboxes > 1 {
            MainCommand::StartMove
        } else {
            MainCommand::Nothing
        }
    } else if key == Key::Char('C') {
        MainCommand::Compose
    } else if key == Key::Char('r') {
        MainCommand::Reply(false)
    } else if key == Key::Char('R') {
        MainCommand::Reply(true)
    } else {
        MainCommand::Nothing
    }
}

/// The command of a key in the main view, with or without a selected
/// email, among `mailboxes` mailboxes.
pub fn main_command(key: Key, ctrl: bool, has_selection: bool, mailboxes: usize) -> (r:
    MainCommand)
    ensures
        r == main_command_spec(key, ctrl, has_selection, mailboxes as nat),
{
    if key == Key::Char('Q') {
        MainCommand::Quit
    } else if (ctrl && key == Key::Char('s')) || key == Key::Char('f') {
        MainCommand::Sync
    } else if key == Key::Char(' ') {
        MainCommand::ToggleFlagged
    } else if key == Key::Char('D') {
        MainCommand::Delete
    } else if key == Key::Char('V') || key == Key::Char('N') {
        MainCommand::ToggleUnreadFilter
    } else if key == Key::Char('s') {
        MainCommand::ToggleSort
    } else if key == Key::Char('J') {
        MainCommand::NextMailbox
    } else if key == Key::Char('K') {
        MainCommand::PrevMailbox
    } else if key == Key::Char('j') || key == Key::Down {
        MainCommand::Down(1)
    } else if key == Key::Char('k') || key == Key::Up {
        MainCommand::Up(1)
    } else if (ctrl && key == Key::Char('d')) || key == Key::PageDown {
        MainCommand::Down(15)
    } else if (ctrl && key == Key::Char('u')) || key == Key::PageUp {
        MainCommand::Up(15)
    } else if key == Key::Char('g') {
        MainCommand::First
    } else if key == Key::Char('G') {
        MainCommand::Last
    } else if key == Key::Enter {
        MainCommand::Open
    } else if key == Key::Char('/') {
        MainCommand::StartSearch
    } else if key == Key::Esc {
        MainCommand::ResetSearch
    } else if key == Key::Char('v') {
        MainCommand::ToggleRead
    } else if key == Key::Char('m') {
        if has_selection && mailboxes > 1 {
            MainCommand::StartMove
        } else {
            MainCommand::Nothing
        }
    } else if key == Key::Char('C') {
        MainCommand::Compose
    } else if key == Key::Char('r') {
        MainCommand::Reply(false)
    } else if key == Key::Char('R') {
        MainCommand::Reply(true)
    } else {
        MainCommand::Nothing
    }
}

// ──────────────────────────────── email tab ─────────────────────────────────

/// A command of an email tab.
#[derive(Debug, Clone, Copy, PartialEq, Eq, Structural)]
pub enum TabCommand {
    /// Close the tab.
    Close,
    /// Show the next email of the thread list in this tab.
    NextEmail,
    /// Show the previous email of the thread list in this tab.
    PrevEmail,
    /// Scroll this many lines down.
    ScrollDown(u16),
    /// Scroll this many lines up.
    ScrollUp(u16),
    /// Scroll to the top.
    Top,
    /// Scroll to the bottom.
    Bottom,
    /// Open the move popup.
    StartMove,
    /// Delete the email.
    Delete,
    /// Reply (`true`: quoting it).
    Reply(bool),
    /// Forward the email.
    Forward,
    /// Copy the raw body to the clipboard.
    CopyBody,
    /// The key does nothing here.
    Nothing,
}

/// The command of a key in an email tab.  The move popup only opens with
/// another mailbox to move the email to.
pub open spec fn tab_command_spec(key: Key, ctrl: bool, mailboxes: nat) -> TabCommand {
    if key == Key::Char('q') {
        TabCommand::Close
    } else if key == Key::Char('J') {
        TabCommand::NextEmail
    } else if key == Key::Char('K') {
        TabCommand::PrevEmail
    } else if key == Key::Char('j') || key == Key::Down {
        TabCommand::ScrollDown(1)
    } else if (ctrl && key == Key::Char('d')) || key == Key::PageDown {
        TabCommand::ScrollDown(15)
    } else if key == Key::Char('k') || key == Key::Up {
        TabCommand::ScrollUp(1)
    } else if (ctrl && key == Key::Char('u')) || key == Key::PageUp {
        TabCommand::ScrollUp(15)
    } else if key == Key::Char('g') {
        TabCommand::Top
    } else if key == Key::Char('G') {
        TabCommand::Bottom
    } else if key == Key::Char('m') {
        if mailboxes > 1 {
            TabCommand::StartMove
        } else {
            TabCommand::Nothing
        }
    } else if key == Key::Char('D') {
        TabCommand::Delete
    } else if key == Key::Char('r') {
        TabCommand::Reply(false)
    } else if key == Key::Char('R') {
        TabCommand::Reply(true)
    } else if key == Key::Char('f') {
        TabCommand::Forward
    } else if key == Key::Char('Y') {
        TabCommand::CopyBody
    } else {
        TabCommand::Nothing
    }
}

/// The command of a key in an email tab, among `mailboxes` mailboxes.
pub fn tab_command(key: Key, ctrl: bool, mailboxes: usize) -> (r: TabCommand)
    ensures
        r == tab_command_spec(key, ctrl, mailboxes as nat),
{
    if key == Key::Char('q') {
        TabCommand::Close
    } else if key == Key::Char('J') {
        TabCommand::NextEmail
    } else if key == Key::Char('K') {
        TabCommand::PrevEmail
    } else if key == Key::Char('j') || key == Key::Down {
        TabCommand::ScrollDown(1)
    } else if (ctrl && key == Key::Char('d')) || key == Key::PageDown {
        TabCommand::ScrollDown(15)
    } else if key == Key::Char('k') || key == Key::Up {
        TabCommand::ScrollUp(1)
    } else if (ctrl && key == Key::Char('u')) || key == Key::PageUp {
        TabCommand::ScrollUp(15)
    } else if key == Key::Char('g') {
        TabCommand::Top
    } else if key == Key::Char('G') {
        TabCommand::Bottom
    } else if key == Key::Char('m') {
        if mailboxes > 1 {
            TabCommand::StartMove
        } else {
            TabCommand::Nothing
        }
    } else if key == Key::Char('D') {
        TabCommand::Delete
    } else if key == Key::Char('r') {
        TabCommand::Reply(false)
    } else if key == Key::Char('R') {
        TabCommand::Reply(true)
    } else if key == Key::Char('f') {
        TabCommand::Forward
    } else if key == Key::Char('Y') {
        TabCommand::CopyBody
    } else {
        TabCommand::Nothing
    }
}

/// Whether a key in a compose tab asks to finish the draft (Control-Q);
/// every other key goes to the editor.
pub fn compose_wants_send(key: Key, ctrl: bool) -> (r: bool)
    ensures
        r == (ctrl && key == Key::Char('q')),
{
    ctrl && key == Key::Char('q')
}

} // verus!

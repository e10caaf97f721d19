//! The decisions of the main window: which tab and mailbox are current, the
//! search prompt, the move-to-mailbox popup, what follows the send popup,
//! and the status messages.
//!
//! Tab 0 is always the main view; email and compose tabs follow it.
use crate::address::{address_views, Address};
use crate::compose::Draft;
use crate::editor::Key;
use crate::flags::Flag;
use crate::text::{
    decimal, push_decimal, push_signed_decimal, push_str, signed_decimal, string_from, string_views,
    to_chars, trim, trim_chars,
};
use vstd::prelude::*;
use vstd::string::*;

verus! {

/// The tab after the current one, wrapping to the main view.
pub open spec fn next_tab_spec(current: nat, tab_count: nat) -> nat {
    let up = if current + 1 <= usize::MAX {
        current + 1
    } else {
        usize::MAX as nat
    };
    (up % tab_count) as nat
}

/// Switch to the next tab (`tab_count` tabs, the main view included).
pub fn next_tab(current: usize, tab_count: usize) -> (r: usize)
    requires
        tab_count > 0,
    ensures
        r == next_tab_spec(current as nat, tab_count as nat),
        r < tab_count,
{
    current.saturating_add(1) % tab_count
}

/// Switch to the previous tab, wrapping to the last one.
pub fn prev_tab(current: usize, tab_count: usize) -> (r: usize)
    requires
        tab_count > 0,
        current + tab_count - 1 <= usize::MAX,
    ensures
        r == (current + tab_count - 1) % (tab_count as int),
        r < tab_count,
{
    (current + (tab_count - 1)) % tab_count
}

/// Switching to the next tab and then to the previous one comes back to
/// the tab one started from, and so does the other way round.
pub proof fn lemma_tab_cycle(current: nat, tab_count: nat)
    requires
        current < tab_count,
        tab_count <= usize::MAX,
    ensures
        (next_tab_spec(current, tab_count) + tab_count - 1) % (tab_count as int) == current,
        next_tab_spec(((current + tab_count - 1) % (tab_count as int)) as nat, tab_count)
            == current,
{
    let n = tab_count as int;
    let c = current as int;
    assert((c + 1) % n == if c + 1 < n { c + 1 } else { 0 }) by (nonlinear_arith)
        requires
            0 <= c < n,
    ;
    assert((c + n) % n == c) by (nonlinear_arith)
        requires
            0 <= c < n,
    ;
    assert((n - 1) % n == n - 1) by (nonlinear_arith)
        requires
            0 <= c < n,
    ;
    let p = (c + n - 1) % n;
    assert(p == if c > 0 { c - 1 } else { n - 1 }) by (nonlinear_arith)
        requires
            0 <= c < n,
            p == (c + n - 1) % n,
    ;
    assert((p + 1) % n == c) by (nonlinear_arith)
        requires
            0 <= c < n,
            p == if c > 0 { c - 1 } else { n - 1 },
    ;
}

/// The current tab after closing it, `tab_count` tabs (the main view
/// included) remaining: the main view cannot be closed; otherwise the tab
/// after the closed one becomes current, or the one before when it was the
/// last.
pub open spec fn after_close(current: nat, tab_count: nat) -> nat {
    if current == 0 {
        0
    } else if current >= tab_count {
        (current - 1) as nat
    } else {
        current
    }
}

/// The tab that is current after the current tab is closed (see
/// [`after_close`]); `tab_count` counts the tabs left.
pub fn tab_after_close(current: usize, tab_count: usize) -> (r: usize)
    ensures
        r == after_close(current as nat, tab_count as nat),
{
    if current == 0 {
        0
    } else if current >= tab_count {
        current - 1
    } else {
        current
    }
}

/// The next mailbox, staying on the last one.
pub fn next_mailbox(current: usize, count: usize) -> (r: usize)
    ensures
        r == crate::email_view::min_int(
            crate::email_view::min_int(current + 1, usize::MAX as int),
            if count >= 1 {
                count - 1
            } else {
                0
            },
        ),
{
    let up = current.saturating_add(1);
    let last = count.saturating_sub(1);
    if up < last {
        up
    } else {
        last
    }
}

/// The previous mailbox, staying on the first one.
pub fn prev_mailbox(current: usize) -> (r: usize)
    ensures
        r == if current >= 1 {
            current - 1
        } else {
            0
        },
{
    current.saturating_sub(1)
}

// ─────────────────────────────── move popup ─────────────────────────────────

/// The mailbox index of the `sel`-th mailbox other than `current`, among
/// `count` mailboxes.
pub open spec fn move_target_spec(current: nat, sel: nat, count: nat) -> Option<nat> {
    let idx = if sel < current {
        sel
    } else {
        sel + 1
    };
    if idx < count {
        Some(idx)
    } else {
        None
    }
}

/// The mailbox an email is moved to when the `sel`-th entry of the popup
/// (which lists every mailbox but the current one) is chosen.
pub fn move_target(current: usize, sel: usize, count: usize) -> (r: Option<usize>)
    ensures
        r == match move_target_spec(current as nat, sel as nat, count as nat) {
            Some(i) => Some(i as usize),
            None => None::<usize>,
        },
{
    let idx = if sel < current {
        sel
    } else {
        if sel == usize::MAX {
            return None;
        }
        sel + 1
    };
    if idx < count {
        Some(idx)
    } else {
        None
    }
}

/// The state of the move popup.
#[derive(Debug, Clone, Copy, PartialEq, Eq, Structural)]
pub enum MoveMode {
    Off,
    Active { selected: usize },
}

/// What a key does in the move popup.
#[derive(Debug, Clone, Copy, PartialEq, Eq, Structural)]
pub enum MoveAction {
    /// Nothing more.
    Stay,
    /// Move the selected email to the mailbox at this index.
    MoveTo(usize),
}

/// The popup and the action after the key `k`, with `count` mailboxes and
/// the mailbox `current` shown.
pub open spec fn move_key_spec(mode: MoveMode, k: Key, current: nat, count: nat) -> (MoveMode, MoveAction) {
    let targets = if count >= 1 {
        count - 1
    } else {
        0
    };
    match mode {
        MoveMode::Off => (mode, MoveAction::Stay),
        MoveMode::Active { selected } => if k == Key::Char('j') || k == Key::Down {
            (MoveMode::Active {
                selected: crate::email_view::min_int(
                    selected + 1,
                    if targets >= 1 {
                        targets - 1
                    } else {
                        0
                    },
                ) as usize,
            }, MoveAction::Stay)
        } else if k == Key::Char('k') || k == Key::Up {
            (MoveMode::Active {
                selected: if selected >= 1 {
                    (selected - 1) as usize
                } else {
                    0
                },
            }, MoveAction::Stay)
        } else if k == Key::Enter {
            (MoveMode::Off, match move_target_spec(current, selected as nat, count) {
                Some(i) => MoveAction::MoveTo(i as usize),
                None => MoveAction::Stay,
            })
        } else if k == Key::Esc {
            (MoveMode::Off, MoveAction::Stay)
        } else {
            (mode, MoveAction::Stay)
        },
    }
}

/// Handle a key in the move popup.
pub fn move_key(mode: MoveMode, key: Key, current: usize, count: usize) -> (r: (MoveMode, MoveAction))
    ensures
        r == move_key_spec(mode, key, current as nat, count as nat),
{
    let targets = count.saturating_sub(1);
    match mode {
        MoveMode::Off => (mode, MoveAction::Stay),
        MoveMode::Active { selected } => {
            if key == Key::Char('j') || key == Key::Down {
                let last = targets.saturating_sub(1);
                let next = if selected < last {
                    selected + 1
                } else {
                    last
                };
                (MoveMode::Active { selected: next }, MoveAction::Stay)
            } else if key == Key::Char('k') || key == Key::Up {
                (MoveMode::Active { selected: selected.saturating_sub(1) }, MoveAction::Stay)
            } else if key == Key::Enter {
                match move_target(current, selected, count) {
                    Some(i) => (MoveMode::Off, MoveAction::MoveTo(i)),
                    None => (MoveMode::Off, MoveAction::Stay),
                }
            } else if key == Key::Esc {
                (MoveMode::Off, MoveAction::Stay)
            } else {
                (mode, MoveAction::Stay)
            }
        },
    }
}

// ────────────────────────────── search prompt ───────────────────────────────

/// The state of the subject search prompt.
#[derive(Debug, Clone, PartialEq, Eq)]
pub enum SearchMode {
    Off,
    /// The query being typed.
    Typing(String),
    /// A query was entered and filters the list.
    Applied,
}

/// The content of a [`SearchMode`].
pub enum SearchState {
    Off,
    Typing(Seq<char>),
    Applied,
}

/// What happens to the list filter after a key in the prompt.
#[derive(Debug, Clone, PartialEq, Eq)]
pub enum FilterChange {
    /// The filter stays.
    Keep,
    /// The filter becomes this query (`None`: no filter).
    Apply(Option<String>),
}

/// The view of a search mode.
pub open spec fn search_state(m: SearchMode) -> SearchState {
    match m {
        SearchMode::Off => SearchState::Off,
        SearchMode::Typing(s) => SearchState::Typing(s@),
        SearchMode::Applied => SearchState::Applied,
    }
}

/// The view of a filter change.
pub open spec fn filter_view(f: FilterChange) -> Option<Option<Seq<char>>> {
    match f {
        FilterChange::Keep => None,
        FilterChange::Apply(q) => Some(
            match q {
                Some(s) => Some(s@),
                None => None,
            },
        ),
    }
}

/// The prompt and the filter after the key `k`: typing edits the query and
/// filters live (an empty query clears the filter); Enter keeps the filter
/// (and closes the prompt, which is off when the query is empty); Esc
/// clears the filter.
pub open spec fn search_key_spec(s: SearchState, k: Key) -> (SearchState, Option<Option<Seq<char>>>) {
    match s {
        SearchState::Typing(q) => match k {
            Key::Char(c) => (SearchState::Typing(q.push(c)), Some(Some(q.push(c)))),
            Key::Backspace => {
                let r = if q.len() > 0 {
                    q.drop_last()
                } else {
                    q
                };
                (SearchState::Typing(r), Some(
                    if r.len() == 0 {
                        None
                    } else {
                        Some(r)
                    },
                ))
            },
            Key::Enter => (if q.len() == 0 {
                SearchState::Off
            } else {
                SearchState::Applied
            }, None),
            Key::Esc => (SearchState::Off, Some(None)),
            _ => (s, None),
        },
        _ => (s, None),
    }
}

/// Handle a key in the search prompt.
pub fn search_key(mode: SearchMode, key: Key) -> (r: (SearchMode, FilterChange))
    ensures
        (search_state(r.0), filter_view(r.1)) == search_key_spec(search_state(mode), key),
{
    match mode {
        SearchMode::Typing(q) => match key {
            Key::Char(c) => {
                let mut cs = to_chars(q.as_str());
                cs.push(c);
                let s = string_from(cs.as_slice());
                let f = s.clone();
                (SearchMode::Typing(s), FilterChange::Apply(Some(f)))
            },
            Key::Backspace => {
                let mut cs = to_chars(q.as_str());
                if cs.len() > 0 {
                    cs.pop();
                }
                let s = string_from(cs.as_slice());
                if cs.len() == 0 {
                    (SearchMode::Typing(s), FilterChange::Apply(None))
                } else {
                    let f = s.clone();
                    (SearchMode::Typing(s), FilterChange::Apply(Some(f)))
                }
            },
            Key::Enter => {
                if q.as_str().is_empty() {
                    (SearchMode::Off, FilterChange::Keep)
                } else {
                    (SearchMode::Applied, FilterChange::Keep)
                }
            },
            Key::Esc => (SearchMode::Off, FilterChange::Apply(None)),
            _ => (SearchMode::Typing(q), FilterChange::Keep),
        },
        SearchMode::Off => (SearchMode::Off, FilterChange::Keep),
        SearchMode::Applied => (SearchMode::Applied, FilterChange::Keep),
    }
}

// ─────────────────────────────── status texts ───────────────────────────────

/// `N new email(s) in LABEL`.
pub open spec fn new_mail_spec(diff: nat, label: Seq<char>) -> Seq<char> {
    decimal(diff) + " new email"@ + (if diff == 1 {
        seq![]
    } else {
        "s"@
    }) + " in "@ + label
}

/// The notification text when `diff` new emails arrived in the mailbox
/// `label`.
pub fn new_mail_text(diff: usize, label: &str) -> (r: String)
    ensures
        r@ == new_mail_spec(diff as nat, label@),
{
    let mut out: Vec<char> = Vec::new();
    push_decimal(&mut out, diff as u64);
    push_str(&mut out, " new email");
    if diff != 1 {
        push_str(&mut out, "s");
    }
    push_str(&mut out, " in ");
    push_str(&mut out, label);
    proof {
        assert(out@ =~= new_mail_spec(diff as nat, label@));
    }
    string_from(out.as_slice())
}

/// The status line after a synchronisation whose command failed with
/// `err` (if it did) and after which `failed` emails did not load.
pub open spec fn sync_status_spec(err: Option<Seq<char>>, failed: nat) -> Option<Seq<char>> {
    match err {
        None => if failed > 0 {
            Some(decimal(failed) + " email(s) failed to load"@)
        } else {
            None
        },
        Some(e) => if failed > 0 {
            Some("sync: "@ + e + "; "@ + decimal(failed) + " email(s) failed to load"@)
        } else {
            Some("sync: "@ + e)
        },
    }
}

/// The status line after a synchronisation (see [`sync_status_spec`]).
pub fn sync_status(err: Option<&str>, failed: usize) -> (r: Option<String>)
    ensures
        match r {
            Some(s) => sync_status_spec(crate::compose::opt_str(err), failed as nat) == Some(s@),
            None => sync_status_spec(crate::compose::opt_str(err), failed as nat) is None,
        },
{
    let mut out: Vec<char> = Vec::new();
    match err {
        None => {
            if failed == 0 {
                return None;
            }
            push_decimal(&mut out, failed as u64);
            push_str(&mut out, " email(s) failed to load");
        },
        Some(e) => {
            push_str(&mut out, "sync: ");
            push_str(&mut out, e);
            if failed > 0 {
                push_str(&mut out, "; ");
                push_decimal(&mut out, failed as u64);
                push_str(&mut out, " email(s) failed to load");
            }
        },
    }
    proof {
        assert(Some(out@) =~~= sync_status_spec(crate::compose::opt_str(err), failed as nat));
    }
    Some(string_from(out.as_slice()))
}

/// The error reported for a synchronisation command that failed with the
/// error output `stderr` and the exit code `code` (`None` when killed by a
/// signal): the trimmed output, or `exit CODE` (-1 without a code) when
/// that is empty.
pub open spec fn command_error_spec(stderr: Seq<char>, code: Option<i32>) -> Seq<char> {
    if trim(stderr).len() == 0 {
        "exit "@ + signed_decimal(
            match code {
                Some(c) => c as int,
                None => -1,
            },
        )
    } else {
        trim(stderr)
    }
}

/// The error text of a failed synchronisation command.
pub fn command_error(stderr: &str, code: Option<i32>) -> (r: String)
    ensures
        r@ == command_error_spec(stderr@, code),
{
    let cs = to_chars(stderr);
    let t = trim_chars(cs.as_slice());
    if t.len() == 0 {
        let mut out: Vec<char> = Vec::new();
        push_str(&mut out, "exit ");
        let c: i64 = match code {
            Some(c) => c as i64,
            None => -1,
        };
        push_signed_decimal(&mut out, c);
        proof {
            assert(out@ =~= command_error_spec(stderr@, code));
        }
        string_from(out.as_slice())
    } else {
        string_from(t.as_slice())
    }
}

/// The position of the email tab showing the message `id`, among the
/// message ids of the tabs (`None` for compose tabs).
pub fn find_email_tab(tab_ids: &[Option<String>], id: &str) -> (r: Option<usize>)
    ensures
        match r {
            Some(i) => i < tab_ids@.len() && tab_ids@[i as int] is Some && tab_ids@[i as int]->0@
                == id@ && forall|j: int|
                0 <= j < i ==> !(tab_ids@[j] is Some && #[trigger] tab_ids@[j]->0@ == id@),
            None => forall|j: int|
                0 <= j < tab_ids@.len() ==> !(tab_ids@[j] is Some && #[trigger] tab_ids@[j]->0@
                    == id@),
        },
{
    let target = id.to_string();
    let n = tab_ids.len();
    let mut i: usize = 0;
    while i < n
        invariant
            n == tab_ids@.len(),
            target@ == id@,
            i <= n,
            forall|j: int|
                0 <= j < i ==> !(tab_ids@[j] is Some && #[trigger] tab_ids@[j]->0@ == id@),
        decreases n - i,
    {
        match &tab_ids[i] {
            Some(s) => {
                if s.eq(&target) {
                    return Some(i);
                }
            },
            None => {},
        }
        i += 1;
    }
    None
}

/// The notices for the first `n` mailboxes after a synchronisation: one
/// [`new_mail_spec`] text for each mailbox `i` whose email count grew from
/// `before[i]` to `after[i]`, in mailbox order.
pub open spec fn notices_upto(
    before: Seq<usize>,
    after: Seq<usize>,
    labels: Seq<Seq<char>>,
    n: nat,
) -> Seq<Seq<char>>
    decreases n,
{
    if n == 0 {
        seq![]
    } else {
        let i = n - 1;
        let rest = notices_upto(before, after, labels, i as nat);
        if after[i] > before[i] {
            rest.push(new_mail_spec((after[i] - before[i]) as nat, labels[i]))
        } else {
            rest
        }
    }
}

/// The notifications after a synchronisation, given each mailbox's email
/// count before and after it and the mailboxes' labels.
pub fn new_mail_notices(before: &[usize], after: &[usize], labels: &[String]) -> (r: Vec<String>)
    requires
        before@.len() == after@.len(),
        labels@.len() == after@.len(),
    ensures
        string_views(r@) == notices_upto(before@, after@, string_views(labels@), after@.len()),
{
    let n = after.len();
    let mut out: Vec<String> = Vec::new();
    let mut i: usize = 0;
    while i < n
        invariant
            n == after@.len(),
            before@.len() == n,
            labels@.len() == n,
            i <= n,
            string_views(out@) == notices_upto(before@, after@, string_views(labels@), i as nat),
        decreases n - i,
    {
        if after[i] > before[i] {
            let text = new_mail_text(after[i] - before[i], labels[i].as_str());
            out.push(text);
            proof {
                assert(string_views(out@) =~= notices_upto(
                    before@,
                    after@,
                    string_views(labels@),
                    i as nat,
                ).push(text@));
            }
        }
        i += 1;
    }
    out
}

/// Index of the first `true` of `found`.
pub open spec fn first_found(found: Seq<bool>) -> Option<int>
    decreases found.len(),
{
    if found.len() == 0 {
        None
    } else if found[0] {
        Some(0)
    } else {
        match first_found(found.subrange(1, found.len() as int)) {
            Some(i) => Some(i + 1),
            None => None,
        }
    }
}

/// The notification icon: the first candidate that was found installed,
/// else the last candidate, else `dialog-information`.
pub open spec fn icon_choice(candidates: Seq<Seq<char>>, found: Seq<bool>) -> Seq<char> {
    match first_found(found) {
        Some(i) => candidates[i],
        None => if candidates.len() > 0 {
            candidates.last()
        } else {
            "dialog-information"@
        },
    }
}

/// Choose the notification icon among `candidates`, `found[i]` telling
/// whether the `i`-th was found among the installed icons.
pub fn pick_icon(candidates: &[String], found: &[bool]) -> (r: String)
    requires
        found@.len() == candidates@.len(),
    ensures
        r@ == icon_choice(string_views(candidates@), found@),
{
    let n = found.len();
    let mut i: usize = 0;
    assert(found@.subrange(0, n as int) =~= found@);
    while i < n
        invariant
            n == found@.len(),
            n == candidates@.len(),
            i <= n,
            first_found(found@) == match first_found(found@.subrange(i as int, n as int)) {
                Some(j) => Some(j + i),
                None => None::<int>,
            },
        decreases n - i,
    {
        let ghost rest = found@.subrange(i as int, n as int);
        assert(rest.subrange(1, rest.len() as int) =~= found@.subrange(i + 1, n as int));
        if found[i] {
            return candidates[i].clone();
        }
        i += 1;
    }
    assert(found@.subrange(n as int, n as int).len() == 0);
    if n > 0 {
        candidates[n - 1].clone()
    } else {
        "dialog-information".to_string()
    }
}

// ───────────────────────────── send confirmation ────────────────────────────

/// What to do with a finished draft.
#[derive(Debug, Clone, Copy, PartialEq, Eq, Structural)]
pub enum SendAction {
    Sent,
    Discard,
    SaveDraft,
    GoBack,
}

/// The number of entries of the send popup: `Send Email`, `Save as draft`
/// (only with a drafts mailbox) and `Discard`.
pub open spec fn send_choices(has_drafts: bool) -> nat {
    if has_drafts {
        3
    } else {
        2
    }
}

/// The action of the entry `idx` of the send popup.
pub open spec fn send_choice(idx: nat, has_drafts: bool) -> SendAction {
    if idx == 0 {
        SendAction::Sent
    } else if has_drafts && idx == 1 {
        SendAction::SaveDraft
    } else {
        SendAction::Discard
    }
}

/// The entries of the send popup.
pub fn send_labels(has_drafts: bool) -> (r: Vec<String>)
    ensures
        r@.len() == send_choices(has_drafts),
        r@[0]@ == "Send Email"@,
        has_drafts ==> r@[1]@ == "Save as draft"@ && r@[2]@ == "Discard"@,
        !has_drafts ==> r@[1]@ == "Discard"@,
{
    let mut v: Vec<String> = Vec::new();
    v.push("Send Email".to_string());
    if has_drafts {
        v.push("Save as draft".to_string());
    }
    v.push("Discard".to_string());
    v
}

/// The selection and, once chosen, the action after the key `k` in the
/// send popup: `j`/`k` and the arrows move, Enter chooses the selected
/// entry, Esc goes back to the draft, and `y`, `d` (with a drafts mailbox)
/// and `n` send, save and discard directly.
pub open spec fn send_key_spec(selected: nat, k: Key, has_drafts: bool) -> (nat, Option<SendAction>) {
    let last = (send_choices(has_drafts) - 1) as nat;
    if k == Key::Char('j') || k == Key::Down {
        (if selected + 1 <= last {
            selected + 1
        } else {
            last
        }, None)
    } else if k == Key::Char('k') || k == Key::Up {
        (if selected >= 1 {
            (selected - 1) as nat
        } else {
            0
        }, None)
    } else if k == Key::Enter {
        (selected, Some(send_choice(selected, has_drafts)))
    } else if k == Key::Esc {
        (selected, Some(SendAction::GoBack))
    } else if k == Key::Char('y') {
        (selected, Some(SendAction::Sent))
    } else if k == Key::Char('d') && has_drafts {
        (selected, Some(SendAction::SaveDraft))
    } else if k == Key::Char('n') {
        (selected, Some(SendAction::Discard))
    } else {
        (selected, None)
    }
}

/// Handle a key in the send popup.
pub fn send_key(selected: usize, key: Key, has_drafts: bool) -> (r: (usize, Option<SendAction>))
    requires
        selected < send_choices(has_drafts),
    ensures
        (r.0 as nat, r.1) == send_key_spec(selected as nat, key, has_drafts),
        r.0 < send_choices(has_drafts),
{
    let last: usize = if has_drafts {
        2
    } else {
        1
    };
    if key == Key::Char('j') || key == Key::Down {
        (if selected < last {
            selected + 1
        } else {
            last
        }, None)
    } else if key == Key::Char('k') || key == Key::Up {
        (selected.saturating_sub(1), None)
    } else if key == Key::Enter {
        let a = if selected == 0 {
            SendAction::Sent
        } else if has_drafts && selected == 1 {
            SendAction::SaveDraft
        } else {
            SendAction::Discard
        };
        (selected, Some(a))
    } else if key == Key::Esc {
        (selected, Some(SendAction::GoBack))
    } else if key == Key::Char('y') {
        (selected, Some(SendAction::Sent))
    } else if key == Key::Char('d') && has_drafts {
        (selected, Some(SendAction::SaveDraft))
    } else if key == Key::Char('n') {
        (selected, Some(SendAction::Discard))
    } else {
        (selected, None)
    }
}


// ─────────────────────────────── after sending ──────────────────────────────

/// What a compose tab was opened for: a new message, or a reply to or a
/// forward of the message with the given `Message-ID`.
pub enum ComposeKind {
    New,
    Reply(String),
    Forward(String),
}

/// What follows the answer to the send popup.
pub enum SendStep {
    /// Back to the editor; the tab stays open.
    Stay,
    /// Close the tab and do nothing more.
    Close,
    /// Close the tab, add `recipients` to the address book, and send the
    /// draft when `deliver` (a draft without a `To` recipient is not sent).
    Send { recipients: Vec<Address>, deliver: bool },
    /// Close the tab and write the draft into the mailbox at this position.
    SaveDraft(usize),
}

/// The step for the popup's answer `action` on the draft `draft`, where
/// `drafts_mailbox` is the position of the Drafts mailbox, if any.
pub fn send_plan(action: SendAction, draft: &Draft, drafts_mailbox: Option<usize>) -> (r: SendStep)
    ensures
        match action {
            SendAction::GoBack => r is Stay,
            SendAction::Discard => r is Close,
            SendAction::SaveDraft => match drafts_mailbox {
                Some(i) => r matches SendStep::SaveDraft(j) && j == i,
                None => r is Close,
            },
            SendAction::Sent => r matches SendStep::Send { recipients, deliver } && address_views(
                recipients@,
            ) == draft@.to + draft@.cc && deliver == (draft@.to.len() > 0),
        },
{
    match action {
        SendAction::GoBack => SendStep::Stay,
        SendAction::Discard => SendStep::Close,
        SendAction::SaveDraft => match drafts_mailbox {
            Some(i) => SendStep::SaveDraft(i),
            None => SendStep::Close,
        },
        SendAction::Sent => {
            let mut recipients: Vec<Address> = Vec::new();
            let n = draft.to.len();
            let m = draft.cc.len();
            let mut i: usize = 0;
            while i < n
                invariant
                    n == draft.to@.len(),
                    i <= n,
                    address_views(recipients@) == address_views(draft.to@).subrange(0, i as int),
                decreases n - i,
            {
                let ghost b = address_views(recipients@);
                recipients.push(draft.to[i].clone());
                assert(address_views(recipients@) =~= b.push(draft.to@[i as int]@));
                assert(address_views(draft.to@).subrange(0, i + 1) =~= b.push(
                    draft.to@[i as int]@,
                ));
                i += 1;
            }
            assert(address_views(draft.to@).subrange(0, n as int) =~= address_views(draft.to@));
            let mut k: usize = 0;
            while k < m
                invariant
                    n == draft.to@.len(),
                    m == draft.cc@.len(),
                    k <= m,
                    address_views(recipients@) == address_views(draft.to@) + address_views(
                        draft.cc@,
                    ).subrange(0, k as int),
                decreases m - k,
            {
                let ghost b = address_views(recipients@);
                recipients.push(draft.cc[k].clone());
                assert(address_views(recipients@) =~= b.push(draft.cc@[k as int]@));
                assert(address_views(draft.to@) + address_views(draft.cc@).subrange(0, k + 1)
                    =~= b.push(draft.cc@[k as int]@));
                k += 1;
            }
            assert(address_views(draft.cc@).subrange(0, m as int) =~= address_views(draft.cc@));
            SendStep::Send { recipients, deliver: n > 0 }
        },
    }
}

/// The flag to set on the message a sent draft answered, with that
/// message's id: `Replied` after a reply, `Passed` after a forward; none
/// for a new message or when sending failed.
pub fn sent_flag(kind: &ComposeKind, sent_ok: bool) -> (r: Option<(String, Flag)>)
    ensures
        match kind {
            ComposeKind::New => r is None,
            ComposeKind::Reply(id) => if sent_ok {
                r matches Some((x, f)) && x@ == id@ && f == Flag::Replied
            } else {
                r is None
            },
            ComposeKind::Forward(id) => if sent_ok {
                r matches Some((x, f)) && x@ == id@ && f == Flag::Passed
            } else {
                r is None
            },
        },
{
    if !sent_ok {
        return None;
    }
    match kind {
        ComposeKind::New => None,
        ComposeKind::Reply(id) => Some((id.clone(), Flag::Replied)),
        ComposeKind::Forward(id) => Some((id.clone(), Flag::Passed)),
    }
}

} // verus!

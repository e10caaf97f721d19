//! The text the main window shows: tab titles, mailbox labels, the status
//! bar, the move popup's entries and the columns of a thread-list row.
//! Colours and layout are left to the terminal front end.
use crate::date::{date_label, humanize_date_at, in_calendar};
use crate::email_view::shown_subject;
use crate::flags::{flag_char, path_has_flag, path_is_unread, Flag};
use crate::address::short_form;
use crate::text::{decimal, push_all, push_decimal, push_str, string_from, string_views, to_chars};
use crate::thread::Email;
use crate::navigation::move_target_spec;
use crate::utils::{fit_string, fitted, spaces, truncate_string, truncated};
use vstd::prelude::*;

verus! {

// ─────────────────────────────────── tabs ───────────────────────────────────

/// The title of a tab in the tab bar: its subject or draft title cut to 20
/// characters, `Compose` for an untitled draft, with a space on each side.
pub open spec fn tab_title_spec(title: Seq<char>, compose: bool) -> Seq<char> {
    " "@ + (if compose && title.len() == 0 {
        "Compose"@
    } else {
        truncated(title, 20)
    }) + " "@
}

/// The tab-bar title of an email tab (`compose == false`, `title` its
/// subject) or of a compose tab (`title` the draft's subject).
pub fn tab_title(title: &str, compose: bool) -> (r: String)
    ensures
        r@ == tab_title_spec(title@, compose),
{
    let mut out: Vec<char> = Vec::new();
    push_str(&mut out, " ");
    if compose && title.is_empty() {
        push_str(&mut out, "Compose");
    } else {
        let t = truncate_string(title, 20);
        push_str(&mut out, t.as_str());
    }
    push_str(&mut out, " ");
    string_from(out.as_slice())
}

// ───────────────────────────────── sidebar ──────────────────────────────────

/// A mailbox in the sidebar: its label, followed by the number of unread
/// emails in brackets when there are any.
pub open spec fn sidebar_label_spec(label: Seq<char>, unread: nat) -> Seq<char> {
    if unread > 0 {
        label + " ("@ + decimal(unread) + ")"@
    } else {
        label
    }
}

/// The sidebar text of the mailbox `label` holding `unread` unread emails.
pub fn sidebar_label(label: &str, unread: usize) -> (r: String)
    ensures
        r@ == sidebar_label_spec(label@, unread as nat),
{
    let mut out = to_chars(label);
    if unread > 0 {
        push_str(&mut out, " (");
        push_decimal(&mut out, unread as u64);
        push_str(&mut out, ")");
    }
    string_from(out.as_slice())
}

// ──────────────────────────────── status bar ────────────────────────────────

/// What the status bar shows.
#[derive(Debug, Clone, Copy, PartialEq, Eq, Structural)]
pub enum StatusKind {
    /// The search prompt being typed.
    Prompt,
    /// The last error.
    Error,
    /// The key help of the main view, with the sort order and search.
    MainHelp,
    /// The key help of a tab.
    TabHelp,
}

/// The key help of the main view.
pub open spec fn main_help() -> Seq<char> {
    " j/k↑↓ move  J/K mailbox  r reply  R reply+quote  C compose  / search  Q quit"@
}

/// The key help of a tab.
pub open spec fn tab_help() -> Seq<char> {
    " j/k scroll  J/K email  r reply  R reply+quote  C compose  q close"@
}

/// The status bar as pieces of text: the prompt `/query_` while a search is
/// typed; else the last error; else, in the main view, the key help, then
/// `sort: asc` for an ascending mailbox and `search: QUERY` for a searched
/// one, each after a `  |  ` separator; else the key help of a tab.
pub open spec fn status_spec(
    prompt: Option<Seq<char>>,
    error: Option<Seq<char>>,
    main_view: bool,
    ascending: bool,
    query: Option<Seq<char>>,
) -> (StatusKind, Seq<Seq<char>>) {
    match prompt {
        Some(p) => (StatusKind::Prompt, seq![" /"@ + p + "_"@]),
        None => match error {
            Some(e) => (StatusKind::Error, seq![" error: "@ + e]),
            None => if main_view {
                let with_sort = if ascending {
                    seq![main_help(), "  |  "@, "sort: asc"@]
                } else {
                    seq![main_help()]
                };
                (StatusKind::MainHelp, match query {
                    Some(q) => with_sort + seq!["  |  "@, "search: "@ + q],
                    None => with_sort,
                })
            } else {
                (StatusKind::TabHelp, seq![tab_help()])
            },
        },
    }
}

/// The view of an optional `&str`.
pub open spec fn opt_text(o: Option<&str>) -> Option<Seq<char>> {
    match o {
        Some(s) => Some(s@),
        None => None,
    }
}

/// The status bar (see [`status_spec`]): `prompt` is the query being
/// typed, `error` the last error, `ascending` the sort order and `query`
/// the search of the current mailbox.
pub fn status_bar(
    prompt: Option<&str>,
    error: Option<&str>,
    main_view: bool,
    ascending: bool,
    query: Option<&str>,
) -> (r: (StatusKind, Vec<String>))
    ensures
        (r.0, string_views(r.1@)) == status_spec(
            opt_text(prompt),
            opt_text(error),
            main_view,
            ascending,
            opt_text(query),
        ),
{
    let mut parts: Vec<String> = Vec::new();
    match prompt {
        Some(p) => {
            let mut out: Vec<char> = Vec::new();
            push_str(&mut out, " /");
            push_str(&mut out, p);
            push_str(&mut out, "_");
            parts.push(string_from(out.as_slice()));
            proof {
                assert(string_views(parts@) =~= seq![" /"@ + p@ + "_"@]);
            }
            return (StatusKind::Prompt, parts);
        },
        None => {},
    }
    match error {
        Some(e) => {
            let mut out: Vec<char> = Vec::new();
            push_str(&mut out, " error: ");
            push_str(&mut out, e);
            parts.push(string_from(out.as_slice()));
            proof {
                assert(string_views(parts@) =~= seq![" error: "@ + e@]);
            }
            return (StatusKind::Error, parts);
        },
        None => {},
    }
    if !main_view {
        parts.push(" j/k scroll  J/K email  r reply  R reply+quote  C compose  q close".to_string());
        proof {
            assert(string_views(parts@) =~= seq![tab_help()]);
        }
        return (StatusKind::TabHelp, parts);
    }
    parts.push(
        " j/k↑↓ move  J/K mailbox  r reply  R reply+quote  C compose  / search  Q quit".to_string(),
    );
    if ascending {
        parts.push("  |  ".to_string());
        parts.push("sort: asc".to_string());
    }
    let ghost with_sort = string_views(parts@);
    proof {
        if ascending {
            assert(with_sort =~= seq![main_help(), "  |  "@, "sort: asc"@]);
        } else {
            assert(with_sort =~= seq![main_help()]);
        }
    }
    match query {
        Some(q) => {
            parts.push("  |  ".to_string());
            let mut out: Vec<char> = Vec::new();
            push_str(&mut out, "search: ");
            push_str(&mut out, q);
            parts.push(string_from(out.as_slice()));
            proof {
                assert(string_views(parts@) =~= with_sort + seq!["  |  "@, "search: "@ + q@]);
            }
        },
        None => {},
    }
    (StatusKind::MainHelp, parts)
}

// ──────────────────────────────── move popup ────────────────────────────────

/// The entries of the move popup: every mailbox label but the current
/// one's, in order.
pub open spec fn other_labels(labels: Seq<Seq<char>>, current: nat) -> Seq<Seq<char>> {
    if current < labels.len() {
        labels.subrange(0, current as int) + labels.subrange(current as int + 1, labels.len() as int)
    } else {
        labels
    }
}

/// The entries of the move popup, the mailbox `current` being shown.
pub fn move_labels(labels: &[String], current: usize) -> (r: Vec<String>)
    ensures
        string_views(r@) == other_labels(string_views(labels@), current as nat),
{
    let n = labels.len();
    let mut out: Vec<String> = Vec::new();
    let mut i: usize = 0;
    while i < n
        invariant
            n == labels@.len(),
            i <= n,
            string_views(out@) == other_labels(
                string_views(labels@.subrange(0, i as int)),
                current as nat,
            ),
        decreases n - i,
    {
        let ghost before = string_views(labels@.subrange(0, i as int));
        let ghost after = string_views(labels@.subrange(0, i + 1));
        assert(after =~= before.push(labels@[i as int]@));
        let ghost prev = string_views(out@);
        if i != current {
            out.push(labels[i].clone());
            assert(string_views(out@) =~= prev.push(labels@[i as int]@));
        }
        proof {
            if current < i {
                assert(after.subrange(0, current as int) =~= before.subrange(0, current as int));
                assert(after.subrange(current + 1, after.len() as int) =~= before.subrange(
                    current + 1,
                    before.len() as int,
                ).push(labels@[i as int]@));
                assert(string_views(out@) =~= other_labels(after, current as nat));
            } else if current == i {
                assert(after.subrange(0, current as int) =~= before);
                assert(after.subrange(current + 1, after.len() as int) =~= Seq::<Seq<char>>::empty());
                assert(string_views(out@) =~= other_labels(after, current as nat));
            } else {
                assert(string_views(out@) =~= other_labels(after, current as nat));
            }
        }
        i += 1;
    }
    assert(labels@.subrange(0, n as int) =~= labels@);
    out
}

/// The `i`-th entry of the move popup names the mailbox that choosing it
/// moves the email to.
pub proof fn lemma_move_entry_is_target(labels: Seq<Seq<char>>, current: nat, i: nat)
    requires
        current < labels.len(),
        i < other_labels(labels, current).len(),
    ensures
        move_target_spec(current, i, labels.len()) matches Some(j) && other_labels(labels, current)[i as int]
            == labels[j as int],
{
    let o = other_labels(labels, current);
    if i < current {
        assert(o[i as int] == labels[i as int]);
    } else {
        assert(o[i as int] == labels.subrange(current as int + 1, labels.len() as int)[i - current]);
    }
}

// ──────────────────────────────── thread list ───────────────────────────────

/// The columns of a row of the thread list.
pub struct ThreadLine {
    /// The sender, fitted to 27 characters.
    pub from: String,
    /// The indentation that shows the reply depth.
    pub indent: String,
    /// The subject, fitted to the room left on the row.
    pub subject: String,
    /// `★`: the email is flagged.
    pub flagged: bool,
    /// `↩`: it was replied to.
    pub replied: bool,
    /// `→`: it was forwarded.
    pub passed: bool,
    /// The date label, padded to 16 characters.
    pub date: String,
    /// Whether it is unread (shown in bold).
    pub unread: bool,
}

/// The indentation of a reply at `depth`: two spaces per level below the
/// first, then `└ `.
pub open spec fn indent_of(depth: nat) -> Seq<char> {
    if depth == 0 {
        seq![]
    } else {
        spaces((2 * (depth - 1)) as nat) + "└ "@
    }
}

/// `s` padded with spaces to at least `w` characters.
pub open spec fn padded(s: Seq<char>, w: nat) -> Seq<char> {
    if s.len() >= w {
        s
    } else {
        s + spaces((w - s.len()) as nat)
    }
}

/// `a - b`, or 0 when `b` is larger.
pub open spec fn sat_sub(a: int, b: int) -> nat {
    if a >= b {
        (a - b) as nat
    } else {
        0
    }
}

/// The room for the subject on a row `width` columns wide: what is left
/// after the two border columns, the 27-column sender, the 16-column date,
/// 4 columns of flags, 2 separators and the indentation.
pub open spec fn subject_room(width: nat, depth: nat) -> nat {
    sat_sub(sat_sub(sat_sub(width as int, 2) as int, 49) as int, indent_of(depth).len() as int)
}

/// `s` padded with spaces to at least `w` characters.
pub fn pad_to(s: &str, w: usize) -> (r: String)
    ensures
        r@ == padded(s@, w as nat),
{
    let mut out = to_chars(s);
    let n = out.len();
    if n >= w {
        return string_from(out.as_slice());
    }
    let mut k: usize = n;
    while k < w
        invariant
            n <= k <= w,
            n == s@.len(),
            out@ == s@ + spaces((k - n) as nat),
        decreases w - k,
    {
        out.push(' ');
        assert(out@ =~= s@ + spaces((k + 1 - n) as nat));
        k += 1;
    }
    string_from(out.as_slice())
}

/// The columns of the row of `email`, shown at reply depth `depth` on a
/// row `width` columns wide, its date labelled at the time `now`.
pub fn thread_line(email: &Email, depth: usize, width: u16, now: i64) -> (r: ThreadLine)
    requires
        in_calendar(now as int),
    ensures
        r.from@ == fitted(short_form(email@.from), 27),
        r.indent@ == indent_of(depth as nat),
        r.subject@ == fitted(shown_subject(email@.subject), subject_room(width as nat, depth as nat)),
        r.flagged == path_has_flag(email@.path, flag_char(Flag::Flagged)),
        r.replied == path_has_flag(email@.path, flag_char(Flag::Replied)),
        r.passed == path_has_flag(email@.path, flag_char(Flag::Passed)),
        r.date@ == padded(date_label(email@.timestamp, now), 16),
        r.unread == path_is_unread(email@.path),
{
    let from = fit_string(email.from.short(), 27);
    let mut ind: Vec<char> = Vec::new();
    if depth > 0 {
        let mut k: usize = 0;
        while k < depth - 1
            invariant
                depth > 0,
                k <= depth - 1,
                ind@ == spaces((2 * k) as nat),
            decreases depth - 1 - k,
        {
            ind.push(' ');
            ind.push(' ');
            assert(ind@ =~= spaces((2 * (k + 1)) as nat));
            k += 1;
        }
        push_str(&mut ind, "└ ");
    } else {
        assert(ind@ =~= indent_of(0));
    }
    let usable = (width as usize).saturating_sub(2);
    let subject_w = usable.saturating_sub(49);
    let avail = subject_w.saturating_sub(ind.len());
    let subject = if email.subject.as_str().is_empty() {
        fit_string("(no subject)", avail)
    } else {
        fit_string(email.subject.as_str(), avail)
    };
    let label = humanize_date_at(email.timestamp, now);
    let date = pad_to(label.as_str(), 16);
    ThreadLine {
        from,
        indent: string_from(ind.as_slice()),
        subject,
        flagged: email.has_mark(Flag::Flagged),
        replied: email.has_mark(Flag::Replied),
        passed: email.has_mark(Flag::Passed),
        date,
        unread: email.is_unread(),
    }
}

} // verus!

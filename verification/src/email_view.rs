//! The content of an opened email: headers, body lines with their diff
//! highlighting kind, and the scroll position.
use crate::address::{address_views, full_form, Address, AddressView};
use crate::compose::{
    collect_addrs, join_full, parse_message, parsed_message, part_addresses, push_joined_full,
    MessagePartsView,
};
use crate::date::in_calendar;
use crate::text::{
    has_prefix, lines, push_str, split_lines, starts_with, string_from, to_chars, views,
};
use crate::thread::{Email, EmailInfo};
use vstd::prelude::*;
use vstd::string::*;

verus! {

// ─────────────────────────────── body lines ─────────────────────────────────

/// How a body line is highlighted: diff headers, hunk headers, removed and
/// added lines, quoted lines, and the rest.
#[derive(Debug, Clone, Copy, PartialEq, Eq, Structural)]
pub enum LineKind {
    /// `---…`: shown red and bold.
    OldFile,
    /// `+++…`: shown green and bold.
    NewFile,
    /// `@@…`: shown cyan.
    Hunk,
    /// `-…`: shown red.
    Removed,
    /// `+…`: shown green.
    Added,
    /// `>…`: shown blue.
    Quoted,
    /// Anything else.
    Plain,
}

/// The highlighting kind of the line `l`.
pub open spec fn kind_of(l: Seq<char>) -> LineKind {
    if starts_with(l, "---"@) {
        LineKind::OldFile
    } else if starts_with(l, "+++"@) {
        LineKind::NewFile
    } else if starts_with(l, "@@"@) {
        LineKind::Hunk
    } else if l.len() > 0 && l[0] == '-' {
        LineKind::Removed
    } else if l.len() > 0 && l[0] == '+' {
        LineKind::Added
    } else if l.len() > 0 && l[0] == '>' {
        LineKind::Quoted
    } else {
        LineKind::Plain
    }
}

/// The highlighting kind of a body line.
pub fn line_kind(l: &[char]) -> (r: LineKind)
    ensures
        r == kind_of(l@),
{
    let a = to_chars("---");
    let b = to_chars("+++");
    let c = to_chars("@@");
    if has_prefix(l, a.as_slice()) {
        LineKind::OldFile
    } else if has_prefix(l, b.as_slice()) {
        LineKind::NewFile
    } else if has_prefix(l, c.as_slice()) {
        LineKind::Hunk
    } else if l.len() > 0 && l[0] == '-' {
        LineKind::Removed
    } else if l.len() > 0 && l[0] == '+' {
        LineKind::Added
    } else if l.len() > 0 && l[0] == '>' {
        LineKind::Quoted
    } else {
        LineKind::Plain
    }
}

/// `s` with each tab expanded to the next multiple-of-8 column, the first
/// character being in column `col`.
pub open spec fn expand_from(s: Seq<char>, col: nat) -> Seq<char>
    decreases s.len(),
{
    if s.len() == 0 {
        seq![]
    } else if s[0] == '\t' {
        let w = (8 - col % 8) as nat;
        Seq::new(w, |i: int| ' ') + expand_from(s.subrange(1, s.len() as int), col + w)
    } else {
        seq![s[0]] + expand_from(s.subrange(1, s.len() as int), col + 1)
    }
}

/// Expand tab characters to 8-space tab stops.
pub fn expand_tabs(s: &[char]) -> (r: Vec<char>)
    requires
        s@.len() * 8 <= usize::MAX,
    ensures
        r@ == expand_from(s@, 0),
{
    let n = s.len();
    let mut out: Vec<char> = Vec::new();
    let mut col: usize = 0;
    let mut i: usize = 0;
    proof {
        assert(s@.subrange(0, n as int) =~= s@);
    }
    while i < n
        invariant
            n == s@.len(),
            n * 8 <= usize::MAX,
            i <= n,
            col <= i * 8,
            out@ + expand_from(s@.subrange(i as int, n as int), col as nat) == expand_from(s@, 0),
        decreases n - i,
    {
        let ghost before = out@;
        let ghost rest = s@.subrange(i as int, n as int);
        proof {
            assert(rest[0] == s@[i as int]);
            assert(rest.subrange(1, rest.len() as int) =~= s@.subrange(i + 1, n as int));
        }
        if s[i] == '\t' {
            let spaces = 8 - (col % 8);
            let mut k: usize = 0;
            while k < spaces
                invariant
                    k <= spaces,
                    out@ == before + Seq::new(k as nat, |j: int| ' '),
                decreases spaces - k,
            {
                out.push(' ');
                assert(out@ =~= before + Seq::new((k + 1) as nat, |j: int| ' '));
                k += 1;
            }
            proof {
                assert(out@ + expand_from(s@.subrange(i + 1, n as int), (col + spaces) as nat)
                    =~= before + expand_from(rest, col as nat));
            }
            col += spaces;
        } else {
            out.push(s[i]);
            proof {
                assert(out@ + expand_from(s@.subrange(i + 1, n as int), (col + 1) as nat)
                    =~= before + expand_from(rest, col as nat));
            }
            col += 1;
        }
        i += 1;
    }
    proof {
        assert(s@.subrange(n as int, n as int) =~= Seq::<char>::empty());
        assert(out@ + Seq::<char>::empty() =~= out@);
    }
    out
}

/// A body line ready to be shown: its text (tabs expanded) and how it is
/// highlighted.
pub struct StyledLine {
    pub text: String,
    pub kind: LineKind,
}

/// The text shown as the body of a message whose first text part is
/// `raw`: a placeholder when it is empty.
pub open spec fn display_body(raw: Seq<char>) -> Seq<char> {
    if raw.len() == 0 {
        "— no text body —"@
    } else {
        raw
    }
}

/// The content of styled lines: text and kind.
pub open spec fn styled_views(v: Seq<StyledLine>) -> Seq<(Seq<char>, LineKind)> {
    Seq::new(v.len(), |i: int| (v[i].text@, v[i].kind))
}

/// Whether `v` holds the lines of `body`, tabs expanded, each with its kind.
pub open spec fn styled_lines_of(v: Seq<(Seq<char>, LineKind)>, body: Seq<char>) -> bool {
    let ls = lines(body);
    &&& v.len() == ls.len()
    &&& forall|i: int|
        0 <= i < v.len() ==> (#[trigger] v[i]).0 == expand_from(ls[i], 0) && v[i].1 == kind_of(
            expand_from(ls[i], 0),
        )
}

proof fn lemma_line_bound(s: Seq<char>, ls: Seq<Seq<char>>, i: int)
    requires
        ls == lines(s),
        0 <= i < ls.len(),
    ensures
        ls[i].len() <= s.len(),
{
    crate::text::lemma_lines_shorter(s, i);
}

/// Convert the body into lines with diff syntax highlighting kinds (tabs
/// are expanded to 8-wide stops first).
pub fn highlight_body(body: &str) -> (r: Vec<StyledLine>)
    requires
        body@.len() * 8 <= usize::MAX,
    ensures
        styled_lines_of(styled_views(r@), body@),
{
    let cs = to_chars(body);
    let ls = split_lines(cs.as_slice());
    let ghost lv = views(ls@);
    let n = ls.len();
    let mut out: Vec<StyledLine> = Vec::new();
    let mut i: usize = 0;
    while i < n
        invariant
            n == ls@.len(),
            lv == views(ls@),
            lv == lines(body@),
            body@.len() * 8 <= usize::MAX,
            i <= n,
            out@.len() == i,
            forall|j: int|
                0 <= j < i ==> (#[trigger] out@[j]).text@ == expand_from(lv[j], 0)
                    && out@[j].kind == kind_of(expand_from(lv[j], 0)),
        decreases n - i,
    {
        proof {
            lemma_line_bound(body@, lv, i as int);
            assert(lv[i as int] == ls@[i as int]@);
        }
        let e = expand_tabs(ls[i].as_slice());
        let k = line_kind(e.as_slice());
        out.push(StyledLine { text: string_from(e.as_slice()), kind: k });
        i += 1;
    }
    assert(styled_lines_of(styled_views(out@), body@));
    out
}

// ─────────────────────────────── header values ──────────────────────────────

/// An address list as the message view shows it: `—` when empty, the
/// header forms joined with `, ` otherwise.
pub open spec fn addr_list_text(a: Seq<AddressView>) -> Seq<char> {
    if a.len() == 0 {
        "—"@
    } else {
        join_full(a)
    }
}

/// Format a list of addresses into a comma-separated display string.
pub fn format_addr_list(addrs: &[Address]) -> (r: String)
    ensures
        r@ == addr_list_text(address_views(addrs@)),
{
    if addrs.len() == 0 {
        return "—".to_string();
    }
    let mut out: Vec<char> = Vec::new();
    push_joined_full(&mut out, addrs);
    string_from(out.as_slice())
}

/// The pieces a header value is wrapped into: `width` characters per line,
/// always at least one (possibly empty) line; with no room (`width` 0) the
/// one line is empty and only the label shows.
pub open spec fn wrapped(value: Seq<char>, width: nat) -> Seq<Seq<char>>
    decreases value.len(),
{
    if width == 0 {
        seq![Seq::<char>::empty()]
    } else if value.len() <= width {
        seq![value]
    } else {
        seq![value.subrange(0, width as int)] + wrapped(
            value.subrange(width as int, value.len() as int),
            width,
        )
    }
}

/// Wrap a header value into lines of `width` characters; the first line is
/// shown after the field's label and the others indented under it.
pub fn wrap_value(value: &str, width: usize) -> (r: Vec<String>)
    ensures
        crate::text::string_views(r@) == wrapped(value@, width as nat),
{
    if width == 0 {
        let mut out: Vec<String> = Vec::new();
        out.push(String::new());
        assert(crate::text::string_views(out@) =~= seq![Seq::<char>::empty()]);
        return out;
    }
    let cs = to_chars(value);
    let n = cs.len();
    let mut out: Vec<String> = Vec::new();
    let mut start: usize = 0;
    proof {
        assert(cs@.subrange(0, n as int) =~= cs@);
        assert(crate::text::string_views(out@) + wrapped(cs@.subrange(0, n as int), width as nat)
            =~= wrapped(value@, width as nat));
    }
    while n - start > width
        invariant
            n == cs@.len(),
            cs@ == value@,
            width > 0,
            start <= n,
            crate::text::string_views(out@) + wrapped(cs@.subrange(start as int, n as int), width as nat)
                == wrapped(value@, width as nat),
        decreases n - start,
    {
        let ghost before = crate::text::string_views(out@);
        let ghost rest = cs@.subrange(start as int, n as int);
        let piece = crate::text::copy_range(cs.as_slice(), start, start + width);
        out.push(string_from(piece.as_slice()));
        proof {
            assert(rest.subrange(0, width as int) =~= piece@);
            assert(rest.subrange(width as int, rest.len() as int) =~= cs@.subrange(
                start + width,
                n as int,
            ));
            assert(crate::text::string_views(out@) =~= before.push(piece@));
            assert(crate::text::string_views(out@) + wrapped(
                cs@.subrange(start + width, n as int),
                width as nat,
            ) =~= before + wrapped(rest, width as nat));
        }
        start = start + width;
    }
    let last = crate::text::copy_range(cs.as_slice(), start, n);
    let ghost before = crate::text::string_views(out@);
    out.push(string_from(last.as_slice()));
    proof {
        assert(crate::text::string_views(out@) =~= before.push(last@));
        assert(before + wrapped(cs@.subrange(start as int, n as int), width as nat) =~= before
            + seq![last@]);
    }
    out
}

/// The date of a message as `[year]-[month]-[day] [hour]:[minute]` in UTC,
/// as the `time` crate formats it; `None` when it cannot.  A function of the
/// timestamp alone.
pub uninterp spec fn formatted_date(ts: i64) -> Option<Seq<char>>;

/// Formats a Unix timestamp for the message view.
///
/// Trusted wrapper around `time::format_description::parse`,
/// `time::OffsetDateTime::from_unix_timestamp` and
/// `time::OffsetDateTime::format` with the description
/// `[year]-[month]-[day] [hour]:[minute]`.  The result is named
/// `formatted_date(ts)`; the crate's source shows that a timestamp outside
/// its calendar gives no date.
#[verifier::external_body]
pub(crate) fn format_timestamp(ts: i64) -> (r: Option<String>)
    ensures
        match r {
            Some(s) => formatted_date(ts) == Some(s@) && in_calendar(ts as int),
            None => formatted_date(ts) is None,
        },
{
    let items = time::format_description::parse("[year]-[month]-[day] [hour]:[minute]").ok()?;
    let dt = time::OffsetDateTime::from_unix_timestamp(ts).ok()?;
    dt.format(&items).ok()
}

/// The date shown for an email with timestamp `ts`.
pub open spec fn date_text(ts: Option<i64>) -> Seq<char> {
    match ts {
        Some(t) => match formatted_date(t) {
            Some(s) => s,
            None => "—"@,
        },
        None => "—"@,
    }
}

/// The date of an email as the message view shows it; `—` when there is
/// none.
pub fn format_date(ts: Option<i64>) -> (r: String)
    ensures
        r@ == date_text(ts),
{
    match ts {
        Some(t) => match format_timestamp(t) {
            Some(s) => s,
            None => "—".to_string(),
        },
        None => "—".to_string(),
    }
}

// ─────────────────────────────── the view ───────────────────────────────────

/// Why an email cannot be opened.
#[derive(Debug, Clone, Copy, PartialEq, Eq, Structural)]
pub enum ViewError {
    /// The message file could not be parsed.
    Unparseable,
    /// The message has no `Message-ID`.
    NoMessageId,
    /// The message's `Message-ID` is empty.
    EmptyMessageId,
}

/// The subject shown for a message: `(no subject)` when it is empty.
pub open spec fn shown_subject(s: Seq<char>) -> Seq<char> {
    if s.len() == 0 {
        "(no subject)"@
    } else {
        s
    }
}

/// Whether opening the email `e`, whose file parses as `m`, succeeds.
pub open spec fn view_error(m: Option<MessagePartsView>) -> Option<ViewError> {
    match m {
        None => Some(ViewError::Unparseable),
        Some(p) => match p.message_id {
            None => Some(ViewError::NoMessageId),
            Some(id) => if id.len() == 0 {
                Some(ViewError::EmptyMessageId)
            } else {
                None
            },
        },
    }
}

/// The content of an [`EmailView`].
pub struct OpenedEmail {
    pub path: Seq<char>,
    pub message_id: Seq<char>,
    pub subject: Seq<char>,
    pub from: Seq<AddressView>,
    pub to: Seq<AddressView>,
    pub cc: Seq<AddressView>,
    pub date: Seq<char>,
    pub lines: Seq<(Seq<char>, LineKind)>,
    pub scroll: u16,
    pub raw_body: Seq<char>,
}

/// An opened email.
pub struct EmailView {
    path: String,
    message_id: String,
    subject: String,
    from: Vec<Address>,
    to: Vec<Address>,
    cc: Vec<Address>,
    date: String,
    body_lines: Vec<StyledLine>,
    scroll: u16,
    raw_body: String,
}

impl View for EmailView {
    type V = OpenedEmail;

    closed spec fn view(&self) -> OpenedEmail {
        OpenedEmail {
            path: self.path@,
            message_id: self.message_id@,
            subject: self.subject@,
            from: address_views(self.from@),
            to: address_views(self.to@),
            cc: address_views(self.cc@),
            date: self.date@,
            lines: styled_views(self.body_lines@),
            scroll: self.scroll,
            raw_body: self.raw_body@,
        }
    }
}

impl EmailView {
    /// Open the email `email` whose file holds `raw`.
    pub fn new(email: &Email, raw: &[u8]) -> (r: Result<Self, ViewError>)
        ensures
            match view_error(parsed_message(raw@)) {
                Some(x) => r == Err::<Self, ViewError>(x),
                None => r is Ok && {
                    let v = r->Ok_0@;
                    let m = parsed_message(raw@)->0;
                    &&& v.path == email@.path
                    &&& Some(v.message_id) == m.message_id
                    &&& v.subject == shown_subject(email@.subject)
                    &&& v.from == part_addresses(m.from)
                    &&& v.to == part_addresses(m.to)
                    &&& v.cc == part_addresses(m.cc)
                    &&& v.date == date_text(email@.timestamp)
                    &&& v.raw_body == crate::compose::body_of(m)
                    &&& (display_body(v.raw_body).len() * 8 <= usize::MAX ==> styled_lines_of(
                        v.lines,
                        display_body(v.raw_body),
                    ))
                    &&& v.scroll == 0
                },
            },
    {
        let m = match parse_message(raw) {
            Some(m) => m,
            None => return Err(ViewError::Unparseable),
        };
        let message_id = match &m.message_id {
            Some(id) => {
                if id.as_str().is_empty() {
                    return Err(ViewError::EmptyMessageId);
                }
                id.clone()
            },
            None => return Err(ViewError::NoMessageId),
        };
        let from = collect_addrs(&m.from);
        let to = collect_addrs(&m.to);
        let cc = collect_addrs(&m.cc);
        let date = format_date(email.timestamp);
        let raw_body = match &m.body {
            Some(b) => b.clone(),
            None => String::new(),
        };
        let display = if raw_body.as_str().is_empty() {
            "— no text body —".to_string()
        } else {
            raw_body.clone()
        };
        let body_lines = if display.as_str().unicode_len() <= usize::MAX / 8 {
            highlight_body(display.as_str())
        } else {
            Vec::new()
        };
        let subject = if email.subject.as_str().is_empty() {
            "(no subject)".to_string()
        } else {
            email.subject.clone()
        };
        proof {
            reveal_strlit("— no text body —");
        }
        Ok(
            EmailView {
                path: email.path.clone(),
                message_id,
                subject,
                from,
                to,
                cc,
                date,
                body_lines,
                scroll: 0,
                raw_body,
            },
        )
    }

    /// The subject shown as the title.
    pub fn subject(&self) -> (r: &str)
        ensures
            r@ == self@.subject,
    {
        self.subject.as_str()
    }

    /// The senders.
    pub fn from(&self) -> (r: &Vec<Address>)
        ensures
            address_views(r@) == self@.from,
    {
        &self.from
    }

    /// The recipients.
    pub fn to(&self) -> (r: &Vec<Address>)
        ensures
            address_views(r@) == self@.to,
    {
        &self.to
    }

    /// The copy recipients.
    pub fn cc(&self) -> (r: &Vec<Address>)
        ensures
            address_views(r@) == self@.cc,
    {
        &self.cc
    }

    /// The formatted date.
    pub fn date(&self) -> (r: &str)
        ensures
            r@ == self@.date,
    {
        self.date.as_str()
    }

    /// The body lines with their highlighting.
    pub fn body_lines(&self) -> (r: &Vec<StyledLine>)
        ensures
            styled_views(r@) == self@.lines,
    {
        &self.body_lines
    }

    /// The first body line shown.
    pub fn scroll(&self) -> (r: u16)
        ensures
            r == self@.scroll,
    {
        self.scroll
    }

    /// Scroll up by `steps` lines, stopping at the first line.
    pub fn scroll_up(&mut self, steps: u16)
        ensures
            final(self)@ == (OpenedEmail {
                scroll: if old(self)@.scroll >= steps {
                    (old(self)@.scroll - steps) as u16
                } else {
                    0
                },
                ..old(self)@
            }),
    {
        self.scroll = self.scroll.saturating_sub(steps);
    }

    /// Scroll down by `steps` lines, stopping at the last line.
    pub fn scroll_down(&mut self, steps: u16)
        ensures
            final(self)@ == (OpenedEmail {
                scroll: min_int(
                    min_int(old(self)@.scroll + steps, u16::MAX as int),
                    last_index(old(self)@.lines.len()),
                ) as u16,
                ..old(self)@
            }),
    {
        let max = last_index_u16(self.body_lines.len());
        let s = self.scroll.saturating_add(steps);
        self.scroll = if s < max {
            s
        } else {
            max
        };
    }

    /// Go back to the first line.
    pub fn first_line(&mut self)
        ensures
            final(self)@ == (OpenedEmail { scroll: 0, ..old(self)@ }),
    {
        self.scroll = 0;
    }

    /// Move towards the last line: the scroll position grows by the index
    /// of the last line (and is clamped to the viewport when drawn).
    pub fn last_line(&mut self)
        ensures
            final(self)@ == (OpenedEmail {
                scroll: min_int(
                    old(self)@.scroll + last_index(old(self)@.lines.len()),
                    u16::MAX as int,
                ) as u16,
                ..old(self)@
            }),
    {
        let max = last_index_u16(self.body_lines.len());
        self.scroll = self.scroll.saturating_add(max);
    }

    /// Clamp the scroll position so that the last line stays at the bottom
    /// of a viewport of `height` lines.
    pub fn clamp_scroll(&mut self, height: usize)
        ensures
            final(self)@ == (OpenedEmail {
                scroll: min_int(
                    old(self)@.scroll as int,
                    truncated_u16(
                        if old(self)@.lines.len() >= height {
                            old(self)@.lines.len() - height
                        } else {
                            0
                        },
                    ),
                ) as u16,
                ..old(self)@
            }),
    {
        let n = self.body_lines.len();
        let d = if n >= height {
            n - height
        } else {
            0
        };
        let max = (d % 65536) as u16;
        if max < self.scroll {
            self.scroll = max;
        }
    }

    /// Path of the file.
    pub fn path(&self) -> (r: &str)
        ensures
            r@ == self@.path,
    {
        self.path.as_str()
    }

    /// The message id.
    pub fn message_id(&self) -> (r: &str)
        ensures
            r@ == self@.message_id,
    {
        self.message_id.as_str()
    }

    /// The text of the body (empty when the message has none).
    pub fn raw_body(&self) -> (r: &str)
        ensures
            r@ == self@.raw_body,
    {
        self.raw_body.as_str()
    }
}

/// The smaller of two integers.
pub open spec fn min_int(a: int, b: int) -> int {
    if a <= b {
        a
    } else {
        b
    }
}

/// The value of `x` as a `u16` truncates it (std's `as u16`).
pub open spec fn truncated_u16(x: int) -> int {
    x % 65536
}

/// The index of the last of `n` lines (0 when there is none), as a `u16`.
pub open spec fn last_index(n: nat) -> int {
    truncated_u16(
        if n >= 1 {
            n - 1
        } else {
            0
        },
    )
}

fn last_index_u16(n: usize) -> (r: u16)
    ensures
        r == last_index(n as nat),
{
    let d = if n >= 1 {
        n - 1
    } else {
        0
    };
    (d % 65536) as u16
}

} // verus!

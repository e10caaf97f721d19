//! The compose view: three header fields with a cursor, autocompletion of
//! addresses from the address book, focus cycling, and the decisions for
//! the body editor (which the caller runs).
//!
//! Field cursors count characters.
use crate::address::{
    full_form, is_trimmed, lemma_trim_trimmed, parse_list_spec, search_spec, AddressBook,
    AddressView,
};
use crate::compose::{
    after, apply_headers, drop_newlines, join_lines, lemma_sentinel_index, parse_draft, sentinel,
    sentinel_index,
};
use crate::text::{
    chars_eq, has_prefix, is_whitespace, is_ws, lemma_lines_concat, lemma_lines_one, lines,
    push_all, push_str, rfind, rfind_char, split_lines, starts_with, strip_cr, string_from,
    to_chars, trim, trim_chars, trim_end, trim_start, trim_start_chars, views,
};
use vstd::prelude::*;
use vstd::string::*;

verus! {

/// A key press, as the compose view distinguishes them.
#[derive(Debug, Clone, Copy, PartialEq, Eq, Structural)]
pub enum Key {
    Char(char),
    Backspace,
    Delete,
    Left,
    Right,
    Home,
    End,
    Tab,
    BackTab,
    Up,
    Down,
    PageUp,
    PageDown,
    Enter,
    Esc,
    /// Control-C.
    CtrlC,
    /// Any other key.
    Other,
}

/// Which part of the compose view is focused.
#[derive(Debug, Clone, Copy, PartialEq, Eq, Structural)]
pub enum Focus {
    To,
    Cc,
    Subject,
    Body,
}

/// What the caller does with the body editor after a key press.
#[derive(Debug, Clone, Copy, PartialEq, Eq, Structural)]
pub enum KeyOutcome {
    /// Nothing: the key was handled here.
    Handled,
    /// Switch the body editor to normal mode.
    NormalMode,
    /// Move the body cursor to the next paragraph.
    NextParagraph,
    /// Move the body cursor to the previous paragraph.
    PrevParagraph,
    /// Hand the key to the body editor.
    ToBody,
}

// ─────────────────────────────── header field ───────────────────────────────

/// The content of a [`HeaderField`].
pub struct FieldState {
    pub value: Seq<char>,
    pub cursor: int,
}

/// A simple single-line text input with cursor.
pub struct HeaderField {
    label: String,
    value: Vec<char>,
    cursor: usize,
}

impl View for HeaderField {
    type V = FieldState;

    closed spec fn view(&self) -> FieldState {
        FieldState { value: self.value@, cursor: self.cursor as int }
    }
}

/// The field after the key `k`.
pub open spec fn field_key(f: FieldState, k: Key) -> FieldState {
    match k {
        Key::Char(c) => FieldState { value: f.value.insert(f.cursor, c), cursor: f.cursor + 1 },
        Key::Backspace => if f.cursor > 0 {
            FieldState { value: f.value.remove(f.cursor - 1), cursor: f.cursor - 1 }
        } else {
            f
        },
        Key::Delete => if f.cursor < f.value.len() {
            FieldState { value: f.value.remove(f.cursor), cursor: f.cursor }
        } else {
            f
        },
        Key::Left => if f.cursor > 0 {
            FieldState { cursor: f.cursor - 1, ..f }
        } else {
            f
        },
        Key::Right => if f.cursor < f.value.len() {
            FieldState { cursor: f.cursor + 1, ..f }
        } else {
            f
        },
        Key::Home => FieldState { cursor: 0, ..f },
        Key::End => FieldState { cursor: f.value.len() as int, ..f },
        _ => f,
    }
}

/// The query fragment for autocomplete: the text after the last comma,
/// without leading whitespace, or the whole trimmed value without a comma.
pub open spec fn fragment(v: Seq<char>) -> Seq<char> {
    match rfind_char(v, ',') {
        Some(i) => trim_start(v.subrange(i + 1, v.len() as int)),
        None => trim(v),
    }
}

/// The value after accepting the suggestion `addr`: it replaces the
/// fragment being typed and is followed by `, `.
pub open spec fn accepted(v: Seq<char>, addr: Seq<char>) -> Seq<char> {
    match rfind_char(v, ',') {
        Some(i) => v.subrange(0, i + 1) + " "@ + addr + ", "@,
        None => addr + ", "@,
    }
}

/// Typing a character and then pressing Backspace gives back the field as
/// it was, cursor included.
pub proof fn lemma_type_then_erase(f: FieldState, c: char)
    requires
        0 <= f.cursor <= f.value.len(),
    ensures
        field_key(field_key(f, Key::Char(c)), Key::Backspace) == f,
{
    assert(f.value.insert(f.cursor, c).remove(f.cursor) =~= f.value);
}

/// Moving the cursor one place left and then one place right gives back the
/// field, when the cursor was not at the start.
pub proof fn lemma_left_then_right(f: FieldState)
    requires
        0 < f.cursor <= f.value.len(),
    ensures
        field_key(field_key(f, Key::Left), Key::Right) == f,
{
}

impl HeaderField {
    /// The well-formedness of a field: the cursor is within the value.
    pub closed spec fn wf(&self) -> bool {
        self.cursor <= self.value@.len()
    }

    /// A field labelled `label` holding `value`, with the cursor at its end.
    pub fn new(label: &str, value: &str) -> (r: Self)
        ensures
            r.wf(),
            r@ == (FieldState { value: value@, cursor: value@.len() as int }),
            r.label_view() == label@,
    {
        let v = to_chars(value);
        let n = v.len();
        HeaderField { label: label.to_owned(), value: v, cursor: n }
    }

    /// The label.
    pub closed spec fn label_view(&self) -> Seq<char> {
        self.label@
    }

    /// The label shown before the field.
    pub fn label(&self) -> (r: &str)
        ensures
            r@ == self.label_view(),
    {
        self.label.as_str()
    }

    /// The text of the field.
    pub fn value(&self) -> (r: String)
        ensures
            r@ == self@.value,
    {
        string_from(self.value.as_slice())
    }

    /// The cursor position, in characters.
    pub fn cursor(&self) -> (r: usize)
        ensures
            r == self@.cursor,
    {
        self.cursor
    }

    /// The field split at its cursor: the text before it, the character
    /// under it (a space at the end) and the text after that character.
    pub fn cursor_parts(&self) -> (r: (String, char, String))
        requires
            self.wf(),
        ensures
            r.0@ == self@.value.subrange(0, self@.cursor),
            r.1 == if self@.cursor < self@.value.len() {
                self@.value[self@.cursor]
            } else {
                ' '
            },
            r.2@ == if self@.cursor < self@.value.len() {
                self@.value.subrange(self@.cursor + 1, self@.value.len() as int)
            } else {
                Seq::empty()
            },
    {
        let n = self.value.len();
        let before = crate::text::copy_range(self.value.as_slice(), 0, self.cursor);
        if self.cursor < n {
            let after = crate::text::copy_range(self.value.as_slice(), self.cursor + 1, n);
            (string_from(before.as_slice()), self.value[self.cursor], string_from(after.as_slice()))
        } else {
            (string_from(before.as_slice()), ' ', String::new())
        }
    }

    /// Edit the field with the key `key`.
    pub fn on_key(&mut self, key: Key)
        requires
            old(self).wf(),
            old(self)@.value.len() < usize::MAX,
        ensures
            final(self).wf(),
            final(self)@ == field_key(old(self)@, key),
            final(self).label_view() == old(self).label_view(),
    {
        match key {
            Key::Char(c) => {
                self.value.insert(self.cursor, c);
                self.cursor = self.cursor + 1;
            },
            Key::Backspace => {
                if self.cursor > 0 {
                    self.value.remove(self.cursor - 1);
                    self.cursor = self.cursor - 1;
                }
            },
            Key::Delete => {
                if self.cursor < self.value.len() {
                    self.value.remove(self.cursor);
                }
            },
            Key::Left => {
                if self.cursor > 0 {
                    self.cursor = self.cursor - 1;
                }
            },
            Key::Right => {
                if self.cursor < self.value.len() {
                    self.cursor = self.cursor + 1;
                }
            },
            Key::Home => {
                self.cursor = 0;
            },
            Key::End => {
                self.cursor = self.value.len();
            },
            _ => {},
        }
    }

    /// The query fragment for autocomplete: text after the last comma.
    pub fn current_fragment(&self) -> (r: Vec<char>)
        ensures
            r@ == fragment(self@.value),
    {
        match rfind(self.value.as_slice(), ',') {
            Some(i) => {
                let rest = crate::text::copy_range(self.value.as_slice(), i + 1, self.value.len());
                trim_start_chars(rest.as_slice())
            },
            None => trim_chars(self.value.as_slice()),
        }
    }

    /// Replace the fragment being typed with `addr` and append `, ` for the
    /// next entry; the cursor goes to the end.
    pub fn accept_suggestion(&mut self, addr: &str)
        ensures
            final(self).wf(),
            final(self)@ == (FieldState {
                value: accepted(old(self)@.value, addr@),
                cursor: accepted(old(self)@.value, addr@).len() as int,
            }),
            final(self).label_view() == old(self).label_view(),
    {
        let mut v = match rfind(self.value.as_slice(), ',') {
            Some(i) => {
                let mut head = crate::text::copy_range(self.value.as_slice(), 0, i + 1);
                push_str(&mut head, " ");
                head
            },
            None => Vec::new(),
        };
        push_str(&mut v, addr);
        push_str(&mut v, ", ");
        assert(v@ =~= accepted(self@.value, addr@));
        self.cursor = v.len();
        self.value = v;
    }
}

// ─────────────────────────────── compose view ───────────────────────────────

/// The value of the header `prefix` in the draft lines `ls`: the trimmed
/// rest of the last header line starting with it (empty when none does).
pub open spec fn header_value(ls: Seq<Seq<char>>, prefix: Seq<char>) -> Option<Seq<char>>
    decreases ls.len(),
{
    if ls.len() == 0 {
        None
    } else {
        let l = ls.last();
        if starts_with(l, prefix) && line_header(l) == prefix {
            Some(trim(after(l, prefix)))
        } else {
            header_value(ls.drop_last(), prefix)
        }
    }
}

/// Which header a draft line is, tried in the order `To:`, `Cc:`,
/// `Subject:`, `In-Reply-To:` (empty when none).
pub open spec fn line_header(l: Seq<char>) -> Seq<char> {
    if starts_with(l, "To:"@) {
        "To:"@
    } else if starts_with(l, "Cc:"@) {
        "Cc:"@
    } else if starts_with(l, "Subject:"@) {
        "Subject:"@
    } else if starts_with(l, "In-Reply-To:"@) {
        "In-Reply-To:"@
    } else {
        seq![]
    }
}

/// The header lines of the draft `s`.
pub open spec fn header_lines(s: Seq<char>) -> Seq<Seq<char>> {
    lines(s).subrange(0, sentinel_index(lines(s)))
}

/// The body of the draft `s` as the compose view edits it: the lines after
/// the separator joined with `\n` (empty without a separator).
pub open spec fn editor_body(s: Seq<char>) -> Seq<char> {
    let ls = lines(s);
    let i = sentinel_index(ls);
    if i < ls.len() {
        join_lines(ls.subrange(i + 1, ls.len() as int))
    } else {
        seq![]
    }
}

/// The value of an optional header (empty when absent).
pub open spec fn or_empty(o: Option<Seq<char>>) -> Seq<char> {
    match o {
        Some(v) => v,
        None => seq![],
    }
}

/// The content of an [`Editor`].
pub struct ComposeState {
    pub to: FieldState,
    pub cc: FieldState,
    pub subject: FieldState,
    pub in_reply_to: Option<Seq<char>>,
    pub focus: Focus,
    pub suggestions: Seq<Seq<char>>,
    pub ac_selected: int,
}

/// Built-in compose view with header fields; the body is edited by a
/// separate editor that the caller owns.
pub struct Editor {
    to: HeaderField,
    cc: HeaderField,
    subject: HeaderField,
    in_reply_to: Option<String>,
    focus: Focus,
    suggestions: Vec<String>,
    ac_selected: usize,
}

impl View for Editor {
    type V = ComposeState;

    closed spec fn view(&self) -> ComposeState {
        ComposeState {
            to: self.to@,
            cc: self.cc@,
            subject: self.subject@,
            in_reply_to: match self.in_reply_to {
                Some(s) => Some(s@),
                None => None,
            },
            focus: self.focus,
            suggestions: crate::text::string_views(self.suggestions@),
            ac_selected: self.ac_selected as int,
        }
    }
}

/// The next focus with Tab.
pub open spec fn next_focus(f: Focus) -> Focus {
    match f {
        Focus::To => Focus::Cc,
        Focus::Cc => Focus::Subject,
        Focus::Subject => Focus::Body,
        Focus::Body => Focus::To,
    }
}

/// The previous focus with BackTab.
pub open spec fn prev_focus(f: Focus) -> Focus {
    match f {
        Focus::To => Focus::Body,
        Focus::Cc => Focus::To,
        Focus::Subject => Focus::Cc,
        Focus::Body => Focus::Subject,
    }
}

/// The number of bytes of the UTF-8 encoding of `c`.
pub open spec fn utf8_width(c: char) -> nat {
    let u = c as u32;
    if u < 0x80 {
        1
    } else if u < 0x800 {
        2
    } else if u < 0x10000 {
        3
    } else {
        4
    }
}

/// The number of bytes of the UTF-8 encoding of `s` (std's `str::len`).
pub open spec fn utf8_len(s: Seq<char>) -> nat
    decreases s.len(),
{
    if s.len() == 0 {
        0
    } else {
        utf8_len(s.drop_last()) + utf8_width(s.last())
    }
}

/// The header forms of at most the first eight entries of `a`.
pub open spec fn first_suggestions(a: Seq<AddressView>) -> Seq<Seq<char>> {
    let n = if a.len() <= 8 {
        a.len()
    } else {
        8
    };
    Seq::new(n, |i: int| full_form(a[i]))
}

/// The suggestions for the field value `v` from the address book entries
/// `book`: none for a fragment of fewer than two bytes.
pub open spec fn suggestions_for(v: Seq<char>, book: Seq<AddressView>) -> Seq<Seq<char>> {
    let q = fragment(v);
    if utf8_len(q) < 2 {
        seq![]
    } else {
        first_suggestions(search_spec(book, q))
    }
}

/// Whether `l` is blank: only whitespace.
pub open spec fn blank(l: Seq<char>) -> bool {
    forall|i: int| 0 <= i < l.len() ==> is_ws(#[trigger] l[i])
}

/// Whether the line `row` of the lines flagged blank by `b` is blank (a row
/// past the end counts as blank).
pub open spec fn blank_at(b: Seq<bool>, row: int) -> bool {
    !(0 <= row < b.len()) || b[row]
}

/// The first row from `row` that is blank, or the number of lines.
pub open spec fn skip_text(b: Seq<bool>, row: int) -> int
    decreases b.len() - row,
{
    if row >= b.len() || row < 0 || b[row] {
        row
    } else {
        skip_text(b, row + 1)
    }
}

/// The first row from `row` that is not blank, or the number of lines.
pub open spec fn skip_blank(b: Seq<bool>, row: int) -> int
    decreases b.len() - row,
{
    if row >= b.len() || row < 0 || !b[row] {
        row
    } else {
        skip_blank(b, row + 1)
    }
}

/// The row the cursor moves to with `}` from `row`: past the rest of the
/// paragraph and the blank lines after it, at most the last line.
pub open spec fn next_paragraph_row(b: Seq<bool>, row: int) -> int {
    let r = skip_blank(b, skip_text(b, row));
    if r <= b.len() - 1 {
        r
    } else if b.len() >= 1 {
        b.len() - 1
    } else {
        0
    }
}

/// Going back from `r` over blank lines (not below the first line).
pub open spec fn back_blank(b: Seq<bool>, r: int) -> int
    decreases r,
{
    if r > 0 && blank_at(b, r) {
        back_blank(b, r - 1)
    } else {
        r
    }
}

/// Going back from `r` to the first line of its paragraph.
pub open spec fn back_text(b: Seq<bool>, r: int) -> int
    decreases r,
{
    if r > 0 && !blank_at(b, r - 1) {
        back_text(b, r - 1)
    } else {
        r
    }
}

/// The row the cursor moves to with `{` from `row > 0`: the start of the
/// previous paragraph.
pub open spec fn prev_paragraph_row(b: Seq<bool>, row: int) -> int {
    back_text(b, back_blank(b, row - 1))
}

/// Whether a body line is blank (only whitespace).
pub fn is_blank_line(l: &[char]) -> (r: bool)
    ensures
        r == blank(l@),
{
    let n = l.len();
    let mut i: usize = 0;
    while i < n
        invariant
            n == l@.len(),
            i <= n,
            forall|j: int| 0 <= j < i ==> is_ws(#[trigger] l@[j]),
        decreases n - i,
    {
        if !is_whitespace(l[i]) {
            return false;
        }
        i += 1;
    }
    true
}

/// Whether the key edits the text of a field (a character, Backspace or
/// Delete): after such a key the address suggestions are looked up again.
pub fn edits_text(k: Key) -> (r: bool)
    ensures
        r == (k is Char || k == Key::Backspace || k == Key::Delete),
{
    match k {
        Key::Char(_) => true,
        Key::Backspace => true,
        Key::Delete => true,
        _ => false,
    }
}

/// The number of spaces a line starts with.
pub open spec fn lead_spaces(l: Seq<char>) -> nat
    decreases l.len(),
{
    if l.len() == 0 || l[0] != ' ' {
        0
    } else {
        1 + lead_spaces(l.subrange(1, l.len() as int))
    }
}

/// Whether a body line is a quote: its first character other than a space
/// is `>`.
pub open spec fn quoted(l: Seq<char>) -> bool {
    lead_spaces(l) < l.len() && l[lead_spaces(l) as int] == '>'
}

/// Whether a body line is a quote (shown in another colour).
pub fn is_quoted_line(l: &[char]) -> (r: bool)
    ensures
        r == quoted(l@),
{
    let n = l.len();
    let mut i: usize = 0;
    assert(l@.subrange(0, n as int) =~= l@);
    while i < n && l[i] == ' '
        invariant
            n == l@.len(),
            i <= n,
            lead_spaces(l@) == i + lead_spaces(l@.subrange(i as int, n as int)),
        decreases n - i,
    {
        proof {
            let t = l@.subrange(i as int, n as int);
            assert(t.subrange(1, t.len() as int) =~= l@.subrange(i + 1, n as int));
        }
        i += 1;
    }
    proof {
        assert(lead_spaces(l@.subrange(i as int, n as int)) == 0);
    }
    i < n && l[i] == '>'
}

/// The row the body cursor moves to with `}`, given which lines are blank.
pub fn move_next_paragraph(blank_lines: &[bool], row: usize) -> (r: usize)
    ensures
        r == next_paragraph_row(blank_lines@, row as int),
{
    let total = blank_lines.len();
    let mut r = row;
    while r < total && !blank_lines[r]
        invariant
            total == blank_lines@.len(),
            row <= r,
            skip_text(blank_lines@, row as int) == skip_text(blank_lines@, r as int),
        decreases total - r,
    {
        r += 1;
    }
    let ghost r1 = r;
    while r < total && blank_lines[r]
        invariant
            total == blank_lines@.len(),
            r1 <= r,
            skip_blank(blank_lines@, r1 as int) == skip_blank(blank_lines@, r as int),
        decreases total - r,
    {
        r += 1;
    }
    let last = if total >= 1 {
        total - 1
    } else {
        0
    };
    if r <= last {
        r
    } else {
        last
    }
}

/// The row the body cursor moves to with `{`, given which lines are blank;
/// `None` (the cursor does not move) on the first line.
pub fn move_prev_paragraph(blank_lines: &[bool], row: usize) -> (r: Option<usize>)
    ensures
        match r {
            Some(x) => row > 0 && x == prev_paragraph_row(blank_lines@, row as int),
            None => row == 0,
        },
{
    if row == 0 {
        return None;
    }
    let mut r = row - 1;
    while r > 0 && (r >= blank_lines.len() || blank_lines[r])
        invariant
            r < row,
            back_blank(blank_lines@, (row - 1) as int) == back_blank(blank_lines@, r as int),
        decreases r,
    {
        r -= 1;
    }
    let ghost r1 = r;
    while r > 0 && !(r - 1 >= blank_lines.len() || blank_lines[r - 1])
        invariant
            r <= r1,
            back_text(blank_lines@, r1 as int) == back_text(blank_lines@, r as int),
        decreases r,
    {
        r -= 1;
    }
    Some(r)
}

/// The header fields read from a draft.
fn header_of(ls: &Vec<Vec<char>>, k: usize, prefix: &str) -> (r: Option<Vec<char>>)
    requires
        k <= ls@.len(),
    ensures
        match r {
            Some(v) => header_value(views(ls@).subrange(0, k as int), prefix@) == Some(v@),
            None => header_value(views(ls@).subrange(0, k as int), prefix@) is None,
        },
{
    let ghost lv = views(ls@);
    let p = to_chars(prefix);
    let mut i = k;
    while i > 0
        invariant
            i <= k,
            k <= ls@.len(),
            lv == views(ls@),
            p@ == prefix@,
            header_value(lv.subrange(0, k as int), prefix@) == header_value(
                lv.subrange(0, i as int),
                prefix@,
            ),
        decreases i,
    {
        let l = ls[i - 1].as_slice();
        proof {
            let a = lv.subrange(0, i as int);
            assert(a.drop_last() =~= lv.subrange(0, i - 1));
            assert(a.last() == l@);
        }
        let h = line_header_of(l);
        if has_prefix(l, p.as_slice()) && chars_eq(h.as_slice(), p.as_slice()) {
            let rest = crate::text::copy_range(l, p.len(), l.len());
            return Some(trim_chars(rest.as_slice()));
        }
        i -= 1;
    }
    None
}

fn line_header_of(l: &[char]) -> (r: Vec<char>)
    ensures
        r@ == line_header(l@),
{
    let a = to_chars("To:");
    let b = to_chars("Cc:");
    let c = to_chars("Subject:");
    let d = to_chars("In-Reply-To:");
    if has_prefix(l, a.as_slice()) {
        a
    } else if has_prefix(l, b.as_slice()) {
        b
    } else if has_prefix(l, c.as_slice()) {
        c
    } else if has_prefix(l, d.as_slice()) {
        d
    } else {
        Vec::new()
    }
}

/// The body of a draft as the compose view edits it (see [`editor_body`]).
pub fn draft_editor_body(content: &str) -> (r: String)
    ensures
        r@ == editor_body(content@),
{
    let cs = to_chars(content);
    let ls = split_lines(cs.as_slice());
    let ghost lv = views(ls@);
    let n = ls.len();
    let k = find_sentinel(&ls);
    if k >= n {
        return String::new();
    }
    let mut out: Vec<char> = Vec::new();
    let mut i: usize = k + 1;
    proof {
        assert(lv.subrange(k + 1, k + 1) =~= Seq::<Seq<char>>::empty());
    }
    while i < n
        invariant
            n == ls@.len(),
            lv == views(ls@),
            k < n,
            k + 1 <= i <= n,
            out@ == join_lines(lv.subrange(k + 1, i as int)),
        decreases n - i,
    {
        if i > k + 1 {
            out.push('\n');
        }
        push_all(&mut out, ls[i].as_slice());
        proof {
            let a = lv.subrange(k + 1, i + 1);
            assert(a.drop_last() =~= lv.subrange(k + 1, i as int));
            assert(a.last() == ls@[i as int]@);
            assert(out@ =~= join_lines(a));
        }
        i += 1;
    }
    string_from(out.as_slice())
}

fn find_sentinel(ls: &Vec<Vec<char>>) -> (k: usize)
    ensures
        k == sentinel_index(views(ls@)),
        k <= ls@.len(),
{
    let ghost lv = views(ls@);
    let sep = to_chars("--- body ---");
    let n = ls.len();
    let mut k: usize = 0;
    while k < n
        invariant
            n == ls@.len(),
            lv == views(ls@),
            sep@ == sentinel(),
            k <= n,
            forall|j: int| 0 <= j < k ==> #[trigger] lv[j] != sentinel(),
        ensures
            k <= n,
            forall|j: int| 0 <= j < k ==> #[trigger] lv[j] != sentinel(),
            k < n ==> lv[k as int] == sentinel(),
        decreases n - k,
    {
        if chars_eq(ls[k].as_slice(), sep.as_slice()) {
            break;
        }
        k += 1;
    }
    proof {
        lemma_sentinel_at(lv, k as int);
    }
    k
}

proof fn lemma_sentinel_at(ls: Seq<Seq<char>>, k: int)
    requires
        0 <= k <= ls.len(),
        forall|j: int| 0 <= j < k ==> #[trigger] ls[j] != sentinel(),
        k < ls.len() ==> ls[k] == sentinel(),
    ensures
        sentinel_index(ls) == k,
    decreases k,
{
    if k > 0 {
        let r = ls.subrange(1, ls.len() as int);
        assert(ls[0] != sentinel());
        assert forall|j: int| 0 <= j < k - 1 implies #[trigger] r[j] != sentinel() by {
            assert(r[j] == ls[j + 1]);
        }
        lemma_sentinel_at(r, k - 1);
    }
}

/// The compose view opened on the draft `content`, before any key.
pub open spec fn opened(content: Seq<char>) -> ComposeState {
    let hs = header_lines(content);
    let to = or_empty(header_value(hs, "To:"@));
    let cc = or_empty(header_value(hs, "Cc:"@));
    let subject = or_empty(header_value(hs, "Subject:"@));
    ComposeState {
        to: FieldState { value: to, cursor: to.len() as int },
        cc: FieldState { value: cc, cursor: cc.len() as int },
        subject: FieldState { value: subject, cursor: subject.len() as int },
        in_reply_to: header_value(hs, "In-Reply-To:"@),
        focus: Focus::To,
        suggestions: seq![],
        ac_selected: 0,
    }
}

/// The draft text of the compose view `s` with the body `body`.
pub open spec fn compose_text(s: ComposeState, body: Seq<char>) -> Seq<char> {
    "To: "@ + s.to.value + "\nSubject: "@ + s.subject.value + "\n"@ + (if s.cc.value.len() > 0 {
        "Cc: "@ + s.cc.value + "\n"@
    } else {
        seq![]
    }) + (match s.in_reply_to {
        Some(i) => "In-Reply-To: "@ + i + "\n"@,
        None => seq![],
    }) + sentinel() + "\n"@ + body
}

/// The focused address field's value, if the focus is on `To` or `Cc`.
pub open spec fn address_field(s: ComposeState) -> Option<Seq<char>> {
    match s.focus {
        Focus::To => Some(s.to.value),
        Focus::Cc => Some(s.cc.value),
        _ => None,
    }
}

/// The compose view after accepting the selected suggestion.
pub open spec fn accept_spec(s: ComposeState) -> ComposeState {
    if 0 <= s.ac_selected < s.suggestions.len() {
        let a = s.suggestions[s.ac_selected];
        let t = ComposeState { suggestions: seq![], ..s };
        match s.focus {
            Focus::To => ComposeState {
                to: FieldState {
                    value: accepted(s.to.value, a),
                    cursor: accepted(s.to.value, a).len() as int,
                },
                ..t
            },
            Focus::Cc => ComposeState {
                cc: FieldState {
                    value: accepted(s.cc.value, a),
                    cursor: accepted(s.cc.value, a).len() as int,
                },
                ..t
            },
            _ => t,
        }
    } else {
        s
    }
}

/// The compose view after the key `k`, the body editor being in normal
/// mode when `body_normal`, and what the caller then does with the body.
pub open spec fn key_spec(s: ComposeState, k: Key, body_normal: bool) -> (ComposeState, KeyOutcome) {
    let cleared = ComposeState { suggestions: seq![], ..s };
    if k == Key::CtrlC {
        (cleared, if s.focus == Focus::Body {
            KeyOutcome::NormalMode
        } else {
            KeyOutcome::Handled
        })
    } else if s.suggestions.len() > 0 && k == Key::Down {
        (ComposeState {
            ac_selected: if s.ac_selected + 1 <= s.suggestions.len() - 1 {
                s.ac_selected + 1
            } else {
                s.suggestions.len() - 1
            },
            ..s
        }, KeyOutcome::Handled)
    } else if s.suggestions.len() > 0 && k == Key::Up {
        (ComposeState {
            ac_selected: if s.ac_selected >= 1 {
                s.ac_selected - 1
            } else {
                0
            },
            ..s
        }, KeyOutcome::Handled)
    } else if s.suggestions.len() > 0 && k == Key::Enter {
        (accept_spec(s), KeyOutcome::Handled)
    } else if s.suggestions.len() > 0 && k == Key::Esc {
        (cleared, KeyOutcome::Handled)
    } else if k == Key::Tab && (s.focus != Focus::Body || body_normal) {
        (ComposeState { focus: next_focus(s.focus), ..cleared }, KeyOutcome::Handled)
    } else if k == Key::BackTab {
        (ComposeState { focus: prev_focus(s.focus), ..cleared }, KeyOutcome::Handled)
    } else {
        match s.focus {
            Focus::To => (ComposeState { to: field_key(s.to, k), ..cleared }, KeyOutcome::Handled),
            Focus::Cc => (ComposeState { cc: field_key(s.cc, k), ..cleared }, KeyOutcome::Handled),
            Focus::Subject => (
                ComposeState { subject: field_key(s.subject, k), ..cleared },
                KeyOutcome::Handled,
            ),
            Focus::Body => (cleared, if body_normal && k == Key::Char('}') {
                KeyOutcome::NextParagraph
            } else if body_normal && k == Key::Char('{') {
                KeyOutcome::PrevParagraph
            } else {
                KeyOutcome::ToBody
            }),
        }
    }
}

impl Editor {
    /// The well-formedness of the view: every field's cursor is within its
    /// value.
    pub closed spec fn wf(&self) -> bool {
        self.to.wf() && self.cc.wf() && self.subject.wf()
    }

    /// Create a new compose view by parsing a draft string; the body, which
    /// the body editor holds, is [`draft_editor_body`].
    pub fn new(content: &str) -> (r: Self)
        ensures
            r.wf(),
            r@ == opened(content@),
    {
        let cs = to_chars(content);
        let ls = split_lines(cs.as_slice());
        let k = find_sentinel(&ls);
        proof {
            assert(views(ls@) == lines(content@));
        }
        let to = header_of(&ls, k, "To:");
        let cc = header_of(&ls, k, "Cc:");
        let subject = header_of(&ls, k, "Subject:");
        let irt = header_of(&ls, k, "In-Reply-To:");
        let to_s = match to {
            Some(v) => string_from(v.as_slice()),
            None => String::new(),
        };
        let cc_s = match cc {
            Some(v) => string_from(v.as_slice()),
            None => String::new(),
        };
        let subject_s = match subject {
            Some(v) => string_from(v.as_slice()),
            None => String::new(),
        };
        let r = Editor {
            to: HeaderField::new("To", to_s.as_str()),
            cc: HeaderField::new("Cc", cc_s.as_str()),
            subject: HeaderField::new("Subject", subject_s.as_str()),
            in_reply_to: match irt {
                Some(v) => Some(string_from(v.as_slice())),
                None => None,
            },
            focus: Focus::To,
            suggestions: Vec::new(),
            ac_selected: 0,
        };
        proof {
            assert(crate::text::string_views(r.suggestions@) =~= Seq::<Seq<char>>::empty());
        }
        r
    }

    /// The title of the compose tab: the subject typed so far.
    pub fn title(&self) -> (r: String)
        ensures
            r@ == self@.subject.value,
    {
        self.subject.value()
    }

    /// The `To` field.
    pub fn to_field(&self) -> (r: &HeaderField)
        ensures
            r@ == self@.to,
    {
        &self.to
    }

    /// The `Cc` field.
    pub fn cc_field(&self) -> (r: &HeaderField)
        ensures
            r@ == self@.cc,
    {
        &self.cc
    }

    /// The `Subject` field.
    pub fn subject_field(&self) -> (r: &HeaderField)
        ensures
            r@ == self@.subject,
    {
        &self.subject
    }

    /// The focused part.
    pub fn focus(&self) -> (r: Focus)
        ensures
            r == self@.focus,
    {
        self.focus
    }

    /// The autocomplete suggestions shown.
    pub fn suggestions(&self) -> (r: &Vec<String>)
        ensures
            crate::text::string_views(r@) == self@.suggestions,
    {
        &self.suggestions
    }

    /// The highlighted suggestion.
    pub fn ac_selected(&self) -> (r: usize)
        ensures
            r == self@.ac_selected,
    {
        self.ac_selected
    }

    fn accept_suggestion(&mut self)
        requires
            old(self).wf(),
        ensures
            final(self).wf(),
            final(self)@ == accept_spec(old(self)@),
    {
        if self.ac_selected >= self.suggestions.len() {
            return;
        }
        let addr = self.suggestions[self.ac_selected].clone();
        self.suggestions = Vec::new();
        match self.focus {
            Focus::To => self.to.accept_suggestion(addr.as_str()),
            Focus::Cc => self.cc.accept_suggestion(addr.as_str()),
            _ => {},
        }
        proof {
            assert(crate::text::string_views(self.suggestions@) =~= Seq::<Seq<char>>::empty());
        }
    }

    /// Handle a key press, the body editor being in normal mode when
    /// `body_normal`; the result tells the caller what to do with the body.
    pub fn on_key(&mut self, key: Key, body_normal: bool) -> (r: KeyOutcome)
        requires
            old(self).wf(),
            old(self)@.to.value.len() < usize::MAX,
            old(self)@.cc.value.len() < usize::MAX,
            old(self)@.subject.value.len() < usize::MAX,
        ensures
            final(self).wf(),
            (final(self)@, r) == key_spec(old(self)@, key, body_normal),
    {
        let ghost s = self@;
        if key == Key::CtrlC {
            self.suggestions = Vec::new();
            proof {
                assert(crate::text::string_views(self.suggestions@) =~= Seq::<Seq<char>>::empty());
            }
            return if self.focus == Focus::Body {
                KeyOutcome::NormalMode
            } else {
                KeyOutcome::Handled
            };
        }
        if self.suggestions.len() > 0 {
            let last = self.suggestions.len() - 1;
            if key == Key::Down {
                self.ac_selected = if self.ac_selected < last {
                    self.ac_selected + 1
                } else {
                    last
                };
                return KeyOutcome::Handled;
            }
            if key == Key::Up {
                self.ac_selected = self.ac_selected.saturating_sub(1);
                return KeyOutcome::Handled;
            }
            if key == Key::Enter {
                self.accept_suggestion();
                return KeyOutcome::Handled;
            }
            if key == Key::Esc {
                self.suggestions = Vec::new();
                proof {
                    assert(crate::text::string_views(self.suggestions@) =~= Seq::<Seq<char>>::empty());
                }
                return KeyOutcome::Handled;
            }
        }
        self.suggestions = Vec::new();
        proof {
            assert(crate::text::string_views(self.suggestions@) =~= Seq::<Seq<char>>::empty());
        }
        if key == Key::Tab && (self.focus != Focus::Body || body_normal) {
            self.focus = match self.focus {
                Focus::To => Focus::Cc,
                Focus::Cc => Focus::Subject,
                Focus::Subject => Focus::Body,
                Focus::Body => Focus::To,
            };
            return KeyOutcome::Handled;
        }
        if key == Key::BackTab {
            self.focus = match self.focus {
                Focus::To => Focus::Body,
                Focus::Cc => Focus::To,
                Focus::Subject => Focus::Cc,
                Focus::Body => Focus::Subject,
            };
            return KeyOutcome::Handled;
        }
        match self.focus {
            Focus::To => {
                self.to.on_key(key);
                KeyOutcome::Handled
            },
            Focus::Cc => {
                self.cc.on_key(key);
                KeyOutcome::Handled
            },
            Focus::Subject => {
                self.subject.on_key(key);
                KeyOutcome::Handled
            },
            Focus::Body => {
                if body_normal && key == Key::Char('}') {
                    KeyOutcome::NextParagraph
                } else if body_normal && key == Key::Char('{') {
                    KeyOutcome::PrevParagraph
                } else {
                    KeyOutcome::ToBody
                }
            },
        }
    }

    /// Reassemble the full draft text from the header fields and the body
    /// text `body` of the body editor.
    pub fn text(&self, body: &str) -> (r: String)
        ensures
            r@ == compose_text(self@, body@),
    {
        let mut out: Vec<char> = Vec::new();
        push_str(&mut out, "To: ");
        push_all(&mut out, self.to.value.as_slice());
        push_str(&mut out, "\nSubject: ");
        push_all(&mut out, self.subject.value.as_slice());
        push_str(&mut out, "\n");
        let ghost a = out@;
        if self.cc.value.len() > 0 {
            push_str(&mut out, "Cc: ");
            push_all(&mut out, self.cc.value.as_slice());
            push_str(&mut out, "\n");
        }
        let ghost b = out@;
        match &self.in_reply_to {
            Some(irt) => {
                push_str(&mut out, "In-Reply-To: ");
                push_str(&mut out, irt.as_str());
                push_str(&mut out, "\n");
            },
            None => {},
        }
        let ghost c = out@;
        push_str(&mut out, "--- body ---");
        push_str(&mut out, "\n");
        push_str(&mut out, body);
        proof {
            let v = self@;
            assert(b =~= a + (if v.cc.value.len() > 0 {
                "Cc: "@ + v.cc.value + "\n"@
            } else {
                seq![]
            }));
            assert(c =~= b + (match v.in_reply_to {
                Some(i) => "In-Reply-To: "@ + i + "\n"@,
                None => seq![],
            }));
            assert(out@ =~= compose_text(v, body@));
        }
        string_from(out.as_slice())
    }

    /// Update autocomplete suggestions from the address book `book`, for the
    /// focused `To` or `Cc` field; the first suggestion is highlighted.
    pub fn update_autocomplete(&mut self, book: &AddressBook)
        requires
            old(self).wf(),
        ensures
            final(self).wf(),
            final(self)@ == (ComposeState {
                suggestions: match address_field(old(self)@) {
                    Some(v) => suggestions_for(v, book@),
                    None => seq![],
                },
                ac_selected: 0,
                ..old(self)@
            }),
    {
        self.suggestions = Vec::new();
        self.ac_selected = 0;
        proof {
            assert(crate::text::string_views(self.suggestions@) =~= Seq::<Seq<char>>::empty());
        }
        let q = match self.focus {
            Focus::To => self.to.current_fragment(),
            Focus::Cc => self.cc.current_fragment(),
            _ => return,
        };
        proof {
            lemma_utf8_len_ge(q@);
            if q@.len() == 1 {
                assert(q@.drop_last() =~= Seq::<char>::empty());
                assert(q@.last() == q@[0]);
                assert(utf8_len(q@.drop_last()) == 0);
                assert(utf8_len(q@) == utf8_width(q@[0]));
            }
            if q@.len() == 0 {
                assert(utf8_len(q@) == 0);
            }
        }
        let short = if q.len() >= 2 {
            false
        } else if q.len() == 0 {
            true
        } else {
            (q[0] as u32) < 0x80
        };
        if short {
            return;
        }
        let qs = string_from(q.as_slice());
        let hits = book.search(qs.as_str());
        self.take_suggestions(&hits);
    }

    /// Keep the header forms of at most the first eight addresses of `hits`.
    fn take_suggestions(&mut self, hits: &Vec<&crate::address::Address>)
        requires
            old(self).wf(),
        ensures
            final(self).wf(),
            final(self)@ == (ComposeState {
                suggestions: first_suggestions(Seq::new(hits@.len(), |i: int| hits@[i]@)),
                ..old(self)@
            }),
    {
        let ghost hv = Seq::new(hits@.len(), |i: int| hits@[i]@);
        let n = if hits.len() <= 8 {
            hits.len()
        } else {
            8
        };
        let mut out: Vec<String> = Vec::new();
        let mut i: usize = 0;
        while i < n
            invariant
                n <= hits@.len(),
                hv == Seq::new(hits@.len(), |i: int| hits@[i]@),
                i <= n,
                out@.len() == i,
                forall|j: int| 0 <= j < i ==> #[trigger] out@[j]@ == full_form(hv[j]),
            decreases n - i,
        {
            out.push(hits[i].full());
            i += 1;
        }
        proof {
            assert(crate::text::string_views(out@) =~= first_suggestions(hv));
        }
        self.suggestions = out;
    }
}

/// A text of at least two characters is at least two bytes long.
proof fn lemma_utf8_len_ge(s: Seq<char>)
    ensures
        utf8_len(s) >= s.len(),
    decreases s.len(),
{
    if s.len() > 0 {
        lemma_utf8_len_ge(s.drop_last());
    }
}

// ────────────────────────────── saving a draft ──────────────────────────────

/// A header value that fits on one line of the draft text.
pub open spec fn one_line(v: Seq<char>) -> bool {
    !v.contains('\n') && (v.len() == 0 || v.last() != '\r')
}

/// Every value of the compose view fits on one line.
pub open spec fn one_line_fields(s: ComposeState) -> bool {
    &&& one_line(s.to.value)
    &&& one_line(s.cc.value)
    &&& one_line(s.subject.value)
    &&& match s.in_reply_to {
        Some(i) => one_line(i),
        None => true,
    }
}

/// The header lines of the draft text of the compose view `s`.
pub open spec fn text_headers(s: ComposeState) -> Seq<Seq<char>> {
    let base = seq!["To: "@ + s.to.value, "Subject: "@ + s.subject.value];
    let with_cc = if s.cc.value.len() > 0 {
        base.push("Cc: "@ + s.cc.value)
    } else {
        base
    };
    match s.in_reply_to {
        Some(i) => with_cc.push("In-Reply-To: "@ + i),
        None => with_cc,
    }
}

/// A header line ended by a line break splits off as one line.
proof fn lemma_header_line(p: Seq<char>, v: Seq<char>, rest: Seq<char>)
    requires
        one_line(v),
        p.len() > 0,
        p.last() == ' ',
        forall|i: int| 0 <= i < p.len() ==> p[i] != '\n',
    ensures
        lines((p + v).push('\n') + rest) == seq![p + v] + lines(rest),
{
    let l = p + v;
    assert(!l.contains('\n')) by {
        if l.contains('\n') {
            let i = choose|i: int| 0 <= i < l.len() && l[i] == '\n';
            if i < p.len() {
                assert(l[i] == p[i]);
            } else {
                assert(v[i - p.len()] == '\n');
                assert(v.contains('\n'));
            }
        }
    }
    lemma_lines_concat(l.push('\n'), rest);
    lemma_lines_one(l);
    if v.len() > 0 {
        assert(l.last() == v.last());
    } else {
        assert(l =~= p);
    }
    assert(strip_cr(l) == l);
}

/// The lines of the draft text of a compose view: its header lines, the
/// body separator, then the lines of the body.
proof fn lemma_text_lines(s: ComposeState, body: Seq<char>)
    requires
        one_line_fields(s),
    ensures
        lines(compose_text(s, body)) == text_headers(s) + seq![sentinel()] + lines(body),
{
    reveal_strlit("To: ");
    reveal_strlit("\nSubject: ");
    reveal_strlit("Subject: ");
    reveal_strlit("\n");
    reveal_strlit("Cc: ");
    reveal_strlit("In-Reply-To: ");
    reveal_strlit("--- body ---");
    let sent = sentinel();
    let tail = sent.push('\n') + body;
    let irt = match s.in_reply_to {
        Some(i) => ("In-Reply-To: "@ + i).push('\n'),
        None => seq![],
    };
    let cc = if s.cc.value.len() > 0 {
        ("Cc: "@ + s.cc.value).push('\n')
    } else {
        seq![]
    };
    let t3 = irt + tail;
    let t2 = cc + t3;
    let t1 = ("Subject: "@ + s.subject.value).push('\n') + t2;
    let t0 = ("To: "@ + s.to.value).push('\n') + t1;
    assert(compose_text(s, body) =~= t0);
    // the separator line
    assert(forall|i: int| 0 <= i < sent.len() ==> sent[i] != '\n');
    assert(!sent.contains('\n'));
    lemma_lines_concat(sent.push('\n'), body);
    lemma_lines_one(sent);
    assert(strip_cr(sent) == sent);
    assert(lines(tail) == seq![sent] + lines(body));
    let after_cc = match s.in_reply_to {
        Some(i) => {
            lemma_header_line("In-Reply-To: "@, i, tail);
            seq!["In-Reply-To: "@ + i]
        },
        None => {
            assert(t3 =~= tail);
            seq![]
        },
    };
    assert(lines(t3) == after_cc + lines(tail));
    let cc_lines = if s.cc.value.len() > 0 {
        lemma_header_line("Cc: "@, s.cc.value, t3);
        seq!["Cc: "@ + s.cc.value]
    } else {
        assert(t2 =~= t3);
        Seq::<Seq<char>>::empty()
    };
    assert(lines(t2) == cc_lines + lines(t3));
    lemma_header_line("Subject: "@, s.subject.value, t2);
    lemma_header_line("To: "@, s.to.value, t1);
    assert(lines(t0) =~= text_headers(s) + seq![sent] + lines(body));
}

/// The separator follows the header lines of the draft text.
proof fn lemma_text_sentinel(s: ComposeState, body: Seq<char>)
    ensures
        sentinel_index(text_headers(s) + seq![sentinel()] + lines(body)) == text_headers(s).len(),
{
    reveal_strlit("To: ");
    reveal_strlit("Subject: ");
    reveal_strlit("Cc: ");
    reveal_strlit("In-Reply-To: ");
    reveal_strlit("--- body ---");
    let hs = text_headers(s);
    let ls = hs + seq![sentinel()] + lines(body);
    assert forall|j: int| 0 <= j < hs.len() implies #[trigger] ls[j] != sentinel() by {
        assert(ls[j] == hs[j]);
        assert(hs[j][0] != '-');
        assert(sentinel()[0] == '-');
    }
    assert(ls[hs.len() as int] == sentinel());
    lemma_sentinel_index(ls, hs.len() as int);
}

/// A value with no whitespace at either end survives the space after its
/// header's colon being trimmed.
proof fn lemma_trim_after_space(v: Seq<char>)
    requires
        is_trimmed(v),
    ensures
        trim(seq![' '] + v) == v,
{
    let t = seq![' '] + v;
    assert(is_ws(' '));
    assert(t.subrange(1, t.len() as int) =~= v);
    assert(trim_start(t) == trim_start(v));
    lemma_trim_trimmed(v);
    if v.len() > 0 {
        assert(trim_start(v) == v);
    }
}

/// A line whose first character differs from that of `p` does not start
/// with `p`.
proof fn lemma_not_prefix(l: Seq<char>, p: Seq<char>)
    requires
        p.len() > 0,
        l.len() > 0,
        l[0] != p[0],
    ensures
        !starts_with(l, p),
{
    if starts_with(l, p) {
        assert(l.subrange(0, p.len() as int)[0] == l[0]);
    }
}

/// Saving the compose view as a draft text and opening that text again
/// gives back its header fields, when each fits on one line and has no
/// whitespace at either end.
pub proof fn lemma_reopen_fields(s: ComposeState, body: Seq<char>)
    requires
        one_line_fields(s),
        is_trimmed(s.to.value),
        is_trimmed(s.cc.value),
        is_trimmed(s.subject.value),
        match s.in_reply_to {
            Some(i) => is_trimmed(i),
            None => true,
        },
    ensures
        opened(compose_text(s, body)).to.value == s.to.value,
        opened(compose_text(s, body)).cc.value == s.cc.value,
        opened(compose_text(s, body)).subject.value == s.subject.value,
        opened(compose_text(s, body)).in_reply_to == s.in_reply_to,
{
    reveal_strlit("To: ");
    reveal_strlit("Subject: ");
    reveal_strlit("Cc: ");
    reveal_strlit("In-Reply-To: ");
    reveal_strlit("To:");
    reveal_strlit("Subject:");
    reveal_strlit("Cc:");
    reveal_strlit("In-Reply-To:");
    reveal_with_fuel(header_value, 5);
    let text = compose_text(s, body);
    lemma_text_lines(s, body);
    lemma_text_sentinel(s, body);
    let hs = text_headers(s);
    assert(header_lines(text) =~= hs);
    let to_l = "To: "@ + s.to.value;
    let su_l = "Subject: "@ + s.subject.value;
    let cc_l = "Cc: "@ + s.cc.value;
    assert(to_l.subrange(0, 3) =~= "To:"@);
    assert(after(to_l, "To:"@) =~= seq![' '] + s.to.value);
    assert(su_l.subrange(0, 8) =~= "Subject:"@);
    assert(after(su_l, "Subject:"@) =~= seq![' '] + s.subject.value);
    assert(cc_l.subrange(0, 3) =~= "Cc:"@);
    assert(after(cc_l, "Cc:"@) =~= seq![' '] + s.cc.value);
    lemma_not_prefix(su_l, "To:"@);
    lemma_not_prefix(cc_l, "To:"@);
    lemma_not_prefix(su_l, "Cc:"@);
    lemma_not_prefix(to_l, "Cc:"@);
    lemma_not_prefix(to_l, "Subject:"@);
    lemma_not_prefix(cc_l, "Subject:"@);
    lemma_not_prefix(to_l, "In-Reply-To:"@);
    lemma_not_prefix(su_l, "In-Reply-To:"@);
    lemma_not_prefix(cc_l, "In-Reply-To:"@);
    lemma_trim_after_space(s.to.value);
    lemma_trim_after_space(s.subject.value);
    lemma_trim_after_space(s.cc.value);
    let base = seq![to_l, su_l];
    let with_cc = if s.cc.value.len() > 0 {
        base.push(cc_l)
    } else {
        base
    };
    assert(base.drop_last() =~= seq![to_l]);
    assert(seq![to_l].drop_last() =~= Seq::<Seq<char>>::empty());
    if s.cc.value.len() > 0 {
        assert(with_cc.drop_last() =~= base);
    } else {
        assert(s.cc.value =~= Seq::<char>::empty());
    }
    match s.in_reply_to {
        Some(i) => {
            let ir_l = "In-Reply-To: "@ + i;
            assert(ir_l.subrange(0, 12) =~= "In-Reply-To:"@);
            assert(after(ir_l, "In-Reply-To:"@) =~= seq![' '] + i);
            lemma_trim_after_space(i);
            lemma_not_prefix(ir_l, "To:"@);
            lemma_not_prefix(ir_l, "Cc:"@);
            lemma_not_prefix(ir_l, "Subject:"@);
            assert(hs.drop_last() =~= with_cc);
        },
        None => {
            assert(hs =~= with_cc);
        },
    }
}

/// Sending the compose view: the draft read from its text has the
/// recipients of its `To` and `Cc` fields, its subject and `In-Reply-To`
/// trimmed, and its body without leading blank lines, when every field
/// fits on one line.
pub proof fn lemma_sent_draft(s: ComposeState, body: Seq<char>)
    requires
        one_line_fields(s),
    ensures
        parse_draft(compose_text(s, body)).to == parse_list_spec(seq![' '] + s.to.value),
        parse_draft(compose_text(s, body)).cc == if s.cc.value.len() > 0 {
            parse_list_spec(seq![' '] + s.cc.value)
        } else {
            seq![]
        },
        parse_draft(compose_text(s, body)).subject == trim(seq![' '] + s.subject.value),
        parse_draft(compose_text(s, body)).in_reply_to == match s.in_reply_to {
            Some(i) => Some(trim(seq![' '] + i)),
            None => None,
        },
        parse_draft(compose_text(s, body)).body == drop_newlines(join_lines(lines(body))),
{
    reveal_strlit("To: ");
    reveal_strlit("Subject: ");
    reveal_strlit("Cc: ");
    reveal_strlit("In-Reply-To: ");
    reveal_strlit("To:");
    reveal_strlit("Subject:");
    reveal_strlit("Cc:");
    reveal_strlit("In-Reply-To:");
    reveal_with_fuel(apply_headers, 5);
    let text = compose_text(s, body);
    lemma_text_lines(s, body);
    lemma_text_sentinel(s, body);
    let hs = text_headers(s);
    let ls = lines(text);
    assert(ls.subrange(0, hs.len() as int) =~= hs);
    assert(ls.subrange(hs.len() as int + 1, ls.len() as int) =~= lines(body));
    let to_l = "To: "@ + s.to.value;
    let su_l = "Subject: "@ + s.subject.value;
    let cc_l = "Cc: "@ + s.cc.value;
    assert(to_l.subrange(0, 3) =~= "To:"@);
    assert(after(to_l, "To:"@) =~= seq![' '] + s.to.value);
    assert(su_l.subrange(0, 8) =~= "Subject:"@);
    assert(after(su_l, "Subject:"@) =~= seq![' '] + s.subject.value);
    assert(cc_l.subrange(0, 3) =~= "Cc:"@);
    assert(after(cc_l, "Cc:"@) =~= seq![' '] + s.cc.value);
    lemma_not_prefix(su_l, "To:"@);
    lemma_not_prefix(su_l, "Cc:"@);
    lemma_not_prefix(cc_l, "To:"@);
    let base = seq![to_l, su_l];
    let with_cc = if s.cc.value.len() > 0 {
        base.push(cc_l)
    } else {
        base
    };
    assert(base.drop_last() =~= seq![to_l]);
    assert(seq![to_l].drop_last() =~= Seq::<Seq<char>>::empty());
    if s.cc.value.len() > 0 {
        assert(with_cc.drop_last() =~= base);
    }
    match s.in_reply_to {
        Some(i) => {
            let ir_l = "In-Reply-To: "@ + i;
            assert(ir_l.subrange(0, 12) =~= "In-Reply-To:"@);
            assert(after(ir_l, "In-Reply-To:"@) =~= seq![' '] + i);
            lemma_not_prefix(ir_l, "To:"@);
            lemma_not_prefix(ir_l, "Cc:"@);
            lemma_not_prefix(ir_l, "Subject:"@);
            assert(hs.drop_last() =~= with_cc);
        },
        None => {
            assert(hs =~= with_cc);
        },
    }
}

} // verus!

//! E-mail addresses with an optional display name, address lists as they
//! appear in `To:`/`Cc:` headers, and the address book used for
//! autocompletion.
use crate::text::{
    chars_eq, contains_seq, occurs_at, contains_str, find_char, find_from, is_ws, lemma_find_char,
    lemma_lines_concat, lemma_lines_one, lines, strip_cr,
    lowercase, push_all, push_str, split_lines, string_from, to_chars, to_lowercase, trim,
    trim_chars, trim_end, trim_start, views,
};
use crate::compose::join_full;
use vstd::prelude::*;

verus! {

/// The mathematical content of an [`Address`]: its display name and its
/// address, each a sequence of characters (empty when absent).
pub struct AddressView {
    pub name: Seq<char>,
    pub addr: Seq<char>,
}

/// An email address with optional display name.
#[derive(Debug, PartialEq)]
pub struct Address {
    /// Display name (e.g. "Alice"). Empty when not provided.
    name: String,
    /// Email address (e.g. "alice@example.com"). Empty when not provided.
    addr: String,
}

impl View for Address {
    type V = AddressView;

    closed spec fn view(&self) -> AddressView {
        AddressView { name: self.name@, addr: self.addr@ }
    }
}

/// The empty address.
pub open spec fn empty_address() -> AddressView {
    AddressView { name: Seq::empty(), addr: Seq::empty() }
}

/// Header form of an address: `Name <addr>` when a name is present,
/// otherwise the bare address.
pub open spec fn full_form(a: AddressView) -> Seq<char> {
    if a.name.len() == 0 {
        a.addr
    } else {
        a.name + " <"@ + a.addr + ">"@
    }
}

/// Short display form: the name when present, otherwise the address.
pub open spec fn short_form(a: AddressView) -> Seq<char> {
    if a.name.len() == 0 {
        a.addr
    } else {
        a.name
    }
}

/// The address denoted by a text such as `Name <addr>` or `addr`.
///
/// The text is trimmed; a blank text gives the empty address.  When a `<`
/// is followed (later) by a `>`, the name is the trimmed text before the `<`
/// and the address the trimmed text between the two; otherwise the whole
/// trimmed text is a bare address.
pub open spec fn parse_address(s: Seq<char>) -> AddressView {
    let t = trim(s);
    let start = find_char(t, '<');
    let rest = t.subrange(start, t.len() as int);
    let end = find_char(rest, '>');
    if t.len() == 0 {
        empty_address()
    } else if start < t.len() && end < rest.len() {
        AddressView { name: trim(t.subrange(0, start)), addr: trim(t.subrange(start + 1, start + end)) }
    } else {
        AddressView { name: Seq::empty(), addr: t }
    }
}

/// Angle-bracket nesting depth after reading character `c` at depth `d`
/// (a stray `>` never takes the depth below zero).
pub open spec fn depth_step(d: nat, c: char) -> nat {
    if c == '<' {
        d + 1
    } else if c == '>' {
        if d > 0 {
            (d - 1) as nat
        } else {
            0
        }
    } else {
        d
    }
}

/// Angle-bracket nesting depth just before position `i` of `s`.
pub open spec fn depth_before(s: Seq<char>, i: int) -> nat
    decreases i,
{
    if i <= 0 {
        0
    } else {
        depth_step(depth_before(s, i - 1), s[i - 1])
    }
}

/// The segments of an address list: the text split at every comma outside
/// angle brackets.  There is always at least one segment.
pub open spec fn segments(s: Seq<char>) -> Seq<Seq<char>>
    decreases s.len(),
{
    if s.len() == 0 {
        seq![Seq::<char>::empty()]
    } else {
        let p = segments(s.drop_last());
        let c = s.last();
        if c == ',' && depth_before(s, s.len() - 1) == 0 {
            p.push(Seq::<char>::empty())
        } else {
            p.update(p.len() - 1, p.last().push(c))
        }
    }
}

/// A segment that can only be the start of a display name holding a comma,
/// such as `Doe` in `Doe, John <j@x.com>`: not blank, with neither an `@`
/// nor a `<`.
pub open spec fn name_fragment(x: Seq<char>) -> bool {
    trim(x).len() > 0 && !x.contains('@') && !x.contains('<')
}

/// Segments grouped into pieces: a name fragment is joined, with its comma,
/// to the segment after it when that segment holds an angle-bracket
/// address (a `<`); every other segment is a piece of its own.
pub open spec fn grouped(gs: Seq<Seq<char>>) -> Seq<Seq<char>>
    decreases gs.len(),
{
    if gs.len() == 0 {
        seq![]
    } else {
        let r = grouped(gs.drop_last());
        let g = gs.last();
        if r.len() > 0 && name_fragment(r.last()) && g.contains('<') {
            r.update(r.len() - 1, r.last() + seq![','] + g)
        } else {
            r.push(g)
        }
    }
}

/// The pieces of an address list: its segments, with a display name that
/// holds a comma kept together with its angle-bracket address.
pub open spec fn pieces(s: Seq<char>) -> Seq<Seq<char>> {
    grouped(segments(s))
}

/// The addresses of the non-blank pieces, in order.
pub open spec fn addresses_of(ps: Seq<Seq<char>>) -> Seq<AddressView>
    decreases ps.len(),
{
    if ps.len() == 0 {
        seq![]
    } else {
        let r = addresses_of(ps.drop_last());
        let t = trim(ps.last());
        if t.len() > 0 {
            r.push(parse_address(t))
        } else {
            r
        }
    }
}

/// The addresses of a comma-separated list such as
/// `Doe, John <j@x.com>, alice@x.com`.
pub open spec fn parse_list_spec(s: Seq<char>) -> Seq<AddressView> {
    addresses_of(pieces(s))
}

/// The views of a sequence of addresses.
pub open spec fn address_views(v: Seq<Address>) -> Seq<AddressView> {
    Seq::new(v.len(), |i: int| v[i]@)
}

proof fn lemma_segments_nonempty(s: Seq<char>)
    ensures
        segments(s).len() >= 1,
    decreases s.len(),
{
    if s.len() > 0 {
        lemma_segments_nonempty(s.drop_last());
    }
}

proof fn lemma_depth_prefix(s: Seq<char>, k: int, i: int)
    requires
        0 <= i <= k <= s.len(),
    ensures
        depth_before(s.subrange(0, k), i) == depth_before(s, i),
    decreases i,
{
    if i > 0 {
        lemma_depth_prefix(s, k, i - 1);
    }
}

/// The nesting depth after reading `y` from depth `d`.
pub open spec fn depth_after(d: nat, y: Seq<char>) -> nat
    decreases y.len(),
{
    if y.len() == 0 {
        d
    } else {
        depth_step(depth_after(d, y.drop_last()), y.last())
    }
}

/// The depth at the end of `x + y` is the depth at the end of `x` carried
/// through `y`.
pub(crate) proof fn lemma_depth_concat(x: Seq<char>, y: Seq<char>)
    ensures
        depth_before(x + y, (x.len() + y.len()) as int) == depth_after(
            depth_before(x, x.len() as int),
            y,
        ),
    decreases y.len(),
{
    let s = x + y;
    if y.len() == 0 {
        assert(s =~= x);
    } else {
        let y1 = y.drop_last();
        lemma_depth_concat(x, y1);
        let k = (x.len() + y1.len()) as int;
        assert(s.subrange(0, k) =~= x + y1);
        lemma_depth_prefix(s, k, k);
        assert(s[k] == y.last());
    }
}

/// Text without angle brackets leaves the depth as it is.
pub(crate) proof fn lemma_depth_flat(d: nat, y: Seq<char>)
    requires
        !y.contains('<'),
        !y.contains('>'),
    ensures
        depth_after(d, y) == d,
    decreases y.len(),
{
    if y.len() > 0 {
        let y1 = y.drop_last();
        assert(!y1.contains('<') && !y1.contains('>')) by {
            if y1.contains('<') {
                let j = choose|j: int| 0 <= j < y1.len() && y1[j] == '<';
                assert(y[j] == '<');
            }
            if y1.contains('>') {
                let j = choose|j: int| 0 <= j < y1.len() && y1[j] == '>';
                assert(y[j] == '>');
            }
        }
        lemma_depth_flat(d, y1);
        assert(y[y.len() - 1] == y.last());
    }
}

/// Reading `a + b` is reading `a`, then `b`.
pub(crate) proof fn lemma_depth_after_concat(d: nat, a: Seq<char>, b: Seq<char>)
    ensures
        depth_after(d, a + b) == depth_after(depth_after(d, a), b),
    decreases b.len(),
{
    if b.len() == 0 {
        assert(a + b =~= a);
    } else {
        lemma_depth_after_concat(d, a, b.drop_last());
        assert((a + b).drop_last() =~= a + b.drop_last());
        assert((a + b).last() == b.last());
    }
}

/// Appending comma-free text to a list extends its last segment.
pub(crate) proof fn lemma_segments_extend(x: Seq<char>, y: Seq<char>)
    requires
        !y.contains(','),
    ensures
        segments(x + y) == segments(x).update(
            segments(x).len() - 1,
            segments(x).last() + y,
        ),
    decreases y.len(),
{
    lemma_segments_nonempty(x);
    if y.len() == 0 {
        assert(x + y =~= x);
        assert(segments(x).last() + y =~= segments(x).last());
        assert(segments(x).update(segments(x).len() - 1, segments(x).last()) =~= segments(x));
    } else {
        let y1 = y.drop_last();
        assert(!y1.contains(',')) by {
            if y1.contains(',') {
                let j = choose|j: int| 0 <= j < y1.len() && y1[j] == ',';
                assert(y[j] == ',');
            }
        }
        lemma_segments_extend(x, y1);
        let s = x + y;
        assert(s.drop_last() =~= x + y1);
        assert(s.last() == y.last());
        assert(y[y.len() - 1] != ',');
        let g = segments(x);
        let p = segments(x + y1);
        assert(p.last() == g.last() + y1);
        assert(g.last() + y1.push(y.last()) =~= (g.last() + y1).push(y.last()));
        assert(y1.push(y.last()) =~= y);
        assert(p.update(p.len() - 1, p.last().push(y.last())) =~= g.update(
            g.len() - 1,
            g.last() + y,
        ));
    }
}

/// A comma outside angle brackets starts a new segment.
pub(crate) proof fn lemma_segments_comma(x: Seq<char>)
    requires
        depth_before(x, x.len() as int) == 0,
    ensures
        segments(x.push(',')) == segments(x).push(Seq::<char>::empty()),
{
    let s = x.push(',');
    assert(s.drop_last() =~= x);
    assert(s.subrange(0, x.len() as int) =~= x);
    lemma_depth_prefix(s, x.len() as int, x.len() as int);
}

impl Clone for Address {
    fn clone(&self) -> (r: Self)
        ensures
            r@ == self@,
    {
        Address { name: self.name.clone(), addr: self.addr.clone() }
    }
}

impl Default for Address {
    fn default() -> (r: Self)
        ensures
            r@ == empty_address(),
    {
        Address { name: String::new(), addr: String::new() }
    }
}

impl Address {
    /// An address with the given display name and address.
    pub fn new(name: &str, addr: &str) -> (r: Self)
        ensures
            r@ == (AddressView { name: name@, addr: addr@ }),
    {
        Address { name: name.to_owned(), addr: addr.to_owned() }
    }

    /// An address from its characters.
    pub fn from_chars(name: &[char], addr: &[char]) -> (r: Self)
        ensures
            r@ == (AddressView { name: name@, addr: addr@ }),
    {
        Address { name: string_from(name), addr: string_from(addr) }
    }

    /// The display name (empty when there is none).
    pub fn name(&self) -> (r: &str)
        ensures
            r@ == self@.name,
    {
        self.name.as_str()
    }

    /// The bare address.
    pub fn address(&self) -> (r: &str)
        ensures
            r@ == self@.addr,
    {
        self.addr.as_str()
    }

    /// The characters of the header form (see [`Address::full`]).
    pub fn full_chars(&self) -> (r: Vec<char>)
        ensures
            r@ == full_form(self@),
    {
        let mut out = to_chars(self.name.as_str());
        if out.len() == 0 {
            return to_chars(self.addr.as_str());
        }
        push_str(&mut out, " <");
        push_str(&mut out, self.addr.as_str());
        push_str(&mut out, ">");
        out
    }

    /// Return the full header form: `"Name <addr>"` when a name is present,
    /// otherwise just the bare address.
    pub fn full(&self) -> (r: String)
        ensures
            r@ == full_form(self@),
    {
        let cs = self.full_chars();
        string_from(cs.as_slice())
    }

    /// Return a short display form: the name if present, otherwise the address.
    pub fn short(&self) -> (r: &str)
        ensures
            r@ == short_form(self@),
    {
        if self.name.as_str().is_empty() {
            self.addr.as_str()
        } else {
            self.name.as_str()
        }
    }

    /// Parse an address from characters such as `Name <addr>` or `addr`.
    /// Never fails: blank input gives the empty address.
    pub fn parse_chars(s: &[char]) -> (r: Self)
        ensures
            r@ == parse_address(s@),
    {
        let t = trim_chars(s);
        let n = t.len();
        if n == 0 {
            return Address::default();
        }
        let start = find_from(t.as_slice(), 0, '<');
        assert(t@.subrange(0, n as int) =~= t@);
        if start < n {
            let end_abs = find_from(t.as_slice(), start, '>');
            if end_abs < n {
                let name = trim_chars(slice_range(t.as_slice(), 0, start));
                let addr = trim_chars(slice_range(t.as_slice(), start + 1, end_abs));
                return Address::from_chars(name.as_slice(), addr.as_slice());
            }
        }
        Address { name: String::new(), addr: string_from(t.as_slice()) }
    }

    /// Parse an address from a string like `"Name <addr>"` or `"addr"`.
    /// Never fails — returns an empty `Address` for blank input.
    pub fn parse(s: &str) -> (r: Self)
        ensures
            r@ == parse_address(s@),
    {
        let cs = to_chars(s);
        Address::parse_chars(cs.as_slice())
    }

    /// Split a comma-separated address list into individual `Address` values,
    /// respecting angle brackets so that `"Doe, John <j@x.com>, alice@x.com"`
    /// splits into two entries rather than three.
    pub fn parse_list(list: &str) -> (r: Vec<Self>)
        ensures
            address_views(r@) == parse_list_spec(list@),
    {
        let cs = to_chars(list);
        Address::parse_list_chars(cs.as_slice())
    }

    /// [`Address::parse_list`] on characters.
    pub fn parse_list_chars(cs: &[char]) -> (r: Vec<Self>)
        ensures
            address_views(r@) == parse_list_spec(cs@),
    {
        let ps = split_list(cs);
        let ghost pv = views(ps@);
        let n = ps.len();
        let mut result: Vec<Address> = Vec::new();
        let mut k: usize = 0;
        proof {
            assert(pv.subrange(0, 0) =~= Seq::<Seq<char>>::empty());
            assert(address_views(result@) =~= Seq::<AddressView>::empty());
        }
        while k < n
            invariant
                n == ps@.len(),
                pv == views(ps@),
                pv == pieces(cs@),
                k <= n,
                address_views(result@) == addresses_of(pv.subrange(0, k as int)),
            decreases n - k,
        {
            let t = trim_chars(ps[k].as_slice());
            proof {
                let a = pv.subrange(0, k + 1);
                assert(a.drop_last() =~= pv.subrange(0, k as int));
                assert(a.last() == pv[k as int]);
            }
            if t.len() > 0 {
                let ghost before = address_views(result@);
                result.push(Address::parse_chars(t.as_slice()));
                proof {
                    assert(address_views(result@) =~= before.push(parse_address(t@)));
                }
            }
            k += 1;
        }
        proof {
            assert(pv.subrange(0, n as int) =~= pv);
        }
        result
    }
}

/// The segments of the list `cs`.
fn split_segments(cs: &[char]) -> (r: Vec<Vec<char>>)
    ensures
        views(r@) == segments(cs@),
{
    let n = cs.len();
    let mut out: Vec<Vec<char>> = Vec::new();
    let mut current: Vec<char> = Vec::new();
    let mut depth: usize = 0;
    let mut i: usize = 0;
    proof {
        assert(cs@.subrange(0, 0) =~= Seq::<char>::empty());
        assert(views(out@) =~= Seq::<Seq<char>>::empty());
    }
    while i < n
        invariant
            n == cs@.len(),
            i <= n,
            depth == depth_before(cs@, i as int),
            depth <= i,
            segments(cs@.subrange(0, i as int)).len() >= 1,
            current@ == segments(cs@.subrange(0, i as int)).last(),
            views(out@) == segments(cs@.subrange(0, i as int)).drop_last(),
        decreases n - i,
    {
        let c = cs[i];
        let ghost pre = cs@.subrange(0, i as int);
        let ghost post = cs@.subrange(0, i + 1);
        proof {
            assert(post.drop_last() =~= pre);
            assert(post.last() == c);
            lemma_depth_prefix(cs@, i + 1, i as int);
            lemma_segments_nonempty(pre);
        }
        if c == ',' && depth == 0 {
            let ghost before = views(out@);
            out.push(current);
            current = Vec::new();
            proof {
                assert(views(out@) =~= before.push(segments(pre).last()));
                assert(segments(pre) =~= segments(pre).drop_last().push(segments(pre).last()));
                assert(segments(post).drop_last() =~= segments(pre));
            }
        } else {
            current.push(c);
            proof {
                assert(segments(post).drop_last() =~= segments(pre).drop_last());
            }
            if c == '<' {
                depth = depth + 1;
            } else if c == '>' {
                if depth > 0 {
                    depth = depth - 1;
                }
            }
        }
        i += 1;
    }
    proof {
        assert(cs@.subrange(0, n as int) =~= cs@);
        lemma_segments_nonempty(cs@);
    }
    let ghost before = views(out@);
    out.push(current);
    proof {
        let g = segments(cs@);
        assert(views(out@) =~= before.push(g.last()));
        assert(g =~= g.drop_last().push(g.last()));
    }
    out
}

/// Whether `x` is a name fragment (see [`name_fragment`]).
fn is_name_fragment(x: &[char]) -> (r: bool)
    ensures
        r == name_fragment(x@),
{
    let t = trim_chars(x);
    t.len() > 0 && !crate::text::contains_char(x, '@') && !crate::text::contains_char(x, '<')
}

/// The pieces of the address list `cs` (see [`pieces`]).
pub fn split_list(cs: &[char]) -> (r: Vec<Vec<char>>)
    ensures
        views(r@) == pieces(cs@),
{
    let segs = split_segments(cs);
    let ghost sv = views(segs@);
    let n = segs.len();
    let mut out: Vec<Vec<char>> = Vec::new();
    let mut k: usize = 0;
    proof {
        assert(sv.subrange(0, 0) =~= Seq::<Seq<char>>::empty());
        assert(views(out@) =~= Seq::<Seq<char>>::empty());
    }
    while k < n
        invariant
            n == segs@.len(),
            sv == views(segs@),
            sv == segments(cs@),
            k <= n,
            views(out@) == grouped(sv.subrange(0, k as int)),
        decreases n - k,
    {
        let g = &segs[k];
        let m = out.len();
        let ghost r = views(out@);
        proof {
            let a = sv.subrange(0, k + 1);
            assert(a.drop_last() =~= sv.subrange(0, k as int));
            assert(a.last() == sv[k as int]);
            assert(g@ == sv[k as int]);
        }
        if m > 0 && is_name_fragment(out[m - 1].as_slice()) && crate::text::contains_char(
            g.as_slice(),
            '<',
        ) {
            let ghost ov = out@;
            let mut last = out.pop().unwrap();
            proof {
                assert(out@ =~= ov.drop_last());
                assert(last@ == r.last());
            }
            last.push(',');
            push_all(&mut last, g.as_slice());
            proof {
                assert(last@ =~= r.last() + seq![','] + g@);
            }
            out.push(last);
            proof {
                assert forall|j: int| 0 <= j < r.len() implies #[trigger] views(out@)[j]
                    == r.update(r.len() - 1, r.last() + seq![','] + g@)[j] by {
                    if j < r.len() - 1 {
                        assert(out@[j] == ov[j]);
                    }
                }
                assert(views(out@) =~= r.update(r.len() - 1, r.last() + seq![','] + g@));
            }
        } else {
            let copy = crate::text::copy_range(g.as_slice(), 0, g.len());
            proof {
                assert(copy@ =~= g@);
            }
            out.push(copy);
            proof {
                assert(views(out@) =~= r.push(g@));
            }
        }
        k += 1;
    }
    proof {
        assert(sv.subrange(0, n as int) =~= sv);
    }
    out
}

impl std::str::FromStr for Address {
    type Err = std::convert::Infallible;

    /// Parse an address from a string like `"Name <addr>"` or `"addr"`.
    /// Never fails — returns an empty `Address` for blank input.
    fn from_str(s: &str) -> (r: Result<Self, Self::Err>)
        ensures
            r matches Ok(a) && a@ == parse_address(s@),
    {
        Ok(Address::parse(s))
    }
}

// ────────────────────────────── address book ────────────────────────────────

/// Whether some entry of `entries` has header form `f`.
pub open spec fn has_full_form(entries: Seq<AddressView>, f: Seq<char>) -> bool {
    exists|k: int| 0 <= k < entries.len() && full_form(entries[k]) == f
}

/// The book after harvesting `addrs` in order: an address is appended when
/// its header form is non-empty and not already in the book.
pub open spec fn harvest_spec(entries: Seq<AddressView>, addrs: Seq<AddressView>) -> Seq<
    AddressView,
>
    decreases addrs.len(),
{
    if addrs.len() == 0 {
        entries
    } else {
        let e = harvest_spec(entries, addrs.drop_last());
        let a = addrs.last();
        if full_form(a).len() == 0 || has_full_form(e, full_form(a)) {
            e
        } else {
            e.push(a)
        }
    }
}

/// The entries whose header form contains `q` once lower-cased.
pub open spec fn matching(entries: Seq<AddressView>, q: Seq<char>) -> Seq<AddressView>
    decreases entries.len(),
{
    if entries.len() == 0 {
        seq![]
    } else {
        let r = matching(entries.drop_last(), q);
        if contains_seq(lowercase(entries.last().name), q) || contains_seq(
            lowercase(entries.last().addr),
            q,
        ) {
            r.push(entries.last())
        } else {
            r
        }
    }
}

/// Result of a search: nothing for an empty query, otherwise the entries,
/// in book order, whose lower-cased name or lower-cased address contains
/// the lower-cased query.
pub open spec fn search_spec(entries: Seq<AddressView>, query: Seq<char>) -> Seq<AddressView> {
    if query.len() == 0 {
        seq![]
    } else {
        matching(entries, lowercase(query))
    }
}

proof fn lemma_matching(entries: Seq<AddressView>, q: Seq<char>)
    ensures
        forall|k: int|
            0 <= k < entries.len() && (contains_seq(lowercase(#[trigger] entries[k].name), q)
                || contains_seq(lowercase(entries[k].addr), q)) ==> matching(entries, q).contains(
                entries[k],
            ),
        forall|j: int|
            0 <= j < matching(entries, q).len() ==> entries.contains(
                #[trigger] matching(entries, q)[j],
            ) && (contains_seq(lowercase(matching(entries, q)[j].name), q) || contains_seq(
                lowercase(matching(entries, q)[j].addr),
                q,
            )),
    decreases entries.len(),
{
    if entries.len() > 0 {
        let d = entries.drop_last();
        lemma_matching(d, q);
        let r = matching(d, q);
        let x = entries.last();
        assert forall|k: int|
            0 <= k < entries.len() && (contains_seq(lowercase(#[trigger] entries[k].name), q)
                || contains_seq(lowercase(entries[k].addr), q)) implies matching(
            entries,
            q,
        ).contains(entries[k]) by {
            if k < entries.len() - 1 {
                assert(d[k] == entries[k]);
                assert(d[k].name == entries[k].name);
                assert(r.contains(d[k]));
                let i = choose|i: int| 0 <= i < r.len() && r[i] == d[k];
                if contains_seq(lowercase(x.name), q) || contains_seq(lowercase(x.addr), q) {
                    assert(r.push(x)[i] == entries[k]);
                }
            } else {
                assert(entries[k] == x);
                assert(r.push(x)[r.len() as int] == x);
            }
        }
        assert forall|j: int| 0 <= j < matching(entries, q).len() implies entries.contains(
            #[trigger] matching(entries, q)[j],
        ) && (contains_seq(lowercase(matching(entries, q)[j].name), q) || contains_seq(
            lowercase(matching(entries, q)[j].addr),
            q,
        )) by {
            let g = matching(entries, q)[j];
            if j < r.len() {
                if contains_seq(lowercase(x.name), q) || contains_seq(lowercase(x.addr), q) {
                    assert(r.push(x)[j] == r[j]);
                }
                assert(g == r[j]);
                let k = choose|k: int| 0 <= k < d.len() && d[k] == r[j];
                assert(entries[k] == d[k]);
            } else {
                assert(g == x);
                assert(entries[entries.len() - 1] == x);
            }
        }
    }
}

/// Searching the book: nothing for an empty query; otherwise every entry
/// whose lower-cased display name, or lower-cased address, holds the
/// lower-cased query at some position is found, and everything found is an
/// entry of the book that does.
pub proof fn lemma_search(entries: Seq<AddressView>, query: Seq<char>, k: int, i: int)
    ensures
        query.len() == 0 ==> search_spec(entries, query).len() == 0,
        query.len() > 0 && 0 <= k < entries.len() && (occurs_at(
            lowercase(entries[k].name),
            lowercase(query),
            i,
        ) || occurs_at(lowercase(entries[k].addr), lowercase(query), i)) ==> search_spec(
            entries,
            query,
        ).contains(entries[k]),
        forall|j: int|
            0 <= j < search_spec(entries, query).len() ==> entries.contains(
                #[trigger] search_spec(entries, query)[j],
            ) && exists|n: int|
                occurs_at(lowercase(search_spec(entries, query)[j].name), lowercase(query), n)
                    || occurs_at(lowercase(search_spec(entries, query)[j].addr), lowercase(query), n),
{
    if query.len() > 0 {
        let q = lowercase(query);
        lemma_matching(entries, q);
        if 0 <= k < entries.len() && (occurs_at(lowercase(entries[k].name), q, i) || occurs_at(
            lowercase(entries[k].addr),
            q,
            i,
        )) {
            assert(contains_seq(lowercase(entries[k].name), q) || contains_seq(
                lowercase(entries[k].addr),
                q,
            ));
        }
        assert forall|j: int| 0 <= j < search_spec(entries, query).len() implies entries.contains(
            #[trigger] search_spec(entries, query)[j],
        ) && exists|n: int|
            occurs_at(lowercase(search_spec(entries, query)[j].name), q, n) || occurs_at(
                lowercase(search_spec(entries, query)[j].addr),
                q,
                n,
            ) by {
            let g = matching(entries, q)[j];
            if contains_seq(lowercase(g.name), q) {
                let n = choose|n: int| occurs_at(lowercase(g.name), q, n);
                assert(occurs_at(lowercase(g.name), q, n));
            } else {
                let n = choose|n: int| occurs_at(lowercase(g.addr), q, n);
                assert(occurs_at(lowercase(g.addr), q, n));
            }
        }
    }
}

/// The entries stored in an address book file: one per non-blank line,
/// parsed as an address, kept when its header form is non-empty.
pub open spec fn book_entries(ls: Seq<Seq<char>>) -> Seq<AddressView>
    decreases ls.len(),
{
    if ls.len() == 0 {
        seq![]
    } else {
        let r = book_entries(ls.drop_last());
        let a = parse_address(ls.last());
        if trim(ls.last()).len() > 0 && full_form(a).len() > 0 {
            r.push(a)
        } else {
            r
        }
    }
}

/// The text of an address book file: each entry's header form followed by
/// a newline.
pub open spec fn book_text(entries: Seq<AddressView>) -> Seq<char>
    decreases entries.len(),
{
    if entries.len() == 0 {
        seq![]
    } else {
        book_text(entries.drop_last()) + full_form(entries.last()) + "\n"@
    }
}

/// A persistent address book stored as a plain text file.
pub struct AddressBook {
    entries: Vec<Address>,
    path: String,
}

impl View for AddressBook {
    type V = Seq<AddressView>;

    closed spec fn view(&self) -> Seq<AddressView> {
        address_views(self.entries@)
    }
}

impl Default for AddressBook {
    fn default() -> (r: Self)
        ensures
            r@ == Seq::<AddressView>::empty(),
    {
        let b = AddressBook { entries: Vec::new(), path: String::new() };
        assert(b@ =~= Seq::<AddressView>::empty());
        b
    }
}

impl AddressBook {
    /// The book stored at `path` whose file holds `text`.
    pub fn from_text(path: &str, text: &str) -> (r: Self)
        ensures
            r@ == book_entries(lines(text@)),
            r.path_view() == path@,
    {
        let cs = to_chars(text);
        let ls = split_lines(cs.as_slice());
        let mut entries: Vec<Address> = Vec::new();
        let n = ls.len();
        let mut i: usize = 0;
        assert(views(ls@).subrange(0, 0) =~= Seq::<Seq<char>>::empty());
        assert(address_views(entries@) =~= Seq::<AddressView>::empty());
        while i < n
            invariant
                n == ls@.len(),
                i <= n,
                views(ls@) == lines(cs@),
                address_views(entries@) == book_entries(views(ls@).subrange(0, i as int)),
            decreases n - i,
        {
            let line = ls[i].as_slice();
            let ghost pre = views(ls@).subrange(0, i as int);
            let ghost post = views(ls@).subrange(0, i + 1);
            assert(post.drop_last() =~= pre);
            assert(post.last() == ls@[i as int]@);
            let t = trim_chars(line);
            if t.len() > 0 {
                let a = Address::parse_chars(line);
                let f = a.full_chars();
                if f.len() > 0 {
                    let ghost before = address_views(entries@);
                    entries.push(a);
                    assert(address_views(entries@) =~= before.push(parse_address(line@)));
                }
            }
            i += 1;
        }
        assert(views(ls@).subrange(0, n as int) =~= views(ls@));
        AddressBook { entries, path: path.to_owned() }
    }

    /// The file the book is saved to.
    pub closed spec fn path_view(&self) -> Seq<char> {
        self.path@
    }

    /// The file the book is saved to.
    pub fn path(&self) -> (r: &str)
        ensures
            r@ == self.path_view(),
    {
        self.path.as_str()
    }

    /// The addresses in the book, oldest first.
    pub fn entries(&self) -> (r: &Vec<Address>)
        ensures
            address_views(r@) == self@,
    {
        &self.entries
    }

    /// Add addresses that aren't already in the book (compared by their
    /// header form; blank ones are skipped).  Returns whether the book
    /// changed, that is whether it needs saving.
    pub fn harvest(&mut self, addrs: &[Address]) -> (changed: bool)
        ensures
            final(self)@ == harvest_spec(old(self)@, address_views(addrs@)),
            final(self).path_view() == old(self).path_view(),
            changed == (final(self)@.len() != old(self)@.len()),
    {
        let n = addrs.len();
        let mut i: usize = 0;
        let mut changed = false;
        let ghost orig = self@;
        assert(address_views(addrs@).subrange(0, 0) =~= Seq::<AddressView>::empty());
        while i < n
            invariant
                n == addrs@.len(),
                i <= n,
                self@ == harvest_spec(orig, address_views(addrs@).subrange(0, i as int)),
                self.path_view() == old(self).path_view(),
                orig == old(self)@,
                self@.len() >= orig.len(),
                changed == (self@.len() != orig.len()),
            decreases n - i,
        {
            let a = &addrs[i];
            let ghost pre = address_views(addrs@).subrange(0, i as int);
            let ghost post = address_views(addrs@).subrange(0, i + 1);
            assert(post.drop_last() =~= pre);
            assert(post.last() == a@);
            let f = a.full_chars();
            if f.len() > 0 {
                let known = self.knows(f.as_slice());
                if !known {
                    let ghost before = self@;
                    self.entries.push(a.clone());
                    assert(self@ =~= before.push(a@));
                    changed = true;
                }
            }
            i += 1;
        }
        assert(address_views(addrs@).subrange(0, n as int) =~= address_views(addrs@));
        changed
    }

    /// Whether some entry has header form `f`.
    fn knows(&self, f: &[char]) -> (r: bool)
        ensures
            r == has_full_form(self@, f@),
    {
        let n = self.entries.len();
        let mut k: usize = 0;
        while k < n
            invariant
                n == self@.len(),
                k <= n,
                forall|j: int| 0 <= j < k ==> full_form(self@[j]) != f@,
            decreases n - k,
        {
            let g = self.entries[k].full_chars();
            if chars_eq(g.as_slice(), f) {
                assert(full_form(self@[k as int]) == f@);
                return true;
            }
            k += 1;
        }
        false
    }

    /// Fuzzy search: match addresses where name or email contains the query
    /// (case-insensitive).
    pub fn search(&self, query: &str) -> (r: Vec<&Address>)
        ensures
            Seq::new(r@.len(), |i: int| r@[i]@) == search_spec(self@, query@),
    {
        let mut out: Vec<&Address> = Vec::new();
        if query.is_empty() {
            assert(Seq::new(out@.len(), |i: int| out@[i]@) =~= Seq::<AddressView>::empty());
            return out;
        }
        let ql = to_lowercase(query);
        let q = to_chars(ql.as_str());
        let n = self.entries.len();
        let mut k: usize = 0;
        assert(self@.subrange(0, 0) =~= Seq::<AddressView>::empty());
        assert(Seq::new(out@.len(), |i: int| out@[i]@) =~= Seq::<AddressView>::empty());
        while k < n
            invariant
                n == self@.len(),
                k <= n,
                q@ == lowercase(query@),
                Seq::new(out@.len(), |i: int| out@[i]@) == matching(
                    self@.subrange(0, k as int),
                    q@,
                ),
            decreases n - k,
        {
            let e = &self.entries[k];
            let ghost pre = self@.subrange(0, k as int);
            let ghost post = self@.subrange(0, k + 1);
            assert(post.drop_last() =~= pre);
            assert(post.last() == e@);
            let nl = to_lowercase(e.name.as_str());
            let nc = to_chars(nl.as_str());
            let al = to_lowercase(e.addr.as_str());
            let ac = to_chars(al.as_str());
            if contains_str(nc.as_slice(), q.as_slice()) || contains_str(ac.as_slice(), q.as_slice()) {
                let ghost before = Seq::new(out@.len(), |i: int| out@[i]@);
                out.push(e);
                assert(Seq::new(out@.len(), |i: int| out@[i]@) =~= before.push(e@));
            }
            k += 1;
        }
        assert(self@.subrange(0, n as int) =~= self@);
        out
    }

    /// The text the book is saved as: one header form per line.
    pub fn to_text(&self) -> (r: String)
        ensures
            r@ == book_text(self@),
    {
        let mut out: Vec<char> = Vec::new();
        let n = self.entries.len();
        let mut k: usize = 0;
        assert(self@.subrange(0, 0) =~= Seq::<AddressView>::empty());
        while k < n
            invariant
                n == self@.len(),
                k <= n,
                out@ == book_text(self@.subrange(0, k as int)),
            decreases n - k,
        {
            let ghost pre = self@.subrange(0, k as int);
            let ghost post = self@.subrange(0, k + 1);
            assert(post.drop_last() =~= pre);
            let f = self.entries[k].full_chars();
            push_all(&mut out, f.as_slice());
            push_str(&mut out, "\n");
            assert(out@ =~= book_text(pre) + full_form(post.last()) + "\n"@);
            k += 1;
        }
        assert(self@.subrange(0, n as int) =~= self@);
        string_from(out.as_slice())
    }
}

/// The characters `cs[from..to]` (a borrowed view).
fn slice_range(cs: &[char], from: usize, to: usize) -> (r: &[char])
    requires
        from <= to <= cs@.len(),
    ensures
        r@ == cs@.subrange(from as int, to as int),
{
    vstd::slice::slice_subrange(cs, from, to)
}

// ──────────────────────────────── laws ──────────────────────────────────────

/// Harvesting keeps every entry already in the book, in place.
pub proof fn lemma_harvest_extends(entries: Seq<AddressView>, addrs: Seq<AddressView>)
    ensures
        harvest_spec(entries, addrs).len() >= entries.len(),
        harvest_spec(entries, addrs).subrange(0, entries.len() as int) == entries,
    decreases addrs.len(),
{
    if addrs.len() > 0 {
        lemma_harvest_extends(entries, addrs.drop_last());
        let e = harvest_spec(entries, addrs.drop_last());
        assert(e.push(addrs.last()).subrange(0, entries.len() as int) =~= e.subrange(
            0,
            entries.len() as int,
        ));
    }
}

/// After harvesting, the book holds the header form of every harvested
/// address that has one.
pub proof fn lemma_harvest_holds(entries: Seq<AddressView>, addrs: Seq<AddressView>, i: int)
    requires
        0 <= i < addrs.len(),
        full_form(addrs[i]).len() > 0,
    ensures
        has_full_form(harvest_spec(entries, addrs), full_form(addrs[i])),
    decreases addrs.len(),
{
    let e = harvest_spec(entries, addrs.drop_last());
    let a = addrs.last();
    if i < addrs.len() - 1 {
        assert(addrs.drop_last()[i] == addrs[i]);
        lemma_harvest_holds(entries, addrs.drop_last(), i);
        if !(full_form(a).len() == 0 || has_full_form(e, full_form(a))) {
            let k = choose|k: int| 0 <= k < e.len() && full_form(e[k]) == full_form(addrs[i]);
            assert(e.push(a)[k] == e[k]);
        }
    } else {
        if !has_full_form(e, full_form(a)) {
            assert(e.push(a)[e.len() as int] == a);
        }
    }
}

/// Harvesting addresses that are all in the book (or have no header form)
/// changes nothing.
proof fn lemma_harvest_known(entries: Seq<AddressView>, addrs: Seq<AddressView>)
    requires
        forall|i: int|
            0 <= i < addrs.len() ==> full_form(#[trigger] addrs[i]).len() == 0 || has_full_form(
                entries,
                full_form(addrs[i]),
            ),
    ensures
        harvest_spec(entries, addrs) == entries,
    decreases addrs.len(),
{
    if addrs.len() > 0 {
        assert forall|i: int| 0 <= i < addrs.drop_last().len() implies full_form(
            #[trigger] addrs.drop_last()[i],
        ).len() == 0 || has_full_form(entries, full_form(addrs.drop_last()[i])) by {
            assert(addrs.drop_last()[i] == addrs[i]);
        }
        lemma_harvest_known(entries, addrs.drop_last());
        assert(full_form(addrs[addrs.len() - 1]).len() == 0 || has_full_form(
            entries,
            full_form(addrs[addrs.len() - 1]),
        ));
    }
}

/// Harvesting the same addresses again adds nothing: harvesting is
/// idempotent.
pub proof fn lemma_harvest_idempotent(entries: Seq<AddressView>, addrs: Seq<AddressView>)
    ensures
        harvest_spec(harvest_spec(entries, addrs), addrs) == harvest_spec(entries, addrs),
{
    let h = harvest_spec(entries, addrs);
    assert forall|i: int| 0 <= i < addrs.len() implies full_form(#[trigger] addrs[i]).len() == 0
        || has_full_form(h, full_form(addrs[i])) by {
        if full_form(addrs[i]).len() > 0 {
            lemma_harvest_holds(entries, addrs, i);
        }
    }
    lemma_harvest_known(h, addrs);
}

/// Whether `s` has no whitespace at either end.
pub open spec fn is_trimmed(s: Seq<char>) -> bool {
    s.len() == 0 || (!is_ws(s[0]) && !is_ws(s.last()))
}

/// A text without whitespace at either end is its own trimmed form.
pub(crate) proof fn lemma_trim_trimmed(s: Seq<char>)
    requires
        is_trimmed(s),
    ensures
        trim(s) == s,
{
    if s.len() > 0 {
        assert(trim_start(s) == s);
        assert(trim_end(s) == s);
    }
}

/// Trailing spaces do not survive trimming.
proof fn lemma_trim_space(s: Seq<char>)
    requires
        is_trimmed(s),
        s.len() > 0,
    ensures
        trim(s.push(' ')) == s,
{
    let t = s.push(' ');
    assert(t[0] == s[0]);
    assert(trim_start(t) == t);
    assert(is_ws(' '));
    assert(t.drop_last() =~= s);
    assert(trim_end(t) == trim_end(s));
    assert(trim_end(s) == s);
}

/// An address whose parts have no whitespace at either end, whose name
/// holds no `<` and whose address holds no angle bracket reads back from
/// its header form (`Name <addr>`, or the bare address).
pub proof fn lemma_parse_full_form(a: AddressView)
    requires
        is_trimmed(a.name),
        is_trimmed(a.addr),
        !a.name.contains('<'),
        !a.addr.contains('<'),
        !a.addr.contains('>'),
    ensures
        parse_address(full_form(a)) == a,
{
    reveal_strlit(" <");
    reveal_strlit(">");
    let f = full_form(a);
    if a.name.len() == 0 {
        assert(a.name =~= Seq::<char>::empty());
        lemma_trim_trimmed(a.addr);
        if a.addr.len() > 0 {
            assert forall|i: int| 0 <= i < a.addr.len() implies a.addr[i] != '<' by {
                if a.addr[i] == '<' {
                    assert(a.addr.contains('<'));
                }
            }
            lemma_find_char(a.addr, '<', a.addr.len() as int);
        } else {
            assert(a.addr =~= Seq::<char>::empty());
        }
    } else {
        let n = a.name.len() as int;
        let m = a.addr.len() as int;
        assert(f =~= a.name + seq![' ', '<'] + a.addr + seq!['>']);
        assert(f[0] == a.name[0]);
        assert(f.last() == '>');
        assert(is_trimmed(f));
        lemma_trim_trimmed(f);
        assert forall|i: int| 0 <= i < n + 1 implies f[i] != '<' by {
            if i < n {
                assert(f[i] == a.name[i]);
                if a.name[i] == '<' {
                    assert(a.name.contains('<'));
                }
            }
        }
        lemma_find_char(f, '<', n + 1);
        let rest = f.subrange(n + 1, f.len() as int);
        assert(rest =~= seq!['<'] + a.addr + seq!['>']);
        assert forall|i: int| 0 <= i < m + 1 implies rest[i] != '>' by {
            if i > 0 {
                assert(rest[i] == a.addr[i - 1]);
                if a.addr[i - 1] == '>' {
                    assert(a.addr.contains('>'));
                }
            }
        }
        lemma_find_char(rest, '>', m + 1);
        assert(f.subrange(0, n + 1) =~= a.name.push(' '));
        lemma_trim_space(a.name);
        assert(f.subrange(n + 2, n + 1 + m + 1) =~= a.addr);
        lemma_trim_trimmed(a.addr);
    }
}

/// Whether an address is stored as its header form and read back as
/// itself: its parts have no whitespace at either end, its name holds no
/// `<`, its address no angle bracket, and its header form is a non-empty
/// single line.
pub open spec fn storable(a: AddressView) -> bool {
    &&& is_trimmed(a.name)
    &&& is_trimmed(a.addr)
    &&& !a.name.contains('<')
    &&& !a.addr.contains('<')
    &&& !a.addr.contains('>')
    &&& full_form(a).len() > 0
    &&& !full_form(a).contains('\n')
}

/// The header form of a storable address has no whitespace at either end.
proof fn lemma_full_form_trimmed(a: AddressView)
    requires
        storable(a),
    ensures
        is_trimmed(full_form(a)),
{
    reveal_strlit(" <");
    reveal_strlit(">");
    if a.name.len() > 0 {
        let f = full_form(a);
        assert(f =~= a.name + seq![' ', '<'] + a.addr + seq!['>']);
        assert(f[0] == a.name[0]);
        assert(f.last() == '>');
    }
}

/// Loading the text an address book is saved as gives back its entries,
/// when every entry is storable.
pub proof fn lemma_book_roundtrip(entries: Seq<AddressView>)
    requires
        forall|i: int| 0 <= i < entries.len() ==> storable(#[trigger] entries[i]),
    ensures
        book_entries(lines(book_text(entries))) == entries,
    decreases entries.len(),
{
    reveal_strlit("\n");
    if entries.len() > 0 {
        let init = entries.drop_last();
        let e = entries.last();
        assert forall|i: int| 0 <= i < init.len() implies storable(#[trigger] init[i]) by {
            assert(init[i] == entries[i]);
        }
        lemma_book_roundtrip(init);
        let f = full_form(e);
        let front = book_text(init);
        assert(book_text(entries) == front + f + "\n"@);
        assert(front + f + "\n"@ =~= front + f.push('\n'));
        if front.len() > 0 {
            assert(init.len() > 0);
            assert(front.last() == '\n');
        }
        lemma_lines_concat(front, f.push('\n'));
        lemma_lines_one(f);
        lemma_full_form_trimmed(e);
        assert(is_ws('\r'));
        assert(strip_cr(f) == f);
        let ls = lines(book_text(entries));
        assert(ls =~= lines(front).push(f));
        assert(ls.drop_last() =~= lines(front));
        lemma_trim_trimmed(f);
        lemma_parse_full_form(e);
    }
}


// ─────────────────────────── lists read back ───────────────────────────────

/// An address that a list of header forms gives back: both parts without
/// whitespace at either end, neither holding a comma or an angle bracket,
/// and not both empty.
pub open spec fn listable(a: AddressView) -> bool {
    &&& is_trimmed(a.name)
    &&& is_trimmed(a.addr)
    &&& !a.name.contains(',') && !a.name.contains('<') && !a.name.contains('>')
    &&& !a.addr.contains(',') && !a.addr.contains('<') && !a.addr.contains('>')
    &&& (a.name.len() > 0 || a.addr.len() > 0)
}

/// The segments of the list `join_full(v)`: the first header form, then
/// every other one after the space that follows its comma.
pub open spec fn list_segments(v: Seq<AddressView>) -> Seq<Seq<char>> {
    Seq::new(
        v.len(),
        |i: int|
            if i == 0 {
                full_form(v[i])
            } else {
                seq![' '] + full_form(v[i])
            },
    )
}

proof fn lemma_full_form_facts(a: AddressView)
    requires
        listable(a),
    ensures
        !full_form(a).contains(','),
        full_form(a).contains('<') == (a.name.len() > 0),
        a.addr.contains('@') ==> full_form(a).contains('@'),
        depth_after(0, full_form(a)) == 0,
        full_form(a).len() > 0,
        is_trimmed(full_form(a)),
{
    reveal_strlit(" <");
    reveal_strlit(">");
    let f = full_form(a);
    if a.name.len() == 0 {
        lemma_depth_flat(0, a.addr);
        if a.addr.contains('@') {
            assert(f == a.addr);
        }
    } else {
        let lt: Seq<char> = " <"@;
        let gt: Seq<char> = ">"@;
        assert(f =~= a.name + lt + a.addr + gt);
        assert forall|i: int| 0 <= i < f.len() implies f[i] != ',' by {
            if i < a.name.len() {
                assert(f[i] == a.name[i]);
            } else if i >= a.name.len() + 2 && i < a.name.len() + 2 + a.addr.len() {
                assert(f[i] == a.addr[i - a.name.len() - 2]);
            }
        }
        assert(f[a.name.len() as int + 1] == '<');
        if a.addr.contains('@') {
            let j = choose|j: int| 0 <= j < a.addr.len() && a.addr[j] == '@';
            assert(f[a.name.len() as int + 2 + j] == '@');
        }
        lemma_depth_flat(0, a.name);
        lemma_depth_after_concat(0, a.name, lt);
        assert(lt.drop_last() =~= seq![' ']);
        let e = Seq::<char>::empty();
        assert(seq![' '].drop_last() =~= e);
        assert(depth_after(0, e) == 0);
        assert(seq![' '].last() == ' ');
        assert(depth_after(0, seq![' ']) == 0);
        assert(lt.last() == '<');
        assert(depth_after(0, lt) == 1);
        lemma_depth_after_concat(0, a.name + lt, a.addr);
        lemma_depth_flat(1, a.addr);
        lemma_depth_after_concat(0, a.name + lt + a.addr, gt);
        assert(gt.drop_last() =~= e);
        assert(depth_after(1, e) == 1);
        assert(gt.last() == '>');
        assert(depth_after(1, gt) == 0);
        assert(f[0] == a.name[0]);
        assert(f.last() == '>');
    }
}

proof fn lemma_join_full_segments(v: Seq<AddressView>)
    requires
        v.len() > 0,
        forall|i: int| 0 <= i < v.len() ==> listable(#[trigger] v[i]),
    ensures
        segments(join_full(v)) == list_segments(v),
        depth_before(join_full(v), join_full(v).len() as int) == 0,
    decreases v.len(),
{
    reveal_strlit(", ");
    let f = full_form(v.last());
    lemma_full_form_facts(v.last());
    let e = Seq::<char>::empty();
    if v.len() == 1 {
        lemma_segments_extend(e, f);
        assert(e + f =~= f);
        assert(segments(e) == seq![e]);
        assert(e + f =~= f);
        assert(list_segments(v) =~= seq![e].update(0, e + f));
        lemma_depth_concat(e, f);
        assert(depth_before(e, 0) == 0);
    } else {
        let w = v.drop_last();
        assert forall|i: int| 0 <= i < w.len() implies listable(#[trigger] w[i]) by {
            assert(w[i] == v[i]);
        }
        lemma_join_full_segments(w);
        let j = join_full(w);
        let sf = seq![' '] + f;
        assert(join_full(v) =~= j.push(',') + sf);
        lemma_segments_comma(j);
        assert(!sf.contains(',')) by {
            assert forall|i: int| 0 <= i < sf.len() implies sf[i] != ',' by {
                if i > 0 {
                    assert(sf[i] == f[i - 1]);
                }
            }
        }
        lemma_segments_extend(j.push(','), sf);
        let g = segments(j).push(e);
        assert(g.last() + sf =~= sf);
        assert(list_segments(v) =~= list_segments(w).push(sf));
        assert(g.update(g.len() - 1, sf) =~= list_segments(w).push(sf));
        lemma_depth_concat(j, seq![','] + sf);
        assert(j + (seq![','] + sf) =~= join_full(v));
        lemma_depth_after_concat(0, seq![',', ' '], f);
        assert(seq![','] + sf =~= seq![',', ' '] + f);
        assert(seq![',', ' '].drop_last() =~= seq![',']);
        assert(seq![','].drop_last() =~= e);
        assert(depth_after(0, e) == 0);
        assert(seq![','].last() == ',');
        assert(depth_after(0, seq![',']) == 0);
        assert(seq![',', ' '].last() == ' ');
        assert(depth_after(0, seq![',', ' ']) == 0);
    }
}

proof fn lemma_grouped_plain(gs: Seq<Seq<char>>)
    requires
        forall|i: int|
            1 <= i < gs.len() ==> !(name_fragment(#[trigger] gs[i - 1]) && gs[i].contains('<')),
    ensures
        grouped(gs) == gs,
    decreases gs.len(),
{
    if gs.len() > 0 {
        let d = gs.drop_last();
        assert forall|i: int| 1 <= i < d.len() implies !(name_fragment(#[trigger] d[i - 1])
            && d[i].contains('<')) by {
            assert(d[i - 1] == gs[i - 1]);
            assert(d[i] == gs[i]);
        }
        lemma_grouped_plain(d);
        if gs.len() > 1 {
            assert(d.last() == gs[gs.len() - 2]);
            assert(gs.last() == gs[gs.len() - 1]);
        }
        assert(d.push(gs.last()) =~= gs);
    }
}

proof fn lemma_list_addresses(v: Seq<AddressView>)
    requires
        forall|i: int| 0 <= i < v.len() ==> listable(#[trigger] v[i]),
    ensures
        addresses_of(list_segments(v)) == v,
    decreases v.len(),
{
    if v.len() > 0 {
        let w = v.drop_last();
        assert forall|i: int| 0 <= i < w.len() implies listable(#[trigger] w[i]) by {
            assert(w[i] == v[i]);
        }
        lemma_list_addresses(w);
        assert(list_segments(v).drop_last() =~= list_segments(w));
        let a = v.last();
        let f = full_form(a);
        lemma_full_form_facts(a);
        lemma_trim_trimmed(f);
        let g = list_segments(v).last();
        assert(trim(g) == f) by {
            if v.len() > 1 {
                let sf = seq![' '] + f;
                assert(g == sf);
                assert(crate::text::is_ws(' '));
                assert(sf.subrange(1, sf.len() as int) =~= f);
                assert(trim_start(sf) == trim_start(f));
            }
        }
        lemma_parse_full_form(a);
        assert(v =~= w.push(a));
    }
}

/// A list written as the header forms of its addresses, separated by
/// `, `, reads back as those addresses, when each part is trimmed and
/// holds no comma or angle bracket, and no name-less address without an
/// `@` comes just before a named one (that pair reads as one display name
/// holding a comma).
pub proof fn lemma_list_roundtrip(v: Seq<AddressView>)
    requires
        forall|i: int| 0 <= i < v.len() ==> listable(#[trigger] v[i]),
        forall|i: int|
            0 <= i < v.len() - 1 ==> !((#[trigger] v[i]).name.len() == 0 && !v[i].addr.contains(
                '@',
            ) && v[i + 1].name.len() > 0),
    ensures
        parse_list_spec(join_full(v)) == v,
{
    let e = Seq::<char>::empty();
    if v.len() == 0 {
        assert(segments(e) == seq![e]);
        assert(seq![e].drop_last() =~= Seq::<Seq<char>>::empty());
        assert(grouped(Seq::<Seq<char>>::empty()) == Seq::<Seq<char>>::empty());
        assert(grouped(seq![e]) =~= seq![e]);
        assert(trim(e) =~= e);
        assert(addresses_of(Seq::<Seq<char>>::empty()) == Seq::<AddressView>::empty());
        assert(addresses_of(seq![e]) =~= v);
    } else {
        lemma_join_full_segments(v);
        let gs = list_segments(v);
        assert forall|i: int|
            1 <= i < gs.len() implies !(name_fragment(#[trigger] gs[i - 1]) && gs[i].contains(
                '<',
            )) by {
            let a = v[i - 1];
            let b = v[i];
            lemma_full_form_facts(a);
            lemma_full_form_facts(b);
            let fa = full_form(a);
            let fb = full_form(b);
            let ga = gs[i - 1];
            let gb = gs[i];
            assert(gb == seq![' '] + fb);
            assert(gb.contains('<') ==> fb.contains('<')) by {
                if gb.contains('<') {
                    let j = choose|j: int| 0 <= j < gb.len() && gb[j] == '<';
                    assert(j > 0);
                    assert(fb[j - 1] == '<');
                }
            }
            assert(fa.contains('<') ==> ga.contains('<')) by {
                if fa.contains('<') {
                    let j = choose|j: int| 0 <= j < fa.len() && fa[j] == '<';
                    if i - 1 > 0 {
                        assert(ga[j + 1] == '<');
                    }
                }
            }
            assert(fa.contains('@') ==> ga.contains('@')) by {
                if fa.contains('@') {
                    let j = choose|j: int| 0 <= j < fa.len() && fa[j] == '@';
                    if i - 1 > 0 {
                        assert(ga[j + 1] == '@');
                    }
                }
            }
        }
        lemma_grouped_plain(gs);
        lemma_list_addresses(v);
    }
}

} // verus!

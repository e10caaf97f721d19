//! Fixed-width text for the list columns, and recipient lists for replies.
use crate::address::{pieces, split_list};
use crate::text::{
    contains_char, find_char, push_all, string_from, to_chars, trim, trim_chars, views,
};
use vstd::prelude::*;

verus! {

/// `n` spaces.
pub open spec fn spaces(n: nat) -> Seq<char> {
    Seq::new(n, |i: int| ' ')
}

/// `s` fitted into exactly `width` characters: padded with spaces when
/// shorter, cut with a final `…` when longer.
pub open spec fn fitted(s: Seq<char>, width: nat) -> Seq<char> {
    if width == 0 {
        seq![]
    } else if s.len() <= width {
        s + spaces((width - s.len()) as nat)
    } else {
        s.subrange(0, width - 1).push('…')
    }
}

/// `s` cut to at most `max` characters, the last one replaced by `…` when
/// something was cut (nothing is left when `max` is 0).
pub open spec fn truncated(s: Seq<char>, max: nat) -> Seq<char> {
    if s.len() <= max {
        s
    } else if max == 0 {
        seq![]
    } else {
        s.subrange(0, max - 1).push('…')
    }
}

/// Fit a string into exactly `width` chars: pad with spaces if shorter, or
/// truncate with `…` if longer.
pub fn fit_string(s: &str, width: usize) -> (r: String)
    ensures
        r@ == fitted(s@, width as nat),
{
    if width == 0 {
        return String::new();
    }
    let cs = to_chars(s);
    let n = cs.len();
    if n <= width {
        let mut out = cs;
        let mut k: usize = n;
        while k < width
            invariant
                n <= k <= width,
                n == s@.len(),
                out@ == s@ + spaces((k - n) as nat),
            decreases width - k,
        {
            out.push(' ');
            assert(out@ =~= s@ + spaces((k + 1 - n) as nat));
            k += 1;
        }
        string_from(out.as_slice())
    } else {
        let mut out = crate::text::copy_range(cs.as_slice(), 0, width - 1);
        out.push('…');
        string_from(out.as_slice())
    }
}

/// Truncate a string to a certain length, adding '…' char if it overbounds.
pub fn truncate_string(s: &str, max: usize) -> (r: String)
    ensures
        r@ == truncated(s@, max as nat),
        r@.len() <= max,
{
    let cs = to_chars(s);
    if cs.len() <= max {
        return string_from(cs.as_slice());
    }
    if max == 0 {
        return String::new();
    }
    let mut out = crate::text::copy_range(cs.as_slice(), 0, max - 1);
    out.push('…');
    string_from(out.as_slice())
}

// ─────────────────────────────── recipients ─────────────────────────────────

/// The bare address inside `s`: the trimmed text between the first `<` and
/// the first `>` after it, otherwise the trimmed text; `None` when it holds
/// no `@`.
pub open spec fn bare_address_spec(s: Seq<char>) -> Option<Seq<char>> {
    let start = find_char(s, '<');
    let rest = s.subrange(start, s.len() as int);
    let end = find_char(rest, '>');
    let addr = if start < s.len() && end < rest.len() {
        trim(s.subrange(start + 1, start + end))
    } else {
        trim(s)
    };
    if addr.contains('@') {
        Some(addr)
    } else {
        None
    }
}

/// `c` in ASCII lower case.
pub open spec fn ascii_lower(c: char) -> char {
    if 'A' <= c && c <= 'Z' {
        ((c as u32) + 32) as char
    } else {
        c
    }
}

/// Whether `a` and `b` are equal up to ASCII case (std's
/// `str::eq_ignore_ascii_case`).
pub open spec fn eq_ignore_ascii_case(a: Seq<char>, b: Seq<char>) -> bool {
    a.len() == b.len() && forall|i: int|
        0 <= i < a.len() ==> ascii_lower(#[trigger] a[i]) == ascii_lower(b[i])
}

/// The trimmed non-blank pieces of a comma-separated list (commas inside
/// angle brackets do not split).
pub open spec fn tokens(ps: Seq<Seq<char>>) -> Seq<Seq<char>>
    decreases ps.len(),
{
    if ps.len() == 0 {
        seq![]
    } else {
        let r = tokens(ps.drop_last());
        let t = trim(ps.last());
        if t.len() > 0 {
            r.push(t)
        } else {
            r
        }
    }
}

/// The recipients kept from the tokens `ts`: a token with a bare address
/// other than `own` (compared up to ASCII case) stays, as written when it
/// holds a `<`, as its bare address otherwise.
pub open spec fn kept_recipients(ts: Seq<Seq<char>>, own: Seq<char>) -> Seq<Seq<char>>
    decreases ts.len(),
{
    if ts.len() == 0 {
        seq![]
    } else {
        let r = kept_recipients(ts.drop_last(), own);
        let t = ts.last();
        match bare_address_spec(t) {
            None => r,
            Some(b) => if eq_ignore_ascii_case(b, own) {
                r
            } else if t.contains('<') {
                r.push(t)
            } else {
                r.push(b)
            },
        }
    }
}

/// The recipients of the comma-separated list `list` other than `own`.
pub open spec fn full_addresses_spec(list: Seq<char>, own: Seq<char>) -> Seq<Seq<char>> {
    kept_recipients(tokens(pieces(list)), own)
}

fn ascii_lower_exec(c: char) -> (r: char)
    ensures
        r == ascii_lower(c),
{
    if 'A' <= c && c <= 'Z' {
        let u = (c as u32) + 32;
        proof {
            assert(u == (c as u32) + 32);
        }
        if u <= 0x7f {
            let b = u as u8;
            let r = b as char;
            assert(r == ((c as u32) + 32) as char);
            r
        } else {
            c
        }
    } else {
        c
    }
}

/// `str::eq_ignore_ascii_case` on characters.
pub fn chars_eq_ignore_ascii_case(a: &[char], b: &[char]) -> (r: bool)
    ensures
        r == eq_ignore_ascii_case(a@, b@),
{
    if a.len() != b.len() {
        return false;
    }
    let n = a.len();
    let mut i: usize = 0;
    while i < n
        invariant
            n == a@.len(),
            n == b@.len(),
            i <= n,
            forall|j: int| 0 <= j < i ==> ascii_lower(#[trigger] a@[j]) == ascii_lower(b@[j]),
        decreases n - i,
    {
        if ascii_lower_exec(a[i]) != ascii_lower_exec(b[i]) {
            return false;
        }
        i += 1;
    }
    true
}

/// Return the bare address inside `s` (see [`bare_address_spec`]).
pub fn bare_address(s: &str) -> (r: Option<String>)
    ensures
        match r {
            Some(a) => bare_address_spec(s@) == Some(a@),
            None => bare_address_spec(s@) is None,
        },
{
    let cs = to_chars(s);
    match bare_address_chars(cs.as_slice()) {
        Some(a) => Some(string_from(a.as_slice())),
        None => None,
    }
}

fn bare_address_chars(s: &[char]) -> (r: Option<Vec<char>>)
    ensures
        match r {
            Some(a) => bare_address_spec(s@) == Some(a@),
            None => bare_address_spec(s@) is None,
        },
{
    let n = s.len();
    let start = crate::text::find_from(s, 0, '<');
    assert(s@.subrange(0, n as int) =~= s@);
    let addr = if start < n {
        let end_abs = crate::text::find_from(s, start, '>');
        if end_abs < n {
            let inner = crate::text::copy_range(s, start + 1, end_abs);
            trim_chars(inner.as_slice())
        } else {
            trim_chars(s)
        }
    } else {
        trim_chars(s)
    };
    if contains_char(addr.as_slice(), '@') {
        Some(addr)
    } else {
        None
    }
}

/// Return the addresses from a comma-separated list as display strings.
///
/// Each entry is kept as `"Name <addr>"` when a display name is present,
/// or falls back to the bare `addr` otherwise.
/// Entries whose bare address matches `self_addr` are excluded.
pub fn full_addresses(list: &str, self_addr: &str) -> (r: Vec<String>)
    ensures
        crate::text::string_views(r@) == full_addresses_spec(list@, self_addr@),
{
    let cs = to_chars(list);
    let own = to_chars(self_addr);
    let ps = split_list(cs.as_slice());
    let ghost pv = views(ps@);
    let n = ps.len();
    let mut out: Vec<String> = Vec::new();
    let mut k: usize = 0;
    proof {
        assert(pv.subrange(0, 0) =~= Seq::<Seq<char>>::empty());
        assert(crate::text::string_views(out@) =~= Seq::<Seq<char>>::empty());
    }
    while k < n
        invariant
            n == ps@.len(),
            pv == views(ps@),
            pv == pieces(list@),
            own@ == self_addr@,
            k <= n,
            crate::text::string_views(out@) == kept_recipients(
                tokens(pv.subrange(0, k as int)),
                self_addr@,
            ),
        decreases n - k,
    {
        proof {
            assert(pv.subrange(0, k + 1) =~= pv.subrange(0, k as int).push(pv[k as int]));
        }
        keep_token(&mut out, ps[k].as_slice(), own.as_slice(), Ghost(pv.subrange(0, k as int)));
        k += 1;
    }
    proof {
        assert(pv.subrange(0, n as int) =~= pv);
    }
    out
}

/// Appends the recipient of the piece `piece` (if kept) to `out`.
fn keep_token(out: &mut Vec<String>, piece: &[char], own: &[char], Ghost(before): Ghost<Seq<Seq<char>>>)
    requires
        crate::text::string_views(old(out)@) == kept_recipients(tokens(before), own@),
    ensures
        crate::text::string_views(final(out)@) == kept_recipients(
            tokens(before.push(piece@)),
            own@,
        ),
{
    let t = trim_chars(piece);
    let ghost all = before.push(piece@);
    proof {
        assert(all.drop_last() =~= before);
        assert(all.last() == piece@);
    }
    if t.len() == 0 {
        return;
    }
    proof {
        let ts = tokens(before).push(t@);
        assert(tokens(all) == ts);
        assert(ts.drop_last() =~= tokens(before));
        assert(ts.last() == t@);
    }
    match bare_address_chars(t.as_slice()) {
        None => {},
        Some(b) => {
            if chars_eq_ignore_ascii_case(b.as_slice(), own) {
            } else if contains_char(t.as_slice(), '<') {
                let ghost o = out@;
                out.push(string_from(t.as_slice()));
                proof {
                    assert(crate::text::string_views(out@) =~= crate::text::string_views(o).push(
                        t@,
                    ));
                }
            } else {
                let ghost o = out@;
                out.push(string_from(b.as_slice()));
                proof {
                    assert(crate::text::string_views(out@) =~= crate::text::string_views(o).push(
                        b@,
                    ));
                }
            }
        },
    }
}

} // verus!

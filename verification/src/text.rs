//! Character-level text utilities shared by the header, address and draft
//! code: whitespace trimming, line splitting, searching and decimal output.
//!
//! Text is handled as `Seq<char>` in specifications and as `Vec<char>` /
//! `&[char]` in executable code; `String` only appears at the edges.
use vstd::prelude::*;
use vstd::slice::*;
use vstd::string::*;

verus! {

broadcast use vstd::string::group_string_axioms;

// ───────────────────────────── trusted std calls ─────────────────────────────

/// Appends one character to a `String`.
///
/// Trusted wrapper around `String::push`, which std documents as appending
/// the given `char` to the end of the string.
#[verifier::external_body]
pub(crate) fn push_char(s: &mut String, c: char)
    ensures
        final(s)@ == old(s)@.push(c),
{
    s.push(c)
}

/// Lower-case form of a string as computed by std's `str::to_lowercase`
/// (Unicode `Lowercase` mapping).  Only its value on a given input is used,
/// never its definition.
pub uninterp spec fn lowercase(s: Seq<char>) -> Seq<char>;

/// Trusted wrapper around `str::to_lowercase`: the result is the lower-case
/// mapping of `s`, named `lowercase`.  Nothing more is claimed about it.
#[verifier::external_body]
pub(crate) fn to_lowercase(s: &str) -> (r: String)
    ensures
        r@ == lowercase(s@),
{
    s.to_lowercase()
}

// ─────────────────────────────── conversions ────────────────────────────────

/// The characters of `s`, in order.
pub fn to_chars(s: &str) -> (r: Vec<char>)
    ensures
        r@ == s@,
{
    let mut v: Vec<char> = Vec::new();
    for c in it: s.chars()
        invariant
            v@ == it.seq().take(it.index() as int),
    {
        v.push(c);
    }
    v
}

/// A `String` holding exactly the characters of `cs`.
pub fn string_from(cs: &[char]) -> (r: String)
    ensures
        r@ == cs@,
{
    let mut s = String::new();
    let n = cs.len();
    let mut i: usize = 0;
    while i < n
        invariant
            n == cs@.len(),
            i <= n,
            s@ == cs@.subrange(0, i as int),
        decreases n - i,
    {
        push_char(&mut s, cs[i]);
        assert(cs@.subrange(0, i + 1) =~= cs@.subrange(0, i as int).push(cs@[i as int]));
        i += 1;
    }
    assert(cs@.subrange(0, n as int) =~= cs@);
    s
}

/// Appends the characters of `s` to `out`.
pub fn push_str(out: &mut Vec<char>, s: &str)
    ensures
        final(out)@ == old(out)@ + s@,
{
    let cs = to_chars(s);
    push_all(out, cs.as_slice());
}

/// Appends every character of `cs` to `out`.
pub fn push_all(out: &mut Vec<char>, cs: &[char])
    ensures
        final(out)@ == old(out)@ + cs@,
{
    let n = cs.len();
    let mut i: usize = 0;
    while i < n
        invariant
            n == cs@.len(),
            i <= n,
            out@ == old(out)@ + cs@.subrange(0, i as int),
        decreases n - i,
    {
        out.push(cs[i]);
        assert(cs@.subrange(0, i + 1) =~= cs@.subrange(0, i as int).push(cs@[i as int]));
        i += 1;
    }
    assert(cs@.subrange(0, n as int) =~= cs@);
}

/// The characters `cs[from..to]` as a new vector.
pub fn copy_range(cs: &[char], from: usize, to: usize) -> (r: Vec<char>)
    requires
        from <= to <= cs@.len(),
    ensures
        r@ == cs@.subrange(from as int, to as int),
{
    slice_to_vec(slice_subrange(cs, from, to))
}

/// Character-wise equality of two character slices.
pub fn chars_eq(a: &[char], b: &[char]) -> (r: bool)
    ensures
        r == (a@ == b@),
{
    if a.len() != b.len() {
        return false;
    }
    let n = a.len();
    let mut i: usize = 0;
    while i < n
        invariant
            n == a@.len(),
            n == b@.len(),
            i <= n,
            forall|j: int| 0 <= j < i ==> a@[j] == b@[j],
        decreases n - i,
    {
        if a[i] != b[i] {
            return false;
        }
        i += 1;
    }
    assert(a@ =~= b@);
    true
}

// ─────────────────────────────── whitespace ─────────────────────────────────

/// Unicode `White_Space`, the property that std's `char::is_whitespace`
/// tests.
pub open spec fn is_ws(c: char) -> bool {
    let u = c as u32;
    ||| (9 <= u && u <= 13)
    ||| u == 32
    ||| u == 0x85
    ||| u == 0xA0
    ||| u == 0x1680
    ||| (0x2000 <= u && u <= 0x200A)
    ||| u == 0x2028
    ||| u == 0x2029
    ||| u == 0x202F
    ||| u == 0x205F
    ||| u == 0x3000
}

/// Executable `is_ws`.
pub fn is_whitespace(c: char) -> (r: bool)
    ensures
        r == is_ws(c),
{
    let u = c as u32;
    (9 <= u && u <= 13) || u == 32 || u == 0x85 || u == 0xA0 || u == 0x1680 || (0x2000 <= u
        && u <= 0x200A) || u == 0x2028 || u == 0x2029 || u == 0x202F || u == 0x205F || u == 0x3000
}

/// `s` without its leading whitespace.
pub open spec fn trim_start(s: Seq<char>) -> Seq<char>
    decreases s.len(),
{
    if s.len() > 0 && is_ws(s[0]) {
        trim_start(s.subrange(1, s.len() as int))
    } else {
        s
    }
}

/// `s` without its trailing whitespace.
pub open spec fn trim_end(s: Seq<char>) -> Seq<char>
    decreases s.len(),
{
    if s.len() > 0 && is_ws(s.last()) {
        trim_end(s.drop_last())
    } else {
        s
    }
}

/// `s` without leading and trailing whitespace (std's `str::trim`).
pub open spec fn trim(s: Seq<char>) -> Seq<char> {
    trim_end(trim_start(s))
}

/// Number of leading whitespace characters of `s`.
pub fn leading_ws(s: &[char]) -> (a: usize)
    ensures
        a <= s@.len(),
        trim_start(s@) == s@.subrange(a as int, s@.len() as int),
{
    let n = s.len();
    let mut a: usize = 0;
    assert(s@.subrange(0, n as int) =~= s@);
    while a < n && is_whitespace(s[a])
        invariant
            n == s@.len(),
            a <= n,
            trim_start(s@) == trim_start(s@.subrange(a as int, n as int)),
        decreases n - a,
    {
        assert(s@.subrange(a as int, n as int).subrange(1, n - a) =~= s@.subrange(
            a + 1,
            n as int,
        ));
        a += 1;
    }
    a
}

/// End (exclusive) of `s[..b]` once its trailing whitespace is dropped.
pub fn trailing_end(s: &[char], a: usize, b: usize) -> (e: usize)
    requires
        a <= b <= s@.len(),
    ensures
        a <= e <= b,
        trim_end(s@.subrange(a as int, b as int)) == s@.subrange(a as int, e as int),
{
    let mut e = b;
    while e > a && is_whitespace(s[e - 1])
        invariant
            a <= e <= b,
            b <= s@.len(),
            trim_end(s@.subrange(a as int, b as int)) == trim_end(s@.subrange(a as int, e as int)),
        decreases e - a,
    {
        assert(s@.subrange(a as int, e as int).drop_last() =~= s@.subrange(a as int, e - 1));
        e -= 1;
    }
    e
}

/// `s` with leading and trailing whitespace removed.
pub fn trim_chars(s: &[char]) -> (r: Vec<char>)
    ensures
        r@ == trim(s@),
{
    let a = leading_ws(s);
    let e = trailing_end(s, a, s.len());
    copy_range(s, a, e)
}

/// `s` with leading whitespace removed.
pub fn trim_start_chars(s: &[char]) -> (r: Vec<char>)
    ensures
        r@ == trim_start(s@),
{
    let a = leading_ws(s);
    copy_range(s, a, s.len())
}

// ──────────────────────────────── searching ─────────────────────────────────

/// Index of the first `c` in `s`, or `s.len()` when there is none.
pub open spec fn find_char(s: Seq<char>, c: char) -> int
    decreases s.len(),
{
    if s.len() == 0 {
        0
    } else if s[0] == c {
        0
    } else {
        1 + find_char(s.subrange(1, s.len() as int), c)
    }
}

/// `find_char` is the position of the first occurrence, or the length.
pub proof fn lemma_find_char(s: Seq<char>, c: char, j: int)
    requires
        0 <= j <= s.len(),
        forall|i: int| 0 <= i < j ==> s[i] != c,
        j == s.len() || s[j] == c,
    ensures
        find_char(s, c) == j,
    decreases j,
{
    if j > 0 {
        let t = s.subrange(1, s.len() as int);
        assert forall|i: int| 0 <= i < j - 1 implies t[i] != c by {
            assert(t[i] == s[i + 1]);
        }
        lemma_find_char(t, c, j - 1);
    }
}

/// `find_char` never goes past the end.
pub proof fn lemma_find_char_bound(s: Seq<char>, c: char)
    ensures
        0 <= find_char(s, c) <= s.len(),
        find_char(s, c) < s.len() ==> s[find_char(s, c)] == c,
        forall|i: int| 0 <= i < find_char(s, c) ==> s[i] != c,
    decreases s.len(),
{
    if s.len() > 0 && s[0] != c {
        let t = s.subrange(1, s.len() as int);
        lemma_find_char_bound(t, c);
        assert forall|i: int| 0 <= i < find_char(s, c) implies s[i] != c by {
            if i > 0 {
                assert(s[i] == t[i - 1]);
            }
        }
    }
}

/// First index `>= from` at which `c` occurs in `s`, or `s.len()`.
pub fn find_from(s: &[char], from: usize, c: char) -> (k: usize)
    requires
        from <= s@.len(),
    ensures
        from <= k <= s@.len(),
        k < s@.len() ==> s@[k as int] == c,
        forall|i: int| from <= i < k ==> s@[i] != c,
        find_char(s@.subrange(from as int, s@.len() as int), c) == k - from,
{
    let n = s.len();
    let mut k = from;
    while k < n && s[k] != c
        invariant
            n == s@.len(),
            from <= k <= n,
            forall|i: int| from <= i < k ==> s@[i] != c,
        decreases n - k,
    {
        k += 1;
    }
    proof {
        let t = s@.subrange(from as int, n as int);
        assert forall|i: int| 0 <= i < k - from implies t[i] != c by {
            assert(t[i] == s@[from + i]);
        }
        lemma_find_char(t, c, k - from);
    }
    k
}

/// Index of the last `c` in `s`, if any.
pub open spec fn rfind_char(s: Seq<char>, c: char) -> Option<int>
    decreases s.len(),
{
    if s.len() == 0 {
        None
    } else if s.last() == c {
        Some(s.len() - 1)
    } else {
        rfind_char(s.drop_last(), c)
    }
}

/// `rfind_char` is the position of the last occurrence, `None` when there
/// is none.
pub proof fn lemma_rfind_char(s: Seq<char>, c: char)
    ensures
        match rfind_char(s, c) {
            Some(k) => 0 <= k < s.len() && s[k] == c && forall|j: int|
                k < j < s.len() ==> s[j] != c,
            None => forall|j: int| 0 <= j < s.len() ==> s[j] != c,
        },
    decreases s.len(),
{
    if s.len() > 0 && s.last() != c {
        lemma_rfind_char(s.drop_last(), c);
        match rfind_char(s, c) {
            Some(k) => {
                assert forall|j: int| k < j < s.len() implies s[j] != c by {
                    if j < s.len() - 1 {
                        assert(s[j] == s.drop_last()[j]);
                    }
                }
            },
            None => {
                assert forall|j: int| 0 <= j < s.len() implies s[j] != c by {
                    if j < s.len() - 1 {
                        assert(s[j] == s.drop_last()[j]);
                    }
                }
            },
        }
    }
}

/// The last `c` of `a + b` is that of `a` when `b` holds no `c`.
pub proof fn lemma_rfind_char_append(a: Seq<char>, b: Seq<char>, c: char)
    requires
        !b.contains(c),
    ensures
        rfind_char(a + b, c) == rfind_char(a, c),
    decreases b.len(),
{
    if b.len() == 0 {
        assert(a + b =~= a);
    } else {
        assert((a + b).drop_last() =~= a + b.drop_last());
        assert((a + b).last() == b[b.len() - 1]);
        assert(!b.drop_last().contains(c)) by {
            if b.drop_last().contains(c) {
                let i = choose|i: int| 0 <= i < b.drop_last().len() && b.drop_last()[i] == c;
                assert(b[i] == c);
            }
        }
        lemma_rfind_char_append(a, b.drop_last(), c);
    }
}

/// Executable `rfind_char`.
pub fn rfind(s: &[char], c: char) -> (r: Option<usize>)
    ensures
        match r {
            Some(i) => rfind_char(s@, c) == Some(i as int) && i < s.len() && i < s@.len() && s@[i
                as int] == c,
            None => rfind_char(s@, c) is None,
        },
{
    let mut e = s.len();
    assert(s@.subrange(0, e as int) =~= s@);
    while e > 0 && s[e - 1] != c
        invariant
            e <= s@.len(),
            rfind_char(s@, c) == rfind_char(s@.subrange(0, e as int), c),
        decreases e,
    {
        assert(s@.subrange(0, e as int).drop_last() =~= s@.subrange(0, e - 1));
        e -= 1;
    }
    if e == 0 {
        None
    } else {
        Some(e - 1)
    }
}

/// Whether `c` occurs in `s`.
pub fn contains_char(s: &[char], c: char) -> (r: bool)
    ensures
        r == s@.contains(c),
{
    let k = find_from(s, 0, c);
    if k < s.len() {
        true
    } else {
        proof {
            assert forall|i: int| 0 <= i < s@.len() implies s@[i] != c by {}
        }
        false
    }
}

/// Whether `s` begins with `p`.
pub open spec fn starts_with(s: Seq<char>, p: Seq<char>) -> bool {
    p.len() <= s.len() && s.subrange(0, p.len() as int) == p
}

/// Executable `starts_with`.
pub fn has_prefix(s: &[char], p: &[char]) -> (r: bool)
    ensures
        r == starts_with(s@, p@),
{
    if p.len() > s.len() {
        return false;
    }
    let n = p.len();
    let mut i: usize = 0;
    while i < n
        invariant
            n == p@.len(),
            n <= s@.len(),
            i <= n,
            forall|j: int| 0 <= j < i ==> s@[j] == p@[j],
        decreases n - i,
    {
        if s[i] != p[i] {
            assert(s@.subrange(0, n as int)[i as int] != p@[i as int]);
            return false;
        }
        i += 1;
    }
    assert(s@.subrange(0, n as int) =~= p@);
    true
}

/// Whether `sub` occurs in `s` starting at position `i`.
pub open spec fn occurs_at(s: Seq<char>, sub: Seq<char>, i: int) -> bool {
    0 <= i && i + sub.len() <= s.len() && s.subrange(i, i + sub.len()) == sub
}

/// Whether `sub` is a substring of `s` (std's `str::contains` on a `&str`
/// pattern).
pub open spec fn contains_seq(s: Seq<char>, sub: Seq<char>) -> bool {
    exists|i: int| occurs_at(s, sub, i)
}

/// Executable `contains_seq`.
pub fn contains_str(s: &[char], sub: &[char]) -> (r: bool)
    ensures
        r == contains_seq(s@, sub@),
{
    if sub.len() > s.len() {
        return false;
    }
    if sub.len() == 0 {
        assert(s@.subrange(0, 0) =~= sub@);
        assert(occurs_at(s@, sub@, 0));
        return true;
    }
    let last = s.len() - sub.len();
    let mut i: usize = 0;
    while i <= last
        invariant
            sub.len() == sub@.len(),
            s.len() == s@.len(),
            0 < sub@.len() <= s@.len(),
            last == s@.len() - sub@.len(),
            last < s@.len(),
            i <= last + 1,
            forall|j: int| 0 <= j < i ==> !occurs_at(s@, sub@, j),
        decreases last + 1 - i,
    {
        let piece = slice_subrange(s, i, i + sub.len());
        if chars_eq(piece, sub) {
            assert(occurs_at(s@, sub@, i as int));
            return true;
        }
        i += 1;
    }
    false
}

// ─────────────────────────────────── lines ──────────────────────────────────

/// `l` without one trailing carriage return.
pub open spec fn strip_cr(l: Seq<char>) -> Seq<char> {
    if l.len() > 0 && l.last() == '\r' {
        l.drop_last()
    } else {
        l
    }
}

/// The lines of `s` as std's `str::lines` yields them: split at `\n`, each
/// line losing a `\r` just before its `\n`, with no empty line after a final
/// line ending.
pub open spec fn lines(s: Seq<char>) -> Seq<Seq<char>>
    decreases s.len(),
{
    if s.len() == 0 {
        seq![]
    } else {
        let k = find_char(s, '\n');
        proof {
            lemma_find_char_bound(s, '\n');
        }
        if k >= s.len() {
            seq![s]
        } else {
            seq![strip_cr(s.subrange(0, k))] + lines(s.subrange(k + 1, s.len() as int))
        }
    }
}

/// Text that ends a line splits off its lines: `lines(a + b)` is the
/// lines of `a` followed by those of `b` when `a` is empty or ends with a
/// line break.
pub proof fn lemma_lines_concat(a: Seq<char>, b: Seq<char>)
    requires
        a.len() == 0 || a.last() == '\n',
    ensures
        lines(a + b) == lines(a) + lines(b),
    decreases a.len(),
{
    if a.len() == 0 {
        assert(a + b =~= b);
        assert(lines(a) + lines(b) =~= lines(b));
    } else {
        let s = a + b;
        let k = find_char(a, '\n');
        lemma_find_char_bound(a, '\n');
        assert(k < a.len()) by {
            if k >= a.len() {
                assert(a[a.len() - 1] == '\n');
            }
        }
        assert forall|i: int| 0 <= i < k implies s[i] != '\n' by {
            assert(s[i] == a[i]);
        }
        assert(s[k] == a[k]);
        lemma_find_char(s, '\n', k);
        let ra = a.subrange(k + 1, a.len() as int);
        assert(s.subrange(k + 1, s.len() as int) =~= ra + b);
        assert(s.subrange(0, k) =~= a.subrange(0, k));
        if ra.len() > 0 {
            assert(ra.last() == a.last());
        }
        lemma_lines_concat(ra, b);
        assert(lines(s) =~= lines(a) + lines(b));
    }
}

/// The lines of one line ended by a line break.
pub proof fn lemma_lines_one(x: Seq<char>)
    requires
        !x.contains('\n'),
    ensures
        lines(x.push('\n')) == seq![strip_cr(x)],
{
    let s = x.push('\n');
    assert forall|i: int| 0 <= i < x.len() implies s[i] != '\n' by {
        assert(s[i] == x[i]);
        if x[i] == '\n' {
            assert(x.contains('\n'));
        }
    }
    lemma_find_char(s, '\n', x.len() as int);
    assert(s.subrange(0, x.len() as int) =~= x);
    assert(s.subrange(x.len() as int + 1, s.len() as int) =~= Seq::<char>::empty());
    assert(lines(Seq::<char>::empty()) == Seq::<Seq<char>>::empty());
    assert(seq![strip_cr(x)] + Seq::<Seq<char>>::empty() =~= seq![strip_cr(x)]);
}

/// Every line of `s` is at most as long as `s`.
pub proof fn lemma_lines_shorter(s: Seq<char>, i: int)
    requires
        0 <= i < lines(s).len(),
    ensures
        lines(s)[i].len() <= s.len(),
    decreases s.len(),
{
    if s.len() > 0 {
        let k = find_char(s, '\n');
        lemma_find_char_bound(s, '\n');
        if k < s.len() {
            let rest = s.subrange(k + 1, s.len() as int);
            let first = seq![strip_cr(s.subrange(0, k))];
            assert(lines(s) == first + lines(rest));
            if i > 0 {
                assert(lines(s)[i] == lines(rest)[i - 1]);
                lemma_lines_shorter(rest, i - 1);
            }
        }
    }
}

/// The views of a sequence of character vectors.
pub open spec fn views(v: Seq<Vec<char>>) -> Seq<Seq<char>> {
    Seq::new(v.len(), |i: int| v[i]@)
}

/// The views of a sequence of strings.
pub open spec fn string_views(v: Seq<String>) -> Seq<Seq<char>> {
    Seq::new(v.len(), |i: int| v[i]@)
}

/// Whether `s` occurs in the strings `v`.
pub fn contains_string(v: &[String], s: &String) -> (r: bool)
    ensures
        r == string_views(v@).contains(s@),
{
    let n = v.len();
    let mut i: usize = 0;
    while i < n
        invariant
            n == v@.len(),
            i <= n,
            forall|j: int| 0 <= j < i ==> #[trigger] v@[j]@ != s@,
        decreases n - i,
    {
        if v[i].eq(s) {
            assert(string_views(v@)[i as int] == s@);
            return true;
        }
        i += 1;
    }
    proof {
        if string_views(v@).contains(s@) {
            let k = choose|k: int| 0 <= k < n && string_views(v@)[k] == s@;
            assert(v@[k]@ != s@);
        }
    }
    false
}

/// Executable `lines`.
pub fn split_lines(s: &[char]) -> (r: Vec<Vec<char>>)
    ensures
        views(r@) == lines(s@),
{
    let n = s.len();
    let mut out: Vec<Vec<char>> = Vec::new();
    let mut start: usize = 0;
    assert(s@.subrange(0, n as int) =~= s@);
    assert(views(out@) =~= Seq::<Seq<char>>::empty());
    while start < n
        invariant
            n == s@.len(),
            start <= n,
            lines(s@) == views(out@) + lines(s@.subrange(start as int, n as int)),
        decreases n - start,
    {
        let k = find_from(s, start, '\n');
        let rest = Ghost(s@.subrange(start as int, n as int));
        if k == n {
            let line = copy_range(s, start, n);
            proof {
                assert(lines(rest@) == seq![rest@]);
            }
            let ghost before = views(out@);
            out.push(line);
            assert(views(out@) =~= before.push(rest@));
            assert(s@.subrange(n as int, n as int) =~= Seq::<char>::empty());
            start = n;
        } else {
            let mut line = copy_range(s, start, k);
            if line.len() > 0 && line[line.len() - 1] == '\r' {
                line.pop();
            }
            proof {
                assert(rest@.subrange(0, k - start) =~= s@.subrange(start as int, k as int));
                assert(rest@.subrange(k - start + 1, rest@.len() as int) =~= s@.subrange(
                    k + 1,
                    n as int,
                ));
            }
            let ghost before = views(out@);
            out.push(line);
            assert(views(out@) =~= before.push(line@));
            start = k + 1;
        }
    }
    assert(s@.subrange(n as int, n as int) =~= Seq::<char>::empty());
    assert(views(out@) + Seq::<Seq<char>>::empty() =~= views(out@));
    out
}

// ──────────────────────────────── decimals ──────────────────────────────────

/// The ASCII digit for `d < 10`.
pub open spec fn digit(d: nat) -> char {
    (48 + d) as char
}

/// Decimal representation of `n` without leading zeros.
pub open spec fn decimal(n: nat) -> Seq<char>
    decreases n,
{
    if n < 10 {
        seq![digit(n)]
    } else {
        decimal(n / 10).push(digit(n % 10))
    }
}

/// Decimal representation of a signed integer, with a leading `-` when
/// negative (std's `Display` for integers).
pub open spec fn signed_decimal(n: int) -> Seq<char> {
    if n < 0 {
        seq!['-'] + decimal((-n) as nat)
    } else {
        decimal(n as nat)
    }
}

/// Appends the decimal representation of `n` to `out`.
pub fn push_decimal(out: &mut Vec<char>, n: u64)
    ensures
        final(out)@ == old(out)@ + decimal(n as nat),
    decreases n,
{
    if n >= 10 {
        push_decimal(out, n / 10);
    }
    let d = (n % 10) as u8;
    let c = (48 + d) as char;
    assert(c == digit((n % 10) as nat));
    out.push(c);
    assert(n < 10 ==> decimal(n as nat) =~= seq![digit(n as nat)]);
}

/// Appends the decimal representation of the signed `n` to `out`.
pub fn push_signed_decimal(out: &mut Vec<char>, n: i64)
    ensures
        final(out)@ == old(out)@ + signed_decimal(n as int),
{
    if n < 0 {
        out.push('-');
        let m: u64 = if n == i64::MIN {
            9223372036854775808u64
        } else {
            (-n) as u64
        };
        push_decimal(out, m);
        assert(old(out)@.push('-') + decimal(m as nat) =~= old(out)@ + (seq!['-'] + decimal(
            m as nat,
        )));
    } else {
        push_decimal(out, n as u64);
    }
}

} // verus!

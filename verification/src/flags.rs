//! Maildir read status, encoded in the file name.
//!
//! - Files under a `new/` directory have never been seen by a client: unread.
//! - Files elsewhere (`cur/`) carry flags after `:2,`; the `S` flag means
//!   Seen.  `:2,S`, `:2,FS`, … are read; `:2,` without `S` is unread.
//! - A name without a `:2,` info section is treated as unread.
//!
//! Paths are handled as `/`-separated text.
use crate::text::{
    chars_eq, contains_char, has_prefix, lemma_rfind_char, lemma_rfind_char_append, occurs_at,
    push_all, push_str, rfind, rfind_char,
    starts_with, string_from, to_chars,
};
use vstd::prelude::*;

verus! {

// ──────────────────────────────── paths ─────────────────────────────────────

/// Whether `seg` is one of the `/`-separated components of `p`.
pub open spec fn has_segment(p: Seq<char>, seg: Seq<char>) -> bool {
    exists|i: int| segment_at(p, seg, i)
}

/// Whether a `new` component occurs in `p`.
pub open spec fn in_new_dir(p: Seq<char>) -> bool {
    has_segment(p, "new"@)
}

/// `p` without the `/` characters that end it.
pub open spec fn strip_slashes(p: Seq<char>) -> Seq<char>
    decreases p.len(),
{
    if p.len() > 0 && p.last() == '/' {
        strip_slashes(p.drop_last())
    } else {
        p
    }
}

/// The last component of `p`: the text after its last `/`, once the `/`
/// characters ending `p` are set aside (as std's `Path::file_name` skips
/// trailing separators).
pub open spec fn file_name(p: Seq<char>) -> Seq<char> {
    let q = strip_slashes(p);
    match rfind_char(q, '/') {
        Some(i) => q.subrange(i + 1, q.len() as int),
        None => q,
    }
}

/// The directory part of `p`: the text before its last `/` once the `/`
/// characters ending `p` are set aside (`/` itself for a file at the root,
/// empty for a bare name).
pub open spec fn parent_dir(p: Seq<char>) -> Seq<char> {
    let q = strip_slashes(p);
    match rfind_char(q, '/') {
        Some(i) => if i == 0 {
            seq!['/']
        } else {
            q.subrange(0, i)
        },
        None => Seq::empty(),
    }
}

/// `name` inside directory `dir`.
pub open spec fn join(dir: Seq<char>, name: Seq<char>) -> Seq<char> {
    if dir.len() == 0 {
        name
    } else if dir.last() == '/' {
        dir + name
    } else {
        dir + seq!['/'] + name
    }
}

/// Whether `seg` occurs in `p` at position `i` as a whole component.
pub open spec fn segment_at(p: Seq<char>, seg: Seq<char>, i: int) -> bool {
    occurs_at(p, seg, i) && (i == 0 || p[i - 1] == '/') && (i + seg.len() == p.len() || p[i
        + seg.len()] == '/')
}

fn is_segment_at(p: &[char], seg: &[char], i: usize) -> (r: bool)
    requires
        i + seg.len() <= p.len(),
    ensures
        r == segment_at(p@, seg@, i as int),
{
    let m = seg.len();
    let piece = vstd::slice::slice_subrange(p, i, i + m);
    chars_eq(piece, seg) && (i == 0 || p[i - 1] == '/') && (i + m == p.len() || p[i + m] == '/')
}

/// Executable `has_segment`.
pub fn path_has_segment(p: &[char], seg: &[char]) -> (r: bool)
    ensures
        r == has_segment(p@, seg@),
{
    if seg.len() > p.len() {
        return false;
    }
    let n = p.len();
    let m = seg.len();
    let mut i: usize = 0;
    loop
        invariant
            n == p@.len(),
            m == seg@.len(),
            m <= n,
            i <= n - m,
            forall|j: int| 0 <= j < i ==> !segment_at(p@, seg@, j),
        decreases n - m - i,
    {
        assert(i + seg.len() <= p.len());
        if is_segment_at(p, seg, i) {
            assert(segment_at(p@, seg@, i as int));
            return true;
        }
        if i == n - m {
            assert forall|j: int| #![trigger segment_at(p@, seg@, j)] !segment_at(p@, seg@, j) by {
                if 0 <= j < i {
                } else if j == i {
                } else {
                }
            }
            return false;
        }
        i += 1;
    }
}

/// Executable `strip_slashes`.
fn strip_trailing(p: &[char]) -> (r: Vec<char>)
    ensures
        r@ == strip_slashes(p@),
{
    let mut k: usize = p.len();
    assert(p@.subrange(0, k as int) =~= p@);
    while k > 0 && p[k - 1] == '/'
        invariant
            k <= p@.len(),
            strip_slashes(p@) == strip_slashes(p@.subrange(0, k as int)),
        decreases k,
    {
        proof {
            let a = p@.subrange(0, k as int);
            assert(a.drop_last() =~= p@.subrange(0, k - 1));
            assert(a.last() == p@[k - 1]);
        }
        k -= 1;
    }
    proof {
        let a = p@.subrange(0, k as int);
        if k > 0 {
            assert(a.last() == p@[k - 1]);
        }
        assert(strip_slashes(a) == a);
        assert(p@.subrange(0, p@.len() as int) =~= p@);
    }
    crate::text::copy_range(p, 0, k)
}

/// Executable `file_name`.
pub fn path_file_name(p: &[char]) -> (r: Vec<char>)
    ensures
        r@ == file_name(p@),
{
    let q = strip_trailing(p);
    match rfind(q.as_slice(), '/') {
        Some(i) => crate::text::copy_range(q.as_slice(), i + 1, q.len()),
        None => q,
    }
}

/// Executable `parent_dir`.
pub fn path_parent(p: &[char]) -> (r: Vec<char>)
    ensures
        r@ == parent_dir(p@),
{
    let q = strip_trailing(p);
    match rfind(q.as_slice(), '/') {
        Some(i) => if i == 0 {
            let mut v = Vec::new();
            v.push('/');
            v
        } else {
            crate::text::copy_range(q.as_slice(), 0, i)
        },
        None => Vec::new(),
    }
}

/// Executable `join`.
pub fn path_join(dir: &[char], name: &[char]) -> (r: Vec<char>)
    ensures
        r@ == join(dir@, name@),
{
    let mut out = crate::text::copy_range(dir, 0, dir.len());
    if dir.len() == 0 {
        return crate::text::copy_range(name, 0, name.len());
    }
    if dir[dir.len() - 1] != '/' {
        out.push('/');
    }
    push_all(&mut out, name);
    out
}

// ──────────────────────────────── flags ─────────────────────────────────────

/// A Maildir flag, kept as a letter in the file name.
#[derive(Debug, Clone, Copy, PartialEq, Eq, Structural)]
pub enum Flag {
    /// `S`: the message was read.
    Seen,
    /// `R`: it was replied to.
    Replied,
    /// `P`: it was forwarded (passed on).
    Passed,
    /// `F`: it is flagged for attention.
    Flagged,
}

/// The letter of a flag.
pub open spec fn flag_char(f: Flag) -> char {
    match f {
        Flag::Seen => 'S',
        Flag::Replied => 'R',
        Flag::Passed => 'P',
        Flag::Flagged => 'F',
    }
}

impl Flag {
    /// The letter that stands for the flag in a file name.
    pub fn letter(self) -> (r: char)
        ensures
            r == flag_char(self),
    {
        match self {
            Flag::Seen => 'S',
            Flag::Replied => 'R',
            Flag::Passed => 'P',
            Flag::Flagged => 'F',
        }
    }
}

/// Position of the `:` that opens the `:2,` info section of a file name:
/// the last `:` of the name, when `2,` follows it.
pub open spec fn flags_at(name: Seq<char>) -> Option<int> {
    match rfind_char(name, ':') {
        Some(k) => if starts_with(name.subrange(k + 1, name.len() as int), "2,"@) {
            Some(k)
        } else {
            None
        },
        None => None,
    }
}

/// The flag letters of a file name (the text after its `:2,`), `None`
/// without an info section.
pub open spec fn name_flags(name: Seq<char>) -> Option<Seq<char>> {
    match flags_at(name) {
        Some(k) => Some(name.subrange(k + 3, name.len() as int)),
        None => None,
    }
}

/// Whether the Maildir file at `p` carries the flag letter `c`: never under
/// `new/`, otherwise when the letters of its `:2,` section hold `c`.
pub open spec fn path_has_flag(p: Seq<char>, c: char) -> bool {
    !in_new_dir(p) && match name_flags(file_name(p)) {
        Some(fl) => fl.contains(c),
        None => false,
    }
}

/// Read status of the Maildir file at `p`: unread unless it carries the
/// Seen flag — so everything under `new/`, names without a `:2,` info
/// section after their last `:`, and flags without `S` read as unread.
pub open spec fn path_is_unread(p: Seq<char>) -> bool {
    !path_has_flag(p, 'S')
}

/// The `:2,` section of a file name: the position of its `:` and the flag
/// letters after it.
fn flags_section(name: &[char]) -> (r: Option<(usize, Vec<char>)>)
    ensures
        match r {
            Some((k, fl)) => k + 3 <= name@.len() && flags_at(name@) == Some(k as int) && fl@
                == name@.subrange(k + 3, name@.len() as int),
            None => flags_at(name@) is None,
        },
{
    proof {
        reveal_strlit("2,");
    }
    match rfind(name, ':') {
        Some(k) => {
            let info = crate::text::copy_range(name, k + 1, name.len());
            let two = to_chars("2,");
            if has_prefix(info.as_slice(), two.as_slice()) {
                let fl = crate::text::copy_range(info.as_slice(), 2, info.len());
                proof {
                    assert(fl@ =~= name@.subrange(k + 3, name@.len() as int));
                }
                Some((k, fl))
            } else {
                None
            }
        },
        None => None,
    }
}

/// [`has_flag`] on characters.
pub fn has_flag_chars(p: &[char], c: char) -> (r: bool)
    ensures
        r == path_has_flag(p@, c),
{
    let new_seg = to_chars("new");
    if path_has_segment(p, new_seg.as_slice()) {
        return false;
    }
    let name = path_file_name(p);
    match flags_section(name.as_slice()) {
        Some((_, fl)) => contains_char(fl.as_slice(), c),
        None => false,
    }
}

/// Whether the Maildir file at `path` carries the flag letter `c`.
pub fn has_flag(path: &str, c: char) -> (r: bool)
    ensures
        r == path_has_flag(path@, c),
{
    let p = to_chars(path);
    has_flag_chars(p.as_slice(), c)
}

/// Returns `true` when the Maildir file at `path` should be considered unread.
pub fn is_unread(path: &str) -> (r: bool)
    ensures
        r == path_is_unread(path@),
{
    !has_flag(path, 'S')
}

/// [`is_unread`] on characters.
pub fn is_unread_chars(p: &[char]) -> (r: bool)
    ensures
        r == path_is_unread(p@),
{
    !has_flag_chars(p, 'S')
}

/// `s` in ascending character order (a stable insertion sort).
pub open spec fn sort_chars(s: Seq<char>) -> Seq<char>
    decreases s.len(),
{
    if s.len() == 0 {
        s
    } else {
        insert_char(sort_chars(s.drop_last()), s.last())
    }
}

/// `c` inserted into the sorted `s` after every character not greater
/// than it.
pub open spec fn insert_char(s: Seq<char>, c: char) -> Seq<char>
    decreases s.len(),
{
    if s.len() == 0 {
        seq![c]
    } else if (c as u32) < (s.last() as u32) {
        insert_char(s.drop_last(), c).push(s.last())
    } else {
        s.push(c)
    }
}

/// Executable `insert_char`.
fn insert_sorted_char(v: &mut Vec<char>, c: char)
    ensures
        final(v)@ == insert_char(old(v)@, c),
{
    let mut j = v.len();
    let ghost orig = v@;
    proof {
        assert(orig.subrange(0, j as int) =~= orig);
        assert(orig.subrange(j as int, orig.len() as int) =~= Seq::<char>::empty());
    }
    while j > 0 && (c as u32) < (v[j - 1] as u32)
        invariant
            v@ == orig,
            j <= orig.len(),
            insert_char(orig, c) == insert_char(orig.subrange(0, j as int), c) + orig.subrange(
                j as int,
                orig.len() as int,
            ),
        decreases j,
    {
        proof {
            let pre = orig.subrange(0, j as int);
            assert(pre.drop_last() =~= orig.subrange(0, j - 1));
            assert(insert_char(pre, c) == insert_char(pre.drop_last(), c).push(pre.last()));
            assert(insert_char(pre.drop_last(), c).push(pre.last()) + orig.subrange(
                j as int,
                orig.len() as int,
            ) =~= insert_char(orig.subrange(0, j - 1), c) + orig.subrange(
                j - 1,
                orig.len() as int,
            ));
        }
        j -= 1;
    }
    proof {
        let pre = orig.subrange(0, j as int);
        assert(insert_char(pre, c) == pre.push(c));
    }
    v.insert(j, c);
    assert(v@ =~= orig.subrange(0, j as int).push(c) + orig.subrange(j as int, orig.len() as int));
}

/// Executable `sort_chars`.
pub fn sorted_chars(s: &[char]) -> (r: Vec<char>)
    ensures
        r@ == sort_chars(s@),
{
    let mut v: Vec<char> = Vec::new();
    let n = s.len();
    let mut i: usize = 0;
    assert(s@.subrange(0, 0) =~= Seq::<char>::empty());
    while i < n
        invariant
            n == s@.len(),
            i <= n,
            v@ == sort_chars(s@.subrange(0, i as int)),
        decreases n - i,
    {
        proof {
            let post = s@.subrange(0, i + 1);
            assert(post.drop_last() =~= s@.subrange(0, i as int));
        }
        insert_sorted_char(&mut v, s[i]);
        i += 1;
    }
    assert(s@.subrange(0, n as int) =~= s@);
    v
}

/// `s` with every occurrence of `c` dropped, the rest in order.
pub open spec fn without_char(s: Seq<char>, c: char) -> Seq<char>
    decreases s.len(),
{
    if s.len() == 0 {
        s
    } else if s.last() == c {
        without_char(s.drop_last(), c)
    } else {
        without_char(s.drop_last(), c).push(s.last())
    }
}

/// Executable `without_char`.
fn chars_without(s: &[char], c: char) -> (r: Vec<char>)
    ensures
        r@ == without_char(s@, c),
{
    let mut v: Vec<char> = Vec::new();
    let n = s.len();
    let mut i: usize = 0;
    assert(s@.subrange(0, 0) =~= Seq::<char>::empty());
    while i < n
        invariant
            n == s@.len(),
            i <= n,
            v@ == without_char(s@.subrange(0, i as int), c),
        decreases n - i,
    {
        proof {
            assert(s@.subrange(0, i + 1).drop_last() =~= s@.subrange(0, i as int));
        }
        if s[i] != c {
            v.push(s[i]);
        }
        i += 1;
    }
    assert(s@.subrange(0, n as int) =~= s@);
    v
}

/// File name after setting the flag letter `c` on a file name outside
/// `new/`: `None` when its `:2,` section already holds `c`; the letters
/// sorted with `c` added when it has such a section; `:2,c` appended
/// otherwise.
pub open spec fn flagged_name(name: Seq<char>, c: char) -> Option<Seq<char>> {
    match flags_at(name) {
        Some(k) => {
            let fl = name.subrange(k + 3, name.len() as int);
            if fl.contains(c) {
                None
            } else {
                Some(name.subrange(0, k) + ":2,"@ + sort_chars(fl.push(c)))
            }
        },
        None => Some(name + ":2,"@.push(c)),
    }
}

/// Where the Maildir file at `p` goes once it carries the flag letter `c`,
/// or `None` when it already does.  Files under `new/` move to the sibling
/// `cur/` directory with `:2,c` appended; other files stay in their
/// directory, renamed as `flagged_name` says.
pub open spec fn flagged_path(p: Seq<char>, c: char) -> Option<Seq<char>> {
    let name = file_name(p);
    let dir = parent_dir(p);
    if in_new_dir(p) {
        Some(join(join(parent_dir(dir), "cur"@), name + ":2,"@.push(c)))
    } else {
        match flagged_name(name, c) {
            Some(n) => Some(join(dir, n)),
            None => None,
        }
    }
}

/// Where the Maildir file at `p` goes once the flag letter `c` is cleared,
/// or `None` when it does not carry it: files under `new/` and names
/// without a `:2,` section or without `c` stay; otherwise every `c` is
/// dropped from the letters, the others keeping their order.
pub open spec fn unflagged_path(p: Seq<char>, c: char) -> Option<Seq<char>> {
    let name = file_name(p);
    if in_new_dir(p) {
        None
    } else {
        match flags_at(name) {
            Some(k) => {
                let fl = name.subrange(k + 3, name.len() as int);
                if fl.contains(c) {
                    Some(join(parent_dir(p), name.subrange(0, k) + ":2,"@ + without_char(fl, c)))
                } else {
                    None
                }
            },
            None => None,
        }
    }
}

/// Where the file at `p` goes once marked Seen.
pub open spec fn seen_path(p: Seq<char>) -> Option<Seq<char>> {
    flagged_path(p, 'S')
}

/// Where the file at `p` goes once its Seen flag is cleared.
pub open spec fn unseen_path(p: Seq<char>) -> Option<Seq<char>> {
    unflagged_path(p, 'S')
}

/// Where the Maildir file at `path` goes once it carries the flag letter
/// `c`, or `None` when it already does.  The caller renames the file.
pub fn flagged_path_of(path: &str, c: char) -> (r: Option<String>)
    ensures
        match r {
            Some(q) => flagged_path(path@, c) == Some(q@),
            None => flagged_path(path@, c) is None,
        },
{
    let p = to_chars(path);
    let name = path_file_name(p.as_slice());
    let dir = path_parent(p.as_slice());
    let new_seg = to_chars("new");
    if path_has_segment(p.as_slice(), new_seg.as_slice()) {
        let up = path_parent(dir.as_slice());
        let cur = to_chars("cur");
        let cur_dir = path_join(up.as_slice(), cur.as_slice());
        let mut new_name = name;
        push_str(&mut new_name, ":2,");
        new_name.push(c);
        let dest = path_join(cur_dir.as_slice(), new_name.as_slice());
        return Some(string_from(dest.as_slice()));
    }
    match flags_section(name.as_slice()) {
        Some((k, fl)) => {
            if contains_char(fl.as_slice(), c) {
                None
            } else {
                let mut all = fl;
                all.push(c);
                let sorted = sorted_chars(all.as_slice());
                let mut new_name = crate::text::copy_range(name.as_slice(), 0, k);
                push_str(&mut new_name, ":2,");
                push_all(&mut new_name, sorted.as_slice());
                let dest = path_join(dir.as_slice(), new_name.as_slice());
                Some(string_from(dest.as_slice()))
            }
        },
        None => {
            let mut new_name = name;
            push_str(&mut new_name, ":2,");
            new_name.push(c);
            let dest = path_join(dir.as_slice(), new_name.as_slice());
            Some(string_from(dest.as_slice()))
        },
    }
}

/// Where the Maildir file at `path` goes once the flag letter `c` is
/// cleared, or `None` when it does not carry it.  The caller renames the
/// file.
pub fn unflagged_path_of(path: &str, c: char) -> (r: Option<String>)
    ensures
        match r {
            Some(q) => unflagged_path(path@, c) == Some(q@),
            None => unflagged_path(path@, c) is None,
        },
{
    let p = to_chars(path);
    let new_seg = to_chars("new");
    if path_has_segment(p.as_slice(), new_seg.as_slice()) {
        return None;
    }
    let name = path_file_name(p.as_slice());
    match flags_section(name.as_slice()) {
        Some((k, fl)) => {
            if contains_char(fl.as_slice(), c) {
                let kept = chars_without(fl.as_slice(), c);
                let mut new_name = crate::text::copy_range(name.as_slice(), 0, k);
                push_str(&mut new_name, ":2,");
                push_all(&mut new_name, kept.as_slice());
                let dir = path_parent(p.as_slice());
                let dest = path_join(dir.as_slice(), new_name.as_slice());
                Some(string_from(dest.as_slice()))
            } else {
                None
            }
        },
        None => None,
    }
}

/// Where the Maildir file at `path` goes once marked Seen (the `S` flag),
/// or `None` when it already is.  The caller renames the file.
pub fn seen_path_of(path: &str) -> (r: Option<String>)
    ensures
        match r {
            Some(q) => seen_path(path@) == Some(q@),
            None => seen_path(path@) is None,
        },
{
    flagged_path_of(path, 'S')
}

/// Where the Maildir file at `path` goes once its Seen flag is cleared, or
/// `None` when it already reads as unread.  The caller renames the file.
pub fn unseen_path_of(path: &str) -> (r: Option<String>)
    ensures
        match r {
            Some(q) => unseen_path(path@) == Some(q@),
            None => unseen_path(path@) is None,
        },
{
    unflagged_path_of(path, 'S')
}

// ───────────────────────────────── laws ─────────────────────────────────────

/// `s.push(a)` holds `x` exactly when `s` does or `a` is `x`.
proof fn lemma_push_contains(s: Seq<char>, a: char, x: char)
    ensures
        s.push(a).contains(x) <==> (s.contains(x) || a == x),
{
    if s.contains(x) {
        let i = choose|i: int| 0 <= i < s.len() && s[i] == x;
        assert(s.push(a)[i] == x);
    }
    if a == x {
        assert(s.push(a)[s.len() as int] == x);
    }
    if s.push(a).contains(x) {
        let i = choose|i: int| 0 <= i < s.push(a).len() && s.push(a)[i] == x;
        if i < s.len() {
            assert(s[i] == x);
        }
    }
}

/// `a + b` holds `x` exactly when `a` or `b` does.
proof fn lemma_concat_contains(a: Seq<char>, b: Seq<char>, x: char)
    ensures
        (a + b).contains(x) <==> (a.contains(x) || b.contains(x)),
{
    if a.contains(x) {
        let i = choose|i: int| 0 <= i < a.len() && a[i] == x;
        assert((a + b)[i] == x);
    }
    if b.contains(x) {
        let i = choose|i: int| 0 <= i < b.len() && b[i] == x;
        assert((a + b)[a.len() + i] == x);
    }
    if (a + b).contains(x) {
        let i = choose|i: int| 0 <= i < (a + b).len() && (a + b)[i] == x;
        if i < a.len() {
            assert(a[i] == x);
        } else {
            assert(b[i - a.len()] == x);
        }
    }
}

/// A part of `s` holds only what `s` holds.
proof fn lemma_subrange_contains(s: Seq<char>, i: int, j: int, x: char)
    requires
        0 <= i <= j <= s.len(),
        s.subrange(i, j).contains(x),
    ensures
        s.contains(x),
{
    let k = choose|k: int| 0 <= k < s.subrange(i, j).len() && s.subrange(i, j)[k] == x;
    assert(s[i + k] == x);
}

/// Inserting keeps every letter and adds `c`.
proof fn lemma_insert_char_contains(s: Seq<char>, c: char, x: char)
    ensures
        insert_char(s, c).contains(x) <==> (s.contains(x) || c == x),
    decreases s.len(),
{
    if s.len() == 0 {
        assert(seq![c] =~= s.push(c));
        lemma_push_contains(s, c, x);
    } else if (c as u32) < (s.last() as u32) {
        lemma_insert_char_contains(s.drop_last(), c, x);
        lemma_push_contains(insert_char(s.drop_last(), c), s.last(), x);
        lemma_push_contains(s.drop_last(), s.last(), x);
        assert(s.drop_last().push(s.last()) =~= s);
    } else {
        lemma_push_contains(s, c, x);
    }
}

/// Sorting keeps the letters.
proof fn lemma_sort_chars_contains(s: Seq<char>, x: char)
    ensures
        sort_chars(s).contains(x) <==> s.contains(x),
    decreases s.len(),
{
    if s.len() > 0 {
        lemma_sort_chars_contains(s.drop_last(), x);
        lemma_insert_char_contains(sort_chars(s.drop_last()), s.last(), x);
        lemma_push_contains(s.drop_last(), s.last(), x);
        assert(s.drop_last().push(s.last()) =~= s);
    }
}

/// Dropping `c` keeps every other letter.
proof fn lemma_without_char_contains(s: Seq<char>, c: char, x: char)
    ensures
        without_char(s, c).contains(x) <==> (s.contains(x) && x != c),
    decreases s.len(),
{
    if s.len() > 0 {
        lemma_without_char_contains(s.drop_last(), c, x);
        lemma_push_contains(s.drop_last(), s.last(), x);
        assert(s.drop_last().push(s.last()) =~= s);
        if s.last() != c {
            lemma_push_contains(without_char(s.drop_last(), c), s.last(), x);
        }
    }
}

/// Setting aside the ending `/` characters leaves a prefix of `p`, followed
/// only by `/` characters, and not ending with one.
proof fn lemma_strip_slashes(p: Seq<char>)
    ensures
        strip_slashes(p).len() <= p.len(),
        strip_slashes(p) == p.subrange(0, strip_slashes(p).len() as int),
        forall|j: int| strip_slashes(p).len() <= j < p.len() ==> p[j] == '/',
        strip_slashes(p).len() == 0 || strip_slashes(p).last() != '/',
    decreases p.len(),
{
    if p.len() > 0 && p.last() == '/' {
        lemma_strip_slashes(p.drop_last());
        let q = strip_slashes(p.drop_last());
        assert(q == p.subrange(0, q.len() as int)) by {
            assert(p.drop_last().subrange(0, q.len() as int) =~= p.subrange(0, q.len() as int));
        }
        assert forall|j: int| q.len() <= j < p.len() implies p[j] == '/' by {
            if j < p.len() - 1 {
                assert(p.drop_last()[j] == p[j]);
            }
        }
    } else {
        assert(p.subrange(0, p.len() as int) =~= p);
    }
}

/// A path that does not end with `/` is its own stripped form.
proof fn lemma_strip_none(p: Seq<char>)
    requires
        p.len() == 0 || p.last() != '/',
    ensures
        strip_slashes(p) == p,
{
}

/// A file name holds no `/`.
proof fn lemma_file_name_no_slash(p: Seq<char>)
    ensures
        !file_name(p).contains('/'),
{
    let q = strip_slashes(p);
    lemma_rfind_char(q, '/');
    if file_name(p).contains('/') {
        let j = choose|j: int| 0 <= j < file_name(p).len() && file_name(p)[j] == '/';
        match rfind_char(q, '/') {
            Some(i) => assert(q[i + 1 + j] == '/'),
            None => assert(q[j] == '/'),
        }
    }
}

/// The file name of `n` inside `d` is `n`, when `n` holds no `/`.
proof fn lemma_file_name_join(d: Seq<char>, n: Seq<char>)
    requires
        !n.contains('/'),
        n.len() > 0,
    ensures
        file_name(join(d, n)) == n,
{
    assert(join(d, n).last() == n.last()) by {
        if d.len() == 0 {
        } else if d.last() == '/' {
            assert((d + n).last() == n.last());
        } else {
            assert((d + seq!['/'] + n).last() == n.last());
        }
    }
    assert(n[n.len() - 1] != '/');
    lemma_strip_none(join(d, n));
    if d.len() == 0 {
        lemma_rfind_char(n, '/');
        if rfind_char(n, '/') is Some {
            let k = rfind_char(n, '/')->0;
            assert(n[k] == '/');
        }
    } else {
        let pre = if d.last() == '/' {
            d
        } else {
            d.push('/')
        };
        assert(join(d, n) =~= pre + n);
        assert(pre.last() == '/');
        lemma_rfind_char_append(pre, n, '/');
        assert((pre + n).subrange(pre.len() as int, (pre + n).len() as int) =~= n);
    }
}

/// The directory of a path outside `new/` is outside `new/`.
proof fn lemma_parent_not_new(p: Seq<char>)
    requires
        !in_new_dir(p),
    ensures
        !in_new_dir(parent_dir(p)),
{
    reveal_strlit("new");
    let p0 = p;
    let p = strip_slashes(p0);
    lemma_strip_slashes(p0);
    assert forall|k: int| !segment_at(p, "new"@, k) by {
        if segment_at(p, "new"@, k) {
            assert(p0.subrange(k, k + 3) =~= p.subrange(k, k + 3));
            if k > 0 {
                assert(p0[k - 1] == p[k - 1]);
            }
            if k + 3 < p.len() {
                assert(p0[k + 3] == p[k + 3]);
            }
            if k + 3 == p.len() && p.len() < p0.len() {
                assert(p0[k + 3] == '/');
            }
            assert(segment_at(p0, "new"@, k));
        }
    }
    lemma_rfind_char(p, '/');
    let q = parent_dir(p0);
    assert forall|k: int| !segment_at(q, "new"@, k) by {
        if segment_at(q, "new"@, k) {
            match rfind_char(p, '/') {
                Some(i) => {
                    if i != 0 {
                        assert(q =~= p.subrange(0, i));
                        assert(p.subrange(k, k + 3) =~= q.subrange(k, k + 3));
                        if k + 3 < q.len() {
                            assert(p[k + 3] == q[k + 3]);
                        }
                        if k > 0 {
                            assert(p[k - 1] == q[k - 1]);
                        }
                        assert(segment_at(p, "new"@, k));
                    }
                },
                None => {},
            }
        }
    }
}

/// A single component other than `new`, inside a directory outside `new/`,
/// is outside `new/`.
proof fn lemma_join_not_new(d: Seq<char>, n: Seq<char>)
    requires
        !in_new_dir(d),
        !n.contains('/'),
        n != "new"@,
    ensures
        !in_new_dir(join(d, n)),
{
    reveal_strlit("new");
    let j = join(d, n);
    let pre = if d.len() == 0 {
        d
    } else if d.last() == '/' {
        d
    } else {
        d.push('/')
    };
    let m = pre.len() as int;
    assert(j =~= pre + n);
    assert forall|k: int| !segment_at(j, "new"@, k) by {
        if segment_at(j, "new"@, k) {
            assert(j[k] == 'n' && j[k + 1] == 'e' && j[k + 2] == 'w') by {
                assert(j.subrange(k, k + 3)[0] == j[k]);
                assert(j.subrange(k, k + 3)[1] == j[k + 1]);
                assert(j.subrange(k, k + 3)[2] == j[k + 2]);
            }
            if k + 3 <= m {
                if k + 3 == m && m > d.len() {
                    assert(j[m - 1] == '/');
                } else if k + 3 == m {
                    assert(pre.last() == '/');
                    assert(j[m - 1] == '/');
                } else {
                    assert(d.subrange(k, k + 3) =~= j.subrange(k, k + 3));
                    if k + 3 < d.len() {
                        assert(d[k + 3] == j[k + 3]);
                    }
                    if k > 0 {
                        assert(d[k - 1] == j[k - 1]);
                    }
                    assert(segment_at(d, "new"@, k));
                }
            } else if k >= m {
                if k > m {
                    assert(n[k - 1 - m] == j[k - 1]);
                } else {
                    if k + 3 < j.len() {
                        assert(n[3] == j[k + 3]);
                    }
                    assert(n =~= "new"@);
                }
            } else {
                assert(pre.last() == '/');
                assert(j[m - 1] == '/');
            }
        }
    }
}

/// The flag letters of `base:2,fl`, when `fl` holds no `:`, are `fl`,
/// found at the `:` after `base`.
proof fn lemma_name_flags_of(base: Seq<char>, fl: Seq<char>)
    requires
        !fl.contains(':'),
    ensures
        flags_at(base + ":2,"@ + fl) == Some(base.len() as int),
        name_flags(base + ":2,"@ + fl) == Some(fl),
{
    reveal_strlit(":2,");
    reveal_strlit("2,");
    let nm = base + ":2,"@ + fl;
    let pre = base.push(':');
    let rest = seq!['2', ','] + fl;
    assert(nm =~= pre + rest);
    lemma_concat_contains(seq!['2', ','], fl, ':');
    assert(!seq!['2', ','].contains(':')) by {
        if seq!['2', ','].contains(':') {
            let i = choose|i: int| 0 <= i < 2 && seq!['2', ','][i] == ':';
        }
    }
    lemma_rfind_char_append(pre, rest, ':');
    assert(rfind_char(pre, ':') == Some(base.len() as int));
    let k = base.len() as int;
    assert(nm.subrange(k + 1, nm.len() as int).subrange(0, 2) =~= "2,"@);
    assert(nm.subrange(k + 3, nm.len() as int) =~= fl);
}

/// Setting a flag: the file then carries it, and nothing is moved exactly
/// when it already did.  (A file under `new/` moves to `../cur`, so this
/// holds when that directory is itself outside `new/`.)
pub proof fn lemma_flagged_path_has_flag(p: Seq<char>, c: char)
    requires
        c != '/',
        c != ':',
        in_new_dir(p) ==> !in_new_dir(parent_dir(parent_dir(p))),
    ensures
        (flagged_path(p, c) is None) == path_has_flag(p, c),
        match flagged_path(p, c) {
            Some(q) => path_has_flag(q, c),
            None => true,
        },
{
    reveal_strlit("new");
    reveal_strlit("cur");
    reveal_strlit(":2,");
    reveal_strlit("2,");
    let name = file_name(p);
    let dir = parent_dir(p);
    lemma_file_name_no_slash(p);
    if in_new_dir(p) || flags_at(name) is None {
        let d = if in_new_dir(p) {
            join(parent_dir(dir), "cur"@)
        } else {
            dir
        };
        if in_new_dir(p) {
            lemma_join_not_new(parent_dir(dir), "cur"@);
        } else {
            lemma_parent_not_new(p);
        }
        let n2 = name + ":2,"@.push(c);
        assert(n2 =~= name + ":2,"@ + seq![c]);
        lemma_concat_contains(name, ":2,"@, '/');
        lemma_concat_contains(name + ":2,"@, seq![c], '/');
        lemma_push_contains(Seq::<char>::empty(), c, '/');
        assert(seq![c] =~= Seq::<char>::empty().push(c));
        assert(!":2,"@.contains('/')) by {
            if ":2,"@.contains('/') {
                let i = choose|i: int| 0 <= i < 3 && ":2,"@[i] == '/';
            }
        }
        assert(n2 != "new"@) by {
            if n2 == "new"@ {
                assert(n2.len() >= 4);
            }
        }
        lemma_join_not_new(d, n2);
        lemma_file_name_join(d, n2);
        lemma_push_contains(Seq::<char>::empty(), c, ':');
        lemma_name_flags_of(name, seq![c]);
        assert(seq![c][0] == c);
    } else {
        let k = flags_at(name)->0;
        lemma_rfind_char(name, ':');
        let fl = name.subrange(k + 3, name.len() as int);
        if !fl.contains(c) {
            let base = name.subrange(0, k);
            let sorted = sort_chars(fl.push(c));
            assert(!fl.contains(':')) by {
                if fl.contains(':') {
                    let i = choose|i: int| 0 <= i < fl.len() && fl[i] == ':';
                    assert(name[k + 3 + i] == ':');
                }
            }
            assert(!fl.contains('/')) by {
                if fl.contains('/') {
                    lemma_subrange_contains(name, k + 3, name.len() as int, '/');
                }
            }
            assert(!base.contains('/')) by {
                if base.contains('/') {
                    lemma_subrange_contains(name, 0, k, '/');
                }
            }
            lemma_push_contains(fl, c, c);
            lemma_push_contains(fl, c, ':');
            lemma_push_contains(fl, c, '/');
            lemma_sort_chars_contains(fl.push(c), c);
            lemma_sort_chars_contains(fl.push(c), ':');
            lemma_sort_chars_contains(fl.push(c), '/');
            let n2 = base + ":2,"@ + sorted;
            lemma_concat_contains(base, ":2,"@, '/');
            lemma_concat_contains(base + ":2,"@, sorted, '/');
            assert(!":2,"@.contains('/')) by {
                if ":2,"@.contains('/') {
                    let i = choose|i: int| 0 <= i < 3 && ":2,"@[i] == '/';
                }
            }
            assert(n2 != "new"@) by {
                if n2 == "new"@ {
                    let i = choose|i: int| 0 <= i < sorted.len() && sorted[i] == c;
                    assert(n2.len() >= 4);
                }
            }
            lemma_parent_not_new(p);
            lemma_join_not_new(dir, n2);
            lemma_file_name_join(dir, n2);
            lemma_name_flags_of(base, sorted);
        }
    }
}

/// Clearing a flag: the file then lacks it, and nothing is moved exactly
/// when it already did.
pub proof fn lemma_unflagged_path_lacks_flag(p: Seq<char>, c: char)
    ensures
        (unflagged_path(p, c) is None) == !path_has_flag(p, c),
        match unflagged_path(p, c) {
            Some(q) => !path_has_flag(q, c),
            None => true,
        },
{
    reveal_strlit(":2,");
    reveal_strlit("2,");
    let name = file_name(p);
    if !in_new_dir(p) && flags_at(name) is Some {
        let k = flags_at(name)->0;
        lemma_rfind_char(name, ':');
        lemma_file_name_no_slash(p);
        let fl = name.subrange(k + 3, name.len() as int);
        if fl.contains(c) {
            let base = name.subrange(0, k);
            let w = without_char(fl, c);
            assert(!fl.contains(':')) by {
                if fl.contains(':') {
                    let i = choose|i: int| 0 <= i < fl.len() && fl[i] == ':';
                    assert(name[k + 3 + i] == ':');
                }
            }
            assert(!fl.contains('/')) by {
                if fl.contains('/') {
                    lemma_subrange_contains(name, k + 3, name.len() as int, '/');
                }
            }
            assert(!base.contains('/')) by {
                if base.contains('/') {
                    lemma_subrange_contains(name, 0, k, '/');
                }
            }
            lemma_without_char_contains(fl, c, c);
            lemma_without_char_contains(fl, c, ':');
            lemma_without_char_contains(fl, c, '/');
            let n2 = base + ":2,"@ + w;
            lemma_concat_contains(base, ":2,"@, '/');
            lemma_concat_contains(base + ":2,"@, w, '/');
            assert(!":2,"@.contains('/')) by {
                if ":2,"@.contains('/') {
                    let i = choose|i: int| 0 <= i < 3 && ":2,"@[i] == '/';
                }
            }
            lemma_file_name_join(parent_dir(p), n2);
            lemma_name_flags_of(base, w);
        }
    }
}

/// Marking a file read makes it read, and marking it unread makes it
/// unread (for a file under `new/`, when `../cur` is outside `new/`).
pub proof fn lemma_read_marks(p: Seq<char>)
    requires
        in_new_dir(p) ==> !in_new_dir(parent_dir(parent_dir(p))),
    ensures
        match seen_path(p) {
            Some(q) => !path_is_unread(q),
            None => !path_is_unread(p),
        },
        match unseen_path(p) {
            Some(q) => path_is_unread(q),
            None => path_is_unread(p),
        },
{
    lemma_flagged_path_has_flag(p, 'S');
    lemma_unflagged_path_lacks_flag(p, 'S');
}


/// The directory of `n` inside a non-empty directory `d` not ending with `/`
/// is `d`, when `n` holds no `/`.
proof fn lemma_parent_join(d: Seq<char>, n: Seq<char>)
    requires
        d.len() > 0,
        d.last() != '/',
        !n.contains('/'),
        n.len() > 0,
    ensures
        parent_dir(join(d, n)) == d,
{
    let j = join(d, n);
    let pre = d.push('/');
    assert(j =~= pre + n);
    assert(j.last() == n.last());
    assert(n[n.len() - 1] != '/');
    lemma_strip_none(j);
    lemma_rfind_char(j, '/');
    assert(j[d.len() as int] == '/');
    match rfind_char(j, '/') {
        Some(i) => {
            if i > d.len() {
                assert(n[i - d.len() - 1] == j[i]);
                assert(false);
            }
            assert(i == d.len());
            assert(j.subrange(0, i) =~= d);
        },
        None => {},
    }
}

/// Marking a file of `new/` read and then unread leaves it in the sibling
/// `cur/` directory under its name followed by an empty `:2,` section (for
/// a file whose `../cur` is outside `new/`).
pub proof fn lemma_read_then_unread(p: Seq<char>)
    requires
        in_new_dir(p),
        !in_new_dir(parent_dir(parent_dir(p))),
    ensures
        seen_path(p) matches Some(q) && unseen_path(q) == Some(
            join(join(parent_dir(parent_dir(p)), "cur"@), file_name(p) + ":2,"@),
        ),
{
    reveal_strlit("cur");
    reveal_strlit("new");
    reveal_strlit(":2,");
    reveal_strlit("2,");
    let name = file_name(p);
    let c = join(parent_dir(parent_dir(p)), "cur"@);
    let m = name + ":2,"@.push('S');
    let q = join(c, m);
    assert(seen_path(p) == Some(q));
    lemma_file_name_no_slash(p);
    assert(!"cur"@.contains('/')) by {
        assert forall|i: int| 0 <= i < 3 implies "cur"@[i] != '/' by {}
    }
    assert("cur"@ != "new"@) by {
        assert("cur"@[0] != "new"@[0]);
    }
    lemma_join_not_new(parent_dir(parent_dir(p)), "cur"@);
    assert(!m.contains('/')) by {
        assert forall|i: int| 0 <= i < m.len() implies m[i] != '/' by {
            if i < name.len() {
                assert(m[i] == name[i]);
            }
        }
    }
    assert(m != "new"@) by {
        if m == "new"@ {
            assert(m.len() == 3);
            assert(m[m.len() - 1] == 'S');
        }
    }
    lemma_join_not_new(c, m);
    lemma_file_name_join(c, m);
    assert(c.len() > 0 && c.last() == 'r') by {
        let d = parent_dir(parent_dir(p));
        if d.len() == 0 {
            assert(c == "cur"@);
        } else if d.last() == '/' {
            assert(c =~= d + "cur"@);
        } else {
            assert(c =~= d + seq!['/'] + "cur"@);
        }
    }
    lemma_parent_join(c, m);
    let k = name.len() as int;
    assert(rfind_char(m, ':') == Some(k)) by {
        let m1 = m.drop_last();
        let m2 = m1.drop_last();
        let m3 = m2.drop_last();
        assert(m.last() == 'S');
        assert(m1.last() == ',');
        assert(m2.last() == '2');
        assert(m3.last() == ':');
        assert(m3.len() == k + 1);
        assert(rfind_char(m3, ':') == Some(k));
        assert(rfind_char(m2, ':') == rfind_char(m3, ':'));
        assert(rfind_char(m1, ':') == rfind_char(m2, ':'));
        assert(rfind_char(m, ':') == rfind_char(m1, ':'));
    }
    assert(m.subrange(k + 1, m.len() as int) =~= "2,"@.push('S'));
    assert(starts_with(m.subrange(k + 1, m.len() as int), "2,"@)) by {
        assert(m.subrange(k + 1, m.len() as int).subrange(0, 2) =~= "2,"@);
    }
    assert(flags_at(m) == Some(k));
    let fl = m.subrange(k + 3, m.len() as int);
    assert(fl =~= seq!['S']);
    assert(fl.contains('S')) by {
        assert(fl[0] == 'S');
    }
    assert(without_char(fl, 'S') =~= Seq::<char>::empty()) by {
        let e = Seq::<char>::empty();
        assert(fl.drop_last() =~= e);
        assert(fl.last() == 'S');
        assert(without_char(e, 'S') == e);
        assert(without_char(fl, 'S') == without_char(fl.drop_last(), 'S'));
    }
    assert(m.subrange(0, k) =~= name);
    assert(m.subrange(0, k) + ":2,"@ + without_char(fl, 'S') =~= name + ":2,"@);
}
} // verus!

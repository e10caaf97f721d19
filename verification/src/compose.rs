//! Drafts: the text edited when composing, replying or forwarding, and the
//! RFC 2822 message built from it.
//!
//! A draft is a few header lines (`To:`, `Cc:`, `Subject:`,
//! `In-Reply-To:`), the line `--- body ---`, and the body.
use crate::address::{address_views, full_form, parse_list_spec, Address, AddressView};
use crate::text::{
    chars_eq, contains_string, decimal, has_prefix, lemma_lines_concat, lemma_lines_one, lines,
    lowercase, push_all, push_decimal, push_str, split_lines, starts_with, string_from,
    string_views, strip_cr, to_chars, to_lowercase, trim, trim_chars, trim_start, views,
};
use crate::thread::{opt_view, sender_of, AddrParts, AddrPartsView, Email, EmailInfo};
use vstd::prelude::*;
use vstd::string::*;

verus! {

/// The line between the headers and the body of a draft.
pub open spec fn sentinel() -> Seq<char> {
    "--- body ---"@
}

/// The content of a [`Draft`].
pub struct DraftView {
    pub to: Seq<AddressView>,
    pub cc: Seq<AddressView>,
    pub subject: Seq<char>,
    pub in_reply_to: Option<Seq<char>>,
    pub body: Seq<char>,
}

/// A parsed draft ready to be sent.
pub struct Draft {
    pub to: Vec<Address>,
    pub cc: Vec<Address>,
    pub subject: String,
    pub in_reply_to: Option<String>,
    pub body: String,
}

impl View for Draft {
    type V = DraftView;

    open spec fn view(&self) -> DraftView {
        DraftView {
            to: address_views(self.to@),
            cc: address_views(self.cc@),
            subject: self.subject@,
            in_reply_to: match self.in_reply_to {
                Some(s) => Some(s@),
                None => None,
            },
            body: self.body@,
        }
    }
}

/// The draft with no field set.
pub open spec fn empty_draft() -> DraftView {
    DraftView {
        to: seq![],
        cc: seq![],
        subject: seq![],
        in_reply_to: None,
        body: seq![],
    }
}

/// The position of the first line equal to the body separator, or the
/// number of lines when there is none.
pub open spec fn sentinel_index(ls: Seq<Seq<char>>) -> int
    decreases ls.len(),
{
    if ls.len() == 0 {
        0
    } else if ls[0] == sentinel() {
        0
    } else {
        1 + sentinel_index(ls.subrange(1, ls.len() as int))
    }
}

/// `l` after the prefix `p`.
pub open spec fn after(l: Seq<char>, p: Seq<char>) -> Seq<char> {
    l.subrange(p.len() as int, l.len() as int)
}

/// The draft `d` after reading the header line `l`: a later line of a kind
/// replaces an earlier one, and other lines are ignored.
pub open spec fn apply_header(d: DraftView, l: Seq<char>) -> DraftView {
    if starts_with(l, "To:"@) {
        DraftView { to: parse_list_spec(after(l, "To:"@)), ..d }
    } else if starts_with(l, "Cc:"@) {
        DraftView { cc: parse_list_spec(after(l, "Cc:"@)), ..d }
    } else if starts_with(l, "Subject:"@) {
        DraftView { subject: trim(after(l, "Subject:"@)), ..d }
    } else if starts_with(l, "In-Reply-To:"@) {
        DraftView { in_reply_to: Some(trim(after(l, "In-Reply-To:"@))), ..d }
    } else {
        d
    }
}

/// The draft described by the header lines `ls`.
pub open spec fn apply_headers(ls: Seq<Seq<char>>) -> DraftView
    decreases ls.len(),
{
    if ls.len() == 0 {
        empty_draft()
    } else {
        apply_header(apply_headers(ls.drop_last()), ls.last())
    }
}

/// The lines `ls` joined with `\n`.
pub open spec fn join_lines(ls: Seq<Seq<char>>) -> Seq<char>
    decreases ls.len(),
{
    if ls.len() == 0 {
        seq![]
    } else if ls.len() == 1 {
        ls[0]
    } else {
        join_lines(ls.drop_last()) + seq!['\n'] + ls.last()
    }
}

/// `s` without its leading `\n` characters.
pub open spec fn drop_newlines(s: Seq<char>) -> Seq<char>
    decreases s.len(),
{
    if s.len() > 0 && s[0] == '\n' {
        drop_newlines(s.subrange(1, s.len() as int))
    } else {
        s
    }
}

/// The body of a draft with lines `ls`: the lines after the separator joined
/// with `\n`, without leading newlines; empty without a separator.
pub open spec fn draft_body(ls: Seq<Seq<char>>) -> Seq<char> {
    let i = sentinel_index(ls);
    if i < ls.len() {
        drop_newlines(join_lines(ls.subrange(i + 1, ls.len() as int)))
    } else {
        seq![]
    }
}

/// The draft written as the text `s`.
pub open spec fn parse_draft(s: Seq<char>) -> DraftView {
    let ls = lines(s);
    DraftView { body: draft_body(ls), ..apply_headers(ls.subrange(0, sentinel_index(ls))) }
}

pub(crate) proof fn lemma_sentinel_index(ls: Seq<Seq<char>>, k: int)
    requires
        0 <= k <= ls.len(),
        forall|j: int| 0 <= j < k ==> #[trigger] ls[j] != sentinel(),
        k < ls.len() ==> ls[k] == sentinel(),
    ensures
        sentinel_index(ls) == k,
    decreases k,
{
    if k > 0 {
        let r = ls.subrange(1, ls.len() as int);
        assert(ls[0] != sentinel());
        assert forall|j: int| 0 <= j < k - 1 implies #[trigger] r[j] != sentinel() by {
            assert(r[j] == ls[j + 1]);
        }
        lemma_sentinel_index(r, k - 1);
    }
}

/// `after(l, p)` computed.
fn after_prefix(l: &[char], p: &str) -> (r: Vec<char>)
    requires
        starts_with(l@, p@),
    ensures
        r@ == after(l@, p@),
{
    let pc = to_chars(p);
    crate::text::copy_range(l, pc.len(), l.len())
}

fn prefix_is(l: &[char], p: &str) -> (r: bool)
    ensures
        r == starts_with(l@, p@),
{
    let pc = to_chars(p);
    has_prefix(l, pc.as_slice())
}

fn chars_to_vec_range(ls: &Vec<Vec<char>>, from: usize) -> (r: Vec<char>)
    requires
        from <= ls@.len(),
    ensures
        r@ == join_lines(views(ls@).subrange(from as int, ls@.len() as int)),
{
    let n = ls.len();
    let ghost v = views(ls@);
    let mut out: Vec<char> = Vec::new();
    let mut i: usize = from;
    proof {
        assert(v.subrange(from as int, from as int) =~= Seq::<Seq<char>>::empty());
    }
    while i < n
        invariant
            n == ls@.len(),
            v == views(ls@),
            from <= i <= n,
            out@ == join_lines(v.subrange(from as int, i as int)),
        decreases n - i,
    {
        let ghost before = out@;
        if i > from {
            out.push('\n');
        }
        push_all(&mut out, ls[i].as_slice());
        proof {
            let a = v.subrange(from as int, i + 1);
            assert(a.drop_last() =~= v.subrange(from as int, i as int));
            assert(a.last() == ls@[i as int]@);
            if i == from {
                assert(out@ =~= a[0]);
            } else {
                assert(out@ =~= join_lines(a.drop_last()) + seq!['\n'] + a.last());
            }
        }
        i += 1;
    }
    out
}

fn drop_newlines_exec(s: &[char]) -> (r: Vec<char>)
    ensures
        r@ == drop_newlines(s@),
{
    let n = s.len();
    let mut a: usize = 0;
    assert(s@.subrange(0, n as int) =~= s@);
    while a < n && s[a] == '\n'
        invariant
            n == s@.len(),
            a <= n,
            drop_newlines(s@) == drop_newlines(s@.subrange(a as int, n as int)),
        decreases n - a,
    {
        assert(s@.subrange(a as int, n as int).subrange(1, n - a) =~= s@.subrange(
            a + 1,
            n as int,
        ));
        a += 1;
    }
    crate::text::copy_range(s, a, n)
}

impl Draft {
    /// Parse an edited draft string into structured fields.
    pub fn parse(edited: &str) -> (r: Self)
        ensures
            r@ == parse_draft(edited@),
    {
        let cs = to_chars(edited);
        let ls = split_lines(cs.as_slice());
        let ghost lv = views(ls@);
        let n = ls.len();
        let sep = to_chars("--- body ---");
        let mut k: usize = 0;
        while k < n
            invariant
                n == ls@.len(),
                lv == views(ls@),
                sep@ == sentinel(),
                k <= n,
                forall|j: int| 0 <= j < k ==> #[trigger] lv[j] != sentinel(),
            ensures
                k <= n,
                forall|j: int| 0 <= j < k ==> #[trigger] lv[j] != sentinel(),
                k < n ==> lv[k as int] == sentinel(),
            decreases n - k,
        {
            if chars_eq(ls[k].as_slice(), sep.as_slice()) {
                break;
            }
            k += 1;
        }
        proof {
            lemma_sentinel_index(lv, k as int);
        }
        let mut to: Vec<Address> = Vec::new();
        let mut cc: Vec<Address> = Vec::new();
        let mut subject: Vec<char> = Vec::new();
        let mut in_reply_to: Option<Vec<char>> = None;
        let mut i: usize = 0;
        proof {
            assert(lv.subrange(0, 0) =~= Seq::<Seq<char>>::empty());
            assert(address_views(to@) =~= Seq::<AddressView>::empty());
            assert(address_views(cc@) =~= Seq::<AddressView>::empty());
        }
        while i < k
            invariant
                n == ls@.len(),
                lv == views(ls@),
                k <= n,
                i <= k,
                ({
                    let d = apply_headers(lv.subrange(0, i as int));
                    &&& address_views(to@) == d.to
                    &&& address_views(cc@) == d.cc
                    &&& subject@ == d.subject
                    &&& match in_reply_to {
                        Some(x) => d.in_reply_to == Some(x@),
                        None => d.in_reply_to is None,
                    }
                }),
            decreases k - i,
        {
            let l = ls[i].as_slice();
            proof {
                let a = lv.subrange(0, i + 1);
                assert(a.drop_last() =~= lv.subrange(0, i as int));
                assert(a.last() == l@);
            }
            if prefix_is(l, "To:") {
                let v = after_prefix(l, "To:");
                to = Address::parse_list_chars(v.as_slice());
            } else if prefix_is(l, "Cc:") {
                let v = after_prefix(l, "Cc:");
                cc = Address::parse_list_chars(v.as_slice());
            } else if prefix_is(l, "Subject:") {
                let v = after_prefix(l, "Subject:");
                subject = trim_chars(v.as_slice());
            } else if prefix_is(l, "In-Reply-To:") {
                let v = after_prefix(l, "In-Reply-To:");
                in_reply_to = Some(trim_chars(v.as_slice()));
            }
            i += 1;
        }
        let body = if k < n {
            let joined = chars_to_vec_range(&ls, k + 1);
            drop_newlines_exec(joined.as_slice())
        } else {
            Vec::new()
        };
        let r = Draft {
            to,
            cc,
            subject: string_from(subject.as_slice()),
            in_reply_to: match in_reply_to {
                Some(x) => Some(string_from(x.as_slice())),
                None => None,
            },
            body: string_from(body.as_slice()),
        };
        proof {
            assert(r@.body =~= parse_draft(edited@).body);
        }
        r
    }
}

// ─────────────────────────────── RFC 2822 text ──────────────────────────────

/// The header forms of the addresses `a`, joined with `, `.
pub open spec fn join_full(a: Seq<AddressView>) -> Seq<char>
    decreases a.len(),
{
    if a.len() == 0 {
        seq![]
    } else if a.len() == 1 {
        full_form(a[0])
    } else {
        join_full(a.drop_last()) + ", "@ + full_form(a.last())
    }
}

/// `s` with every `\n` written as `\r\n`.
pub open spec fn crlf(s: Seq<char>) -> Seq<char>
    decreases s.len(),
{
    if s.len() == 0 {
        seq![]
    } else {
        crlf(s.drop_last()) + if s.last() == '\n' {
            seq!['\r', '\n']
        } else {
            seq![s.last()]
        }
    }
}

/// The message id given to a message written at `timestamp` by the process
/// `pid`.
pub open spec fn local_message_id(timestamp: u64, pid: u32) -> Seq<char> {
    decimal(timestamp as nat) + "."@ + decimal(pid as nat) + ".localhost"@
}

/// The RFC 2822 text of the draft `d` sent by `from`, written at `timestamp`
/// by the process `pid`.
pub open spec fn rfc2822(d: DraftView, from: Seq<char>, timestamp: u64, pid: u32) -> Seq<char> {
    "Message-ID: <"@ + local_message_id(timestamp, pid) + ">\r\n"@ + "From: "@ + from + "\r\n"@ + (
    if d.to.len() > 0 {
        "To: "@ + join_full(d.to) + "\r\n"@
    } else {
        seq![]
    }) + (if d.cc.len() > 0 {
        "Cc: "@ + join_full(d.cc) + "\r\n"@
    } else {
        seq![]
    }) + (match d.in_reply_to {
        Some(i) => "In-Reply-To: "@ + i + "\r\n"@,
        None => seq![],
    }) + "Subject: "@ + d.subject + "\r\n"@ + "MIME-Version: 1.0\r\n"@
        + "Content-Type: text/plain; charset=utf-8\r\n"@ + "\r\n"@ + crlf(d.body)
}

/// Appends `join_full` of the addresses `a`.
pub fn push_joined_full(out: &mut Vec<char>, a: &[Address])
    ensures
        final(out)@ == old(out)@ + join_full(address_views(a@)),
{
    let ghost av = address_views(a@);
    let n = a.len();
    let mut i: usize = 0;
    proof {
        assert(av.subrange(0, 0) =~= Seq::<AddressView>::empty());
        assert(old(out)@ + join_full(av.subrange(0, 0)) =~= old(out)@);
    }
    while i < n
        invariant
            n == a@.len(),
            av == address_views(a@),
            av.len() == n,
            i <= n,
            out@ == old(out)@ + join_full(av.subrange(0, i as int)),
        decreases n - i,
    {
        let ghost before = out@;
        if i > 0 {
            push_str(out, ", ");
        }
        let f = a[i].full_chars();
        push_all(out, f.as_slice());
        proof {
            let s = av.subrange(0, i + 1);
            assert(s.drop_last() =~= av.subrange(0, i as int));
            assert(s.last() == a@[i as int]@);
            if i == 0 {
                assert(out@ =~= old(out)@ + join_full(s));
            } else {
                assert(out@ =~= old(out)@ + join_full(s));
            }
        }
        i += 1;
    }
    assert(av.subrange(0, n as int) =~= av);
}

fn push_crlf(out: &mut Vec<char>, s: &[char])
    ensures
        final(out)@ == old(out)@ + crlf(s@),
{
    let n = s.len();
    let mut i: usize = 0;
    proof {
        assert(s@.subrange(0, 0) =~= Seq::<char>::empty());
        assert(old(out)@ + crlf(s@.subrange(0, 0)) =~= old(out)@);
    }
    while i < n
        invariant
            n == s@.len(),
            i <= n,
            out@ == old(out)@ + crlf(s@.subrange(0, i as int)),
        decreases n - i,
    {
        if s[i] == '\n' {
            out.push('\r');
            out.push('\n');
        } else {
            out.push(s[i]);
        }
        proof {
            let a = s@.subrange(0, i + 1);
            assert(a.drop_last() =~= s@.subrange(0, i as int));
            assert(a.last() == s@[i as int]);
            assert(out@ =~= old(out)@ + crlf(a));
        }
        i += 1;
    }
    assert(s@.subrange(0, n as int) =~= s@);
}

pub(crate) fn push_local_message_id(out: &mut Vec<char>, timestamp: u64, pid: u32)
    ensures
        final(out)@ == old(out)@ + local_message_id(timestamp, pid),
{
    push_decimal(out, timestamp);
    push_str(out, ".");
    push_decimal(out, pid as u64);
    push_str(out, ".localhost");
    assert(final(out)@ =~= old(out)@ + local_message_id(timestamp, pid));
}

impl Draft {
    /// Convert this draft into a minimal RFC 2822 email string suitable for
    /// writing into a maildir folder via `Maildir::write_email`; its message
    /// id is made of `timestamp` (seconds since the epoch) and the process
    /// id `pid`.
    pub fn to_rfc2822(&self, from: &str, timestamp: u64, pid: u32) -> (r: String)
        ensures
            r@ == rfc2822(self@, from@, timestamp, pid),
    {
        let mut out: Vec<char> = Vec::new();
        push_str(&mut out, "Message-ID: <");
        push_local_message_id(&mut out, timestamp, pid);
        push_str(&mut out, ">\r\n");
        push_str(&mut out, "From: ");
        push_str(&mut out, from);
        push_str(&mut out, "\r\n");
        let ghost a = out@;
        if self.to.len() > 0 {
            push_str(&mut out, "To: ");
            push_joined_full(&mut out, self.to.as_slice());
            push_str(&mut out, "\r\n");
        }
        let ghost b = out@;
        if self.cc.len() > 0 {
            push_str(&mut out, "Cc: ");
            push_joined_full(&mut out, self.cc.as_slice());
            push_str(&mut out, "\r\n");
        }
        let ghost c = out@;
        match &self.in_reply_to {
            Some(irt) => {
                push_str(&mut out, "In-Reply-To: ");
                push_str(&mut out, irt.as_str());
                push_str(&mut out, "\r\n");
            },
            None => {},
        }
        let ghost d = out@;
        push_str(&mut out, "Subject: ");
        push_str(&mut out, self.subject.as_str());
        push_str(&mut out, "\r\n");
        push_str(&mut out, "MIME-Version: 1.0\r\n");
        push_str(&mut out, "Content-Type: text/plain; charset=utf-8\r\n");
        push_str(&mut out, "\r\n");
        let body = to_chars(self.body.as_str());
        push_crlf(&mut out, body.as_slice());
        proof {
            let v = self@;
            assert(b =~= a + (if v.to.len() > 0 {
                "To: "@ + join_full(v.to) + "\r\n"@
            } else {
                seq![]
            }));
            assert(c =~= b + (if v.cc.len() > 0 {
                "Cc: "@ + join_full(v.cc) + "\r\n"@
            } else {
                seq![]
            }));
            assert(out@ =~= rfc2822(v, from@, timestamp, pid));
        }
        string_from(out.as_slice())
    }
}

// ─────────────────────────────── new drafts ─────────────────────────────────

/// The signature block appended to drafts.
pub open spec fn signature_block(signature: Option<Seq<char>>) -> Seq<char> {
    match signature {
        Some(s) => "\n--\n"@ + s + "\n"@,
        None => seq![],
    }
}

/// The view of an optional string slice.
pub open spec fn opt_str(o: Option<&str>) -> Option<Seq<char>> {
    match o {
        Some(s) => Some(s@),
        None => None,
    }
}

fn push_signature(out: &mut Vec<char>, signature: Option<&str>)
    ensures
        final(out)@ == old(out)@ + signature_block(opt_str(signature)),
{
    match signature {
        Some(sig) => {
            push_str(out, "\n--\n");
            push_str(out, sig);
            push_str(out, "\n");
            assert(final(out)@ =~= old(out)@ + signature_block(opt_str(signature)));
        },
        None => {
            assert(final(out)@ =~= old(out)@ + signature_block(opt_str(signature)));
        },
    }
}

/// The draft of a new email: empty `To:` and `Subject:`, then the
/// signature, if any.
pub open spec fn new_draft(signature: Option<Seq<char>>) -> Seq<char> {
    "To: \nSubject: \n"@ + sentinel() + "\n"@ + signature_block(signature)
}

/// Reading a fresh draft gives no recipient, no subject and no
/// `In-Reply-To`, whatever the signature.
pub proof fn lemma_new_draft_empty(signature: Option<Seq<char>>)
    ensures
        parse_draft(new_draft(signature)).to.len() == 0,
        parse_draft(new_draft(signature)).cc.len() == 0,
        parse_draft(new_draft(signature)).subject.len() == 0,
        parse_draft(new_draft(signature)).in_reply_to is None,
{
    reveal_strlit("To: \nSubject: \n");
    reveal_strlit("--- body ---");
    reveal_strlit("\n");
    reveal_strlit("To: ");
    reveal_strlit("Subject: ");
    reveal_strlit("To:");
    reveal_strlit("Cc:");
    reveal_strlit("Subject:");
    reveal_strlit("In-Reply-To:");
    let t: Seq<char> = "To: "@;
    let u: Seq<char> = "Subject: "@;
    let rest = signature_block(signature);
    let c = sentinel().push('\n') + rest;
    let b = u.push('\n') + c;
    assert(new_draft(signature) =~= t.push('\n') + b);
    assert(!t.contains('\n')) by {
        assert forall|i: int| 0 <= i < t.len() implies t[i] != '\n' by {}
    }
    assert(!u.contains('\n')) by {
        assert forall|i: int| 0 <= i < u.len() implies u[i] != '\n' by {}
    }
    assert(!sentinel().contains('\n')) by {
        assert forall|i: int| 0 <= i < sentinel().len() implies sentinel()[i] != '\n' by {}
    }
    lemma_lines_concat(t.push('\n'), b);
    lemma_lines_one(t);
    lemma_lines_concat(u.push('\n'), c);
    lemma_lines_one(u);
    lemma_lines_concat(sentinel().push('\n'), rest);
    lemma_lines_one(sentinel());
    assert(strip_cr(t) == t);
    assert(strip_cr(u) == u);
    assert(strip_cr(sentinel()) == sentinel());
    let ls = lines(new_draft(signature));
    assert(ls =~= seq![t, u, sentinel()] + lines(rest));
    assert(ls[0] != sentinel()) by {
        assert(ls[0].len() != sentinel().len());
    }
    assert(ls[1] != sentinel()) by {
        assert(ls[1][0] != sentinel()[0]);
    }
    lemma_sentinel_index(ls, 2);
    let hs = ls.subrange(0, 2);
    assert(hs =~= seq![t, u]);
    assert(hs.drop_last() =~= seq![t]);
    assert(seq![t].drop_last() =~= Seq::<Seq<char>>::empty());
    let sp: Seq<char> = seq![' '];
    assert(after(t, "To:"@) =~= sp);
    assert(starts_with(t, "To:"@)) by {
        assert(t.subrange(0, 3) =~= "To:"@);
    }
    assert(!starts_with(u, "To:"@)) by {
        assert(u.subrange(0, 3)[0] != "To:"@[0]);
    }
    assert(!starts_with(u, "Cc:"@)) by {
        assert(u.subrange(0, 3)[0] != "Cc:"@[0]);
    }
    assert(starts_with(u, "Subject:"@)) by {
        assert(u.subrange(0, 8) =~= "Subject:"@);
    }
    assert(after(u, "Subject:"@) =~= sp);
    assert(trim_start(sp) =~= Seq::<char>::empty()) by {
        reveal_with_fuel(trim_start, 2);
    }
    assert(trim(sp) =~= Seq::<char>::empty());
    assert(crate::address::segments(sp) =~= seq![sp]) by {
        let e = Seq::<char>::empty();
        assert(sp.drop_last() =~= e);
        assert(crate::address::segments(e) == seq![e]);
        assert(e.push(' ') =~= sp);
    }
    let none = Seq::<Seq<char>>::empty();
    assert(seq![sp].drop_last() =~= none);
    assert(seq![sp].last() == sp);
    assert(crate::address::grouped(none) == none);
    assert(crate::address::grouped(seq![sp]) =~= none.push(sp));
    assert(none.push(sp) =~= seq![sp]);
    assert(crate::address::addresses_of(none) == Seq::<AddressView>::empty());
    assert(crate::address::addresses_of(seq![sp]) =~= Seq::<AddressView>::empty());
    assert(parse_list_spec(sp) =~= Seq::<AddressView>::empty());
    let d0 = empty_draft();
    assert(apply_headers(none) == d0);
    let d1 = apply_header(d0, t);
    assert(apply_headers(seq![t]) == d1);
    assert(d1.to == parse_list_spec(sp));
    assert(d1.cc == d0.cc);
    assert(apply_headers(hs) == apply_header(d1, u));
    assert(ls.subrange(0, sentinel_index(ls)) == hs);
}

/// Generate a compose draft for a new email from scratch, ending with the
/// user's `signature` when there is one.
pub fn compose_draft(signature: Option<&str>) -> (r: String)
    ensures
        r@ == new_draft(opt_str(signature)),
{
    let mut out: Vec<char> = Vec::new();
    push_str(&mut out, "To: \nSubject: \n");
    push_str(&mut out, "--- body ---");
    push_str(&mut out, "\n");
    push_signature(&mut out, signature);
    assert(out@ =~= new_draft(opt_str(signature)));
    string_from(out.as_slice())
}

// ───────────────────────────── existing messages ────────────────────────────

/// What a full parse of a message gives the drafts and the message view:
/// the message id, the `From:`, `To:` and `Cc:` addresses, the first text
/// body, and whether it has a `From:` header.
pub struct MessageParts {
    pub message_id: Option<String>,
    pub from: Vec<AddrParts>,
    pub to: Vec<AddrParts>,
    pub cc: Vec<AddrParts>,
    pub body: Option<String>,
    pub has_from: bool,
}

/// The content of [`MessageParts`].
pub struct MessagePartsView {
    pub message_id: Option<Seq<char>>,
    pub from: Seq<AddrPartsView>,
    pub to: Seq<AddrPartsView>,
    pub cc: Seq<AddrPartsView>,
    pub body: Option<Seq<char>>,
    pub has_from: bool,
}

/// The views of address parts.
pub open spec fn parts_views(v: Seq<AddrParts>) -> Seq<AddrPartsView> {
    Seq::new(v.len(), |i: int| v[i]@)
}

impl View for MessageParts {
    type V = MessagePartsView;

    open spec fn view(&self) -> MessagePartsView {
        MessagePartsView {
            message_id: opt_view(self.message_id),
            from: parts_views(self.from@),
            to: parts_views(self.to@),
            cc: parts_views(self.cc@),
            body: opt_view(self.body),
            has_from: self.has_from,
        }
    }
}

/// What `mail_parser`'s full parse reports for the raw message `raw`:
/// `None` when it cannot parse it, otherwise the fields of
/// [`MessageParts`].  A function of the bytes alone.
pub uninterp spec fn parsed_message(raw: Seq<u8>) -> Option<MessagePartsView>;

/// Parses a whole raw RFC 5322 message.
///
/// Trusted wrapper around `mail_parser::MessageParser::parse`, reading from
/// its result the message id, every address of the `From`, `To` and `Cc`
/// headers (groups flattened), the first text body (`body_text(0)`), and
/// whether a `From` header is present.  The result is named `parsed_message(raw)`; nothing
/// else is claimed about it.
#[verifier::external_body]
pub(crate) fn parse_message(raw: &[u8]) -> (r: Option<MessageParts>)
    ensures
        match r {
            Some(m) => parsed_message(raw@) == Some(m@),
            None => parsed_message(raw@) is None,
        },
{
    let m = mail_parser::MessageParser::default().parse(raw)?;
    let text = |s: Option<&str>| s.map(str::to_string);
    let list = |a: Option<&mail_parser::Address>| match a {
        Some(a) => a.iter().map(|x| AddrParts { name: text(x.name()), address: text(x.address()) }).collect(),
        None => Vec::new(),
    };
    Some(MessageParts {
        message_id: text(m.message_id()),
        from: list(m.from()),
        to: list(m.to()),
        cc: list(m.cc()),
        body: m.body_text(0).map(|t| t.into_owned()),
        has_from: m.from().is_some(),
    })
}

/// Why a draft cannot be made from a stored message.
#[derive(Debug, PartialEq, Eq, Structural, Clone, Copy)]
pub enum DraftError {
    /// The message file could not be parsed.
    Unparseable,
}

/// The address of a parsed address (absent parts read as empty).
pub open spec fn part_address(p: AddrPartsView) -> AddressView {
    sender_of(Some(p))
}

/// The addresses of parsed addresses.
pub open spec fn part_addresses(ps: Seq<AddrPartsView>) -> Seq<AddressView> {
    Seq::new(ps.len(), |i: int| part_address(ps[i]))
}

/// Collect parsed addresses into addresses.
pub(crate) fn collect_addrs(ps: &Vec<AddrParts>) -> (r: Vec<Address>)
    ensures
        address_views(r@) == part_addresses(parts_views(ps@)),
{
    let mut out: Vec<Address> = Vec::new();
    let n = ps.len();
    let mut i: usize = 0;
    while i < n
        invariant
            n == ps@.len(),
            i <= n,
            out@.len() == i,
            forall|j: int| 0 <= j < i ==> #[trigger] out@[j]@ == part_address(ps@[j]@),
        decreases n - i,
    {
        let name = match &ps[i].name {
            Some(x) => x.as_str(),
            None => "",
        };
        let addr = match &ps[i].address {
            Some(x) => x.as_str(),
            None => "",
        };
        proof {
            reveal_strlit("");
            assert(""@ =~= Seq::<char>::empty());
        }
        let x = Address::new(name, addr);
        assert(x@ == part_address(ps@[i as int]@));
        out.push(x);
        i += 1;
    }
    assert(address_views(out@) =~= part_addresses(parts_views(ps@)));
    out
}

/// The body text of a parsed message (empty when it has none).
pub open spec fn body_of(m: MessagePartsView) -> Seq<char> {
    match m.body {
        Some(b) => b,
        None => seq![],
    }
}

/// Every line of `ls` as `> line\n`.
pub open spec fn quoted(ls: Seq<Seq<char>>) -> Seq<char>
    decreases ls.len(),
{
    if ls.len() == 0 {
        seq![]
    } else {
        quoted(ls.drop_last()) + "> "@ + ls.last() + "\n"@
    }
}

fn push_quoted(out: &mut Vec<char>, text: &str)
    ensures
        final(out)@ == old(out)@ + quoted(lines(text@)),
{
    let cs = to_chars(text);
    let ls = split_lines(cs.as_slice());
    let ghost lv = views(ls@);
    let n = ls.len();
    let mut i: usize = 0;
    proof {
        assert(lv.subrange(0, 0) =~= Seq::<Seq<char>>::empty());
        assert(old(out)@ + quoted(lv.subrange(0, 0)) =~= old(out)@);
    }
    while i < n
        invariant
            n == ls@.len(),
            lv == views(ls@),
            lv == lines(text@),
            i <= n,
            out@ == old(out)@ + quoted(lv.subrange(0, i as int)),
        decreases n - i,
    {
        push_str(out, "> ");
        push_all(out, ls[i].as_slice());
        push_str(out, "\n");
        proof {
            let a = lv.subrange(0, i + 1);
            assert(a.drop_last() =~= lv.subrange(0, i as int));
            assert(a.last() == ls@[i as int]@);
            assert(out@ =~= old(out)@ + quoted(a));
        }
        i += 1;
    }
    assert(lv.subrange(0, n as int) =~= lv);
}

/// The draft text that reopens the stored email `e` whose message parses
/// as `m`.
pub open spec fn reopen_draft(e: EmailInfo, m: MessagePartsView) -> Seq<char> {
    let to = join_full(part_addresses(m.to));
    let cc = join_full(part_addresses(m.cc));
    "To: "@ + to + "\n"@ + (if cc.len() > 0 {
        "Cc: "@ + cc + "\n"@
    } else {
        seq![]
    }) + "Subject: "@ + e.subject + "\n"@ + (match e.reply_to {
        Some(i) => "In-Reply-To: <"@ + i + ">\n"@,
        None => seq![],
    }) + sentinel() + "\n"@ + body_of(m)
}

/// Whether `s` starts with one of the two spellings of a subject prefix.
pub open spec fn has_subject_prefix(s: Seq<char>, upper: Seq<char>, lower: Seq<char>) -> bool {
    starts_with(s, upper) || starts_with(s, lower)
}

/// The subject of a forward: `Fwd: ` is added unless already there.
pub open spec fn forward_subject(s: Seq<char>) -> Seq<char> {
    if has_subject_prefix(s, "Fwd:"@, "fwd:"@) {
        s
    } else {
        "Fwd: "@ + s
    }
}

/// The subject of a reply: `Re: ` is added unless already there.
pub open spec fn reply_subject(s: Seq<char>) -> Seq<char> {
    if has_subject_prefix(s, "Re:"@, "re:"@) {
        s
    } else {
        "Re: "@ + s
    }
}

/// The subject of a reply: a subject already beginning with `Re:` or `re:`
/// is kept as it is; any other subject (among them one beginning with `Re`
/// but not `Re:`) gets `Re: ` in front.
pub proof fn lemma_reply_subject(s: Seq<char>)
    ensures
        (s.len() >= 3 && (s[0] == 'R' || s[0] == 'r') && s[1] == 'e' && s[2] == ':') ==> reply_subject(s)
            == s,
        !(s.len() >= 3 && (s[0] == 'R' || s[0] == 'r') && s[1] == 'e' && s[2] == ':') ==> reply_subject(s)
            == seq!['R', 'e', ':', ' '] + s,
        reply_subject(s).len() >= s.len(),
{
    reveal_strlit("Re:");
    reveal_strlit("re:");
    reveal_strlit("Re: ");
    let up: Seq<char> = "Re:"@;
    let low: Seq<char> = "re:"@;
    assert(seq!['R', 'e', ':', ' '] =~= "Re: "@);
    if s.len() >= 3 {
        let h = s.subrange(0, 3);
        assert(h[0] == s[0] && h[1] == s[1] && h[2] == s[2]);
        if (s[0] == 'R' || s[0] == 'r') && s[1] == 'e' && s[2] == ':' {
            if s[0] == 'R' {
                assert(h =~= up);
            } else {
                assert(h =~= low);
            }
        } else {
            if h == up {
                assert(h[0] == up[0] && h[1] == up[1] && h[2] == up[2]);
            }
            if h == low {
                assert(h[0] == low[0] && h[1] == low[1] && h[2] == low[2]);
            }
        }
    }
}

/// The subject of a forward: a subject already beginning with `Fwd:` or
/// `fwd:` is kept as it is; any other subject gets `Fwd: ` in front.
pub proof fn lemma_forward_subject(s: Seq<char>)
    ensures
        (s.len() >= 4 && (s[0] == 'F' || s[0] == 'f') && s[1] == 'w' && s[2] == 'd' && s[3] == ':')
            ==> forward_subject(s) == s,
        !(s.len() >= 4 && (s[0] == 'F' || s[0] == 'f') && s[1] == 'w' && s[2] == 'd' && s[3]
            == ':') ==> forward_subject(s) == seq!['F', 'w', 'd', ':', ' '] + s,
{
    reveal_strlit("Fwd:");
    reveal_strlit("fwd:");
    reveal_strlit("Fwd: ");
    let up: Seq<char> = "Fwd:"@;
    let low: Seq<char> = "fwd:"@;
    assert(seq!['F', 'w', 'd', ':', ' '] =~= "Fwd: "@);
    if s.len() >= 4 {
        let h = s.subrange(0, 4);
        assert(h[0] == s[0] && h[1] == s[1] && h[2] == s[2] && h[3] == s[3]);
        if (s[0] == 'F' || s[0] == 'f') && s[1] == 'w' && s[2] == 'd' && s[3] == ':' {
            if s[0] == 'F' {
                assert(h =~= up);
            } else {
                assert(h =~= low);
            }
        } else {
            if h == up {
                assert(h[0] == up[0] && h[1] == up[1] && h[2] == up[2] && h[3] == up[3]);
            }
            if h == low {
                assert(h[0] == low[0] && h[1] == low[1] && h[2] == low[2] && h[3] == low[3]);
            }
        }
    }
}

/// The forward draft of the stored email `e` whose message parses as `m`.
pub open spec fn forward_text(e: EmailInfo, m: MessagePartsView, signature: Option<Seq<char>>) -> Seq<
    char,
> {
    "To: \nSubject: "@ + forward_subject(e.subject) + "\n"@ + sentinel() + "\n"@
        + "---------- Forwarded message ----------\nFrom: "@ + full_form(e.from) + "\nSubject: "@
        + e.subject + "\n\n"@ + quoted(lines(body_of(m))) + signature_block(signature)
}

/// Whether an address with the lower-cased address `k` is already in `r`.
pub open spec fn key_taken(r: Seq<AddressView>, k: Seq<char>) -> bool {
    exists|j: int| 0 <= j < r.len() && lowercase(#[trigger] r[j].addr) == k
}

/// The `Cc:` of a reply: the addresses `a` without the user's own address
/// `own` and without repeats, both compared case-insensitively; the first
/// of repeated addresses stays.
pub open spec fn reply_cc(a: Seq<AddressView>, own: Seq<char>) -> Seq<AddressView>
    decreases a.len(),
{
    if a.len() == 0 {
        seq![]
    } else {
        let r = reply_cc(a.drop_last(), own);
        let k = lowercase(a.last().addr);
        if k == lowercase(own) || key_taken(r, k) {
            r
        } else {
            r.push(a.last())
        }
    }
}

/// The reply draft of the stored email `e` whose message parses as `m`.
pub open spec fn reply_text(
    e: EmailInfo,
    m: MessagePartsView,
    quote: bool,
    own: Seq<char>,
    signature: Option<Seq<char>>,
) -> Seq<char> {
    let cc = join_full(reply_cc(part_addresses(m.to) + part_addresses(m.cc), own));
    "To: "@ + full_form(e.from) + "\nSubject: "@ + reply_subject(e.subject) + "\nIn-Reply-To: <"@
        + e.message_id + ">\n"@ + (if cc.len() > 0 {
        "Cc: "@ + cc + "\n"@
    } else {
        seq![]
    }) + sentinel() + "\n"@ + (if quote {
        quoted(lines(body_of(m)))
    } else {
        seq![]
    }) + signature_block(signature)
}

fn starts_either(s: &str, upper: &str, lower: &str) -> (r: bool)
    ensures
        r == has_subject_prefix(s@, upper@, lower@),
{
    let cs = to_chars(s);
    prefix_is(cs.as_slice(), upper) || prefix_is(cs.as_slice(), lower)
}

/// The draft that reopens a stored message, from its parsed parts.
pub fn reopen_text(email: &Email, m: &MessageParts) -> (r: String)
    ensures
        r@ == reopen_draft(email@, m@),
{
    let to = collect_addrs(&m.to);
    let cc = collect_addrs(&m.cc);
    let mut out: Vec<char> = Vec::new();
    push_str(&mut out, "To: ");
    push_joined_full(&mut out, to.as_slice());
    push_str(&mut out, "\n");
    let ghost a = out@;
    let mut cc_text: Vec<char> = Vec::new();
    push_joined_full(&mut cc_text, cc.as_slice());
    assert(cc_text@ =~= join_full(part_addresses(m@.cc)));
    if cc_text.len() > 0 {
        push_str(&mut out, "Cc: ");
        push_all(&mut out, cc_text.as_slice());
        push_str(&mut out, "\n");
    }
    let ghost b = out@;
    push_str(&mut out, "Subject: ");
    push_str(&mut out, email.subject.as_str());
    push_str(&mut out, "\n");
    let ghost c = out@;
    match &email.reply_to {
        Some(irt) => {
            push_str(&mut out, "In-Reply-To: <");
            push_str(&mut out, irt.as_str());
            push_str(&mut out, ">\n");
        },
        None => {},
    }
    let ghost d = out@;
    push_str(&mut out, "--- body ---");
    push_str(&mut out, "\n");
    match &m.body {
        Some(t) => push_str(&mut out, t.as_str()),
        None => {},
    }
    proof {
        let cc_s = join_full(part_addresses(m@.cc));
        assert(b =~= a + (if cc_s.len() > 0 {
            "Cc: "@ + cc_s + "\n"@
        } else {
            seq![]
        }));
        assert(d =~= c + (match email@.reply_to {
            Some(i) => "In-Reply-To: <"@ + i + ">\n"@,
            None => seq![],
        }));
        assert(out@ =~= reopen_draft(email@, m@));
    }
    string_from(out.as_slice())
}

/// Convert an `Email` back into the internal draft text format so it can be
/// re-opened in the compose editor; `raw` is the content of its file.
pub fn email_to_draft(email: &Email, raw: &[u8]) -> (r: Result<String, DraftError>)
    ensures
        match parsed_message(raw@) {
            Some(m) => r is Ok && r->Ok_0@ == reopen_draft(email@, m),
            None => r == Err::<String, DraftError>(DraftError::Unparseable),
        },
{
    match parse_message(raw) {
        Some(m) => Ok(reopen_text(email, &m)),
        None => Err(DraftError::Unparseable),
    }
}

/// The forward draft of a stored message, from its parsed parts.
pub fn forward_text_of(email: &Email, m: &MessageParts, signature: Option<&str>) -> (r: String)
    ensures
        r@ == forward_text(email@, m@, opt_str(signature)),
{
    let mut out: Vec<char> = Vec::new();
    push_str(&mut out, "To: \nSubject: ");
    let ghost a = out@;
    if starts_either(email.subject.as_str(), "Fwd:", "fwd:") {
        push_str(&mut out, email.subject.as_str());
    } else {
        push_str(&mut out, "Fwd: ");
        push_str(&mut out, email.subject.as_str());
    }
    let ghost b = out@;
    push_str(&mut out, "\n");
    push_str(&mut out, "--- body ---");
    push_str(&mut out, "\n");
    push_str(&mut out, "---------- Forwarded message ----------\nFrom: ");
    let from = email.from.full_chars();
    push_all(&mut out, from.as_slice());
    push_str(&mut out, "\nSubject: ");
    push_str(&mut out, email.subject.as_str());
    push_str(&mut out, "\n\n");
    match &m.body {
        Some(t) => push_quoted(&mut out, t.as_str()),
        None => push_quoted(&mut out, ""),
    }
    proof {
        reveal_strlit("");
        assert(""@ =~= Seq::<char>::empty());
    }
    push_signature(&mut out, signature);
    proof {
        assert(b =~= a + forward_subject(email@.subject));
        assert(out@ =~= forward_text(email@, m@, opt_str(signature)));
    }
    string_from(out.as_slice())
}

/// Generate a forward draft for `email` — empty `To:`, `Fwd:` subject,
/// original body quoted with an attribution header, then the user's
/// `signature`; `raw` is the content of its file.
pub fn forward_draft(email: &Email, raw: &[u8], signature: Option<&str>) -> (r: Result<
    String,
    DraftError,
>)
    ensures
        match parsed_message(raw@) {
            Some(m) => r is Ok && r->Ok_0@ == forward_text(email@, m, opt_str(signature)),
            None => r == Err::<String, DraftError>(DraftError::Unparseable),
        },
{
    match parse_message(raw) {
        Some(m) => Ok(forward_text_of(email, &m, signature)),
        None => Err(DraftError::Unparseable),
    }
}

/// The `Cc:` addresses of a reply (see [`reply_cc`]).
pub fn reply_cc_of(a: &[Address], own_address: &str) -> (r: Vec<Address>)
    ensures
        address_views(r@) == reply_cc(address_views(a@), own_address@),
{
    let ghost av = address_views(a@);
    let own = to_lowercase(own_address);
    let mut out: Vec<Address> = Vec::new();
    let mut keys: Vec<String> = Vec::new();
    let n = a.len();
    let mut i: usize = 0;
    proof {
        assert(av.subrange(0, 0) =~= Seq::<AddressView>::empty());
        assert(address_views(out@) =~= Seq::<AddressView>::empty());
    }
    while i < n
        invariant
            n == a@.len(),
            av == address_views(a@),
            own@ == lowercase(own_address@),
            i <= n,
            address_views(out@) == reply_cc(av.subrange(0, i as int), own_address@),
            keys@.len() == out@.len(),
            forall|j: int| 0 <= j < keys@.len() ==> #[trigger] keys@[j]@ == lowercase(out@[j]@.addr),
        decreases n - i,
    {
        let ghost r = address_views(out@);
        let k = to_lowercase(a[i].address());
        proof {
            let s = av.subrange(0, i + 1);
            assert(s.drop_last() =~= av.subrange(0, i as int));
            assert(s.last() == a@[i as int]@);
        }
        let taken = contains_string(keys.as_slice(), &k);
        proof {
            if taken {
                let j = choose|j: int| 0 <= j < keys@.len() && string_views(keys@)[j] == k@;
                assert(r[j] == out@[j]@);
                assert(lowercase(r[j].addr) == k@);
                assert(key_taken(r, k@));
            }
            if key_taken(r, k@) {
                let j = choose|j: int| 0 <= j < r.len() && lowercase(#[trigger] r[j].addr) == k@;
                assert(r[j] == out@[j]@);
                assert(string_views(keys@)[j] == k@);
            }
        }
        if !(k.eq(&own)) && !taken {
            let ghost ob = out@;
            out.push(a[i].clone());
            keys.push(k);
            proof {
                assert(address_views(out@) =~= address_views(ob).push(a@[i as int]@));
            }
        }
        i += 1;
    }
    assert(av.subrange(0, n as int) =~= av);
    out
}

impl Email {
    /// The reply draft of this email, from its parsed parts (see
    /// [`Email::reply_draft`]).
    pub fn reply_text_of(
        &self,
        m: &MessageParts,
        quote: bool,
        own_address: &str,
        signature: Option<&str>,
    ) -> (r: String)
        ensures
            r@ == reply_text(self@, m@, quote, own_address@, opt_str(signature)),
    {
        let mut all = collect_addrs(&m.to);
        let mut more = collect_addrs(&m.cc);
        let ghost ta = all@;
        let ghost tb = more@;
        all.append(&mut more);
        proof {
            assert(address_views(all@) =~= part_addresses(m@.to) + part_addresses(m@.cc));
        }
        let cc = reply_cc_of(all.as_slice(), own_address);
        let mut cc_text: Vec<char> = Vec::new();
        push_joined_full(&mut cc_text, cc.as_slice());
        let mut out: Vec<char> = Vec::new();
        push_str(&mut out, "To: ");
        let from = self.from.full_chars();
        push_all(&mut out, from.as_slice());
        push_str(&mut out, "\nSubject: ");
        let ghost a = out@;
        if starts_either(self.subject.as_str(), "Re:", "re:") {
            push_str(&mut out, self.subject.as_str());
        } else {
            push_str(&mut out, "Re: ");
            push_str(&mut out, self.subject.as_str());
        }
        let ghost b = out@;
        push_str(&mut out, "\nIn-Reply-To: <");
        push_str(&mut out, self.message_id.as_str());
        push_str(&mut out, ">\n");
        let ghost c = out@;
        if cc_text.len() > 0 {
            push_str(&mut out, "Cc: ");
            push_all(&mut out, cc_text.as_slice());
            push_str(&mut out, "\n");
        }
        let ghost d = out@;
        push_str(&mut out, "--- body ---");
        push_str(&mut out, "\n");
        let ghost e = out@;
        if quote {
            match &m.body {
                Some(t) => push_quoted(&mut out, t.as_str()),
                None => push_quoted(&mut out, ""),
            }
        }
        proof {
            reveal_strlit("");
            assert(""@ =~= Seq::<char>::empty());
        }
        let ghost f = out@;
        push_signature(&mut out, signature);
        proof {
            let cc_s = join_full(reply_cc(part_addresses(m@.to) + part_addresses(m@.cc), own_address@));
            assert(b =~= a + reply_subject(self@.subject));
            assert(d =~= c + (if cc_s.len() > 0 {
                "Cc: "@ + cc_s + "\n"@
            } else {
                seq![]
            }));
            assert(f =~= e + (if quote {
                quoted(lines(body_of(m@)))
            } else {
                seq![]
            }));
            assert(out@ =~= reply_text(self@, m@, quote, own_address@, opt_str(signature)));
        }
        string_from(out.as_slice())
    }
}

/// Reply drafts of stored emails.
pub trait EmailReply {
    /// Generate a reply draft for this email; `raw` is the content of its
    /// file.
    fn reply_draft(
        &self,
        raw: &[u8],
        quote: bool,
        own_address: &str,
        signature: Option<&str>,
    ) -> Result<String, DraftError>;
}

impl EmailReply for Email {
    /// Generate a reply draft for this email; `raw` is the content of its
    /// file.
    ///
    /// The draft includes:
    /// - To: set to the original sender
    /// - Cc: original To: + original Cc:, minus own_address
    /// - Subject: with "Re:" prefix
    /// - In-Reply-To: referencing this message
    /// - Body: optionally quoted with ">" prefix
    /// - the user's `signature`, if any
    fn reply_draft(
        &self,
        raw: &[u8],
        quote: bool,
        own_address: &str,
        signature: Option<&str>,
    ) -> (r: Result<String, DraftError>)
        ensures
            match parsed_message(raw@) {
                Some(m) => r is Ok && r->Ok_0@ == reply_text(
                    self@,
                    m,
                    quote,
                    own_address@,
                    opt_str(signature),
                ),
                None => r == Err::<String, DraftError>(DraftError::Unparseable),
            },
    {
        match parse_message(raw) {
            Some(m) => Ok(self.reply_text_of(&m, quote, own_address, signature)),
            None => Err(DraftError::Unparseable),
        }
    }
}

} // verus!

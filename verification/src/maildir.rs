//! The thread tree of a Maildir folder.
//!
//! Emails may be read in any order, so a reply can arrive before the message
//! it answers.  Besides the list of root threads, the tree keeps
//!
//! - the replies whose parent has not been seen yet, queued under the
//!   parent's `Message-ID` (they become roots when the tree is invalidated
//!   and the parent never showed up), and
//! - the messages whose `In-Reply-To` chain loops back onto themselves: they
//!   are tracked (counted, found by id) but can never be reached from a root.
//!   When a message closes such a loop, it is appended to the replies of
//!   its parent, which sits among the replies queued for it; the link back
//!   from the message to those queued replies, which would make the tree
//!   hold itself, is the one left out.  A message replying to itself keeps
//!   its queued replies.
//!
//! Inserting a message:
//!
//! 1. a message already tracked under the same `Message-ID` is skipped;
//! 2. the replies queued for the new message become its replies;
//! 3. a message without `In-Reply-To` becomes a root thread; otherwise it is
//!    appended to the replies of its parent when the parent is tracked, and
//!    queued for it when it is not.
use crate::flags::path_is_unread;
use crate::forest::{
    forest_has_path, is_sorted, lemma_pruned_forest, pruned_forest, lemma_count_concat, lemma_has_concat, lemma_has_last, lemma_prune_absent_forest,
    lemma_prune_count_forest, lemma_rename_count_forest, lemma_rename_has_forest, lemma_sort_idempotent, lemma_sort_keeps, lemma_sort_sorted,
    prune_forest, prune_forest_exec, rename_forest, rename_forest_exec, sort_forest, sort_threads,
};
use crate::compose::{local_message_id, parse_message, parsed_message, push_local_message_id};
use crate::flags::{join, path_join};
use vstd::string::*;
use crate::text::{chars_eq, contains_string, string_views};
use crate::thread::{Email, EmailError, EmailThread, EmailInfo, ThreadView, forest_view, parsed_headers, email_from_fields};
use vstd::prelude::*;

verus! {

// ───────────────────────────────── sort order ───────────────────────────────

/// Sort order for the thread list.
#[derive(Debug, Clone, Copy, PartialEq, Eq, Structural)]
pub enum SortOrder {
    Descending,
    Ascending,
}

impl Default for SortOrder {
    fn default() -> (r: Self)
        ensures
            r == SortOrder::Descending,
    {
        SortOrder::Descending
    }
}

/// The other sort order.
pub open spec fn toggled(o: SortOrder) -> SortOrder {
    match o {
        SortOrder::Descending => SortOrder::Ascending,
        SortOrder::Ascending => SortOrder::Descending,
    }
}

impl SortOrder {
    /// The other sort order.
    pub fn toggle(self) -> (r: Self)
        ensures
            r == toggled(self),
    {
        match self {
            SortOrder::Descending => SortOrder::Ascending,
            SortOrder::Ascending => SortOrder::Descending,
        }
    }
}

/// Toggling twice gives back the original order.
pub proof fn lemma_toggle_involution(o: SortOrder)
    ensures
        toggled(toggled(o)) == o,
        toggled(o) != o,
{
}

// ─────────────────────────────── tree views ─────────────────────────────────

/// `forest_view` is the element-wise content of a vector of threads.
pub proof fn lemma_forest_view(ts: Seq<EmailThread>)
    ensures
        forest_view(ts).len() == ts.len(),
        forall|i: int| 0 <= i < ts.len() ==> #[trigger] forest_view(ts)[i] == ts[i].tree(),
    decreases ts.len(),
{
    if ts.len() > 0 {
        lemma_forest_view(ts.subrange(0, ts.len() - 1));
    }
}

/// Whether an email with message id `id` occurs in the thread `t`.
pub open spec fn tree_has_id(t: ThreadView, id: Seq<char>) -> bool
    decreases t,
{
    t.email.message_id == id || forest_has_id(t.replies, id)
}

/// Whether an email with message id `id` occurs in the threads `f`.
pub open spec fn forest_has_id(f: Seq<ThreadView>, id: Seq<char>) -> bool
    decreases f,
{
    if f.len() == 0 {
        false
    } else {
        tree_has_id(f[0], id) || forest_has_id(f.subrange(1, f.len() as int), id)
    }
}

/// The first subtree, in pre-order, whose email has message id `id`.
pub open spec fn tree_find(t: ThreadView, id: Seq<char>) -> Option<ThreadView>
    decreases t,
{
    if t.email.message_id == id {
        Some(t)
    } else {
        forest_find(t.replies, id)
    }
}

/// The first subtree of `f`, in pre-order, whose email has message id `id`.
pub open spec fn forest_find(f: Seq<ThreadView>, id: Seq<char>) -> Option<ThreadView>
    decreases f,
{
    if f.len() == 0 {
        None
    } else {
        match tree_find(f[0], id) {
            Some(t) => Some(t),
            None => forest_find(f.subrange(1, f.len() as int), id),
        }
    }
}

/// Number of emails in the thread `t`.
pub open spec fn tree_count(t: ThreadView) -> nat
    decreases t,
{
    1 + forest_count(t.replies)
}

/// Number of emails in the threads `f`.
pub open spec fn forest_count(f: Seq<ThreadView>) -> nat
    decreases f,
{
    if f.len() == 0 {
        0
    } else {
        tree_count(f[0]) + forest_count(f.subrange(1, f.len() as int))
    }
}

/// Number of unread emails in the thread `t`.
pub open spec fn tree_unread(t: ThreadView) -> nat
    decreases t,
{
    (if path_is_unread(t.email.path) {
        1nat
    } else {
        0nat
    }) + forest_unread(t.replies)
}

/// Number of unread emails in the threads `f`.
pub open spec fn forest_unread(f: Seq<ThreadView>) -> nat
    decreases f,
{
    if f.len() == 0 {
        0
    } else {
        tree_unread(f[0]) + forest_unread(f.subrange(1, f.len() as int))
    }
}

proof fn lemma_unread_le_count(f: Seq<ThreadView>)
    ensures
        forest_unread(f) <= forest_count(f),
    decreases f,
{
    if f.len() > 0 {
        lemma_unread_le_count(f[0].replies);
        lemma_unread_le_count(f.subrange(1, f.len() as int));
        assert(tree_unread(f[0]) <= tree_count(f[0]));
    }
}

// ───────────────────────────── replies waiting ──────────────────────────────

/// Replies queued under the message id of their (not yet seen) parent.
struct Waiting {
    parent_id: String,
    children: Vec<EmailThread>,
}

/// The content of a [`Waiting`] entry: the parent's id and the queued
/// threads.
spec fn waiting_view(w: Waiting) -> (Seq<char>, Seq<ThreadView>) {
    (w.parent_id@, forest_view(w.children@))
}

/// The content of the whole queue.
spec fn queue_view(q: Seq<Waiting>) -> Seq<(Seq<char>, Seq<ThreadView>)>
    decreases q.len(),
{
    if q.len() == 0 {
        seq![]
    } else {
        queue_view(q.drop_last()).push(waiting_view(q.last()))
    }
}

proof fn lemma_queue_view(q: Seq<Waiting>)
    ensures
        queue_view(q).len() == q.len(),
        forall|i: int| 0 <= i < q.len() ==> #[trigger] queue_view(q)[i] == waiting_view(q[i]),
    decreases q.len(),
{
    if q.len() > 0 {
        lemma_queue_view(q.drop_last());
    }
}

/// Whether an email with id `id` is queued (at any depth) in `s`.
pub open spec fn queue_has_id(s: Seq<(Seq<char>, Seq<ThreadView>)>, id: Seq<char>) -> bool
    decreases s.len(),
{
    if s.len() == 0 {
        false
    } else {
        forest_has_id(s[0].1, id) || queue_has_id(s.subrange(1, s.len() as int), id)
    }
}

/// The first queued subtree whose email has id `id`.
pub open spec fn queue_find(s: Seq<(Seq<char>, Seq<ThreadView>)>, id: Seq<char>) -> Option<
    ThreadView,
>
    decreases s.len(),
{
    if s.len() == 0 {
        None
    } else {
        match forest_find(s[0].1, id) {
            Some(t) => Some(t),
            None => queue_find(s.subrange(1, s.len() as int), id),
        }
    }
}

/// Number of queued emails.
pub open spec fn queue_count(s: Seq<(Seq<char>, Seq<ThreadView>)>) -> nat
    decreases s.len(),
{
    if s.len() == 0 {
        0
    } else {
        forest_count(s[0].1) + queue_count(s.subrange(1, s.len() as int))
    }
}

/// Number of queued unread emails.
pub open spec fn queue_unread(s: Seq<(Seq<char>, Seq<ThreadView>)>) -> nat
    decreases s.len(),
{
    if s.len() == 0 {
        0
    } else {
        forest_unread(s[0].1) + queue_unread(s.subrange(1, s.len() as int))
    }
}

proof fn lemma_queue_unread_le_count(s: Seq<(Seq<char>, Seq<ThreadView>)>)
    ensures
        queue_unread(s) <= queue_count(s),
    decreases s.len(),
{
    if s.len() > 0 {
        lemma_unread_le_count(s[0].1);
        lemma_queue_unread_le_count(s.subrange(1, s.len() as int));
    }
}

// ─────────────────────────────────── maildir ────────────────────────────────

/// The content of a [`Maildir`].
pub struct MaildirView {
    /// The folder scanned.
    pub dir: Seq<char>,
    /// Root threads.
    pub threads: Seq<ThreadView>,
    /// Replies queued under the id of a parent not seen yet.
    pub searching: Seq<(Seq<char>, Seq<ThreadView>)>,
    /// Threads whose reply chain loops: tracked, never reachable from a root.
    pub detached: Seq<ThreadView>,
    /// Order of the threads after invalidation.
    pub sort_order: SortOrder,
}

/// Whether the maildir tracks an email with id `id`.
pub open spec fn tracks(m: MaildirView, id: Seq<char>) -> bool {
    forest_has_id(m.threads, id) || queue_has_id(m.searching, id) || forest_has_id(m.detached, id)
}

/// The tracked subtree whose root email has id `id`: searched in the root
/// threads, then among the queued replies, then among the detached ones.
pub open spec fn find_spec(m: MaildirView, id: Seq<char>) -> Option<ThreadView> {
    match forest_find(m.threads, id) {
        Some(t) => Some(t),
        None => match queue_find(m.searching, id) {
            Some(t) => Some(t),
            None => forest_find(m.detached, id),
        },
    }
}

/// Number of tracked emails.
pub open spec fn total(m: MaildirView) -> nat {
    forest_count(m.threads) + queue_count(m.searching) + forest_count(m.detached)
}

/// Number of tracked unread emails.
pub open spec fn total_unread(m: MaildirView) -> nat {
    forest_unread(m.threads) + queue_unread(m.searching) + forest_unread(m.detached)
}


// ───────────────────────────── insertion (spec) ─────────────────────────────

/// The thread `t` with `node` appended to the replies of its first subtree
/// (in pre-order) whose email has id `p`.
pub open spec fn attach_tree(t: ThreadView, p: Seq<char>, node: ThreadView) -> ThreadView
    decreases t,
{
    if t.email.message_id == p {
        ThreadView { email: t.email, replies: t.replies.push(node) }
    } else {
        ThreadView { email: t.email, replies: attach_forest(t.replies, p, node) }
    }
}

/// The threads `f` with `node` appended to the replies of the first subtree
/// whose email has id `p` (unchanged when there is none).
pub open spec fn attach_forest(f: Seq<ThreadView>, p: Seq<char>, node: ThreadView) -> Seq<
    ThreadView,
>
    decreases f,
{
    if f.len() == 0 {
        f
    } else if tree_has_id(f[0], p) {
        seq![attach_tree(f[0], p, node)] + f.subrange(1, f.len() as int)
    } else {
        seq![f[0]] + attach_forest(f.subrange(1, f.len() as int), p, node)
    }
}

/// The replies queued for the id `id` (none when nothing waits for it).
pub open spec fn waiting_for(s: Seq<(Seq<char>, Seq<ThreadView>)>, id: Seq<char>) -> Seq<
    ThreadView,
>
    decreases s.len(),
{
    if s.len() == 0 {
        seq![]
    } else if s[0].0 == id {
        s[0].1
    } else {
        waiting_for(s.subrange(1, s.len() as int), id)
    }
}

/// The queue without the entry for `id`.
pub open spec fn without_key(s: Seq<(Seq<char>, Seq<ThreadView>)>, id: Seq<char>) -> Seq<
    (Seq<char>, Seq<ThreadView>),
>
    decreases s.len(),
{
    if s.len() == 0 {
        s
    } else if s[0].0 == id {
        s.subrange(1, s.len() as int)
    } else {
        seq![s[0]] + without_key(s.subrange(1, s.len() as int), id)
    }
}

/// The queue with `node` queued under the parent id `p`.
pub open spec fn enqueue(s: Seq<(Seq<char>, Seq<ThreadView>)>, p: Seq<char>, node: ThreadView) -> Seq<
    (Seq<char>, Seq<ThreadView>),
>
    decreases s.len(),
{
    if s.len() == 0 {
        seq![(p, seq![node])]
    } else if s[0].0 == p {
        seq![(s[0].0, s[0].1.push(node))] + s.subrange(1, s.len() as int)
    } else {
        seq![s[0]] + enqueue(s.subrange(1, s.len() as int), p, node)
    }
}

/// The queue with `node` appended to the replies of the first queued
/// subtree whose email has id `p`.
pub open spec fn attach_queue(s: Seq<(Seq<char>, Seq<ThreadView>)>, p: Seq<char>, node: ThreadView) -> Seq<
    (Seq<char>, Seq<ThreadView>),
>
    decreases s.len(),
{
    if s.len() == 0 {
        s
    } else if forest_has_id(s[0].1, p) {
        seq![(s[0].0, attach_forest(s[0].1, p, node))] + s.subrange(1, s.len() as int)
    } else {
        seq![s[0]] + attach_queue(s.subrange(1, s.len() as int), p, node)
    }
}

/// The tree after inserting the email `e` (see the module documentation).
pub open spec fn insert_spec(m: MaildirView, e: EmailInfo) -> MaildirView {
    let id = e.message_id;
    if tracks(m, id) {
        m
    } else {
        let waiting = waiting_for(m.searching, id);
        let rest = without_key(m.searching, id);
        let node = ThreadView { email: e, replies: waiting };
        match e.reply_to {
            None => MaildirView { threads: m.threads.push(node), searching: rest, ..m },
            Some(p) => if p == id {
                MaildirView { searching: rest, detached: m.detached.push(node), ..m }
            } else if forest_has_id(waiting, p) {
                MaildirView {
                    searching: rest,
                    detached: m.detached + attach_forest(
                        waiting,
                        p,
                        ThreadView { email: e, replies: seq![] },
                    ),
                    ..m
                }
            } else if forest_has_id(m.threads, p) {
                MaildirView { threads: attach_forest(m.threads, p, node), searching: rest, ..m }
            } else if queue_has_id(rest, p) {
                MaildirView { searching: attach_queue(rest, p, node), ..m }
            } else if forest_has_id(m.detached, p) {
                MaildirView { searching: rest, detached: attach_forest(m.detached, p, node), ..m }
            } else {
                MaildirView { searching: enqueue(rest, p, node), ..m }
            },
        }
    }
}

/// The tree after reading the file at `path` holding `contents`: its email
/// is inserted when its headers parse, otherwise nothing changes.
pub open spec fn insert_file_spec(m: MaildirView, path: Seq<char>, contents: Seq<u8>) -> MaildirView {
    match email_from_fields(parsed_headers(contents), path) {
        Ok(e) => insert_spec(m, e),
        Err(_) => m,
    }
}

// ─────────────────────────── removal and sorting (spec) ─────────────────────

/// The tree after removing the subtree of the file at `path` from the root
/// threads (queued and detached messages are not searched).
pub open spec fn remove_spec(m: MaildirView, path: Seq<char>) -> MaildirView {
    MaildirView { threads: prune_forest(m.threads, path), ..m }
}

/// The queue with every email whose file was at `from` now at `to`.
pub open spec fn rename_queue(
    s: Seq<(Seq<char>, Seq<ThreadView>)>,
    from: Seq<char>,
    to: Seq<char>,
) -> Seq<(Seq<char>, Seq<ThreadView>)> {
    Seq::new(s.len(), |i: int| (s[i].0, rename_forest(s[i].1, from, to)))
}

/// The content after the file at `from` was renamed to `to`: every
/// tracked email whose file was at `from` is at `to`; nothing else
/// changes.
pub open spec fn rename_spec(m: MaildirView, from: Seq<char>, to: Seq<char>) -> MaildirView {
    MaildirView {
        threads: rename_forest(m.threads, from, to),
        searching: rename_queue(m.searching, from, to),
        detached: rename_forest(m.detached, from, to),
        ..m
    }
}

proof fn lemma_rename_queue_count(s: Seq<(Seq<char>, Seq<ThreadView>)>, from: Seq<char>, to: Seq<char>)
    ensures
        queue_count(rename_queue(s, from, to)) == queue_count(s),
    decreases s.len(),
{
    if s.len() > 0 {
        let r = s.subrange(1, s.len() as int);
        lemma_rename_queue_count(r, from, to);
        lemma_rename_count_forest(s[0].1, from, to);
        let q = rename_queue(s, from, to);
        assert(q.subrange(1, q.len() as int) =~= rename_queue(r, from, to));
        assert(q[0] == (s[0].0, rename_forest(s[0].1, from, to)));
    }
}

/// Renaming keeps the number of tracked emails.
proof fn lemma_rename_total(m: MaildirView, from: Seq<char>, to: Seq<char>)
    ensures
        total(rename_spec(m, from, to)) == total(m),
{
    lemma_rename_count_forest(m.threads, from, to);
    lemma_rename_count_forest(m.detached, from, to);
    lemma_rename_queue_count(m.searching, from, to);
}

proof fn lemma_rename_queue_has(
    s: Seq<(Seq<char>, Seq<ThreadView>)>,
    from: Seq<char>,
    to: Seq<char>,
    id: Seq<char>,
)
    ensures
        queue_has_id(rename_queue(s, from, to), id) == queue_has_id(s, id),
    decreases s.len(),
{
    if s.len() > 0 {
        let r = s.subrange(1, s.len() as int);
        lemma_rename_queue_has(r, from, to, id);
        lemma_rename_has_forest(s[0].1, from, to, id);
        let q = rename_queue(s, from, to);
        assert(q.subrange(1, q.len() as int) =~= rename_queue(r, from, to));
        assert(q[0] == (s[0].0, rename_forest(s[0].1, from, to)));
    }
}

/// Renaming a file keeps every tracked email: the same message ids are
/// tracked, as many emails as before, in the same folder.
pub proof fn lemma_rename_keeps(m: MaildirView, from: Seq<char>, to: Seq<char>, id: Seq<char>)
    ensures
        tracks(rename_spec(m, from, to), id) == tracks(m, id),
        total(rename_spec(m, from, to)) == total(m),
        rename_spec(m, from, to).dir == m.dir,
{
    lemma_rename_total(m, from, to);
    lemma_rename_has_forest(m.threads, from, to, id);
    lemma_rename_has_forest(m.detached, from, to, id);
    lemma_rename_queue_has(m.searching, from, to, id);
}

fn rename_queue_exec(q: Vec<Waiting>, from: &[char], to: &str) -> (r: Vec<Waiting>)
    ensures
        queue_view(r@) == rename_queue(queue_view(q@), from@, to@),
{
    let ghost q0 = q@;
    proof {
        lemma_queue_view(q0);
    }
    let n = q.len();
    let mut rest = q;
    let mut out: Vec<Waiting> = Vec::new();
    let mut i: usize = 0;
    assert(q0.subrange(0, n as int) =~= q0);
    while i < n
        invariant
            n == q0.len(),
            i <= n,
            rest@ == q0.subrange(i as int, n as int),
            out@.len() == i,
            forall|j: int| 0 <= j < n ==> #[trigger] queue_view(q0)[j] == waiting_view(q0[j]),
            forall|j: int|
                0 <= j < i ==> #[trigger] waiting_view(out@[j]) == (
                    queue_view(q0)[j].0,
                    rename_forest(queue_view(q0)[j].1, from@, to@),
                ),
        decreases n - i,
    {
        let ghost before = rest@;
        let w = rest.remove(0);
        assert(w == q0[i as int]);
        assert(rest@ =~= q0.subrange(i + 1, n as int));
        let Waiting { parent_id, children } = w;
        let children = rename_forest_exec(children, from, to);
        out.push(Waiting { parent_id, children });
        i += 1;
    }
    proof {
        lemma_queue_view(out@);
        assert(queue_view(out@) =~= rename_queue(queue_view(q0), from@, to@));
    }
    out
}

/// The queued replies, queue entry after queue entry.
pub open spec fn orphans(s: Seq<(Seq<char>, Seq<ThreadView>)>) -> Seq<ThreadView>
    decreases s.len(),
{
    if s.len() == 0 {
        seq![]
    } else {
        s[0].1 + orphans(s.subrange(1, s.len() as int))
    }
}

/// The tree after invalidation: the replies whose parent never showed up
/// become root threads, and the root threads are sorted (see
/// [`sort_forest`]).
pub open spec fn invalidate_spec(m: MaildirView) -> MaildirView {
    MaildirView {
        threads: sort_forest(m.threads + orphans(m.searching), m.sort_order),
        searching: seq![],
        ..m
    }
}

proof fn lemma_orphans_concat(
    a: Seq<(Seq<char>, Seq<ThreadView>)>,
    b: Seq<(Seq<char>, Seq<ThreadView>)>,
)
    ensures
        orphans(a + b) == orphans(a) + orphans(b),
    decreases a.len(),
{
    if a.len() == 0 {
        assert(a + b =~= b);
        assert(Seq::<ThreadView>::empty() + orphans(b) =~= orphans(b));
    } else {
        let r = a.subrange(1, a.len() as int);
        lemma_orphans_concat(r, b);
        let g = a + b;
        assert(g[0] == a[0]);
        assert(g.subrange(1, g.len() as int) =~= r + b);
        assert(orphans(a + b) =~= orphans(a) + orphans(b));
    }
}

proof fn lemma_orphans_keep(s: Seq<(Seq<char>, Seq<ThreadView>)>, id: Seq<char>)
    ensures
        forest_count(orphans(s)) == queue_count(s),
        forest_has_id(orphans(s), id) == queue_has_id(s, id),
    decreases s.len(),
{
    if s.len() > 0 {
        let r = s.subrange(1, s.len() as int);
        lemma_orphans_keep(r, id);
        lemma_count_concat(s[0].1, orphans(r));
        lemma_has_concat(s[0].1, orphans(r), id);
    }
}

/// Invalidation keeps every tracked email: the count and the set of
/// tracked message ids are unchanged, and no reply stays queued.
pub proof fn lemma_invalidate_keeps(m: MaildirView, id: Seq<char>)
    ensures
        total(invalidate_spec(m)) == total(m),
        tracks(invalidate_spec(m), id) == tracks(m, id),
        invalidate_spec(m).searching.len() == 0,
{
    let all = m.threads + orphans(m.searching);
    lemma_sort_keeps(all, m.sort_order, id);
    lemma_count_concat(m.threads, orphans(m.searching));
    lemma_has_concat(m.threads, orphans(m.searching), id);
    lemma_orphans_keep(m.searching, id);
    let e = Seq::<(Seq<char>, Seq<ThreadView>)>::empty();
    assert(queue_count(e) == 0);
    assert(!queue_has_id(e, id));
}

/// After invalidation the root threads are ordered by their most recent
/// timestamp, in the tree's sort order.
pub proof fn lemma_invalidate_sorted(m: MaildirView)
    ensures
        is_sorted(invalidate_spec(m).threads, m.sort_order),
{
    lemma_sort_sorted(m.threads + orphans(m.searching), m.sort_order);
}

/// Invalidating twice is invalidating once: an invalidated tree is left as
/// it is.
pub proof fn lemma_invalidate_idempotent(m: MaildirView)
    ensures
        invalidate_spec(invalidate_spec(m)) == invalidate_spec(m),
{
    let once = invalidate_spec(m);
    let x = m.threads + orphans(m.searching);
    assert(orphans(once.searching) =~= Seq::<ThreadView>::empty());
    assert(once.threads + orphans(once.searching) =~= once.threads);
    lemma_sort_idempotent(x, m.sort_order);
    assert(invalidate_spec(once) =~~= once);
}

/// After invalidation every tracked email is in a root thread or among
/// the detached messages: the count is the number of emails of the root
/// threads and their replies, plus those detached.
pub proof fn lemma_invalidate_count(m: MaildirView)
    ensures
        total(invalidate_spec(m)) == forest_count(invalidate_spec(m).threads) + forest_count(
            m.detached,
        ),
{
    lemma_invalidate_keeps(m, Seq::empty());
    let e = Seq::<(Seq<char>, Seq<ThreadView>)>::empty();
    assert(queue_count(e) == 0);
}

/// Removing the file of an untracked path (no root thread holds it at any
/// depth) changes nothing.
pub proof fn lemma_remove_absent(m: MaildirView, path: Seq<char>)
    requires
        !forest_has_path(m.threads, path),
    ensures
        remove_spec(m, path) == m,
{
    lemma_prune_absent_forest(m.threads, path);
}

/// Removing never adds emails.
pub proof fn lemma_remove_count(m: MaildirView, path: Seq<char>)
    ensures
        total(remove_spec(m, path)) <= total(m),
{
    lemma_prune_count_forest(m.threads, path);
}

// ───────────────────────────── files and sync (spec) ────────────────────────

/// The paths of the emails of the thread `t`, in pre-order.
pub open spec fn tree_paths(t: ThreadView) -> Seq<Seq<char>>
    decreases t,
{
    seq![t.email.path] + forest_paths(t.replies)
}

/// The paths of the emails of the threads `f`, in pre-order.
pub open spec fn forest_paths(f: Seq<ThreadView>) -> Seq<Seq<char>>
    decreases f,
{
    if f.len() == 0 {
        seq![]
    } else {
        tree_paths(f[0]) + forest_paths(f.subrange(1, f.len() as int))
    }
}

/// The paths of the queued emails.
pub open spec fn queue_paths(s: Seq<(Seq<char>, Seq<ThreadView>)>) -> Seq<Seq<char>>
    decreases s.len(),
{
    if s.len() == 0 {
        seq![]
    } else {
        forest_paths(s[0].1) + queue_paths(s.subrange(1, s.len() as int))
    }
}

/// How many of the paths `ps` read as unread (each occurrence counted).
pub open spec fn unread_paths(ps: Seq<Seq<char>>) -> nat
    decreases ps.len(),
{
    if ps.len() == 0 {
        0
    } else {
        unread_paths(ps.drop_last()) + if path_is_unread(ps.last()) {
            1nat
        } else {
            0nat
        }
    }
}

proof fn lemma_unread_paths_concat(a: Seq<Seq<char>>, b: Seq<Seq<char>>)
    ensures
        unread_paths(a + b) == unread_paths(a) + unread_paths(b),
    decreases b.len(),
{
    if b.len() == 0 {
        assert(a + b =~= a);
    } else {
        lemma_unread_paths_concat(a, b.drop_last());
        assert((a + b).drop_last() =~= a + b.drop_last());
        assert((a + b).last() == b.last());
    }
}

proof fn lemma_forest_unread_paths(f: Seq<ThreadView>)
    ensures
        forest_unread(f) == unread_paths(forest_paths(f)),
    decreases f,
{
    if f.len() > 0 {
        let t = f[0];
        let r = f.subrange(1, f.len() as int);
        lemma_forest_unread_paths(t.replies);
        lemma_forest_unread_paths(r);
        let one = seq![t.email.path];
        lemma_unread_paths_concat(one, forest_paths(t.replies));
        lemma_unread_paths_concat(tree_paths(t), forest_paths(r));
        assert(one.drop_last() =~= Seq::<Seq<char>>::empty());
        assert(unread_paths(Seq::<Seq<char>>::empty()) == 0);
        assert(one.last() == t.email.path);
        assert(forest_unread(f) == tree_unread(t) + forest_unread(r));
        assert(forest_paths(f) == tree_paths(t) + forest_paths(r));
        assert(tree_paths(t) == one + forest_paths(t.replies));
        assert(unread_paths(one) == (if path_is_unread(t.email.path) {
            1nat
        } else {
            0nat
        }));
    }
}

proof fn lemma_queue_unread_paths(s: Seq<(Seq<char>, Seq<ThreadView>)>)
    ensures
        queue_unread(s) == unread_paths(queue_paths(s)),
    decreases s.len(),
{
    if s.len() > 0 {
        let r = s.subrange(1, s.len() as int);
        lemma_queue_unread_paths(r);
        lemma_forest_unread_paths(s[0].1);
        lemma_unread_paths_concat(forest_paths(s[0].1), queue_paths(r));
    }
}

/// The unread count of a tree is the number of its tracked emails whose own
/// file reads as unread, each email counted once: each tracked email has
/// one path in [`known_paths`], and the count is how many of those read as
/// unread.
pub proof fn lemma_unread_count(m: MaildirView)
    ensures
        total_unread(m) == unread_paths(known_paths(m)),
        known_paths(m).len() == total(m),
{
    lemma_forest_unread_paths(m.threads);
    lemma_queue_unread_paths(m.searching);
    lemma_forest_unread_paths(m.detached);
    lemma_unread_paths_concat(forest_paths(m.threads), queue_paths(m.searching));
    lemma_unread_paths_concat(
        forest_paths(m.threads) + queue_paths(m.searching),
        forest_paths(m.detached),
    );
    lemma_forest_paths_len(m.threads);
    lemma_forest_paths_len(m.detached);
    lemma_queue_paths_len(m.searching);
}

proof fn lemma_forest_paths_len(f: Seq<ThreadView>)
    ensures
        forest_paths(f).len() == forest_count(f),
    decreases f,
{
    if f.len() > 0 {
        let r = f.subrange(1, f.len() as int);
        lemma_forest_paths_len(f[0].replies);
        lemma_forest_paths_len(r);
        assert(forest_paths(f) == tree_paths(f[0]) + forest_paths(r));
        assert(tree_paths(f[0]).len() == 1 + forest_paths(f[0].replies).len());
        assert(forest_count(f) == tree_count(f[0]) + forest_count(r));
    }
}

proof fn lemma_queue_paths_len(s: Seq<(Seq<char>, Seq<ThreadView>)>)
    ensures
        queue_paths(s).len() == queue_count(s),
    decreases s.len(),
{
    if s.len() > 0 {
        lemma_forest_paths_len(s[0].1);
        lemma_queue_paths_len(s.subrange(1, s.len() as int));
    }
}

/// The paths of all tracked emails: root threads, queued replies, detached
/// messages.
pub open spec fn known_paths(m: MaildirView) -> Seq<Seq<char>> {
    forest_paths(m.threads) + queue_paths(m.searching) + forest_paths(m.detached)
}

/// The paths of `ps` that `disk` does not hold, in order.
pub open spec fn missing_from(ps: Seq<Seq<char>>, disk: Seq<Seq<char>>) -> Seq<Seq<char>>
    decreases ps.len(),
{
    if ps.len() == 0 {
        seq![]
    } else {
        let r = missing_from(ps.drop_last(), disk);
        if disk.contains(ps.last()) {
            r
        } else {
            r.push(ps.last())
        }
    }
}

/// The tree after removing the files `ps`, one after the other.
pub open spec fn remove_all(m: MaildirView, ps: Seq<Seq<char>>) -> MaildirView
    decreases ps.len(),
{
    if ps.len() == 0 {
        m
    } else {
        remove_spec(remove_all(m, ps.drop_last()), ps.last())
    }
}

/// The first pass of a synchronisation with the folder holding the files
/// `disk`: every tracked email whose file is gone is removed.
pub open spec fn sync_spec(m: MaildirView, disk: Seq<Seq<char>>) -> MaildirView {
    remove_all(m, missing_from(known_paths(m), disk))
}

/// A message file as read from disk: where it lives and its bytes.
pub struct MailFile {
    pub path: String,
    pub contents: Vec<u8>,
}

/// The paths and contents of message files.
pub open spec fn file_views(fs: Seq<MailFile>) -> Seq<(Seq<char>, Seq<u8>)> {
    Seq::new(fs.len(), |i: int| (fs[i].path@, fs[i].contents@))
}

/// The tree after inserting the files `fs`, one after the other.
pub open spec fn insert_files_spec(m: MaildirView, fs: Seq<(Seq<char>, Seq<u8>)>) -> MaildirView
    decreases fs.len(),
{
    if fs.len() == 0 {
        m
    } else {
        let r = insert_files_spec(m, fs.drop_last());
        insert_file_spec(r, fs.last().0, fs.last().1)
    }
}

/// The tree after a whole synchronisation with the folder holding the
/// files `disk`: the first pass, then the message files `fs` read for the
/// paths that arrived are inserted, then the tree is invalidated.
pub open spec fn full_sync_spec(
    m: MaildirView,
    disk: Seq<Seq<char>>,
    fs: Seq<(Seq<char>, Seq<u8>)>,
) -> MaildirView {
    invalidate_spec(insert_files_spec(sync_spec(m, disk), fs))
}

proof fn lemma_remove_all_count(m: MaildirView, ps: Seq<Seq<char>>)
    ensures
        total(remove_all(m, ps)) <= total(m),
    decreases ps.len(),
{
    if ps.len() > 0 {
        lemma_remove_all_count(m, ps.drop_last());
        lemma_remove_count(remove_all(m, ps.drop_last()), ps.last());
    }
}

proof fn lemma_insert_files_tracks(m: MaildirView, fs: Seq<(Seq<char>, Seq<u8>)>, x: Seq<char>)
    ensures
        tracks(m, x) ==> tracks(insert_files_spec(m, fs), x),
        forall|i: int|
            0 <= i < fs.len() && (#[trigger] email_from_fields(parsed_headers(fs[i].1), fs[i].0)
                matches Ok(e) && e.message_id == x) ==> tracks(insert_files_spec(m, fs), x),
    decreases fs.len(),
{
    if fs.len() > 0 {
        let d = fs.drop_last();
        lemma_insert_files_tracks(m, d, x);
        let r = insert_files_spec(m, d);
        match email_from_fields(parsed_headers(fs.last().1), fs.last().0) {
            Ok(e) => {
                lemma_insert_tracks(r, e, x);
            },
            Err(_) => {},
        }
        assert forall|i: int|
            0 <= i < fs.len() && (#[trigger] email_from_fields(parsed_headers(fs[i].1), fs[i].0)
                matches Ok(e) && e.message_id == x) implies tracks(
            insert_files_spec(m, fs),
            x,
        ) by {
            if i < fs.len() - 1 {
                assert(d[i] == fs[i]);
            }
        }
    }
}

/// A whole synchronisation leaves no reply queued, keeps the root threads
/// ordered by their latest timestamp, and tracks the id of every file it
/// read whose headers parse.
pub proof fn lemma_full_sync(
    m: MaildirView,
    disk: Seq<Seq<char>>,
    fs: Seq<(Seq<char>, Seq<u8>)>,
    i: int,
)
    requires
        0 <= i < fs.len(),
    ensures
        full_sync_spec(m, disk, fs).searching.len() == 0,
        is_sorted(full_sync_spec(m, disk, fs).threads, m.sort_order),
        email_from_fields(parsed_headers(fs[i].1), fs[i].0) matches Ok(e) ==> tracks(
            full_sync_spec(m, disk, fs),
            e.message_id,
        ),
{
    let before = insert_files_spec(sync_spec(m, disk), fs);
    lemma_invalidate_sorted(before);
    lemma_insert_files_order(sync_spec(m, disk), fs);
    lemma_remove_all_order(m, missing_from(known_paths(m), disk));
    match email_from_fields(parsed_headers(fs[i].1), fs[i].0) {
        Ok(e) => {
            lemma_insert_files_tracks(sync_spec(m, disk), fs, e.message_id);
            lemma_invalidate_keeps(before, e.message_id);
        },
        Err(_) => {
            lemma_invalidate_keeps(before, Seq::empty());
        },
    }
}

proof fn lemma_insert_files_known(m: MaildirView, fs: Seq<(Seq<char>, Seq<u8>)>)
    requires
        forall|i: int|
            0 <= i < fs.len() ==> match #[trigger] email_from_fields(parsed_headers(fs[i].1), fs[i].0) {
                Ok(e) => tracks(m, e.message_id),
                Err(_) => true,
            },
    ensures
        insert_files_spec(m, fs) == m,
    decreases fs.len(),
{
    if fs.len() > 0 {
        let d = fs.drop_last();
        assert forall|i: int| 0 <= i < d.len() implies match #[trigger] email_from_fields(
            parsed_headers(d[i].1),
            d[i].0,
        ) {
            Ok(e) => tracks(m, e.message_id),
            Err(_) => true,
        } by {
            assert(d[i] == fs[i]);
        }
        lemma_insert_files_known(m, d);
        assert(fs.last() == fs[fs.len() - 1]);
        match email_from_fields(parsed_headers(fs.last().1), fs.last().0) {
            Ok(e) => lemma_insert_duplicate(m, e),
            Err(_) => {},
        }
    }
}

/// Synchronising when nothing has changed on disk is only the sort pass:
/// when every tracked file is still listed and every file read holds no
/// parseable message or one whose id is already tracked, a whole
/// synchronisation is an invalidation, and an invalidated tree is left as
/// it is.
pub proof fn lemma_sync_unchanged_disk(
    m: MaildirView,
    disk: Seq<Seq<char>>,
    fs: Seq<(Seq<char>, Seq<u8>)>,
)
    requires
        forall|p: Seq<char>| known_paths(m).contains(p) ==> disk.contains(p),
        forall|i: int|
            0 <= i < fs.len() ==> match #[trigger] email_from_fields(parsed_headers(fs[i].1), fs[i].0) {
                Ok(e) => tracks(m, e.message_id),
                Err(_) => true,
            },
    ensures
        full_sync_spec(m, disk, fs) == invalidate_spec(m),
        invalidate_spec(m) == m ==> full_sync_spec(m, disk, fs) == m,
{
    lemma_missing_none(known_paths(m), disk);
    assert(sync_spec(m, disk) == m);
    lemma_insert_files_known(m, fs);
}

/// A second whole synchronisation with an unchanged folder changes
/// nothing: when it reads only files the first one read, and every file the
/// first one left tracked is still listed, the tree is the one the first
/// synchronisation gave.
pub proof fn lemma_sync_twice(
    m: MaildirView,
    disk: Seq<Seq<char>>,
    fs: Seq<(Seq<char>, Seq<u8>)>,
    again: Seq<(Seq<char>, Seq<u8>)>,
)
    requires
        forall|j: int| 0 <= j < again.len() ==> exists|i: int| 0 <= i < fs.len() && fs[i] == #[trigger] again[j],
        forall|p: Seq<char>|
            known_paths(full_sync_spec(m, disk, fs)).contains(p) ==> disk.contains(p),
    ensures
        full_sync_spec(full_sync_spec(m, disk, fs), disk, again) == full_sync_spec(m, disk, fs),
{
    let m1 = full_sync_spec(m, disk, fs);
    assert forall|j: int|
        0 <= j < again.len() implies match #[trigger] email_from_fields(
            parsed_headers(again[j].1),
            again[j].0,
        ) {
            Ok(e) => tracks(m1, e.message_id),
            Err(_) => true,
        } by {
        let i = choose|i: int| 0 <= i < fs.len() && fs[i] == again[j];
        lemma_full_sync(m, disk, fs, i);
    }
    lemma_sync_unchanged_disk(m1, disk, again);
    lemma_invalidate_idempotent(insert_files_spec(sync_spec(m, disk), fs));
}

proof fn lemma_remove_all_order(m: MaildirView, ps: Seq<Seq<char>>)
    ensures
        remove_all(m, ps).sort_order == m.sort_order,
    decreases ps.len(),
{
    if ps.len() > 0 {
        lemma_remove_all_order(m, ps.drop_last());
    }
}

proof fn lemma_insert_files_order(m: MaildirView, fs: Seq<(Seq<char>, Seq<u8>)>)
    ensures
        insert_files_spec(m, fs).sort_order == m.sort_order,
    decreases fs.len(),
{
    if fs.len() > 0 {
        lemma_insert_files_order(m, fs.drop_last());
    }
}

/// The empty tree of the folder `dir`.
pub open spec fn empty_view(dir: Seq<char>) -> MaildirView {
    MaildirView {
        dir,
        threads: seq![],
        searching: seq![],
        detached: seq![],
        sort_order: SortOrder::Descending,
    }
}

/// A message and a reply to it, inserted into an empty tree in either
/// order, give the same tree: one root thread, the message, with the reply
/// as its only reply.
pub proof fn lemma_insert_order(dir: Seq<char>, p: EmailInfo, c: EmailInfo)
    requires
        p.reply_to is None,
        c.reply_to == Some(p.message_id),
        c.message_id != p.message_id,
    ensures
        insert_spec(insert_spec(empty_view(dir), p), c) == insert_spec(
            insert_spec(empty_view(dir), c),
            p,
        ),
        insert_spec(insert_spec(empty_view(dir), p), c).threads == seq![
            ThreadView { email: p, replies: seq![ThreadView { email: c, replies: seq![] }] },
        ],
        total(insert_spec(insert_spec(empty_view(dir), p), c)) == 2,
{
    let e = empty_view(dir);
    let none_f = Seq::<ThreadView>::empty();
    let none_q = Seq::<(Seq<char>, Seq<ThreadView>)>::empty();
    let pn = ThreadView { email: p, replies: none_f };
    let cn = ThreadView { email: c, replies: none_f };
    assert(!forest_has_id(none_f, p.message_id));
    assert(!forest_has_id(none_f, c.message_id));
    assert(!queue_has_id(none_q, p.message_id));
    assert(!queue_has_id(none_q, c.message_id));
    assert(waiting_for(none_q, p.message_id) == none_f);
    assert(waiting_for(none_q, c.message_id) == none_f);
    assert(without_key(none_q, p.message_id) == none_q);
    assert(without_key(none_q, c.message_id) == none_q);
    // parent first
    let m1 = insert_spec(e, p);
    assert(m1.threads =~= seq![pn]);
    assert(m1.searching == none_q);
    assert(tree_has_id(pn, p.message_id));
    assert(seq![pn].subrange(1, 1) =~= none_f);
    assert(forest_has_id(seq![pn], p.message_id));
    assert(!tree_has_id(pn, c.message_id));
    assert(!forest_has_id(seq![pn], c.message_id));
    assert(!tracks(m1, c.message_id));
    let cpn = ThreadView { email: p, replies: seq![cn] };
    assert(attach_tree(pn, p.message_id, cn) == ThreadView { email: p, replies: none_f.push(cn) });
    assert(none_f.push(cn) =~= seq![cn]);
    assert(attach_forest(seq![pn], p.message_id, cn) =~= seq![cpn]);
    let a = insert_spec(m1, c);
    assert(a.threads =~= seq![cpn]);
    // reply first
    let m2 = insert_spec(e, c);
    assert(enqueue(none_q, p.message_id, cn) == seq![(p.message_id, seq![cn])]);
    assert(m2.searching == seq![(p.message_id, seq![cn])]);
    let q = m2.searching;
    assert(tree_has_id(cn, p.message_id) == false);
    assert(seq![cn].subrange(1, 1) =~= none_f);
    assert(!forest_has_id(seq![cn], p.message_id));
    assert(q.subrange(1, 1) =~= none_q);
    assert(!queue_has_id(q, p.message_id));
    assert(!tracks(m2, p.message_id));
    assert(q[0].0 == p.message_id);
    assert(waiting_for(q, p.message_id) == seq![cn]);
    assert(without_key(q, p.message_id) =~= none_q);
    let b = insert_spec(m2, p);
    assert(b.threads =~= seq![cpn]);
    assert(a == b);
    assert(forest_count(none_f) == 0);
    lemma_count_push(none_f, cn);
    assert(none_f.push(cn) =~= seq![cn]);
    lemma_count_push(none_f, cpn);
    assert(none_f.push(cpn) =~= seq![cpn]);
    assert(tree_count(cpn) == 1 + forest_count(seq![cn]));
    assert(queue_count(none_q) == 0);
}

/// The message ids occurring in the threads `f`.
pub open spec fn forest_ids(f: Seq<ThreadView>) -> Set<Seq<char>> {
    Set::new(|x: Seq<char>| forest_has_id(f, x))
}

/// The message ids occurring in the queue `s`.
pub open spec fn queue_ids(s: Seq<(Seq<char>, Seq<ThreadView>)>) -> Set<Seq<char>> {
    Set::new(|x: Seq<char>| queue_has_id(s, x))
}

/// The message ids tracked by the tree `m`.
pub open spec fn tracked_ids(m: MaildirView) -> Set<Seq<char>> {
    Set::new(|x: Seq<char>| tracks(m, x))
}

/// No message id occurs twice in the tree: there are as many tracked
/// emails as tracked ids.
pub open spec fn distinct_ids(m: MaildirView) -> bool {
    tracked_ids(m).len() == total(m)
}

proof fn lemma_forest_ids(f: Seq<ThreadView>)
    ensures
        forest_ids(f).finite(),
        forest_ids(f).len() <= forest_count(f),
    decreases f,
{
    if f.len() == 0 {
        assert(forest_ids(f) =~= Set::<Seq<char>>::empty());
    } else {
        let t = f[0];
        let r = f.subrange(1, f.len() as int);
        lemma_forest_ids(t.replies);
        lemma_forest_ids(r);
        let own = Set::<Seq<char>>::empty().insert(t.email.message_id);
        let ti = own.union(forest_ids(t.replies));
        assert forall|x: Seq<char>| forest_ids(f).contains(x) == ti.union(forest_ids(r)).contains(
            x,
        ) by {
            assert(forest_has_id(f, x) == (tree_has_id(t, x) || forest_has_id(r, x)));
            assert(tree_has_id(t, x) == (t.email.message_id == x || forest_has_id(t.replies, x)));
        }
        assert(forest_ids(f) =~= ti.union(forest_ids(r)));
        assert(forest_count(f) == tree_count(t) + forest_count(r));
        assert(tree_count(t) == 1 + forest_count(t.replies));
        vstd::set_lib::lemma_len_union(own, forest_ids(t.replies));
        vstd::set_lib::lemma_len_union(ti, forest_ids(r));
        assert(own.len() == 1);
    }
}

proof fn lemma_queue_ids(s: Seq<(Seq<char>, Seq<ThreadView>)>)
    ensures
        queue_ids(s).finite(),
        queue_ids(s).len() <= queue_count(s),
    decreases s.len(),
{
    if s.len() == 0 {
        assert(queue_ids(s) =~= Set::<Seq<char>>::empty());
    } else {
        let r = s.subrange(1, s.len() as int);
        lemma_queue_ids(r);
        lemma_forest_ids(s[0].1);
        assert(queue_ids(s) =~= forest_ids(s[0].1).union(queue_ids(r)));
        vstd::set_lib::lemma_len_union(forest_ids(s[0].1), queue_ids(r));
    }
}

/// The tracked ids are finitely many, never more than the tracked emails.
pub proof fn lemma_tracked_ids(m: MaildirView)
    ensures
        tracked_ids(m).finite(),
        tracked_ids(m).len() <= total(m),
{
    lemma_forest_ids(m.threads);
    lemma_queue_ids(m.searching);
    lemma_forest_ids(m.detached);
    let a = forest_ids(m.threads).union(queue_ids(m.searching));
    assert(tracked_ids(m) =~= a.union(forest_ids(m.detached)));
    vstd::set_lib::lemma_len_union(forest_ids(m.threads), queue_ids(m.searching));
    vstd::set_lib::lemma_len_union(a, forest_ids(m.detached));
}

/// An empty tree has no message id twice.
pub proof fn lemma_distinct_empty(dir: Seq<char>)
    ensures
        distinct_ids(empty_view(dir)),
{
    let e = empty_view(dir);
    assert(tracked_ids(e) =~= Set::<Seq<char>>::empty());
    assert(queue_count(e.searching) == 0);
}

/// Inserting an email keeps every message id occurring once.
pub proof fn lemma_insert_distinct(m: MaildirView, e: EmailInfo)
    requires
        distinct_ids(m),
    ensures
        distinct_ids(insert_spec(m, e)),
{
    lemma_insert_count(m, e);
    lemma_tracked_ids(m);
    let n = insert_spec(m, e);
    if tracks(m, e.message_id) {
        lemma_insert_duplicate(m, e);
    } else {
        assert forall|x: Seq<char>| tracked_ids(n).contains(x) == tracked_ids(m).insert(
            e.message_id,
        ).contains(x) by {
            lemma_insert_tracks(m, e, x);
        }
        assert(tracked_ids(n) =~= tracked_ids(m).insert(e.message_id));
        assert(!tracked_ids(m).contains(e.message_id));
    }
}

/// Invalidating (and so changing the sort order) keeps every message id
/// occurring once.
pub proof fn lemma_invalidate_distinct(m: MaildirView, order: SortOrder)
    requires
        distinct_ids(m),
    ensures
        distinct_ids(invalidate_spec(m)),
        distinct_ids(invalidate_spec(MaildirView { sort_order: order, ..m })),
{
    let m2 = MaildirView { sort_order: order, ..m };
    lemma_invalidate_keeps(m, Seq::empty());
    lemma_invalidate_keeps(m2, Seq::empty());
    assert forall|x: Seq<char>| tracked_ids(invalidate_spec(m)).contains(x) == tracked_ids(
        m,
    ).contains(x) by {
        lemma_invalidate_keeps(m, x);
    }
    assert(tracked_ids(invalidate_spec(m)) =~= tracked_ids(m));
    assert forall|x: Seq<char>| tracked_ids(invalidate_spec(m2)).contains(x) == tracked_ids(
        m,
    ).contains(x) by {
        lemma_invalidate_keeps(m2, x);
    }
    assert(tracked_ids(invalidate_spec(m2)) =~= tracked_ids(m));
    assert(tracked_ids(m2) =~= tracked_ids(m));
}

/// Renaming a file keeps every message id occurring once.
pub proof fn lemma_rename_distinct(m: MaildirView, from: Seq<char>, to: Seq<char>)
    requires
        distinct_ids(m),
    ensures
        distinct_ids(rename_spec(m, from, to)),
{
    lemma_rename_keeps(m, from, to, Seq::empty());
    assert forall|x: Seq<char>| tracked_ids(rename_spec(m, from, to)).contains(x) == tracked_ids(
        m,
    ).contains(x) by {
        lemma_rename_keeps(m, from, to, x);
    }
    assert(tracked_ids(rename_spec(m, from, to)) =~= tracked_ids(m));
}

/// Removing a file keeps every message id occurring once.
pub proof fn lemma_remove_distinct(m: MaildirView, path: Seq<char>)
    requires
        distinct_ids(m),
    ensures
        distinct_ids(remove_spec(m, path)),
{
    let n = remove_spec(m, path);
    let g = pruned_forest(m.threads, path);
    lemma_pruned_forest(m.threads, path, Seq::empty());
    assert(total(m) == total(n) + forest_count(g));
    assert forall|x: Seq<char>| tracked_ids(m).contains(x) implies tracked_ids(n).union(
        forest_ids(g),
    ).contains(x) by {
        lemma_pruned_forest(m.threads, path, x);
    }
    lemma_tracked_ids(m);
    lemma_tracked_ids(n);
    lemma_forest_ids(g);
    let u = tracked_ids(n).union(forest_ids(g));
    vstd::set_lib::lemma_len_union(tracked_ids(n), forest_ids(g));
    vstd::set_lib::lemma_len_subset(tracked_ids(m), u);
}

proof fn lemma_remove_all_distinct(m: MaildirView, ps: Seq<Seq<char>>)
    requires
        distinct_ids(m),
    ensures
        distinct_ids(remove_all(m, ps)),
    decreases ps.len(),
{
    if ps.len() > 0 {
        lemma_remove_all_distinct(m, ps.drop_last());
        lemma_remove_distinct(remove_all(m, ps.drop_last()), ps.last());
    }
}

proof fn lemma_insert_files_distinct(m: MaildirView, fs: Seq<(Seq<char>, Seq<u8>)>)
    requires
        distinct_ids(m),
    ensures
        distinct_ids(insert_files_spec(m, fs)),
    decreases fs.len(),
{
    if fs.len() > 0 {
        lemma_insert_files_distinct(m, fs.drop_last());
        let r = insert_files_spec(m, fs.drop_last());
        match email_from_fields(parsed_headers(fs.last().1), fs.last().0) {
            Ok(e) => lemma_insert_distinct(r, e),
            Err(_) => {},
        }
    }
}

/// Synchronising with the folder (the first pass alone, or the whole of
/// it) keeps every message id occurring once.
pub proof fn lemma_sync_distinct(m: MaildirView, disk: Seq<Seq<char>>, fs: Seq<(Seq<char>, Seq<u8>)>)
    requires
        distinct_ids(m),
    ensures
        distinct_ids(sync_spec(m, disk)),
        distinct_ids(full_sync_spec(m, disk, fs)),
{
    lemma_remove_all_distinct(m, missing_from(known_paths(m), disk));
    lemma_insert_files_distinct(sync_spec(m, disk), fs);
    lemma_invalidate_distinct(insert_files_spec(sync_spec(m, disk), fs), m.sort_order);
}

/// The tree built from a folder's files has no message id twice.
pub proof fn lemma_new_distinct(dir: Seq<char>, fs: Seq<(Seq<char>, Seq<u8>)>)
    ensures
        distinct_ids(invalidate_spec(insert_files_spec(empty_view(dir), fs))),
{
    lemma_distinct_empty(dir);
    lemma_insert_files_distinct(empty_view(dir), fs);
    lemma_invalidate_distinct(insert_files_spec(empty_view(dir), fs), SortOrder::Descending);
}

/// In a tree where no message id occurs twice, nothing queued and nothing
/// detached (as after an invalidation with no reply loop), the root
/// threads hold every tracked email and no message id twice.
pub proof fn lemma_distinct_forest(m: MaildirView)
    requires
        distinct_ids(m),
        m.searching.len() == 0,
        m.detached.len() == 0,
    ensures
        total(m) == forest_count(m.threads),
        forest_ids(m.threads).len() == forest_count(m.threads),
{
    assert(queue_count(m.searching) == 0);
    assert(forest_count(m.detached) == 0);
    assert forall|x: Seq<char>| tracked_ids(m).contains(x) == forest_ids(m.threads).contains(x) by {
        assert(!queue_has_id(m.searching, x));
        assert(!forest_has_id(m.detached, x));
    }
    assert(tracked_ids(m) =~= forest_ids(m.threads));
}

/// The message ids of the direct replies of `t`, in order.
pub open spec fn child_ids(t: ThreadView) -> Seq<Seq<char>> {
    Seq::new(t.replies.len(), |i: int| t.replies[i].email.message_id)
}

proof fn lemma_find_has_tree(t: ThreadView, x: Seq<char>)
    ensures
        tree_find(t, x) is Some <==> tree_has_id(t, x),
        tree_find(t, x) matches Some(y) ==> y.email.message_id == x,
    decreases t,
{
    lemma_find_has_forest(t.replies, x);
}

proof fn lemma_find_has_forest(f: Seq<ThreadView>, x: Seq<char>)
    ensures
        forest_find(f, x) is Some <==> forest_has_id(f, x),
        forest_find(f, x) matches Some(y) ==> y.email.message_id == x,
    decreases f,
{
    if f.len() > 0 {
        lemma_find_has_tree(f[0], x);
        lemma_find_has_forest(f.subrange(1, f.len() as int), x);
    }
}

proof fn lemma_find_push(f: Seq<ThreadView>, y: ThreadView, q: Seq<char>)
    requires
        forest_has_id(f, q),
    ensures
        forest_find(f.push(y), q) == forest_find(f, q),
    decreases f.len(),
{
    let g = f.push(y);
    let r = f.subrange(1, f.len() as int);
    assert(g[0] == f[0]);
    assert(g.subrange(1, g.len() as int) =~= r.push(y));
    lemma_find_has_tree(f[0], q);
    if !tree_has_id(f[0], q) {
        lemma_find_push(r, y, q);
    }
}

proof fn lemma_attach_roots(f: Seq<ThreadView>, p: Seq<char>, node: ThreadView)
    ensures
        attach_forest(f, p, node).len() == f.len(),
        forall|i: int|
            0 <= i < f.len() ==> (#[trigger] attach_forest(f, p, node)[i]).email == f[i].email,
    decreases f.len(),
{
    if f.len() > 0 {
        let r = f.subrange(1, f.len() as int);
        lemma_attach_roots(r, p, node);
        if tree_has_id(f[0], p) {
            let g = seq![attach_tree(f[0], p, node)] + r;
            assert forall|i: int| 0 <= i < f.len() implies (#[trigger] g[i]).email == f[i].email by {
                if i > 0 {
                    assert(g[i] == r[i - 1]);
                }
            }
        } else {
            let g = seq![f[0]] + attach_forest(r, p, node);
            assert forall|i: int| 0 <= i < f.len() implies (#[trigger] g[i]).email == f[i].email by {
                if i > 0 {
                    assert(g[i] == attach_forest(r, p, node)[i - 1]);
                    assert(r[i - 1] == f[i]);
                }
            }
        }
    }
}

proof fn lemma_attach_find_tree(t: ThreadView, p: Seq<char>, node: ThreadView, q: Seq<char>)
    requires
        tree_has_id(t, p),
        forall|x: Seq<char>| tree_has_id(node, x) ==> !tree_has_id(t, x),
    ensures
        tree_find(attach_tree(t, p, node), p) matches Some(y) && tree_find(t, p) matches Some(y0)
            && y.email == y0.email && y.replies == y0.replies.push(node),
        tree_has_id(t, q) && q != p ==> (tree_find(attach_tree(t, p, node), q) matches Some(y)
            && tree_find(t, q) matches Some(y0) && child_ids(y) == child_ids(y0)),
    decreases t,
{
    let a = attach_tree(t, p, node);
    if t.email.message_id == p {
        assert(a.replies == t.replies.push(node));
        if tree_has_id(t, q) && q != p {
            assert(forest_has_id(t.replies, q));
            lemma_find_push(t.replies, node, q);
            assert(tree_find(a, q) == forest_find(a.replies, q));
            assert(tree_find(t, q) == forest_find(t.replies, q));
            lemma_find_has_forest(t.replies, q);
        }
    } else {
        lemma_attach_find_forest(t.replies, p, node, q);
        if t.email.message_id == q {
            lemma_attach_roots(t.replies, p, node);
            assert(child_ids(a) =~= child_ids(t));
        }
    }
}

proof fn lemma_attach_find_forest(f: Seq<ThreadView>, p: Seq<char>, node: ThreadView, q: Seq<char>)
    requires
        forest_has_id(f, p),
        forall|x: Seq<char>| tree_has_id(node, x) ==> !forest_has_id(f, x),
    ensures
        forest_find(attach_forest(f, p, node), p) matches Some(y) && forest_find(f, p) matches Some(
            y0,
        ) && y.email == y0.email && y.replies == y0.replies.push(node),
        forest_has_id(f, q) && q != p ==> (forest_find(attach_forest(f, p, node), q) matches Some(
            y,
        ) && forest_find(f, q) matches Some(y0) && child_ids(y) == child_ids(y0)),
    decreases f,
{
    let r = f.subrange(1, f.len() as int);
    assert forall|x: Seq<char>| tree_has_id(node, x) implies !tree_has_id(f[0], x)
        && !forest_has_id(r, x) by {}
    lemma_find_has_tree(f[0], p);
    lemma_find_has_tree(f[0], q);
    if forest_has_id(f, q) {
        assert(!tree_has_id(node, q));
    }
    if tree_has_id(f[0], p) {
        lemma_attach_find_tree(f[0], p, node, q);
        let g = seq![attach_tree(f[0], p, node)] + r;
        assert(g[0] == attach_tree(f[0], p, node));
        assert(g.subrange(1, g.len() as int) =~= r);
        assert(attach_forest(f, p, node) == g);
        if forest_has_id(f, q) && q != p && !tree_has_id(f[0], q) {
            lemma_attach_has_tree(f[0], p, node, q);
            lemma_find_has_tree(attach_tree(f[0], p, node), q);
            assert(forest_find(g, q) == forest_find(r, q));
            assert(forest_find(f, q) == forest_find(r, q));
            lemma_find_has_forest(r, q);
        }
    } else {
        let g = seq![f[0]] + attach_forest(r, p, node);
        assert(g[0] == f[0]);
        assert(g.subrange(1, g.len() as int) =~= attach_forest(r, p, node));
        assert(attach_forest(f, p, node) == g);
        assert(forest_has_id(r, p));
        lemma_attach_find_forest(r, p, node, q);
        if forest_has_id(f, q) && q != p && tree_has_id(f[0], q) {
            assert(forest_find(g, q) == tree_find(f[0], q));
            assert(forest_find(f, q) == tree_find(f[0], q));
        }
    }
}

proof fn lemma_distinct_disjoint(m: MaildirView, x: Seq<char>)
    requires
        distinct_ids(m),
    ensures
        !(forest_has_id(m.threads, x) && queue_has_id(m.searching, x)),
{
    if forest_has_id(m.threads, x) && queue_has_id(m.searching, x) {
        lemma_forest_ids(m.threads);
        lemma_queue_ids(m.searching);
        lemma_forest_ids(m.detached);
        let a = forest_ids(m.threads);
        let b = queue_ids(m.searching);
        let c = forest_ids(m.detached);
        vstd::set_lib::lemma_set_intersect_union_lens(a, b);
        let one = Set::<Seq<char>>::empty().insert(x);
        assert(one.len() == 1);
        assert(one.subset_of(a.intersect(b)));
        vstd::set_lib::lemma_len_subset(a.intersect(b), a);
        vstd::set_lib::lemma_len_subset(one, a.intersect(b));
        assert(tracked_ids(m) =~= (a + b).union(c));
        vstd::set_lib::lemma_len_union(a + b, c);
        assert(false);
    }
}

/// Inserting a reply to a message already in a thread, at any depth, makes
/// it the last direct reply of that message and of no other: the direct
/// replies of the message named by `In-Reply-To` gain the new id at their
/// end, and every other message of the threads keeps its direct replies.
pub proof fn lemma_insert_under_parent(m: MaildirView, e: EmailInfo, q: Seq<char>)
    requires
        distinct_ids(m),
        !tracks(m, e.message_id),
        e.reply_to matches Some(p) && p != e.message_id && forest_has_id(m.threads, p),
    ensures
        ({
            let p = e.reply_to->0;
            let n = insert_spec(m, e);
            &&& forest_find(n.threads, p) matches Some(y) && forest_find(m.threads, p) matches Some(
                y0,
            ) && child_ids(y) == child_ids(y0).push(e.message_id)
            &&& forest_has_id(m.threads, q) && q != p ==> (forest_find(n.threads, q) matches Some(y)
                && forest_find(m.threads, q) matches Some(y0) && child_ids(y) == child_ids(y0))
        }),
{
    let p = e.reply_to->0;
    let id = e.message_id;
    let waiting = waiting_for(m.searching, id);
    let node = ThreadView { email: e, replies: waiting };
    assert forall|x: Seq<char>| tree_has_id(node, x) implies !forest_has_id(m.threads, x) by {
        if x == id {
        } else {
            assert(forest_has_id(waiting, x));
            lemma_waiting_has(m.searching, id, x);
            lemma_distinct_disjoint(m, x);
        }
    }
    assert(!forest_has_id(waiting, p)) by {
        lemma_waiting_has(m.searching, id, p);
        lemma_distinct_disjoint(m, p);
    }
    lemma_attach_find_forest(m.threads, p, node, q);
    let n = insert_spec(m, e);
    assert(n.threads == attach_forest(m.threads, p, node));
    match forest_find(n.threads, p) {
        Some(y) => {
            let y0 = forest_find(m.threads, p)->0;
            assert(child_ids(y) =~= child_ids(y0).push(id));
        },
        None => {},
    }
}

/// Reading one file adds at most one email.
pub proof fn lemma_insert_file_count(m: MaildirView, path: Seq<char>, contents: Seq<u8>)
    ensures
        total(insert_file_spec(m, path, contents)) <= total(m) + 1,
{
    match email_from_fields(parsed_headers(contents), path) {
        Ok(e) => lemma_insert_count(m, e),
        Err(_) => {},
    }
}

/// When the folder holds exactly the tracked files, the first pass of a
/// synchronisation changes nothing and no file has arrived.
pub proof fn lemma_sync_unchanged(m: MaildirView, disk: Seq<Seq<char>>)
    requires
        forall|p: Seq<char>| known_paths(m).contains(p) ==> disk.contains(p),
        forall|p: Seq<char>| disk.contains(p) ==> known_paths(m).contains(p),
    ensures
        sync_spec(m, disk) == m,
        missing_from(disk, known_paths(sync_spec(m, disk))).len() == 0,
{
    lemma_missing_none(known_paths(m), disk);
    lemma_missing_none(disk, known_paths(m));
}

proof fn lemma_missing_none(ps: Seq<Seq<char>>, disk: Seq<Seq<char>>)
    requires
        forall|p: Seq<char>| ps.contains(p) ==> disk.contains(p),
    ensures
        missing_from(ps, disk) == Seq::<Seq<char>>::empty(),
    decreases ps.len(),
{
    if ps.len() > 0 {
        let a = ps.drop_last();
        assert forall|p: Seq<char>| a.contains(p) implies disk.contains(p) by {
            let k = choose|k: int| 0 <= k < a.len() && a[k] == p;
            assert(ps[k] == p);
        }
        lemma_missing_none(a, disk);
        assert(ps[ps.len() - 1] == ps.last());
        assert(ps.contains(ps.last()));
    }
}

// ───────────────────────────── membership lemmas ────────────────────────────

proof fn lemma_attach_has_tree(t: ThreadView, p: Seq<char>, node: ThreadView, x: Seq<char>)
    requires
        tree_has_id(t, p),
    ensures
        tree_has_id(attach_tree(t, p, node), x) == (tree_has_id(t, x) || tree_has_id(node, x)),
    decreases t,
{
    if t.email.message_id == p {
        let g = t.replies.push(node);
        assert(g.drop_last() =~= t.replies);
        lemma_has_last(g, x);
    } else {
        lemma_attach_has_forest(t.replies, p, node, x);
    }
}

proof fn lemma_attach_has_forest(f: Seq<ThreadView>, p: Seq<char>, node: ThreadView, x: Seq<char>)
    requires
        forest_has_id(f, p),
    ensures
        forest_has_id(attach_forest(f, p, node), x) == (forest_has_id(f, x) || tree_has_id(
            node,
            x,
        )),
    decreases f,
{
    let rest = f.subrange(1, f.len() as int);
    if tree_has_id(f[0], p) {
        lemma_attach_has_tree(f[0], p, node, x);
        let g = seq![attach_tree(f[0], p, node)] + rest;
        assert(g[0] == attach_tree(f[0], p, node));
        assert(g.subrange(1, g.len() as int) =~= rest);
    } else {
        lemma_attach_has_forest(rest, p, node, x);
        let g = seq![f[0]] + attach_forest(rest, p, node);
        assert(g[0] == f[0]);
        assert(g.subrange(1, g.len() as int) =~= attach_forest(rest, p, node));
    }
}

proof fn lemma_queue_has_cons(
    y: (Seq<char>, Seq<ThreadView>),
    s: Seq<(Seq<char>, Seq<ThreadView>)>,
    x: Seq<char>,
)
    ensures
        queue_has_id(seq![y] + s, x) == (forest_has_id(y.1, x) || queue_has_id(s, x)),
{
    let g = seq![y] + s;
    assert(g[0] == y);
    assert(g.subrange(1, g.len() as int) =~= s);
}

proof fn lemma_waiting_has(s: Seq<(Seq<char>, Seq<ThreadView>)>, id: Seq<char>, x: Seq<char>)
    ensures
        queue_has_id(s, x) == (queue_has_id(without_key(s, id), x) || forest_has_id(
            waiting_for(s, id),
            x,
        )),
    decreases s.len(),
{
    if s.len() > 0 && s[0].0 != id {
        let rest = s.subrange(1, s.len() as int);
        lemma_waiting_has(rest, id, x);
        lemma_queue_has_cons(s[0], without_key(rest, id), x);
    }
}

proof fn lemma_enqueue_has(s: Seq<(Seq<char>, Seq<ThreadView>)>, p: Seq<char>, node: ThreadView, x: Seq<char>)
    ensures
        queue_has_id(enqueue(s, p, node), x) == (queue_has_id(s, x) || tree_has_id(node, x)),
    decreases s.len(),
{
    if s.len() == 0 {
        let e = enqueue(s, p, node);
        assert(e.subrange(1, 1) =~= Seq::<(Seq<char>, Seq<ThreadView>)>::empty());
        let one = seq![node];
        assert(one.drop_last() =~= Seq::<ThreadView>::empty());
        lemma_has_last(one, x);
        assert(queue_has_id(e, x) == (forest_has_id(e[0].1, x) || queue_has_id(e.subrange(1, 1), x)));
        return;
    }
    let rest = s.subrange(1, s.len() as int);
    if s[0].0 == p {
        let g = s[0].1.push(node);
        assert(g.drop_last() =~= s[0].1);
        lemma_has_last(g, x);
        lemma_queue_has_cons((s[0].0, g), rest, x);
    } else {
        lemma_enqueue_has(rest, p, node, x);
        lemma_queue_has_cons(s[0], enqueue(rest, p, node), x);
    }
}

proof fn lemma_attach_queue_has(s: Seq<(Seq<char>, Seq<ThreadView>)>, p: Seq<char>, node: ThreadView, x: Seq<char>)
    requires
        queue_has_id(s, p),
    ensures
        queue_has_id(attach_queue(s, p, node), x) == (queue_has_id(s, x) || tree_has_id(node, x)),
    decreases s.len(),
{
    let rest = s.subrange(1, s.len() as int);
    if forest_has_id(s[0].1, p) {
        lemma_attach_has_forest(s[0].1, p, node, x);
        lemma_queue_has_cons((s[0].0, attach_forest(s[0].1, p, node)), rest, x);
    } else {
        lemma_attach_queue_has(rest, p, node, x);
        lemma_queue_has_cons(s[0], attach_queue(rest, p, node), x);
    }
}

/// Inserting an email whose message id is already tracked changes nothing:
/// duplicates are skipped.
pub proof fn lemma_insert_duplicate(m: MaildirView, e: EmailInfo)
    requires
        tracks(m, e.message_id),
    ensures
        insert_spec(m, e) == m,
{
}

/// After inserting an email, exactly the ids tracked before and the
/// email's own id are tracked: nothing is lost and the new id can be found.
pub proof fn lemma_insert_tracks(m: MaildirView, e: EmailInfo, x: Seq<char>)
    ensures
        tracks(insert_spec(m, e), x) == (tracks(m, x) || x == e.message_id),
{
    let id = e.message_id;
    if !tracks(m, id) {
        let waiting = waiting_for(m.searching, id);
        let rest = without_key(m.searching, id);
        let node = ThreadView { email: e, replies: waiting };
        lemma_waiting_has(m.searching, id, x);
        assert(tree_has_id(node, x) == (x == id || forest_has_id(waiting, x)));
        match e.reply_to {
            None => {
                let g = m.threads.push(node);
                assert(g.drop_last() =~= m.threads);
                lemma_has_last(g, x);
            },
            Some(p) => {
                if p == id {
                    let g = m.detached.push(node);
                    assert(g.drop_last() =~= m.detached);
                    lemma_has_last(g, x);
                } else if forest_has_id(waiting, p) {
                    let leaf = ThreadView { email: e, replies: seq![] };
                    lemma_attach_has_forest(waiting, p, leaf, x);
                    lemma_has_concat(m.detached, attach_forest(waiting, p, leaf), x);
                    assert(tree_has_id(leaf, x) == (x == id)) by {
                        reveal_with_fuel(forest_has_id, 2);
                    }
                } else if forest_has_id(m.threads, p) {
                    lemma_attach_has_forest(m.threads, p, node, x);
                } else if queue_has_id(rest, p) {
                    lemma_attach_queue_has(rest, p, node, x);
                } else if forest_has_id(m.detached, p) {
                    lemma_attach_has_forest(m.detached, p, node, x);
                } else {
                    lemma_enqueue_has(rest, p, node, x);
                }
            },
        }
    }
}

// ───────────────────────────── outgoing messages ────────────────────────────

/// Why a message cannot be written into the folder.
#[derive(Debug, PartialEq, Eq, Structural, Clone, Copy)]
pub enum WriteError {
    /// The text is not a well-formed email.
    InvalidFormat,
    /// The email has no `From` header.
    MissingFrom,
}

/// Whether the raw message `raw` may be written into a folder: it must
/// parse and have a `From` header.
pub open spec fn outgoing_check(raw: Seq<u8>) -> Result<(), WriteError> {
    match parsed_message(raw) {
        None => Err(WriteError::InvalidFormat),
        Some(m) => if m.has_from {
            Ok(())
        } else {
            Err(WriteError::MissingFrom)
        },
    }
}

/// Where a message written at `timestamp` by the process `pid` goes: the
/// `new/` folder of `dir`.
pub open spec fn new_message_path(dir: Seq<char>, timestamp: u64, pid: u32) -> Seq<char> {
    join(join(dir, "new"@), local_message_id(timestamp, pid))
}

// ───────────────────────────── counting lemmas ──────────────────────────────

pub(crate) proof fn lemma_count_push(f: Seq<ThreadView>, x: ThreadView)
    ensures
        forest_count(f.push(x)) == forest_count(f) + tree_count(x),
    decreases f.len(),
{
    if f.len() > 0 {
        lemma_count_push(f.subrange(1, f.len() as int), x);
        assert(f.push(x)[0] == f[0]);
        assert(f.push(x).subrange(1, f.len() + 1 as int) =~= f.subrange(1, f.len() as int).push(x));
        assert(forest_count(f) == tree_count(f[0]) + forest_count(f.subrange(1, f.len() as int)));
        assert(forest_count(f.push(x)) == tree_count(f[0]) + forest_count(
            f.push(x).subrange(1, f.len() + 1 as int),
        ));
    } else {
        assert(f.push(x)[0] == x);
        assert(f.push(x).subrange(1, 1) =~= Seq::<ThreadView>::empty());
        assert(forest_count(Seq::<ThreadView>::empty()) == 0);
        assert(forest_count(f) == 0);
        assert(forest_count(f.push(x)) == tree_count(x) + forest_count(f.push(x).subrange(1, 1)));
    }
}

pub(crate) proof fn lemma_count_cons(x: ThreadView, f: Seq<ThreadView>)
    ensures
        forest_count(seq![x] + f) == tree_count(x) + forest_count(f),
{
    let g = seq![x] + f;
    assert(g[0] == x);
    assert(g.subrange(1, g.len() as int) =~= f);
}

proof fn lemma_queue_count_cons(x: (Seq<char>, Seq<ThreadView>), s: Seq<(Seq<char>, Seq<ThreadView>)>)
    ensures
        queue_count(seq![x] + s) == forest_count(x.1) + queue_count(s),
{
    let g = seq![x] + s;
    assert(g[0] == x);
    assert(g.subrange(1, g.len() as int) =~= s);
}

proof fn lemma_attach_count_tree(t: ThreadView, p: Seq<char>, node: ThreadView)
    ensures
        tree_count(attach_tree(t, p, node)) == tree_count(t) + if tree_has_id(t, p) {
            tree_count(node)
        } else {
            0nat
        },
    decreases t,
{
    if t.email.message_id == p {
        lemma_count_push(t.replies, node);
    } else {
        lemma_attach_count_forest(t.replies, p, node);
    }
}

proof fn lemma_attach_count_forest(f: Seq<ThreadView>, p: Seq<char>, node: ThreadView)
    ensures
        forest_count(attach_forest(f, p, node)) == forest_count(f) + if forest_has_id(f, p) {
            tree_count(node)
        } else {
            0nat
        },
    decreases f,
{
    if f.len() > 0 {
        let rest = f.subrange(1, f.len() as int);
        if tree_has_id(f[0], p) {
            lemma_attach_count_tree(f[0], p, node);
            lemma_count_cons(attach_tree(f[0], p, node), rest);
        } else {
            lemma_attach_count_forest(rest, p, node);
            lemma_count_cons(f[0], attach_forest(rest, p, node));
        }
    }
}

proof fn lemma_waiting_count(s: Seq<(Seq<char>, Seq<ThreadView>)>, id: Seq<char>)
    ensures
        queue_count(s) == queue_count(without_key(s, id)) + forest_count(waiting_for(s, id)),
    decreases s.len(),
{
    if s.len() > 0 && s[0].0 != id {
        let rest = s.subrange(1, s.len() as int);
        lemma_waiting_count(rest, id);
        lemma_queue_count_cons(s[0], without_key(rest, id));
    }
}

proof fn lemma_enqueue_count(s: Seq<(Seq<char>, Seq<ThreadView>)>, p: Seq<char>, node: ThreadView)
    ensures
        queue_count(enqueue(s, p, node)) == queue_count(s) + tree_count(node),
    decreases s.len(),
{
    if s.len() == 0 {
        let e = enqueue(s, p, node);
        assert(e.subrange(1, 1) =~= Seq::<(Seq<char>, Seq<ThreadView>)>::empty());
        lemma_count_push(Seq::<ThreadView>::empty(), node);
        assert(seq![node] =~= Seq::<ThreadView>::empty().push(node));
        assert(queue_count(e) == forest_count(e[0].1) + queue_count(e.subrange(1, 1)));
        return;
    }
    let rest = s.subrange(1, s.len() as int);
    if s[0].0 == p {
        lemma_count_push(s[0].1, node);
        lemma_queue_count_cons((s[0].0, s[0].1.push(node)), rest);
    } else {
        lemma_enqueue_count(rest, p, node);
        lemma_queue_count_cons(s[0], enqueue(rest, p, node));
    }
}

proof fn lemma_attach_queue_count(s: Seq<(Seq<char>, Seq<ThreadView>)>, p: Seq<char>, node: ThreadView)
    ensures
        queue_count(attach_queue(s, p, node)) == queue_count(s) + if queue_has_id(s, p) {
            tree_count(node)
        } else {
            0nat
        },
    decreases s.len(),
{
    if s.len() > 0 {
        let rest = s.subrange(1, s.len() as int);
        if forest_has_id(s[0].1, p) {
            lemma_attach_count_forest(s[0].1, p, node);
            lemma_queue_count_cons((s[0].0, attach_forest(s[0].1, p, node)), rest);
        } else {
            lemma_attach_queue_count(rest, p, node);
            lemma_queue_count_cons(s[0], attach_queue(rest, p, node));
        }
    }
}

/// Inserting an email not yet tracked adds exactly one email to the count;
/// inserting one already tracked changes nothing.
pub proof fn lemma_insert_count(m: MaildirView, e: EmailInfo)
    ensures
        total(insert_spec(m, e)) == total(m) + if tracks(m, e.message_id) {
            0nat
        } else {
            1nat
        },
{
    let id = e.message_id;
    if !tracks(m, id) {
        let waiting = waiting_for(m.searching, id);
        let rest = without_key(m.searching, id);
        let node = ThreadView { email: e, replies: waiting };
        lemma_waiting_count(m.searching, id);
        assert(tree_count(node) == 1 + forest_count(waiting));
        match e.reply_to {
            None => {
                lemma_count_push(m.threads, node);
            },
            Some(p) => {
                if p == id {
                    lemma_count_push(m.detached, node);
                } else if forest_has_id(waiting, p) {
                    let leaf = ThreadView { email: e, replies: seq![] };
                    lemma_attach_count_forest(waiting, p, leaf);
                    lemma_count_concat(m.detached, attach_forest(waiting, p, leaf));
                    assert(tree_count(leaf) == 1) by {
                        reveal_with_fuel(forest_count, 2);
                    }
                } else if forest_has_id(m.threads, p) {
                    lemma_attach_count_forest(m.threads, p, node);
                } else if queue_has_id(rest, p) {
                    lemma_attach_queue_count(rest, p, node);
                } else if forest_has_id(m.detached, p) {
                    lemma_attach_count_forest(m.detached, p, node);
                } else {
                    lemma_enqueue_count(rest, p, node);
                }
            },
        }
    }
}

/// Holds the thread tree built from a Maildir folder.
pub struct Maildir {
    dir: String,
    threads: Vec<EmailThread>,
    searching: Vec<Waiting>,
    detached: Vec<EmailThread>,
    sort_order: SortOrder,
}

impl View for Maildir {
    type V = MaildirView;

    closed spec fn view(&self) -> MaildirView {
        MaildirView {
            dir: self.dir@,
            threads: forest_view(self.threads@),
            searching: queue_view(self.searching@),
            detached: forest_view(self.detached@),
            sort_order: self.sort_order,
        }
    }
}

impl Maildir {
    /// The number of tracked emails fits in a `usize`.
    #[verifier::type_invariant]
    closed spec fn inv(self) -> bool {
        total(self@) <= usize::MAX
    }

    /// An empty tree for the folder `dir`.
    pub fn empty(dir: &str) -> (r: Self)
        ensures
            r@ == (MaildirView {
                dir: dir@,
                threads: Seq::empty(),
                searching: Seq::empty(),
                detached: Seq::empty(),
                sort_order: SortOrder::Descending,
            }),
    {
        let m = Maildir {
            dir: dir.to_owned(),
            threads: Vec::new(),
            searching: Vec::new(),
            detached: Vec::new(),
            sort_order: SortOrder::Descending,
        };
        proof {
            assert(forest_view(m.threads@) =~= Seq::<ThreadView>::empty());
            assert(forest_view(m.detached@) =~= Seq::<ThreadView>::empty());
            assert(queue_view(m.searching@) =~= Seq::<(Seq<char>, Seq<ThreadView>)>::empty());
        }
        m
    }

    /// The folder this tree was built from.
    pub fn path(&self) -> (r: &str)
        ensures
            r@ == self@.dir,
    {
        self.dir.as_str()
    }

    /// The root threads.
    pub fn threads(&self) -> (r: &Vec<EmailThread>)
        ensures
            forest_view(r@) == self@.threads,
    {
        &self.threads
    }

    /// Return the current sort order.
    pub fn sort_order(&self) -> (r: SortOrder)
        ensures
            r == self@.sort_order,
    {
        self.sort_order
    }

    /// Total number of emails tracked in this mailbox.
    pub fn email_count(&self) -> (r: usize)
        ensures
            r == total(self@),
    {
        proof {
            use_type_invariant(self);
            lemma_forest_view(self.threads@);
        }
        let a = forest_count_of(&self.threads);
        let b = queue_count_of(&self.searching);
        let c = forest_count_of(&self.detached);
        a + b + c
    }

    /// Count the number of unread emails across all threads in this mailbox.
    pub fn unread_count(&self) -> (r: usize)
        ensures
            r == total_unread(self@),
    {
        proof {
            use_type_invariant(self);
            lemma_unread_le_count(self@.threads);
            lemma_unread_le_count(self@.detached);
            lemma_queue_unread_le_count(self@.searching);
        }
        let a = forest_unread_of(&self.threads);
        let b = queue_unread_of(&self.searching);
        let c = forest_unread_of(&self.detached);
        a + b + c
    }

    /// Parse headers from a single Maildir file and insert it into the
    /// thread tree. A no-op if the file has no parseable headers or no
    /// `Message-ID` (see [`Maildir::insert_email`]).
    ///
    /// Remember to run `invalidate()` once the insert operations are completed.
    pub fn insert(&mut self, path: &str, contents: &[u8])
        requires
            total(old(self)@) < usize::MAX,
        ensures
            final(self)@ == insert_file_spec(old(self)@, path@, contents@),
    {
        match Email::from_file(path, contents) {
            Ok(e) => self.insert_email(e),
            Err(_) => {},
        }
    }

    /// Insert one email into the thread tree; an email whose `Message-ID` is
    /// already tracked is skipped.
    ///
    /// Remember to run `invalidate()` once the insert operations are completed.
    pub fn insert_email(&mut self, e: Email)
        requires
            total(old(self)@) < usize::MAX,
        ensures
            final(self)@ == insert_spec(old(self)@, e@),
    {
        proof {
            use_type_invariant(&*self);
            lemma_insert_count(self@, e@);
        }
        let ghost m = self@;
        let ghost ev = e@;
        let id = crate::text::to_chars(e.message_id.as_str());
        if forest_has(&self.threads, id.as_slice()) || queue_has(&self.searching, id.as_slice())
            || forest_has(&self.detached, id.as_slice()) {
            return ;
        }
        let mut threads: Vec<EmailThread> = Vec::new();
        let mut searching: Vec<Waiting> = Vec::new();
        let mut detached: Vec<EmailThread> = Vec::new();
        proof {
            assert(forest_view(threads@) =~= Seq::<ThreadView>::empty());
            assert(queue_view(searching@) =~= Seq::<(Seq<char>, Seq<ThreadView>)>::empty());
        }
        std::mem::swap(&mut threads, &mut self.threads);
        std::mem::swap(&mut searching, &mut self.searching);
        std::mem::swap(&mut detached, &mut self.detached);
        let waiting = take_waiting(&mut searching, id.as_slice());
        let reply_to = match &e.reply_to {
            Some(p) => Some(crate::text::to_chars(p.as_str())),
            None => None,
        };
        let node = EmailThread { parent: e, replies: waiting };
        proof {
            assert(node.tree() == ThreadView {
                email: ev,
                replies: waiting_for(m.searching, ev.message_id),
            });
        }
        match reply_to {
            None => {
                let ghost before = threads@;
                threads.push(node);
                proof {
                    lemma_forest_view_push(before, node);
                }
            },
            Some(p) => {
                if chars_eq(p.as_slice(), id.as_slice()) {
                    let ghost before = detached@;
                    detached.push(node);
                    proof {
                        lemma_forest_view_push(before, node);
                    }
                } else if forest_has(&node.replies, p.as_slice()) {
                    let EmailThread { parent, replies } = node;
                    let leaf = EmailThread { parent, replies: Vec::new() };
                    proof {
                        assert(forest_view(leaf.replies@) =~= Seq::<ThreadView>::empty());
                        assert(leaf.tree() == ThreadView { email: ev, replies: seq![] });
                    }
                    let mut loop_part = attach_forest_exec(replies, p.as_slice(), leaf);
                    let ghost before = detached@;
                    let ghost lp = loop_part@;
                    detached.append(&mut loop_part);
                    proof {
                        assert(detached@ =~= before + lp);
                        lemma_forest_view_concat(before, lp);
                    }
                } else if forest_has(&threads, p.as_slice()) {
                    threads = attach_forest_exec(threads, p.as_slice(), node);
                } else if queue_has(&searching, p.as_slice()) {
                    attach_queue_exec(&mut searching, p.as_slice(), node);
                } else if forest_has(&detached, p.as_slice()) {
                    detached = attach_forest_exec(detached, p.as_slice(), node);
                } else {
                    enqueue_exec(&mut searching, p.as_slice(), node);
                }
            },
        }
        proof {
            let r = insert_spec(m, ev);
            assert(forest_view(threads@) == r.threads);
            assert(queue_view(searching@) == r.searching);
            assert(forest_view(detached@) == r.detached);
        }
        self.threads = threads;
        self.searching = searching;
        self.detached = detached;
    }

    /// Remove the thread node whose on-disk path matches `path` from the tree,
    /// along with all its children, so that they can be inserted again later.
    /// A no-op if no node matches.
    ///
    /// Remember to run `invalidate()` once the remove operations are completed.
    pub fn remove(&mut self, path: &str)
        ensures
            final(self)@ == remove_spec(old(self)@, path@),
    {
        proof {
            use_type_invariant(&*self);
            lemma_remove_count(self@, path@);
        }
        let p = crate::text::to_chars(path);
        let mut threads: Vec<EmailThread> = Vec::new();
        proof {
            assert(forest_view(threads@) =~= Seq::<ThreadView>::empty());
        }
        std::mem::swap(&mut threads, &mut self.threads);
        let pruned = prune_forest_exec(threads, p.as_slice());
        self.threads = pruned;
    }

    /// Record that the file at `from` was renamed to `to` (after one of its
    /// flags changed): every tracked email whose file was at `from` is now
    /// at `to`.
    pub fn rename(&mut self, from: &str, to: &str)
        ensures
            final(self)@ == rename_spec(old(self)@, from@, to@),
    {
        proof {
            use_type_invariant(&*self);
            lemma_rename_total(self@, from@, to@);
            lemma_rename_count_forest(self@.threads, from@, to@);
            lemma_rename_count_forest(self@.detached, from@, to@);
            lemma_rename_queue_count(self@.searching, from@, to@);
        }
        let f = crate::text::to_chars(from);
        let mut threads: Vec<EmailThread> = Vec::new();
        std::mem::swap(&mut threads, &mut self.threads);
        self.threads = rename_forest_exec(threads, f.as_slice(), to);
        let mut detached: Vec<EmailThread> = Vec::new();
        std::mem::swap(&mut detached, &mut self.detached);
        self.detached = rename_forest_exec(detached, f.as_slice(), to);
        let mut searching: Vec<Waiting> = Vec::new();
        std::mem::swap(&mut searching, &mut self.searching);
        self.searching = rename_queue_exec(searching, f.as_slice(), to);
    }

    /// Remove the thread whose root email has the given `message_id` from the
    /// in-memory tree, and return the path of its file, which the caller
    /// deletes from disk.  `None` (and no change) if no matching thread is
    /// found.
    ///
    /// Remember to run `invalidate()` once the remove operations are completed.
    pub fn remove_by_id(&mut self, message_id: &str) -> (r: Option<String>)
        ensures
            match find_spec(old(self)@, message_id@) {
                Some(t) => r is Some && r->0@ == t.email.path && final(self)@ == remove_spec(
                    old(self)@,
                    t.email.path,
                ),
                None => r is None && final(self)@ == old(self)@,
            },
    {
        let path = match self.find_by_id(message_id) {
            Some(t) => t.parent.path.clone(),
            None => return None,
        };
        self.remove(path.as_str());
        Some(path)
    }

    /// Invalidate the current tables and re-sort all the threads: replies
    /// whose parent was never found become root threads.
    pub fn invalidate(&mut self)
        ensures
            final(self)@ == invalidate_spec(old(self)@),
    {
        proof {
            use_type_invariant(&*self);
            lemma_invalidate_keeps(self@, Seq::empty());
        }
        let ghost m = self@;
        let mut threads: Vec<EmailThread> = Vec::new();
        let mut searching: Vec<Waiting> = Vec::new();
        proof {
            assert(forest_view(threads@) =~= Seq::<ThreadView>::empty());
            assert(queue_view(searching@) =~= Seq::<(Seq<char>, Seq<ThreadView>)>::empty());
        }
        std::mem::swap(&mut threads, &mut self.threads);
        std::mem::swap(&mut searching, &mut self.searching);
        let ghost qv = queue_view(searching@);
        proof {
            lemma_queue_view(searching@);
            assert(qv.subrange(0, 0) =~= Seq::<(Seq<char>, Seq<ThreadView>)>::empty());
            assert(m.threads + Seq::<ThreadView>::empty() =~= m.threads);
        }
        let n = searching.len();
        let mut i: usize = 0;
        while i < n
            invariant
                qv == m.searching,
                n == qv.len(),
                i <= n,
                searching@.len() == n - i,
                forall|j: int| 0 <= j < n - i ==> #[trigger] waiting_view(searching@[j]) == qv[i + j],
                forest_view(threads@) == m.threads + orphans(qv.subrange(0, i as int)),
            decreases n - i,
        {
            let ghost ss = searching@;
            let w = searching.remove(0);
            assert(waiting_view(w) == qv[i as int]);
            let Waiting { parent_id: _, children } = w;
            let mut children = children;
            let ghost tb = threads@;
            let ghost cb = children@;
            threads.append(&mut children);
            proof {
                lemma_forest_view_concat(tb, cb);
                let a = qv.subrange(0, i as int);
                let one = seq![qv[i as int]];
                assert(qv.subrange(0, i + 1) =~= a + one);
                lemma_orphans_concat(a, one);
                assert(one[0] == qv[i as int]);
                assert(one.subrange(1, 1) =~= Seq::<(Seq<char>, Seq<ThreadView>)>::empty());
                assert(orphans(one.subrange(1, 1)) =~= Seq::<ThreadView>::empty());
                assert(orphans(one) =~= qv[i as int].1);
                assert(forest_view(threads@) =~= m.threads + orphans(qv.subrange(0, i + 1)));
                assert forall|j: int| 0 <= j < n - (i + 1) implies #[trigger] waiting_view(
                    searching@[j],
                ) == qv[i + 1 + j] by {
                    assert(searching@[j] == ss[j + 1]);
                }
            }
            i += 1;
        }
        proof {
            assert(qv.subrange(0, n as int) =~= qv);
        }
        let sorted = sort_threads(threads, self.sort_order);
        proof {
            assert(queue_view(self.searching@) =~= Seq::<(Seq<char>, Seq<ThreadView>)>::empty());
            assert(forest_view(sorted@) == invalidate_spec(m).threads);
            let after = MaildirView {
                dir: self.dir@,
                threads: forest_view(sorted@),
                searching: queue_view(self.searching@),
                detached: forest_view(self.detached@),
                sort_order: self.sort_order,
            };
            assert(after.searching =~= invalidate_spec(m).searching);
            assert(after == invalidate_spec(m));
            assert(total(after) <= usize::MAX);
        }
        self.threads = sorted;
    }

    /// Set the sort order and re-sort immediately.
    pub fn set_sort_order(&mut self, order: SortOrder)
        ensures
            final(self)@ == invalidate_spec(MaildirView { sort_order: order, ..old(self)@ }),
    {
        proof {
            use_type_invariant(&*self);
        }
        self.sort_order = order;
        self.invalidate();
    }

    /// Insert the message files `files`, one after the other (see
    /// [`Maildir::insert`]).
    ///
    /// Remember to run `invalidate()` once the insert operations are completed.
    pub fn insert_all(&mut self, files: &[MailFile])
        requires
            total(old(self)@) + files@.len() <= usize::MAX,
        ensures
            final(self)@ == insert_files_spec(old(self)@, file_views(files@)),
    {
        let ghost m0 = self@;
        let ghost fv = file_views(files@);
        let n = files.len();
        let mut i: usize = 0;
        proof {
            assert(fv.subrange(0, 0) =~= Seq::<(Seq<char>, Seq<u8>)>::empty());
        }
        while i < n
            invariant
                n == files@.len(),
                fv == file_views(files@),
                i <= n,
                self@ == insert_files_spec(m0, fv.subrange(0, i as int)),
                total(self@) <= total(m0) + i,
                total(m0) + n <= usize::MAX,
            decreases n - i,
        {
            proof {
                lemma_insert_file_count(self@, files@[i as int].path@, files@[i as int].contents@);
                let a = fv.subrange(0, i + 1);
                assert(a.drop_last() =~= fv.subrange(0, i as int));
                assert(a.last() == (files@[i as int].path@, files@[i as int].contents@));
            }
            self.insert(files[i].path.as_str(), files[i].contents.as_slice());
            i += 1;
        }
        proof {
            assert(fv.subrange(0, n as int) =~= fv);
        }
    }

    /// Build the email thread tree of the folder `dir` from its message
    /// files (those of `new/` and `cur/`).
    pub fn new(dir: &str, files: &[MailFile]) -> (r: Self)
        ensures
            r@ == invalidate_spec(insert_files_spec(empty_view(dir@), file_views(files@))),
    {
        let mut maildir = Maildir::empty(dir);
        let n = files.len();
        proof {
            let e = maildir@;
            assert(forest_count(e.threads) == 0);
            assert(queue_count(e.searching) == 0);
            assert(forest_count(e.detached) == 0);
            assert(total(e) + n <= usize::MAX);
        }
        maildir.insert_all(files);
        maildir.invalidate();
        maildir
    }

    /// The paths of all tracked emails (see [`known_paths`]).
    pub fn known_paths(&self) -> (r: Vec<String>)
        ensures
            string_views(r@) == known_paths(self@),
    {
        let mut out: Vec<String> = Vec::new();
        proof {
            assert(string_views(out@) =~= Seq::<Seq<char>>::empty());
        }
        forest_paths_into(&self.threads, &mut out);
        queue_paths_into(&self.searching, &mut out);
        forest_paths_into(&self.detached, &mut out);
        proof {
            assert(string_views(out@) =~= known_paths(self@));
        }
        out
    }

    /// First pass of a synchronisation with the folder, whose files are at
    /// the paths `disk`: every tracked email whose file is gone is removed.
    /// Returns the paths of `disk` that are not tracked afterwards: the
    /// caller reads them, inserts them with [`Maildir::insert_all`] and runs
    /// `invalidate()`.  Calling it when nothing has changed on disk changes
    /// nothing.
    pub fn sync(&mut self, disk: &[String]) -> (arrived: Vec<String>)
        ensures
            final(self)@ == sync_spec(old(self)@, string_views(disk@)),
            string_views(arrived@) == missing_from(string_views(disk@), known_paths(final(self)@)),
    {
        let ghost dv = string_views(disk@);
        let ghost m0 = self@;
        let known = self.known_paths();
        let ghost kv = string_views(known@);
        let gone = missing_paths(known.as_slice(), disk);
        let ghost gv = string_views(gone@);
        let n = gone.len();
        let mut i: usize = 0;
        proof {
            assert(gv.subrange(0, 0) =~= Seq::<Seq<char>>::empty());
        }
        while i < n
            invariant
                n == gone@.len(),
                gv == string_views(gone@),
                gv == missing_from(kv, dv),
                kv == known_paths(m0),
                i <= n,
                self@ == remove_all(m0, gv.subrange(0, i as int)),
            decreases n - i,
        {
            proof {
                let a = gv.subrange(0, i + 1);
                assert(a.drop_last() =~= gv.subrange(0, i as int));
                assert(a.last() == gone@[i as int]@);
            }
            self.remove(gone[i].as_str());
            i += 1;
        }
        proof {
            assert(gv.subrange(0, n as int) =~= gv);
        }
        let known_after = self.known_paths();
        missing_paths(disk, known_after.as_slice())
    }

    /// The paths of `disk` whose files are not tracked: the files a
    /// synchronisation with the folder reads.
    pub fn arrivals(&self, disk: &[String]) -> (r: Vec<String>)
        ensures
            string_views(r@) == missing_from(string_views(disk@), known_paths(self@)),
    {
        let known = self.known_paths();
        missing_paths(disk, known.as_slice())
    }

    /// A whole synchronisation with the folder, whose files are at the
    /// paths `disk`: every tracked email whose file is gone is removed, the
    /// message files `files` (read for the paths that arrived) are inserted,
    /// and the tree is invalidated.
    pub fn sync_folder(&mut self, disk: &[String], files: &[MailFile])
        requires
            total(old(self)@) + files@.len() <= usize::MAX,
        ensures
            final(self)@ == full_sync_spec(old(self)@, string_views(disk@), file_views(files@)),
    {
        let ghost m0 = self@;
        let _ = self.sync(disk);
        proof {
            lemma_remove_all_count(m0, missing_from(known_paths(m0), string_views(disk@)));
        }
        self.insert_all(files);
        self.invalidate();
    }

    /// Validate `content` as a well-formed RFC 2822 email with a `From`
    /// header, and return the path in `dir/new/` where the caller writes it:
    /// its name is made of `timestamp` (seconds since the epoch) and the
    /// process id `pid`.
    pub fn write_email(&self, content: &str, timestamp: u64, pid: u32) -> (r: Result<
        String,
        WriteError,
    >)
        ensures
            match outgoing_check(content.spec_bytes()) {
                Ok(_) => r is Ok && r->Ok_0@ == new_message_path(self@.dir, timestamp, pid),
                Err(e) => r == Err::<String, WriteError>(e),
            },
    {
        match parse_message(content.as_bytes()) {
            None => return Err(WriteError::InvalidFormat),
            Some(m) => {
                if !m.has_from {
                    return Err(WriteError::MissingFrom);
                }
            },
        }
        let dir = crate::text::to_chars(self.dir.as_str());
        let sub = crate::text::to_chars("new");
        let folder = path_join(dir.as_slice(), sub.as_slice());
        let mut name: Vec<char> = Vec::new();
        push_local_message_id(&mut name, timestamp, pid);
        let p = path_join(folder.as_slice(), name.as_slice());
        Ok(crate::text::string_from(p.as_slice()))
    }

    /// Look up a tracked thread by the message id of its root email.
    /// Returns `None` if not found.
    pub fn find_by_id(&self, message_id: &str) -> (r: Option<&EmailThread>)
        ensures
            match r {
                Some(t) => find_spec(self@, message_id@) == Some(t.tree()),
                None => find_spec(self@, message_id@) is None,
            },
    {
        let id = crate::text::to_chars(message_id);
        match forest_find_ref(&self.threads, id.as_slice()) {
            Some(t) => Some(t),
            None => match queue_find_ref(&self.searching, id.as_slice()) {
                Some(t) => Some(t),
                None => forest_find_ref(&self.detached, id.as_slice()),
            },
        }
    }
}

// ─────────────────────────── executable traversals ──────────────────────────

/// The paths of `ps` that `disk` does not hold, in order.
fn missing_paths(ps: &[String], disk: &[String]) -> (r: Vec<String>)
    ensures
        string_views(r@) == missing_from(string_views(ps@), string_views(disk@)),
{
    let ghost pv = string_views(ps@);
    let ghost dv = string_views(disk@);
    let n = ps.len();
    let mut out: Vec<String> = Vec::new();
    let mut i: usize = 0;
    proof {
        assert(pv.subrange(0, 0) =~= Seq::<Seq<char>>::empty());
        assert(string_views(out@) =~= Seq::<Seq<char>>::empty());
    }
    while i < n
        invariant
            n == ps@.len(),
            pv == string_views(ps@),
            dv == string_views(disk@),
            i <= n,
            string_views(out@) == missing_from(pv.subrange(0, i as int), dv),
        decreases n - i,
    {
        proof {
            let a = pv.subrange(0, i + 1);
            assert(a.drop_last() =~= pv.subrange(0, i as int));
            assert(a.last() == ps@[i as int]@);
        }
        if !contains_string(disk, &ps[i]) {
            let ghost before = out@;
            out.push(ps[i].clone());
            proof {
                assert(string_views(out@) =~= string_views(before).push(ps@[i as int]@));
            }
        }
        i += 1;
    }
    proof {
        assert(pv.subrange(0, n as int) =~= pv);
    }
    out
}

fn tree_paths_into(t: &EmailThread, out: &mut Vec<String>)
    ensures
        string_views(final(out)@) == string_views(old(out)@) + tree_paths(t.tree()),
    decreases t,
{
    let ghost before = out@;
    out.push(t.parent.path.clone());
    proof {
        assert(string_views(out@) =~= string_views(before) + seq![t.parent.path@]);
    }
    forest_paths_into(&t.replies, out);
    proof {
        assert(string_views(out@) =~= string_views(before) + tree_paths(t.tree()));
    }
}

fn forest_paths_into(f: &Vec<EmailThread>, out: &mut Vec<String>)
    ensures
        string_views(final(out)@) == string_views(old(out)@) + forest_paths(forest_view(f@)),
    decreases f,
{
    let ghost fv = forest_view(f@);
    let ghost base = string_views(out@);
    proof {
        lemma_forest_view(f@);
        assert(fv.subrange(0, fv.len() as int) =~= fv);
        assert(base + forest_paths(fv) =~= string_views(out@) + forest_paths(fv.subrange(0, fv.len() as int)));
    }
    let n = f.len();
    let mut i: usize = 0;
    while i < n
        invariant
            n == f@.len(),
            n == fv.len(),
            fv == forest_view(f@),
            forall|j: int| 0 <= j < n ==> #[trigger] fv[j] == f@[j].tree(),
            i <= n,
            string_views(out@) + forest_paths(fv.subrange(i as int, n as int)) == base + forest_paths(fv),
        decreases n - i,
    {
        let ghost rest = fv.subrange(i as int, n as int);
        let ghost before = string_views(out@);
        proof {
            assert(rest[0] == fv[i as int]);
            assert(rest.subrange(1, rest.len() as int) =~= fv.subrange(i + 1, n as int));
        }
        tree_paths_into(&f[i], out);
        proof {
            assert(string_views(out@) + forest_paths(fv.subrange(i + 1, n as int)) =~= before
                + forest_paths(rest));
        }
        i += 1;
    }
    proof {
        assert(fv.subrange(n as int, n as int) =~= Seq::<ThreadView>::empty());
        assert(string_views(out@) + forest_paths(fv.subrange(n as int, n as int)) =~= string_views(out@));
    }
}

fn queue_paths_into(q: &Vec<Waiting>, out: &mut Vec<String>)
    ensures
        string_views(final(out)@) == string_views(old(out)@) + queue_paths(queue_view(q@)),
{
    let ghost qv = queue_view(q@);
    let ghost base = string_views(out@);
    proof {
        lemma_queue_view(q@);
        assert(qv.subrange(0, qv.len() as int) =~= qv);
    }
    let n = q.len();
    let mut i: usize = 0;
    while i < n
        invariant
            n == q@.len(),
            n == qv.len(),
            qv == queue_view(q@),
            forall|j: int| 0 <= j < n ==> #[trigger] qv[j] == waiting_view(q@[j]),
            i <= n,
            string_views(out@) + queue_paths(qv.subrange(i as int, n as int)) == base + queue_paths(qv),
        decreases n - i,
    {
        let ghost rest = qv.subrange(i as int, n as int);
        let ghost before = string_views(out@);
        proof {
            assert(rest[0] == qv[i as int]);
            assert(rest.subrange(1, rest.len() as int) =~= qv.subrange(i + 1, n as int));
        }
        forest_paths_into(&q[i].children, out);
        proof {
            assert(string_views(out@) + queue_paths(qv.subrange(i + 1, n as int)) =~= before
                + queue_paths(rest));
        }
        i += 1;
    }
    proof {
        assert(qv.subrange(n as int, n as int) =~= Seq::<(Seq<char>, Seq<ThreadView>)>::empty());
        assert(string_views(out@) + queue_paths(qv.subrange(n as int, n as int)) =~= string_views(out@));
    }
}


fn tree_count_of(t: &EmailThread) -> (r: usize)
    requires
        tree_count(t.tree()) <= usize::MAX,
    ensures
        r == tree_count(t.tree()),
    decreases t,
{
    let n = forest_count_of(&t.replies);
    1 + n
}

fn forest_count_of(f: &Vec<EmailThread>) -> (r: usize)
    requires
        forest_count(forest_view(f@)) <= usize::MAX,
    ensures
        r == forest_count(forest_view(f@)),
    decreases f,
{
    let ghost fv = forest_view(f@);
    proof {
        lemma_forest_view(f@);
        assert(fv.subrange(0, fv.len() as int) =~= fv);
    }
    let n = f.len();
    let mut acc: usize = 0;
    let mut i: usize = 0;
    while i < n
        invariant
            n == f@.len(),
            n == fv.len(),
            fv == forest_view(f@),
            forall|j: int| 0 <= j < n ==> #[trigger] fv[j] == f@[j].tree(),
            i <= n,
            acc + forest_count(fv.subrange(i as int, n as int)) == forest_count(fv),
            forest_count(fv) <= usize::MAX,
        decreases n - i,
    {
        proof {
            let rest = fv.subrange(i as int, n as int);
            assert(rest[0] == fv[i as int]);
            assert(rest.subrange(1, rest.len() as int) =~= fv.subrange(i + 1, n as int));
        }
        let c = tree_count_of(&f[i]);
        acc = acc + c;
        i += 1;
    }
    assert(fv.subrange(n as int, n as int) =~= Seq::<ThreadView>::empty());
    acc
}

fn queue_count_of(q: &Vec<Waiting>) -> (r: usize)
    requires
        queue_count(queue_view(q@)) <= usize::MAX,
    ensures
        r == queue_count(queue_view(q@)),
{
    let ghost qv = queue_view(q@);
    proof {
        lemma_queue_view(q@);
        assert(qv.subrange(0, qv.len() as int) =~= qv);
    }
    let n = q.len();
    let mut acc: usize = 0;
    let mut i: usize = 0;
    while i < n
        invariant
            n == q@.len(),
            n == qv.len(),
            forall|j: int| 0 <= j < n ==> #[trigger] qv[j] == waiting_view(q@[j]),
            i <= n,
            acc + queue_count(qv.subrange(i as int, n as int)) == queue_count(qv),
            queue_count(qv) <= usize::MAX,
        decreases n - i,
    {
        proof {
            let rest = qv.subrange(i as int, n as int);
            assert(rest[0] == qv[i as int]);
            assert(rest.subrange(1, rest.len() as int) =~= qv.subrange(i + 1, n as int));
        }
        let c = forest_count_of(&q[i].children);
        acc = acc + c;
        i += 1;
    }
    assert(qv.subrange(n as int, n as int) =~= Seq::<(Seq<char>, Seq<ThreadView>)>::empty());
    acc
}

fn tree_unread_of(t: &EmailThread) -> (r: usize)
    requires
        tree_count(t.tree()) <= usize::MAX,
    ensures
        r == tree_unread(t.tree()),
    decreases t,
{
    proof {
        lemma_unread_le_count(t.tree().replies);
    }
    let n = forest_unread_of(&t.replies);
    if t.parent.is_unread() {
        1 + n
    } else {
        n
    }
}

fn forest_unread_of(f: &Vec<EmailThread>) -> (r: usize)
    requires
        forest_count(forest_view(f@)) <= usize::MAX,
    ensures
        r == forest_unread(forest_view(f@)),
    decreases f,
{
    let ghost fv = forest_view(f@);
    proof {
        lemma_forest_view(f@);
        assert(fv.subrange(0, fv.len() as int) =~= fv);
        lemma_unread_le_count(fv);
    }
    let n = f.len();
    let mut acc: usize = 0;
    let mut i: usize = 0;
    while i < n
        invariant
            n == f@.len(),
            n == fv.len(),
            fv == forest_view(f@),
            forall|j: int| 0 <= j < n ==> #[trigger] fv[j] == f@[j].tree(),
            i <= n,
            acc + forest_unread(fv.subrange(i as int, n as int)) == forest_unread(fv),
            acc + forest_count(fv.subrange(i as int, n as int)) <= forest_count(fv),
            forest_count(fv) <= usize::MAX,
        decreases n - i,
    {
        proof {
            let rest = fv.subrange(i as int, n as int);
            assert(rest[0] == fv[i as int]);
            assert(rest.subrange(1, rest.len() as int) =~= fv.subrange(i + 1, n as int));
            lemma_unread_le_count(rest.subrange(1, rest.len() as int));
            lemma_unread_le_count(rest[0].replies);
            assert(tree_unread(rest[0]) <= tree_count(rest[0]));
        }
        let c = tree_unread_of(&f[i]);
        acc = acc + c;
        i += 1;
    }
    assert(fv.subrange(n as int, n as int) =~= Seq::<ThreadView>::empty());
    acc
}

fn queue_unread_of(q: &Vec<Waiting>) -> (r: usize)
    requires
        queue_count(queue_view(q@)) <= usize::MAX,
    ensures
        r == queue_unread(queue_view(q@)),
{
    let ghost qv = queue_view(q@);
    proof {
        lemma_queue_view(q@);
        assert(qv.subrange(0, qv.len() as int) =~= qv);
    }
    let n = q.len();
    let mut acc: usize = 0;
    let mut i: usize = 0;
    while i < n
        invariant
            n == q@.len(),
            n == qv.len(),
            forall|j: int| 0 <= j < n ==> #[trigger] qv[j] == waiting_view(q@[j]),
            i <= n,
            acc + queue_unread(qv.subrange(i as int, n as int)) == queue_unread(qv),
            acc + queue_count(qv.subrange(i as int, n as int)) <= queue_count(qv),
            queue_count(qv) <= usize::MAX,
        decreases n - i,
    {
        proof {
            let rest = qv.subrange(i as int, n as int);
            assert(rest[0] == qv[i as int]);
            assert(rest.subrange(1, rest.len() as int) =~= qv.subrange(i + 1, n as int));
            lemma_queue_unread_le_count(rest.subrange(1, rest.len() as int));
            lemma_unread_le_count(rest[0].1);
        }
        let c = forest_unread_of(&q[i].children);
        acc = acc + c;
        i += 1;
    }
    assert(qv.subrange(n as int, n as int) =~= Seq::<(Seq<char>, Seq<ThreadView>)>::empty());
    acc
}

pub(crate) fn id_is(e: &Email, id: &[char]) -> (r: bool)
    ensures
        r == (e@.message_id == id@),
{
    let m = crate::text::to_chars(e.message_id.as_str());
    chars_eq(m.as_slice(), id)
}

fn tree_find_ref<'a>(t: &'a EmailThread, id: &[char]) -> (r: Option<&'a EmailThread>)
    ensures
        match r {
            Some(s) => tree_find(t.tree(), id@) == Some(s.tree()),
            None => tree_find(t.tree(), id@) is None,
        },
    decreases t,
{
    if id_is(&t.parent, id) {
        Some(t)
    } else {
        forest_find_ref(&t.replies, id)
    }
}

fn forest_find_ref<'a>(f: &'a Vec<EmailThread>, id: &[char]) -> (r: Option<&'a EmailThread>)
    ensures
        match r {
            Some(s) => forest_find(forest_view(f@), id@) == Some(s.tree()),
            None => forest_find(forest_view(f@), id@) is None,
        },
    decreases f,
{
    let ghost fv = forest_view(f@);
    proof {
        lemma_forest_view(f@);
        assert(fv.subrange(0, fv.len() as int) =~= fv);
    }
    let n = f.len();
    let mut i: usize = 0;
    while i < n
        invariant
            n == f@.len(),
            n == fv.len(),
            fv == forest_view(f@),
            forall|j: int| 0 <= j < n ==> #[trigger] fv[j] == f@[j].tree(),
            i <= n,
            forest_find(fv, id@) == forest_find(fv.subrange(i as int, n as int), id@),
        decreases n - i,
    {
        proof {
            let rest = fv.subrange(i as int, n as int);
            assert(rest[0] == fv[i as int]);
            assert(rest.subrange(1, rest.len() as int) =~= fv.subrange(i + 1, n as int));
        }
        match tree_find_ref(&f[i], id) {
            Some(s) => {
                return Some(s);
            },
            None => {},
        }
        i += 1;
    }
    assert(fv.subrange(n as int, n as int) =~= Seq::<ThreadView>::empty());
    None
}

fn queue_find_ref<'a>(q: &'a Vec<Waiting>, id: &[char]) -> (r: Option<&'a EmailThread>)
    ensures
        match r {
            Some(s) => queue_find(queue_view(q@), id@) == Some(s.tree()),
            None => queue_find(queue_view(q@), id@) is None,
        },
{
    let ghost qv = queue_view(q@);
    proof {
        lemma_queue_view(q@);
        assert(qv.subrange(0, qv.len() as int) =~= qv);
    }
    let n = q.len();
    let mut i: usize = 0;
    while i < n
        invariant
            n == q@.len(),
            n == qv.len(),
            qv == queue_view(q@),
            forall|j: int| 0 <= j < n ==> #[trigger] qv[j] == waiting_view(q@[j]),
            i <= n,
            queue_find(qv, id@) == queue_find(qv.subrange(i as int, n as int), id@),
        decreases n - i,
    {
        proof {
            let rest = qv.subrange(i as int, n as int);
            assert(rest[0] == qv[i as int]);
            assert(rest.subrange(1, rest.len() as int) =~= qv.subrange(i + 1, n as int));
            assert(qv[i as int].1 == forest_view(q@[i as int].children@));
        }
        match forest_find_ref(&q[i].children, id) {
            Some(s) => {
                return Some(s);
            },
            None => {},
        }
        i += 1;
    }
    assert(qv.subrange(n as int, n as int) =~= Seq::<(Seq<char>, Seq<ThreadView>)>::empty());
    None
}

fn tree_has(t: &EmailThread, id: &[char]) -> (r: bool)
    ensures
        r == tree_has_id(t.tree(), id@),
    decreases t,
{
    if id_is(&t.parent, id) {
        true
    } else {
        forest_has(&t.replies, id)
    }
}

fn forest_has(f: &Vec<EmailThread>, id: &[char]) -> (r: bool)
    ensures
        r == forest_has_id(forest_view(f@), id@),
    decreases f,
{
    let ghost fv = forest_view(f@);
    proof {
        lemma_forest_view(f@);
        assert(fv.subrange(0, fv.len() as int) =~= fv);
    }
    let n = f.len();
    let mut i: usize = 0;
    while i < n
        invariant
            n == f@.len(),
            n == fv.len(),
            fv == forest_view(f@),
            forall|j: int| 0 <= j < n ==> #[trigger] fv[j] == f@[j].tree(),
            i <= n,
            forest_has_id(fv, id@) == forest_has_id(fv.subrange(i as int, n as int), id@),
        decreases n - i,
    {
        proof {
            let rest = fv.subrange(i as int, n as int);
            assert(rest[0] == fv[i as int]);
            assert(rest.subrange(1, rest.len() as int) =~= fv.subrange(i + 1, n as int));
        }
        if tree_has(&f[i], id) {
            return true;
        }
        i += 1;
    }
    assert(fv.subrange(n as int, n as int) =~= Seq::<ThreadView>::empty());
    false
}

fn queue_has(q: &Vec<Waiting>, id: &[char]) -> (r: bool)
    ensures
        r == queue_has_id(queue_view(q@), id@),
{
    let ghost qv = queue_view(q@);
    proof {
        lemma_queue_view(q@);
        assert(qv.subrange(0, qv.len() as int) =~= qv);
    }
    let n = q.len();
    let mut i: usize = 0;
    while i < n
        invariant
            n == q@.len(),
            n == qv.len(),
            qv == queue_view(q@),
            forall|j: int| 0 <= j < n ==> #[trigger] qv[j] == waiting_view(q@[j]),
            i <= n,
            queue_has_id(qv, id@) == queue_has_id(qv.subrange(i as int, n as int), id@),
        decreases n - i,
    {
        proof {
            let rest = qv.subrange(i as int, n as int);
            assert(rest[0] == qv[i as int]);
            assert(rest.subrange(1, rest.len() as int) =~= qv.subrange(i + 1, n as int));
            assert(qv[i as int].1 == forest_view(q@[i as int].children@));
        }
        if forest_has(&q[i].children, id) {
            return true;
        }
        i += 1;
    }
    assert(qv.subrange(n as int, n as int) =~= Seq::<(Seq<char>, Seq<ThreadView>)>::empty());
    false
}

proof fn lemma_forest_view_concat(a: Seq<EmailThread>, b: Seq<EmailThread>)
    ensures
        forest_view(a + b) == forest_view(a) + forest_view(b),
{
    lemma_forest_view(a);
    lemma_forest_view(b);
    lemma_forest_view(a + b);
    assert(forest_view(a + b) =~= forest_view(a) + forest_view(b));
}

/// `forest_view` commutes with removing and inserting one thread.
pub(crate) proof fn lemma_forest_view_remove_insert(v: Seq<EmailThread>, i: int, t: EmailThread)
    requires
        0 <= i < v.len(),
    ensures
        forest_view(v.remove(i).insert(i, t)) == forest_view(v).update(i, t.tree()),
{
    let w = v.remove(i).insert(i, t);
    lemma_forest_view(v);
    lemma_forest_view(w);
    assert(forest_view(w) =~= forest_view(v).update(i, t.tree()));
}

pub(crate) proof fn lemma_forest_view_push(v: Seq<EmailThread>, t: EmailThread)
    ensures
        forest_view(v.push(t)) == forest_view(v).push(t.tree()),
{
    lemma_forest_view(v);
    lemma_forest_view(v.push(t));
    assert(forest_view(v.push(t)) =~= forest_view(v).push(t.tree()));
}

proof fn lemma_queue_view_update(v: Seq<Waiting>, i: int, w: Waiting)
    requires
        0 <= i < v.len(),
    ensures
        queue_view(v.remove(i).insert(i, w)) == queue_view(v).update(i, waiting_view(w)),
        queue_view(v.remove(i)) == queue_view(v).remove(i),
{
    lemma_queue_view(v);
    lemma_queue_view(v.remove(i).insert(i, w));
    lemma_queue_view(v.remove(i));
    assert(queue_view(v.remove(i).insert(i, w)) =~= queue_view(v).update(i, waiting_view(w)));
    assert(queue_view(v.remove(i)) =~= queue_view(v).remove(i));
}

proof fn lemma_queue_view_push(v: Seq<Waiting>, w: Waiting)
    ensures
        queue_view(v.push(w)) == queue_view(v).push(waiting_view(w)),
{
    assert(v.push(w).drop_last() =~= v);
}

fn attach_tree_exec(t: EmailThread, p: &[char], node: EmailThread) -> (r: EmailThread)
    ensures
        r.tree() == attach_tree(t.tree(), p@, node.tree()),
    decreases t,
{
    if id_is(&t.parent, p) {
        let EmailThread { parent, replies } = t;
        let mut replies = replies;
        let ghost before = replies@;
        replies.push(node);
        proof {
            lemma_forest_view_push(before, node);
        }
        EmailThread { parent, replies }
    } else {
        let EmailThread { parent, replies } = t;
        let replies = attach_forest_exec(replies, p, node);
        EmailThread { parent, replies }
    }
}

fn attach_forest_exec(f: Vec<EmailThread>, p: &[char], node: EmailThread) -> (r: Vec<EmailThread>)
    ensures
        forest_view(r@) == attach_forest(forest_view(f@), p@, node.tree()),
    decreases f,
{
    let ghost fv = forest_view(f@);
    let ghost nv = node.tree();
    proof {
        lemma_forest_view(f@);
        assert(fv.subrange(0, fv.len() as int) =~= fv);
        assert(fv.subrange(0, 0) + attach_forest(fv, p@, nv) =~= attach_forest(fv, p@, nv));
    }
    let n = f.len();
    let mut i: usize = 0;
    while i < n
        invariant
            nv == node.tree(),
            n == f@.len(),
            n == fv.len(),
            fv == forest_view(f@),
            forall|j: int| 0 <= j < n ==> #[trigger] fv[j] == f@[j].tree(),
            i <= n,
            attach_forest(fv, p@, nv) == fv.subrange(0, i as int) + attach_forest(
                fv.subrange(i as int, n as int),
                p@,
                nv,
            ),
        decreases n - i,
    {
        let ghost rest = fv.subrange(i as int, n as int);
        proof {
            assert(rest[0] == fv[i as int]);
            assert(rest.subrange(1, rest.len() as int) =~= fv.subrange(i + 1, n as int));
        }
        if tree_has(&f[i], p) {
            let mut f = f;
            let ghost fs = f@;
            let t = f.remove(i);
            assert(t == fs[i as int]);
            assert(t.tree() == fv[i as int]);
            assert(tree_has_id(fv[i as int], p@));
            let t2 = attach_tree_exec(t, p, node);
            f.insert(i, t2);
            proof {
                lemma_forest_view_remove_insert(fs, i as int, t2);
                let x = t2.tree();
                assert(x == attach_tree(fv[i as int], p@, nv));
                assert(fv.update(i as int, x) =~= fv.subrange(0, i as int) + (seq![x]
                    + fv.subrange(i + 1, n as int)));
            }
            return f;
        }
        proof {
            assert(fv.subrange(0, i + 1) =~= fv.subrange(0, i as int).push(fv[i as int]));
            assert(fv.subrange(0, i as int) + (seq![fv[i as int]] + attach_forest(
                fv.subrange(i + 1, n as int),
                p@,
                nv,
            )) =~= fv.subrange(0, i + 1) + attach_forest(fv.subrange(i + 1, n as int), p@, nv));
        }
        i += 1;
    }
    proof {
        assert(fv.subrange(n as int, n as int) =~= Seq::<ThreadView>::empty());
        assert(fv.subrange(0, n as int) + Seq::<ThreadView>::empty() =~= fv);
    }
    f
}

fn take_waiting(q: &mut Vec<Waiting>, id: &[char]) -> (r: Vec<EmailThread>)
    ensures
        forest_view(r@) == waiting_for(queue_view(old(q)@), id@),
        queue_view(final(q)@) == without_key(queue_view(old(q)@), id@),
{
    let ghost qv = queue_view(q@);
    proof {
        lemma_queue_view(q@);
        assert(qv.subrange(0, qv.len() as int) =~= qv);
        assert(qv.subrange(0, 0) + without_key(qv, id@) =~= without_key(qv, id@));
    }
    let n = q.len();
    let mut i: usize = 0;
    while i < n
        invariant
            n == q@.len(),
            n == qv.len(),
            q@ == old(q)@,
            qv == queue_view(q@),
            forall|j: int| 0 <= j < n ==> #[trigger] qv[j] == waiting_view(q@[j]),
            i <= n,
            waiting_for(qv, id@) == waiting_for(qv.subrange(i as int, n as int), id@),
            without_key(qv, id@) == qv.subrange(0, i as int) + without_key(
                qv.subrange(i as int, n as int),
                id@,
            ),
        decreases n - i,
    {
        let ghost rest = qv.subrange(i as int, n as int);
        proof {
            assert(rest[0] == qv[i as int]);
            assert(rest.subrange(1, rest.len() as int) =~= qv.subrange(i + 1, n as int));
        }
        let key = crate::text::to_chars(q[i].parent_id.as_str());
        if chars_eq(key.as_slice(), id) {
            let ghost qs = q@;
            let w = q.remove(i);
            proof {
                lemma_queue_view_update(qs, i as int, w);
                assert(w == qs[i as int]);
                assert(queue_view(q@) =~= qv.subrange(0, i as int) + qv.subrange(i + 1, n as int));
            }
            return w.children;
        }
        proof {
            assert(qv.subrange(0, i + 1) =~= qv.subrange(0, i as int).push(qv[i as int]));
            assert(qv.subrange(0, i as int) + (seq![qv[i as int]] + without_key(
                qv.subrange(i + 1, n as int),
                id@,
            )) =~= qv.subrange(0, i + 1) + without_key(qv.subrange(i + 1, n as int), id@));
        }
        i += 1;
    }
    proof {
        assert(qv.subrange(n as int, n as int) =~= Seq::<(Seq<char>, Seq<ThreadView>)>::empty());
        assert(qv.subrange(0, n as int) + Seq::<(Seq<char>, Seq<ThreadView>)>::empty() =~= qv);
    }
    let r: Vec<EmailThread> = Vec::new();
    assert(forest_view(r@) =~= Seq::<ThreadView>::empty());
    r
}

fn enqueue_exec(q: &mut Vec<Waiting>, p: &[char], node: EmailThread)
    ensures
        queue_view(final(q)@) == enqueue(queue_view(old(q)@), p@, node.tree()),
{
    let ghost qv = queue_view(q@);
    let ghost nv = node.tree();
    proof {
        lemma_queue_view(q@);
        assert(qv.subrange(0, qv.len() as int) =~= qv);
        assert(qv.subrange(0, 0) + enqueue(qv, p@, nv) =~= enqueue(qv, p@, nv));
    }
    let n = q.len();
    let mut i: usize = 0;
    while i < n
        invariant
            nv == node.tree(),
            n == q@.len(),
            n == qv.len(),
            q@ == old(q)@,
            qv == queue_view(q@),
            forall|j: int| 0 <= j < n ==> #[trigger] qv[j] == waiting_view(q@[j]),
            i <= n,
            enqueue(qv, p@, nv) == qv.subrange(0, i as int) + enqueue(
                qv.subrange(i as int, n as int),
                p@,
                nv,
            ),
        decreases n - i,
    {
        let ghost rest = qv.subrange(i as int, n as int);
        proof {
            assert(rest[0] == qv[i as int]);
            assert(rest.subrange(1, rest.len() as int) =~= qv.subrange(i + 1, n as int));
        }
        let key = crate::text::to_chars(q[i].parent_id.as_str());
        if chars_eq(key.as_slice(), p) {
            let ghost qs = q@;
            let w = q.remove(i);
            assert(w == qs[i as int]);
            assert(waiting_view(w) == qv[i as int]);
            let Waiting { parent_id, children } = w;
            assert(parent_id@ == qv[i as int].0);
            assert(forest_view(children@) == qv[i as int].1);
            let mut children = children;
            let ghost before = children@;
            children.push(node);
            let w2 = Waiting { parent_id, children };
            q.insert(i, w2);
            proof {
                lemma_forest_view_push(before, node);
                lemma_queue_view_update(qs, i as int, w2);
                let x = (qv[i as int].0, qv[i as int].1.push(nv));
                assert(waiting_view(w2) == x);
                assert(qv.update(i as int, x) =~= qv.subrange(0, i as int) + (seq![x]
                    + qv.subrange(i + 1, n as int)));
            }
            return;
        }
        proof {
            assert(qv.subrange(0, i + 1) =~= qv.subrange(0, i as int).push(qv[i as int]));
            assert(qv.subrange(0, i as int) + (seq![qv[i as int]] + enqueue(
                qv.subrange(i + 1, n as int),
                p@,
                nv,
            )) =~= qv.subrange(0, i + 1) + enqueue(qv.subrange(i + 1, n as int), p@, nv));
        }
        i += 1;
    }
    let mut children: Vec<EmailThread> = Vec::new();
    children.push(node);
    let w = Waiting { parent_id: crate::text::string_from(p), children };
    let ghost qs = q@;
    q.push(w);
    proof {
        lemma_queue_view_push(qs, w);
        lemma_forest_view(w.children@);
        assert(forest_view(w.children@) =~= seq![nv]);
        assert(qv.subrange(n as int, n as int) =~= Seq::<(Seq<char>, Seq<ThreadView>)>::empty());
        assert(queue_view(q@) =~= qv.subrange(0, n as int) + seq![(p@, seq![nv])]);
    }
}

fn attach_queue_exec(q: &mut Vec<Waiting>, p: &[char], node: EmailThread)
    ensures
        queue_view(final(q)@) == attach_queue(queue_view(old(q)@), p@, node.tree()),
{
    let ghost qv = queue_view(q@);
    let ghost nv = node.tree();
    proof {
        lemma_queue_view(q@);
        assert(qv.subrange(0, qv.len() as int) =~= qv);
        assert(qv.subrange(0, 0) + attach_queue(qv, p@, nv) =~= attach_queue(qv, p@, nv));
    }
    let n = q.len();
    let mut i: usize = 0;
    while i < n
        invariant
            nv == node.tree(),
            n == q@.len(),
            n == qv.len(),
            q@ == old(q)@,
            qv == queue_view(q@),
            forall|j: int| 0 <= j < n ==> #[trigger] qv[j] == waiting_view(q@[j]),
            i <= n,
            attach_queue(qv, p@, nv) == qv.subrange(0, i as int) + attach_queue(
                qv.subrange(i as int, n as int),
                p@,
                nv,
            ),
        decreases n - i,
    {
        let ghost rest = qv.subrange(i as int, n as int);
        proof {
            assert(rest[0] == qv[i as int]);
            assert(rest.subrange(1, rest.len() as int) =~= qv.subrange(i + 1, n as int));
            assert(qv[i as int].1 == forest_view(q@[i as int].children@));
        }
        if forest_has(&q[i].children, p) {
            let ghost qs = q@;
            let w = q.remove(i);
            assert(w == qs[i as int]);
            let Waiting { parent_id, children } = w;
            let children = attach_forest_exec(children, p, node);
            let w2 = Waiting { parent_id, children };
            q.insert(i, w2);
            proof {
                lemma_queue_view_update(qs, i as int, w2);
                let x = (qv[i as int].0, attach_forest(qv[i as int].1, p@, nv));
                assert(waiting_view(w2) == x);
                assert(qv.update(i as int, x) =~= qv.subrange(0, i as int) + (seq![x]
                    + qv.subrange(i + 1, n as int)));
            }
            return;
        }
        proof {
            assert(qv.subrange(0, i + 1) =~= qv.subrange(0, i as int).push(qv[i as int]));
            assert(qv.subrange(0, i as int) + (seq![qv[i as int]] + attach_queue(
                qv.subrange(i + 1, n as int),
                p@,
                nv,
            )) =~= qv.subrange(0, i + 1) + attach_queue(qv.subrange(i + 1, n as int), p@, nv));
        }
        i += 1;
    }
    proof {
        assert(qv.subrange(n as int, n as int) =~= Seq::<(Seq<char>, Seq<ThreadView>)>::empty());
        assert(qv.subrange(0, n as int) + Seq::<(Seq<char>, Seq<ThreadView>)>::empty() =~= qv);
    }
}

} // verus!

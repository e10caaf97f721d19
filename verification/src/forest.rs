//! Whole-forest operations on thread trees: pruning the subtree of a file
//! and sorting threads by their most recent message.
use crate::maildir::{
    forest_count, forest_has_id, lemma_count_cons, lemma_count_push, lemma_forest_view_push,
    lemma_forest_view_remove_insert, tree_count, tree_has_id, SortOrder,
};
use crate::text::chars_eq;
use crate::thread::{forest_view, Email, EmailInfo, EmailThread, ThreadView};
use vstd::prelude::*;

verus! {

// ─────────────────────────────── general lemmas ─────────────────────────────

/// Counting distributes over concatenation.
pub proof fn lemma_count_concat(a: Seq<ThreadView>, b: Seq<ThreadView>)
    ensures
        forest_count(a + b) == forest_count(a) + forest_count(b),
    decreases a.len(),
{
    if a.len() == 0 {
        assert(a + b =~= b);
    } else {
        let r = a.subrange(1, a.len() as int);
        lemma_count_concat(r, b);
        assert(a + b =~= seq![a[0]] + (r + b));
        lemma_count_cons(a[0], r + b);
    }
}

/// Membership distributes over concatenation.
pub proof fn lemma_has_concat(a: Seq<ThreadView>, b: Seq<ThreadView>, id: Seq<char>)
    ensures
        forest_has_id(a + b, id) == (forest_has_id(a, id) || forest_has_id(b, id)),
    decreases a.len(),
{
    if a.len() == 0 {
        assert(a + b =~= b);
    } else {
        let r = a.subrange(1, a.len() as int);
        lemma_has_concat(r, b, id);
        let g = a + b;
        assert(g[0] == a[0]);
        assert(g.subrange(1, g.len() as int) =~= r + b);
    }
}

/// The last thread splits off membership.
pub proof fn lemma_has_last(g: Seq<ThreadView>, id: Seq<char>)
    requires
        g.len() > 0,
    ensures
        forest_has_id(g, id) == (forest_has_id(g.drop_last(), id) || tree_has_id(g.last(), id)),
{
    let one = seq![g.last()];
    assert(g =~= g.drop_last() + one);
    lemma_has_concat(g.drop_last(), one, id);
    assert(one[0] == g.last());
    assert(one.subrange(1, 1) =~= Seq::<ThreadView>::empty());
    assert(forest_has_id(one.subrange(1, 1), id) == false);
}

/// Counting an insertion at any place.
pub proof fn lemma_count_insert(s: Seq<ThreadView>, p: int, x: ThreadView)
    requires
        0 <= p <= s.len(),
    ensures
        forest_count(s.insert(p, x)) == forest_count(s) + tree_count(x),
{
    let a = s.subrange(0, p);
    let b = s.subrange(p, s.len() as int);
    assert(s =~= a + b);
    assert(s.insert(p, x) =~= a + (seq![x] + b));
    lemma_count_concat(a, b);
    lemma_count_concat(a, seq![x] + b);
    lemma_count_cons(x, b);
}

/// Membership after an insertion at any place.
pub proof fn lemma_has_insert(s: Seq<ThreadView>, p: int, x: ThreadView, id: Seq<char>)
    requires
        0 <= p <= s.len(),
    ensures
        forest_has_id(s.insert(p, x), id) == (forest_has_id(s, id) || tree_has_id(x, id)),
{
    let a = s.subrange(0, p);
    let b = s.subrange(p, s.len() as int);
    assert(s =~= a + b);
    assert(s.insert(p, x) =~= a + (seq![x] + b));
    lemma_has_concat(a, b, id);
    lemma_has_concat(a, seq![x] + b, id);
    let c = seq![x] + b;
    assert(c[0] == x);
    assert(c.subrange(1, c.len() as int) =~= b);
}

/// Counting a removal at any place.
pub proof fn lemma_count_remove(s: Seq<ThreadView>, p: int)
    requires
        0 <= p < s.len(),
    ensures
        forest_count(s) == forest_count(s.remove(p)) + tree_count(s[p]),
{
    assert(s.remove(p).insert(p, s[p]) =~= s);
    lemma_count_insert(s.remove(p), p, s[p]);
}

/// The last thread splits off the count.
pub proof fn lemma_count_last(s: Seq<ThreadView>)
    requires
        s.len() > 0,
    ensures
        forest_count(s) == forest_count(s.drop_last()) + tree_count(s.last()),
{
    assert(s =~= s.drop_last().push(s.last()));
    lemma_count_push(s.drop_last(), s.last());
}

// ─────────────────────────────────── pruning ────────────────────────────────

/// Whether a thread of `f`, at any depth, holds the file at `path`.
pub open spec fn tree_has_path(t: ThreadView, path: Seq<char>) -> bool
    decreases t,
{
    t.email.path == path || forest_has_path(t.replies, path)
}

/// Whether a thread of `f`, at any depth, holds the file at `path`.
pub open spec fn forest_has_path(f: Seq<ThreadView>, path: Seq<char>) -> bool
    decreases f,
{
    if f.len() == 0 {
        false
    } else {
        tree_has_path(f[0], path) || forest_has_path(f.subrange(1, f.len() as int), path)
    }
}

/// The position of the first thread of `f` (top level only) whose root
/// email lives at `path`.
pub open spec fn path_index(f: Seq<ThreadView>, path: Seq<char>) -> Option<int>
    decreases f.len(),
{
    if f.len() == 0 {
        None
    } else if f[0].email.path == path {
        Some(0)
    } else {
        match path_index(f.subrange(1, f.len() as int), path) {
            Some(i) => Some(i + 1),
            None => None,
        }
    }
}

/// The thread `t` with the subtrees rooted at `path` removed from its
/// replies.
pub open spec fn prune_tree(t: ThreadView, path: Seq<char>) -> ThreadView
    decreases t, 0int,
{
    ThreadView { email: t.email, replies: prune_forest(t.replies, path) }
}

/// The threads `f` without the subtree rooted at `path`: when a thread of
/// this level has its root email at `path`, the first such thread is removed
/// with all its replies; otherwise every thread is pruned in turn.
pub open spec fn prune_forest(f: Seq<ThreadView>, path: Seq<char>) -> Seq<ThreadView>
    decreases f, 2int,
{
    match path_index(f, path) {
        Some(i) => f.remove(i),
        None => prune_each(f, path),
    }
}

/// Every thread of `f` pruned.
pub open spec fn prune_each(f: Seq<ThreadView>, path: Seq<char>) -> Seq<ThreadView>
    decreases f, 1int,
{
    if f.len() == 0 {
        f
    } else {
        seq![prune_tree(f[0], path)] + prune_each(f.subrange(1, f.len() as int), path)
    }
}

proof fn lemma_path_index(f: Seq<ThreadView>, path: Seq<char>)
    ensures
        match path_index(f, path) {
            Some(i) => 0 <= i < f.len() && f[i].email.path == path && forall|j: int|
                0 <= j < i ==> #[trigger] f[j].email.path != path,
            None => forall|j: int| 0 <= j < f.len() ==> #[trigger] f[j].email.path != path,
        },
    decreases f.len(),
{
    if f.len() > 0 {
        let r = f.subrange(1, f.len() as int);
        lemma_path_index(r, path);
        assert(forall|j: int| 0 <= j < r.len() ==> #[trigger] r[j] == f[j + 1]);
        if f[0].email.path != path {
            match path_index(r, path) {
                Some(i) => {
                    assert forall|j: int| 0 <= j < i + 1 implies #[trigger] f[j].email.path
                        != path by {
                        if j > 0 {
                            assert(r[j - 1] == f[j]);
                            assert(r[j - 1].email.path != path);
                        }
                    }
                },
                None => {
                    assert forall|j: int| 0 <= j < f.len() implies #[trigger] f[j].email.path
                        != path by {
                        if j > 0 {
                            assert(r[j - 1] == f[j]);
                            assert(r[j - 1].email.path != path);
                        }
                    }
                },
            }
        }
    }
}

/// The position found by scanning for the first root at `path`.
proof fn lemma_path_index_at(f: Seq<ThreadView>, path: Seq<char>, i: int)
    requires
        0 <= i <= f.len(),
        forall|j: int| 0 <= j < i ==> #[trigger] f[j].email.path != path,
        i < f.len() ==> f[i].email.path == path,
    ensures
        path_index(f, path) == if i < f.len() {
            Some(i)
        } else {
            None::<int>
        },
{
    lemma_path_index(f, path);
    match path_index(f, path) {
        Some(k) => {
            if k < i {
                assert(f[k].email.path != path);
            }
            if i < k {
                assert(f[i].email.path != path);
            }
        },
        None => {
            if i < f.len() {
                assert(f[i].email.path != path);
            }
        },
    }
}

/// The subtrees that pruning `path` from the thread `t` takes away.
pub open spec fn pruned_tree(t: ThreadView, path: Seq<char>) -> Seq<ThreadView>
    decreases t, 0int,
{
    pruned_forest(t.replies, path)
}

/// The subtrees that pruning `path` from the threads `f` takes away.
pub open spec fn pruned_forest(f: Seq<ThreadView>, path: Seq<char>) -> Seq<ThreadView>
    decreases f, 2int,
{
    match path_index(f, path) {
        Some(i) => seq![f[i]],
        None => pruned_each(f, path),
    }
}

/// The subtrees that pruning every thread of `f` takes away.
pub open spec fn pruned_each(f: Seq<ThreadView>, path: Seq<char>) -> Seq<ThreadView>
    decreases f, 1int,
{
    if f.len() == 0 {
        seq![]
    } else {
        pruned_tree(f[0], path) + pruned_each(f.subrange(1, f.len() as int), path)
    }
}

proof fn lemma_pruned_tree(t: ThreadView, path: Seq<char>, x: Seq<char>)
    ensures
        tree_count(t) == tree_count(prune_tree(t, path)) + forest_count(pruned_tree(t, path)),
        tree_has_id(t, x) ==> tree_has_id(prune_tree(t, path), x) || forest_has_id(
            pruned_tree(t, path),
            x,
        ),
    decreases t, 0int,
{
    lemma_pruned_forest(t.replies, path, x);
}

/// Pruning splits the threads into what stays and what is taken away: the
/// counts add up, and every id is in one or the other.
pub(crate) proof fn lemma_pruned_forest(f: Seq<ThreadView>, path: Seq<char>, x: Seq<char>)
    ensures
        forest_count(f) == forest_count(prune_forest(f, path)) + forest_count(
            pruned_forest(f, path),
        ),
        forest_has_id(f, x) ==> forest_has_id(prune_forest(f, path), x) || forest_has_id(
            pruned_forest(f, path),
            x,
        ),
    decreases f, 2int,
{
    match path_index(f, path) {
        Some(i) => {
            lemma_path_index(f, path);
            lemma_count_remove(f, i);
            let e = Seq::<ThreadView>::empty();
            lemma_count_cons(f[i], e);
            assert(seq![f[i]] =~= seq![f[i]] + e);
            assert(f.remove(i).insert(i, f[i]) =~= f);
            lemma_has_insert(f.remove(i), i, f[i], x);
            let one = seq![f[i]];
            assert(one[0] == f[i]);
            assert(one.subrange(1, 1) =~= e);
            assert(!forest_has_id(e, x));
        },
        None => {
            lemma_pruned_each(f, path, x);
        },
    }
}

proof fn lemma_pruned_each(f: Seq<ThreadView>, path: Seq<char>, x: Seq<char>)
    ensures
        forest_count(f) == forest_count(prune_each(f, path)) + forest_count(pruned_each(f, path)),
        forest_has_id(f, x) ==> forest_has_id(prune_each(f, path), x) || forest_has_id(
            pruned_each(f, path),
            x,
        ),
    decreases f, 1int,
{
    if f.len() > 0 {
        let t = f[0];
        let r = f.subrange(1, f.len() as int);
        lemma_pruned_tree(t, path, x);
        lemma_pruned_each(r, path, x);
        let pt = prune_tree(t, path);
        let pe = prune_each(r, path);
        lemma_count_cons(pt, pe);
        lemma_count_concat(pruned_tree(t, path), pruned_each(r, path));
        lemma_has_concat(pruned_tree(t, path), pruned_each(r, path), x);
        let g = seq![pt] + pe;
        assert(g[0] == pt);
        assert(g.subrange(1, g.len() as int) =~= pe);
        assert(prune_each(f, path) == g);
    }
}

proof fn lemma_prune_count_tree(t: ThreadView, path: Seq<char>)
    ensures
        tree_count(prune_tree(t, path)) <= tree_count(t),
    decreases t, 0int,
{
    lemma_prune_count_forest(t.replies, path);
}

pub(crate) proof fn lemma_prune_count_forest(f: Seq<ThreadView>, path: Seq<char>)
    ensures
        forest_count(prune_forest(f, path)) <= forest_count(f),
    decreases f, 2int,
{
    match path_index(f, path) {
        Some(i) => {
            lemma_path_index(f, path);
            lemma_count_remove(f, i);
        },
        None => {
            lemma_prune_count_each(f, path);
        },
    }
}

proof fn lemma_prune_count_each(f: Seq<ThreadView>, path: Seq<char>)
    ensures
        forest_count(prune_each(f, path)) <= forest_count(f),
    decreases f, 1int,
{
    if f.len() > 0 {
        let r = f.subrange(1, f.len() as int);
        lemma_prune_count_tree(f[0], path);
        lemma_prune_count_each(r, path);
        lemma_count_cons(prune_tree(f[0], path), prune_each(r, path));
    }
}

proof fn lemma_prune_each_concat(a: Seq<ThreadView>, b: Seq<ThreadView>, path: Seq<char>)
    ensures
        prune_each(a + b, path) == prune_each(a, path) + prune_each(b, path),
        prune_each(a, path).len() == a.len(),
    decreases a.len(),
{
    if a.len() == 0 {
        assert(a + b =~= b);
        assert(prune_each(a, path) + prune_each(b, path) =~= prune_each(b, path));
    } else {
        let r = a.subrange(1, a.len() as int);
        lemma_prune_each_concat(r, b, path);
        let g = a + b;
        assert(g[0] == a[0]);
        assert(g.subrange(1, g.len() as int) =~= r + b);
        assert(prune_each(a + b, path) =~= prune_each(a, path) + prune_each(b, path));
    }
}

proof fn lemma_prune_absent_tree(t: ThreadView, path: Seq<char>)
    requires
        !tree_has_path(t, path),
    ensures
        prune_tree(t, path) == t,
    decreases t, 0int,
{
    lemma_prune_absent_forest(t.replies, path);
}

pub(crate) proof fn lemma_prune_absent_forest(f: Seq<ThreadView>, path: Seq<char>)
    requires
        !forest_has_path(f, path),
    ensures
        prune_forest(f, path) == f,
    decreases f, 2int,
{
    if f.len() > 0 {
        assert(!tree_has_path(f[0], path));
        assert(f[0].email.path != path);
        let r = f.subrange(1, f.len() as int);
        assert(!forest_has_path(r, path));
        lemma_prune_absent_forest(r, path);
        assert(path_index(f, path) is None) by {
            lemma_path_index(f, path);
            lemma_no_root_at_path(f, path);
        }
        lemma_prune_absent_each(f, path);
    }
}

proof fn lemma_no_root_at_path(f: Seq<ThreadView>, path: Seq<char>)
    requires
        !forest_has_path(f, path),
    ensures
        forall|j: int| 0 <= j < f.len() ==> #[trigger] f[j].email.path != path,
    decreases f.len(),
{
    if f.len() > 0 {
        let r = f.subrange(1, f.len() as int);
        lemma_no_root_at_path(r, path);
        assert(!tree_has_path(f[0], path));
        assert forall|j: int| 0 <= j < f.len() implies #[trigger] f[j].email.path != path by {
            if j > 0 {
                assert(r[j - 1] == f[j]);
                assert(r[j - 1].email.path != path);
            }
        }
    }
}

proof fn lemma_prune_absent_each(f: Seq<ThreadView>, path: Seq<char>)
    requires
        !forest_has_path(f, path),
    ensures
        prune_each(f, path) == f,
    decreases f, 1int,
{
    if f.len() > 0 {
        let r = f.subrange(1, f.len() as int);
        lemma_prune_absent_tree(f[0], path);
        lemma_prune_absent_each(r, path);
        assert(seq![f[0]] + r =~= f);
    }
}

// ─────────────────────────────────── sorting ────────────────────────────────

/// The later of two optional timestamps; an absent one counts for nothing.
pub open spec fn later(a: Option<i64>, b: Option<i64>) -> Option<i64> {
    match (a, b) {
        (Some(x), Some(y)) => Some(
            if x >= y {
                x
            } else {
                y
            },
        ),
        (Some(x), None) => Some(x),
        (None, _) => b,
    }
}

/// The most recent timestamp in the thread `t`, `None` when no email of it
/// has one.
pub open spec fn tree_latest(t: ThreadView) -> Option<i64>
    decreases t,
{
    later(t.email.timestamp, forest_latest(t.replies))
}

/// The most recent timestamp in the threads `f`.
pub open spec fn forest_latest(f: Seq<ThreadView>) -> Option<i64>
    decreases f,
{
    if f.len() == 0 {
        None
    } else {
        later(forest_latest(f.drop_last()), tree_latest(f.last()))
    }
}

/// Whether a thread whose latest timestamp is `a` goes strictly before one
/// whose latest timestamp is `b`: newest first when descending, oldest first
/// when ascending, and threads without any timestamp after all dated ones.
pub open spec fn goes_before(a: Option<i64>, b: Option<i64>, order: SortOrder) -> bool {
    match (a, b) {
        (Some(x), Some(y)) => match order {
            SortOrder::Descending => x > y,
            SortOrder::Ascending => x < y,
        },
        (Some(_), None) => true,
        (None, _) => false,
    }
}

/// Where a thread with latest timestamp `k` is placed among the sorted
/// threads `s`: before the first thread it goes before, so that it follows
/// every thread it ties with.
pub open spec fn insert_pos(s: Seq<ThreadView>, k: Option<i64>, order: SortOrder) -> int
    decreases s.len(),
{
    if s.len() == 0 {
        0
    } else if goes_before(k, tree_latest(s[0]), order) {
        0
    } else {
        1 + insert_pos(s.subrange(1, s.len() as int), k, order)
    }
}

/// Stable insertion sort of the threads `g` by their latest timestamp.
pub open spec fn insertion_sort(g: Seq<ThreadView>, order: SortOrder) -> Seq<ThreadView>
    decreases g.len(),
{
    if g.len() == 0 {
        g
    } else {
        let s = insertion_sort(g.drop_last(), order);
        let x = g.last();
        s.insert(insert_pos(s, tree_latest(x), order), x)
    }
}

/// The thread `t` with its replies sorted, recursively.
pub open spec fn sort_tree(t: ThreadView, order: SortOrder) -> ThreadView
    decreases t, 2int,
{
    ThreadView { email: t.email, replies: sort_forest(t.replies, order) }
}

/// Every thread of `f` sorted inside.
pub open spec fn sort_each(f: Seq<ThreadView>, order: SortOrder) -> Seq<ThreadView>
    decreases f, 0int,
{
    if f.len() == 0 {
        f
    } else {
        sort_each(f.drop_last(), order).push(sort_tree(f.last(), order))
    }
}

/// The threads `f` sorted by their most recent timestamp (ties keep their
/// order), each with its replies sorted the same way.
pub open spec fn sort_forest(f: Seq<ThreadView>, order: SortOrder) -> Seq<ThreadView>
    decreases f, 1int,
{
    insertion_sort(sort_each(f, order), order)
}

/// Whether the threads `s` are in order: no thread goes before an earlier
/// one.
pub open spec fn is_sorted(s: Seq<ThreadView>, order: SortOrder) -> bool {
    forall|i: int, j: int|
        0 <= i < j < s.len() ==> !goes_before(
            #[trigger] tree_latest(s[j]),
            #[trigger] tree_latest(s[i]),
            order,
        )
}

proof fn lemma_insert_pos(s: Seq<ThreadView>, k: Option<i64>, order: SortOrder)
    ensures
        0 <= insert_pos(s, k, order) <= s.len(),
        forall|j: int|
            0 <= j < insert_pos(s, k, order) ==> !goes_before(
                k,
                #[trigger] tree_latest(s[j]),
                order,
            ),
        insert_pos(s, k, order) < s.len() ==> goes_before(
            k,
            tree_latest(s[insert_pos(s, k, order)]),
            order,
        ),
    decreases s.len(),
{
    if s.len() > 0 && !goes_before(k, tree_latest(s[0]), order) {
        let r = s.subrange(1, s.len() as int);
        lemma_insert_pos(r, k, order);
        assert forall|j: int| 0 <= j < insert_pos(s, k, order) implies !goes_before(
            k,
            #[trigger] tree_latest(s[j]),
            order,
        ) by {
            if j > 0 {
                assert(r[j - 1] == s[j]);
            }
        }
    }
}

/// The position found by a scan of the keys from the front.
proof fn lemma_insert_pos_at(s: Seq<ThreadView>, k: Option<i64>, order: SortOrder, p: int)
    requires
        0 <= p <= s.len(),
        forall|j: int| 0 <= j < p ==> !goes_before(k, #[trigger] tree_latest(s[j]), order),
        p < s.len() ==> goes_before(k, tree_latest(s[p]), order),
    ensures
        insert_pos(s, k, order) == p,
{
    lemma_insert_pos(s, k, order);
    let q = insert_pos(s, k, order);
    if q < p {
        assert(!goes_before(k, tree_latest(s[q]), order));
    }
    if p < q {
        assert(!goes_before(k, tree_latest(s[p]), order));
    }
}

/// Insertion at `insert_pos` keeps a sorted sequence sorted.
proof fn lemma_insert_sorted(s: Seq<ThreadView>, x: ThreadView, order: SortOrder)
    requires
        is_sorted(s, order),
    ensures
        is_sorted(s.insert(insert_pos(s, tree_latest(x), order), x), order),
{
    let k = tree_latest(x);
    lemma_insert_pos(s, k, order);
    let p = insert_pos(s, k, order);
    let r = s.insert(p, x);
    assert forall|i: int, j: int| 0 <= i < j < r.len() implies !goes_before(
        #[trigger] tree_latest(r[j]),
        #[trigger] tree_latest(r[i]),
        order,
    ) by {
        if j < p {
            assert(r[i] == s[i] && r[j] == s[j]);
        } else if j == p {
            assert(r[i] == s[i]);
            assert(!goes_before(k, tree_latest(s[i]), order));
        } else if i < p {
            assert(r[i] == s[i] && r[j] == s[j - 1]);
            assert(!goes_before(tree_latest(s[j - 1]), tree_latest(s[i]), order));
        } else if i == p {
            assert(r[j] == s[j - 1]);
            assert(goes_before(k, tree_latest(s[p]), order));
            if j - 1 > p {
                assert(!goes_before(tree_latest(s[j - 1]), tree_latest(s[p]), order));
            }
        } else {
            assert(r[i] == s[i - 1] && r[j] == s[j - 1]);
            assert(!goes_before(tree_latest(s[j - 1]), tree_latest(s[i - 1]), order));
        }
    }
}

/// Insertion sort sorts.
pub proof fn lemma_insertion_sort_sorted(g: Seq<ThreadView>, order: SortOrder)
    ensures
        is_sorted(insertion_sort(g, order), order),
    decreases g.len(),
{
    if g.len() > 0 {
        lemma_insertion_sort_sorted(g.drop_last(), order);
        lemma_insert_sorted(insertion_sort(g.drop_last(), order), g.last(), order);
    }
}

proof fn lemma_insertion_sort_keeps(g: Seq<ThreadView>, order: SortOrder, id: Seq<char>)
    ensures
        forest_count(insertion_sort(g, order)) == forest_count(g),
        forest_has_id(insertion_sort(g, order), id) == forest_has_id(g, id),
        insertion_sort(g, order).len() == g.len(),
    decreases g.len(),
{
    if g.len() > 0 {
        let s = insertion_sort(g.drop_last(), order);
        lemma_insertion_sort_keeps(g.drop_last(), order, id);
        lemma_insert_pos(s, tree_latest(g.last()), order);
        let p = insert_pos(s, tree_latest(g.last()), order);
        lemma_count_insert(s, p, g.last());
        lemma_has_insert(s, p, g.last(), id);
        lemma_count_last(g);
        lemma_has_last(g, id);
    }
}

proof fn lemma_sort_keeps_tree(t: ThreadView, order: SortOrder, id: Seq<char>)
    ensures
        tree_count(sort_tree(t, order)) == tree_count(t),
        tree_has_id(sort_tree(t, order), id) == tree_has_id(t, id),
    decreases t, 2int,
{
    lemma_sort_keeps_forest(t.replies, order, id);
}

proof fn lemma_sort_keeps_forest(f: Seq<ThreadView>, order: SortOrder, id: Seq<char>)
    ensures
        forest_count(sort_forest(f, order)) == forest_count(f),
        forest_has_id(sort_forest(f, order), id) == forest_has_id(f, id),
    decreases f, 1int,
{
    lemma_sort_keeps_each(f, order, id);
    lemma_insertion_sort_keeps(sort_each(f, order), order, id);
}

proof fn lemma_sort_keeps_each(f: Seq<ThreadView>, order: SortOrder, id: Seq<char>)
    ensures
        forest_count(sort_each(f, order)) == forest_count(f),
        forest_has_id(sort_each(f, order), id) == forest_has_id(f, id),
        sort_each(f, order).len() == f.len(),
    decreases f, 0int,
{
    if f.len() > 0 {
        let a = f.drop_last();
        let x = f.last();
        lemma_sort_keeps_each(a, order, id);
        lemma_sort_keeps_tree(x, order, id);
        let sa = sort_each(a, order);
        let sx = sort_tree(x, order);
        lemma_count_push(sa, sx);
        lemma_count_last(f);
        lemma_has_last(f, id);
        let g = sa.push(sx);
        assert(g.drop_last() =~= sa);
        lemma_has_last(g, id);
    }
}

/// Sorting keeps every email: the same number of them, and the same
/// message ids.
pub proof fn lemma_sort_keeps(f: Seq<ThreadView>, order: SortOrder, id: Seq<char>)
    ensures
        forest_count(sort_forest(f, order)) == forest_count(f),
        forest_has_id(sort_forest(f, order), id) == forest_has_id(f, id),
{
    lemma_sort_keeps_forest(f, order, id);
}

/// Sorted threads come out ordered by their latest timestamp.
pub proof fn lemma_sort_sorted(f: Seq<ThreadView>, order: SortOrder)
    ensures
        is_sorted(sort_forest(f, order), order),
{
    lemma_insertion_sort_sorted(sort_each(f, order), order);
}

/// An already sorted sequence is left as it is by the insertion sort.
proof fn lemma_insertion_sort_id(g: Seq<ThreadView>, order: SortOrder)
    requires
        is_sorted(g, order),
    ensures
        insertion_sort(g, order) == g,
    decreases g.len(),
{
    if g.len() > 0 {
        let a = g.drop_last();
        let x = g.last();
        assert forall|i: int, j: int| 0 <= i < j < a.len() implies !goes_before(
            #[trigger] tree_latest(a[j]),
            #[trigger] tree_latest(a[i]),
            order,
        ) by {
            assert(a[i] == g[i] && a[j] == g[j]);
            assert(!goes_before(tree_latest(g[j]), tree_latest(g[i]), order));
        }
        lemma_insertion_sort_id(a, order);
        assert forall|j: int| 0 <= j < a.len() implies !goes_before(
            tree_latest(x),
            #[trigger] tree_latest(a[j]),
            order,
        ) by {
            assert(a[j] == g[j]);
            assert(x == g[g.len() - 1]);
            assert(!goes_before(tree_latest(g[g.len() - 1]), tree_latest(g[j]), order));
        }
        lemma_insert_pos_at(a, tree_latest(x), order, a.len() as int);
        assert(a.insert(a.len() as int, x) =~= g);
    }
}

/// Every thread the insertion sort puts out comes from its input.
proof fn lemma_insertion_sort_from(g: Seq<ThreadView>, order: SortOrder)
    ensures
        insertion_sort(g, order).len() == g.len(),
        forall|i: int|
            0 <= i < g.len() ==> exists|j: int|
                0 <= j < g.len() && #[trigger] insertion_sort(g, order)[i] == g[j],
    decreases g.len(),
{
    if g.len() > 0 {
        let a = g.drop_last();
        let x = g.last();
        let s = insertion_sort(a, order);
        lemma_insertion_sort_from(a, order);
        lemma_insert_pos(s, tree_latest(x), order);
        let p = insert_pos(s, tree_latest(x), order);
        let r = s.insert(p, x);
        assert forall|i: int| 0 <= i < g.len() implies exists|j: int|
            0 <= j < g.len() && #[trigger] r[i] == g[j] by {
            if i < p {
                assert(r[i] == s[i]);
                let j = choose|j: int| 0 <= j < a.len() && s[i] == a[j];
                assert(a[j] == g[j]);
            } else if i == p {
                assert(r[i] == g[g.len() - 1]);
            } else {
                assert(r[i] == s[i - 1]);
                let j = choose|j: int| 0 <= j < a.len() && s[i - 1] == a[j];
                assert(a[j] == g[j]);
            }
        }
    }
}

/// `sort_each` sorts every thread in place.
proof fn lemma_sort_each_index(f: Seq<ThreadView>, order: SortOrder)
    ensures
        sort_each(f, order).len() == f.len(),
        forall|i: int| 0 <= i < f.len() ==> #[trigger] sort_each(f, order)[i] == sort_tree(f[i], order),
    decreases f.len(),
{
    if f.len() > 0 {
        lemma_sort_each_index(f.drop_last(), order);
        assert forall|i: int| 0 <= i < f.len() implies #[trigger] sort_each(f, order)[i] == sort_tree(
            f[i],
            order,
        ) by {
            if i < f.len() - 1 {
                assert(f.drop_last()[i] == f[i]);
            }
        }
    }
}

proof fn lemma_sort_tree_idempotent(t: ThreadView, order: SortOrder)
    ensures
        sort_tree(sort_tree(t, order), order) == sort_tree(t, order),
    decreases t, 2int,
{
    lemma_sort_forest_idempotent_rec(t.replies, order);
}

proof fn lemma_sort_forest_idempotent_rec(f: Seq<ThreadView>, order: SortOrder)
    ensures
        sort_forest(sort_forest(f, order), order) == sort_forest(f, order),
    decreases f, 1int,
{
    let se = sort_each(f, order);
    let g = insertion_sort(se, order);
    lemma_sort_each_index(f, order);
    lemma_insertion_sort_from(se, order);
    assert forall|i: int| 0 <= i < g.len() implies #[trigger] sort_tree(g[i], order) == g[i] by {
        let j = choose|j: int| 0 <= j < se.len() && g[i] == se[j];
        assert(se[j] == sort_tree(f[j], order));
        lemma_sort_tree_idempotent(f[j], order);
    }
    lemma_sort_each_index(g, order);
    assert(sort_each(g, order) =~= g);
    lemma_insertion_sort_sorted(se, order);
    lemma_insertion_sort_id(g, order);
}

/// Sorting sorted threads again changes nothing: sorting is idempotent.
pub proof fn lemma_sort_idempotent(f: Seq<ThreadView>, order: SortOrder)
    ensures
        sort_forest(sort_forest(f, order), order) == sort_forest(f, order),
{
    lemma_sort_forest_idempotent_rec(f, order);
}


// ───────────────────────────── executable pruning ───────────────────────────

pub(crate) proof fn lemma_forest_view_insert(v: Seq<EmailThread>, p: int, t: EmailThread)
    requires
        0 <= p <= v.len(),
    ensures
        forest_view(v.insert(p, t)) == forest_view(v).insert(p, t.tree()),
{
    crate::maildir::lemma_forest_view(v);
    crate::maildir::lemma_forest_view(v.insert(p, t));
    assert(forest_view(v.insert(p, t)) =~= forest_view(v).insert(p, t.tree()));
}

pub(crate) proof fn lemma_forest_view_remove(v: Seq<EmailThread>, p: int)
    requires
        0 <= p < v.len(),
    ensures
        forest_view(v.remove(p)) == forest_view(v).remove(p),
{
    crate::maildir::lemma_forest_view(v);
    crate::maildir::lemma_forest_view(v.remove(p));
    assert(forest_view(v.remove(p)) =~= forest_view(v).remove(p));
}

fn path_is(e: &Email, path: &[char]) -> (r: bool)
    ensures
        r == (e@.path == path@),
{
    let m = crate::text::to_chars(e.path.as_str());
    chars_eq(m.as_slice(), path)
}

fn prune_tree_exec(t: EmailThread, path: &[char]) -> (r: EmailThread)
    ensures
        r.tree() == prune_tree(t.tree(), path@),
    decreases t,
{
    let EmailThread { parent, replies } = t;
    let replies = prune_forest_exec(replies, path);
    EmailThread { parent, replies }
}

/// Removes from `f` the subtree rooted at `path` (see [`prune_forest`]).
pub fn prune_forest_exec(f: Vec<EmailThread>, path: &[char]) -> (r: Vec<EmailThread>)
    ensures
        forest_view(r@) == prune_forest(forest_view(f@), path@),
    decreases f,
{
    let ghost fv = forest_view(f@);
    proof {
        crate::maildir::lemma_forest_view(f@);
    }
    let n = f.len();
    let mut i: usize = 0;
    while i < n
        invariant
            n == f@.len(),
            n == fv.len(),
            fv == forest_view(f@),
            forall|j: int| 0 <= j < n ==> #[trigger] fv[j] == f@[j].tree(),
            i <= n,
            forall|j: int| 0 <= j < i ==> #[trigger] fv[j].email.path != path@,
        decreases n - i,
    {
        if path_is(&f[i].parent, path) {
            proof {
                lemma_path_index_at(fv, path@, i as int);
            }
            let mut f = f;
            let ghost fs = f@;
            let _removed = f.remove(i);
            proof {
                lemma_forest_view_remove(fs, i as int);
            }
            return f;
        }
        i += 1;
    }
    proof {
        lemma_path_index_at(fv, path@, n as int);
    }
    let ghost f0 = f@;
    let mut work = f;
    let mut i: usize = 0;
    proof {
        assert(prune_each(fv.subrange(0, 0), path@) =~= Seq::<ThreadView>::empty());
        assert(fv.subrange(0, n as int) =~= fv);
        assert(Seq::<ThreadView>::empty() + fv =~= fv);
    }
    while i < n
        invariant
            n == work@.len(),
            f0 == f@,
            n == fv.len(),
            n == f0.len(),
            fv == forest_view(f0),
            forall|j: int| 0 <= j < n ==> #[trigger] fv[j] == f0[j].tree(),
            i <= n,
            forall|j: int| i <= j < n ==> #[trigger] work@[j] == f0[j],
            forest_view(work@) == prune_each(fv.subrange(0, i as int), path@) + fv.subrange(
                i as int,
                n as int,
            ),
        decreases n - i,
    {
        let ghost fs = work@;
        let t = work.remove(i);
        assert(t == f0[i as int]);
        let t2 = prune_tree_exec(t, path);
        work.insert(i, t2);
        proof {
            lemma_forest_view_remove_insert(fs, i as int, t2);
            let a = fv.subrange(0, i as int);
            let x = fv[i as int];
            assert(fv.subrange(0, i + 1) =~= a + seq![x]);
            lemma_prune_each_concat(a, seq![x], path@);
            let one = seq![x];
            assert(one[0] == x);
            assert(one.subrange(1, 1) =~= Seq::<ThreadView>::empty());
            assert(prune_each(one.subrange(1, 1), path@) =~= Seq::<ThreadView>::empty());
            assert(prune_each(one, path@) == seq![prune_tree(x, path@)] + prune_each(
                one.subrange(1, 1),
                path@,
            ));
            assert(prune_each(one, path@) =~= seq![prune_tree(x, path@)]);
            assert(forest_view(work@) =~= prune_each(fv.subrange(0, i + 1), path@) + fv.subrange(
                i + 1,
                n as int,
            ));
        }
        i += 1;
    }
    proof {
        assert(fv.subrange(n as int, n as int) =~= Seq::<ThreadView>::empty());
        assert(forest_view(work@) =~= prune_each(fv, path@));
    }
    work
}

// ─────────────────────────────────── renaming ───────────────────────────────

/// `e`, with its file at `to` when it was at `from`.
pub open spec fn renamed_email(e: EmailInfo, from: Seq<char>, to: Seq<char>) -> EmailInfo {
    if e.path == from {
        EmailInfo { path: to, ..e }
    } else {
        e
    }
}

/// The thread `t` with every email whose file was at `from` now at `to`.
pub open spec fn rename_tree(t: ThreadView, from: Seq<char>, to: Seq<char>) -> ThreadView
    decreases t, 1int,
{
    ThreadView {
        email: renamed_email(t.email, from, to),
        replies: rename_forest(t.replies, from, to),
    }
}

/// Every thread of `f` renamed (see [`rename_tree`]), in order.
pub open spec fn rename_forest(f: Seq<ThreadView>, from: Seq<char>, to: Seq<char>) -> Seq<
    ThreadView,
>
    decreases f, 0int,
{
    if f.len() == 0 {
        f
    } else {
        seq![rename_tree(f[0], from, to)] + rename_forest(f.subrange(1, f.len() as int), from, to)
    }
}

proof fn lemma_rename_count_tree(t: ThreadView, from: Seq<char>, to: Seq<char>)
    ensures
        tree_count(rename_tree(t, from, to)) == tree_count(t),
    decreases t, 1int,
{
    lemma_rename_count_forest(t.replies, from, to);
}

/// Renaming keeps the number of emails.
pub(crate) proof fn lemma_rename_count_forest(f: Seq<ThreadView>, from: Seq<char>, to: Seq<char>)
    ensures
        forest_count(rename_forest(f, from, to)) == forest_count(f),
        rename_forest(f, from, to).len() == f.len(),
    decreases f, 0int,
{
    if f.len() > 0 {
        let r = f.subrange(1, f.len() as int);
        lemma_rename_count_tree(f[0], from, to);
        lemma_rename_count_forest(r, from, to);
        lemma_count_cons(rename_tree(f[0], from, to), rename_forest(r, from, to));
    }
}

proof fn lemma_rename_has_tree(t: ThreadView, from: Seq<char>, to: Seq<char>, id: Seq<char>)
    ensures
        tree_has_id(rename_tree(t, from, to), id) == tree_has_id(t, id),
    decreases t, 1int,
{
    lemma_rename_has_forest(t.replies, from, to, id);
}

/// Renaming keeps every message id.
pub(crate) proof fn lemma_rename_has_forest(
    f: Seq<ThreadView>,
    from: Seq<char>,
    to: Seq<char>,
    id: Seq<char>,
)
    ensures
        forest_has_id(rename_forest(f, from, to), id) == forest_has_id(f, id),
    decreases f, 0int,
{
    if f.len() > 0 {
        let r = f.subrange(1, f.len() as int);
        lemma_rename_has_tree(f[0], from, to, id);
        lemma_rename_has_forest(r, from, to, id);
        lemma_rename_count_forest(r, from, to);
        let g = rename_forest(f, from, to);
        assert(g[0] == rename_tree(f[0], from, to));
        assert(g.subrange(1, g.len() as int) =~= rename_forest(r, from, to));
    }
}

proof fn lemma_rename_concat(a: Seq<ThreadView>, b: Seq<ThreadView>, from: Seq<char>, to: Seq<char>)
    ensures
        rename_forest(a + b, from, to) == rename_forest(a, from, to) + rename_forest(b, from, to),
    decreases a.len(),
{
    if a.len() == 0 {
        assert(a + b =~= b);
        assert(rename_forest(a, from, to) + rename_forest(b, from, to) =~= rename_forest(
            b,
            from,
            to,
        ));
    } else {
        let r = a.subrange(1, a.len() as int);
        lemma_rename_concat(r, b, from, to);
        let g = a + b;
        assert(g[0] == a[0]);
        assert(g.subrange(1, g.len() as int) =~= r + b);
        assert(rename_forest(a + b, from, to) =~= rename_forest(a, from, to) + rename_forest(
            b,
            from,
            to,
        ));
    }
}

fn rename_tree_exec(t: EmailThread, from: &[char], to: &str) -> (r: EmailThread)
    ensures
        r.tree() == rename_tree(t.tree(), from@, to@),
    decreases t,
{
    let EmailThread { parent, replies } = t;
    let mut parent = parent;
    if path_is(&parent, from) {
        parent.set_path(to.to_string());
    }
    let replies = rename_forest_exec(replies, from, to);
    EmailThread { parent, replies }
}

/// Moves every email of `f` whose file is at `from` to `to` (see
/// [`rename_forest`]).
pub fn rename_forest_exec(f: Vec<EmailThread>, from: &[char], to: &str) -> (r: Vec<EmailThread>)
    ensures
        forest_view(r@) == rename_forest(forest_view(f@), from@, to@),
    decreases f,
{
    let ghost fv = forest_view(f@);
    proof {
        crate::maildir::lemma_forest_view(f@);
    }
    let n = f.len();
    let ghost f0 = f@;
    let mut work = f;
    let mut i: usize = 0;
    proof {
        assert(rename_forest(fv.subrange(0, 0), from@, to@) =~= Seq::<ThreadView>::empty());
        assert(fv.subrange(0, n as int) =~= fv);
        assert(Seq::<ThreadView>::empty() + fv =~= fv);
    }
    while i < n
        invariant
            n == work@.len(),
            f0 == f@,
            n == fv.len(),
            n == f0.len(),
            fv == forest_view(f0),
            forall|j: int| 0 <= j < n ==> #[trigger] fv[j] == f0[j].tree(),
            i <= n,
            forall|j: int| i <= j < n ==> #[trigger] work@[j] == f0[j],
            forest_view(work@) == rename_forest(fv.subrange(0, i as int), from@, to@)
                + fv.subrange(i as int, n as int),
        decreases n - i,
    {
        let ghost fs = work@;
        let t = work.remove(i);
        assert(t == f0[i as int]);
        let t2 = rename_tree_exec(t, from, to);
        work.insert(i, t2);
        proof {
            lemma_forest_view_remove_insert(fs, i as int, t2);
            let a = fv.subrange(0, i as int);
            let x = fv[i as int];
            assert(fv.subrange(0, i + 1) =~= a + seq![x]);
            lemma_rename_concat(a, seq![x], from@, to@);
            lemma_rename_count_forest(a, from@, to@);
            let one = seq![x];
            assert(one[0] == x);
            assert(one.subrange(1, 1) =~= Seq::<ThreadView>::empty());
            assert(rename_forest(one.subrange(1, 1), from@, to@) =~= Seq::<ThreadView>::empty());
            assert(rename_forest(one, from@, to@) == seq![rename_tree(x, from@, to@)]
                + rename_forest(one.subrange(1, 1), from@, to@));
            assert(rename_forest(one, from@, to@) =~= seq![rename_tree(x, from@, to@)]);
            assert(forest_view(work@) =~= rename_forest(fv.subrange(0, i + 1), from@, to@)
                + fv.subrange(i + 1, n as int));
        }
        i += 1;
    }
    proof {
        assert(fv.subrange(n as int, n as int) =~= Seq::<ThreadView>::empty());
        assert(forest_view(work@) =~= rename_forest(fv, from@, to@));
    }
    work
}

// ───────────────────────────── executable sorting ───────────────────────────

fn later_of(a: Option<i64>, b: Option<i64>) -> (r: Option<i64>)
    ensures
        r == later(a, b),
{
    match (a, b) {
        (Some(x), Some(y)) => Some(
            if x >= y {
                x
            } else {
                y
            },
        ),
        (Some(x), None) => Some(x),
        (None, _) => b,
    }
}

fn goes_before_exec(a: Option<i64>, b: Option<i64>, order: SortOrder) -> (r: bool)
    ensures
        r == goes_before(a, b, order),
{
    match (a, b) {
        (Some(x), Some(y)) => match order {
            SortOrder::Descending => x > y,
            SortOrder::Ascending => x < y,
        },
        (Some(_), None) => true,
        (None, _) => false,
    }
}

/// Return the most recent timestamp across `thread` and all its replies.
/// Returns `None` if no email in the tree has a timestamp.
pub fn thread_max_timestamp(thread: &EmailThread) -> (r: Option<i64>)
    ensures
        r == tree_latest(thread.tree()),
    decreases thread,
{
    let ghost rv = forest_view(thread.replies@);
    proof {
        crate::maildir::lemma_forest_view(thread.replies@);
        assert(rv.subrange(0, rv.len() as int) =~= rv);
        assert(rv.subrange(0, 0) =~= Seq::<ThreadView>::empty());
    }
    let n = thread.replies.len();
    let mut max = thread.parent.timestamp;
    let mut i: usize = 0;
    while i < n
        invariant
            n == thread.replies@.len(),
            n == rv.len(),
            rv == forest_view(thread.replies@),
            forall|j: int| 0 <= j < n ==> #[trigger] rv[j] == thread.replies@[j].tree(),
            i <= n,
            max == later(thread.parent.timestamp, forest_latest(rv.subrange(0, i as int))),
        decreases n - i,
    {
        let t = thread_max_timestamp(&thread.replies[i]);
        proof {
            let a = rv.subrange(0, i + 1);
            assert(a.drop_last() =~= rv.subrange(0, i as int));
            assert(a.last() == rv[i as int]);
        }
        max = later_of(max, t);
        i += 1;
    }
    max
}

fn sort_tree_exec(t: EmailThread, order: SortOrder) -> (r: EmailThread)
    ensures
        r.tree() == sort_tree(t.tree(), order),
    decreases t,
{
    let EmailThread { parent, replies } = t;
    let replies = sort_threads(replies, order);
    EmailThread { parent, replies }
}

/// Sort `threads` by the most recent timestamp in each thread tree, then
/// recurse into replies (see [`sort_forest`]).
pub fn sort_threads(threads: Vec<EmailThread>, order: SortOrder) -> (r: Vec<EmailThread>)
    ensures
        forest_view(r@) == sort_forest(forest_view(threads@), order),
    decreases threads,
{
    let ghost fv = forest_view(threads@);
    let ghost f0 = threads@;
    proof {
        crate::maildir::lemma_forest_view(threads@);
        assert(sort_each(fv.subrange(0, 0), order) =~= Seq::<ThreadView>::empty());
        assert(fv.subrange(0, fv.len() as int) =~= fv);
        assert(Seq::<ThreadView>::empty() + fv =~= fv);
    }
    let n = threads.len();
    let mut work = threads;
    let mut i: usize = 0;
    // every thread sorted inside
    while i < n
        invariant
            n == work@.len(),
            f0 == threads@,
            n == fv.len(),
            n == f0.len(),
            fv == forest_view(f0),
            forall|j: int| 0 <= j < n ==> #[trigger] fv[j] == f0[j].tree(),
            i <= n,
            forall|j: int| i <= j < n ==> #[trigger] work@[j] == f0[j],
            forest_view(work@) == sort_each(fv.subrange(0, i as int), order) + fv.subrange(
                i as int,
                n as int,
            ),
        decreases n - i,
    {
        let ghost ws = work@;
        let t = work.remove(i);
        assert(t == f0[i as int]);
        let t2 = sort_tree_exec(t, order);
        work.insert(i, t2);
        proof {
            lemma_forest_view_remove_insert(ws, i as int, t2);
            let a = fv.subrange(0, i + 1);
            assert(a.drop_last() =~= fv.subrange(0, i as int));
            assert(a.last() == fv[i as int]);
            lemma_sort_each_len(fv.subrange(0, i as int), order);
            assert(forest_view(work@) =~= sort_each(fv.subrange(0, i + 1), order) + fv.subrange(
                i + 1,
                n as int,
            ));
        }
        i += 1;
    }
    let ghost g = sort_each(fv, order);
    proof {
        assert(fv.subrange(n as int, n as int) =~= Seq::<ThreadView>::empty());
        assert(fv.subrange(0, n as int) =~= fv);
        assert(forest_view(work@) =~= g);
        lemma_sort_each_len(fv, order);
        assert(g.subrange(0, 0) =~= Seq::<ThreadView>::empty());
        assert(g.subrange(0, n as int) =~= g);
    }
    // stable insertion sort by the latest timestamp
    let mut out: Vec<EmailThread> = Vec::new();
    let mut keys: Vec<Option<i64>> = Vec::new();
    let mut i: usize = 0;
    proof {
        assert(forest_view(out@) =~= Seq::<ThreadView>::empty());
    }
    while i < n
        invariant
            n == g.len(),
            i <= n,
            work@.len() == n - i,
            forest_view(work@) == g.subrange(i as int, n as int),
            forest_view(out@) == insertion_sort(g.subrange(0, i as int), order),
            keys@.len() == out@.len(),
            forest_view(out@).len() == out@.len(),
            forall|j: int|
                0 <= j < keys@.len() ==> #[trigger] keys@[j] == tree_latest(
                    forest_view(out@)[j],
                ),
        decreases n - i,
    {
        let ghost ws = work@;
        let ghost ov = forest_view(out@);
        proof {
            crate::maildir::lemma_forest_view(ws);
            crate::maildir::lemma_forest_view(out@);
            lemma_insertion_sort_len(g.subrange(0, i as int), order);
        }
        let t = work.remove(0);
        proof {
            lemma_forest_view_remove(ws, 0);
            assert(t == ws[0]);
            assert(forest_view(ws)[0] == ws[0].tree());
            assert(g.subrange(i as int, n as int)[0] == g[i as int]);
            assert(t.tree() == g[i as int]);
            assert(g.subrange(i as int, n as int).remove(0) =~= g.subrange(i + 1, n as int));
        }
        let k = thread_max_timestamp(&t);
        let mut p: usize = 0;
        while p < keys.len()
            invariant
                p <= keys@.len(),
                keys@.len() == ov.len(),
                forall|j: int| 0 <= j < keys@.len() ==> #[trigger] keys@[j] == tree_latest(ov[j]),
                forall|j: int| 0 <= j < p ==> !goes_before(k, #[trigger] tree_latest(ov[j]), order),
            ensures
                p <= keys@.len(),
                forall|j: int| 0 <= j < p ==> !goes_before(k, #[trigger] tree_latest(ov[j]), order),
                p < keys@.len() ==> goes_before(k, tree_latest(ov[p as int]), order),
            decreases keys@.len() - p,
        {
            if goes_before_exec(k, keys[p], order) {
                break;
            }
            p += 1;
        }
        proof {
            lemma_insert_pos_at(ov, k, order, p as int);
            let a = g.subrange(0, i + 1);
            assert(a.drop_last() =~= g.subrange(0, i as int));
            assert(a.last() == g[i as int]);
        }
        let ghost os = out@;
        out.insert(p, t);
        keys.insert(p, k);
        proof {
            lemma_forest_view_insert(os, p as int, t);
            crate::maildir::lemma_forest_view(out@);
        }
        i += 1;
    }
    proof {
        assert(g.subrange(0, n as int) =~= g);
    }
    out
}

proof fn lemma_sort_each_len(f: Seq<ThreadView>, order: SortOrder)
    ensures
        sort_each(f, order).len() == f.len(),
    decreases f.len(),
{
    if f.len() > 0 {
        lemma_sort_each_len(f.drop_last(), order);
    }
}

proof fn lemma_insertion_sort_len(g: Seq<ThreadView>, order: SortOrder)
    ensures
        insertion_sort(g, order).len() == g.len(),
    decreases g.len(),
{
    if g.len() > 0 {
        lemma_insertion_sort_len(g.drop_last(), order);
        lemma_insert_pos(insertion_sort(g.drop_last(), order), tree_latest(g.last()), order);
    }
}

} // verus!

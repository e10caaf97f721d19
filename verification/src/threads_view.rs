//! The scrollable thread list: the thread trees flattened depth-first into
//! rows, filtered to unread emails and by a subject search, with a
//! selection that follows its email across refreshes.
use crate::flags::path_is_unread;
use crate::text::{contains_seq, contains_str, lowercase, occurs_at, to_chars, to_lowercase};
use crate::thread::{forest_view, Email, EmailInfo, EmailThread, ThreadView};
use vstd::prelude::*;

verus! {

/// One row of the list: an email and its depth in its thread.
pub struct Row {
    pub depth: usize,
    pub email: Email,
}

/// The rows of the thread `t` at depth `depth`, depth-first.
pub open spec fn tree_rows(t: ThreadView, depth: nat) -> Seq<(nat, EmailInfo)>
    decreases t,
{
    seq![(depth, t.email)] + forest_rows(t.replies, depth + 1)
}

/// The rows of the threads `f` at depth `depth`, depth-first.
pub open spec fn forest_rows(f: Seq<ThreadView>, depth: nat) -> Seq<(nat, EmailInfo)>
    decreases f,
{
    if f.len() == 0 {
        seq![]
    } else {
        tree_rows(f[0], depth) + forest_rows(f.subrange(1, f.len() as int), depth)
    }
}

/// Whether a row is shown: unread when only unread emails are shown, and
/// with the (lower-cased) search in its lower-cased subject.
pub open spec fn shown(e: EmailInfo, unread_only: bool, search: Option<Seq<char>>) -> bool {
    (!unread_only || path_is_unread(e.path)) && match search {
        Some(q) => contains_seq(lowercase(e.subject), q),
        None => true,
    }
}

/// The rows that are shown, in order.
pub open spec fn filter_rows(
    rows: Seq<(nat, EmailInfo)>,
    unread_only: bool,
    search: Option<Seq<char>>,
) -> Seq<(nat, EmailInfo)>
    decreases rows.len(),
{
    if rows.len() == 0 {
        seq![]
    } else {
        let r = filter_rows(rows.drop_last(), unread_only, search);
        if shown(rows.last().1, unread_only, search) {
            r.push(rows.last())
        } else {
            r
        }
    }
}

/// The position of the first row whose email has id `id`.
pub open spec fn row_index(rows: Seq<(nat, EmailInfo)>, id: Seq<char>) -> Option<int>
    decreases rows.len(),
{
    if rows.len() == 0 {
        None
    } else if rows[0].1.message_id == id {
        Some(0)
    } else {
        match row_index(rows.subrange(1, rows.len() as int), id) {
            Some(i) => Some(i + 1),
            None => None,
        }
    }
}

/// The content of a [`ThreadsView`].
pub struct ListState {
    pub rows: Seq<(nat, EmailInfo)>,
    pub selected: Option<int>,
    pub unread_only: bool,
    pub search: Option<Seq<char>>,
}

/// The list after a refresh from the threads `f`: rows rebuilt and
/// filtered; the selection stays on the email it was on when that email is
/// still shown, otherwise on the same position (or the last row).
pub open spec fn refreshed(s: ListState, f: Seq<ThreadView>) -> ListState {
    let old_idx = match s.selected {
        Some(i) => i,
        None => 0,
    };
    let rows = filter_rows(forest_rows(f, 0), s.unread_only, s.search);
    let kept = if 0 <= old_idx < s.rows.len() {
        row_index(rows, s.rows[old_idx].1.message_id)
    } else {
        None
    };
    let new_idx = match kept {
        Some(i) => i,
        None => if old_idx <= rows.len() - 1 {
            old_idx
        } else {
            if rows.len() >= 1 {
                rows.len() - 1
            } else {
                0
            }
        },
    };
    ListState {
        rows,
        selected: if rows.len() == 0 {
            None
        } else {
            Some(new_idx)
        },
        ..s
    }
}

/// Scrollable thread list built from the thread trees of a maildir.
pub struct ThreadsView {
    rows: Vec<Row>,
    selected: Option<usize>,
    unread_only: bool,
    search: Option<String>,
}

/// The content of rows.
pub open spec fn rows_view(v: Seq<Row>) -> Seq<(nat, EmailInfo)> {
    Seq::new(v.len(), |i: int| (v[i].depth as nat, v[i].email@))
}

impl View for ThreadsView {
    type V = ListState;

    closed spec fn view(&self) -> ListState {
        ListState {
            rows: rows_view(self.rows@),
            selected: match self.selected {
                Some(i) => Some(i as int),
                None => None,
            },
            unread_only: self.unread_only,
            search: match self.search {
                Some(q) => Some(q@),
                None => None,
            },
        }
    }
}

fn tree_rows_into(t: &EmailThread, depth: usize, out: &mut Vec<Row>)
    requires
        depth <= old(out)@.len(),
    ensures
        rows_view(final(out)@) == rows_view(old(out)@) + tree_rows(t.tree(), depth as nat),
    decreases t,
{
    let ghost before = rows_view(out@);
    out.push(Row { depth, email: t.parent.clone() });
    proof {
        assert(rows_view(out@) =~= before + seq![(depth as nat, t.parent@)]);
    }
    let len = out.len();
    assert(depth + 1 <= len);
    forest_rows_into(&t.replies, depth + 1, out);
    proof {
        assert(rows_view(out@) =~= before + tree_rows(t.tree(), depth as nat));
    }
}

fn forest_rows_into(f: &Vec<EmailThread>, depth: usize, out: &mut Vec<Row>)
    requires
        depth <= old(out)@.len(),
    ensures
        rows_view(final(out)@) == rows_view(old(out)@) + forest_rows(forest_view(f@), depth as nat),
    decreases f,
{
    let ghost fv = forest_view(f@);
    let ghost base = rows_view(out@);
    proof {
        crate::maildir::lemma_forest_view(f@);
        assert(fv.subrange(0, fv.len() as int) =~= fv);
        assert(base + forest_rows(fv, depth as nat) =~= rows_view(out@) + forest_rows(
            fv.subrange(0, fv.len() as int),
            depth as nat,
        ));
    }
    let n = f.len();
    let mut i: usize = 0;
    while i < n
        invariant
            n == f@.len(),
            n == fv.len(),
            fv == forest_view(f@),
            forall|j: int| 0 <= j < n ==> #[trigger] fv[j] == f@[j].tree(),
            i <= n,
            depth <= out@.len(),
            rows_view(out@) + forest_rows(fv.subrange(i as int, n as int), depth as nat) == base
                + forest_rows(fv, depth as nat),
        decreases n - i,
    {
        let ghost rest = fv.subrange(i as int, n as int);
        let ghost before = rows_view(out@);
        proof {
            assert(rest[0] == fv[i as int]);
            assert(rest.subrange(1, rest.len() as int) =~= fv.subrange(i + 1, n as int));
        }
        tree_rows_into(&f[i], depth, out);
        proof {
            assert(rows_view(out@) + forest_rows(fv.subrange(i + 1, n as int), depth as nat)
                =~= before + forest_rows(rest, depth as nat));
        }
        i += 1;
    }
    proof {
        assert(fv.subrange(n as int, n as int) =~= Seq::<ThreadView>::empty());
        assert(rows_view(out@) + forest_rows(fv.subrange(n as int, n as int), depth as nat)
            =~= rows_view(out@));
    }
}

fn row_shown(e: &Email, unread_only: bool, search: &Option<String>) -> (r: bool)
    ensures
        r == shown(
            e@,
            unread_only,
            match search {
                Some(q) => Some(q@),
                None => None,
            },
        ),
{
    if unread_only && !e.is_unread() {
        return false;
    }
    match search {
        Some(q) => {
            let subject = to_lowercase(e.subject.as_str());
            let s = to_chars(subject.as_str());
            let qc = to_chars(q.as_str());
            contains_str(s.as_slice(), qc.as_slice())
        },
        None => true,
    }
}

fn find_row(rows: &Vec<Row>, id: &String) -> (r: Option<usize>)
    ensures
        match r {
            Some(i) => row_index(rows_view(rows@), id@) == Some(i as int),
            None => row_index(rows_view(rows@), id@) is None,
        },
{
    let ghost rv = rows_view(rows@);
    let n = rows.len();
    let mut i: usize = 0;
    while i < n
        invariant
            n == rows@.len(),
            rv == rows_view(rows@),
            i <= n,
            forall|j: int| 0 <= j < i ==> #[trigger] rv[j].1.message_id != id@,
        decreases n - i,
    {
        if rows[i].email.message_id.eq(id) {
            proof {
                lemma_row_index_at(rv, id@, i as int);
            }
            return Some(i);
        }
        i += 1;
    }
    proof {
        lemma_row_index_at(rv, id@, n as int);
    }
    None
}

proof fn lemma_row_index_at(rows: Seq<(nat, EmailInfo)>, id: Seq<char>, k: int)
    requires
        0 <= k <= rows.len(),
        forall|j: int| 0 <= j < k ==> #[trigger] rows[j].1.message_id != id,
        k < rows.len() ==> rows[k].1.message_id == id,
    ensures
        row_index(rows, id) == if k < rows.len() {
            Some(k)
        } else {
            None::<int>
        },
    decreases k,
{
    if k > 0 {
        let r = rows.subrange(1, rows.len() as int);
        assert(rows[0].1.message_id != id);
        assert forall|j: int| 0 <= j < k - 1 implies #[trigger] r[j].1.message_id != id by {
            assert(r[j] == rows[j + 1]);
        }
        lemma_row_index_at(r, id, k - 1);
    }
}

impl ThreadsView {
    /// Build the view from the thread trees `threads`; the first row is
    /// selected.
    pub fn new(threads: &Vec<EmailThread>) -> (r: Self)
        ensures
            r@.rows == forest_rows(forest_view(threads@), 0),
            r@.selected == if r@.rows.len() == 0 {
                None
            } else {
                Some(0int)
            },
            !r@.unread_only,
            r@.search is None,
    {
        let mut rows: Vec<Row> = Vec::new();
        proof {
            assert(rows_view(rows@) =~= Seq::<(nat, EmailInfo)>::empty());
        }
        forest_rows_into(threads, 0, &mut rows);
        proof {
            assert(rows_view(rows@) =~= forest_rows(forest_view(threads@), 0));
        }
        let selected = if rows.len() == 0 {
            None
        } else {
            Some(0)
        };
        ThreadsView { rows, selected, unread_only: false, search: None }
    }

    /// The rows shown.
    pub fn rows(&self) -> (r: &Vec<Row>)
        ensures
            rows_view(r@) == self@.rows,
    {
        &self.rows
    }

    /// The position of the selected row.
    pub fn selected_index(&self) -> (r: Option<usize>)
        ensures
            match r {
                Some(i) => self@.selected == Some(i as int),
                None => self@.selected is None,
            },
    {
        self.selected
    }

    /// Move the selection `n` rows up, stopping at the first row.
    pub fn prev_email(&mut self, n: usize)
        ensures
            final(self)@ == (ListState {
                selected: match old(self)@.selected {
                    Some(i) => if old(self)@.rows.len() == 0 {
                        Some(i)
                    } else if i >= n {
                        Some(i - n)
                    } else {
                        Some(0)
                    },
                    None => None,
                },
                ..old(self)@
            }),
    {
        if self.rows.len() == 0 {
            return;
        }
        match self.selected {
            Some(i) => self.selected = Some(i.saturating_sub(n)),
            None => {},
        }
    }

    /// Move the selection `n` rows down, stopping at the last row.
    pub fn next_email(&mut self, n: usize)
        ensures
            final(self)@ == (ListState {
                selected: match old(self)@.selected {
                    Some(i) => if old(self)@.rows.len() == 0 {
                        Some(i)
                    } else {
                        Some(
                            crate::email_view::min_int(
                                crate::email_view::min_int(i + n, usize::MAX as int),
                                old(self)@.rows.len() - 1,
                            ),
                        )
                    },
                    None => None,
                },
                ..old(self)@
            }),
    {
        if self.rows.len() == 0 {
            return;
        }
        match self.selected {
            Some(i) => {
                let next = i.saturating_add(n);
                let last = self.rows.len() - 1;
                self.selected = Some(
                    if next < last {
                        next
                    } else {
                        last
                    },
                );
            },
            None => {},
        }
    }

    /// Select the first row.
    pub fn first_email(&mut self)
        ensures
            final(self)@ == (ListState {
                selected: if old(self)@.rows.len() == 0 {
                    old(self)@.selected
                } else {
                    Some(0int)
                },
                ..old(self)@
            }),
    {
        if self.rows.len() == 0 {
            return;
        }
        self.selected = Some(0);
    }

    /// Select the last row.
    pub fn last_email(&mut self)
        ensures
            final(self)@ == (ListState {
                selected: if old(self)@.rows.len() == 0 {
                    old(self)@.selected
                } else {
                    Some(old(self)@.rows.len() - 1)
                },
                ..old(self)@
            }),
    {
        if self.rows.len() == 0 {
            return;
        }
        self.selected = Some(self.rows.len() - 1);
    }

    /// Return the currently highlighted email, if any.
    pub fn selected(&self) -> (r: Option<&Email>)
        ensures
            match r {
                Some(e) => exists|i: int|
                    self@.selected == Some(i) && 0 <= i < self@.rows.len() && #[trigger] self@.rows[i].1
                        == e@,
                None => match self@.selected {
                    Some(i) => !(0 <= i < self@.rows.len()),
                    None => true,
                },
            },
    {
        match self.selected {
            Some(i) => {
                if i < self.rows.len() {
                    let e = &self.rows[i].email;
                    assert(self@.rows[i as int].1 == e@);
                    Some(e)
                } else {
                    None
                }
            },
            None => None,
        }
    }

    /// Re-flatten from the thread trees `threads`, preserving the selection
    /// by message-id if still present, otherwise clamping to the new length.
    pub fn invalidate(&mut self, threads: &Vec<EmailThread>)
        ensures
            final(self)@ == refreshed(old(self)@, forest_view(threads@)),
    {
        let ghost s = self@;
        let old_idx = match self.selected {
            Some(i) => i,
            None => 0,
        };
        let selected_id: Option<String> = if old_idx < self.rows.len() {
            Some(self.rows[old_idx].email.message_id.clone())
        } else {
            None
        };
        let mut all: Vec<Row> = Vec::new();
        proof {
            assert(rows_view(all@) =~= Seq::<(nat, EmailInfo)>::empty());
        }
        forest_rows_into(threads, 0, &mut all);
        let ghost av = rows_view(all@);
        let mut rows: Vec<Row> = Vec::new();
        let n = all.len();
        let mut i: usize = 0;
        proof {
            assert(av.subrange(0, 0) =~= Seq::<(nat, EmailInfo)>::empty());
            assert(rows_view(rows@) =~= Seq::<(nat, EmailInfo)>::empty());
        }
        while all.len() > 0
            invariant
                n == av.len(),
                all@.len() == n - i,
                i <= n,
                forall|j: int| 0 <= j < all@.len() ==> #[trigger] rows_view(all@)[j] == av[i + j],
                rows_view(rows@) == filter_rows(
                    av.subrange(0, i as int),
                    self.unread_only,
                    s.search,
                ),
                self.unread_only == s.unread_only,
                s.search == match self.search {
                    Some(q) => Some(q@),
                    None => None,
                },
            decreases all@.len(),
        {
            let ghost before = all@;
            let r = all.remove(0);
            proof {
                assert(rows_view(before)[0] == av[i as int]);
                assert forall|j: int| 0 <= j < all@.len() implies #[trigger] rows_view(all@)[j]
                    == av[i + 1 + j] by {
                    assert(all@[j] == before[j + 1]);
                    assert(rows_view(before)[j + 1] == av[i + 1 + j]);
                }
                let a = av.subrange(0, i + 1);
                assert(a.drop_last() =~= av.subrange(0, i as int));
                assert(a.last() == av[i as int]);
            }
            if row_shown(&r.email, self.unread_only, &self.search) {
                let ghost rb = rows@;
                rows.push(r);
                proof {
                    assert(rows_view(rows@) =~= rows_view(rb).push(av[i as int]));
                }
            }
            i += 1;
        }
        proof {
            assert(av.subrange(0, n as int) =~= av);
        }
        let kept = match &selected_id {
            Some(id) => find_row(&rows, id),
            None => None,
        };
        let new_idx = match kept {
            Some(k) => k,
            None => {
                let last = if rows.len() >= 1 {
                    rows.len() - 1
                } else {
                    0
                };
                if old_idx <= last {
                    old_idx
                } else {
                    last
                }
            },
        };
        self.selected = if rows.len() == 0 {
            None
        } else {
            Some(new_idx)
        };
        self.rows = rows;
        proof {
            let r = refreshed(s, forest_view(threads@));
            assert(self@.rows == r.rows);
            assert(self@.selected == r.selected);
        }
    }

    /// Return whether the view is currently filtering to unread only.
    pub fn is_unread_only(&self) -> (r: bool)
        ensures
            r == self@.unread_only,
    {
        self.unread_only
    }

    /// Toggle between unread-only and all emails, then refresh from
    /// `threads`.
    pub fn toggle_unread(&mut self, threads: &Vec<EmailThread>)
        ensures
            final(self)@ == refreshed(
                ListState { unread_only: !old(self)@.unread_only, ..old(self)@ },
                forest_view(threads@),
            ),
    {
        self.unread_only = !self.unread_only;
        self.invalidate(threads);
    }

    /// Set or clear the subject search filter (kept lower-cased) and refresh
    /// from `threads`.
    pub fn set_search(&mut self, query: Option<&str>, threads: &Vec<EmailThread>)
        ensures
            final(self)@ == refreshed(
                ListState {
                    search: match query {
                        Some(q) => Some(lowercase(q@)),
                        None => None,
                    },
                    ..old(self)@
                },
                forest_view(threads@),
            ),
    {
        self.search = match query {
            Some(q) => Some(to_lowercase(q)),
            None => None,
        };
        self.invalidate(threads);
    }

    /// Return the current search query, if any.
    pub fn search(&self) -> (r: Option<&str>)
        ensures
            match r {
                Some(q) => self@.search == Some(q@),
                None => self@.search is None,
            },
    {
        match &self.search {
            Some(q) => Some(q.as_str()),
            None => None,
        }
    }
}


proof fn lemma_filter_rows(rows: Seq<(nat, EmailInfo)>, unread_only: bool, search: Option<Seq<char>>)
    ensures
        forall|i: int|
            0 <= i < filter_rows(rows, unread_only, search).len() ==> shown(
                #[trigger] filter_rows(rows, unread_only, search)[i].1,
                unread_only,
                search,
            ),
        forall|j: int|
            0 <= j < rows.len() && shown(#[trigger] rows[j].1, unread_only, search)
                ==> filter_rows(rows, unread_only, search).contains(rows[j]),
    decreases rows.len(),
{
    if rows.len() > 0 {
        let d = rows.drop_last();
        lemma_filter_rows(d, unread_only, search);
        let r = filter_rows(d, unread_only, search);
        assert forall|j: int|
            0 <= j < rows.len() && shown(#[trigger] rows[j].1, unread_only, search)
                implies filter_rows(rows, unread_only, search).contains(rows[j]) by {
            if j < rows.len() - 1 {
                assert(d[j] == rows[j]);
                let k = choose|k: int| 0 <= k < r.len() && r[k] == d[j];
                if shown(rows.last().1, unread_only, search) {
                    assert(r.push(rows.last())[k] == rows[j]);
                }
            } else {
                assert(r.push(rows.last())[r.len() as int] == rows[j]);
            }
        }
    }
}

proof fn lemma_row_index(rows: Seq<(nat, EmailInfo)>, id: Seq<char>)
    ensures
        match row_index(rows, id) {
            Some(i) => 0 <= i < rows.len() && rows[i].1.message_id == id,
            None => forall|j: int| 0 <= j < rows.len() ==> #[trigger] rows[j].1.message_id != id,
        },
    decreases rows.len(),
{
    if rows.len() > 0 && rows[0].1.message_id != id {
        let r = rows.subrange(1, rows.len() as int);
        lemma_row_index(r, id);
        assert forall|j: int| 1 <= j < rows.len() implies r[j - 1] == rows[j] by {}
        if row_index(r, id) is None {
            assert forall|j: int| 0 <= j < rows.len() implies #[trigger] rows[j].1.message_id
                != id by {
                if j > 0 {
                    assert(r[j - 1] == rows[j]);
                }
            }
        }
    }
}

/// A refresh applies the filters: every row shown is unread when only
/// unread emails are shown and has the search in its lower-cased subject,
/// and every row of the thread trees that passes the filters is shown. The
/// selection, when there is one, is on a row.
pub proof fn lemma_refresh_filters(s: ListState, f: Seq<ThreadView>)
    requires
        s.selected matches Some(i) ==> i >= 0,
    ensures
        forall|i: int|
            0 <= i < refreshed(s, f).rows.len() ==> shown(
                #[trigger] refreshed(s, f).rows[i].1,
                s.unread_only,
                s.search,
            ),
        forall|j: int|
            0 <= j < forest_rows(f, 0).len() && shown(
                #[trigger] forest_rows(f, 0)[j].1,
                s.unread_only,
                s.search,
            ) ==> refreshed(s, f).rows.contains(forest_rows(f, 0)[j]),
        match refreshed(s, f).selected {
            Some(k) => 0 <= k < refreshed(s, f).rows.len(),
            None => refreshed(s, f).rows.len() == 0,
        },
{
    lemma_filter_rows(forest_rows(f, 0), s.unread_only, s.search);
    let rows = filter_rows(forest_rows(f, 0), s.unread_only, s.search);
    let old_idx = match s.selected {
        Some(i) => i,
        None => 0,
    };
    if 0 <= old_idx < s.rows.len() {
        lemma_row_index(rows, s.rows[old_idx].1.message_id);
    }
}

/// A refresh keeps the selection on the email it was on, whenever that
/// email is still among the rows shown.
pub proof fn lemma_refresh_keeps_selection(s: ListState, f: Seq<ThreadView>, i: int, j: int)
    requires
        s.selected == Some(i),
        0 <= i < s.rows.len(),
        0 <= j < refreshed(s, f).rows.len(),
        refreshed(s, f).rows[j].1.message_id == s.rows[i].1.message_id,
    ensures
        match refreshed(s, f).selected {
            Some(k) => 0 <= k < refreshed(s, f).rows.len() && refreshed(s, f).rows[k].1.message_id
                == s.rows[i].1.message_id,
            None => false,
        },
{
    let rows = filter_rows(forest_rows(f, 0), s.unread_only, s.search);
    lemma_row_index(rows, s.rows[i].1.message_id);
}

/// The filters of the thread list: with a search, a row is shown exactly
/// when the lower-cased query occurs somewhere (at any position) in its
/// lower-cased subject, and with the unread filter only rows whose file
/// reads as unread are shown; with neither, every row is shown.
pub proof fn lemma_shown_filters(e: EmailInfo, unread_only: bool, q: Seq<char>, i: int)
    ensures
        occurs_at(lowercase(e.subject), q, i) ==> shown(e, false, Some(q)),
        occurs_at(lowercase(e.subject), q, i) && path_is_unread(e.path) ==> shown(e, true, Some(q)),
        shown(e, unread_only, Some(q)) ==> exists|j: int| occurs_at(lowercase(e.subject), q, j),
        shown(e, true, Some(q)) ==> path_is_unread(e.path),
        shown(e, true, None) == path_is_unread(e.path),
        shown(e, false, None),
{
}
} // verus!

use brew::thread::{Email, EmailThread};
use brew::threads_view::ThreadsView;

fn make_email(id: &str, from: &str, subject: &str, unread: bool) -> Email {
    let path = if unread {
        format!("/mb/new/{}", id)
    } else {
        format!("/mb/cur/{}:2,S", id)
    };
    Email::new(id, None, from, subject, Some(1_700_000_000), &path)
}

fn thread(id: &str, from: &str, subject: &str, unread: bool) -> EmailThread {
    EmailThread { parent: make_email(id, from, subject, unread), replies: Vec::new() }
}

fn with_reply(mut parent: EmailThread, child: EmailThread) -> EmailThread {
    parent.replies.push(child);
    parent
}

fn selected_id(view: &ThreadsView) -> Option<String> {
    view.selected().map(|e| e.message_id.clone())
}

fn row_ids(view: &ThreadsView) -> Vec<String> {
    view.rows().iter().map(|r| r.email.message_id.clone()).collect()
}

fn letters(ids: &[&str]) -> Vec<EmailThread> {
    ids.iter().map(|i| thread(i, "", &i.to_uppercase(), false)).collect()
}

// ── new ──────────────────────────────────────────────────────────────────

#[test]
fn new_empty_has_no_selection() {
    let view = ThreadsView::new(&vec![]);
    assert!(view.selected().is_none());
    assert!(view.rows().is_empty());
}

#[test]
fn new_selects_first_thread() {
    let view = ThreadsView::new(&vec![
        thread("a", "Alice", "Hello", false),
        thread("b", "Bob", "World", false),
    ]);
    assert_eq!(selected_id(&view).unwrap(), "a");
}

#[test]
fn new_counts_all_rows_including_replies() {
    let parent = with_reply(thread("p", "Alice", "Parent", false), thread("c", "Bob", "Re: Parent", false));
    let view = ThreadsView::new(&vec![parent]);
    assert_eq!(view.rows().len(), 2);
}

#[test]
fn new_flattens_replies_depth_first() {
    // Tree: A → [B → [C], D]
    let c = thread("c", "", "C", false);
    let b = with_reply(thread("b", "", "B", false), c);
    let d = thread("d", "", "D", false);
    let mut a = thread("a", "", "A", false);
    a.replies.push(b);
    a.replies.push(d);
    let view = ThreadsView::new(&vec![a]);
    assert_eq!(view.rows().len(), 4);
    assert_eq!(row_ids(&view), ["a", "b", "c", "d"]);
    let depths: Vec<usize> = view.rows().iter().map(|r| r.depth).collect();
    assert_eq!(depths, [0, 1, 2, 1]);
}

#[test]
fn new_assigns_correct_depths() {
    let parent = with_reply(thread("p", "", "Root", false), thread("c", "", "Re", false));
    let view = ThreadsView::new(&vec![parent]);
    assert_eq!(view.rows()[0].depth, 0);
    assert_eq!(view.rows()[1].depth, 1);
}

// ── invalidate ───────────────────────────────────────────────────────────

#[test]
fn invalidate_rebuilds_rows() {
    let mut list = vec![thread("a", "", "A", false)];
    let mut view = ThreadsView::new(&list);
    assert_eq!(view.rows().len(), 1);
    list.push(thread("b", "", "B", false));
    view.invalidate(&list);
    assert_eq!(view.rows().len(), 2);
}

#[test]
fn invalidate_preserves_selection_by_message_id() {
    let mut view = ThreadsView::new(&letters(&["a", "b", "c"]));
    view.next_email(1);
    assert_eq!(selected_id(&view).unwrap(), "b");
    view.invalidate(&letters(&["c", "b", "a"]));
    assert_eq!(selected_id(&view).unwrap(), "b");
}

#[test]
fn invalidate_selects_same_index_when_thread_removed() {
    let mut view = ThreadsView::new(&letters(&["a", "b", "c", "d"]));
    view.next_email(1);
    view.next_email(1);
    view.invalidate(&letters(&["a", "b", "d"]));
    assert_eq!(selected_id(&view).unwrap(), "d");
}

#[test]
fn invalidate_clamps_index_when_list_shrinks() {
    let mut view = ThreadsView::new(&letters(&["a", "b", "c"]));
    view.next_email(1);
    view.next_email(1);
    view.invalidate(&letters(&["a"]));
    assert_eq!(selected_id(&view).unwrap(), "a");
}

#[test]
fn invalidate_to_empty_clears_selection() {
    let mut view = ThreadsView::new(&letters(&["a"]));
    view.invalidate(&vec![]);
    assert!(view.selected().is_none());
    assert_eq!(view.selected_index(), None);
}

#[test]
fn invalidate_from_empty_to_nonempty_selects_first() {
    let mut view = ThreadsView::new(&vec![]);
    view.invalidate(&letters(&["a"]));
    assert_eq!(selected_id(&view).unwrap(), "a");
}

// ── prev / next ──────────────────────────────────────────────────────────

#[test]
fn prev_at_first_stays() {
    let mut view = ThreadsView::new(&letters(&["a", "b"]));
    view.prev_email(1);
    assert_eq!(selected_id(&view).unwrap(), "a");
}

#[test]
fn next_moves_to_second() {
    let mut view = ThreadsView::new(&letters(&["a", "b"]));
    view.next_email(1);
    assert_eq!(selected_id(&view).unwrap(), "b");
}

#[test]
fn next_at_last_stays() {
    let mut view = ThreadsView::new(&letters(&["a"]));
    view.next_email(1);
    view.next_email(1);
    assert_eq!(selected_id(&view).unwrap(), "a");
}

#[test]
fn prev_after_next_returns_to_first() {
    let mut view = ThreadsView::new(&letters(&["a", "b"]));
    view.next_email(1);
    view.prev_email(1);
    assert_eq!(selected_id(&view).unwrap(), "a");
}

#[test]
fn next_on_empty_does_not_panic() {
    let mut view = ThreadsView::new(&vec![]);
    view.next_email(1);
    assert!(view.selected().is_none());
}

#[test]
fn prev_on_empty_does_not_panic() {
    let mut view = ThreadsView::new(&vec![]);
    view.prev_email(1);
    assert!(view.selected().is_none());
}

#[test]
fn next_skips_multiple_steps() {
    let mut view = ThreadsView::new(&letters(&["a", "b", "c", "d", "e"]));
    view.next_email(3);
    assert_eq!(selected_id(&view).unwrap(), "d");
}

#[test]
fn prev_skips_multiple_steps() {
    let mut view = ThreadsView::new(&letters(&["a", "b", "c", "d", "e"]));
    view.next_email(4);
    view.prev_email(3);
    assert_eq!(selected_id(&view).unwrap(), "b");
}

#[test]
fn next_clamps_at_last() {
    let mut view = ThreadsView::new(&letters(&["a", "b", "c"]));
    view.next_email(100);
    assert_eq!(selected_id(&view).unwrap(), "c");
}

#[test]
fn prev_clamps_at_first() {
    let mut view = ThreadsView::new(&letters(&["a", "b", "c"]));
    view.next_email(2);
    view.prev_email(100);
    assert_eq!(selected_id(&view).unwrap(), "a");
}

#[test]
fn next_with_huge_step_does_not_overflow() {
    let mut view = ThreadsView::new(&letters(&["a", "b", "c"]));
    view.next_email(1);
    view.next_email(usize::MAX);
    assert_eq!(selected_id(&view).unwrap(), "c");
}

#[test]
fn first_email_selects_first() {
    let mut view = ThreadsView::new(&letters(&["a", "b", "c"]));
    view.next_email(2);
    view.first_email();
    assert_eq!(selected_id(&view).unwrap(), "a");
}

#[test]
fn last_email_selects_last() {
    let mut view = ThreadsView::new(&letters(&["a", "b", "c"]));
    view.last_email();
    assert_eq!(selected_id(&view).unwrap(), "c");
}

#[test]
fn first_email_on_empty_does_not_panic() {
    let mut view = ThreadsView::new(&vec![]);
    view.first_email();
    assert!(view.selected().is_none());
}

#[test]
fn last_email_on_empty_does_not_panic() {
    let mut view = ThreadsView::new(&vec![]);
    view.last_email();
    assert!(view.selected().is_none());
}

// ── show_unread / show_all / toggle_unread ───────────────────────────────

#[test]
fn show_unread_filters_read_emails() {
    let list = vec![
        thread("a", "Alice", "Read", false),
        thread("b", "Bob", "Unread", true),
        thread("c", "Carol", "Also read", false),
    ];
    let mut view = ThreadsView::new(&list);
    view.toggle_unread(&list);
    assert_eq!(view.rows().len(), 1);
    assert_eq!(selected_id(&view).unwrap(), "b");
}

#[test]
fn show_all_restores_all_emails() {
    let list = vec![thread("a", "Alice", "Read", false), thread("b", "Bob", "Unread", true)];
    let mut view = ThreadsView::new(&list);
    view.toggle_unread(&list);
    assert_eq!(view.rows().len(), 1);
    view.toggle_unread(&list);
    assert_eq!(view.rows().len(), 2);
}

#[test]
fn toggle_unread_switches_mode() {
    let list = vec![thread("a", "Alice", "Read", false), thread("b", "Bob", "Unread", true)];
    let mut view = ThreadsView::new(&list);
    assert!(!view.is_unread_only());
    view.toggle_unread(&list);
    assert!(view.is_unread_only());
    assert_eq!(view.rows().len(), 1);
    view.toggle_unread(&list);
    assert_eq!(view.rows().len(), 2);
}

#[test]
fn show_unread_preserves_selection_when_selected_is_unread() {
    let list = vec![
        thread("a", "Alice", "Read", false),
        thread("b", "Bob", "Unread", true),
        thread("c", "Carol", "Also unread", true),
    ];
    let mut view = ThreadsView::new(&list);
    view.next_email(1);
    view.next_email(1);
    view.toggle_unread(&list);
    assert_eq!(selected_id(&view).unwrap(), "c");
}

#[test]
fn show_unread_clamps_when_selected_is_read() {
    let list = vec![
        thread("a", "Alice", "Read", false),
        thread("b", "Bob", "Also read", false),
        thread("c", "Carol", "Unread", true),
    ];
    let mut view = ThreadsView::new(&list);
    view.toggle_unread(&list);
    assert_eq!(selected_id(&view).unwrap(), "c");
}

#[test]
fn show_unread_with_no_unread_clears_selection() {
    let list = vec![thread("a", "Alice", "Read", false), thread("b", "Bob", "Also read", false)];
    let mut view = ThreadsView::new(&list);
    view.toggle_unread(&list);
    assert!(view.selected().is_none());
    assert!(view.rows().is_empty());
}

#[test]
fn invalidate_respects_unread_filter() {
    let mut list = vec![thread("a", "Alice", "Read", false), thread("b", "Bob", "Unread", true)];
    let mut view = ThreadsView::new(&list);
    view.toggle_unread(&list);
    assert_eq!(view.rows().len(), 1);
    list.push(thread("c", "Carol", "New unread", true));
    view.invalidate(&list);
    assert_eq!(view.rows().len(), 2);
}

// ── search ───────────────────────────────────────────────────────────────

#[test]
fn set_search_filters_by_subject() {
    let list = vec![
        thread("a", "Alice", "Rust is great", false),
        thread("b", "Bob", "Python news", false),
        thread("c", "Carol", "Rust update", false),
    ];
    let mut view = ThreadsView::new(&list);
    view.set_search(Some("rust"), &list);
    assert_eq!(view.rows().len(), 2);
    assert_eq!(row_ids(&view), ["a", "c"]);
}

#[test]
fn threads_search_is_case_insensitive() {
    let list = vec![thread("a", "Alice", "HELLO World", false), thread("b", "Bob", "goodbye", false)];
    let mut view = ThreadsView::new(&list);
    view.set_search(Some("hello"), &list);
    assert_eq!(view.rows().len(), 1);
    assert_eq!(selected_id(&view).unwrap(), "a");
}

#[test]
fn clear_search_restores_all() {
    let list = vec![thread("a", "Alice", "Rust", false), thread("b", "Bob", "Python", false)];
    let mut view = ThreadsView::new(&list);
    view.set_search(Some("rust"), &list);
    assert_eq!(view.rows().len(), 1);
    view.set_search(None, &list);
    assert_eq!(view.rows().len(), 2);
}

#[test]
fn search_returns_current_query() {
    let list = vec![];
    let mut view = ThreadsView::new(&list);
    assert!(view.search().is_none());
    view.set_search(Some("test"), &list);
    assert_eq!(view.search(), Some("test"));
    view.set_search(Some("TeSt"), &list);
    assert_eq!(view.search(), Some("test"));
    view.set_search(None, &list);
    assert!(view.search().is_none());
}

#[test]
fn search_combines_with_unread_filter() {
    let list = vec![
        thread("a", "Alice", "Rust news", true),
        thread("b", "Bob", "Rust update", false),
        thread("c", "Carol", "Python news", true),
    ];
    let mut view = ThreadsView::new(&list);
    view.toggle_unread(&list);
    view.set_search(Some("rust"), &list);
    assert_eq!(view.rows().len(), 1);
    assert_eq!(selected_id(&view).unwrap(), "a");
}

#[test]
fn search_no_match_clears_selection() {
    let list = vec![thread("a", "Alice", "Hello", false)];
    let mut view = ThreadsView::new(&list);
    view.set_search(Some("zzzzz"), &list);
    assert!(view.rows().is_empty());
    assert!(view.selected().is_none());
}

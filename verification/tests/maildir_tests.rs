use brew::maildir::{MailFile, Maildir, SortOrder, WriteError};

fn email_content(message_id: &str, in_reply_to: Option<&str>, date: &str) -> String {
    let mut s = format!(
        "Message-ID: <{}>\r\nFrom: Test <test@example.com>\r\nSubject: Test\r\nDate: {}\r\n",
        message_id, date
    );
    if let Some(reply) = in_reply_to {
        s.push_str(&format!("In-Reply-To: <{}>\r\n", reply));
    }
    s.push_str("\r\nBody\r\n");
    s
}

fn file(path: &str, content: &str) -> MailFile {
    MailFile {
        path: path.to_string(),
        contents: content.as_bytes().to_vec(),
    }
}

fn ids(md: &Maildir) -> Vec<String> {
    md.threads().iter().map(|t| t.parent.message_id.clone()).collect()
}

const JAN_2024: &str = "Mon, 01 Jan 2024 00:00:00 +0000";
const JAN_2_2024: &str = "Tue, 02 Jan 2024 00:00:00 +0000";
const JUN_2024: &str = "Tue, 01 Jun 2024 00:00:00 +0000";
const JAN_2025: &str = "Wed, 01 Jan 2025 00:00:00 +0000";

#[test]
fn empty_maildir_has_no_threads() {
    let maildir = Maildir::empty("");
    assert!(maildir.threads().is_empty());
}

#[test]
fn build_empty_maildir_has_no_threads() {
    let maildir = Maildir::new("/mb", &[]);
    assert!(maildir.threads().is_empty());
}

#[test]
fn build_loads_email_from_new() {
    let files = [file("/mb/new/msg1", &email_content("id1@test", None, JAN_2024))];
    let maildir = Maildir::new("/mb", &files);
    assert_eq!(maildir.threads().len(), 1);
    assert_eq!(maildir.threads()[0].parent.message_id, "id1@test");
}

#[test]
fn build_loads_email_from_cur() {
    let files = [file("/mb/cur/msg1:2,S", &email_content("id1@test", None, JAN_2024))];
    let maildir = Maildir::new("/mb", &files);
    assert_eq!(maildir.threads().len(), 1);
    assert_eq!(maildir.threads()[0].parent.message_id, "id1@test");
}

#[test]
fn build_loads_from_both_new_and_cur() {
    let files = [
        file("/mb/new/msg1", &email_content("id1@test", None, JAN_2024)),
        file("/mb/cur/msg2:2,S", &email_content("id2@test", None, JAN_2_2024)),
    ];
    let maildir = Maildir::new("/mb", &files);
    assert_eq!(maildir.threads().len(), 2);
}

#[test]
fn insert_single_becomes_root_thread() {
    let mut maildir = Maildir::empty("/mb");
    maildir.insert("/mb/new/msg1", email_content("id1@test", None, JAN_2024).as_bytes());
    maildir.invalidate();
    assert_eq!(maildir.threads().len(), 1);
    assert_eq!(maildir.threads()[0].parent.message_id, "id1@test");
}

#[test]
fn insert_duplicate_message_id_is_skipped() {
    let mut maildir = Maildir::empty("/mb");
    let c = email_content("dup@test", None, JAN_2024);
    maildir.insert("/mb/new/msg1", c.as_bytes());
    maildir.insert("/mb/new/msg1", c.as_bytes());
    maildir.invalidate();
    assert_eq!(maildir.threads().len(), 1);
    assert_eq!(maildir.email_count(), 1);
}

#[test]
fn insert_reply_parent_first_links_as_child() {
    let mut maildir = Maildir::empty("/mb");
    maildir.insert("/mb/new/parent", email_content("parent@test", None, JAN_2024).as_bytes());
    maildir.insert(
        "/mb/new/child",
        email_content("child@test", Some("parent@test"), JAN_2_2024).as_bytes(),
    );
    maildir.invalidate();
    assert_eq!(maildir.threads().len(), 1, "child must be attached to parent, not a separate root");
    let replies = &maildir.threads()[0].replies;
    assert_eq!(replies.len(), 1);
    assert_eq!(replies[0].parent.message_id, "child@test");
}

#[test]
fn insert_reply_child_first_links_after_parent_inserted() {
    let mut maildir = Maildir::empty("/mb");
    maildir.insert(
        "/mb/new/child",
        email_content("child@test", Some("parent@test"), JAN_2_2024).as_bytes(),
    );
    maildir.insert("/mb/new/parent", email_content("parent@test", None, JAN_2024).as_bytes());
    maildir.invalidate();
    assert_eq!(maildir.threads().len(), 1);
    let replies = &maildir.threads()[0].replies;
    assert_eq!(replies.len(), 1);
    assert_eq!(replies[0].parent.message_id, "child@test");
}

#[test]
fn insert_unparseable_file_is_ignored() {
    let mut maildir = Maildir::empty("/mb");
    maildir.insert("/mb/new/junk", b"Subject: no id\r\n\r\nbody\r\n");
    maildir.invalidate();
    assert!(maildir.threads().is_empty());
    assert_eq!(maildir.email_count(), 0);
}

#[test]
fn insert_deep_chain_in_reverse_order() {
    // A -- B -- C, read as C, B, A
    let mut maildir = Maildir::empty("/mb");
    maildir.insert("/mb/new/c", email_content("c@t", Some("b@t"), JAN_2024).as_bytes());
    maildir.insert("/mb/new/b", email_content("b@t", Some("a@t"), JAN_2024).as_bytes());
    maildir.insert("/mb/new/a", email_content("a@t", None, JAN_2024).as_bytes());
    maildir.invalidate();
    assert_eq!(ids(&maildir), ["a@t"]);
    let b = &maildir.threads()[0].replies;
    assert_eq!(b.len(), 1);
    assert_eq!(b[0].parent.message_id, "b@t");
    assert_eq!(b[0].replies[0].parent.message_id, "c@t");
    assert_eq!(maildir.email_count(), 3);
}

#[test]
fn reply_cycle_is_tracked_but_not_shown() {
    let mut maildir = Maildir::empty("/mb");
    maildir.insert("/mb/new/x", email_content("x@t", Some("y@t"), JAN_2024).as_bytes());
    maildir.insert("/mb/new/y", email_content("y@t", Some("x@t"), JAN_2024).as_bytes());
    maildir.invalidate();
    assert!(maildir.threads().is_empty());
    assert_eq!(maildir.email_count(), 2);
    assert!(maildir.find_by_id("x@t").is_some());
}

#[test]
fn remove_root_thread() {
    let mut maildir = Maildir::empty("/mb");
    maildir.insert("/mb/new/msg1", email_content("id1@test", None, JAN_2024).as_bytes());
    maildir.invalidate();
    assert_eq!(maildir.threads().len(), 1);
    maildir.remove("/mb/new/msg1");
    assert!(maildir.threads().is_empty());
}

#[test]
fn remove_reply_thread() {
    let mut maildir = Maildir::empty("/mb");
    maildir.insert("/mb/new/parent", email_content("parent@test", None, JAN_2024).as_bytes());
    maildir.insert(
        "/mb/new/child",
        email_content("child@test", Some("parent@test"), JAN_2_2024).as_bytes(),
    );
    maildir.invalidate();
    maildir.remove("/mb/new/child");
    assert_eq!(maildir.threads().len(), 1);
    assert!(maildir.threads()[0].replies.is_empty());
}

#[test]
fn remove_nonexistent_path_is_noop() {
    let mut maildir = Maildir::empty("/mb");
    maildir.insert("/mb/new/msg1", email_content("id1@test", None, JAN_2024).as_bytes());
    maildir.invalidate();
    maildir.remove("/nonexistent/path/that/does/not/exist");
    assert_eq!(maildir.threads().len(), 1);
}

#[test]
fn invalidate_promotes_orphan_to_root() {
    let mut maildir = Maildir::empty("/mb");
    maildir.insert(
        "/mb/new/child",
        email_content("child@test", Some("ghost@test"), JAN_2024).as_bytes(),
    );
    maildir.invalidate();
    assert_eq!(maildir.threads().len(), 1);
    assert_eq!(maildir.threads()[0].parent.message_id, "child@test");
}

#[test]
fn invalidate_sorts_latest_first() {
    let mut maildir = Maildir::empty("/mb");
    maildir.insert("/mb/new/older", email_content("older@test", None, JAN_2024).as_bytes());
    maildir.insert("/mb/new/newer", email_content("newer@test", None, JAN_2025).as_bytes());
    maildir.invalidate();
    assert_eq!(ids(&maildir), ["newer@test", "older@test"]);
}

#[test]
fn invalidate_twice_is_same_as_once() {
    let mut maildir = Maildir::empty("/mb");
    maildir.insert("/mb/new/a", email_content("a@t", None, JAN_2024).as_bytes());
    maildir.insert("/mb/new/b", email_content("b@t", None, JAN_2025).as_bytes());
    maildir.insert("/mb/new/c", email_content("c@t", Some("a@t"), JUN_2024).as_bytes());
    maildir.invalidate();
    let first = ids(&maildir);
    maildir.invalidate();
    assert_eq!(ids(&maildir), first);
}

#[test]
fn remove_cleans_lookup_allowing_reinsert() {
    let mut maildir = Maildir::empty("/mb");
    let c = email_content("reinsert@test", None, JAN_2024);
    maildir.insert("/mb/new/msg1", c.as_bytes());
    maildir.invalidate();
    assert_eq!(maildir.threads().len(), 1);
    maildir.remove("/mb/new/msg1");
    assert!(maildir.threads().is_empty());
    maildir.insert("/mb/new/msg1", c.as_bytes());
    maildir.invalidate();
    assert_eq!(maildir.threads().len(), 1);
}

#[test]
fn remove_cleans_lookup_for_descendants() {
    let mut maildir = Maildir::empty("/mb");
    let p = email_content("parent@test", None, JAN_2024);
    let c = email_content("child@test", Some("parent@test"), JAN_2_2024);
    maildir.insert("/mb/new/parent", p.as_bytes());
    maildir.insert("/mb/new/child", c.as_bytes());
    maildir.invalidate();
    maildir.remove("/mb/new/parent");
    assert!(maildir.threads().is_empty());
    maildir.insert("/mb/new/parent", p.as_bytes());
    maildir.insert("/mb/new/child", c.as_bytes());
    maildir.invalidate();
    assert_eq!(maildir.threads().len(), 1);
    assert_eq!(maildir.threads()[0].replies.len(), 1);
}

fn full_sync(maildir: &mut Maildir, disk: &[MailFile]) {
    let paths: Vec<String> = disk.iter().map(|f| f.path.clone()).collect();
    let arrived = maildir.sync(&paths);
    let files: Vec<MailFile> = disk
        .iter()
        .filter(|f| arrived.contains(&f.path))
        .map(|f| MailFile { path: f.path.clone(), contents: f.contents.clone() })
        .collect();
    maildir.insert_all(&files);
    maildir.invalidate();
}

#[test]
fn sync_inserts_new_file() {
    let mut maildir = Maildir::new("/mb", &[]);
    assert!(maildir.threads().is_empty());
    let disk = [file("/mb/new/msg1", &email_content("id1@test", None, JAN_2024))];
    full_sync(&mut maildir, &disk);
    assert_eq!(ids(&maildir), ["id1@test"]);
}

#[test]
fn sync_removes_deleted_file() {
    let disk = [file("/mb/new/msg1", &email_content("id1@test", None, JAN_2024))];
    let mut maildir = Maildir::new("/mb", &disk);
    assert_eq!(maildir.threads().len(), 1);
    full_sync(&mut maildir, &[]);
    assert!(maildir.threads().is_empty());
}

#[test]
fn sync_no_change_is_noop() {
    let disk = [file("/mb/new/msg1", &email_content("id1@test", None, JAN_2024))];
    let mut maildir = Maildir::new("/mb", &disk);
    assert_eq!(maildir.threads().len(), 1);
    let paths = vec!["/mb/new/msg1".to_string()];
    let arrived = maildir.sync(&paths);
    assert!(arrived.is_empty());
    full_sync(&mut maildir, &disk);
    assert_eq!(ids(&maildir), ["id1@test"]);
}

#[test]
fn sync_handles_insert_and_remove_in_same_pass() {
    let a = [file("/mb/new/msg_a", &email_content("a@test", None, JAN_2024))];
    let mut maildir = Maildir::new("/mb", &a);
    assert_eq!(maildir.threads().len(), 1);
    let b = [file("/mb/new/msg_b", &email_content("b@test", None, JAN_2_2024))];
    full_sync(&mut maildir, &b);
    assert_eq!(ids(&maildir), ["b@test"]);
}

#[test]
fn sync_preserves_thread_structure_after_remove_and_reinsert() {
    let parent = file("/mb/new/parent", &email_content("parent@test", None, JAN_2024));
    let child = file(
        "/mb/new/child",
        &email_content("child@test", Some("parent@test"), JAN_2_2024),
    );
    let mut maildir = Maildir::new(
        "/mb",
        &[MailFile { path: parent.path.clone(), contents: parent.contents.clone() },
          MailFile { path: child.path.clone(), contents: child.contents.clone() }],
    );
    assert_eq!(maildir.threads().len(), 1);
    assert_eq!(maildir.threads()[0].replies.len(), 1);

    // the parent's file disappears: the child becomes a root
    full_sync(&mut maildir, &[MailFile { path: child.path.clone(), contents: child.contents.clone() }]);
    assert_eq!(ids(&maildir), ["child@test"]);

    // the parent comes back under another name: it cannot adopt the child again
    let parent2 = file("/mb/new/parent2", &email_content("parent@test", None, JAN_2024));
    full_sync(&mut maildir, &[child, parent2]);
    assert_eq!(maildir.threads().len(), 2);
}

#[test]
fn write_email_creates_file_in_new() {
    let maildir = Maildir::new("/mb", &[]);
    let content = email_content("draft@test", None, JAN_2024);
    let path = maildir.write_email(&content, 1_700_000_000, 42).unwrap();
    assert_eq!(path, "/mb/new/1700000000.42.localhost");
}

#[test]
fn write_email_is_visible_after_sync() {
    let mut maildir = Maildir::new("/mb", &[]);
    let content = email_content("draft@test", None, JAN_2024);
    let path = maildir.write_email(&content, 1, 2).unwrap();
    full_sync(&mut maildir, &[file(&path, &content)]);
    assert_eq!(ids(&maildir), ["draft@test"]);
}

#[test]
fn write_email_rejects_missing_from_header() {
    let maildir = Maildir::new("/mb", &[]);
    let content = "Message-ID: <id@test>\r\nSubject: No From\r\n\r\nBody\r\n";
    assert_eq!(maildir.write_email(content, 1, 2), Err(WriteError::MissingFrom));
}

#[test]
fn write_email_rejects_unparseable_content() {
    let maildir = Maildir::new("/mb", &[]);
    assert!(maildir.write_email("", 1, 2).is_err());
}

#[test]
fn find_by_id_returns_thread_for_known_id() {
    let files = [file("/mb/new/msg1", &email_content("find@test", None, JAN_2024))];
    let maildir = Maildir::new("/mb", &files);
    let result = maildir.find_by_id("find@test");
    assert!(result.is_some());
    assert_eq!(result.unwrap().parent.message_id, "find@test");
}

#[test]
fn find_by_id_returns_none_for_unknown_id() {
    let files = [file("/mb/new/msg1", &email_content("exists@test", None, JAN_2024))];
    let maildir = Maildir::new("/mb", &files);
    assert!(maildir.find_by_id("ghost@test").is_none());
}

#[test]
fn find_by_id_returns_none_on_empty_maildir() {
    let maildir = Maildir::new("/mb", &[]);
    assert!(maildir.find_by_id("any@test").is_none());
}

#[test]
fn remove_by_id_returns_the_file_to_delete() {
    let files = [file("/mb/cur/m:2,S", &email_content("gone@test", None, JAN_2024))];
    let mut maildir = Maildir::new("/mb", &files);
    assert_eq!(maildir.remove_by_id("gone@test"), Some("/mb/cur/m:2,S".to_string()));
    assert!(maildir.threads().is_empty());
    assert_eq!(maildir.remove_by_id("gone@test"), None);
}

#[test]
fn counts_track_read_status() {
    let files = [
        file("/mb/new/a", &email_content("a@t", None, JAN_2024)),
        file("/mb/cur/b:2,S", &email_content("b@t", None, JAN_2024)),
        file("/mb/cur/c:2,", &email_content("c@t", Some("b@t"), JAN_2024)),
    ];
    let maildir = Maildir::new("/mb", &files);
    assert_eq!(maildir.email_count(), 3);
    assert_eq!(maildir.unread_count(), 2);
    assert_eq!(maildir.path(), "/mb");
    assert_eq!(maildir.known_paths().len(), 3);
}

#[test]
fn sort_order_default_is_descending() {
    assert_eq!(SortOrder::default(), SortOrder::Descending);
}

#[test]
fn sort_order_toggle_descending_gives_ascending() {
    assert_eq!(SortOrder::Descending.toggle(), SortOrder::Ascending);
}

#[test]
fn sort_order_toggle_ascending_gives_descending() {
    assert_eq!(SortOrder::Ascending.toggle(), SortOrder::Descending);
}

#[test]
fn toggle_twice_gives_back_the_order() {
    assert_eq!(SortOrder::Ascending.toggle().toggle(), SortOrder::Ascending);
    assert_eq!(SortOrder::Descending.toggle().toggle(), SortOrder::Descending);
}

fn two_dated() -> Vec<MailFile> {
    vec![
        file("/mb/new/older", &email_content("older@test", None, JAN_2024)),
        file("/mb/new/newer", &email_content("newer@test", None, JAN_2025)),
    ]
}

#[test]
fn descending_sort_puts_newest_thread_first() {
    let maildir = Maildir::new("/mb", &two_dated());
    assert_eq!(ids(&maildir), ["newer@test", "older@test"]);
}

#[test]
fn ascending_sort_puts_oldest_thread_first() {
    let mut maildir = Maildir::new("/mb", &two_dated());
    maildir.set_sort_order(SortOrder::Ascending);
    assert_eq!(ids(&maildir), ["older@test", "newer@test"]);
}

#[test]
fn sort_uses_most_recent_reply_not_root_date() {
    let files = [
        file("/mb/new/root_a", &email_content("root_a@test", None, JAN_2024)),
        file("/mb/new/reply_a", &email_content("reply_a@test", Some("root_a@test"), JAN_2025)),
        file("/mb/new/root_b", &email_content("root_b@test", None, JUN_2024)),
    ];
    let maildir = Maildir::new("/mb", &files);
    assert_eq!(ids(&maildir), ["root_a@test", "root_b@test"]);
}

#[test]
fn set_sort_order_re_sorts_existing_threads() {
    let mut maildir = Maildir::new("/mb", &two_dated());
    assert_eq!(maildir.threads()[0].parent.message_id, "newer@test");
    maildir.set_sort_order(SortOrder::Ascending);
    assert_eq!(maildir.threads()[0].parent.message_id, "older@test");
    maildir.set_sort_order(SortOrder::Descending);
    assert_eq!(maildir.threads()[0].parent.message_id, "newer@test");
    assert_eq!(maildir.sort_order(), SortOrder::Descending);
}

#[test]
fn undated_threads_sort_after_dated_ones_in_both_orders() {
    let files = [
        file("/mb/new/nodate", "Message-ID: <nodate@t>\r\nFrom: a@x.com\r\n\r\nBody\r\n"),
        file("/mb/new/old", &email_content("old@t", None, JAN_2024)),
        file("/mb/new/new", &email_content("new@t", None, JAN_2025)),
    ];
    let mut maildir = Maildir::new("/mb", &files);
    assert_eq!(ids(&maildir), ["new@t", "old@t", "nodate@t"]);
    maildir.set_sort_order(SortOrder::Ascending);
    assert_eq!(ids(&maildir), ["old@t", "new@t", "nodate@t"]);
}

#[test]
fn rename_moves_the_email_to_its_new_file() {
    let mut md = Maildir::new(
        "/mb",
        &[
            file("/mb/new/a", &email_content("a@x", None, JAN_2024)),
            file("/mb/cur/b:2,S", &email_content("b@x", Some("a@x"), JAN_2_2024)),
        ],
    );
    let before = md.email_count();
    assert_eq!(md.unread_count(), 1);
    let new_path = md.find_by_id("a@x").unwrap().parent.read_path().unwrap();
    assert_eq!(new_path, "/mb/cur/a:2,S");
    md.rename("/mb/new/a", &new_path);
    assert_eq!(md.find_by_id("a@x").unwrap().parent.path(), "/mb/cur/a:2,S");
    assert_eq!(md.email_count(), before);
    assert_eq!(md.unread_count(), 0);
    // the reply keeps its own file and its place in the thread
    assert_eq!(md.threads()[0].replies[0].parent.path(), "/mb/cur/b:2,S");
    // renaming a file that is not tracked changes nothing
    md.rename("/mb/cur/zzz", "/mb/cur/yyy");
    assert_eq!(md.email_count(), before);
}

#[test]
fn invalidating_twice_is_invalidating_once() {
    let mut md = Maildir::new(
        "/mb",
        &[
            file("/mb/cur/a", &email_content("a@x", None, JAN_2024)),
            file("/mb/cur/b", &email_content("b@x", None, JAN_2025)),
            file("/mb/cur/c", &email_content("c@x", Some("a@x"), JUN_2024)),
        ],
    );
    let once = ids(&md);
    md.invalidate();
    assert_eq!(ids(&md), once);
    assert_eq!(once, vec!["b@x", "a@x"]);
}

#[test]
fn reply_closing_a_loop_is_appended_to_its_parent() {
    let mut maildir = Maildir::empty("/mb");
    maildir.insert("/mb/new/p", email_content("p@t", Some("e@t"), JAN_2024).as_bytes());
    maildir.insert("/mb/new/e", email_content("e@t", Some("p@t"), JAN_2_2024).as_bytes());
    assert_eq!(maildir.email_count(), 2);
    let p = maildir.find_by_id("p@t").unwrap();
    assert_eq!(p.replies.len(), 1);
    assert_eq!(p.replies[0].parent.message_id, "e@t");
    assert!(maildir.threads().is_empty());
}

#[test]
fn sync_folder_removes_gone_files_and_adds_arrivals() {
    let files = [
        file("/mb/new/a", &email_content("a@t", None, JAN_2024)),
        file("/mb/new/b", &email_content("b@t", None, JAN_2025)),
    ];
    let mut md = Maildir::new("/mb", &files);
    let disk = vec!["/mb/new/b".to_string(), "/mb/new/c".to_string()];
    let arrived = md.arrivals(&disk);
    assert_eq!(arrived, vec!["/mb/new/c".to_string()]);
    let read = [file("/mb/new/c", &email_content("c@t", Some("b@t"), JUN_2024))];
    md.sync_folder(&disk, &read);
    assert_eq!(md.email_count(), 2);
    assert!(md.find_by_id("a@t").is_none());
    assert_eq!(md.find_by_id("b@t").unwrap().replies[0].parent.message_id, "c@t");
    assert!(md.arrivals(&disk).is_empty());
    md.sync_folder(&disk, &[]);
    assert_eq!(md.email_count(), 2);
}

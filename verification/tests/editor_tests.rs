use brew::address::{Address, AddressBook};
use brew::editor::{
    draft_editor_body, edits_text, is_blank_line, move_next_paragraph, move_prev_paragraph, Editor, Focus,
    HeaderField, Key, KeyOutcome,
};

fn make_editor(draft: &str) -> Editor {
    Editor::new(draft)
}

fn press(ed: &mut Editor, k: Key) -> KeyOutcome {
    ed.on_key(k, true)
}

fn focus_body(ed: &mut Editor) {
    while ed.focus() != Focus::Body {
        press(ed, Key::Tab);
    }
}

fn to_value(ed: &Editor) -> String {
    ed.to_field().value()
}

fn make_book(entries: &[&str]) -> AddressBook {
    let mut book = AddressBook::from_text("/tmp/brew-book", "");
    let addrs: Vec<Address> = entries.iter().map(|s| Address::new("", s)).collect();
    book.harvest(&addrs);
    book
}

/// An editor on `draft` showing the suggestions for the `To` field from a
/// book holding `entries`.
fn suggesting(draft: &str, entries: &[&str]) -> Editor {
    let mut ed = make_editor(draft);
    ed.update_autocomplete(&make_book(entries));
    ed
}

fn blank_flags(body: &str) -> Vec<bool> {
    body.split('\n')
        .map(|l| is_blank_line(&l.chars().collect::<Vec<char>>()))
        .collect()
}

/// The body row after pressing `}` (or `{`) in normal mode at `row`.
fn paragraph_move(body: &str, row: usize, c: char) -> usize {
    let mut ed = make_editor(&format!("To: \nSubject: \n--- body ---\n{body}"));
    focus_body(&mut ed);
    let blank = blank_flags(body);
    match ed.on_key(Key::Char(c), true) {
        KeyOutcome::NextParagraph => move_next_paragraph(&blank, row),
        KeyOutcome::PrevParagraph => move_prev_paragraph(&blank, row).unwrap_or(row),
        other => panic!("unexpected outcome {other:?}"),
    }
}

// ── new / parsing ────────────────────────────────────────────────────────

#[test]
fn new_parses_to_field() {
    let ed = make_editor("To: alice@x.com\nSubject: Hi\n--- body ---\n");
    assert_eq!(to_value(&ed), "alice@x.com");
}

#[test]
fn new_parses_cc_field() {
    let ed = make_editor("To: \nCc: bob@x.com\nSubject: Hi\n--- body ---\n");
    assert_eq!(ed.cc_field().value(), "bob@x.com");
}

#[test]
fn new_parses_subject_field() {
    let ed = make_editor("To: \nSubject: Hello there\n--- body ---\n");
    assert_eq!(ed.subject_field().value(), "Hello there");
}

#[test]
fn new_parses_in_reply_to() {
    let ed = make_editor("To: \nSubject: \nIn-Reply-To: <id@x.com>\n--- body ---\n");
    assert!(ed.text("").contains("In-Reply-To: <id@x.com>\n"));
}

#[test]
fn new_parses_body_after_sentinel() {
    assert_eq!(draft_editor_body("To: \nSubject: \n--- body ---\nHello world"), "Hello world");
}

#[test]
fn new_body_empty_when_no_sentinel() {
    assert_eq!(draft_editor_body("To: alice@x.com\nSubject: Hi\n"), "");
}

#[test]
fn new_missing_fields_are_empty() {
    let ed = make_editor("--- body ---\n");
    assert_eq!(to_value(&ed), "");
    assert_eq!(ed.cc_field().value(), "");
    assert_eq!(ed.subject_field().value(), "");
    assert_eq!(ed.text(""), "To: \nSubject: \n--- body ---\n");
}

#[test]
fn new_focus_starts_at_to() {
    let ed = make_editor("To: \nSubject: \n--- body ---\n");
    assert_eq!(ed.focus(), Focus::To);
}

#[test]
fn new_keeps_blank_lines_at_start_of_body() {
    assert_eq!(draft_editor_body("--- body ---\n\nHi\n"), "\nHi");
}

// ── title ────────────────────────────────────────────────────────────────

#[test]
fn title_returns_subject_value() {
    let ed = make_editor("To: \nSubject: My Subject\n--- body ---\n");
    assert_eq!(ed.title(), "My Subject");
}

#[test]
fn title_empty_when_no_subject() {
    let ed = make_editor("--- body ---\n");
    assert_eq!(ed.title(), "");
}

// ── text / roundtrip ─────────────────────────────────────────────────────

#[test]
fn text_contains_to_and_subject() {
    let ed = make_editor("To: alice@x.com\nSubject: Hi\n--- body ---\n");
    let t = ed.text("");
    assert!(t.contains("To: alice@x.com"), "got: {t}");
    assert!(t.contains("Subject: Hi"), "got: {t}");
}

#[test]
fn text_omits_cc_when_empty() {
    let ed = make_editor("To: a@x.com\nSubject: Hi\n--- body ---\n");
    assert!(!ed.text("").contains("Cc:"));
}

#[test]
fn text_includes_cc_when_present() {
    let ed = make_editor("To: a@x.com\nCc: b@x.com\nSubject: Hi\n--- body ---\n");
    assert!(ed.text("").contains("Cc: b@x.com"));
}

#[test]
fn text_includes_in_reply_to_when_present() {
    let ed = make_editor("To: \nSubject: \nIn-Reply-To: <id@x.com>\n--- body ---\n");
    assert!(ed.text("").contains("In-Reply-To: <id@x.com>"));
}

#[test]
fn text_contains_body_sentinel() {
    let ed = make_editor("To: \nSubject: \n--- body ---\n");
    assert!(ed.text("").contains("--- body ---"));
}

#[test]
fn text_roundtrip_preserves_fields() {
    let original = "To: alice@x.com\nSubject: Test\n--- body ---\nHi there";
    let ed = make_editor(original);
    let out = ed.text(&draft_editor_body(original));
    let ed2 = make_editor(&out);
    assert_eq!(to_value(&ed2), "alice@x.com");
    assert_eq!(ed2.subject_field().value(), "Test");
    assert_eq!(draft_editor_body(&out), "Hi there");
}

// ── Tab / BackTab focus cycling ──────────────────────────────────────────

#[test]
fn tab_cycles_to_cc_subject_body_to() {
    let mut ed = make_editor("To: \nSubject: \n--- body ---\n");
    assert_eq!(ed.focus(), Focus::To);
    press(&mut ed, Key::Tab);
    assert_eq!(ed.focus(), Focus::Cc);
    press(&mut ed, Key::Tab);
    assert_eq!(ed.focus(), Focus::Subject);
    press(&mut ed, Key::Tab);
    assert_eq!(ed.focus(), Focus::Body);
    press(&mut ed, Key::Tab);
    assert_eq!(ed.focus(), Focus::To);
}

#[test]
fn backtab_cycles_to_body_subject_cc_to() {
    let mut ed = make_editor("To: \nSubject: \n--- body ---\n");
    assert_eq!(ed.focus(), Focus::To);
    press(&mut ed, Key::BackTab);
    assert_eq!(ed.focus(), Focus::Body);
    press(&mut ed, Key::BackTab);
    assert_eq!(ed.focus(), Focus::Subject);
    press(&mut ed, Key::BackTab);
    assert_eq!(ed.focus(), Focus::Cc);
    press(&mut ed, Key::BackTab);
    assert_eq!(ed.focus(), Focus::To);
}

#[test]
fn tab_in_body_insert_mode_does_not_cycle_focus() {
    let mut ed = make_editor("To: \nSubject: \n--- body ---\n");
    focus_body(&mut ed);
    assert_eq!(ed.on_key(Key::Tab, false), KeyOutcome::ToBody);
    assert_eq!(ed.focus(), Focus::Body);
}

#[test]
fn tab_in_body_normal_mode_cycles_focus() {
    let mut ed = make_editor("To: \nSubject: \n--- body ---\n");
    focus_body(&mut ed);
    assert_eq!(ed.on_key(Key::Tab, true), KeyOutcome::Handled);
    assert_eq!(ed.focus(), Focus::To);
}

// ── header field editing ─────────────────────────────────────────────────

#[test]
fn typing_in_to_field_appends_text() {
    let mut ed = make_editor("To: \nSubject: \n--- body ---\n");
    press(&mut ed, Key::Char('a'));
    press(&mut ed, Key::Char('b'));
    assert_eq!(to_value(&ed), "ab");
}

#[test]
fn backspace_in_to_field_removes_last_char() {
    let mut ed = make_editor("To: hi\nSubject: \n--- body ---\n");
    press(&mut ed, Key::Backspace);
    assert_eq!(to_value(&ed), "h");
}

#[test]
fn delete_in_to_field_removes_char_at_cursor() {
    let mut ed = make_editor("To: ab\nSubject: \n--- body ---\n");
    press(&mut ed, Key::Home);
    press(&mut ed, Key::Delete);
    assert_eq!(to_value(&ed), "b");
}

#[test]
fn left_moves_cursor_left_in_header() {
    let mut ed = make_editor("To: ab\nSubject: \n--- body ---\n");
    let before = ed.to_field().cursor();
    press(&mut ed, Key::Left);
    assert!(ed.to_field().cursor() < before);
}

#[test]
fn right_moves_cursor_right_in_header() {
    let mut ed = make_editor("To: ab\nSubject: \n--- body ---\n");
    press(&mut ed, Key::Home);
    press(&mut ed, Key::Right);
    assert_eq!(ed.to_field().cursor(), 1);
}

#[test]
fn home_moves_cursor_to_start_of_header() {
    let mut ed = make_editor("To: abc\nSubject: \n--- body ---\n");
    press(&mut ed, Key::Home);
    assert_eq!(ed.to_field().cursor(), 0);
}

#[test]
fn end_moves_cursor_to_end_of_header() {
    let mut ed = make_editor("To: abc\nSubject: \n--- body ---\n");
    press(&mut ed, Key::Home);
    press(&mut ed, Key::End);
    assert_eq!(ed.to_field().cursor(), to_value(&ed).len());
}

#[test]
fn typing_in_cc_field_works() {
    let mut ed = make_editor("To: \nSubject: \n--- body ---\n");
    press(&mut ed, Key::Tab);
    press(&mut ed, Key::Char('x'));
    assert_eq!(ed.cc_field().value(), "x");
}

#[test]
fn typing_in_subject_field_works() {
    let mut ed = make_editor("To: \nSubject: \n--- body ---\n");
    press(&mut ed, Key::Tab);
    press(&mut ed, Key::Tab);
    press(&mut ed, Key::Char('H'));
    press(&mut ed, Key::Char('i'));
    assert_eq!(ed.subject_field().value(), "Hi");
}

#[test]
fn typing_in_the_middle_of_a_field() {
    let mut f = HeaderField::new("To", "ac");
    f.on_key(Key::Left);
    f.on_key(Key::Char('b'));
    assert_eq!(f.value(), "abc");
    assert_eq!(f.cursor(), 2);
    assert_eq!(f.label(), "To");
    f.on_key(Key::Home);
    f.on_key(Key::Backspace);
    assert_eq!(f.value(), "abc");
}

#[test]
fn typing_then_backspace_restores_the_field() {
    let mut f = HeaderField::new("Cc", "bob@x.com");
    f.on_key(Key::Left);
    f.on_key(Key::Left);
    f.on_key(Key::Char('!'));
    assert_eq!(f.value(), "bob@x.!com");
    f.on_key(Key::Backspace);
    assert_eq!(f.value(), "bob@x.com");
    assert_eq!(f.cursor(), 7);
    f.on_key(Key::Left);
    f.on_key(Key::Right);
    assert_eq!(f.cursor(), 7);
}

// ── Ctrl+C ───────────────────────────────────────────────────────────────

#[test]
fn ctrl_c_in_body_insert_mode_switches_to_normal() {
    let mut ed = make_editor("To: \nSubject: \n--- body ---\n");
    focus_body(&mut ed);
    assert_eq!(ed.on_key(Key::CtrlC, false), KeyOutcome::NormalMode);
}

#[test]
fn ctrl_c_clears_suggestions() {
    let mut ed = suggesting("To: ali\nSubject: \n--- body ---\n", &["alice@x.com"]);
    assert!(!ed.suggestions().is_empty());
    press(&mut ed, Key::CtrlC);
    assert!(ed.suggestions().is_empty());
}

// ── autocomplete ─────────────────────────────────────────────────────────

#[test]
fn update_autocomplete_short_query_yields_no_suggestions() {
    let ed = suggesting("To: a\nSubject: \n--- body ---\n", &["alice@x.com"]);
    assert!(ed.suggestions().is_empty());
}

#[test]
fn update_autocomplete_matching_query_yields_suggestions() {
    let ed = suggesting("To: ali\nSubject: \n--- body ---\n", &["alice@x.com"]);
    assert!(!ed.suggestions().is_empty());
    assert!(ed.suggestions()[0].contains("alice@x.com"));
}

#[test]
fn update_autocomplete_only_for_to_and_cc() {
    let mut ed = make_editor("To: \nSubject: alice\n--- body ---\n");
    press(&mut ed, Key::Tab);
    press(&mut ed, Key::Tab);
    assert_eq!(ed.focus(), Focus::Subject);
    ed.update_autocomplete(&make_book(&["alice@x.com"]));
    assert!(ed.suggestions().is_empty());
}

#[test]
fn update_autocomplete_uses_fragment_after_last_comma() {
    let ed = suggesting("To: bob@x.com,  car\nSubject: \n--- body ---\n", &["carol@x.com", "bob@x.com"]);
    assert_eq!(ed.suggestions().as_slice(), ["carol@x.com".to_string()]);
}

#[test]
fn update_autocomplete_keeps_at_most_eight() {
    let entries: Vec<String> = (0..12).map(|i| format!("user{i}@x.com")).collect();
    let refs: Vec<&str> = entries.iter().map(|s| s.as_str()).collect();
    let ed = suggesting("To: user\nSubject: \n--- body ---\n", &refs);
    assert_eq!(ed.suggestions().len(), 8);
    assert_eq!(ed.suggestions()[0], "user0@x.com");
}

#[test]
fn autocomplete_down_advances_selection() {
    let mut ed = suggesting("To: ali\nSubject: \n--- body ---\n", &["alice@x.com", "alicia@x.com"]);
    assert_eq!(ed.ac_selected(), 0);
    press(&mut ed, Key::Down);
    assert_eq!(ed.ac_selected(), 1);
}

#[test]
fn autocomplete_down_clamps_at_last() {
    let mut ed = suggesting("To: ali\nSubject: \n--- body ---\n", &["alice@x.com", "alicia@x.com"]);
    press(&mut ed, Key::Down);
    press(&mut ed, Key::Down);
    assert_eq!(ed.ac_selected(), 1);
}

#[test]
fn autocomplete_up_decreases_selection() {
    let mut ed = suggesting("To: ali\nSubject: \n--- body ---\n", &["alice@x.com", "alicia@x.com"]);
    press(&mut ed, Key::Down);
    press(&mut ed, Key::Up);
    assert_eq!(ed.ac_selected(), 0);
}

#[test]
fn autocomplete_up_clamps_at_zero() {
    let mut ed = suggesting("To: ali\nSubject: \n--- body ---\n", &["alice@x.com"]);
    press(&mut ed, Key::Up);
    assert_eq!(ed.ac_selected(), 0);
}

#[test]
fn autocomplete_esc_clears_suggestions() {
    let mut ed = suggesting("To: ali\nSubject: \n--- body ---\n", &["alice@x.com"]);
    press(&mut ed, Key::Esc);
    assert!(ed.suggestions().is_empty());
}

#[test]
fn autocomplete_enter_accepts_suggestion_into_to() {
    let mut ed = suggesting("To: ali\nSubject: \n--- body ---\n", &["alice@x.com"]);
    press(&mut ed, Key::Enter);
    assert!(to_value(&ed).contains("alice@x.com"));
    assert!(ed.suggestions().is_empty());
}

#[test]
fn autocomplete_any_other_key_clears_suggestions() {
    let mut ed = suggesting("To: ali\nSubject: \n--- body ---\n", &["alice@x.com"]);
    press(&mut ed, Key::Char('z'));
    assert!(ed.suggestions().is_empty());
    assert_eq!(to_value(&ed), "aliz");
}

#[test]
fn accept_suggestion_replaces_fragment_after_comma() {
    let mut ed = suggesting("To: bob@x.com, ali\nSubject: \n--- body ---\n", &["alice@x.com"]);
    press(&mut ed, Key::Enter);
    assert!(to_value(&ed).starts_with("bob@x.com,"));
    assert!(to_value(&ed).contains("alice@x.com"));
    assert_eq!(to_value(&ed), "bob@x.com, alice@x.com, ");
    assert_eq!(ed.to_field().cursor(), to_value(&ed).chars().count());
}

#[test]
fn accept_suggestion_replaces_whole_value_without_comma() {
    let mut ed = suggesting("To: ali\nSubject: \n--- body ---\n", &["alice@x.com"]);
    press(&mut ed, Key::Enter);
    assert!(!to_value(&ed).contains("ali,"));
    assert!(to_value(&ed).contains("alice@x.com"));
}

// ── next paragraph (}) ──────────────────────────────────────────────────

#[test]
fn next_paragraph_jumps_over_blank_to_next_para() {
    assert_eq!(paragraph_move("line1\nline2\n\nline3\nline4", 0, '}'), 3);
}

#[test]
fn next_paragraph_from_middle_of_paragraph() {
    assert_eq!(paragraph_move("line1\nline2\n\nline3\nline4", 1, '}'), 3);
}

#[test]
fn next_paragraph_skips_multiple_blank_lines() {
    assert_eq!(paragraph_move("para1\n\n\n\npara2", 0, '}'), 4);
}

#[test]
fn next_paragraph_at_last_paragraph_stays_on_last_line() {
    assert_eq!(paragraph_move("only\nline", 0, '}'), 1);
}

#[test]
fn next_paragraph_multiple_jumps() {
    let row = paragraph_move("a\n\nb\n\nc", 0, '}');
    assert_eq!(row, 2);
    assert_eq!(paragraph_move("a\n\nb\n\nc", row, '}'), 4);
}

// ── prev paragraph ({) ──────────────────────────────────────────────────

#[test]
fn prev_paragraph_jumps_to_start_of_current_para() {
    assert_eq!(paragraph_move("line1\nline2\n\nline3\nline4", 4, '{'), 3);
}

#[test]
fn prev_paragraph_from_start_of_para_jumps_to_previous_para_start() {
    assert_eq!(paragraph_move("line1\nline2\n\nline3\nline4", 3, '{'), 0);
}

#[test]
fn prev_paragraph_at_first_line_stays() {
    assert_eq!(paragraph_move("line1\nline2", 0, '{'), 0);
    assert_eq!(move_prev_paragraph(&blank_flags("line1\nline2"), 0), None);
}

#[test]
fn prev_paragraph_skips_multiple_blank_lines() {
    assert_eq!(paragraph_move("para1\n\n\n\npara2", 4, '{'), 0);
}

#[test]
fn prev_paragraph_multiple_jumps() {
    let row = paragraph_move("a\n\nb\n\nc", 4, '{');
    assert_eq!(row, 2);
    assert_eq!(paragraph_move("a\n\nb\n\nc", row, '{'), 0);
}

// ── insert mode passthrough ──────────────────────────────────────────────

#[test]
fn braces_type_normally_in_insert_mode() {
    let mut ed = make_editor("To: \nSubject: \n--- body ---\nhello");
    focus_body(&mut ed);
    assert_eq!(ed.on_key(Key::Char('}'), false), KeyOutcome::ToBody);
    assert_eq!(ed.on_key(Key::Char('{'), false), KeyOutcome::ToBody);
}

#[test]
fn blank_lines_are_whitespace_only() {
    assert!(is_blank_line(&[]));
    assert!(is_blank_line(&[' ', '\t']));
    assert!(!is_blank_line(&[' ', 'x']));
}

#[test]
fn reopening_the_saved_text_gives_back_the_fields() {
    let ed = make_editor(
        "To: Alice <a@x.com>\nCc: bob@x.com\nSubject: Plans\nIn-Reply-To: <id@x>\n--- body ---\nHello\n",
    );
    let text = ed.text("Hello\nworld");
    let again = Editor::new(&text);
    assert_eq!(again.to_field().value(), "Alice <a@x.com>");
    assert_eq!(again.cc_field().value(), "bob@x.com");
    assert_eq!(again.subject_field().value(), "Plans");
    assert_eq!(draft_editor_body(&text), "Hello\nworld");
}

#[test]
fn sending_reads_the_fields_back_as_a_draft() {
    let ed = make_editor("To: Alice <a@x.com>, b@x.com\nSubject:  Hi \n--- body ---\n");
    let text = ed.text("\n\nBody line");
    let d = brew::compose::Draft::parse(&text);
    assert_eq!(d.to.len(), 2);
    assert_eq!(d.to[0].full(), "Alice <a@x.com>");
    assert_eq!(d.to[1].full(), "b@x.com");
    assert!(d.cc.is_empty());
    assert_eq!(d.subject, "Hi");
    assert_eq!(d.in_reply_to, None);
    assert_eq!(d.body, "Body line");
}

#[test]
fn only_editing_keys_refresh_suggestions() {

    assert!(edits_text(Key::Char('a')));
    assert!(edits_text(Key::Backspace));
    assert!(edits_text(Key::Delete));
    assert!(!edits_text(Key::Down));
    assert!(!edits_text(Key::Enter));
    assert!(!edits_text(Key::Tab));
}

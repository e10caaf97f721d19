use brew::utils::{bare_address, chars_eq_ignore_ascii_case, fit_string, full_addresses, truncate_string};

// ── fit_string ──────────────────────────────────────────────────────────────

#[test]
fn fit_string_pads_short_text() {
    assert_eq!(fit_string("ab", 5), "ab   ");
}

#[test]
fn fit_string_keeps_exact_width() {
    assert_eq!(fit_string("abcde", 5), "abcde");
}

#[test]
fn fit_string_cuts_long_text_with_ellipsis() {
    assert_eq!(fit_string("abcdefgh", 5), "abcd…");
    assert_eq!(fit_string("abcdefgh", 5).chars().count(), 5);
}

#[test]
fn fit_string_zero_width_is_empty() {
    assert_eq!(fit_string("abc", 0), "");
}

#[test]
fn fit_string_counts_characters_not_bytes() {
    assert_eq!(fit_string("héllo", 6), "héllo ");
    assert_eq!(fit_string("日本語テキスト", 4), "日本語…");
}

// ── truncate_string ─────────────────────────────────────────────────────────

#[test]
fn truncate_string_keeps_short_text() {
    assert_eq!(truncate_string("abc", 5), "abc");
    assert_eq!(truncate_string("abc", 3), "abc");
}

#[test]
fn truncate_string_cuts_long_text() {
    assert_eq!(truncate_string("abcdef", 4), "abc…");
}

#[test]
fn truncate_string_zero_max() {
    assert_eq!(truncate_string("", 0), "");
    assert_eq!(truncate_string("a", 0), "");
}

// ── recipients ──────────────────────────────────────────────────────────────

#[test]
fn bare_address_from_angle_brackets() {
    assert_eq!(bare_address("Alice <alice@example.com>"), Some("alice@example.com".to_string()));
    assert_eq!(bare_address("  bob@example.com "), Some("bob@example.com".to_string()));
    assert_eq!(bare_address("no address here"), None);
    assert_eq!(bare_address("Name <broken"), None);
}

#[test]
fn full_addresses_keeps_names_and_drops_self() {
    let list = "Alice <alice@example.com>, me@example.com, bob@example.com";
    assert_eq!(
        full_addresses(list, "ME@example.com"),
        vec!["Alice <alice@example.com>".to_string(), "bob@example.com".to_string()]
    );
}

#[test]
fn full_addresses_keeps_comma_in_display_name() {
    let list = "Doe, John <j@x.com>, alice@x.com";
    assert_eq!(
        full_addresses(list, "nobody@x.com"),
        vec!["Doe, John <j@x.com>".to_string(), "alice@x.com".to_string()]
    );
}

#[test]
fn full_addresses_skips_blank_and_invalid_tokens() {
    assert_eq!(full_addresses(" , ,", "me@x.com"), Vec::<String>::new());
    assert_eq!(full_addresses("", "me@x.com"), Vec::<String>::new());
}

#[test]
fn eq_ignore_ascii_case_on_chars() {
    let a: Vec<char> = "Hello@X.com".chars().collect();
    let b: Vec<char> = "hello@x.COM".chars().collect();
    let c: Vec<char> = "hello@y.com".chars().collect();
    assert!(chars_eq_ignore_ascii_case(&a, &b));
    assert!(!chars_eq_ignore_ascii_case(&a, &c));
    assert!(!chars_eq_ignore_ascii_case(&a, &b[..3]));
}

#[test]
fn full_addresses_splits_name_less_entry() {
    assert_eq!(full_addresses("bob, x@y.com", "me@x.com"), vec!["x@y.com".to_string()]);
    assert_eq!(
        full_addresses("Doe, John <j@x.com>, me@x.com", "me@x.com"),
        vec!["Doe, John <j@x.com>".to_string()]
    );
}

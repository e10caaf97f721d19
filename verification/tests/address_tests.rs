use brew::address::{Address, AddressBook};

// ── new ──────────────────────────────────────────────────────────────────

#[test]
fn new_stores_name_and_addr() {
    let a = Address::new("Alice", "alice@example.com");
    assert_eq!(a.name(), "Alice");
    assert_eq!(a.address(), "alice@example.com");
}

// ── full ─────────────────────────────────────────────────────────────────

#[test]
fn full_with_name() {
    let a = Address::new("Alice", "alice@example.com");
    assert_eq!(a.full(), "Alice <alice@example.com>");
}

#[test]
fn full_without_name() {
    let a = Address::new("", "alice@example.com");
    assert_eq!(a.full(), "alice@example.com");
}

// ── short ────────────────────────────────────────────────────────────────

#[test]
fn short_with_name() {
    let a = Address::new("Alice", "alice@example.com");
    assert_eq!(a.short(), "Alice");
}

#[test]
fn short_without_name() {
    let a = Address::new("", "alice@example.com");
    assert_eq!(a.short(), "alice@example.com");
}

// ── display form ─────────────────────────────────────────────────────────

#[test]
fn display_trait_uses_full() {
    let a = Address::new("Alice", "alice@example.com");
    assert_eq!(a.full(), "Alice <alice@example.com>");
}

// ── Default ──────────────────────────────────────────────────────────────

#[test]
fn default_is_empty() {
    let a = Address::default();
    assert_eq!(a.name(), "");
    assert_eq!(a.address(), "");
    assert_eq!(a.full(), "");
}

// ── FromStr ──────────────────────────────────────────────────────────────

#[test]
fn from_str_name_and_addr() {
    let a: Address = "Alice <alice@example.com>".parse().unwrap();
    assert_eq!(a.name(), "Alice");
    assert_eq!(a.address(), "alice@example.com");
}

#[test]
fn from_str_name_with_spaces() {
    let a: Address = "John Doe <john@example.com>".parse().unwrap();
    assert_eq!(a.name(), "John Doe");
    assert_eq!(a.address(), "john@example.com");
}

#[test]
fn from_str_bare_address() {
    let a: Address = "alice@example.com".parse().unwrap();
    assert_eq!(a.name(), "");
    assert_eq!(a.address(), "alice@example.com");
}

#[test]
fn from_str_with_whitespace() {
    let a: Address = "  Alice  <alice@example.com>  ".parse().unwrap();
    assert_eq!(a.name(), "Alice");
    assert_eq!(a.address(), "alice@example.com");
}

#[test]
fn from_str_empty() {
    let a: Address = "".parse().unwrap();
    assert_eq!(a.name(), "");
    assert_eq!(a.address(), "");
}

#[test]
fn from_str_roundtrip() {
    let original = Address::new("Alice", "alice@example.com");
    let parsed: Address = original.full().parse().unwrap();
    assert_eq!(parsed, original);
}

// ── parse_list ───────────────────────────────────────────────────────────

#[test]
fn split_single_bare() {
    let addrs = Address::parse_list("alice@example.com");
    assert_eq!(addrs.len(), 1);
    assert_eq!(addrs[0].address(), "alice@example.com");
}

#[test]
fn split_two_bare() {
    let addrs = Address::parse_list("alice@x.com, bob@x.com");
    assert_eq!(addrs.len(), 2);
    assert_eq!(addrs[0].address(), "alice@x.com");
    assert_eq!(addrs[1].address(), "bob@x.com");
}

#[test]
fn split_preserves_name_with_angle_brackets() {
    let addrs = Address::parse_list("John Doe <john@x.com>, alice@x.com");
    assert_eq!(addrs.len(), 2);
    assert_eq!(addrs[0].name(), "John Doe");
    assert_eq!(addrs[0].address(), "john@x.com");
    assert_eq!(addrs[1].address(), "alice@x.com");
}

#[test]
fn split_mixed() {
    let addrs = Address::parse_list("Alice <a@x.com>, b@x.com, Carol <c@x.com>");
    assert_eq!(addrs.len(), 3);
    assert_eq!(addrs[0].name(), "Alice");
    assert_eq!(addrs[1].address(), "b@x.com");
    assert_eq!(addrs[2].name(), "Carol");
}

#[test]
fn split_empty() {
    let addrs = Address::parse_list("");
    assert!(addrs.is_empty());
}

#[test]
fn split_whitespace_only() {
    let addrs = Address::parse_list("   ");
    assert!(addrs.is_empty());
}

#[test]
fn split_keeps_display_name_with_comma() {
    let addrs = Address::parse_list("Doe, John <j@x.com>, alice@x.com");
    assert_eq!(addrs.len(), 2);
    assert_eq!(addrs[0].name(), "Doe, John");
    assert_eq!(addrs[0].address(), "j@x.com");
    assert_eq!(addrs[1].address(), "alice@x.com");
}

// ── AddressBook ─────────────────────────────────────────────────────────

fn book(content: &str) -> AddressBook {
    AddressBook::from_text("/tmp/brew-addresses", content)
}

#[test]
fn search_matches_name() {
    let book = book("Alice <alice@x.com>\nBob <bob@x.com>\n");
    let results = book.search("ali");
    assert_eq!(results.len(), 1);
    assert_eq!(results[0].short(), "Alice");
}

#[test]
fn search_matches_email() {
    let book = book("Alice <alice@x.com>\nBob <bob@y.com>\n");
    let results = book.search("y.com");
    assert_eq!(results.len(), 1);
    assert_eq!(results[0].short(), "Bob");
}

#[test]
fn address_search_is_case_insensitive() {
    let book = book("Alice <alice@x.com>\n");
    assert_eq!(book.search("ALICE").len(), 1);
}

#[test]
fn search_empty_query_returns_nothing() {
    let book = book("Alice <alice@x.com>\n");
    assert!(book.search("").is_empty());
}

#[test]
fn harvest_adds_new_addresses() {
    let mut book = book("");
    let changed = book.harvest(&[Address::new("Alice", "alice@x.com")]);
    assert!(changed);
    assert_eq!(book.entries().len(), 1);
    let saved = book.to_text();
    assert!(saved.contains("alice@x.com"));
}

#[test]
fn harvest_skips_duplicates() {
    let mut book = book("Alice <alice@x.com>\n");
    let changed = book.harvest(&[Address::new("Alice", "alice@x.com")]);
    assert!(!changed);
    assert_eq!(book.entries().len(), 1);
}

#[test]
fn harvest_skips_empty() {
    let mut book = book("");
    book.harvest(&[Address::default()]);
    assert!(book.entries().is_empty());
}

#[test]
fn harvest_twice_changes_nothing_the_second_time() {
    let mut book = book("");
    let addrs = [Address::new("Alice", "alice@x.com"), Address::new("", "bob@x.com")];
    assert!(book.harvest(&addrs));
    assert!(!book.harvest(&addrs));
    assert_eq!(book.entries().len(), 2);
}

#[test]
fn book_text_round_trips_through_from_text() {
    let mut b = book("");
    b.harvest(&[Address::new("Alice", "alice@x.com"), Address::new("", "bob@x.com")]);
    let text = b.to_text();
    assert_eq!(text, "Alice <alice@x.com>\nbob@x.com\n");
    let again = AddressBook::from_text("/tmp/brew-addresses", &text);
    assert_eq!(again.entries().len(), 2);
    assert_eq!(again.entries()[0].full(), "Alice <alice@x.com>");
    assert_eq!(again.entries()[1].full(), "bob@x.com");
}

#[test]
fn split_name_less_entries_at_every_comma() {
    let addrs = Address::parse_list("a, b");
    assert_eq!(addrs.len(), 2);
    assert_eq!(addrs[0].address(), "a");
    assert_eq!(addrs[1].address(), "b");
}

#[test]
fn split_keeps_comma_name_only_before_angle_address() {
    let addrs = Address::parse_list("bob, x@y.com");
    assert_eq!(addrs.len(), 2);
    assert_eq!(addrs[0].address(), "bob");
    assert_eq!(addrs[1].address(), "x@y.com");
}

#[test]
fn search_matches_name_or_address_not_header_form() {
    let book = AddressBook::from_text("/tmp/brew-addresses", "Alice <alice@x.com>\n");
    assert!(book.search("e <a").is_empty());
    assert_eq!(book.search("ALICE@X").len(), 1);
}

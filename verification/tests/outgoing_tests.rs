use brew::address::Address;
use brew::outgoing::{compose_message, outgoing_message, prepare_message, OutgoingError};

fn addr(name: &str, a: &str) -> Address {
    Address::new(name, a)
}

#[test]
fn compose_message_builds_valid_draft() {
    let to = vec![addr("Bob", "bob@example.com")];
    let cc = vec![addr("", "carol@example.com")];
    let msg = compose_message(Some("Alice"), "alice@example.com", &to, &cc, "Hi", "Hello\n", Some("<x@y>"));
    let msg = match msg {
        Ok(m) => m,
        Err(_) => panic!("expected a message"),
    };
    let text = String::from_utf8(msg.message().formatted()).unwrap();
    assert_eq!(msg.fields().to, vec!["Bob <bob@example.com>".to_string()]);
    assert!(text.contains("From: Alice <alice@example.com>"), "{text}");
    assert!(text.contains("To: Bob <bob@example.com>"), "{text}");
    assert!(text.contains("Cc: carol@example.com"), "{text}");
    assert!(text.contains("Subject: Hi"), "{text}");
    assert!(text.contains("In-Reply-To: <x@y>"), "{text}");
    assert!(text.contains("text/plain"), "{text}");
}

#[test]
fn compose_message_rejects_bad_sender_first() {
    let to = vec![addr("", "not an address")];
    match compose_message(None, "nobody", &to, &[], "s", "b", None) {
        Err(OutgoingError::InvalidFrom(_)) => {}
        _ => panic!("expected an invalid sender"),
    }
}

#[test]
fn compose_message_names_first_bad_recipient() {
    let to = vec![addr("", "ok@example.com"), addr("", "broken"), addr("", "worse")];
    match compose_message(None, "me@example.com", &to, &[], "s", "b", None) {
        Err(OutgoingError::InvalidTo(t, _)) => assert_eq!(t, "broken"),
        _ => panic!("expected an invalid recipient"),
    }
    let cc = vec![addr("Name", "bad")];
    match compose_message(None, "me@example.com", &to[..1], &cc, "s", "b", None) {
        Err(OutgoingError::InvalidCc(t, _)) => assert_eq!(t, "Name <bad>"),
        _ => panic!("expected an invalid copy recipient"),
    }
}

#[test]
fn compose_message_without_recipients_is_a_build_error() {
    match compose_message(None, "me@example.com", &[], &[], "s", "b", None) {
        Err(OutgoingError::Build(_)) => {}
        _ => panic!("expected lettre to refuse a message without recipients"),
    }
    let cc = vec![addr("", "carol@example.com")];
    assert!(compose_message(None, "me@example.com", &[], &cc, "s", "b", None).is_ok());
}

#[test]
fn outgoing_message_keeps_each_field_in_place() {
    let to = vec![addr("Bob", "bob@example.com")];
    let cc = vec![addr("", "carol@example.com"), addr("Dan", "dan@example.com")];
    let m = outgoing_message(Some("Alice"), "alice@example.com", &to, &cc, "Hi", "Body", Some("<x@y>"));
    assert_eq!(m.from, "Alice <alice@example.com>");
    assert_eq!(m.to, vec!["Bob <bob@example.com>".to_string()]);
    assert_eq!(m.cc, vec!["carol@example.com".to_string(), "Dan <dan@example.com>".to_string()]);
    assert_eq!(m.subject, "Hi");
    assert_eq!(m.in_reply_to.as_deref(), Some("<x@y>"));
    assert_eq!(m.body, "Body");
    let bare = outgoing_message(None, "me@example.com", &[], &[], "", "", None);
    assert_eq!(bare.from, "me@example.com");
    assert_eq!(bare.in_reply_to, None);
}

#[test]
fn prepare_message_keeps_fields_after_checks() {
    let to = vec![addr("Bob", "bob@example.com")];
    let cc = vec![addr("", "carol@example.com")];
    let m = match prepare_message(Some("Alice"), "alice@example.com", &to, &cc, "Hi", "Body", None) {
        Ok(m) => m,
        Err(_) => panic!("expected a message"),
    };
    assert_eq!(m.to, vec!["Bob <bob@example.com>".to_string()]);
    assert_eq!(m.cc, vec!["carol@example.com".to_string()]);
    assert_eq!(m.subject, "Hi");
    assert_eq!(m.body, "Body");
    match prepare_message(None, "me@example.com", &[addr("", "broken")], &[], "s", "b", None) {
        Err(OutgoingError::InvalidTo(t, _)) => assert_eq!(t, "broken"),
        _ => panic!("expected an invalid recipient"),
    }
}

use brew::config::{config_dir, config_file, signature_file, Mailbox};

fn mb(label: &str) -> Mailbox {
    Mailbox {
        label: label.to_string(),
        path: String::new(),
    }
}

#[test]
fn is_drafts_matches_exact_case() {
    assert!(mb("Drafts").is_drafts());
}

#[test]
fn is_drafts_matches_lowercase() {
    assert!(mb("drafts").is_drafts());
}

#[test]
fn is_drafts_matches_uppercase() {
    assert!(mb("DRAFTS").is_drafts());
}

#[test]
fn is_drafts_does_not_match_other_labels() {
    assert!(!mb("Inbox").is_drafts());
    assert!(!mb("Sent").is_drafts());
}

#[test]
fn config_dir_uses_xdg_config_home() {
    let dir = config_dir(Some("/tmp/xdg"), Some("/home/u"));
    assert_eq!(dir, "/tmp/xdg/brew");
}

#[test]
fn config_dir_falls_back_to_home() {
    let dir = config_dir(None, Some("/home/u"));
    assert_eq!(dir, "/home/u/.config/brew");
}

#[test]
fn config_dir_without_home_uses_root() {
    assert_eq!(config_dir(None, None), "/.config/brew");
}

#[test]
fn config_files_live_in_the_config_dir() {
    assert_eq!(config_file("/home/u/.config/brew"), "/home/u/.config/brew/config.toml");
    assert_eq!(signature_file("/home/u/.config/brew/"), "/home/u/.config/brew/signature");
}

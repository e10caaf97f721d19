# brew

A terminal mail client for local Maildir folders, whose logic is a library
verified with Verus.

- `src/` is the library: Maildir read status and flags, the email thread
  tree of a folder (insertion, removal, renaming, synchronisation with the
  files on disk, sorting), address lists and the address book, draft
  parsing and composition (new mail, replies, forwards), the email and
  thread-list views, the compose editor's header fields, and the decisions
  of the main window (which key does what, tabs, search, the move and send
  popups and the steps after the send popup, status texts). The outgoing
  message is fixed as plain text before lettre builds it. Each public function carries a contract proved by
  Verus; calls into `mail-parser`, `time` and `lettre` go through a few
  small wrappers whose contracts are trusted.
- `app/` is the terminal program around it: configuration loading (TOML),
  file system access, the event loop, drawing with ratatui, the body
  editor, the clipboard, notifications and SMTP delivery.
- `tests/` exercises the library on concrete values.

In the compose editor every plain key, `q` included, is typed into the
draft; `Ctrl+Q` leaves the editor and opens the send dialog (`y` send,
`d` save to Drafts, `n` discard).  Messages whose `In-Reply-To` chain
loops back onto themselves are tracked and counted but not listed.

The configuration lives in `$XDG_CONFIG_HOME/brew/config.toml` (or
`~/.config/brew/config.toml`):

```toml
[[mailbox]]
label = "Inbox"
path = "/home/me/Mail/Inbox"

[smtp]
host = "smtp.example.com"
port = 587
username = "me@example.com"
name = "Me"
password = "SECRET-REDACTED"

[sync]
command = "mbsync -a"
interval = 300
```

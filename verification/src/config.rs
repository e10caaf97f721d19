//! Configuration values: the mailboxes to show, the SMTP account used for
//! sending, and the optional background sync command.
use crate::flags::{join, path_join};
use crate::text::{chars_eq, lowercase, string_from, to_chars, to_lowercase};
use vstd::prelude::*;

verus! {

/// A Maildir folder shown in the sidebar.
#[derive(Clone, Debug)]
pub struct Mailbox {
    pub label: String,
    pub path: String,
}

impl Mailbox {
    /// Whether this is the drafts mailbox: its label, lower-cased, is
    /// `drafts`.
    pub fn is_drafts(&self) -> (r: bool)
        ensures
            r == (lowercase(self.label@) == "drafts"@),
    {
        let l = to_lowercase(self.label.as_str());
        let lc = to_chars(l.as_str());
        let d = to_chars("drafts");
        chars_eq(lc.as_slice(), d.as_slice())
    }
}

/// SMTP account used to send mail.
#[derive(Clone, Debug)]
pub struct Smtp {
    pub host: String,
    pub port: u16,
    pub username: String,
    pub name: Option<String>,
    pub password: String,
}

/// Periodic sync: a shell command run every `interval` seconds.
#[derive(Debug)]
pub struct Sync {
    pub command: String,
    pub interval: u64,
}

impl Default for Sync {
    fn default() -> (r: Self)
        ensures
            r.command@ == Seq::<char>::empty(),
            r.interval == 0,
    {
        Sync { command: String::new(), interval: 0 }
    }
}

/// The whole configuration file.
#[derive(Debug)]
pub struct Config {
    pub mailboxes: Vec<Mailbox>,
    pub smtp: Smtp,
    pub sync: Option<Sync>,
}

/// The brew configuration directory: `XDG_CONFIG_HOME/brew` when that
/// variable is set, otherwise `HOME/.config/brew` (`/` standing for an unset
/// `HOME`).
pub open spec fn config_dir_spec(xdg: Option<Seq<char>>, home: Option<Seq<char>>) -> Seq<char> {
    let base = match xdg {
        Some(x) => x,
        None => join(
            match home {
                Some(h) => h,
                None => "/"@,
            },
            ".config"@,
        ),
    };
    join(base, "brew"@)
}

/// The brew configuration directory from the values of the environment
/// variables `XDG_CONFIG_HOME` and `HOME` (`None` when unset).
pub fn config_dir(xdg: Option<&str>, home: Option<&str>) -> (r: String)
    ensures
        r@ == config_dir_spec(crate::compose::opt_str(xdg), crate::compose::opt_str(home)),
{
    let base = match xdg {
        Some(x) => to_chars(x),
        None => {
            let h = match home {
                Some(h) => to_chars(h),
                None => to_chars("/"),
            };
            let c = to_chars(".config");
            path_join(h.as_slice(), c.as_slice())
        },
    };
    let b = to_chars("brew");
    let d = path_join(base.as_slice(), b.as_slice());
    string_from(d.as_slice())
}

/// The configuration file in the directory `dir`.
pub fn config_file(dir: &str) -> (r: String)
    ensures
        r@ == join(dir@, "config.toml"@),
{
    let d = to_chars(dir);
    let f = to_chars("config.toml");
    let p = path_join(d.as_slice(), f.as_slice());
    string_from(p.as_slice())
}

/// The signature file in the directory `dir`.
pub fn signature_file(dir: &str) -> (r: String)
    ensures
        r@ == join(dir@, "signature"@),
{
    let d = to_chars(dir);
    let f = to_chars("signature");
    let p = path_join(d.as_slice(), f.as_slice());
    string_from(p.as_slice())
}

} // verus!

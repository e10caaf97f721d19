//! Email metadata read from a message's headers, and the thread tree built
//! from it.
use crate::address::{empty_address, Address, AddressView};
use crate::flags::{
    flag_char, flagged_path, flagged_path_of, has_flag, is_unread, path_has_flag, path_is_unread,
    seen_path, seen_path_of, unflagged_path, unflagged_path_of, unseen_path, unseen_path_of, Flag,
};
use vstd::prelude::*;

verus! {

// ─────────────────────────────── header fields ──────────────────────────────

/// An address as the message parser reports it: both parts may be absent.
pub struct AddrParts {
    pub name: Option<String>,
    pub address: Option<String>,
}

/// The header fields that threading needs, as the message parser reports
/// them.
pub struct HeaderFields {
    /// The `Message-ID` header, without angle brackets.
    pub message_id: Option<String>,
    /// The `Date` header as seconds since the Unix epoch.
    pub timestamp: Option<i64>,
    /// The first address of the `From` header.
    pub from: Option<AddrParts>,
    /// The (last) message id of the `In-Reply-To` header.
    pub in_reply_to: Option<String>,
    /// The `Subject` header.
    pub subject: Option<String>,
}

/// The content of [`AddrParts`].
pub struct AddrPartsView {
    pub name: Option<Seq<char>>,
    pub address: Option<Seq<char>>,
}

/// The content of [`HeaderFields`].
pub struct HeaderFieldsView {
    pub message_id: Option<Seq<char>>,
    pub timestamp: Option<i64>,
    pub from: Option<AddrPartsView>,
    pub in_reply_to: Option<Seq<char>>,
    pub subject: Option<Seq<char>>,
}

/// The view of an optional string.
pub open spec fn opt_view(o: Option<String>) -> Option<Seq<char>> {
    match o {
        Some(s) => Some(s@),
        None => None,
    }
}

impl View for AddrParts {
    type V = AddrPartsView;

    open spec fn view(&self) -> AddrPartsView {
        AddrPartsView { name: opt_view(self.name), address: opt_view(self.address) }
    }
}

impl View for HeaderFields {
    type V = HeaderFieldsView;

    open spec fn view(&self) -> HeaderFieldsView {
        HeaderFieldsView {
            message_id: opt_view(self.message_id),
            timestamp: self.timestamp,
            from: match self.from {
                Some(a) => Some(a@),
                None => None,
            },
            in_reply_to: opt_view(self.in_reply_to),
            subject: opt_view(self.subject),
        }
    }
}

/// What `mail_parser`'s header-only parse reports for the raw message
/// `raw`: `None` when it finds no headers, otherwise the fields of
/// [`HeaderFields`].  A function of the bytes alone.
pub uninterp spec fn parsed_headers(raw: Seq<u8>) -> Option<HeaderFieldsView>;

/// Parses only the headers of a raw RFC 5322 message.
///
/// Trusted wrapper around `mail_parser::MessageParser::parse_headers`,
/// reading from its result the message id, the date as a timestamp, the
/// first `From` address, the `In-Reply-To` text and the subject.  The result
/// is named `parsed_headers(raw)`; nothing else is claimed about it.
#[verifier::external_body]
pub(crate) fn parse_header_fields(raw: &[u8]) -> (r: Option<HeaderFields>)
    ensures
        match r {
            Some(f) => parsed_headers(raw@) == Some(f@),
            None => parsed_headers(raw@) is None,
        },
{
    let m = mail_parser::MessageParser::default().parse_headers(raw)?;
    let text = |s: Option<&str>| s.map(str::to_string);
    Some(HeaderFields {
        message_id: text(m.message_id()),
        timestamp: m.date().map(|d| d.to_timestamp()),
        from: m.from().and_then(|a| a.iter().next()).map(
            |a| AddrParts { name: text(a.name()), address: text(a.address()) },
        ),
        in_reply_to: text(m.in_reply_to().as_text()),
        subject: text(m.subject()),
    })
}

// ─────────────────────────────────── email ──────────────────────────────────

/// Why a message cannot become an [`Email`].
#[derive(Debug, PartialEq, Eq, Structural, Clone, Copy)]
pub enum EmailError {
    /// The parser found no headers.
    Unparseable,
    /// The message has no `Message-ID`.
    NoMessageId,
}

/// The content of an [`Email`].
pub struct EmailInfo {
    pub message_id: Seq<char>,
    pub reply_to: Option<Seq<char>>,
    pub from: AddressView,
    pub subject: Seq<char>,
    pub timestamp: Option<i64>,
    pub path: Seq<char>,
}

/// Email metadata that contains only the essential email information.
/// This structure is used to parse emails from a MailDir folder and to reduce
/// the overload caused by parsing multiple fields, such as body.
#[derive(Debug)]
pub struct Email {
    /// Unique message identifier.
    pub message_id: String,
    /// Indentifier for the reply-to message.
    pub reply_to: Option<String>,
    /// Sender address parsed from the `From:` header.
    pub from: Address,
    /// Subject of the email.
    pub subject: String,
    /// Unix timestamp (seconds since epoch) from the `Date:` header.
    /// `None` when the header is absent or unparseable.
    pub timestamp: Option<i64>,
    /// Path of the Maildir file that contains this message.
    pub path: String,
}

impl View for Email {
    type V = EmailInfo;

    open spec fn view(&self) -> EmailInfo {
        EmailInfo {
            message_id: self.message_id@,
            reply_to: opt_view(self.reply_to),
            from: self.from@,
            subject: self.subject@,
            timestamp: self.timestamp,
            path: self.path@,
        }
    }
}

/// The sender recorded for a parsed `From` header: the first address with
/// absent parts read as empty, or the empty address without one.
pub open spec fn sender_of(from: Option<AddrPartsView>) -> AddressView {
    match from {
        Some(a) => AddressView {
            name: match a.name {
                Some(n) => n,
                None => Seq::empty(),
            },
            addr: match a.address {
                Some(x) => x,
                None => Seq::empty(),
            },
        },
        None => empty_address(),
    }
}

/// The email described by the parsed header fields `f` of the file at
/// `path`, or why there is none.
pub open spec fn email_from_fields(f: Option<HeaderFieldsView>, path: Seq<char>) -> Result<
    EmailInfo,
    EmailError,
> {
    match f {
        None => Err(EmailError::Unparseable),
        Some(h) => match h.message_id {
            None => Err(EmailError::NoMessageId),
            Some(id) => Ok(
                EmailInfo {
                    message_id: id,
                    reply_to: h.in_reply_to,
                    from: sender_of(h.from),
                    subject: match h.subject {
                        Some(s) => s,
                        None => Seq::empty(),
                    },
                    timestamp: h.timestamp,
                    path,
                },
            ),
        },
    }
}

/// The view of an email result.
pub open spec fn email_result_view(r: Result<Email, EmailError>) -> Result<EmailInfo, EmailError> {
    match r {
        Ok(e) => Ok(e@),
        Err(x) => Err(x),
    }
}

fn string_or_empty(s: Option<String>) -> (r: String)
    ensures
        r@ == match opt_view(s) {
            Some(x) => x,
            None => Seq::<char>::empty(),
        },
{
    match s {
        Some(x) => x,
        None => String::new(),
    }
}

impl Email {
    /// Build an `Email` from parsed header fields; it fails when there are
    /// none or when the message id is missing.
    pub fn from_headers(fields: Option<HeaderFields>, path: &str) -> (r: Result<Email, EmailError>)
        ensures
            email_result_view(r) == email_from_fields(
                match fields {
                    Some(f) => Some(f@),
                    None => None,
                },
                path@,
            ),
    {
        let f = match fields {
            Some(f) => f,
            None => return Err(EmailError::Unparseable),
        };
        let message_id = match f.message_id {
            Some(id) => id,
            None => return Err(EmailError::NoMessageId),
        };
        let from = match f.from {
            Some(a) => {
                let n = string_or_empty(a.name);
                let x = string_or_empty(a.address);
                Address::new(n.as_str(), x.as_str())
            },
            None => Address::default(),
        };
        Ok(
            Email {
                message_id,
                reply_to: f.in_reply_to,
                from,
                subject: string_or_empty(f.subject),
                timestamp: f.timestamp,
                path: path.to_owned(),
            },
        )
    }

    /// Initialize the structure from the contents of an email file stored
    /// at `path`: only its headers are parsed.
    pub fn from_file(path: &str, contents: &[u8]) -> (r: Result<Email, EmailError>)
        ensures
            email_result_view(r) == email_from_fields(parsed_headers(contents@), path@),
    {
        let fields = parse_header_fields(contents);
        Email::from_headers(fields, path)
    }

    /// Construct an `Email` directly.
    pub fn new(
        message_id: &str,
        reply_to: Option<String>,
        from: &str,
        subject: &str,
        timestamp: Option<i64>,
        path: &str,
    ) -> (r: Self)
        ensures
            r@ == (EmailInfo {
                message_id: message_id@,
                reply_to: opt_view(reply_to),
                from: AddressView { name: from@, addr: Seq::empty() },
                subject: subject@,
                timestamp,
                path: path@,
            }),
    {
        proof {
            reveal_strlit("");
        }
        let e = Email {
            message_id: message_id.to_owned(),
            reply_to,
            from: Address::new(from, ""),
            subject: subject.to_owned(),
            timestamp,
            path: path.to_owned(),
        };
        assert(""@ =~= Seq::<char>::empty());
        e
    }

    /// Returns the on-disk path of this email file.
    pub fn path(&self) -> (r: &str)
        ensures
            r@ == self@.path,
    {
        self.path.as_str()
    }

    /// Record that the file now lives at `path` (after it was renamed).
    pub fn set_path(&mut self, path: String)
        ensures
            final(self)@ == (EmailInfo { path: path@, ..old(self)@ }),
    {
        self.path = path;
    }

    /// Returns `true` when email should be considered unread.
    pub fn is_unread(&self) -> (r: bool)
        ensures
            r == path_is_unread(self@.path),
    {
        is_unread(self.path.as_str())
    }

    /// Where the file must be renamed to set the Seen flag, or `None` when
    /// it is already seen.
    pub fn read_path(&self) -> (r: Option<String>)
        ensures
            match r {
                Some(q) => seen_path(self@.path) == Some(q@),
                None => seen_path(self@.path) is None,
            },
    {
        seen_path_of(self.path.as_str())
    }

    /// Where the file must be renamed to clear the Seen flag, or `None`
    /// when it already reads as unread.
    pub fn unread_path(&self) -> (r: Option<String>)
        ensures
            match r {
                Some(q) => unseen_path(self@.path) == Some(q@),
                None => unseen_path(self@.path) is None,
            },
    {
        unseen_path_of(self.path.as_str())
    }

    /// Whether the file carries the flag `f`.
    pub fn has_mark(&self, f: Flag) -> (r: bool)
        ensures
            r == path_has_flag(self@.path, flag_char(f)),
    {
        has_flag(self.path.as_str(), f.letter())
    }

    /// Where the file must be renamed to set the flag `f`, or `None` when
    /// it already carries it.
    pub fn mark_path(&self, f: Flag) -> (r: Option<String>)
        ensures
            match r {
                Some(q) => flagged_path(self@.path, flag_char(f)) == Some(q@),
                None => flagged_path(self@.path, flag_char(f)) is None,
            },
    {
        flagged_path_of(self.path.as_str(), f.letter())
    }

    /// Where the file must be renamed to clear the flag `f`, or `None` when
    /// it does not carry it.
    pub fn clear_mark_path(&self, f: Flag) -> (r: Option<String>)
        ensures
            match r {
                Some(q) => unflagged_path(self@.path, flag_char(f)) == Some(q@),
                None => unflagged_path(self@.path, flag_char(f)) is None,
            },
    {
        unflagged_path_of(self.path.as_str(), f.letter())
    }

    /// Where the file must be renamed to toggle its read state: marked read
    /// when it reads as unread, marked unread otherwise (`None` when the
    /// name is left as it is).
    pub fn toggled_read_path(&self) -> (r: Option<String>)
        ensures
            ({
                let target = if path_is_unread(self@.path) {
                    seen_path(self@.path)
                } else {
                    unseen_path(self@.path)
                };
                match r {
                    Some(q) => target == Some(q@),
                    None => target is None,
                }
            }),
    {
        if self.is_unread() {
            self.read_path()
        } else {
            self.unread_path()
        }
    }

    /// Where the file must be renamed to toggle the flag `f`: cleared when
    /// the file carries it, set otherwise (`None` when the name is left as
    /// it is).
    pub fn toggled_mark_path(&self, f: Flag) -> (r: Option<String>)
        ensures
            ({
                let target = if path_has_flag(self@.path, flag_char(f)) {
                    unflagged_path(self@.path, flag_char(f))
                } else {
                    flagged_path(self@.path, flag_char(f))
                };
                match r {
                    Some(q) => target == Some(q@),
                    None => target is None,
                }
            }),
    {
        if self.has_mark(f) {
            self.clear_mark_path(f)
        } else {
            self.mark_path(f)
        }
    }
}

impl Clone for Email {
    fn clone(&self) -> (r: Self)
        ensures
            r@ == self@,
    {
        Email {
            message_id: self.message_id.clone(),
            reply_to: match &self.reply_to {
                Some(s) => Some(s.clone()),
                None => None,
            },
            from: self.from.clone(),
            subject: self.subject.clone(),
            timestamp: self.timestamp,
            path: self.path.clone(),
        }
    }
}

// ─────────────────────────────────── threads ────────────────────────────────

/// The content of an [`EmailThread`]: an email and the threads replying to
/// it.
pub struct ThreadView {
    pub email: EmailInfo,
    pub replies: Seq<ThreadView>,
}

/// A node in the email thread tree.
/// Contains email metadata and a list of replies.
#[derive(Debug)]
pub struct EmailThread {
    pub parent: Email,
    pub replies: Vec<EmailThread>,
}

impl EmailThread {
    /// The content of this thread.
    pub open spec fn tree(self) -> ThreadView
        decreases self,
    {
        ThreadView { email: self.parent@, replies: forest_view(self.replies@) }
    }

    /// A thread holding `meta` with no replies.
    pub fn new(meta: Email) -> (r: Self)
        ensures
            r.tree() == (ThreadView { email: meta@, replies: Seq::empty() }),
    {
        let r = EmailThread { parent: meta, replies: Vec::new() };
        assert(forest_view(r.replies@) =~= Seq::<ThreadView>::empty());
        r
    }
}

/// The content of a sequence of threads.
pub open spec fn forest_view(ts: Seq<EmailThread>) -> Seq<ThreadView>
    decreases ts,
{
    if ts.len() == 0 {
        seq![]
    } else {
        forest_view(ts.subrange(0, ts.len() - 1)).push(ts[ts.len() - 1].tree())
    }
}

} // verus!

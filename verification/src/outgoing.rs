//! The message sent for a draft: the sender and every recipient are read
//! as mailboxes by lettre, then a plain-text message is built.  Handing it
//! to the SMTP server is left to the caller.
use crate::address::{address_views, full_form, Address, AddressView};
use crate::built::{build_message, BuiltMessage};
use crate::text::string_views;
use lettre::message::Mailbox as SmtpMailbox;
use vstd::prelude::*;

verus! {

#[verifier::external_type_specification]
#[verifier::external_body]
pub struct ExMailbox(SmtpMailbox);

#[verifier::external_type_specification]
#[verifier::external_body]
pub struct ExAddressError(lettre::address::AddressError);

#[verifier::external_type_specification]
#[verifier::external_body]
pub struct ExMessage(lettre::Message);

#[verifier::external_type_specification]
#[verifier::external_body]
pub struct ExEmailError(lettre::error::Error);

// ───────────────────────────── calls into lettre ────────────────────────────

/// Whether lettre's `Mailbox::from_str` accepts the text `s`
/// (`Name <user@domain>` or `user@domain`).
pub uninterp spec fn mailbox_accepts(s: Seq<char>) -> bool;

/// lettre's `Mailbox::from_str`.  Trusted: the outcome is a function of
/// the text alone (a parse), and it succeeds exactly when
/// [`mailbox_accepts`] says so; nothing is stated of the mailbox itself.
#[verifier::external_body]
fn parse_mailbox(s: &str) -> (r: Result<SmtpMailbox, lettre::address::AddressError>)
    ensures
        r is Ok == mailbox_accepts(s@),
{
    s.parse::<SmtpMailbox>()
}

/// The plain-text message handed to lettre, as text: the sender's and each
/// recipient's header form, the subject, the id replied to and the body.
pub struct OutgoingMessage {
    pub from: String,
    pub to: Vec<String>,
    pub cc: Vec<String>,
    pub subject: String,
    pub in_reply_to: Option<String>,
    pub body: String,
}

/// The content of an [`OutgoingMessage`].
pub struct OutgoingView {
    pub from: Seq<char>,
    pub to: Seq<Seq<char>>,
    pub cc: Seq<Seq<char>>,
    pub subject: Seq<char>,
    pub in_reply_to: Option<Seq<char>>,
    pub body: Seq<char>,
}

impl View for OutgoingMessage {
    type V = OutgoingView;

    open spec fn view(&self) -> OutgoingView {
        OutgoingView {
            from: self.from@,
            to: string_views(self.to@),
            cc: string_views(self.cc@),
            subject: self.subject@,
            in_reply_to: match self.in_reply_to {
                Some(id) => Some(id@),
                None => None,
            },
            body: self.body@,
        }
    }
}

/// The message for a draft: from `name <username>` (the bare username
/// without a name), to and copied to the header forms of `to` and `cc`,
/// with the given subject, `In-Reply-To` and body.
pub open spec fn outgoing_spec(
    name: Option<Seq<char>>,
    username: Seq<char>,
    to: Seq<AddressView>,
    cc: Seq<AddressView>,
    subject: Seq<char>,
    body: Seq<char>,
    in_reply_to: Option<Seq<char>>,
) -> OutgoingView {
    OutgoingView {
        from: sender_text(name, username),
        to: header_texts(to),
        cc: header_texts(cc),
        subject,
        in_reply_to,
        body,
    }
}

/// Whether lettre accepts every text of `texts` as a mailbox.
pub open spec fn all_accepted(texts: Seq<Seq<char>>) -> bool {
    forall|i: int| 0 <= i < texts.len() ==> mailbox_accepts(#[trigger] texts[i])
}

// ───────────────────────────────── the message ──────────────────────────────

/// Why no message could be built.
pub enum OutgoingError {
    /// The sender is not a valid mailbox.
    InvalidFrom(lettre::address::AddressError),
    /// This `To` recipient is not a valid mailbox.
    InvalidTo(String, lettre::address::AddressError),
    /// This `Cc` recipient is not a valid mailbox.
    InvalidCc(String, lettre::address::AddressError),
    /// lettre refused to build the message.
    Build(lettre::error::Error),
}

/// The kind of an [`OutgoingError`], with the rejected recipient's text.
pub enum OutgoingFailure {
    InvalidFrom,
    InvalidTo(Seq<char>),
    InvalidCc(Seq<char>),
    Build,
}

/// The kind of an error.
pub open spec fn failure_of(e: OutgoingError) -> OutgoingFailure {
    match e {
        OutgoingError::InvalidFrom(_) => OutgoingFailure::InvalidFrom,
        OutgoingError::InvalidTo(t, _) => OutgoingFailure::InvalidTo(t@),
        OutgoingError::InvalidCc(t, _) => OutgoingFailure::InvalidCc(t@),
        OutgoingError::Build(_) => OutgoingFailure::Build,
    }
}

/// The sender's header text: `Name <username>`, or the bare username
/// without a name.
pub open spec fn sender_text(name: Option<Seq<char>>, username: Seq<char>) -> Seq<char> {
    full_form(
        AddressView {
            name: match name {
                Some(n) => n,
                None => Seq::empty(),
            },
            addr: username,
        },
    )
}

/// The header texts of a list of addresses.
pub open spec fn header_texts(a: Seq<AddressView>) -> Seq<Seq<char>> {
    Seq::new(a.len(), |i: int| full_form(a[i]))
}

/// Position of the first text lettre does not accept as a mailbox.
pub open spec fn first_rejected(texts: Seq<Seq<char>>) -> Option<int>
    decreases texts.len(),
{
    if texts.len() == 0 {
        None
    } else if !mailbox_accepts(texts[0]) {
        Some(0)
    } else {
        match first_rejected(texts.subrange(1, texts.len() as int)) {
            Some(i) => Some(i + 1),
            None => None,
        }
    }
}

/// The failure the addresses decide: a rejected sender, else the first
/// rejected `To` recipient, else the first rejected `Cc` recipient; `None`
/// when lettre accepts them all.
pub open spec fn address_failure(
    from: Seq<char>,
    to: Seq<Seq<char>>,
    cc: Seq<Seq<char>>,
) -> Option<OutgoingFailure> {
    if !mailbox_accepts(from) {
        Some(OutgoingFailure::InvalidFrom)
    } else {
        match first_rejected(to) {
            Some(i) => Some(OutgoingFailure::InvalidTo(to[i])),
            None => match first_rejected(cc) {
                Some(i) => Some(OutgoingFailure::InvalidCc(cc[i])),
                None => None,
            },
        }
    }
}

/// `first_rejected` is the first position whose text is not accepted.
proof fn lemma_first_rejected(texts: Seq<Seq<char>>, i: int)
    requires
        0 <= i <= texts.len(),
        forall|j: int| 0 <= j < i ==> mailbox_accepts(#[trigger] texts[j]),
    ensures
        i < texts.len() && !mailbox_accepts(texts[i]) ==> first_rejected(texts) == Some(i),
        i == texts.len() ==> first_rejected(texts) is None,
    decreases i,
{
    if i > 0 {
        let rest = texts.subrange(1, texts.len() as int);
        assert forall|j: int| 0 <= j < i - 1 implies mailbox_accepts(#[trigger] rest[j]) by {
            assert(rest[j] == texts[j + 1]);
        }
        lemma_first_rejected(rest, i - 1);
        assert(mailbox_accepts(texts[0]));
        if i < texts.len() {
            assert(rest[i - 1] == texts[i]);
        }
    }
}

/// The header texts of `addrs`.
fn header_texts_of(addrs: &[Address]) -> (r: Vec<String>)
    ensures
        string_views(r@) == header_texts(address_views(addrs@)),
{
    let n = addrs.len();
    let mut out: Vec<String> = Vec::new();
    let mut i: usize = 0;
    while i < n
        invariant
            n == addrs@.len(),
            i <= n,
            out@.len() == i,
            forall|j: int| 0 <= j < i ==> #[trigger] out@[j]@ == full_form(addrs@[j]@),
        decreases n - i,
    {
        out.push(addrs[i].full());
        i += 1;
    }
    assert(string_views(out@) =~= header_texts(address_views(addrs@)));
    out
}

/// The message for a draft, as text: from `name <username>` (the bare
/// username without a name), to `to`, copied to `cc`, with the given
/// subject and body, and `In-Reply-To` when replying.
pub fn outgoing_message(
    name: Option<&str>,
    username: &str,
    to: &[Address],
    cc: &[Address],
    subject: &str,
    body: &str,
    in_reply_to: Option<&str>,
) -> (r: OutgoingMessage)
    ensures
        r@ == outgoing_spec(
            crate::compose::opt_str(name),
            username@,
            address_views(to@),
            address_views(cc@),
            subject@,
            body@,
            crate::compose::opt_str(in_reply_to),
        ),
{
    let sender = Address::new(
        match name {
            Some(n) => n,
            None => "",
        },
        username,
    );
    proof {
        assert(""@ =~= Seq::<char>::empty()) by {
            reveal_strlit("");
        }
    }
    OutgoingMessage {
        from: sender.full(),
        to: header_texts_of(to),
        cc: header_texts_of(cc),
        subject: subject.to_string(),
        in_reply_to: match in_reply_to {
            Some(id) => Some(id.to_string()),
            None => None,
        },
        body: body.to_string(),
    }
}

/// Check every text of `texts` with lettre; on the first one lettre
/// rejects, that text and lettre's error.
fn check_mailboxes(texts: &Vec<String>) -> (r: Result<(), (String, lettre::address::AddressError)>)
    ensures
        match first_rejected(string_views(texts@)) {
            Some(i) => r matches Err((t, _)) && t@ == string_views(texts@)[i],
            None => r is Ok && all_accepted(string_views(texts@)),
        },
{
    let ghost tv = string_views(texts@);
    let n = texts.len();
    let mut i: usize = 0;
    while i < n
        invariant
            n == texts@.len(),
            tv == string_views(texts@),
            i <= n,
            forall|j: int| 0 <= j < i ==> mailbox_accepts(#[trigger] tv[j]),
        decreases n - i,
    {
        let t = &texts[i];
        assert(t@ == tv[i as int]);
        match parse_mailbox(t.as_str()) {
            Ok(_) => {},
            Err(e) => {
                proof {
                    lemma_first_rejected(tv, i as int);
                }
                return Err((t.clone(), e));
            },
        }
        i += 1;
    }
    proof {
        lemma_first_rejected(tv, n as int);
    }
    Ok(())
}

/// The message for a draft, checked with lettre (see [`outgoing_message`]).
///
/// The addresses are checked in order (the sender, then `To`, then `Cc`)
/// and the first one lettre rejects is the error; when all are accepted,
/// the message is the one `outgoing_message` gives for these arguments.
pub fn prepare_message(
    name: Option<&str>,
    username: &str,
    to: &[Address],
    cc: &[Address],
    subject: &str,
    body: &str,
    in_reply_to: Option<&str>,
) -> (r: Result<OutgoingMessage, OutgoingError>)
    ensures
        match address_failure(
            sender_text(crate::compose::opt_str(name), username@),
            header_texts(address_views(to@)),
            header_texts(address_views(cc@)),
        ) {
            Some(f) => r matches Err(e) && failure_of(e) == f,
            None => r matches Ok(m) && m@ == outgoing_spec(
                crate::compose::opt_str(name),
                username@,
                address_views(to@),
                address_views(cc@),
                subject@,
                body@,
                crate::compose::opt_str(in_reply_to),
            ),
        },
{
    let m = outgoing_message(name, username, to, cc, subject, body, in_reply_to);
    match parse_mailbox(m.from.as_str()) {
        Ok(_) => {},
        Err(e) => return Err(OutgoingError::InvalidFrom(e)),
    }
    match check_mailboxes(&m.to) {
        Ok(()) => {},
        Err((t, e)) => return Err(OutgoingError::InvalidTo(t, e)),
    }
    match check_mailboxes(&m.cc) {
        Ok(()) => {},
        Err((t, e)) => return Err(OutgoingError::InvalidCc(t, e)),
    }
    Ok(m)
}

proof fn lemma_none_rejected(texts: Seq<Seq<char>>)
    ensures
        first_rejected(texts) is None ==> all_accepted(texts),
    decreases texts.len(),
{
    if texts.len() > 0 {
        let rest = texts.subrange(1, texts.len() as int);
        lemma_none_rejected(rest);
        assert forall|i: int| 1 <= i < texts.len() implies texts[i] == rest[i - 1] by {}
    }
}

/// The lettre message for a draft: [`prepare_message`], then the message
/// lettre builds from it, kept together with that text.  When every
/// address is accepted, it is built exactly when there is at least one
/// recipient, and lettre's error is reported otherwise.
pub fn compose_message(
    name: Option<&str>,
    username: &str,
    to: &[Address],
    cc: &[Address],
    subject: &str,
    body: &str,
    in_reply_to: Option<&str>,
) -> (r: Result<BuiltMessage, OutgoingError>)
    ensures
        match address_failure(
            sender_text(crate::compose::opt_str(name), username@),
            header_texts(address_views(to@)),
            header_texts(address_views(cc@)),
        ) {
            Some(f) => r matches Err(e) && failure_of(e) == f,
            None => {
                &&& (r is Ok <==> to@.len() + cc@.len() > 0)
                &&& (r matches Ok(b) ==> b.content() == outgoing_spec(
                    crate::compose::opt_str(name),
                    username@,
                    address_views(to@),
                    address_views(cc@),
                    subject@,
                    body@,
                    crate::compose::opt_str(in_reply_to),
                ))
                &&& (r matches Err(e) ==> failure_of(e) == OutgoingFailure::Build)
            },
        },
{
    let m = match prepare_message(name, username, to, cc, subject, body, in_reply_to) {
        Ok(m) => m,
        Err(e) => return Err(e),
    };
    proof {
        lemma_none_rejected(header_texts(address_views(to@)));
        lemma_none_rejected(header_texts(address_views(cc@)));
    }
    match build_message(m) {
        Ok(b) => Ok(b),
        Err(e) => Err(OutgoingError::Build(e)),
    }
}

} // verus!

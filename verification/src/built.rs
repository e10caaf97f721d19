//! A lettre message sealed together with the text it was built from: the
//! only way to get one is [`build_message`], which builds the message from
//! that very text, so the text stands for what the message carries (its
//! `Date` header, which lettre takes from the clock, aside).
use crate::outgoing::{all_accepted, mailbox_accepts, OutgoingMessage, OutgoingView};
use crate::text::string_views;
use lettre::message::Mailbox as SmtpMailbox;
use vstd::prelude::*;

verus! {

/// A lettre message and the [`OutgoingMessage`] it was built from.
pub struct BuiltMessage {
    fields: OutgoingMessage,
    message: lettre::Message,
}

impl BuiltMessage {
    /// The text the message was built from.
    pub closed spec fn content(&self) -> OutgoingView {
        self.fields@
    }

    /// The lettre message itself.
    pub closed spec fn letter(&self) -> lettre::Message {
        self.message
    }

    /// The text the message was built from.
    pub fn fields(&self) -> (r: &OutgoingMessage)
        ensures
            r@ == self.content(),
    {
        &self.fields
    }

    /// The lettre message, ready to be handed to a transport.
    pub fn message(&self) -> (r: &lettre::Message)
        ensures
            *r == self.letter(),
    {
        &self.message
    }
}

/// Builds the lettre message for `m` and keeps it with `m`.
///
/// Trusted wrapper around `lettre::Message::builder` and the
/// `MessageBuilder` methods `from`, `to`, `cc`, `in_reply_to`, `subject`,
/// `header(ContentType::TEXT_PLAIN)` and `body`: each text of `m` is read
/// as a mailbox by `Mailbox::from_str` and put, in order, in the header of
/// the same name; the subject, `In-Reply-To` and body go in unchanged.
/// lettre's `build` (called by `body`) fails only without a `From`
/// mailbox, with more than one, or when the envelope gets no recipient from
/// `To`, `Cc` and `Bcc`; with the one sender set here, the message is built
/// exactly when `To` or `Cc` holds a mailbox.  The message is kept with
/// `m` itself, so [`BuiltMessage::content`] is `m`.
#[verifier::external_body]
pub(crate) fn build_message(m: OutgoingMessage) -> (r: Result<BuiltMessage, lettre::error::Error>)
    requires
        mailbox_accepts(m.from@),
        all_accepted(string_views(m.to@)),
        all_accepted(string_views(m.cc@)),
    ensures
        r is Ok <==> m@.to.len() + m@.cc.len() > 0,
        r matches Ok(b) ==> b.content() == m@,
{
    let mb = |s: &String| s.parse::<SmtpMailbox>().ok();
    let mut b = lettre::Message::builder().subject(m.subject.clone());
    if let Some(x) = mb(&m.from) { b = b.from(x); }
    for t in &m.to { if let Some(x) = mb(t) { b = b.to(x); } }
    for c in &m.cc { if let Some(x) = mb(c) { b = b.cc(x); } }
    if let Some(id) = &m.in_reply_to { b = b.in_reply_to(id.clone()); }
    let message = b.header(lettre::message::header::ContentType::TEXT_PLAIN).body(m.body.clone())?;
    Ok(BuiltMessage { fields: m, message })
}

} // verus!

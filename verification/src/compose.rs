//! Composing a message to send.
//!
//! The message itself is `lettre`'s work. What is put into it, and in which
//! order it is refused, is decided here.

use crate::ffon;
use crate::mime;
use crate::text;
use crate::types::BodyView;
use crate::types::MailBody;
use lettre::message::MessageBuilder;
use lettre::message::MultiPart;
use vstd::prelude::*;
use vstd::utf8::*;

verus! {

// ---------------------------------------------------------------------------
// What lettre does
// ---------------------------------------------------------------------------

/// A message being built, `lettre::message::MessageBuilder`.
#[verifier::external_type_specification]
#[verifier::external_body]
pub struct ExMessageBuilder(MessageBuilder);

/// The parts of a message being built, `lettre::message::MultiPart`.
#[verifier::external_type_specification]
#[verifier::external_body]
pub struct ExMultiPart(MultiPart);

/// The header fields of a message being built: the text of each, not yet
/// encoded, under its name.
pub uninterp spec fn builder_fields(b: MessageBuilder) -> Map<Seq<char>, Seq<char>>;

/// The parts of a body being built: the file name of each that has one, its
/// media type, and its data.
pub uninterp spec fn multipart_parts(m: MultiPart) -> Seq<(Option<Seq<char>>, Seq<char>, Seq<u8>)>;

/// What `lettre` says of `address` where it refuses it as a mailbox.
pub uninterp spec fn mailbox_error(address: Seq<char>) -> Option<Seq<char>>;

/// A field of mailboxes once `address` has been added to what it held.
pub uninterp spec fn mailboxes_with(prior: Option<Seq<char>>, address: Seq<char>) -> Seq<char>;

/// The sender and the recipients of a message with the fields `fields`, or why
/// it cannot be sent.
pub uninterp spec fn built_envelope(fields: Map<Seq<char>, Seq<char>>) -> Result<
    (Option<Seq<char>>, Seq<Seq<char>>),
    Seq<char>,
>;

/// A message that is one text of the type `media_type`.
///
/// `occasion` stands for what the other arguments leave open: when the message
/// was finished, in which order its fields were set, and the blanks that a
/// display name was written with at its edges.
pub uninterp spec fn plain_message(
    fields: Map<Seq<char>, Seq<char>>,
    media_type: Seq<char>,
    body: Seq<char>,
    occasion: Seq<char>,
) -> Seq<u8>;

/// A message of several parts, with `boundary` between them.
///
/// `occasion` stands for what the other arguments leave open: when the message
/// was finished, in which order its fields were set, the blanks that a display
/// name was written with at its edges, and the transfer encoding of the text,
/// which is chosen before its line breaks become CR LF.
pub uninterp spec fn mixed_message(
    fields: Map<Seq<char>, Seq<char>>,
    parts: Seq<(Option<Seq<char>>, Seq<char>, Seq<u8>)>,
    occasion: Seq<char>,
    boundary: Seq<char>,
) -> Seq<u8>;

/// Whether `s` is made of ASCII letters and digits, with single dots inside.
pub open spec fn plain_word(s: Seq<char>) -> bool {
    &&& s.len() > 0
    &&& s[0] != '.'
    &&& s.last() != '.'
    &&& forall|i: int|
        0 <= i < s.len() ==> {
            let c = #[trigger] s[i];
            ||| 'a' <= c <= 'z'
            ||| 'A' <= c <= 'Z'
            ||| '0' <= c <= '9'
            ||| (c == '.' && s[i - 1] != '.')
        }
}

/// Whether `a` is an address of the plainest kind, such as `me@example.com`.
pub open spec fn plain_address(a: Seq<char>) -> bool {
    exists|i: int|
        #![trigger a[i]]
        0 < i < a.len() && a[i] == '@' && i <= 64 && a.len() - i <= 64 && plain_word(a.take(i))
            && plain_word(a.skip(i + 1))
}

/// Whether `s` is made of ASCII letters, with single spaces inside.
pub open spec fn plain_name(s: Seq<char>) -> bool {
    &&& s.len() > 0
    &&& s[0] != ' '
    &&& s.last() != ' '
    &&& forall|i: int|
        0 <= i < s.len() ==> {
            let c = #[trigger] s[i];
            ||| 'a' <= c <= 'z'
            ||| 'A' <= c <= 'Z'
            ||| (c == ' ' && s[i - 1] != ' ')
        }
}

/// The address of the mailbox `m`: what stands between its angle brackets, if
/// it has any, else all of it.
pub open spec fn mailbox_address(m: Seq<char>) -> Seq<char> {
    match text::first_in(m, seq!['<']) {
        Some(i) => m.subrange(i + 1, m.len() - 1),
        None => m,
    }
}

/// Whether `m` is a mailbox of the plainest kind: an address, such as
/// `me@example.com`, or one with a name before it, such as
/// `Ann Lee <me@example.com>`.
pub open spec fn plain_mailbox(m: Seq<char>) -> bool {
    match text::first_in(m, seq!['<']) {
        Some(i) => {
            &&& 2 <= i
            &&& i + 2 < m.len()
            &&& plain_name(m.take(i - 1))
            &&& m[i - 1] == ' '
            &&& m.last() == '>'
            &&& plain_address(mailbox_address(m))
        },
        None => plain_address(m),
    }
}

/// Whether all of `list` are mailboxes of the plainest kind.
pub open spec fn plain_mailboxes(list: Seq<Seq<char>>) -> bool {
    forall|i: int| 0 <= i < list.len() ==> plain_mailbox(#[trigger] list[i])
}

/// The addresses of the mailboxes `list`.
pub open spec fn mailbox_addresses(list: Seq<Seq<char>>) -> Seq<Seq<char>> {
    Seq::new(list.len(), |i: int| mailbox_address(list[i]))
}

/// The field of mailboxes that holds the plain mailboxes `list`.
pub open spec fn address_list(list: Seq<Seq<char>>) -> Seq<char> {
    text::joined(list, ", "@)
}

/// No header fields.
pub open spec fn no_fields() -> Map<Seq<char>, Seq<char>> {
    Map::empty()
}

/// The field `name` of `fields`.
pub open spec fn field(fields: Map<Seq<char>, Seq<char>>, name: Seq<char>) -> Option<Seq<char>> {
    if fields.contains_key(name) {
        Some(fields[name])
    } else {
        None
    }
}

/// `fields` with `address` added to the field `name`.
pub open spec fn with_mailbox(
    fields: Map<Seq<char>, Seq<char>>,
    name: Seq<char>,
    address: Seq<char>,
) -> Map<Seq<char>, Seq<char>> {
    fields.insert(name, mailboxes_with(field(fields, name), address))
}

/// Whether a field that held `prior` and to which `address` was added holds
/// the plain mailboxes it should: where the address and those before it are
/// plain, they are followed by it.
pub open spec fn joined_plainly(prior: Option<Seq<char>>, address: Seq<char>, now: Seq<char>) -> bool {
    &&& prior is None && plain_mailbox(address) ==> now == address
    &&& forall|list: Seq<Seq<char>>|
        list.len() > 0 && plain_mailboxes(list) && prior == Some(#[trigger] address_list(list))
            && plain_mailbox(address) ==> now == address_list(list.push(address))
}

/// Whether `f` holds the plain mailboxes `list`; where there are none, there
/// is no field.
pub open spec fn holds(f: Option<Seq<char>>, list: Seq<Seq<char>>) -> bool {
    if list.len() == 0 {
        f is None
    } else {
        f == Some(address_list(list))
    }
}

/// Whether `fields` are of a message from one plain mailbox to others.
pub open spec fn plainly_addressed(
    fields: Map<Seq<char>, Seq<char>>,
    from: Seq<char>,
    to: Seq<Seq<char>>,
    cc: Seq<Seq<char>>,
    bcc: Seq<Seq<char>>,
) -> bool {
    &&& plain_mailbox(from)
    &&& plain_mailboxes(to)
    &&& plain_mailboxes(cc)
    &&& plain_mailboxes(bcc)
    &&& to.len() > 0
    &&& !fields.contains_key("Sender"@)
    &&& field(fields, "From"@) == Some(from)
    &&& holds(field(fields, "To"@), to)
    &&& holds(field(fields, "Cc"@), cc)
    &&& holds(field(fields, "Bcc"@), bcc)
}

/// A finished message.
#[derive(Debug)]
struct Built {
    raw: Vec<u8>,
    sender: Option<String>,
    recipients: Vec<String>,
}

/// Whether `b` was built with the sender and the recipients in `envelope`.
spec fn built_for(
    b: Built,
    envelope: Result<(Option<Seq<char>>, Seq<Seq<char>>), Seq<char>>,
) -> bool {
    envelope == Ok::<(Option<Seq<char>>, Seq<Seq<char>>), Seq<char>>(
        (
            match b.sender {
                Some(s) => Some(s@),
                None => None,
            },
            text::string_views(b.recipients@),
        ),
    )
}

/// Whether `r` is a message, where `fields` are those of one from a plain
/// mailbox to others, and has the address of the one as its sender and the
/// addresses of the others as its recipients.
spec fn delivers_plainly(r: Result<Built, String>, fields: Map<Seq<char>, Seq<char>>) -> bool {
    forall|from: Seq<char>, to: Seq<Seq<char>>, cc: Seq<Seq<char>>, bcc: Seq<Seq<char>>| #[trigger]
        plainly_addressed(fields, from, to, cc, bcc) ==> {
            &&& r matches Ok(built)
            &&& built.sender matches Some(sender)
            &&& sender@ == mailbox_address(from)
            &&& text::string_views(built.recipients@) == mailbox_addresses(to + cc + bcc)
        }
}

/// A message without header fields.
///
/// Calls `lettre::Message::builder`.
#[verifier::external_body]
fn new_message() -> (r: MessageBuilder)
    ensures
        builder_fields(r) == no_fields(),
{
    lettre::Message::builder()
}

/// Add `address` to the `From` field.
///
/// Calls `MessageBuilder::from` on what `lettre` parses `address` to. An
/// address is refused or added; a plain one, with or without a display name, is
/// added, as it is.
#[verifier::external_body]
fn add_from(b: MessageBuilder, address: &str) -> (r: Result<MessageBuilder, String>)
    ensures
        match r {
            Ok(n) => {
                &&& mailbox_error(address@) is None
                &&& builder_fields(n) == builder_fields(b).insert(
                    "From"@,
                    mailboxes_with(field(builder_fields(b), "From"@), address@),
                )
                &&& joined_plainly(
                    field(builder_fields(b), "From"@),
                    address@,
                    builder_fields(n)["From"@],
                )
            },
            Err(e) => mailbox_error(address@) == Some(e@) && !plain_mailbox(address@),
        },
{
    address.parse().map(|m| b.from(m)).map_err(|e: lettre::address::AddressError| e.to_string())
}

/// Add `address` to the `To` field.
///
/// Calls `MessageBuilder::to` on what `lettre` parses `address` to. An address
/// is refused or added; a plain one, with or without a display name, is added,
/// as it is, at the end.
#[verifier::external_body]
fn add_to(b: MessageBuilder, address: &str) -> (r: Result<MessageBuilder, String>)
    ensures
        match r {
            Ok(n) => {
                &&& mailbox_error(address@) is None
                &&& builder_fields(n) == builder_fields(b).insert(
                    "To"@,
                    mailboxes_with(field(builder_fields(b), "To"@), address@),
                )
                &&& joined_plainly(
                    field(builder_fields(b), "To"@),
                    address@,
                    builder_fields(n)["To"@],
                )
            },
            Err(e) => mailbox_error(address@) == Some(e@) && !plain_mailbox(address@),
        },
{
    address.parse().map(|m| b.to(m)).map_err(|e: lettre::address::AddressError| e.to_string())
}

/// Add `address` to the `Cc` field.
///
/// Calls `MessageBuilder::cc` on what `lettre` parses `address` to. An address
/// is refused or added; a plain one, with or without a display name, is added,
/// as it is, at the end.
#[verifier::external_body]
fn add_cc(b: MessageBuilder, address: &str) -> (r: Result<MessageBuilder, String>)
    ensures
        match r {
            Ok(n) => {
                &&& mailbox_error(address@) is None
                &&& builder_fields(n) == builder_fields(b).insert(
                    "Cc"@,
                    mailboxes_with(field(builder_fields(b), "Cc"@), address@),
                )
                &&& joined_plainly(
                    field(builder_fields(b), "Cc"@),
                    address@,
                    builder_fields(n)["Cc"@],
                )
            },
            Err(e) => mailbox_error(address@) == Some(e@) && !plain_mailbox(address@),
        },
{
    address.parse().map(|m| b.cc(m)).map_err(|e: lettre::address::AddressError| e.to_string())
}

/// Add `address` to the `Bcc` field.
///
/// Calls `MessageBuilder::bcc` on what `lettre` parses `address` to. An address
/// is refused or added; a plain one, with or without a display name, is added,
/// as it is, at the end.
#[verifier::external_body]
fn add_bcc(b: MessageBuilder, address: &str) -> (r: Result<MessageBuilder, String>)
    ensures
        match r {
            Ok(n) => {
                &&& mailbox_error(address@) is None
                &&& builder_fields(n) == builder_fields(b).insert(
                    "Bcc"@,
                    mailboxes_with(field(builder_fields(b), "Bcc"@), address@),
                )
                &&& joined_plainly(
                    field(builder_fields(b), "Bcc"@),
                    address@,
                    builder_fields(n)["Bcc"@],
                )
            },
            Err(e) => mailbox_error(address@) == Some(e@) && !plain_mailbox(address@),
        },
{
    address.parse().map(|m| b.bcc(m)).map_err(|e: lettre::address::AddressError| e.to_string())
}

/// Set the `Subject` field.
///
/// Calls `MessageBuilder::subject`.
#[verifier::external_body]
fn set_subject(b: MessageBuilder, subject: &str) -> (r: MessageBuilder)
    ensures
        builder_fields(r) == builder_fields(b).insert("Subject"@, subject@),
{
    b.subject(subject)
}

/// Finish a message that is one text of the type `media_type`.
///
/// Calls `MessageBuilder::header` with what `lettre` parses `media_type` to,
/// and `MessageBuilder::body`. Plain text in UTF-8 is a type that `lettre`
/// knows and writes so. The message is that of the fields, the type and the
/// text. A message from one plain mailbox to others has the address of the one
/// as its sender and the addresses of the others as its recipients.
#[verifier::external_body]
fn finish_plain(b: MessageBuilder, body: String, media_type: &str) -> (r: Result<Built, String>)
    requires
        media_type@ == "text/plain; charset=utf-8"@,
    ensures
        match r {
            Ok(built) => {
                &&& built_for(built, built_envelope(builder_fields(b)))
                &&& exists|occasion: Seq<char>|
                    built.raw@ == plain_message(builder_fields(b), media_type@, body@, occasion)
            },
            Err(e) => built_envelope(builder_fields(b)) matches Err(refusal) && refusal == e@,
        },
        delivers_plainly(r, builder_fields(b)),
{
    let kind = media_type.parse::<lettre::message::header::ContentType>();
    let b = b.header(kind.map_err(|e| e.to_string())?);
    let email = b.body(body).map_err(|e| e.to_string())?;
    Ok(
        Built {
            raw: email.formatted(),
            sender: email.envelope().from().map(|a| a.to_string()),
            recipients: email.envelope().to().iter().map(|a| a.to_string()).collect(),
        },
    )
}

/// Start a body of several parts with the text `body` of the type
/// `media_type`.
///
/// Calls `MultiPart::mixed` and `MultiPartBuilder::singlepart` with the
/// `SinglePart` of the text, whose line breaks become CR LF. Plain text in
/// UTF-8 is a type that `lettre` knows and writes so.
#[verifier::external_body]
fn text_part(body: String, media_type: &str) -> (r: Result<MultiPart, String>)
    requires
        media_type@ == "text/plain; charset=utf-8"@,
    ensures
        r is Ok,
        r matches Ok(m) ==> multipart_parts(m) == seq![text_part_of(body@, media_type@)],
{
    let part = lettre::message::SinglePart::builder();
    let kind = media_type.parse::<lettre::message::header::ContentType>();
    let part = part.header(kind.map_err(|e| e.to_string())?).body(body);
    Ok(MultiPart::mixed().singlepart(part))
}

/// Add the file `data`, called `filename`, to a body of several parts.
///
/// Calls `MultiPart::singlepart` with what `lettre::message::Attachment` makes
/// of the file. Bytes of no particular kind are of a type that `lettre` knows
/// and writes so.
#[verifier::external_body]
fn add_attachment(m: MultiPart, filename: &str, data: &[u8], media_type: &str) -> (r: Result<
    MultiPart,
    String,
>)
    requires
        media_type@ == "application/octet-stream"@,
    ensures
        r is Ok,
        r matches Ok(n) ==> multipart_parts(n) == multipart_parts(m).push(
            (Some(filename@), media_type@, data@),
        ),
{
    let file = lettre::message::Attachment::new(filename.to_string());
    let kind = media_type.parse::<lettre::message::header::ContentType>();
    kind.map(|kind| m.singlepart(file.body(data.to_vec(), kind))).map_err(|e| e.to_string())
}

/// Finish a message of several parts.
///
/// Calls `MessageBuilder::multipart`. The message is that of the fields and
/// the parts, with a boundary drawn at random. A message from one plain mailbox
/// to others has the address of the one as its sender and the addresses of the
/// others as its recipients.
#[verifier::external_body]
fn finish_mixed(b: MessageBuilder, m: MultiPart) -> (r: Result<Built, String>)
    ensures
        match r {
            Ok(built) => {
                &&& built_for(built, built_envelope(builder_fields(b)))
                &&& exists|occasion: Seq<char>, boundary: Seq<char>|
                    built.raw@ == mixed_message(
                        builder_fields(b),
                        multipart_parts(m),
                        occasion,
                        boundary,
                    )
            },
            Err(e) => built_envelope(builder_fields(b)) matches Err(refusal) && refusal == e@,
        },
        delivers_plainly(r, builder_fields(b)),
{
    let email = b.multipart(m).map_err(|e| e.to_string())?;
    Ok(
        Built {
            raw: email.formatted(),
            sender: email.envelope().from().map(|a| a.to_string()),
            recipients: email.envelope().to().iter().map(|a| a.to_string()).collect(),
        },
    )
}

/// `s` with a carriage return before each line feed that lacks one.
pub open spec fn with_crlf(s: Seq<char>) -> Seq<char>
    decreases s.len(),
{
    if s.len() == 0 {
        seq![]
    } else {
        let before = s.drop_last();
        if s.last() == '\n' && !(before.len() > 0 && before.last() == '\r') {
            with_crlf(before).push('\r').push('\n')
        } else {
            with_crlf(before).push(s.last())
        }
    }
}

/// The part that is the text `body` of the type `media_type`.
pub open spec fn text_part_of(body: Seq<char>, media_type: Seq<char>) -> (
    Option<Seq<char>>,
    Seq<char>,
    Seq<u8>,
) {
    (None, media_type, encode_utf8(with_crlf(body)))
}

// ---------------------------------------------------------------------------
// Composing
// ---------------------------------------------------------------------------

/// `fields` with each of `addresses` added to the field `name`.
pub open spec fn with_mailboxes(
    fields: Map<Seq<char>, Seq<char>>,
    name: Seq<char>,
    addresses: Seq<Seq<char>>,
) -> Map<Seq<char>, Seq<char>>
    decreases addresses.len(),
{
    if addresses.len() == 0 {
        fields
    } else {
        with_mailbox(
            with_mailboxes(fields, name, addresses.drop_last()),
            name,
            addresses.last(),
        )
    }
}

/// What is said of the first of `addresses` that is refused.
pub open spec fn first_refusal(addresses: Seq<Seq<char>>) -> Option<Seq<char>>
    decreases addresses.len(),
{
    if addresses.len() == 0 {
        None
    } else {
        match mailbox_error(addresses[0]) {
            Some(e) => Some(e),
            None => first_refusal(addresses.drop_first()),
        }
    }
}

/// The header fields of a message.
pub open spec fn draft(
    from: Seq<char>,
    to: Seq<Seq<char>>,
    cc: Seq<Seq<char>>,
    bcc: Seq<Seq<char>>,
    subject: Seq<char>,
) -> Map<Seq<char>, Seq<char>> {
    let sent = with_mailbox(no_fields(), "From"@, from);
    let addressed = with_mailboxes(
        with_mailboxes(with_mailboxes(sent, "To"@, to), "Cc"@, cc),
        "Bcc"@,
        bcc,
    );
    addressed.insert("Subject"@, subject)
}

/// The text that is sent for `body`: an FFON document is sent as its JSON.
pub open spec fn sent_text(body: BodyView) -> Result<Seq<char>, Seq<char>> {
    match body {
        BodyView::Text(s) => Ok(s),
        BodyView::Ffon(document) => ffon::ffon_json(document),
    }
}

/// The names and the data of `files`.
pub open spec fn file_views(files: Seq<(&str, &[u8])>) -> Seq<(Seq<char>, Seq<u8>)> {
    Seq::new(files.len(), |i: int| (files[i].0@, files[i].1@))
}

/// The parts of a message with the text `body` and `attachments`.
pub open spec fn parts_of(body: Seq<char>, attachments: Seq<(Seq<char>, Seq<u8>)>) -> Seq<
    (Option<Seq<char>>, Seq<char>, Seq<u8>),
> {
    seq![text_part_of(body, "text/plain; charset=utf-8"@)] + Seq::new(
        attachments.len(),
        |i: int|
            (Some(attachments[i].0), "application/octet-stream"@, attachments[i].1),
    )
}

/// Whether `raw` is the message with the fields `fields`, the text `body` and
/// `attachments`, on whatever occasion it was finished and however its parts
/// are separated.
pub open spec fn is_message(
    raw: Seq<u8>,
    fields: Map<Seq<char>, Seq<char>>,
    body: Seq<char>,
    attachments: Seq<(Seq<char>, Seq<u8>)>,
) -> bool {
    if attachments.len() == 0 {
        exists|occasion: Seq<char>|
            raw == plain_message(fields, "text/plain; charset=utf-8"@, body, occasion)
    } else {
        exists|occasion: Seq<char>, boundary: Seq<char>|
            raw == mixed_message(fields, parts_of(body, attachments), occasion, boundary)
    }
}

/// A message that is ready to be sent.
#[derive(Debug)]
pub struct Composed {
    pub raw: Vec<u8>,
    pub sender: String,
    pub recipients: Vec<String>,
}

/// Why a message with the fields `fields` and the body `body`, addressed to
/// `addresses`, cannot be composed.
pub open spec fn compose_error(
    addresses: Seq<Seq<char>>,
    fields: Map<Seq<char>, Seq<char>>,
    body: BodyView,
) -> Option<Seq<char>> {
    match first_refusal(addresses) {
        Some(e) => Some(e),
        None => match sent_text(body) {
            Err(e) => Some(e),
            Ok(_) => match built_envelope(fields) {
                Err(e) => Some(e),
                Ok((None, _)) => Some("the message has no sender"@),
                Ok((Some(_), _)) => None,
            },
        },
    }
}

proof fn lemma_first_refusal_concat(a: Seq<Seq<char>>, b: Seq<Seq<char>>)
    ensures
        first_refusal(a + b) == (match first_refusal(a) {
            Some(e) => Some(e),
            None => first_refusal(b),
        }),
    decreases a.len(),
{
    if a.len() == 0 {
        assert(a + b == b);
    } else {
        assert((a + b).drop_first() == a.drop_first() + b);
        lemma_first_refusal_concat(a.drop_first(), b);
    }
}

/// What is known of a field `name` to which `list` was added.
spec fn held(
    before: Map<Seq<char>, Seq<char>>,
    after: Map<Seq<char>, Seq<char>>,
    name: Seq<char>,
    list: Seq<Seq<char>>,
) -> bool {
    field(before, name) is None && plain_mailboxes(list) ==> holds(field(after, name), list)
}

proof fn lemma_held(
    before: Map<Seq<char>, Seq<char>>,
    prior: Map<Seq<char>, Seq<char>>,
    after: Map<Seq<char>, Seq<char>>,
    name: Seq<char>,
    list: Seq<Seq<char>>,
)
    requires
        list.len() > 0,
        held(before, prior, name, list.drop_last()),
        after == with_mailbox(prior, name, list.last()),
        joined_plainly(field(prior, name), list.last(), after[name]),
    ensures
        held(before, after, name, list),
{
    if field(before, name) is None && plain_mailboxes(list) {
        let shorter = list.drop_last();
        assert forall|i: int| 0 <= i < shorter.len() implies plain_mailbox(#[trigger] shorter[i]) by {
            assert(shorter[i] == list[i]);
        }
        assert(plain_mailbox(list[list.len() - 1]));
        assert(shorter.push(list.last()) == list);
        if shorter.len() == 0 {
            assert(list.len() == 1);
            assert(address_list(list) == list[0]);
        } else {
            assert(field(prior, name) == Some(address_list(shorter)));
        }
    }
}

fn add_all_to(b: MessageBuilder, addresses: &[&str]) -> (r: Result<MessageBuilder, String>)
    ensures
        match r {
            Ok(n) => {
                &&& first_refusal(text::str_views(addresses@)) is None
                &&& builder_fields(n) == with_mailboxes(
                    builder_fields(b),
                    "To"@,
                    text::str_views(addresses@),
                )
                &&& held(
                    builder_fields(b),
                    builder_fields(n),
                    "To"@,
                    text::str_views(addresses@),
                )
            },
            Err(e) => {
                &&& first_refusal(text::str_views(addresses@)) == Some(e@)
                &&& !plain_mailboxes(text::str_views(addresses@))
            },
        },
{
    let ghost all = text::str_views(addresses@);
    let ghost start = builder_fields(b);
    let mut b = b;
    let mut i: usize = 0;
    assert(all.skip(0) == all);
    while i < addresses.len()
        invariant
            i <= addresses@.len(),
            all == text::str_views(addresses@),
            first_refusal(all) == first_refusal(all.skip(i as int)),
            builder_fields(b) == with_mailboxes(start, "To"@, all.take(i as int)),
            held(start, builder_fields(b), "To"@, all.take(i as int)),
        decreases addresses@.len() - i,
    {
        assert(all.skip(i as int).drop_first() == all.skip(i + 1));
        assert(all.take(i + 1).drop_last() == all.take(i as int));
        assert(all[i as int] == addresses@[i as int]@);
        let ghost prior = builder_fields(b);
        match add_to(b, addresses[i]) {
            Ok(n) => b = n,
            Err(e) => return Err(e),
        }
        proof {
            lemma_held(start, prior, builder_fields(b), "To"@, all.take(i + 1));
        }
        i = i + 1;
    }
    assert(all.take(addresses@.len() as int) == all);
    Ok(b)
}

fn add_all_cc(b: MessageBuilder, addresses: &[&str]) -> (r: Result<MessageBuilder, String>)
    ensures
        match r {
            Ok(n) => {
                &&& first_refusal(text::str_views(addresses@)) is None
                &&& builder_fields(n) == with_mailboxes(
                    builder_fields(b),
                    "Cc"@,
                    text::str_views(addresses@),
                )
                &&& held(
                    builder_fields(b),
                    builder_fields(n),
                    "Cc"@,
                    text::str_views(addresses@),
                )
            },
            Err(e) => {
                &&& first_refusal(text::str_views(addresses@)) == Some(e@)
                &&& !plain_mailboxes(text::str_views(addresses@))
            },
        },
{
    let ghost all = text::str_views(addresses@);
    let ghost start = builder_fields(b);
    let mut b = b;
    let mut i: usize = 0;
    assert(all.skip(0) == all);
    while i < addresses.len()
        invariant
            i <= addresses@.len(),
            all == text::str_views(addresses@),
            first_refusal(all) == first_refusal(all.skip(i as int)),
            builder_fields(b) == with_mailboxes(start, "Cc"@, all.take(i as int)),
            held(start, builder_fields(b), "Cc"@, all.take(i as int)),
        decreases addresses@.len() - i,
    {
        assert(all.skip(i as int).drop_first() == all.skip(i + 1));
        assert(all.take(i + 1).drop_last() == all.take(i as int));
        assert(all[i as int] == addresses@[i as int]@);
        let ghost prior = builder_fields(b);
        match add_cc(b, addresses[i]) {
            Ok(n) => b = n,
            Err(e) => return Err(e),
        }
        proof {
            lemma_held(start, prior, builder_fields(b), "Cc"@, all.take(i + 1));
        }
        i = i + 1;
    }
    assert(all.take(addresses@.len() as int) == all);
    Ok(b)
}

fn add_all_bcc(b: MessageBuilder, addresses: &[&str]) -> (r: Result<MessageBuilder, String>)
    ensures
        match r {
            Ok(n) => {
                &&& first_refusal(text::str_views(addresses@)) is None
                &&& builder_fields(n) == with_mailboxes(
                    builder_fields(b),
                    "Bcc"@,
                    text::str_views(addresses@),
                )
                &&& held(
                    builder_fields(b),
                    builder_fields(n),
                    "Bcc"@,
                    text::str_views(addresses@),
                )
            },
            Err(e) => {
                &&& first_refusal(text::str_views(addresses@)) == Some(e@)
                &&& !plain_mailboxes(text::str_views(addresses@))
            },
        },
{
    let ghost all = text::str_views(addresses@);
    let ghost start = builder_fields(b);
    let mut b = b;
    let mut i: usize = 0;
    assert(all.skip(0) == all);
    while i < addresses.len()
        invariant
            i <= addresses@.len(),
            all == text::str_views(addresses@),
            first_refusal(all) == first_refusal(all.skip(i as int)),
            builder_fields(b) == with_mailboxes(start, "Bcc"@, all.take(i as int)),
            held(start, builder_fields(b), "Bcc"@, all.take(i as int)),
        decreases addresses@.len() - i,
    {
        assert(all.skip(i as int).drop_first() == all.skip(i + 1));
        assert(all.take(i + 1).drop_last() == all.take(i as int));
        assert(all[i as int] == addresses@[i as int]@);
        let ghost prior = builder_fields(b);
        match add_bcc(b, addresses[i]) {
            Ok(n) => b = n,
            Err(e) => return Err(e),
        }
        proof {
            lemma_held(start, prior, builder_fields(b), "Bcc"@, all.take(i + 1));
        }
        i = i + 1;
    }
    assert(all.take(addresses@.len() as int) == all);
    Ok(b)
}

/// The text that is sent for `body`. An FFON document is sent as its JSON, and
/// one of at most 63 levels reads back from it as the document it was.
pub fn body_text(body: &MailBody) -> (r: Result<String, String>)
    ensures
        match r {
            Ok(t) => sent_text(body@) == Ok::<Seq<char>, Seq<char>>(t@),
            Err(e) => sent_text(body@) == Err::<Seq<char>, Seq<char>>(e@),
        },
        body@ matches BodyView::Ffon(document) ==> ffon::depth(document) <= 63 ==> {
            &&& r matches Ok(t)
            &&& mime::promoted(t@) == BodyView::Ffon(document)
        },
{
    match body {
        MailBody::Text(s) => Ok(s.clone()),
        MailBody::Ffon(elems) => ffon::ffon_to_json(elems),
    }
}

fn add_attachments(m: MultiPart, attachments: &[(&str, &[u8])]) -> (r: Result<
    MultiPart,
    String,
>)
    ensures
        r matches Ok(n) && multipart_parts(n) == multipart_parts(m) + Seq::new(
            attachments@.len(),
            |i: int|
                (Some(attachments@[i].0@), "application/octet-stream"@, attachments@[i].1@),
        ),
{
    let ghost start = multipart_parts(m);
    let ghost added = Seq::new(
        attachments@.len(),
        |i: int| (Some(attachments@[i].0@), "application/octet-stream"@, attachments@[i].1@),
    );
    let mut m = m;
    let mut i: usize = 0;
    assert(start + added.take(0) == start);
    while i < attachments.len()
        invariant
            i <= attachments@.len(),
            added == Seq::new(
                attachments@.len(),
                |i: int|
                    (Some(attachments@[i].0@), "application/octet-stream"@, attachments@[i].1@),
            ),
            multipart_parts(m) == start + added.take(i as int),
        decreases attachments@.len() - i,
    {
        m = add_attachment(
            m,
            attachments[i].0,
            attachments[i].1,
            "application/octet-stream",
        )?;
        assert(added.take(i + 1) == added.take(i as int).push(added[i as int]));
        assert(multipart_parts(m) == start + added.take(i + 1));
        i = i + 1;
    }
    assert(added.take(attachments@.len() as int) == added);
    Ok(m)
}

fn build(
    b: MessageBuilder,
    body: String,
    attachments: &[(&str, &[u8])],
) -> (r: Result<Built, String>)
    ensures
        match r {
            Ok(built) => {
                &&& built_for(built, built_envelope(builder_fields(b)))
                &&& is_message(built.raw@, builder_fields(b), body@, file_views(attachments@))
            },
            Err(e) => built_envelope(builder_fields(b)) == Err::<
                (Option<Seq<char>>, Seq<Seq<char>>),
                Seq<char>,
            >(e@),
        },
        delivers_plainly(r, builder_fields(b)),
{
    if attachments.len() == 0 {
        finish_plain(b, body, "text/plain; charset=utf-8")
    } else {
        let ghost text = body@;
        let m = add_attachments(text_part(body, "text/plain; charset=utf-8")?, attachments)?;
        assert(multipart_parts(m) == parts_of(text, file_views(attachments@)));
        finish_mixed(b, m)
    }
}

proof fn lemma_field_names()
    ensures
        "From"@ != "To"@,
        "From"@ != "Cc"@,
        "From"@ != "Bcc"@,
        "From"@ != "Subject"@,
        "To"@ != "Cc"@,
        "To"@ != "Bcc"@,
        "To"@ != "Subject"@,
        "Cc"@ != "Bcc"@,
        "Cc"@ != "Subject"@,
        "Bcc"@ != "Subject"@,
        "Sender"@ != "From"@,
        "Sender"@ != "To"@,
        "Sender"@ != "Cc"@,
        "Sender"@ != "Bcc"@,
        "Sender"@ != "Subject"@,
{
    reveal_strlit("From");
    reveal_strlit("To");
    reveal_strlit("Cc");
    reveal_strlit("Bcc");
    reveal_strlit("Subject");
    reveal_strlit("Sender");
    assert("From"@.len() == 4);
    assert("To"@.len() == 2 && "To"@[0] == 'T');
    assert("Cc"@.len() == 2 && "Cc"@[0] == 'C');
    assert("Bcc"@.len() == 3);
    assert("Subject"@.len() == 7);
    assert("Sender"@.len() == 6);
}

proof fn lemma_other_fields(
    fields: Map<Seq<char>, Seq<char>>,
    name: Seq<char>,
    addresses: Seq<Seq<char>>,
    other: Seq<char>,
)
    requires
        other != name,
    ensures
        field(with_mailboxes(fields, name, addresses), other) == field(fields, other),
    decreases addresses.len(),
{
    if addresses.len() > 0 {
        lemma_other_fields(fields, name, addresses.drop_last(), other);
    }
}

/// Compose a message.
///
/// The first address that is refused is the reason why it cannot be composed,
/// in the order sender, `to`, `cc`, `bcc`; then a body that cannot be written;
/// then a message that cannot be sent. A message from a plain mailbox to
/// others, with or without display names, can be composed where its body can
/// be written, and it goes from the address of the one to the addresses of all
/// the others.
pub fn compose(
    from: &str,
    to: &[&str],
    cc: &[&str],
    bcc: &[&str],
    subject: &str,
    body: &MailBody,
    attachments: &[(&str, &[u8])],
) -> (r: Result<Composed, String>)
    ensures
        ({
            let fields = draft(
                from@,
                text::str_views(to@),
                text::str_views(cc@),
                text::str_views(bcc@),
                subject@,
            );
            let addresses = seq![from@] + text::str_views(to@) + text::str_views(cc@)
                + text::str_views(bcc@);
            match r {
                Ok(c) => {
                    &&& compose_error(addresses, fields, body@) is None
                    &&& built_envelope(fields) == Ok::<
                        (Option<Seq<char>>, Seq<Seq<char>>),
                        Seq<char>,
                    >((Some(c.sender@), text::string_views(c.recipients@)))
                    &&& sent_text(body@) matches Ok(t)
                    &&& is_message(c.raw@, fields, t, file_views(attachments@))
                },
                Err(e) => compose_error(addresses, fields, body@) == Some(e@),
            }
        }),
        plain_mailbox(from@) && to@.len() > 0 && plain_mailboxes(text::str_views(to@))
            && plain_mailboxes(text::str_views(cc@)) && plain_mailboxes(
            text::str_views(bcc@),
        ) && sent_text(body@) is Ok ==> {
            &&& r matches Ok(c)
            &&& c.sender@ == mailbox_address(from@)
            &&& text::string_views(c.recipients@) == mailbox_addresses(
                text::str_views(to@) + text::str_views(cc@) + text::str_views(bcc@),
            )
        },
{
    let ghost tos = text::str_views(to@);
    let ghost ccs = text::str_views(cc@);
    let ghost bccs = text::str_views(bcc@);
    proof {
        lemma_field_names();
        lemma_first_refusal_concat(seq![from@], tos);
        lemma_first_refusal_concat(seq![from@] + tos, ccs);
        lemma_first_refusal_concat(seq![from@] + tos + ccs, bccs);
        assert(seq![from@].drop_first() == Seq::<Seq<char>>::empty());
        reveal_with_fuel(first_refusal, 2);
    }
    let b0 = new_message();
    let b1 = add_from(b0, from)?;
    let b2 = add_all_to(b1, to)?;
    let b3 = add_all_cc(b2, cc)?;
    let b4 = add_all_bcc(b3, bcc)?;
    let b = set_subject(b4, subject);
    proof {
        lemma_other_fields(builder_fields(b1), "To"@, tos, "From"@);
        lemma_other_fields(builder_fields(b1), "To"@, tos, "Cc"@);
        lemma_other_fields(builder_fields(b1), "To"@, tos, "Bcc"@);
        lemma_other_fields(builder_fields(b1), "To"@, tos, "Sender"@);
        lemma_other_fields(builder_fields(b2), "Cc"@, ccs, "From"@);
        lemma_other_fields(builder_fields(b2), "Cc"@, ccs, "To"@);
        lemma_other_fields(builder_fields(b2), "Cc"@, ccs, "Bcc"@);
        lemma_other_fields(builder_fields(b2), "Cc"@, ccs, "Sender"@);
        lemma_other_fields(builder_fields(b3), "Bcc"@, bccs, "From"@);
        lemma_other_fields(builder_fields(b3), "Bcc"@, bccs, "To"@);
        lemma_other_fields(builder_fields(b3), "Bcc"@, bccs, "Cc"@);
        lemma_other_fields(builder_fields(b3), "Bcc"@, bccs, "Sender"@);
        if plain_mailbox(from@) && tos.len() > 0 && plain_mailboxes(tos) && plain_mailboxes(ccs)
            && plain_mailboxes(bccs) {
            assert(plainly_addressed(builder_fields(b), from@, tos, ccs, bccs));
        }
    }
    let text = body_text(body)?;
    let built = build(b, text, attachments)?;
    match built.sender {
        Some(sender) => Ok(Composed { raw: built.raw, sender, recipients: built.recipients }),
        None => Err("the message has no sender".to_owned()),
    }
}

// ---------------------------------------------------------------------------
// Laws
// ---------------------------------------------------------------------------

/// Whether `part` carries a file called `name` that holds `data`, of no
/// particular type.
pub open spec fn carries(
    part: (Option<Seq<char>>, Seq<char>, Seq<u8>),
    name: Seq<char>,
    data: Seq<u8>,
) -> bool {
    &&& part.0 == Some(name)
    &&& part.1 == "application/octet-stream"@
    &&& part.2 == data
}

/// Whether `raw` is made of `parts` and the header fields `fields`.
pub open spec fn is_made_of(
    raw: Seq<u8>,
    fields: Map<Seq<char>, Seq<char>>,
    parts: Seq<(Option<Seq<char>>, Seq<char>, Seq<u8>)>,
) -> bool {
    exists|occasion: Seq<char>, boundary: Seq<char>|
        raw == mixed_message(fields, parts, occasion, boundary)
}

/// A message that is composed with files has one part more than there are
/// files: the text first, as plain text in UTF-8 without a file name, and
/// after it every file, each under its name and with its data, in the order
/// they were given. One without files is the text alone, as it is.
pub proof fn law_every_file_is_a_part(
    raw: Seq<u8>,
    fields: Map<Seq<char>, Seq<char>>,
    body: Seq<char>,
    files: Seq<(&str, &[u8])>,
)
    requires
        is_message(raw, fields, body, file_views(files)),
    ensures
        files.len() > 0 ==> exists|parts: Seq<(Option<Seq<char>>, Seq<char>, Seq<u8>)>|
            {
                &&& #[trigger] is_made_of(raw, fields, parts)
                &&& parts.len() == files.len() + 1
                &&& parts[0].0 is None
                &&& parts[0].1 == "text/plain; charset=utf-8"@
                &&& parts[0].2 == encode_utf8(with_crlf(body))
                &&& forall|i: int|
                    0 <= i < files.len() ==> carries(
                        #[trigger] parts[i + 1],
                        files[i].0@,
                        files[i].1@,
                    )
            },
        files.len() == 0 ==> exists|occasion: Seq<char>|
            raw == plain_message(fields, "text/plain; charset=utf-8"@, body, occasion),
{
    if files.len() > 0 {
        let parts = parts_of(body, file_views(files));
        assert(is_made_of(raw, fields, parts));
        assert forall|i: int| 0 <= i < files.len() implies carries(
            #[trigger] parts[i + 1],
            files[i].0@,
            files[i].1@,
        ) by {
            assert(file_views(files)[i] == (files[i].0@, files[i].1@));
        }
    }
}

/// Line breaks of a text are sent as CR LF: a line feed gets a carriage return
/// before it where it has none, and nothing else changes.
pub proof fn law_line_feeds_get_carriage_returns(s: Seq<char>, c: char)
    ensures
        with_crlf(Seq::<char>::empty()) == Seq::<char>::empty(),
        c != '\n' ==> with_crlf(s.push(c)) == with_crlf(s).push(c),
        s.len() > 0 && s.last() == '\r' ==> with_crlf(s.push('\n')) == with_crlf(s).push('\n'),
        s.len() == 0 || s.last() != '\r' ==> with_crlf(s.push('\n')) == with_crlf(s).push('\r').push(
            '\n',
        ),
{
    assert(s.push(c).drop_last() == s);
    assert(s.push('\n').drop_last() == s);
}

/// A mailbox that is an address alone has that address, and one with a name
/// before the address in angle brackets has the address between them. Every
/// mailbox of a list has its own.
pub proof fn law_every_mailbox_has_its_address(
    list: Seq<Seq<char>>,
    i: int,
    name: Seq<char>,
    address: Seq<char>,
)
    requires
        0 <= i < list.len(),
        forall|k: int| 0 <= k < name.len() ==> (#[trigger] name[k]) != '<',
        forall|k: int| 0 <= k < address.len() ==> (#[trigger] address[k]) != '<',
    ensures
        mailbox_addresses(list).len() == list.len(),
        list[i] == address ==> mailbox_addresses(list)[i] == address,
        list[i] == name + " <"@ + address + ">"@ ==> mailbox_addresses(list)[i] == address,
{
    reveal_strlit(" <");
    reveal_strlit(">");
    let mark = seq!['<'];
    text::lemma_first_from(address, mark, 0);
    match text::first_in(address, mark) {
        Some(k) => {
            assert(address.subrange(k, k + 1)[0] == address[k]);
        },
        None => {},
    }
    let m = name + " <"@ + address + ">"@;
    let n = name.len() as int + 1;
    text::lemma_first_from(m, mark, 0);
    assert(m.subrange(n, n + 1) == mark);
    assert(text::occurs_at(m, mark, n));
    match text::first_in(m, mark) {
        Some(k) => {
            assert(m.subrange(k, k + 1)[0] == m[k]);
            if k < name.len() {
                assert(m[k] == name[k]);
            }
            assert(k == n);
        },
        None => {},
    }
    assert(m.subrange(n + 1, m.len() - 1) == address);
}

/// The header fields of a message: the subject is the one it was given, the
/// sender is in `From` alone, each list of recipients is in its own field, in
/// order, and a list that is empty makes no field. There are no other fields.
pub proof fn law_a_draft_holds_what_it_was_given(
    from: Seq<char>,
    to: Seq<Seq<char>>,
    cc: Seq<Seq<char>>,
    bcc: Seq<Seq<char>>,
    subject: Seq<char>,
    other: Seq<char>,
)
    ensures
        ({
            let fields = draft(from, to, cc, bcc, subject);
            &&& field(fields, "Subject"@) == Some(subject)
            &&& field(fields, "From"@) == Some(mailboxes_with(None, from))
            &&& field(fields, "To"@) == gathered(to)
            &&& field(fields, "Cc"@) == gathered(cc)
            &&& field(fields, "Bcc"@) == gathered(bcc)
            &&& other != "From"@ && other != "To"@ && other != "Cc"@ && other != "Bcc"@ && other
                != "Subject"@ ==> field(fields, other) is None
        }),
{
    lemma_field_names();
    let f0 = with_mailbox(no_fields(), "From"@, from);
    let f1 = with_mailboxes(f0, "To"@, to);
    let f2 = with_mailboxes(f1, "Cc"@, cc);
    let f3 = with_mailboxes(f2, "Bcc"@, bcc);
    lemma_other_fields(f0, "To"@, to, "From"@);
    lemma_other_fields(f0, "To"@, to, "Cc"@);
    lemma_other_fields(f0, "To"@, to, "Bcc"@);
    lemma_other_fields(f1, "Cc"@, cc, "From"@);
    lemma_other_fields(f1, "Cc"@, cc, "To"@);
    lemma_other_fields(f1, "Cc"@, cc, "Bcc"@);
    lemma_other_fields(f2, "Bcc"@, bcc, "From"@);
    lemma_other_fields(f2, "Bcc"@, bcc, "To"@);
    lemma_other_fields(f2, "Bcc"@, bcc, "Cc"@);
    lemma_gathered(f0, "To"@, to);
    lemma_gathered(f1, "Cc"@, cc);
    lemma_gathered(f2, "Bcc"@, bcc);
    if other != "From"@ && other != "To"@ && other != "Cc"@ && other != "Bcc"@ {
        lemma_other_fields(f0, "To"@, to, other);
        lemma_other_fields(f1, "Cc"@, cc, other);
        lemma_other_fields(f2, "Bcc"@, bcc, other);
    }
}

/// The field that holds the mailboxes `list`, each added to those before it.
pub open spec fn gathered(list: Seq<Seq<char>>) -> Option<Seq<char>>
    decreases list.len(),
{
    if list.len() == 0 {
        None
    } else {
        Some(mailboxes_with(gathered(list.drop_last()), list.last()))
    }
}

proof fn lemma_gathered(fields: Map<Seq<char>, Seq<char>>, name: Seq<char>, list: Seq<Seq<char>>)
    requires
        field(fields, name) is None,
    ensures
        field(with_mailboxes(fields, name, list), name) == gathered(list),
    decreases list.len(),
{
    if list.len() > 0 {
        lemma_gathered(fields, name, list.drop_last());
    }
}

/// Where an address is refused, what is said is what is said of the first that
/// is; where none is, nothing is said of them.
pub proof fn law_the_first_refusal_is_told(addresses: Seq<Seq<char>>, i: int)
    requires
        0 <= i <= addresses.len(),
        forall|j: int| 0 <= j < i ==> mailbox_error(#[trigger] addresses[j]) is None,
    ensures
        i < addresses.len() && mailbox_error(addresses[i]) is Some ==> first_refusal(addresses)
            == mailbox_error(addresses[i]),
        i == addresses.len() ==> first_refusal(addresses) is None,
    decreases addresses.len(),
{
    if addresses.len() > 0 && i > 0 {
        assert(mailbox_error(addresses[0]) is None);
        let rest = addresses.drop_first();
        assert forall|j: int| 0 <= j < i - 1 implies mailbox_error(#[trigger] rest[j]) is None by {
            assert(rest[j] == addresses[j + 1]);
        }
        law_the_first_refusal_is_told(rest, i - 1);
    }
}

/// A message can be composed exactly where no address of it is refused, its
/// body can be written, and it can be sent from someone; else it is told why
/// not, an address before the body and the body before the rest.
pub proof fn law_a_message_is_refused_for_a_reason(
    addresses: Seq<Seq<char>>,
    fields: Map<Seq<char>, Seq<char>>,
    body: BodyView,
)
    ensures
        first_refusal(addresses) is Some ==> compose_error(addresses, fields, body)
            == first_refusal(addresses),
        first_refusal(addresses) is None ==> {
            &&& sent_text(body) matches Err(e) ==> compose_error(addresses, fields, body) == Some(e)
            &&& sent_text(body) is Ok ==> {
                &&& built_envelope(fields) matches Err(e) ==> compose_error(addresses, fields, body)
                    == Some(e)
                &&& built_envelope(fields) matches Ok(envelope) ==> (compose_error(
                    addresses,
                    fields,
                    body,
                ) is None <==> envelope.0 is Some)
            }
        },
        body matches BodyView::Text(s) ==> sent_text(body) == Ok::<Seq<char>, Seq<char>>(s),
        body matches BodyView::Ffon(document) ==> sent_text(body) == ffon::ffon_json(document),
{
}

} // verus!

//! Message headers from what an IMAP server answers to a FETCH.

use crate::codec;
use crate::text;
use crate::types::HeaderView;
use crate::types::MessageHeader;
use vstd::prelude::*;
use vstd::utf8::*;

verus! {

/// One address of an envelope, as the server sent it.
#[derive(Debug, Clone)]
pub struct Address {
    pub name: Option<Vec<u8>>,
    pub adl: Option<Vec<u8>>,
    pub mailbox: Option<Vec<u8>>,
    pub host: Option<Vec<u8>>,
}

/// The parts of an envelope that a header shows.
#[derive(Debug, Clone)]
pub struct Envelope {
    pub date: Option<Vec<u8>>,
    pub subject: Option<Vec<u8>>,
    pub from: Option<Vec<Address>>,
    pub message_id: Option<Vec<u8>>,
}

/// A message flag.
#[derive(Debug, Clone)]
pub enum Flag {
    Seen,
    Answered,
    Flagged,
    Deleted,
    Draft,
    Recent,
    MayCreate,
    Custom(String),
}

/// One FETCH result.
#[derive(Debug, Clone)]
pub struct Fetch {
    pub uid: Option<u32>,
    pub envelope: Option<Envelope>,
    pub flags: Vec<Flag>,
    pub body: Option<Vec<u8>>,
}

/// The text of a field: nothing where it is missing or not UTF-8.
pub open spec fn field_text(field: Option<Vec<u8>>) -> Seq<char> {
    match field {
        Some(bytes) => if valid_utf8(bytes@) {
            decode_utf8(bytes@)
        } else {
            seq![]
        },
        None => seq![],
    }
}

/// `Name <mailbox@host>`, `mailbox@host`, or the name alone.
pub open spec fn address_text(addr: Address) -> Seq<char> {
    let name = field_text(addr.name);
    let mailbox = field_text(addr.mailbox);
    let host = field_text(addr.host);
    if mailbox.len() > 0 && host.len() > 0 {
        if name.len() > 0 {
            name + " <"@ + mailbox + "@"@ + host + ">"@
        } else {
            mailbox + "@"@ + host
        }
    } else {
        name
    }
}

/// The first of the addresses in `from`.
pub open spec fn sender_text(from: Option<Vec<Address>>) -> Seq<char> {
    match from {
        Some(addrs) => if addrs@.len() > 0 {
            address_text(addrs@[0])
        } else {
            seq![]
        },
        None => seq![],
    }
}

/// The header that `m` gives: none without a UID or an envelope.
pub open spec fn header_of(m: Fetch) -> Option<HeaderView> {
    match (m.uid, m.envelope) {
        (Some(uid), Some(env)) => Some(
            HeaderView {
                uid,
                from: sender_text(env.from),
                subject: field_text(env.subject),
                date: field_text(env.date),
                seen: exists|i: int| 0 <= i < m.flags@.len() && (#[trigger] m.flags@[i]) is Seen,
                flagged: exists|i: int|
                    0 <= i < m.flags@.len() && (#[trigger] m.flags@[i]) is Flagged,
                message_id: field_text(env.message_id),
            },
        ),
        _ => None,
    }
}

/// The headers that `fetched` give, in order.
pub open spec fn headers_of(fetched: Seq<Fetch>) -> Seq<HeaderView>
    decreases fetched.len(),
{
    if fetched.len() == 0 {
        seq![]
    } else {
        match header_of(fetched.last()) {
            Some(h) => headers_of(fetched.drop_last()).push(h),
            None => headers_of(fetched.drop_last()),
        }
    }
}

fn text_of(field: &Option<Vec<u8>>) -> (r: String)
    ensures
        r@ == field_text(*field),
{
    match field {
        Some(bytes) => match codec::from_utf8(bytes) {
            Some(s) => s,
            None => String::new(),
        },
        None => String::new(),
    }
}

/// Format an IMAP address as `Name <mailbox@host>` or `mailbox@host`.
pub fn format_address(addr: &Address) -> (r: String)
    ensures
        r@ == address_text(*addr),
{
    let name = text::chars(&text_of(&addr.name));
    let mailbox = text::chars(&text_of(&addr.mailbox));
    let host = text::chars(&text_of(&addr.host));
    if name.len() > 0 && mailbox.len() > 0 && host.len() > 0 {
        let mut out = name;
        text::extend_str(&mut out, " <");
        text::extend(&mut out, &mailbox);
        text::extend_str(&mut out, "@");
        text::extend(&mut out, &host);
        text::extend_str(&mut out, ">");
        text::string(&out)
    } else if mailbox.len() > 0 && host.len() > 0 {
        let mut out = mailbox;
        text::extend_str(&mut out, "@");
        text::extend(&mut out, &host);
        text::string(&out)
    } else {
        text::string(&name)
    }
}

fn has_seen(flags: &Vec<Flag>) -> (r: bool)
    ensures
        r == exists|i: int| 0 <= i < flags@.len() && (#[trigger] flags@[i]) is Seen,
{
    let mut i: usize = 0;
    while i < flags.len()
        invariant
            i <= flags@.len(),
            forall|k: int| 0 <= k < i ==> !((#[trigger] flags@[k]) is Seen),
        decreases flags@.len() - i,
    {
        if let Flag::Seen = &flags[i] {
            return true;
        }
        i = i + 1;
    }
    false
}

fn has_flagged(flags: &Vec<Flag>) -> (r: bool)
    ensures
        r == exists|i: int| 0 <= i < flags@.len() && (#[trigger] flags@[i]) is Flagged,
{
    let mut i: usize = 0;
    while i < flags.len()
        invariant
            i <= flags@.len(),
            forall|k: int| 0 <= k < i ==> !((#[trigger] flags@[k]) is Flagged),
        decreases flags@.len() - i,
    {
        if let Flag::Flagged = &flags[i] {
            return true;
        }
        i = i + 1;
    }
    false
}

/// Convert one FETCH result into a header, or `None` if it lacks the UID or
/// the envelope.
pub fn parse_fetch_to_header(m: &Fetch) -> (r: Option<MessageHeader>)
    ensures
        match r {
            Some(h) => header_of(*m) == Some(h@),
            None => header_of(*m) is None,
        },
{
    match (&m.uid, &m.envelope) {
        (Some(uid), Some(env)) => {
            let from = match &env.from {
                Some(addrs) => if addrs.len() > 0 {
                    format_address(&addrs[0])
                } else {
                    String::new()
                },
                None => String::new(),
            };
            let h = MessageHeader {
                uid: *uid,
                from,
                subject: text_of(&env.subject),
                date: text_of(&env.date),
                seen: has_seen(&m.flags),
                flagged: has_flagged(&m.flags),
                message_id: text_of(&env.message_id),
            };
            assert(header_of(*m)->0 == h@);
            Some(h)
        },
        _ => None,
    }
}

/// The headers that `fetched` give, in order.
pub fn parse_headers(fetched: &Vec<Fetch>) -> (r: Vec<MessageHeader>)
    ensures
        crate::types::header_views(r@) == headers_of(fetched@),
{
    let mut out: Vec<MessageHeader> = Vec::new();
    let mut i: usize = 0;
    assert(crate::types::header_views(out@) == headers_of(fetched@.take(0)));
    while i < fetched.len()
        invariant
            i <= fetched@.len(),
            crate::types::header_views(out@) == headers_of(fetched@.take(i as int)),
        decreases fetched@.len() - i,
    {
        assert(fetched@.take(i + 1).drop_last() == fetched@.take(i as int));
        let ghost before = out@;
        if let Some(h) = parse_fetch_to_header(&fetched[i]) {
            out.push(h);
            assert(crate::types::header_views(out@) == crate::types::header_views(before).push(h@));
        }
        i = i + 1;
    }
    assert(fetched@.take(fetched@.len() as int) == fetched@);
    out
}

// ---------------------------------------------------------------------------
// Laws
// ---------------------------------------------------------------------------

/// A header is seen exactly where `\Seen` is among the flags of its fetch
/// result, and flagged exactly where `\Flagged` is, each whatever other flags
/// stand beside it.
pub proof fn law_flags_are_read_each_on_its_own(m: Fetch, h: HeaderView)
    requires
        header_of(m) == Some(h),
    ensures
        h.seen ==> exists|i: int| 0 <= i < m.flags@.len() && (#[trigger] m.flags@[i]) is Seen,
        h.flagged ==> exists|i: int| 0 <= i < m.flags@.len() && (#[trigger] m.flags@[i]) is Flagged,
        forall|i: int|
            0 <= i < m.flags@.len() && (#[trigger] m.flags@[i]) is Seen ==> h.seen,
        forall|i: int|
            0 <= i < m.flags@.len() && (#[trigger] m.flags@[i]) is Flagged ==> h.flagged,
{
}

/// A flag more changes nothing in a header but what it says itself: of two
/// fetch results that differ by the flag `f` alone, the headers differ at most
/// in whether they are seen, where `f` is `\Seen`, or flagged, where it is
/// `\Flagged`.
pub proof fn law_another_flag_changes_nothing_else(m: Fetch, more: Fetch, k: int, f: Flag)
    requires
        more.uid == m.uid,
        more.envelope == m.envelope,
        0 <= k <= m.flags@.len(),
        more.flags@ == m.flags@.insert(k, f),
    ensures
        header_of(more) is Some <==> header_of(m) is Some,
        header_of(m) matches Some(h) ==> {
            let g = header_of(more)->0;
            &&& g.uid == h.uid
            &&& g.from == h.from
            &&& g.subject == h.subject
            &&& g.date == h.date
            &&& g.message_id == h.message_id
            &&& g.seen == (h.seen || f is Seen)
            &&& g.flagged == (h.flagged || f is Flagged)
        },
{
    let a = m.flags@;
    let b = more.flags@;
    assert(b[k] == f);
    if let Some(h) = header_of(m) {
        let g = header_of(more)->0;
        if h.seen {
            let i = choose|i: int| 0 <= i < a.len() && (#[trigger] a[i]) is Seen;
            if i < k {
                assert(b[i] is Seen);
            } else {
                assert(b[i + 1] is Seen);
            }
        }
        if h.flagged {
            let i = choose|i: int| 0 <= i < a.len() && (#[trigger] a[i]) is Flagged;
            if i < k {
                assert(b[i] is Flagged);
            } else {
                assert(b[i + 1] is Flagged);
            }
        }
        if g.seen {
            let j = choose|j: int| 0 <= j < b.len() && (#[trigger] b[j]) is Seen;
            if j < k {
                assert(a[j] is Seen);
            } else if j > k {
                assert(a[j - 1] is Seen);
            }
        }
        if g.flagged {
            let j = choose|j: int| 0 <= j < b.len() && (#[trigger] b[j]) is Flagged;
            if j < k {
                assert(a[j] is Flagged);
            } else if j > k {
                assert(a[j - 1] is Flagged);
            }
        }
    }
}

/// Whether `field` is how a server sends the text `s`.
pub open spec fn sends(field: Option<Vec<u8>>, s: Seq<char>) -> bool {
    field matches Some(bytes) && bytes@ == encode_utf8(s)
}

/// A fetch result with a UID and an envelope has a header, and one that lacks
/// either has none. The header has the UID, and the subject, the date and the
/// Message-ID that the server sent, and nothing where it sent none or what is
/// not text.
pub proof fn law_a_header_is_what_the_server_sent(
    m: Fetch,
    subject: Seq<char>,
    date: Seq<char>,
    message_id: Seq<char>,
)
    ensures
        header_of(m) is Some <==> m.uid is Some && m.envelope is Some,
        header_of(m) matches Some(h) ==> {
            let env = m.envelope->0;
            &&& Some(h.uid) == m.uid
            &&& sends(env.subject, subject) ==> h.subject == subject
            &&& sends(env.date, date) ==> h.date == date
            &&& sends(env.message_id, message_id) ==> h.message_id == message_id
            &&& env.subject is None || !valid_utf8(env.subject->0@) ==> h.subject.len() == 0
            &&& env.date is None || !valid_utf8(env.date->0@) ==> h.date.len() == 0
            &&& env.message_id is None || !valid_utf8(env.message_id->0@) ==> h.message_id.len()
                == 0
        },
{
    encode_utf8_decode_utf8(subject);
    encode_utf8_decode_utf8(date);
    encode_utf8_decode_utf8(message_id);
    encode_utf8_valid_utf8(subject);
    encode_utf8_valid_utf8(date);
    encode_utf8_valid_utf8(message_id);
}

/// The sender of a header is the first address of the envelope: its name
/// before its address in angle brackets, or the address alone where it has no
/// name. Where it has no whole address it is the name, and without an address
/// it is nothing. No address after the first matters.
pub proof fn law_the_sender_is_the_first_address(
    m: Fetch,
    h: HeaderView,
    name: Seq<char>,
    mailbox: Seq<char>,
    host: Seq<char>,
)
    requires
        header_of(m) == Some(h),
    ensures
        (m.envelope->0.from is None || m.envelope->0.from->0@.len() == 0) ==> h.from.len() == 0,
        (m.envelope->0.from matches Some(addrs) && addrs@.len() > 0 && sends(
            addrs@[0].mailbox,
            mailbox,
        ) && sends(addrs@[0].host, host) && mailbox.len() > 0 && host.len() > 0) ==> {
            let name_bytes = m.envelope->0.from->0@[0].name;
            &&& name_bytes is None ==> h.from == mailbox + "@"@ + host
            &&& sends(name_bytes, name) && name.len() > 0 ==> h.from == name + " <"@ + (mailbox
                + "@"@ + host) + ">"@
            &&& sends(name_bytes, name) && name.len() == 0 ==> h.from == mailbox + "@"@ + host
        },
        (m.envelope->0.from matches Some(addrs) && addrs@.len() > 0 && (addrs@[0].mailbox is None
            || addrs@[0].host is None) && sends(addrs@[0].name, name)) ==> h.from == name,
{
    encode_utf8_decode_utf8(name);
    encode_utf8_decode_utf8(mailbox);
    encode_utf8_decode_utf8(host);
    encode_utf8_valid_utf8(name);
    encode_utf8_valid_utf8(mailbox);
    encode_utf8_valid_utf8(host);
    assert(name + " <"@ + (mailbox + "@"@ + host) + ">"@ == name + " <"@ + mailbox + "@"@ + host
        + ">"@);
}

/// Headers come in the order of the fetch results they are of, each on its
/// own: none is lost but that of a result without a UID or an envelope.
pub proof fn law_every_fetch_result_has_its_header(before: Seq<Fetch>, m: Fetch, after: Seq<Fetch>)
    ensures
        headers_of(before + seq![m] + after) == headers_of(before) + headers_of(seq![m])
            + headers_of(after),
        headers_of(Seq::<Fetch>::empty()) == Seq::<HeaderView>::empty(),
        m.uid is Some && m.envelope is Some ==> {
            &&& headers_of(seq![m]).len() == 1
            &&& header_of(m) == Some(headers_of(seq![m])[0])
        },
        m.uid is None || m.envelope is None ==> headers_of(seq![m]).len() == 0,
{
    lemma_headers_concat(before, seq![m]);
    lemma_headers_concat(before + seq![m], after);
    assert(seq![m].drop_last() == Seq::<Fetch>::empty());
    assert(headers_of(seq![m].drop_last()) == Seq::<HeaderView>::empty());
}

proof fn lemma_headers_concat(a: Seq<Fetch>, b: Seq<Fetch>)
    ensures
        headers_of(a + b) == headers_of(a) + headers_of(b),
    decreases b.len(),
{
    if b.len() == 0 {
        assert(a + b == a);
        assert(headers_of(b) == Seq::<HeaderView>::empty());
    } else {
        assert((a + b).drop_last() == a + b.drop_last());
        assert((a + b).last() == b.last());
        lemma_headers_concat(a, b.drop_last());
    }
}

} // verus!

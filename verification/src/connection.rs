//! Connecting: addresses, transports and signing in.

use crate::text;
use crate::types::EmailClientConfig;
use vstd::prelude::*;
use vstd::slice::slice_subrange;

verus! {

// ---------------------------------------------------------------------------
// Addresses
// ---------------------------------------------------------------------------

/// The host and port of `rest`, what follows the scheme of an address: what
/// stands before and after its last colon. Without a colon all of it is the
/// host.
pub open spec fn host_and_port(rest: Seq<char>, default_port: u16) -> Option<(Seq<char>, u16)> {
    match text::last_index(rest, ':') {
        Some(colon) => match text::number_value(rest.skip(colon + 1)) {
            Some(port) => if port <= u16::MAX {
                Some((rest.take(colon), port as u16))
            } else {
                None
            },
            None => None,
        },
        None => Some((rest, default_port)),
    }
}

/// The host and port of `url`, which starts with `secure` or else `plain`.
pub open spec fn url_parts(
    url: Seq<char>,
    secure: Seq<char>,
    secure_port: u16,
    plain: Seq<char>,
    plain_port: u16,
) -> Option<(Seq<char>, u16)> {
    if text::begins(url, secure) {
        host_and_port(url.skip(secure.len() as int), secure_port)
    } else if text::begins(url, plain) {
        host_and_port(url.skip(plain.len() as int), plain_port)
    } else {
        None
    }
}

/// The host and port of an IMAP address.
pub open spec fn imap_url(url: Seq<char>) -> Option<(Seq<char>, u16)> {
    url_parts(url, "imaps://"@, 993, "imap://"@, 143)
}

fn split_port(rest: &[char], default_port: u16) -> (r: Option<(String, u16)>)
    ensures
        match r {
            Some(p) => host_and_port(rest@, default_port) == Some((p.0@, p.1)),
            None => host_and_port(rest@, default_port) is None,
        },
{
    let n = rest.len();
    match text::rfind_char(rest, ':') {
        Some(colon) => {
            let digits = slice_subrange(rest, colon + 1, n);
            assert(digits@ == rest@.skip(colon + 1));
            match text::parse_number(digits, 0xffff) {
                Some(port) => {
                    let host = slice_subrange(rest, 0, colon);
                    assert(host@ == rest@.take(colon as int));
                    Some((text::string(host), port as u16))
                },
                None => None,
            }
        },
        None => Some((text::string(rest), default_port)),
    }
}

pub(crate) fn parse_url(
    url: &str,
    secure: &str,
    secure_port: u16,
    plain: &str,
    plain_port: u16,
) -> (r: Option<(String, u16)>)
    ensures
        match r {
            Some(p) => url_parts(url@, secure@, secure_port, plain@, plain_port) == Some(
                (p.0@, p.1),
            ),
            None => url_parts(url@, secure@, secure_port, plain@, plain_port) is None,
        },
{
    let all = text::chars(url);
    match text::strip_prefix(&all, secure) {
        Some(rest) => split_port(rest, secure_port),
        None => match text::strip_prefix(&all, plain) {
            Some(rest) => split_port(rest, plain_port),
            None => None,
        },
    }
}

/// Parse `imaps://host` or `imaps://host:port` into the host and the port.
pub fn parse_imap_url(url: &str) -> (r: Option<(String, u16)>)
    ensures
        match r {
            Some(p) => imap_url(url@) == Some((p.0@, p.1)),
            None => imap_url(url@) is None,
        },
{
    parse_url(url, "imaps://", 993, "imap://", 143)
}

// ---------------------------------------------------------------------------
// Signing in
// ---------------------------------------------------------------------------

/// The raw XOAUTH2 SASL initial response.
pub open spec fn xoauth2_text(user: Seq<char>, token: Seq<char>) -> Seq<char> {
    "user="@ + user + "\x01auth=Bearer "@ + token + "\x01\x01"@
}

/// The raw XOAUTH2 SASL initial response.
///
/// Kept in one place because both protocols send it, and servers reject any
/// deviation.
pub fn xoauth2_payload(user: &str, token: &str) -> (r: String)
    ensures
        r@ == xoauth2_text(user@, token@),
{
    let mut out = text::chars("user=");
    text::extend_str(&mut out, user);
    text::extend_str(&mut out, "\x01auth=Bearer ");
    text::extend_str(&mut out, token);
    text::extend_str(&mut out, "\x01\x01");
    text::string(&out)
}

/// The XOAUTH2 SASL mechanism.
#[derive(Debug, Clone)]
pub struct XOAuth2Auth {
    pub user: String,
    pub token: String,
}

impl XOAuth2Auth {
    /// The answer to any challenge: the raw initial response, not yet base64.
    pub fn process(&self, challenge: &[u8]) -> (r: String)
        ensures
            r@ == xoauth2_text(self.user@, self.token@),
    {
        xoauth2_payload(self.user.as_str(), self.token.as_str())
    }
}

/// `s` with each `\` and `"` escaped by a `\`.
pub open spec fn escaped(s: Seq<char>) -> Seq<char>
    decreases s.len(),
{
    if s.len() == 0 {
        seq![]
    } else if s.last() == '\\' || s.last() == '"' {
        escaped(s.drop_last()).push('\\').push(s.last())
    } else {
        escaped(s.drop_last()).push(s.last())
    }
}

/// `s` as a quoted IMAP string.
pub open spec fn quoted(s: Seq<char>) -> Seq<char> {
    seq!['"'] + escaped(s) + seq!['"']
}

/// Quote an IMAP astring, escaping `\` and `"`.
pub fn quote(s: &str) -> (r: String)
    ensures
        r@ == quoted(s@),
{
    let s = text::chars(s);
    let mut out: Vec<char> = Vec::new();
    out.push('"');
    let mut i: usize = 0;
    assert(seq!['"'] + escaped(s@.take(0)) == seq!['"']);
    while i < s.len()
        invariant
            i <= s@.len(),
            out@ == seq!['"'] + escaped(s@.take(i as int)),
        decreases s@.len() - i,
    {
        assert(s@.take(i + 1).drop_last() == s@.take(i as int));
        if s[i] == '\\' || s[i] == '"' {
            out.push('\\');
        }
        out.push(s[i]);
        assert(out@ == seq!['"'] + escaped(s@.take(i + 1)));
        i = i + 1;
    }
    assert(s@.take(s@.len() as int) == s@);
    out.push('"');
    assert(out@ == quoted(s@));
    text::string(&out)
}

/// How a session signs in.
#[derive(Debug, Clone)]
pub enum Login {
    Password { username: String, password: String },
    XOAuth2(XOAuth2Auth),
}

/// How a session signs in.
pub enum LoginView {
    Password(Seq<char>, Seq<char>),
    XOAuth2(Seq<char>, Seq<char>),
}

impl View for Login {
    type V = LoginView;

    open spec fn view(&self) -> LoginView {
        match self {
            Login::Password { username, password } => LoginView::Password(username@, password@),
            Login::XOAuth2(auth) => LoginView::XOAuth2(auth.user@, auth.token@),
        }
    }
}

/// The account's way to sign in: XOAUTH2 where it has an access token, its
/// password otherwise.
pub open spec fn login_of(config: EmailClientConfig) -> LoginView {
    if config.oauth_access_token@.len() == 0 {
        LoginView::Password(config.username@, config.password@)
    } else {
        LoginView::XOAuth2(config.username@, config.oauth_access_token@)
    }
}

/// The account's way to sign in.
pub fn login_for(config: &EmailClientConfig) -> (r: Login)
    ensures
        r@ == login_of(*config),
{
    if text::chars(config.oauth_access_token.as_str()).len() == 0 {
        Login::Password { username: config.username.clone(), password: config.password.clone() }
    } else {
        Login::XOAuth2(
            XOAuth2Auth {
                user: config.username.clone(),
                token: config.oauth_access_token.clone(),
            },
        )
    }
}

/// Where to connect and how to sign in there.
#[derive(Debug, Clone)]
pub struct ConnectPlan {
    /// The server's address as it was given.
    pub url: String,
    pub host: String,
    pub port: u16,
    pub login: Login,
}

/// Whether `r` is how to open an authenticated IMAP session from `config`, or
/// why that cannot be.
pub open spec fn is_plan(r: Result<ConnectPlan, String>, config: EmailClientConfig) -> bool {
    match r {
        Ok(plan) => {
            &&& plan.url@ == config.imap_url@
            &&& imap_url(config.imap_url@) == Some((plan.host@, plan.port))
            &&& plan.login@ == login_of(config)
        },
        Err(e) => {
            &&& imap_url(config.imap_url@) is None
            &&& e@ == "cannot parse IMAP URL: "@ + config.imap_url@
        },
    }
}

/// How to open an authenticated IMAP session from `config`.
pub fn connect_plan(config: &EmailClientConfig) -> (r: Result<ConnectPlan, String>)
    ensures
        is_plan(r, *config),
{
    match parse_imap_url(config.imap_url.as_str()) {
        Some((host, port)) => {
            Ok(ConnectPlan { url: config.imap_url.clone(), host, port, login: login_for(config) })
        },
        None => {
            let mut out = text::chars("cannot parse IMAP URL: ");
            text::extend_str(&mut out, config.imap_url.as_str());
            Err(text::string(&out))
        },
    }
}

// ---------------------------------------------------------------------------
// Transports
// ---------------------------------------------------------------------------

/// What carries a session.
#[derive(Debug, PartialEq, Eq, Structural, Clone, Copy)]
pub enum Transport {
    /// TLS, verified for the host.
    Tls,
    /// In the clear.
    Plain,
}

/// Whether all the addresses of which `loopback` tells are loopback addresses.
pub open spec fn is_local(loopback: Seq<bool>) -> bool {
    forall|i: int| 0 <= i < loopback.len() ==> #[trigger] loopback[i]
}

/// The transport for `url`, whose host resolved to addresses of which
/// `loopback` says whether each is a loopback address.
///
/// `imaps://` is always TLS. Anything else stays in the clear and is only
/// permitted when every address is loopback, so that credentials never leave
/// the machine in the clear.
pub fn choose_transport(url: &str, host: &str, loopback: &Vec<bool>) -> (r: Result<Transport, String>)
    ensures
        text::begins(url@, "imaps://"@) ==> r == Ok::<Transport, String>(Transport::Tls),
        !text::begins(url@, "imaps://"@) ==> match r {
            Ok(t) => {
                &&& t == Transport::Plain
                &&& forall|i: int| 0 <= i < loopback@.len() ==> loopback@[i]
            },
            Err(e) => {
                &&& exists|i: int| 0 <= i < loopback@.len() && !loopback@[i]
                &&& e@ == "refusing to send IMAP credentials in the clear to "@ + host@
                    + "; use imaps://"@
            },
        },
        !text::begins(url@, "imaps://"@) ==> (r is Ok <==> is_local(loopback@)),
{
    if text::starts_with(&text::chars(url), "imaps://") {
        return Ok(Transport::Tls);
    }
    let mut i: usize = 0;
    while i < loopback.len()
        invariant
            i <= loopback@.len(),
            !text::begins(url@, "imaps://"@),
            forall|k: int| 0 <= k < i ==> loopback@[k],
        decreases loopback@.len() - i,
    {
        if !loopback[i] {
            let mut out = text::chars("refusing to send IMAP credentials in the clear to ");
            text::extend_str(&mut out, host);
            text::extend_str(&mut out, "; use imaps://");
            return Err(text::string(&out));
        }
        i = i + 1;
    }
    Ok(Transport::Plain)
}

/// `host:port`.
pub open spec fn authority(host: Seq<char>, port: u16) -> Seq<char> {
    host + ":"@ + text::decimal(port as nat)
}

fn write_authority(out: &mut Vec<char>, host: &str, port: u16)
    ensures
        final(out)@ == old(out)@ + authority(host@, port),
{
    text::extend_str(out, host);
    text::extend_str(out, ":");
    text::extend(out, &text::to_decimal(port as u64));
    assert(out@ == old(out)@ + authority(host@, port));
}

/// Why `host:port` cannot be connected to: it resolved to no address, or the
/// resolver failed with `error`.
pub fn resolve_error(host: &str, port: u16, error: Option<&str>) -> (r: String)
    ensures
        r@ == "cannot resolve "@ + authority(host@, port) + (match error {
            Some(e) => ": "@ + e@,
            None => seq![],
        }),
{
    let mut out = text::chars("cannot resolve ");
    write_authority(&mut out, host, port);
    if let Some(e) = error {
        let ghost before = out@;
        text::extend_str(&mut out, ": ");
        text::extend_str(&mut out, e);
        assert(out@ == before + (": "@ + e@));
    }
    text::string(&out)
}

/// What to do next to connect to one of several addresses.
#[derive(Debug, Clone)]
pub enum Dial {
    /// Try the address at this position.
    Try(usize),
    /// None of them answers.
    Failed(String),
}

/// Connect to the first of `count` addresses that answers: what to do after
/// the first of them failed with `failures`.
pub fn next_attempt(count: usize, failures: &Vec<String>) -> (r: Dial)
    ensures
        match r {
            Dial::Try(i) => i < count && i == failures@.len(),
            Dial::Failed(e) => {
                &&& failures@.len() >= count
                &&& e@ == (if failures@.len() == 0 {
                    "no address"@
                } else {
                    failures@.last()@
                })
            },
        },
{
    if failures.len() < count {
        Dial::Try(failures.len())
    } else if failures.len() == 0 {
        Dial::Failed("no address".to_owned())
    } else {
        Dial::Failed(failures[failures.len() - 1].clone())
    }
}

// ---------------------------------------------------------------------------
// Laws
// ---------------------------------------------------------------------------

proof fn lemma_last_index_of_suffix(host: Seq<char>, c: char, digits: Seq<char>)
    requires
        forall|i: int| 0 <= i < digits.len() ==> #[trigger] digits[i] != c,
    ensures
        text::last_index(host.push(c) + digits, c) == Some(host.len() as int),
    decreases digits.len(),
{
    let all = host.push(c) + digits;
    if digits.len() == 0 {
        assert(all == host.push(c));
        assert(all.last() == c);
    } else {
        assert(all.last() == digits[digits.len() - 1]);
        assert(all.drop_last() == host.push(c) + digits.drop_last());
        assert forall|i: int| 0 <= i < digits.len() - 1 implies #[trigger] digits.drop_last()[i]
            != c by {
            assert(digits.drop_last()[i] == digits[i]);
        }
        lemma_last_index_of_suffix(host, c, digits.drop_last());
    }
}

proof fn lemma_no_last_index(s: Seq<char>, c: char)
    requires
        forall|i: int| 0 <= i < s.len() ==> #[trigger] s[i] != c,
    ensures
        text::last_index(s, c) is None,
    decreases s.len(),
{
    if s.len() > 0 {
        assert(s.last() == s[s.len() - 1]);
        assert forall|i: int| 0 <= i < s.len() - 1 implies #[trigger] s.drop_last()[i] != c by {
            assert(s.drop_last()[i] == s[i]);
        }
        lemma_no_last_index(s.drop_last(), c);
    }
}

#[verifier::spinoff_prover]
pub(crate) proof fn lemma_url_parts(
    secure: Seq<char>,
    secure_port: u16,
    plain: Seq<char>,
    plain_port: u16,
    host: Seq<char>,
    port: u16,
)
    ensures
        url_parts(secure + authority(host, port), secure, secure_port, plain, plain_port) == Some(
            (host, port),
        ),
        (forall|i: int| 0 <= i < host.len() ==> #[trigger] host[i] != ':') ==> url_parts(
            secure + host,
            secure,
            secure_port,
            plain,
            plain_port,
        ) == Some((host, secure_port)),
        !text::begins(plain + authority(host, port), secure) ==> url_parts(
            plain + authority(host, port),
            secure,
            secure_port,
            plain,
            plain_port,
        ) == Some((host, port)),
        !text::begins(plain + host, secure) && (forall|i: int|
            0 <= i < host.len() ==> #[trigger] host[i] != ':') ==> url_parts(
            plain + host,
            secure,
            secure_port,
            plain,
            plain_port,
        ) == Some((host, plain_port)),
{
    reveal_strlit(":");
    let digits = text::decimal(port as nat);
    text::lemma_decimal_reads_back(port as nat);
    let rest = authority(host, port);
    assert(rest == host.push(':') + digits);
    assert forall|i: int| 0 <= i < digits.len() implies #[trigger] digits[i] != ':' by {
        assert(text::is_digit(digits[i]));
    }
    lemma_last_index_of_suffix(host, ':', digits);
    assert(rest.skip(host.len() as int + 1) == digits);
    assert(rest.take(host.len() as int) == host);
    assert((secure + rest).take(secure.len() as int) == secure);
    assert((secure + rest).skip(secure.len() as int) == rest);
    assert((plain + rest).take(plain.len() as int) == plain);
    assert((plain + rest).skip(plain.len() as int) == rest);
    assert((secure + host).take(secure.len() as int) == secure);
    assert((secure + host).skip(secure.len() as int) == host);
    assert((plain + host).take(plain.len() as int) == plain);
    assert((plain + host).skip(plain.len() as int) == host);
    if forall|i: int| 0 <= i < host.len() ==> #[trigger] host[i] != ':' {
        lemma_no_last_index(host, ':');
    }
}

/// An IMAP address that is written with a port reads back as the host and the
/// port it was written from, and one without a port as the host and the port
/// that its scheme stands for.
pub proof fn law_imap_addresses_read_back(host: Seq<char>, port: u16)
    ensures
        imap_url("imaps://"@ + authority(host, port)) == Some((host, port)),
        imap_url("imap://"@ + authority(host, port)) == Some((host, port)),
        (forall|i: int| 0 <= i < host.len() ==> #[trigger] host[i] != ':') ==> {
            &&& imap_url("imaps://"@ + host) == Some((host, 993u16))
            &&& imap_url("imap://"@ + host) == Some((host, 143u16))
        },
{
    reveal_strlit("imaps://");
    reveal_strlit("imap://");
    assert(!text::begins("imap://"@ + authority(host, port), "imaps://"@)) by {
        let url = "imap://"@ + authority(host, port);
        assert(url[4] == ':');
        assert(url.len() >= 8 ==> url.take(8)[4] == ':');
    }
    assert(!text::begins("imap://"@ + host, "imaps://"@)) by {
        let url = "imap://"@ + host;
        assert(url[4] == ':');
        assert(url.len() >= 8 ==> url.take(8)[4] == ':');
    }
    lemma_url_parts("imaps://"@, 993, "imap://"@, 143, host, port);
}

/// What the escaped text `s` stands for.
pub open spec fn unescaped(s: Seq<char>) -> Seq<char>
    decreases s.len(),
{
    if s.len() == 0 {
        seq![]
    } else if s[0] == '\\' && s.len() > 1 {
        seq![s[1]] + unescaped(s.skip(2))
    } else {
        seq![s[0]] + unescaped(s.drop_first())
    }
}

proof fn lemma_unescaped(a: Seq<char>, s: Seq<char>)
    ensures
        unescaped(escaped(s) + a) == s + unescaped(a),
    decreases s.len(),
{
    if s.len() == 0 {
        assert(escaped(s) + a == a);
        assert(s + unescaped(a) == unescaped(a));
    } else {
        let c = s.last();
        let head = s.drop_last();
        if c == '\\' || c == '"' {
            let tail = seq!['\\', c] + a;
            assert(escaped(s) + a == escaped(head) + tail);
            assert(tail.skip(2) == a);
            assert(unescaped(tail) == seq![c] + unescaped(a));
            lemma_unescaped(tail, head);
        } else {
            let tail = seq![c] + a;
            assert(escaped(s) + a == escaped(head) + tail);
            assert(tail.drop_first() == a);
            assert(unescaped(tail) == seq![c] + unescaped(a));
            lemma_unescaped(tail, head);
        }
        assert(head + (seq![c] + unescaped(a)) == s + unescaped(a));
    }
}

/// A quoted string stands between two quotation marks, and what stands
/// between them is for the string it was made of.
pub proof fn law_quoted_strings_read_back(s: Seq<char>)
    ensures
        quoted(s).len() >= 2,
        quoted(s)[0] == '"',
        quoted(s).last() == '"',
        unescaped(quoted(s).subrange(1, quoted(s).len() - 1)) == s,
{
    let inner = quoted(s).subrange(1, quoted(s).len() - 1);
    assert(inner == escaped(s) + Seq::<char>::empty());
    lemma_unescaped(Seq::<char>::empty(), s);
    assert(s + Seq::<char>::empty() == s);
}

/// An access token is told with the user it is for: what is sent splits at the
/// separator into the user, the token and two empty ends.
pub proof fn law_a_token_is_told_with_its_user(user: Seq<char>, token: Seq<char>)
    requires
        forall|i: int| 0 <= i < user.len() ==> (#[trigger] user[i]) != '\u{1}',
        forall|i: int| 0 <= i < token.len() ==> (#[trigger] token[i]) != '\u{1}',
    ensures
        text::pieces(xoauth2_text(user, token), seq!['\u{1}']) == seq![
            "user="@ + user,
            "auth=Bearer "@ + token,
            Seq::<char>::empty(),
            Seq::<char>::empty(),
        ],
{
    let none = Seq::<char>::empty();
    let c = seq!['\u{1}'];
    let a = "user="@ + user;
    let b = "auth=Bearer "@ + token;
    reveal_strlit("user=");
    reveal_strlit("auth=Bearer ");
    reveal_strlit("\x01auth=Bearer ");
    reveal_strlit("\x01\x01");
    assert(xoauth2_text(user, token) == a + c + (b + c + (none + c + none)));
    text::law_a_piece_ends_at_the_separator(none, none, '\u{1}');
    text::law_a_piece_ends_at_the_separator(b, none + c + none, '\u{1}');
    text::law_a_piece_ends_at_the_separator(a, b + c + (none + c + none), '\u{1}');
}

/// What a reader takes the text after an opening quotation mark for: all up to
/// the first mark that no backslash stands before, and what follows that mark.
pub open spec fn quoted_text(s: Seq<char>) -> Option<(Seq<char>, Seq<char>)>
    decreases s.len(),
{
    if s.len() == 0 {
        None
    } else if s[0] == '"' {
        Some((seq![], s.skip(1)))
    } else if s[0] == '\\' {
        if s.len() == 1 {
            None
        } else {
            match quoted_text(s.skip(2)) {
                Some((t, rest)) => Some((seq![s[1]] + t, rest)),
                None => None,
            }
        }
    } else {
        match quoted_text(s.skip(1)) {
            Some((t, rest)) => Some((seq![s[0]] + t, rest)),
            None => None,
        }
    }
}

proof fn lemma_quoted_text(s: Seq<char>, a: Seq<char>)
    requires
        quoted_text(a) is Some,
    ensures
        quoted_text(escaped(s) + a) == Some((s + (quoted_text(a)->0).0, (quoted_text(a)->0).1)),
    decreases s.len(),
{
    let (t, rest) = quoted_text(a)->0;
    if s.len() == 0 {
        assert(escaped(s) + a == a);
        assert(s + t == t);
    } else {
        let c = s.last();
        let head = s.drop_last();
        let tail = if c == '\\' || c == '"' {
            seq!['\\', c] + a
        } else {
            seq![c] + a
        };
        assert(escaped(s) + a == escaped(head) + tail);
        if c == '\\' || c == '"' {
            assert(tail.skip(2) == a);
        } else {
            assert(tail.skip(1) == a);
        }
        assert(quoted_text(tail) == Some((seq![c] + t, rest)));
        lemma_quoted_text(head, tail);
        assert(head + (seq![c] + t) == s + t);
    }
}

/// A quoted string ends where it ends, whatever it is made of: a reader takes
/// it for the string, and goes on with what follows it.
pub proof fn law_a_quoted_string_cannot_be_left_early(s: Seq<char>, rest: Seq<char>)
    ensures
        (quoted(s) + rest)[0] == '"',
        quoted_text((quoted(s) + rest).skip(1)) == Some((s, rest)),
{
    let a = seq!['"'] + rest;
    assert(a.skip(1) == rest);
    assert(quoted_text(a) == Some((Seq::<char>::empty(), rest)));
    assert((quoted(s) + rest).skip(1) == escaped(s) + a);
    lemma_quoted_text(s, a);
    assert(s + Seq::<char>::empty() == s);
}

proof fn lemma_bad_port(rest: Seq<char>, host: Seq<char>, digits: Seq<char>, port: u16)
    requires
        rest == host.push(':') + digits,
        forall|i: int| 0 <= i < digits.len() ==> (#[trigger] digits[i]) != ':',
        text::number_value(digits) matches Some(n) ==> n > 65535,
    ensures
        host_and_port(rest, port) is None,
{
    lemma_last_index_of_suffix(host, ':', digits);
    assert(rest.skip(host.len() as int + 1) == digits);
}

proof fn lemma_imap_scheme(rest: Seq<char>)
    ensures
        text::begins("imaps://"@ + rest, "imaps://"@),
        ("imaps://"@ + rest).skip("imaps://"@.len() as int) == rest,
        !text::begins("imap://"@ + rest, "imaps://"@),
        text::begins("imap://"@ + rest, "imap://"@),
        ("imap://"@ + rest).skip("imap://"@.len() as int) == rest,
{
    text::law_a_prefix_and_the_rest(rest, "imaps://"@, rest);
    text::law_a_prefix_and_the_rest(rest, "imap://"@, rest);
    reveal_strlit("imaps://");
    reveal_strlit("imap://");
    let url = "imap://"@ + rest;
    assert(url[4] == ':');
    assert(url.len() >= 8 ==> url.take(8)[4] == ':');
}

/// An address that starts with neither scheme cannot be read, and neither can
/// one whose port is no number or too large a number.
#[verifier::spinoff_prover]
pub proof fn law_bad_addresses_are_refused(url: Seq<char>, host: Seq<char>, digits: Seq<char>)
    requires
        forall|i: int| 0 <= i < digits.len() ==> (#[trigger] digits[i]) != ':',
        text::number_value(digits) matches Some(port) ==> port > 65535,
    ensures
        !text::begins(url, "imaps://"@) && !text::begins(url, "imap://"@) ==> imap_url(url) is None,
        imap_url("imaps://"@ + (host + seq![':'] + digits)) is None,
        imap_url("imap://"@ + (host + seq![':'] + digits)) is None,
{
    let rest = host + seq![':'] + digits;
    assert(rest == host.push(':') + digits);
    lemma_bad_port(rest, host, digits, 993);
    lemma_bad_port(rest, host, digits, 143);
    lemma_imap_scheme(rest);
}

/// An account with an access token signs in with it, any other with its
/// password, and each in its own name.
pub proof fn law_an_account_signs_in_with_what_it_has(config: EmailClientConfig)
    ensures
        match login_of(config) {
            LoginView::Password(user, password) => config.oauth_access_token@ == Seq::<char>::empty()
                && user == config.username@ && password == config.password@,
            LoginView::XOAuth2(user, token) => config.oauth_access_token@.len() > 0 && user
                == config.username@ && token == config.oauth_access_token@,
        },
{
}

/// A session goes in the clear to this machine alone: every address that it
/// could go to is a loopback address. An `imaps://` address is always TLS, and
/// one that may not go in the clear is refused.
pub proof fn law_credentials_stay_on_the_machine_in_the_clear(
    url: &str,
    host: &str,
    loopback: &Vec<bool>,
    r: Result<Transport, String>,
    i: int,
)
    requires
        call_ensures(choose_transport, (url, host, loopback), r),
        0 <= i < loopback@.len(),
    ensures
        text::begins(url@, "imaps://"@) ==> (r matches Ok(t) && t == Transport::Tls),
        !text::begins(url@, "imaps://"@) && !loopback@[i] ==> r is Err,
        !text::begins(url@, "imaps://"@) && (forall|k: int|
            0 <= k < loopback@.len() ==> loopback@[k]) ==> (r matches Ok(t) && t
            == Transport::Plain),
{
}

/// The addresses of a server are tried one after another, from the first on,
/// until one answers; where none does, the last failure is told.
pub proof fn law_addresses_are_tried_in_turn(count: usize, failures: &Vec<String>, r: Dial)
    requires
        call_ensures(next_attempt, (count, failures), r),
    ensures
        failures@.len() < count ==> r == Dial::Try(failures@.len() as usize),
        failures@.len() >= count && failures@.len() > 0 ==> (r matches Dial::Failed(e) && e@
            == failures@[failures@.len() - 1]@),
        failures@.len() == 0 && count == 0 ==> r is Failed,
{
}

} // verus!

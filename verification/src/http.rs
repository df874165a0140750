//! The HTTP the email client speaks: requests as they are built, and responses
//! as they are read.

use crate::codec;
use crate::text;
use vstd::prelude::*;
use vstd::string::StrSliceExecFns;
use vstd::utf8::*;

verus! {

/// A failed request, or a body that would not parse.
#[derive(Debug, Clone)]
pub struct Error(String);

impl Error {
    /// What went wrong.
    pub closed spec fn text(&self) -> Seq<char> {
        self.0@
    }

    /// The error that says `text`.
    pub fn new(text: String) -> (r: Error)
        ensures
            r.text() == text@,
    {
        Error(text)
    }

    /// What went wrong.
    pub fn message(&self) -> (r: &str)
        ensures
            r@ == self.text(),
    {
        self.0.as_str()
    }
}

/// Makes requests.
#[derive(Debug)]
pub struct Client {
    /// The whole-request timeout, in seconds.
    timeout: u64,
}

/// What a client has set.
impl View for Client {
    type V = u64;

    closed spec fn view(&self) -> u64 {
        self.timeout
    }
}

impl Clone for Client {
    fn clone(&self) -> (r: Self)
        ensures
            r == *self,
    {
        Client { timeout: self.timeout }
    }
}

impl Default for Client {
    fn default() -> (r: Self)
        ensures
            r@ == 30,
    {
        Client { timeout: 30 }
    }
}

/// One request, being built.
#[derive(Debug)]
pub struct RequestBuilder {
    method: String,
    url: String,
    headers: Vec<(String, String)>,
    body: Option<Vec<u8>>,
    timeout: u64,
}

/// A request.
#[verifier::ext_equal]
pub struct RequestBuilderView {
    pub method: Seq<char>,
    pub url: Seq<char>,
    pub headers: Seq<(Seq<char>, Seq<char>)>,
    pub body: Option<Seq<u8>>,
    /// In seconds.
    pub timeout: u64,
}

/// What the headers `v` are.
pub open spec fn header_pairs(v: Seq<(String, String)>) -> Seq<(Seq<char>, Seq<char>)> {
    Seq::new(v.len(), |i: int| (v[i].0@, v[i].1@))
}

impl View for RequestBuilder {
    type V = RequestBuilderView;

    closed spec fn view(&self) -> RequestBuilderView {
        RequestBuilderView {
            method: self.method@,
            url: self.url@,
            headers: header_pairs(self.headers@),
            body: match self.body {
                Some(b) => Some(b@),
                None => None,
            },
            timeout: self.timeout,
        }
    }
}

/// A request without headers or body.
pub open spec fn bare_request(client: u64, method: Seq<char>, url: Seq<char>) -> RequestBuilderView {
    RequestBuilderView { method, url, headers: seq![], body: None, timeout: client }
}

impl Client {
    /// A client that gives a request 30 seconds.
    pub fn new() -> (r: Client)
        ensures
            r@ == 30,
    {
        Client::default()
    }

    /// A request of `url`, without headers or body.
    pub fn request(&self, method: &str, url: &str) -> (r: RequestBuilder)
        ensures
            r@ == bare_request(self@, method@, url@),
    {
        let r = RequestBuilder {
            method: method.to_owned(),
            url: url.to_owned(),
            headers: Vec::new(),
            body: None,
            timeout: self.timeout,
        };
        assert(r@.headers == Seq::<(Seq<char>, Seq<char>)>::empty());
        r
    }

    /// A GET of `url`.
    pub fn get(&self, url: &str) -> (r: RequestBuilder)
        ensures
            r@ == bare_request(self@, "GET"@, url@),
    {
        self.request("GET", url)
    }

    /// A POST to `url`.
    pub fn post(&self, url: &str) -> (r: RequestBuilder)
        ensures
            r@ == bare_request(self@, "POST"@, url@),
    {
        self.request("POST", url)
    }
}

// ---------------------------------------------------------------------------
// Forms
// ---------------------------------------------------------------------------

/// Whether the byte `b` stands for itself in a form.
pub open spec fn unreserved(b: u8) -> bool {
    ||| 48 <= b <= 57
    ||| 65 <= b <= 90
    ||| 97 <= b <= 122
    ||| b == 45
    ||| b == 46
    ||| b == 95
    ||| b == 126
}

/// The hexadecimal digit `d`.
pub open spec fn upper_hex_digit(d: nat) -> char {
    if d < 10 {
        (48 + d) as char
    } else {
        (55 + d) as char
    }
}

/// The byte `b` as a form writes it.
pub open spec fn encoded_byte(b: u8) -> Seq<char> {
    if unreserved(b) {
        seq![b as char]
    } else {
        seq!['%', upper_hex_digit(b as nat / 16), upper_hex_digit(b as nat % 16)]
    }
}

/// `bytes` as a form writes them.
pub open spec fn encoded_bytes(bytes: Seq<u8>) -> Seq<char>
    decreases bytes.len(),
{
    if bytes.len() == 0 {
        seq![]
    } else {
        encoded_bytes(bytes.drop_last()) + encoded_byte(bytes.last())
    }
}

/// `s` as a form writes it.
pub open spec fn form_encoded(s: Seq<char>) -> Seq<char> {
    encoded_bytes(encode_utf8(s))
}

fn push_upper_hex(out: &mut Vec<char>, d: u8)
    requires
        d < 16,
    ensures
        final(out)@ == old(out)@.push(upper_hex_digit(d as nat)),
{
    if d < 10 {
        out.push((48 + d) as char);
    } else {
        out.push((55 + d) as char);
    }
}

fn form_chars(s: &str) -> (r: Vec<char>)
    ensures
        r@ == form_encoded(s@),
{
    let bytes = s.as_bytes();
    let mut out: Vec<char> = Vec::new();
    let mut i: usize = 0;
    while i < bytes.len()
        invariant
            i <= bytes@.len(),
            out@ == encoded_bytes(bytes@.take(i as int)),
        decreases bytes@.len() - i,
    {
        assert(bytes@.take(i + 1).drop_last() == bytes@.take(i as int));
        let ghost before = out@;
        let b = bytes[i];
        if (48 <= b && b <= 57) || (65 <= b && b <= 90) || (97 <= b && b <= 122) || b == 45 || b
            == 46 || b == 95 || b == 126 {
            out.push(b as char);
        } else {
            out.push('%');
            push_upper_hex(&mut out, b / 16);
            push_upper_hex(&mut out, b % 16);
        }
        assert(out@ == before + encoded_byte(b));
        i = i + 1;
    }
    assert(bytes@.take(bytes@.len() as int) == bytes@);
    out
}

/// Percent-encode a form field (RFC 3986 unreserved kept).
pub fn form_encode(s: &str) -> (r: String)
    ensures
        r@ == form_encoded(s@),
{
    text::string(&form_chars(s))
}

/// The field `field` as a form writes it.
pub open spec fn form_field(field: (&str, &str)) -> Seq<char> {
    form_encoded(field.0@) + "="@ + form_encoded(field.1@)
}

/// The fields `fields` as a form writes them.
pub open spec fn form_text(fields: Seq<(&str, &str)>) -> Seq<char> {
    text::joined(Seq::new(fields.len(), |i: int| form_field(fields[i])), "&"@)
}

impl RequestBuilder {
    /// Add the header `name`.
    pub fn header(self, name: String, value: String) -> (r: RequestBuilder)
        ensures
            r@ == (RequestBuilderView { headers: self@.headers.push((name@, value@)), ..self@ }),
    {
        let mut r = self;
        r.headers.push((name, value));
        assert(header_pairs(r.headers@) == header_pairs(self.headers@).push((name@, value@)));
        r
    }

    /// `Authorization: Bearer <token>`.
    pub fn bearer_auth(self, token: &str) -> (r: RequestBuilder)
        ensures
            r@ == (RequestBuilderView {
                headers: self@.headers.push(("Authorization"@, "Bearer "@ + token@)),
                ..self@
            }),
    {
        let mut value = text::chars("Bearer ");
        text::extend_str(&mut value, token);
        self.header("Authorization".to_owned(), text::string(&value))
    }

    /// An `application/x-www-form-urlencoded` body.
    pub fn form(self, fields: &[(&str, &str)]) -> (r: RequestBuilder)
        ensures
            r@ == (RequestBuilderView {
                headers: self@.headers.push(
                    ("Content-Type"@, "application/x-www-form-urlencoded"@),
                ),
                body: Some(encode_utf8(form_text(fields@))),
                ..self@
            }),
    {
        let mut parts: Vec<Vec<char>> = Vec::new();
        let mut i: usize = 0;
        while i < fields.len()
            invariant
                i <= fields@.len(),
                parts@.len() == i,
                forall|k: int| 0 <= k < i ==> (#[trigger] parts@[k])@ == form_field(fields@[k]),
            decreases fields@.len() - i,
        {
            let mut part = form_chars(fields[i].0);
            text::extend_str(&mut part, "=");
            text::extend(&mut part, &form_chars(fields[i].1));
            parts.push(part);
            i = i + 1;
        }
        assert(text::views(parts@) == Seq::new(
            fields@.len(),
            |i: int| form_field(fields@[i]),
        ));
        let body = text::string(&text::join(&parts, "&"));
        let mut r = self;
        r.body = Some(body.as_str().as_bytes_vec());
        r.header(
            "Content-Type".to_owned(),
            "application/x-www-form-urlencoded".to_owned(),
        )
    }

    /// The method, the address, the headers, the body and the timeout in
    /// seconds, for the request to be made.
    pub fn into_parts(self) -> (r: (String, String, Vec<(String, String)>, Option<Vec<u8>>, u64))
        ensures
            self@ == (RequestBuilderView {
                method: r.0@,
                url: r.1@,
                headers: header_pairs(r.2@),
                body: match r.3 {
                    Some(b) => Some(b@),
                    None => None,
                },
                timeout: r.4,
            }),
    {
        (self.method, self.url, self.headers, self.body, self.timeout)
    }
}

/// A response, read whole.
#[derive(Debug)]
pub struct Response {
    body: Vec<u8>,
}

impl Response {
    /// What it holds.
    pub closed spec fn bytes(&self) -> Seq<u8> {
        self.body@
    }

    /// The response that holds `body`.
    pub fn new(body: Vec<u8>) -> (r: Response)
        ensures
            r.bytes() == body@,
    {
        Response { body }
    }

    /// What it holds.
    pub fn body(&self) -> (r: &Vec<u8>)
        ensures
            r@ == self.bytes(),
    {
        &self.body
    }

    /// What it holds, as text. What is not UTF-8 is replaced.
    pub fn text(self) -> (r: Result<String, Error>)
        ensures
            r matches Ok(s) && s@ == codec::lossy_text(self.bytes()) && (valid_utf8(self.bytes())
                ==> s@ == decode_utf8(self.bytes())),
    {
        Ok(codec::from_utf8_lossy(&self.body))
    }
}

// ---------------------------------------------------------------------------
// Laws
// ---------------------------------------------------------------------------

/// The number that the hexadecimal digit `c` stands for.
pub open spec fn hex_value(c: char) -> nat {
    if '0' <= c <= '9' {
        (c as nat - 48) as nat
    } else {
        (c as nat - 55) as nat
    }
}

/// What the text `s` of a form stands for.
pub open spec fn form_decoded(s: Seq<char>) -> Seq<u8>
    decreases s.len(),
{
    if s.len() == 0 {
        seq![]
    } else if s[0] == '%' && s.len() >= 3 {
        seq![(hex_value(s[1]) * 16 + hex_value(s[2])) as u8] + form_decoded(s.skip(3))
    } else {
        seq![s[0] as u8] + form_decoded(s.drop_first())
    }
}

/// Whether a form can hold `c`: unreserved characters, and percent signs.
pub open spec fn form_char(c: char) -> bool {
    c == '%' || (c as nat <= 255 && unreserved(c as u8))
}

proof fn lemma_byte_decodes(b: u8, rest: Seq<char>)
    ensures
        form_decoded(encoded_byte(b) + rest) == seq![b] + form_decoded(rest),
        forall|i: int| 0 <= i < encoded_byte(b).len() ==> form_char(#[trigger] encoded_byte(b)[i]),
{
    let all = encoded_byte(b) + rest;
    if unreserved(b) {
        assert(all.drop_first() == rest);
        assert(all[0] == b as char);
        assert((b as char) as u8 == b);
        assert((b as char) != '%');
    } else {
        assert(all.skip(3) == rest);
        let hi = b as nat / 16;
        let lo = b as nat % 16;
        assert(hex_value(upper_hex_digit(hi)) == hi);
        assert(hex_value(upper_hex_digit(lo)) == lo);
        assert((hi * 16 + lo) as u8 == b);
        assert(unreserved(upper_hex_digit(hi) as u8));
        assert(unreserved(upper_hex_digit(lo) as u8));
    }
}

proof fn lemma_bytes_decode(bytes: Seq<u8>, rest: Seq<char>)
    ensures
        form_decoded(encoded_bytes(bytes) + rest) == bytes + form_decoded(rest),
        forall|i: int|
            0 <= i < encoded_bytes(bytes).len() ==> form_char(#[trigger] encoded_bytes(bytes)[i]),
    decreases bytes.len(),
{
    if bytes.len() == 0 {
        assert(encoded_bytes(bytes) + rest == rest);
        assert(bytes + form_decoded(rest) == form_decoded(rest));
    } else {
        let before = bytes.drop_last();
        let last = encoded_byte(bytes.last());
        lemma_byte_decodes(bytes.last(), rest);
        lemma_bytes_decode(before, last + rest);
        assert(encoded_bytes(bytes) + rest == encoded_bytes(before) + (last + rest));
        assert(before + (seq![bytes.last()] + form_decoded(rest)) == bytes + form_decoded(rest));
    }
}

/// A form field is written with unreserved characters and percent signs
/// alone, so that no `=` or `&` of a field is taken for one of the form's, and
/// it stands for the field it was written from.
pub proof fn law_form_fields_read_back(s: Seq<char>)
    ensures
        form_decoded(form_encoded(s)) == encode_utf8(s),
        forall|i: int| 0 <= i < form_encoded(s).len() ==> form_char(#[trigger] form_encoded(s)[i]),
        !form_char('='),
        !form_char('&'),
{
    lemma_bytes_decode(encode_utf8(s), Seq::empty());
    assert(form_encoded(s) + Seq::<char>::empty() == form_encoded(s));
    assert(encode_utf8(s) + Seq::<u8>::empty() == encode_utf8(s));
}

proof fn lemma_encoded_both(a: Seq<u8>, b: Seq<u8>)
    ensures
        encoded_bytes(a + b) == encoded_bytes(a) + encoded_bytes(b),
    decreases b.len(),
{
    if b.len() == 0 {
        assert(a + b == a);
    } else {
        assert((a + b).drop_last() == a + b.drop_last());
        assert((a + b).last() == b.last());
        lemma_encoded_both(a, b.drop_last());
    }
}

proof fn lemma_utf8_both(a: Seq<char>, b: Seq<char>)
    ensures
        encode_utf8(a + b) == encode_utf8(a) + encode_utf8(b),
    decreases a.len(),
{
    if a.len() == 0 {
        assert(a + b == b);
        assert(encode_utf8(a) == Seq::<u8>::empty());
    } else {
        assert((a + b).drop_first() == a.drop_first() + b);
        lemma_utf8_both(a.drop_first(), b);
    }
}

/// A form writes a text letter by letter: letters, digits and `-`, `.`, `_`
/// and `~` as they are, and every other character of ASCII as a percent sign
/// and its number in two hexadecimal digits.
pub proof fn law_a_form_writes_letter_by_letter(a: Seq<char>, c: char, b: Seq<char>)
    requires
        (c as u32) < 128,
    ensures
        form_encoded(a + b) == form_encoded(a) + form_encoded(b),
        'a' <= c <= 'z' || 'A' <= c <= 'Z' || '0' <= c <= '9' || c == '-' || c == '.' || c == '_' || c
            == '~' ==> form_encoded(seq![c]) == seq![c],
        !('a' <= c <= 'z' || 'A' <= c <= 'Z' || '0' <= c <= '9' || c == '-' || c == '.' || c == '_'
            || c == '~') ==> {
            let written = form_encoded(seq![c]);
            &&& written.len() == 3
            &&& written[0] == '%'
            &&& hex_value(written[1]) == c as nat / 16
            &&& hex_value(written[2]) == c as nat % 16
        },
{
    lemma_utf8_both(a, b);
    lemma_encoded_both(encode_utf8(a), encode_utf8(b));
    let s = seq![c];
    assert(is_ascii_chars(s)) by {
        assert(s[0] == c);
    }
    is_ascii_chars_encode_utf8(s);
    let bytes = encode_utf8(s);
    assert(bytes.len() == 1);
    assert(s[0] as u8 == bytes[0]);
    assert(bytes.drop_last() == Seq::<u8>::empty());
    assert(encoded_bytes(bytes) == encoded_bytes(Seq::<u8>::empty()) + encoded_byte(bytes[0]));
    assert(encoded_bytes(bytes) == encoded_byte(c as u8));
    assert(c as u8 as char == c);
}

/// A form splits back into its fields, in their order, and each field into its
/// name and its value, whatever they are.
pub proof fn law_a_form_splits_into_its_fields(fields: Seq<(&str, &str)>, i: int)
    requires
        0 <= i < fields.len(),
    ensures
        text::pieces(form_text(fields), seq!['&']).len() == fields.len(),
        text::pieces(text::pieces(form_text(fields), seq!['&'])[i], seq!['=']) == seq![
            form_encoded(fields[i].0@),
            form_encoded(fields[i].1@),
        ],
{
    reveal_strlit("&");
    reveal_strlit("=");
    assert("&"@ == seq!['&']);
    assert("="@ == seq!['=']);
    let parts = Seq::new(fields.len(), |k: int| form_field(fields[k]));
    assert forall|k: int, j: int|
        #![trigger parts[k][j]]
        0 <= k < parts.len() && 0 <= j < parts[k].len() implies parts[k][j] != '&' by {
        let name = form_encoded(fields[k].0@);
        let value = form_encoded(fields[k].1@);
        law_form_fields_read_back(fields[k].0@);
        law_form_fields_read_back(fields[k].1@);
        assert(parts[k] == name + "="@ + value);
        if j < name.len() {
            assert(form_char(name[j]));
        } else if j > name.len() {
            assert(form_char(value[j - name.len() - 1]));
        }
    }
    text::law_joined_parts_split_back(parts, '&');
    let name = form_encoded(fields[i].0@);
    let value = form_encoded(fields[i].1@);
    law_form_fields_read_back(fields[i].0@);
    law_form_fields_read_back(fields[i].1@);
    assert forall|j: int| 0 <= j < name.len() implies (#[trigger] name[j]) != '=' by {
        assert(form_char(name[j]));
    }
    assert forall|j: int| 0 <= j < value.len() implies (#[trigger] value[j]) != '=' by {
        assert(form_char(value[j]));
    }
    text::law_a_piece_ends_at_the_separator(name, value, '=');
    text::law_a_piece_ends_at_the_separator(value, Seq::empty(), '=');
    assert(parts[i] == name + seq!['='] + value);
}

/// A request that is not told otherwise has its method and its address and
/// nothing else.
pub proof fn law_a_request_is_what_was_asked_for(client: u64, method: Seq<char>, url: Seq<char>)
    ensures
        bare_request(client, method, url).method == method,
        bare_request(client, method, url).url == url,
        bare_request(client, method, url).headers.len() == 0,
        bare_request(client, method, url).body is None,
        bare_request(client, method, url).timeout == client,
{
}

/// What is added to a request is added to what it has: a header comes after
/// those that are there, and a form is its body, told as such.
pub proof fn law_a_request_keeps_what_it_has(
    before: RequestBuilder,
    name: String,
    value: String,
    token: &str,
    fields: &[(&str, &str)],
    with_header: RequestBuilder,
    with_token: RequestBuilder,
    with_form: RequestBuilder,
)
    requires
        call_ensures(RequestBuilder::header, (before, name, value), with_header),
        call_ensures(RequestBuilder::bearer_auth, (before, token), with_token),
        call_ensures(RequestBuilder::form, (before, fields), with_form),
    ensures
        with_header@.headers == before@.headers + seq![(name@, value@)],
        with_header@.body == before@.body,
        with_token@.headers == before@.headers + seq![("Authorization"@, "Bearer "@ + token@)],
        with_token@.body == before@.body,
        with_form@.headers == before@.headers + seq![
            ("Content-Type"@, "application/x-www-form-urlencoded"@),
        ],
        with_form@.body == Some(encode_utf8(form_text(fields@))),
        with_header@.method == before@.method && with_header@.url == before@.url,
        with_token@.method == before@.method && with_token@.url == before@.url,
        with_form@.method == before@.method && with_form@.url == before@.url,
{
}

/// A request is made with the method that was asked for.
pub proof fn law_a_request_has_its_method(
    client: Client,
    url: &str,
    get: RequestBuilder,
    post: RequestBuilder,
)
    requires
        call_ensures(Client::get, (&client, url), get),
        call_ensures(Client::post, (&client, url), post),
    ensures
        get@.method == "GET"@ && get@.url == url@,
        post@.method == "POST"@ && post@.url == url@,
        get@.timeout == client@ && post@.timeout == client@,
        get@.body is None && post@.body is None,
{
}

} // verus!

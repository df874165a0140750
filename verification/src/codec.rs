//! Character sets and transfer encodings.
//!
//! The encodings themselves are other crates' work. This module states what
//! the rest of the library relies on.

use vstd::prelude::*;
use vstd::utf8::*;

verus! {

/// What `base64`'s standard engine writes for `bytes`.
pub uninterp spec fn base64_text(bytes: Seq<u8>) -> Seq<char>;

/// What `base64`'s standard engine reads from `text`.
pub uninterp spec fn base64_bytes(text: Seq<u8>) -> Option<Seq<u8>>;

/// What `quoted_printable` reads from `text` in its robust mode.
pub uninterp spec fn quoted_printable_bytes(text: Seq<u8>) -> Option<Seq<u8>>;

/// The text of `bytes`, with what is not UTF-8 replaced.
pub uninterp spec fn lossy_text(bytes: Seq<u8>) -> Seq<char>;

/// `s` in upper case, by Unicode's rules.
pub uninterp spec fn uppercased(s: Seq<char>) -> Seq<char>;

/// The characters of the standard base64 alphabet and its padding.
pub open spec fn base64_char(c: char) -> bool {
    ||| 'A' <= c <= 'Z'
    ||| 'a' <= c <= 'z'
    ||| '0' <= c <= '9'
    ||| c == '+'
    ||| c == '/'
    ||| c == '='
}

/// `c` in upper case if it is an ASCII letter, else `c`.
pub open spec fn upper_char(c: char) -> char {
    if 'a' <= c <= 'z' {
        (c as u8 - 32) as char
    } else {
        c
    }
}

/// `s` with its ASCII letters in upper case.
pub open spec fn ascii_uppercased(s: Seq<char>) -> Seq<char> {
    Seq::new(s.len(), |i: int| upper_char(s[i]))
}

/// Base64, standard alphabet, with padding.
///
/// Calls `Engine::encode` of `base64::engine::general_purpose::STANDARD`. The
/// text holds only characters of that alphabet, and decoding its bytes with
/// the same engine gives `bytes` back.
#[verifier::external_body]
pub(crate) fn b64(bytes: &[u8]) -> (r: String)
    ensures
        r@ == base64_text(bytes@),
        forall|i: int| 0 <= i < r@.len() ==> base64_char(#[trigger] r@[i]),
        base64_bytes(encode_utf8(r@)) == Some(bytes@),
{
    base64::Engine::encode(&base64::engine::general_purpose::STANDARD, bytes)
}

/// The bytes that the base64 `text` stands for, if it is base64.
///
/// Calls `Engine::decode` of `base64::engine::general_purpose::STANDARD`.
#[verifier::external_body]
pub(crate) fn b64_decode(text: &[u8]) -> (r: Option<Vec<u8>>)
    ensures
        r is Some <==> base64_bytes(text@) is Some,
        r matches Some(v) ==> base64_bytes(text@) == Some(v@),
{
    base64::Engine::decode(&base64::engine::general_purpose::STANDARD, text).ok()
}

/// The bytes that the quoted-printable `text` stands for.
///
/// Calls `quoted_printable::decode` with `ParseMode::Robust`, which reads
/// something from any text.
#[verifier::external_body]
pub(crate) fn quoted_printable_decode(text: &[u8]) -> (r: Option<Vec<u8>>)
    ensures
        r is Some,
        r matches Some(v) ==> quoted_printable_bytes(text@) == Some(v@),
{
    quoted_printable::decode(text, quoted_printable::ParseMode::Robust).ok()
}

/// The text of `bytes`, with what is not UTF-8 replaced.
///
/// Calls `String::from_utf8_lossy`. Bytes that are UTF-8 are decoded as they
/// are.
#[verifier::external_body]
pub(crate) fn from_utf8_lossy(bytes: &[u8]) -> (r: String)
    ensures
        r@ == lossy_text(bytes@),
        valid_utf8(bytes@) ==> r@ == decode_utf8(bytes@),
{
    String::from_utf8_lossy(bytes).into_owned()
}

/// The text of `bytes`, if they are UTF-8.
///
/// Calls `std::str::from_utf8`.
#[verifier::external_body]
pub(crate) fn from_utf8(bytes: &[u8]) -> (r: Option<String>)
    ensures
        r is Some <==> valid_utf8(bytes@),
        r matches Some(s) ==> s@ == decode_utf8(bytes@),
{
    std::str::from_utf8(bytes).ok().map(|s| s.to_owned())
}

/// `str::to_uppercase` follows Unicode, and changes only the letters `a` to
/// `z` of a text that is ASCII.
pub assume_specification[ str::to_uppercase ](s: &str) -> (r: String)
    ensures
        r@ == uppercased(s@),
        is_ascii_chars(s@) ==> r@ == ascii_uppercased(s@),
;

/// A copy of `bytes`.
pub(crate) fn copy_bytes(bytes: &[u8]) -> (r: Vec<u8>)
    ensures
        r@ == bytes@,
{
    let mut out: Vec<u8> = Vec::new();
    let mut i: usize = 0;
    while i < bytes.len()
        invariant
            i <= bytes@.len(),
            out@ == bytes@.take(i as int),
        decreases bytes@.len() - i,
    {
        out.push(bytes[i]);
        i = i + 1;
    }
    assert(bytes@.take(bytes@.len() as int) == bytes@);
    out
}

} // verus!

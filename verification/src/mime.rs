//! Reading messages: RFC 2822 headers and MIME bodies.

use crate::codec;
use crate::ffon;
use crate::text;
use crate::types::BodyView;
use crate::types::EmailAttachment;
use crate::types::EmailMessage;
use crate::types::MailBody;
use crate::types::AttachmentView;
use crate::types::MessageView;
use sicompass_sdk::ffon::FfonElement;
use vstd::prelude::*;
use vstd::slice::slice_subrange;
use vstd::string::StrSliceExecFns;
use vstd::utf8::*;

verus! {

// ---------------------------------------------------------------------------
// Headers
// ---------------------------------------------------------------------------

/// The message `s` split at its first blank line, whether its line breaks are
/// CR LF or LF: what stands before it and after it.
pub open spec fn at_first_blank_line(s: Seq<char>) -> Option<(Seq<char>, Seq<char>)> {
    match (text::first_in(s, "\r\n\r\n"@), text::first_in(s, "\n\n"@)) {
        (Some(i), Some(j)) => if i < j {
            Some((s.take(i), s.skip(i + 4)))
        } else {
            Some((s.take(j), s.skip(j + 2)))
        },
        (Some(i), None) => Some((s.take(i), s.skip(i + 4))),
        (None, Some(j)) => Some((s.take(j), s.skip(j + 2))),
        (None, None) => None,
    }
}

/// The multipart part `s` split at the first blank line that is written with
/// CR LF; only where it has none, at the first that is written with LF.
pub open spec fn at_part_blank_line(s: Seq<char>) -> Option<(Seq<char>, Seq<char>)> {
    match text::first_in(s, "\r\n\r\n"@) {
        Some(i) => Some((s.take(i), s.skip(i + 4))),
        None => match text::first_in(s, "\n\n"@) {
            Some(i) => Some((s.take(i), s.skip(i + 2))),
            None => None,
        },
    }
}

/// Whether `line` continues the one before it.
pub open spec fn folded(line: Seq<char>) -> bool {
    line.len() > 0 && (line[0] == ' ' || line[0] == '\t')
}

/// The header lines `lines` with each folded line joined, after one space, to
/// the line it continues.
pub open spec fn unfolded(lines: Seq<Seq<char>>) -> Seq<Seq<char>>
    decreases lines.len(),
{
    if lines.len() == 0 {
        seq![]
    } else {
        let before = unfolded(lines.drop_last());
        if before.len() > 0 && folded(lines.last()) {
            before.drop_last().push(before.last() + " "@ + text::trimmed(lines.last()))
        } else {
            before.push(lines.last())
        }
    }
}

/// Whether `line` is the field that starts with `name`, in any case.
pub open spec fn is_field(line: Seq<char>, name: Seq<char>) -> bool {
    text::begins(text::lowered(line), name)
}

/// What follows `name` on the last of `lines` that starts with it, or nothing.
pub open spec fn field(lines: Seq<Seq<char>>, name: Seq<char>) -> Seq<char>
    decreases lines.len(),
{
    if lines.len() == 0 {
        seq![]
    } else if is_field(lines.last(), name) {
        lines.last().skip(name.len() as int)
    } else {
        field(lines.drop_last(), name)
    }
}

/// The transfer encoding that `lines` name.
pub open spec fn encoding_field(lines: Seq<Seq<char>>) -> Seq<char> {
    text::lowered(text::trimmed(field(lines, "content-transfer-encoding: "@)))
}

fn split_at_first_blank_line(s: &[char]) -> (r: Option<(&[char], &[char])>)
    ensures
        r is Some <==> at_first_blank_line(s@) is Some,
        r matches Some(p) ==> at_first_blank_line(s@) == Some((p.0@, p.1@)),
{
    proof {
        reveal_strlit("\r\n\r\n");
        reveal_strlit("\n\n");
    }
    let n = s.len();
    match (text::find_str(s, "\r\n\r\n"), text::find_str(s, "\n\n")) {
        (Some(i), Some(j)) => {
            if i < j {
                Some((slice_subrange(s, 0, i), slice_subrange(s, i + 4, n)))
            } else {
                Some((slice_subrange(s, 0, j), slice_subrange(s, j + 2, n)))
            }
        },
        (Some(i), None) => Some((slice_subrange(s, 0, i), slice_subrange(s, i + 4, n))),
        (None, Some(j)) => Some((slice_subrange(s, 0, j), slice_subrange(s, j + 2, n))),
        (None, None) => None,
    }
}

fn split_at_part_blank_line(s: &[char]) -> (r: Option<(&[char], &[char])>)
    ensures
        r is Some <==> at_part_blank_line(s@) is Some,
        r matches Some(p) ==> at_part_blank_line(s@) == Some((p.0@, p.1@)) && p.1@.len() < s@.len(),
{
    proof {
        reveal_strlit("\r\n\r\n");
        reveal_strlit("\n\n");
    }
    let n = s.len();
    match text::find_str(s, "\r\n\r\n") {
        Some(i) => Some((slice_subrange(s, 0, i), slice_subrange(s, i + 4, n))),
        None => match text::find_str(s, "\n\n") {
            Some(i) => Some((slice_subrange(s, 0, i), slice_subrange(s, i + 2, n))),
            None => None,
        },
    }
}

fn unfold(lines: &Vec<Vec<char>>) -> (r: Vec<Vec<char>>)
    ensures
        text::views(r@) == unfolded(text::views(lines@)),
{
    let mut out: Vec<Vec<char>> = Vec::new();
    let mut i: usize = 0;
    let ghost all = text::views(lines@);
    while i < lines.len()
        invariant
            i <= lines@.len(),
            all == text::views(lines@),
            text::views(out@) == unfolded(all.take(i as int)),
        decreases lines@.len() - i,
    {
        assert(all.take(i + 1).drop_last() == all.take(i as int));
        let ghost before = text::views(out@);
        let line = &lines[i];
        if line.len() > 0 && (line[0] == ' ' || line[0] == '\t') {
            match out.pop() {
                Some(mut value) => {
                    let ghost head = value@;
                    assert(before.last() == head);
                    text::extend_str(&mut value, " ");
                    text::extend(&mut value, text::trim(line));
                    out.push(value);
                    assert(text::views(out@) == before.drop_last().push(
                        head + " "@ + text::trimmed(line@),
                    ));
                },
                None => {
                    out.push(text::copy(line));
                    assert(text::views(out@) == before.push(line@));
                },
            }
        } else {
            out.push(text::copy(line));
            assert(text::views(out@) == before.push(line@));
        }
        i = i + 1;
    }
    assert(all.take(lines@.len() as int) == all);
    out
}

fn last_field(lines: &Vec<Vec<char>>, name: &str) -> (r: Vec<char>)
    ensures
        r@ == field(text::views(lines@), name@),
{
    let ghost all = text::views(lines@);
    let mut i: usize = lines.len();
    assert(all.take(i as int) == all);
    let n = text::chars(name).len();
    while i > 0
        invariant
            i <= lines@.len(),
            n == name@.len(),
            all == text::views(lines@),
            field(all, name@) == field(all.take(i as int), name@),
        decreases i,
    {
        assert(all.take(i as int).drop_last() == all.take(i - 1));
        if text::starts_with(&text::lower(&lines[i - 1]), name) {
            let line = &lines[i - 1];
            return text::copy(slice_subrange(line.as_slice(), n, line.len()));
        }
        i = i - 1;
    }
    Vec::new()
}

// ---------------------------------------------------------------------------
// Content types
// ---------------------------------------------------------------------------

/// The parameters of a header value, its first part among them.
pub open spec fn parameters(value: Seq<char>) -> Seq<Seq<char>> {
    text::pieces(value, seq![';'])
}

/// The media type of the `Content-Type` value `content_type`.
pub open spec fn media_type(content_type: Seq<char>) -> Seq<char> {
    text::trimmed(parameters(text::lowered(content_type))[0])
}

/// Whether `content_type` is some `multipart/` type.
pub open spec fn is_multipart(content_type: Seq<char>) -> bool {
    text::begins(media_type(content_type), "multipart/"@)
}

/// The value of the first `boundary=` among `params`.
pub open spec fn boundary_in(params: Seq<Seq<char>>) -> Option<Seq<char>>
    decreases params.len(),
{
    if params.len() == 0 {
        None
    } else {
        let p = text::trimmed(params[0]);
        if is_field(p, "boundary="@) {
            Some(text::without_ends(p.skip(9), '"'))
        } else {
            boundary_in(params.drop_first())
        }
    }
}

/// The boundary that `content_type` names.
pub open spec fn boundary(content_type: Seq<char>) -> Option<Seq<char>> {
    boundary_in(parameters(content_type).drop_first())
}

proof fn lemma_pieces(s: Seq<char>, p: Seq<char>)
    requires
        p.len() > 0,
    ensures
        text::pieces(s, p).len() > 0,
        forall|i: int| 0 <= i < text::pieces(s, p).len() ==> (#[trigger] text::pieces(s, p)[i]).len()
            <= s.len(),
    decreases s.len(),
{
    text::lemma_first_from(s, p, 0);
    match text::first_in(s, p) {
        Some(i) => {
            let rest = s.skip(i + p.len());
            lemma_pieces(rest, p);
            assert forall|k: int| 0 <= k < text::pieces(s, p).len() implies (
            #[trigger] text::pieces(s, p)[k]).len() <= s.len() by {
                if k > 0 {
                    assert(text::pieces(s, p)[k] == text::pieces(rest, p)[k - 1]);
                }
            }
        },
        None => {},
    }
}

/// The media type of a `Content-Type` value.
fn media(content_type: &[char]) -> (r: Vec<char>)
    ensures
        r@ == media_type(content_type@),
{
    let lc = text::lower(content_type);
    let params = text::split_char(&lc, ';');
    proof {
        lemma_pieces(lc@, seq![';']);
        assert(text::views(params@)[0] == params@[0]@);
    }
    text::copy(text::trim(&params[0]))
}

fn find_boundary(content_type: &[char]) -> (r: Option<Vec<char>>)
    ensures
        r is Some <==> boundary(content_type@) is Some,
        r matches Some(b) ==> boundary(content_type@) == Some(b@),
{
    let params = text::split_char(content_type, ';');
    let ghost all = text::views(params@);
    proof {
        reveal_strlit("boundary=");
        lemma_pieces(content_type@, seq![';']);
        assert(all.skip(1) == all.drop_first());
    }
    let mut i: usize = 1;
    while i < params.len()
        invariant
            1 <= i <= params@.len(),
            all == text::views(params@),
            "boundary="@.len() == 9,
            boundary(content_type@) == boundary_in(all.skip(i as int)),
        decreases params@.len() - i,
    {
        assert(all.skip(i as int).drop_first() == all.skip(i + 1));
        let p = text::trim(&params[i]);
        if text::starts_with(&text::lower(p), "boundary=") {
            let value = slice_subrange(p, 9, p.len());
            assert(value@ == p@.skip(9));
            return Some(text::copy(text::trim_char(value, '"')));
        }
        i = i + 1;
    }
    None
}

/// The `boundary=` parameter of a `Content-Type` value.
pub fn extract_boundary(content_type: &str) -> (r: Option<String>)
    ensures
        r is Some <==> boundary(content_type@) is Some,
        r matches Some(b) ==> boundary(content_type@) == Some(b@),
{
    match find_boundary(&text::chars(content_type)) {
        Some(b) => Some(text::string(&b)),
        None => None,
    }
}

// ---------------------------------------------------------------------------
// Transfer encodings
// ---------------------------------------------------------------------------

/// What a body whose decoder gave `decoded` reads as.
pub open spec fn decoded_text(decoded: Option<Seq<u8>>, raw: Seq<char>) -> Seq<char> {
    match decoded {
        Some(bytes) => codec::lossy_text(bytes),
        None => raw,
    }
}

/// `raw` with its transfer encoding `encoding` undone; as it is where there is
/// none or it does not decode.
pub open spec fn transfer_decoded(raw: Seq<char>, encoding: Seq<char>) -> Seq<char> {
    if text::trimmed(encoding) == "quoted-printable"@ {
        decoded_text(codec::quoted_printable_bytes(encode_utf8(raw)), raw)
    } else if text::trimmed(encoding) == "base64"@ {
        decoded_text(codec::base64_bytes(encode_utf8(text::compacted(raw))), raw)
    } else {
        raw
    }
}

/// The text of a body whose decoder gave `decoded`: what it decoded, read as
/// UTF-8, or `raw` if it decoded nothing.
pub fn text_or_raw(decoded: Option<Vec<u8>>, raw: &str) -> (r: String)
    ensures
        match decoded {
            Some(bytes) => r@ == decoded_text(Some(bytes@), raw@) && (valid_utf8(bytes@) ==> r@
                == decode_utf8(bytes@)),
            None => r@ == raw@,
        },
{
    match decoded {
        Some(bytes) => codec::from_utf8_lossy(&bytes),
        None => raw.to_owned(),
    }
}

/// Undo the transfer encoding `cte` of `raw`. Quoted-printable is undone in
/// any text.
pub fn decode_transfer_encoding(raw: &str, cte: &str) -> (r: String)
    ensures
        r@ == transfer_decoded(raw@, cte@),
        text::trimmed(cte@) == "quoted-printable"@ ==> {
            &&& codec::quoted_printable_bytes(encode_utf8(raw@)) matches Some(bytes)
            &&& r@ == codec::lossy_text(bytes)
        },
{
    let encoding = text::chars(cte);
    let encoding = text::trim(&encoding);
    if text::same_str(encoding, "quoted-printable") {
        let decoded = codec::quoted_printable_decode(raw.as_bytes());
        text_or_raw(decoded, raw)
    } else if text::same_str(encoding, "base64") {
        let compact = text::string(&text::compact(&text::chars(raw)));
        let decoded = codec::b64_decode(compact.as_str().as_bytes());
        text_or_raw(decoded, raw)
    } else {
        raw.to_owned()
    }
}

// ---------------------------------------------------------------------------
// Bodies
// ---------------------------------------------------------------------------

/// A body that is not HTML: the FFON document that its text writes, else the
/// text itself.
pub open spec fn promoted(decoded: Seq<char>) -> BodyView {
    if ffon::json_is_ffon(decoded) {
        match ffon::json_ffon(decoded) {
            Some(document) => BodyView::Ffon(document),
            None => BodyView::Text(decoded),
        }
    } else {
        BodyView::Text(decoded)
    }
}

/// The body of a part that is not multipart.
pub open spec fn leaf_body(raw: Seq<char>, content_type: Seq<char>, encoding: Seq<char>) -> BodyView {
    let decoded = transfer_decoded(raw, encoding);
    if is_html(content_type) {
        BodyView::Text(ffon::document_text(ffon::html_ffon(decoded)))
    } else {
        promoted(decoded)
    }
}

/// What separates the parts of a multipart body.
pub open spec fn delimiter(boundary: Seq<char>) -> Seq<char> {
    "--"@ + boundary
}

/// The headers and the body of the part in `piece`, if it holds one.
pub open spec fn part_of(piece: Seq<char>) -> Option<(Seq<char>, Seq<char>)> {
    at_part_blank_line(text::trimmed(text::without_leading(piece, '-')))
}

/// A body as it is shown, and whether it was made from HTML.
#[verifier::ext_equal]
pub struct PartView {
    pub body: BodyView,
    pub is_html: bool,
}

/// Whether the part with the header lines `lines` says it is an attachment.
pub open spec fn is_attached(lines: Seq<Seq<char>>) -> bool {
    let disposition = text::lowered(field(lines, "content-disposition: "@));
    text::begins(text::trimmed_start(disposition), "attachment"@)
}

/// What `part`, with the header lines `lines`, is among the parts of a
/// multipart body: an attachment does not count as HTML to show.
pub open spec fn among_parts(part: PartView, lines: Seq<Seq<char>>) -> PartView {
    PartView { is_html: part.is_html && !is_attached(lines), ..part }
}

/// Whether `content_type` is that of an HTML page.
pub open spec fn is_html(content_type: Seq<char>) -> bool {
    media_type(content_type) == "text/html"@
}

/// The parts in `pieces`, all shorter than `limit`.
pub open spec fn part_bodies(pieces: Seq<Seq<char>>, limit: nat) -> Seq<PartView>
    decreases limit, 0nat, pieces.len(),
{
    if pieces.len() == 0 {
        seq![]
    } else {
        let before = part_bodies(pieces.drop_last(), limit);
        match part_of(pieces.last()) {
            Some((headers, body)) => if body.len() < limit {
                let lines = text::line_seq(headers);
                before.push(
                    among_parts(
                        body_shown(body, field(lines, "content-type: "@), encoding_field(lines)),
                        lines,
                    ),
                )
            } else {
                before
            },
            None => before,
        }
    }
}

/// The place of the first FFON document among `parts`.
pub open spec fn first_ffon_at(parts: Seq<PartView>) -> Option<int>
    decreases parts.len(),
{
    if parts.len() == 0 {
        None
    } else {
        match first_ffon_at(parts.drop_last()) {
            Some(i) => Some(i),
            None => if parts.last().body is Ffon {
                Some(parts.len() - 1)
            } else {
                None
            },
        }
    }
}

/// The place of the first HTML page among `parts`.
pub open spec fn first_html_at(parts: Seq<PartView>) -> Option<int>
    decreases parts.len(),
{
    if parts.len() == 0 {
        None
    } else {
        match first_html_at(parts.drop_last()) {
            Some(i) => Some(i),
            None => if parts.last().is_html {
                Some(parts.len() - 1)
            } else {
                None
            },
        }
    }
}

/// The part a multipart body is shown as: its first FFON document, else its
/// first HTML page, else its first part, else an empty text.
pub open spec fn preferred(parts: Seq<PartView>) -> PartView {
    match (first_ffon_at(parts), first_html_at(parts)) {
        (Some(i), _) => parts[i],
        (None, Some(i)) => parts[i],
        (None, None) => if parts.len() > 0 {
            parts[0]
        } else {
            PartView { body: BodyView::Text(seq![]), is_html: false }
        },
    }
}

/// What the multipart text `raw` is shown as. It counts as HTML where its best
/// part does.
pub open spec fn multipart_shown(raw: Seq<char>, boundary: Seq<char>) -> PartView
    decreases raw.len(), 1nat, 0nat,
{
    preferred(part_bodies(text::pieces(raw, delimiter(boundary)), raw.len()))
}

/// What the part `raw` of type `content_type` is shown as.
pub open spec fn body_shown(raw: Seq<char>, content_type: Seq<char>, encoding: Seq<char>) -> PartView
    decreases raw.len(), 2nat, 0nat,
{
    if is_multipart(content_type) {
        match boundary(content_type) {
            Some(b) => multipart_shown(raw, b),
            None => PartView { body: BodyView::Text(raw), is_html: false },
        }
    } else {
        PartView {
            body: leaf_body(raw, content_type, encoding),
            is_html: is_html(content_type),
        }
    }
}

/// The body of the multipart text `raw`.
pub open spec fn multipart_body(raw: Seq<char>, boundary: Seq<char>) -> BodyView {
    multipart_shown(raw, boundary).body
}

/// The body of the part `raw` of type `content_type`.
pub open spec fn body_of(raw: Seq<char>, content_type: Seq<char>, encoding: Seq<char>) -> BodyView {
    body_shown(raw, content_type, encoding).body
}

/// The body that `decoded` makes: `document`, if its text was found to be
/// FFON and could be read, else the text.
pub fn promote(decoded: String, is_ffon: bool, document: Option<Vec<FfonElement>>) -> (r: MailBody)
    ensures
        r@ == (if is_ffon && document is Some {
            BodyView::Ffon(ffon::nodes(document->0@))
        } else {
            BodyView::Text(decoded@)
        }),
{
    if is_ffon {
        if let Some(elems) = document {
            return MailBody::Ffon(elems);
        }
    }
    MailBody::Text(decoded)
}

fn parse_leaf(raw: &[char], content_type: &[char], cte: &[char]) -> (r: MailBody)
    ensures
        r@ == leaf_body(raw@, content_type@, cte@),
{
    let decoded = decode_transfer_encoding(&text::string(raw), &text::string(cte));
    let mime = media(content_type);
    if text::same_str(&mime, "text/html") {
        let elems = ffon::ffon_from_html(&decoded);
        return MailBody::Text(ffon::flatten_ffon_to_text(&elems));
    }
    let is_ffon = ffon::is_ffon_json(&decoded);
    let document = ffon::ffon_from_json(&decoded);
    promote(decoded, is_ffon, document)
}

/// A body as it is shown, and whether it was made from HTML.
#[derive(Debug)]
pub struct Part {
    pub body: MailBody,
    pub is_html: bool,
}

impl View for Part {
    type V = PartView;

    open spec fn view(&self) -> PartView {
        PartView { body: self.body@, is_html: self.is_html }
    }
}

/// The views of a list of parts.
pub open spec fn part_views(v: Seq<Part>) -> Seq<PartView> {
    Seq::new(v.len(), |i: int| v[i]@)
}

fn find_ffon(parts: &Vec<Part>) -> (r: Option<usize>)
    ensures
        match r {
            Some(i) => i < parts@.len() && first_ffon_at(part_views(parts@)) == Some(i as int),
            None => first_ffon_at(part_views(parts@)) is None,
        },
{
    let ghost all = part_views(parts@);
    let mut found: Option<usize> = None;
    let mut i: usize = 0;
    while i < parts.len()
        invariant
            i <= parts@.len(),
            all == part_views(parts@),
            match found {
                Some(k) => k < i && first_ffon_at(all.take(i as int)) == Some(k as int),
                None => first_ffon_at(all.take(i as int)) is None,
            },
        decreases parts@.len() - i,
    {
        assert(all.take(i + 1).drop_last() == all.take(i as int));
        if found.is_none() {
            if let MailBody::Ffon(_) = &parts[i].body {
                found = Some(i);
            }
        }
        i = i + 1;
    }
    assert(all.take(parts@.len() as int) == all);
    found
}

fn find_html(parts: &Vec<Part>) -> (r: Option<usize>)
    ensures
        match r {
            Some(i) => i < parts@.len() && first_html_at(part_views(parts@)) == Some(i as int),
            None => first_html_at(part_views(parts@)) is None,
        },
{
    let ghost all = part_views(parts@);
    let mut found: Option<usize> = None;
    let mut i: usize = 0;
    while i < parts.len()
        invariant
            i <= parts@.len(),
            all == part_views(parts@),
            match found {
                Some(k) => k < i && first_html_at(all.take(i as int)) == Some(k as int),
                None => first_html_at(all.take(i as int)) is None,
            },
        decreases parts@.len() - i,
    {
        assert(all.take(i + 1).drop_last() == all.take(i as int));
        if found.is_none() && parts[i].is_html {
            found = Some(i);
        }
        i = i + 1;
    }
    assert(all.take(parts@.len() as int) == all);
    found
}

/// The part that a multipart body with the parts `parts` is shown as: its
/// first FFON document, else its first HTML page, else its first part, else an
/// empty text.
pub fn choose_part(mut parts: Vec<Part>) -> (r: Part)
    ensures
        r@ == preferred(part_views(parts@)),
{
    let best = match find_ffon(&parts) {
        Some(i) => i,
        None => match find_html(&parts) {
            Some(i) => i,
            None => 0,
        },
    };
    if parts.len() > 0 {
        assert(part_views(parts@)[best as int] == parts@[best as int]@);
        parts.remove(best)
    } else {
        Part { body: MailBody::Text(String::new()), is_html: false }
    }
}

proof fn lemma_part_shrinks(piece: Seq<char>)
    ensures
        part_of(piece) matches Some(p) ==> p.1.len() < piece.len(),
{
    let inner = text::without_leading(piece, '-');
    text::lemma_without_leading_len(piece, '-');
    text::lemma_trimmed_start_len(inner);
    text::lemma_trimmed_end_len(text::trimmed_start(inner));
    let chunk = text::trimmed(inner);
    reveal_strlit("\r\n\r\n");
    reveal_strlit("\n\n");
    text::lemma_first_from(chunk, "\r\n\r\n"@, 0);
    text::lemma_first_from(chunk, "\n\n"@, 0);
}

fn split_part(piece: &[char]) -> (r: Option<(&[char], &[char])>)
    ensures
        r is Some <==> part_of(piece@) is Some,
        r matches Some(p) ==> part_of(piece@) == Some((p.0@, p.1@)) && p.1@.len() < piece@.len(),
{
    let chunk = text::trim(text::trim_start_char(piece, '-'));
    proof {
        lemma_part_shrinks(piece@);
    }
    split_at_part_blank_line(chunk)
}

fn says_attached(lines: &Vec<Vec<char>>) -> (r: bool)
    ensures
        r == is_attached(text::views(lines@)),
{
    let disposition = text::lower(&last_field(lines, "content-disposition: "));
    text::starts_with(text::trim_start(&disposition), "attachment")
}

fn parse_parts(raw: &[char], boundary: &[char]) -> (r: Part)
    ensures
        r@ == multipart_shown(raw@, boundary@),
    decreases raw@.len(), 0nat,
{
    let mut mark = text::chars("--");
    proof {
        reveal_strlit("--");
    }
    text::extend(&mut mark, boundary);
    let pieces = text::split(raw, &mark);
    let ghost all = text::views(pieces@);
    proof {
        lemma_pieces(raw@, mark@);
    }
    let mut parts: Vec<Part> = Vec::new();
    let mut i: usize = 0;
    assert(part_views(parts@) == part_bodies(all.take(0), raw@.len()));
    while i < pieces.len()
        invariant
            i <= pieces@.len(),
            all == text::views(pieces@),
            forall|k: int| 0 <= k < all.len() ==> (#[trigger] all[k]).len() <= raw@.len(),
            part_views(parts@) == part_bodies(all.take(i as int), raw@.len()),
        decreases pieces@.len() - i,
    {
        assert(all.take(i + 1).drop_last() == all.take(i as int));
        let ghost before = parts@;
        assert(all[i as int].len() <= raw@.len());
        if let Some((headers, body)) = split_part(&pieces[i]) {
            let lines = text::lines(headers);
            let part_ct = last_field(&lines, "content-type: ");
            let part_cte = last_field(&lines, "content-transfer-encoding: ");
            let part_cte = text::lower(text::trim(&part_cte));
            let shown = parse_part(body, &part_ct, &part_cte);
            let part = Part {
                is_html: shown.is_html && !says_attached(&lines),
                body: shown.body,
            };
            parts.push(part);
            assert(part_views(parts@) == part_views(before).push(part@));
        }
        i = i + 1;
    }
    assert(all.take(pieces@.len() as int) == all);
    choose_part(parts)
}

fn parse_part(raw: &[char], content_type: &[char], cte: &[char]) -> (r: Part)
    ensures
        r@ == body_shown(raw@, content_type@, cte@),
    decreases raw@.len(), 1nat,
{
    let mime = media(content_type);
    if text::starts_with(&mime, "multipart/") {
        if let Some(b) = find_boundary(content_type) {
            return parse_parts(raw, &b);
        }
        return Part { body: MailBody::Text(text::string(raw)), is_html: false };
    }
    Part {
        body: parse_leaf(raw, content_type, cte),
        is_html: text::same_str(&mime, "text/html"),
    }
}

/// The body of a MIME part, given its type and its transfer encoding. A
/// multipart body is shown as its best part.
pub fn parse_body_part(raw: &str, content_type: &str, cte: &str) -> (r: MailBody)
    ensures
        r@ == body_of(raw@, content_type@, cte@),
{
    parse_part(&text::chars(raw), &text::chars(content_type), &text::chars(cte)).body
}

/// Split a multipart body and give its best part: FFON before HTML before any
/// other text.
pub fn parse_multipart(raw: &str, boundary: &str) -> (r: MailBody)
    ensures
        r@ == multipart_body(raw@, boundary@),
{
    parse_parts(&text::chars(raw), &text::chars(boundary)).body
}

// ---------------------------------------------------------------------------
// Attachments
// ---------------------------------------------------------------------------

/// The value of the last file name among the disposition parameters `params`.
pub open spec fn file_name_in(params: Seq<Seq<char>>) -> Option<Seq<char>>
    decreases params.len(),
{
    if params.len() == 0 {
        None
    } else {
        let p = text::trimmed(params.last());
        if is_field(p, "filename="@) || is_field(p, "filename*="@) {
            match text::first_in(p, seq!['=']) {
                Some(i) => Some(text::without_ends(p.skip(i + 1), '"')),
                None => Some(seq![]),
            }
        } else {
            file_name_in(params.drop_last())
        }
    }
}

/// The last file name that the `Content-Disposition` lines among `lines` give.
pub open spec fn file_name(lines: Seq<Seq<char>>) -> Seq<char>
    decreases lines.len(),
{
    if lines.len() == 0 {
        seq![]
    } else {
        let line = lines.last();
        let name = file_name_in(parameters(line.skip(21)));
        if is_field(line, "content-disposition: "@) && name is Some {
            name->0
        } else {
            file_name(lines.drop_last())
        }
    }
}

/// The data of a part's body with the transfer encoding `encoding`.
pub open spec fn part_data(body: Seq<char>, encoding: Seq<char>) -> Seq<u8> {
    if encoding == "base64"@ {
        match codec::base64_bytes(encode_utf8(text::compacted(body))) {
            Some(bytes) => bytes,
            None => seq![],
        }
    } else {
        encode_utf8(body)
    }
}

/// The attachment that a part with the header lines `lines` and the body
/// `body` is: one that says it is, or one that is neither text nor multipart.
pub open spec fn part_attachment(lines: Seq<Seq<char>>, body: Seq<char>) -> Option<AttachmentView> {
    let mime = text::lowered(text::trimmed(parameters(field(lines, "content-type: "@))[0]));
    let not_text = mime.len() > 0 && !text::begins(mime, "text/"@) && !text::begins(
        mime,
        "multipart/"@,
    );
    let name = file_name(lines);
    if is_attached(lines) || not_text {
        Some(
            AttachmentView {
                filename: if name.len() == 0 {
                    "attachment"@
                } else {
                    name
                },
                content_type: mime,
                data: part_data(body, encoding_field(lines)),
            },
        )
    } else {
        None
    }
}

/// The attachment in `piece`.
pub open spec fn attachment_of(piece: Seq<char>) -> Option<AttachmentView> {
    match part_of(piece) {
        Some((headers, body)) => part_attachment(text::line_seq(headers), body),
        None => None,
    }
}

/// The attachments in `pieces`.
pub open spec fn attachments_in(pieces: Seq<Seq<char>>) -> Seq<AttachmentView>
    decreases pieces.len(),
{
    if pieces.len() == 0 {
        seq![]
    } else {
        match attachment_of(pieces.last()) {
            Some(a) => attachments_in(pieces.drop_last()).push(a),
            None => attachments_in(pieces.drop_last()),
        }
    }
}

/// The attachments of the body `raw` of type `content_type`.
pub open spec fn attachments_of(raw: Seq<char>, content_type: Seq<char>) -> Seq<AttachmentView> {
    if is_multipart(content_type) {
        match boundary(content_type) {
            Some(b) => attachments_in(text::pieces(raw, delimiter(b))),
            None => seq![],
        }
    } else {
        seq![]
    }
}

fn last_file_name(params: &Vec<Vec<char>>) -> (r: Option<Vec<char>>)
    ensures
        r is Some <==> file_name_in(text::views(params@)) is Some,
        r matches Some(n) ==> file_name_in(text::views(params@)) == Some(n@),
{
    let ghost all = text::views(params@);
    let mut eq: Vec<char> = Vec::new();
    eq.push('=');
    assert(eq@ == seq!['=']);
    let mut i: usize = params.len();
    assert(all.take(i as int) == all);
    while i > 0
        invariant
            i <= params@.len(),
            all == text::views(params@),
            eq@ == seq!['='],
            file_name_in(all) == file_name_in(all.take(i as int)),
        decreases i,
    {
        assert(all.take(i as int).drop_last() == all.take(i - 1));
        let p = text::trim(&params[i - 1]);
        let pl = text::lower(p);
        if text::starts_with(&pl, "filename=") || text::starts_with(&pl, "filename*=") {
            let n = p.len();
            match text::find(p, &eq) {
                Some(k) => {
                    let value = slice_subrange(p, k + 1, n);
                    assert(value@ == p@.skip(k + 1));
                    return Some(text::copy(text::trim_char(value, '"')));
                },
                None => return Some(Vec::new()),
            }
        }
        i = i - 1;
    }
    None
}

fn find_file_name(lines: &Vec<Vec<char>>) -> (r: Vec<char>)
    ensures
        r@ == file_name(text::views(lines@)),
{
    let ghost all = text::views(lines@);
    let mut i: usize = lines.len();
    assert(all.take(i as int) == all);
    proof {
        reveal_strlit("content-disposition: ");
    }
    while i > 0
        invariant
            i <= lines@.len(),
            all == text::views(lines@),
            "content-disposition: "@.len() == 21,
            file_name(all) == file_name(all.take(i as int)),
        decreases i,
    {
        assert(all.take(i as int).drop_last() == all.take(i - 1));
        let line = &lines[i - 1];
        if text::starts_with(&text::lower(line), "content-disposition: ") {
            let value = slice_subrange(line.as_slice(), 21, line.len());
            assert(value@ == line@.skip(21));
            let params = text::split_char(value, ';');
            if let Some(name) = last_file_name(&params) {
                return name;
            }
        }
        i = i - 1;
    }
    Vec::new()
}

/// The data of an attachment whose decoder gave `decoded`: nothing, if it
/// could not be decoded.
pub fn data_or_nothing(decoded: Option<Vec<u8>>) -> (r: Vec<u8>)
    ensures
        r@ == (match decoded {
            Some(bytes) => bytes@,
            None => seq![],
        }),
{
    match decoded {
        Some(bytes) => bytes,
        None => Vec::new(),
    }
}

fn parse_data(body: &[char], cte: &[char]) -> (r: Vec<u8>)
    ensures
        r@ == part_data(body@, cte@),
{
    if text::same_str(cte, "base64") {
        let compact = text::string(&text::compact(body));
        data_or_nothing(codec::b64_decode(compact.as_str().as_bytes()))
    } else {
        text::string(body).as_str().as_bytes_vec()
    }
}

fn parse_attachment(piece: &[char]) -> (r: Option<EmailAttachment>)
    ensures
        r is Some <==> attachment_of(piece@) is Some,
        r matches Some(a) ==> attachment_of(piece@) == Some(a@),
{
    match split_part(piece) {
        Some((headers, body)) => {
            let lines = text::lines(headers);
            let part_ct = last_field(&lines, "content-type: ");
            let part_cte = last_field(&lines, "content-transfer-encoding: ");
            let part_cte = text::lower(text::trim(&part_cte));
            let name = find_file_name(&lines);
            let says_so = says_attached(&lines);
            let params = text::split_char(&part_ct, ';');
            proof {
                lemma_pieces(part_ct@, seq![';']);
                assert(text::views(params@)[0] == params@[0]@);
            }
            let mime = text::lower(text::trim(&params[0]));
            let not_text = mime.len() > 0 && !text::starts_with(&mime, "text/")
                && !text::starts_with(&mime, "multipart/");
            if says_so || not_text {
                let filename = if name.len() == 0 {
                    "attachment".to_owned()
                } else {
                    text::string(&name)
                };
                Some(
                    EmailAttachment {
                        filename,
                        content_type: text::string(&mime),
                        data: parse_data(body, &part_cte),
                    },
                )
            } else {
                None
            }
        },
        None => None,
    }
}

fn collect_attachments(raw: &[char], content_type: &[char]) -> (r: Vec<EmailAttachment>)
    ensures
        crate::types::attachment_views(r@) == attachments_of(raw@, content_type@),
{
    let mut found: Vec<EmailAttachment> = Vec::new();
    if !text::starts_with(&media(content_type), "multipart/") {
        assert(crate::types::attachment_views(found@) == Seq::<AttachmentView>::empty());
        return found;
    }
    let b = match find_boundary(content_type) {
        Some(b) => b,
        None => {
            assert(crate::types::attachment_views(found@) == Seq::<AttachmentView>::empty());
            return found;
        },
    };
    let mut mark = text::chars("--");
    proof {
        reveal_strlit("--");
    }
    text::extend(&mut mark, &b);
    let pieces = text::split(raw, &mark);
    let ghost all = text::views(pieces@);
    let mut i: usize = 0;
    assert(crate::types::attachment_views(found@) == attachments_in(all.take(0)));
    while i < pieces.len()
        invariant
            i <= pieces@.len(),
            all == text::views(pieces@),
            crate::types::attachment_views(found@) == attachments_in(all.take(i as int)),
        decreases pieces@.len() - i,
    {
        assert(all.take(i + 1).drop_last() == all.take(i as int));
        let ghost before = found@;
        if let Some(a) = parse_attachment(&pieces[i]) {
            found.push(a);
            assert(crate::types::attachment_views(found@) == crate::types::attachment_views(
                before,
            ).push(a@));
        }
        i = i + 1;
    }
    assert(all.take(pieces@.len() as int) == all);
    found
}

/// The attachments of a multipart body: the parts that say they are, and those
/// that are neither text nor multipart.
pub fn parse_attachments(raw_body: &str, content_type: &str) -> (r: Vec<EmailAttachment>)
    ensures
        crate::types::attachment_views(r@) == attachments_of(raw_body@, content_type@),
{
    collect_attachments(&text::chars(raw_body), &text::chars(content_type))
}

// ---------------------------------------------------------------------------
// Messages
// ---------------------------------------------------------------------------

/// The headers and the body of the message `s`: the headers end at the first
/// blank line.
pub open spec fn message_parts(s: Seq<char>) -> (Seq<char>, Seq<char>) {
    match at_first_blank_line(s) {
        Some(p) => p,
        None => (s, seq![]),
    }
}

/// The header lines of the message `s`, unfolded.
pub open spec fn header_lines(s: Seq<char>) -> Seq<Seq<char>> {
    unfolded(text::line_seq(message_parts(s).0))
}

/// What the text `s` of a message holds.
pub open spec fn message_of(uid: u32, s: Seq<char>) -> MessageView {
    let lines = header_lines(s);
    let body = message_parts(s).1;
    let content_type = field(lines, "content-type: "@);
    MessageView {
        uid,
        from: field(lines, "from: "@),
        to: field(lines, "to: "@),
        subject: field(lines, "subject: "@),
        date: field(lines, "date: "@),
        body: body_of(body, content_type, encoding_field(lines)),
        message_id: field(lines, "message-id: "@),
        in_reply_to: field(lines, "in-reply-to: "@),
        references: field(lines, "references: "@),
        attachments: attachments_of(body, content_type),
    }
}

/// Read the message `message`.
pub fn parse_message(uid: u32, message: &str) -> (r: EmailMessage)
    ensures
        r@ == message_of(uid, message@),
{
    let all = text::chars(message);
    let nothing: Vec<char> = Vec::new();
    let (head, body) = match split_at_first_blank_line(&all) {
        Some(p) => p,
        None => (all.as_slice(), nothing.as_slice()),
    };
    assert((head@, body@) == message_parts(message@));
    let lines = unfold(&text::lines(head));
    let content_type = last_field(&lines, "content-type: ");
    let cte = last_field(&lines, "content-transfer-encoding: ");
    let cte = text::lower(text::trim(&cte));
    let r = EmailMessage {
        uid,
        from: text::string(&last_field(&lines, "from: ")),
        to: text::string(&last_field(&lines, "to: ")),
        subject: text::string(&last_field(&lines, "subject: ")),
        date: text::string(&last_field(&lines, "date: ")),
        body: parse_part(body, &content_type, &cte).body,
        message_id: text::string(&last_field(&lines, "message-id: ")),
        in_reply_to: text::string(&last_field(&lines, "in-reply-to: ")),
        references: text::string(&last_field(&lines, "references: ")),
        attachments: collect_attachments(body, &content_type),
    };
    assert(r@ == message_of(uid, message@));
    r
}

/// Read the raw RFC 2822 message `raw`.
pub fn parse_rfc2822(uid: u32, raw: &[u8]) -> (r: EmailMessage)
    ensures
        r@ == message_of(uid, codec::lossy_text(raw@)),
        valid_utf8(raw@) ==> r@ == message_of(uid, decode_utf8(raw@)),
{
    let message = codec::from_utf8_lossy(raw);
    parse_message(uid, &message)
}

// ---------------------------------------------------------------------------
// Laws
// ---------------------------------------------------------------------------

proof fn lemma_first_ffon(parts: Seq<PartView>)
    ensures
        match first_ffon_at(parts) {
            Some(i) => 0 <= i < parts.len() && parts[i].body is Ffon && forall|j: int|
                0 <= j < i ==> !((#[trigger] parts[j]).body is Ffon),
            None => forall|j: int| 0 <= j < parts.len() ==> !((#[trigger] parts[j]).body is Ffon),
        },
    decreases parts.len(),
{
    if parts.len() > 0 {
        let before = parts.drop_last();
        lemma_first_ffon(before);
        assert forall|j: int| 0 <= j < before.len() implies #[trigger] parts[j] == before[j] by {}
    }
}

proof fn lemma_first_html(parts: Seq<PartView>)
    ensures
        match first_html_at(parts) {
            Some(i) => 0 <= i < parts.len() && parts[i].is_html && forall|j: int|
                0 <= j < i ==> !(#[trigger] parts[j]).is_html,
            None => forall|j: int| 0 <= j < parts.len() ==> !(#[trigger] parts[j]).is_html,
        },
    decreases parts.len(),
{
    if parts.len() > 0 {
        let before = parts.drop_last();
        lemma_first_html(before);
        assert forall|j: int| 0 <= j < before.len() implies #[trigger] parts[j] == before[j] by {}
    }
}

/// How much a part is worth showing: an FFON document more than an HTML page,
/// and an HTML page more than any other text.
pub open spec fn worth(part: PartView) -> int {
    if part.body is Ffon {
        2
    } else if part.is_html {
        1
    } else {
        0
    }
}

/// A multipart body is shown as the first of its parts that are most worth
/// showing: FFON before HTML before any other text. It counts as what that part
/// is, where it is itself a part.
pub proof fn law_the_best_part_is_shown(parts: Seq<PartView>, i: int)
    requires
        0 <= i < parts.len(),
        forall|j: int| 0 <= j < parts.len() ==> worth(#[trigger] parts[j]) <= worth(parts[i]),
        forall|j: int| 0 <= j < i ==> worth(#[trigger] parts[j]) < worth(parts[i]),
    ensures
        preferred(parts) == parts[i],
{
    lemma_first_ffon(parts);
    lemma_first_html(parts);
    assert(worth(parts[0]) <= worth(parts[i]));
}

/// Whether `line` can be written as a line: it is not empty and holds no line
/// break.
pub open spec fn is_line(line: Seq<char>) -> bool {
    &&& line.len() > 0
    &&& forall|i: int|
        0 <= i < line.len() ==> (#[trigger] line[i]) != '\r' && line[i] != '\n'
}

/// Whether all of `lines` can be written as lines.
pub open spec fn are_lines(lines: Seq<Seq<char>>) -> bool {
    forall|i: int| 0 <= i < lines.len() ==> is_line(#[trigger] lines[i])
}

/// Whether `line` can be written as a header line: it is not empty, holds no
/// line break, and does not look like the continuation of another.
pub open spec fn is_header_line(line: Seq<char>) -> bool {
    is_line(line) && !folded(line)
}

/// Whether all of `lines` can be written as header lines.
pub open spec fn are_header_lines(lines: Seq<Seq<char>>) -> bool {
    forall|i: int| 0 <= i < lines.len() ==> is_header_line(#[trigger] lines[i])
}

/// Whether carriage returns stand in `s` only before a line feed that more
/// than a line break follows.
spec fn breaks_lines(s: Seq<char>) -> bool {
    forall|i: int|
        0 <= i < s.len() && (#[trigger] s[i]) == '\r' ==> i + 2 < s.len() && s[i + 2] != '\r'
}

/// Whether line feeds stand in `s` only before more than a line feed.
spec fn feeds_lines(s: Seq<char>) -> bool {
    forall|i: int|
        0 <= i < s.len() && (#[trigger] s[i]) == '\n' ==> i + 1 < s.len() && s[i + 1] != '\n'
}

proof fn lemma_joined_breaks(lines: Seq<Seq<char>>)
    requires
        are_lines(lines),
    ensures
        breaks_lines(text::joined(lines, "\r\n"@)),
        feeds_lines(text::joined(lines, "\r\n"@)),
    decreases lines.len(),
{
    reveal_strlit("\r\n");
    let s = text::joined(lines, "\r\n"@);
    if lines.len() == 1 {
        assert(is_line(lines[0]));
    } else if lines.len() > 1 {
        let before = lines.drop_last();
        assert forall|i: int| 0 <= i < before.len() implies is_line(#[trigger] before[i]) by {
            assert(before[i] == lines[i]);
        }
        lemma_joined_breaks(before);
        let head = text::joined(before, "\r\n"@);
        let last = lines[lines.len() - 1];
        assert(is_line(last));
        assert(s == head + "\r\n"@ + last);
        assert forall|i: int| 0 <= i < s.len() && (#[trigger] s[i]) == '\r' implies i + 2 < s.len()
            && s[i + 2] != '\r' by {
            if i < head.len() {
                assert(head[i] == '\r');
                assert(s[i + 2] == head[i + 2]);
            } else if i == head.len() {
                assert(s[i + 2] == last[0]);
            } else {
                assert(i >= head.len() + 2);
                assert(s[i] == last[i - head.len() - 2]);
            }
        }
        assert forall|i: int| 0 <= i < s.len() && (#[trigger] s[i]) == '\n' implies i + 1 < s.len()
            && s[i + 1] != '\n' by {
            if i < head.len() {
                assert(head[i] == '\n');
                assert(s[i + 1] == head[i + 1]);
            } else if i == head.len() + 1 {
                assert(s[i + 1] == last[0]);
            } else {
                assert(i >= head.len() + 2);
                assert(s[i] == last[i - head.len() - 2]);
            }
        }
    }
}

proof fn lemma_joined_feeds(lines: Seq<Seq<char>>)
    requires
        are_lines(lines),
    ensures
        feeds_lines(text::joined(lines, "\n"@)),
        forall|i: int|
            0 <= i < text::joined(lines, "\n"@).len() ==> (#[trigger] text::joined(lines, "\n"@)[i])
                != '\r',
    decreases lines.len(),
{
    reveal_strlit("\n");
    let s = text::joined(lines, "\n"@);
    if lines.len() == 1 {
        assert(is_line(lines[0]));
    } else if lines.len() > 1 {
        let before = lines.drop_last();
        assert forall|i: int| 0 <= i < before.len() implies is_line(#[trigger] before[i]) by {
            assert(before[i] == lines[i]);
        }
        lemma_joined_feeds(before);
        let head = text::joined(before, "\n"@);
        let last = lines[lines.len() - 1];
        assert(is_line(last));
        assert(s == head + "\n"@ + last);
        assert forall|i: int| 0 <= i < s.len() && (#[trigger] s[i]) == '\n' implies i + 1 < s.len()
            && s[i + 1] != '\n' by {
            if i < head.len() {
                assert(head[i] == '\n');
                assert(s[i + 1] == head[i + 1]);
            } else if i == head.len() {
                assert(s[i + 1] == last[0]);
            } else {
                assert(s[i] == last[i - head.len() - 1]);
            }
        }
        assert forall|i: int| 0 <= i < s.len() implies (#[trigger] s[i]) != '\r' by {
            if i < head.len() {
                assert(s[i] == head[i]);
            } else if i > head.len() {
                assert(s[i] == last[i - head.len() - 1]);
            }
        }
    }
}

proof fn lemma_joined_front(lines: Seq<Seq<char>>, sep: Seq<char>)
    requires
        lines.len() > 1,
    ensures
        text::joined(lines, sep) == lines[0] + sep + text::joined(lines.drop_first(), sep),
    decreases lines.len(),
{
    let rest = lines.drop_first();
    if lines.len() == 2 {
        assert(lines.drop_last().len() == 1);
        assert(text::joined(lines.drop_last(), sep) == lines[0]);
        assert(text::joined(rest, sep) == lines[1]);
    } else {
        let before = lines.drop_last();
        lemma_joined_front(before, sep);
        assert(before.drop_first() == rest.drop_last());
        assert(before[0] == lines[0]);
        assert(rest.last() == lines.last());
        assert(text::joined(lines, sep) == lines[0] + sep + (text::joined(rest.drop_last(), sep) + sep
            + rest.last()));
    }
}

/// Whether `sep` ends a line.
spec fn ends_lines(sep: Seq<char>) -> bool {
    sep == "\r\n"@ || sep == "\n"@
}

#[verifier::spinoff_prover]
#[verifier::rlimit(40)]
proof fn lemma_lines_of_joined(lines: Seq<Seq<char>>, sep: Seq<char>)
    requires
        are_lines(lines),
        ends_lines(sep),
    ensures
        text::line_seq(text::joined(lines, sep)) == lines,
    decreases lines.len(),
{
    reveal_strlit("\r\n");
    reveal_strlit("\n");
    let s = text::joined(lines, sep);
    let feed = seq!['\n'];
    if lines.len() == 0 {
        assert(text::line_seq(s) == lines);
    } else {
        let first = lines[0];
        assert(is_line(first));
        text::lemma_first_from(s, feed, 0);
        if lines.len() == 1 {
            match text::first_in(s, feed) {
                Some(k) => {
                    assert(s.subrange(k, k + 1)[0] == s[k]);
                },
                None => {},
            }
            assert(text::line_seq(s) == seq![s]);
            assert(lines == seq![first]);
        } else {
            lemma_joined_front(lines, sep);
            let rest = lines.drop_first();
            assert forall|i: int| 0 <= i < rest.len() implies is_line(#[trigger] rest[i]) by {
                assert(rest[i] == lines[i + 1]);
            }
            lemma_lines_of_joined(rest, sep);
            let tail = text::joined(rest, sep);
            let at = first.len() + sep.len() - 1;
            assert(s == first + sep + tail);
            assert(s[at] == '\n');
            assert(s.subrange(at, at + 1) == feed);
            assert(text::occurs_at(s, feed, at));
            match text::first_in(s, feed) {
                Some(k) => {
                    assert(s.subrange(k, k + 1)[0] == s[k]);
                    assert(k <= at);
                    if k < first.len() {
                        assert(s[k] == first[k]);
                    }
                    assert(k == at);
                },
                None => {},
            }
            assert(s.skip(at + 1) == tail);
            assert(text::without_cr(s.take(at)) == first) by {
                if sep == "\r\n"@ {
                    assert(s.take(at).last() == '\r');
                    assert(s.take(at).drop_last() == first);
                } else {
                    assert(s.take(at) == first);
                    assert(first.last() == first[first.len() - 1]);
                }
            }
            assert(seq![first] + rest == lines);
        }
    }
}

proof fn lemma_nothing_to_unfold(lines: Seq<Seq<char>>)
    requires
        are_header_lines(lines),
    ensures
        unfolded(lines) == lines,
    decreases lines.len(),
{
    if lines.len() > 0 {
        let before = lines.drop_last();
        assert forall|i: int| 0 <= i < before.len() implies is_header_line(#[trigger] before[i]) by {
            assert(before[i] == lines[i]);
        }
        lemma_nothing_to_unfold(before);
        assert(is_header_line(lines[lines.len() - 1]));
        assert(before.push(lines.last()) == lines);
    }
}

proof fn lemma_blank_line_found(lines: Seq<Seq<char>>, body: Seq<char>)
    requires
        are_lines(lines),
    ensures
        at_first_blank_line(text::joined(lines, "\r\n"@) + "\r\n\r\n"@ + body) == Some(
            (text::joined(lines, "\r\n"@), body),
        ),
        at_part_blank_line(text::joined(lines, "\r\n"@) + "\r\n\r\n"@ + body) == Some(
            (text::joined(lines, "\r\n"@), body),
        ),
{
    reveal_strlit("\r\n\r\n");
    reveal_strlit("\n\n");
    lemma_joined_breaks(lines);
    let head = text::joined(lines, "\r\n"@);
    let mark = "\r\n\r\n"@;
    let s = head + mark + body;
    assert(s.subrange(head.len() as int, head.len() as int + 4) == mark);
    assert(text::occurs_at(s, mark, head.len() as int));
    text::lemma_first_from(s, mark, 0);
    match text::first_in(s, mark) {
        Some(k) => {
            if k < head.len() {
                assert(s.subrange(k, k + 4)[0] == s[k]);
                assert(s.subrange(k, k + 4)[2] == s[k + 2]);
                assert(head[k] == '\r');
                assert(s[k + 2] == head[k + 2]);
            }
            assert(k == head.len());
        },
        None => {},
    }
    text::lemma_first_from(s, "\n\n"@, 0);
    match text::first_in(s, "\n\n"@) {
        Some(k) => {
            assert(s.subrange(k, k + 2)[0] == s[k]);
            assert(s.subrange(k, k + 2)[1] == s[k + 1]);
            if k < head.len() {
                assert(head[k] == '\n');
                assert(s[k + 1] == head[k + 1]);
            }
            assert(k > head.len());
        },
        None => {},
    }
    assert(s.take(head.len() as int) == head);
    assert(s.skip(head.len() as int + 4) == body);
}

/// A message that is written as header lines, a blank line and a body reads as
/// what it was written from, whatever its body holds: each field is what the
/// lines say it is.
pub proof fn law_a_written_message_reads_back(uid: u32, lines: Seq<Seq<char>>, body: Seq<char>)
    requires
        are_header_lines(lines),
    ensures
        ({
            let m = message_of(
                uid,
                text::joined(lines, "\r\n"@) + "\r\n\r\n"@ + body,
            );
            let content_type = field(lines, "content-type: "@);
            &&& m.uid == uid
            &&& m.from == field(lines, "from: "@)
            &&& m.to == field(lines, "to: "@)
            &&& m.subject == field(lines, "subject: "@)
            &&& m.date == field(lines, "date: "@)
            &&& m.message_id == field(lines, "message-id: "@)
            &&& m.in_reply_to == field(lines, "in-reply-to: "@)
            &&& m.references == field(lines, "references: "@)
            &&& m.body == body_of(body, content_type, encoding_field(lines))
            &&& m.attachments == attachments_of(body, content_type)
        }),
{
    lemma_blank_line_found(lines, body);
    lemma_lines_of_joined(lines, "\r\n"@);
    lemma_nothing_to_unfold(lines);
}

/// A message whose lines end in bare line feeds reads so too, whatever its body
/// holds.
pub proof fn law_line_feeds_alone_will_do(uid: u32, lines: Seq<Seq<char>>, body: Seq<char>)
    requires
        are_header_lines(lines),
    ensures
        message_of(uid, text::joined(lines, "\n"@) + "\n\n"@ + body) == message_of(
            uid,
            text::joined(lines, "\r\n"@) + "\r\n\r\n"@ + body,
        ),
{
    reveal_strlit("\n\n");
    reveal_strlit("\r\n\r\n");
    lemma_joined_feeds(lines);
    let head = text::joined(lines, "\n"@);
    let strong = "\r\n\r\n"@;
    let mark = "\n\n"@;
    let s = head + mark + body;
    text::lemma_first_from(s, strong, 0);
    match text::first_in(s, strong) {
        Some(k) => {
            assert(s.subrange(k, k + 4)[0] == s[k]);
            if k < head.len() {
                assert(s[k] == head[k]);
            }
            assert(k > head.len());
        },
        None => {},
    }
    assert(s.subrange(head.len() as int, head.len() as int + 2) == mark);
    assert(text::occurs_at(s, mark, head.len() as int));
    text::lemma_first_from(s, mark, 0);
    match text::first_in(s, mark) {
        Some(k) => {
            if k < head.len() {
                assert(s.subrange(k, k + 2)[0] == s[k]);
                assert(s.subrange(k, k + 2)[1] == s[k + 1]);
                assert(head[k] == '\n');
                assert(s[k + 1] == head[k + 1]);
            }
            assert(k == head.len());
        },
        None => {},
    }
    assert(s.take(head.len() as int) == head);
    assert(s.skip(head.len() as int + 2) == body);
    lemma_lines_of_joined(lines, "\n"@);
    lemma_nothing_to_unfold(lines);
    lemma_blank_line_found(lines, body);
    lemma_lines_of_joined(lines, "\r\n"@);
}

/// Whether `c` can be written as the continuation of a header line: it is one
/// line, with no white space at its ends.
pub open spec fn is_continuation(c: Seq<char>) -> bool {
    &&& is_line(c)
    &&& !text::white_space(c[0])
    &&& !text::white_space(c.last())
}

/// The continuations `conts` as the lines they are written on, each after the
/// blank that says that it is one.
pub open spec fn continuation_lines(blanks: Seq<char>, conts: Seq<Seq<char>>) -> Seq<Seq<char>> {
    Seq::new(conts.len(), |i: int| seq![blanks[i]] + conts[i])
}

/// `first` and all of `conts` after it, a space before each.
pub open spec fn continued(first: Seq<char>, conts: Seq<Seq<char>>) -> Seq<char>
    decreases conts.len(),
{
    if conts.len() == 0 {
        first
    } else {
        continued(first + " "@ + conts[0], conts.drop_first())
    }
}

proof fn lemma_continued_more(first: Seq<char>, conts: Seq<Seq<char>>)
    requires
        conts.len() > 0,
    ensures
        continued(first, conts) == continued(first, conts.drop_last()) + " "@ + conts.last(),
    decreases conts.len(),
{
    if conts.len() == 1 {
        assert(conts.drop_first() == Seq::<Seq<char>>::empty());
        assert(conts.drop_last() == Seq::<Seq<char>>::empty());
        reveal_with_fuel(continued, 2);
    } else {
        let next = first + " "@ + conts[0];
        lemma_continued_more(next, conts.drop_first());
        assert(conts.drop_first().drop_last() == conts.drop_last().drop_first());
        assert(conts.drop_last()[0] == conts[0]);
        assert(conts.drop_first().last() == conts.last());
    }
}

proof fn lemma_continued_after(a: Seq<char>, b: Seq<char>, conts: Seq<Seq<char>>)
    ensures
        continued(a + b, conts) == a + continued(b, conts),
    decreases conts.len(),
{
    if conts.len() > 0 {
        lemma_continued_after(a, b + " "@ + conts[0], conts.drop_first());
        assert(a + b + " "@ + conts[0] == a + (b + " "@ + conts[0]));
    }
}

proof fn lemma_unfolds(
    before: Seq<Seq<char>>,
    h: Seq<char>,
    blanks: Seq<char>,
    conts: Seq<Seq<char>>,
)
    requires
        are_header_lines(before),
        is_header_line(h),
        blanks.len() == conts.len(),
        forall|i: int| 0 <= i < blanks.len() ==> (#[trigger] blanks[i]) == ' ' || blanks[i] == '\t',
        forall|i: int| 0 <= i < conts.len() ==> is_continuation(#[trigger] conts[i]),
    ensures
        unfolded(before + seq![h] + continuation_lines(blanks, conts)) == before.push(
            continued(h, conts),
        ),
    decreases conts.len(),
{
    let lines = before + seq![h] + continuation_lines(blanks, conts);
    if conts.len() == 0 {
        let all = before + seq![h];
        assert(lines == all);
        assert forall|i: int| 0 <= i < all.len() implies is_header_line(#[trigger] all[i]) by {
            if i < before.len() {
                assert(all[i] == before[i]);
            }
        }
        lemma_nothing_to_unfold(all);
        assert(all == before.push(h));
    } else {
        let n = conts.len() - 1;
        let less = conts.drop_last();
        let fewer = blanks.drop_last();
        assert forall|i: int| 0 <= i < less.len() implies is_continuation(#[trigger] less[i]) by {
            assert(less[i] == conts[i]);
        }
        assert forall|i: int| 0 <= i < fewer.len() implies (#[trigger] fewer[i]) == ' ' || fewer[i]
            == '\t' by {
            assert(fewer[i] == blanks[i]);
        }
        lemma_unfolds(before, h, fewer, less);
        assert(continuation_lines(blanks, conts).drop_last() == continuation_lines(fewer, less));
        assert(lines.drop_last() == before + seq![h] + continuation_lines(fewer, less));
        let c = conts[n];
        assert(is_continuation(c));
        let blank = seq![blanks[n]];
        assert(blanks[n] == ' ' || blanks[n] == '\t');
        assert(lines.last() == blank + c);
        assert(text::is_blank(blank));
        text::law_trimming_takes_the_blanks_around_a_text(blank, c, Seq::empty());
        assert(blank + c + Seq::<char>::empty() == blank + c);
        lemma_continued_more(h, conts);
        let so_far = before.push(continued(h, less));
        assert(so_far.drop_last() == before);
        assert(so_far.last() == continued(h, less));
    }
}

proof fn lemma_unfolds_before(lines: Seq<Seq<char>>, after: Seq<Seq<char>>)
    requires
        are_header_lines(after),
    ensures
        unfolded(lines + after) == unfolded(lines) + after,
    decreases after.len(),
{
    if after.len() == 0 {
        assert(lines + after == lines);
        assert(unfolded(lines) + after == unfolded(lines));
    } else {
        let less = after.drop_last();
        assert forall|i: int| 0 <= i < less.len() implies is_header_line(#[trigger] less[i]) by {
            assert(less[i] == after[i]);
        }
        lemma_unfolds_before(lines, less);
        assert(is_header_line(after[after.len() - 1]));
        assert((lines + after).drop_last() == lines + less);
        assert((lines + after).last() == after.last());
        assert((unfolded(lines) + less).push(after.last()) == unfolded(lines) + after);
    }
}

/// Unfolding loses nothing: a field that is written on one line and continued
/// on others, each after a space or a tab, reads as its value followed by all
/// of the continuations in full, a space before each, whatever words they
/// hold and whatever other lines stand around it. Its name may be written in
/// any case.
pub proof fn law_folded_fields_read_back(
    uid: u32,
    before: Seq<Seq<char>>,
    written: Seq<char>,
    value: Seq<char>,
    blanks: Seq<char>,
    conts: Seq<Seq<char>>,
    after: Seq<Seq<char>>,
    body: Seq<char>,
)
    requires
        are_header_lines(before),
        are_header_lines(after),
        is_header_line(written + value),
        blanks.len() == conts.len(),
        forall|i: int| 0 <= i < blanks.len() ==> (#[trigger] blanks[i]) == ' ' || blanks[i] == '\t',
        forall|i: int| 0 <= i < conts.len() ==> is_continuation(#[trigger] conts[i]),
        forall|i: int|
            0 <= i < after.len() ==> !text::begins(
                text::lowered(#[trigger] after[i]),
                text::lowered(written),
            ),
    ensures
        ({
            let lines = before + seq![written + value] + continuation_lines(blanks, conts) + after;
            let m = message_of(uid, text::joined(lines, "\r\n"@) + "\r\n\r\n"@ + body);
            let name = text::lowered(written);
            let whole = continued(value, conts);
            &&& name == "from: "@ ==> m.from == whole
            &&& name == "to: "@ ==> m.to == whole
            &&& name == "subject: "@ ==> m.subject == whole
            &&& name == "date: "@ ==> m.date == whole
            &&& name == "message-id: "@ ==> m.message_id == whole
            &&& name == "in-reply-to: "@ ==> m.in_reply_to == whole
            &&& name == "references: "@ ==> m.references == whole
            &&& header_lines(text::joined(lines, "\r\n"@) + "\r\n\r\n"@ + body) == before + seq![
                written + whole,
            ] + after
        }),
{
    let h = written + value;
    let folds = continuation_lines(blanks, conts);
    let lines = before + seq![h] + folds + after;
    let whole = continued(value, conts);
    let name = text::lowered(written);
    assert forall|i: int| 0 <= i < lines.len() implies is_line(#[trigger] lines[i]) by {
        if i < before.len() {
            assert(lines[i] == before[i]);
        } else if i == before.len() {
        } else if i < before.len() + 1 + folds.len() {
            let k = i - before.len() - 1;
            assert(is_continuation(conts[k]));
            assert(lines[i] == seq![blanks[k]] + conts[k]);
            assert(blanks[k] == ' ' || blanks[k] == '\t');
            let l = lines[i];
            assert forall|j: int| 0 <= j < l.len() implies (#[trigger] l[j]) != '\r' && l[j]
                != '\n' by {
                if j > 0 {
                    assert(l[j] == conts[k][j - 1]);
                }
            }
        } else {
            assert(lines[i] == after[i - before.len() - 1 - folds.len()]);
        }
    }
    lemma_blank_line_found(lines, body);
    lemma_lines_of_joined(lines, "\r\n"@);
    lemma_unfolds(before, h, blanks, conts);
    lemma_unfolds_before(before + seq![h] + folds, after);
    lemma_continued_after(written, value, conts);
    let read = before + seq![written + whole] + after;
    assert(unfolded(lines) == read);
    let at = before.len() as int;
    assert(read[at] == written + whole);
    assert(text::lowered(written + whole).take(name.len() as int) == name);
    assert((written + whole).skip(name.len() as int) == whole);
    assert forall|j: int| at < j < read.len() implies !is_field(#[trigger] read[j], name) by {
        assert(read[j] == after[j - at - 1]);
    }
    law_the_last_field_counts(read, name, at);
}

/// A field that no line starts with is empty.
pub proof fn law_a_missing_field_is_empty(lines: Seq<Seq<char>>, name: Seq<char>)
    requires
        forall|i: int|
            0 <= i < lines.len() ==> !text::begins(text::lowered(#[trigger] lines[i]), name),
    ensures
        field(lines, name).len() == 0,
    decreases lines.len(),
{
    if lines.len() > 0 {
        let less = lines.drop_last();
        assert(!text::begins(text::lowered(lines[lines.len() - 1]), name));
        assert forall|i: int| 0 <= i < less.len() implies !text::begins(
            text::lowered(#[trigger] less[i]),
            name,
        ) by {
            assert(less[i] == lines[i]);
        }
        law_a_missing_field_is_empty(less, name);
    }
}

/// The field `name` is what follows it on the last line that starts with it,
/// however that line writes its case.
pub proof fn law_the_last_field_counts(lines: Seq<Seq<char>>, name: Seq<char>, i: int)
    requires
        0 <= i < lines.len(),
        text::begins(text::lowered(lines[i]), name),
        forall|j: int| i < j < lines.len() ==> !is_field(#[trigger] lines[j], name),
    ensures
        field(lines, name) == lines[i].skip(name.len() as int),
    decreases lines.len(),
{
    if i < lines.len() - 1 {
        assert(!is_field(lines[lines.len() - 1], name));
        let before = lines.drop_last();
        assert forall|j: int| i < j < before.len() implies !is_field(#[trigger] before[j], name) by {
            assert(before[j] == lines[j]);
        }
        law_the_last_field_counts(before, name, i);
    }
}

/// A part as it is written between two delimiters.
pub open spec fn part_text(part: (Seq<Seq<char>>, Seq<char>)) -> Seq<char> {
    "\r\n"@ + (text::joined(part.0, "\r\n"@) + "\r\n\r\n"@ + part.1) + "\r\n"@
}

/// What follows the first delimiter of the multipart body that `parts` are
/// written as.
pub open spec fn parts_text(parts: Seq<(Seq<Seq<char>>, Seq<char>)>, boundary: Seq<char>) -> Seq<char>
    decreases parts.len(),
{
    if parts.len() == 0 {
        "--\r\n"@
    } else {
        part_text(parts[0]) + (delimiter(boundary) + parts_text(parts.drop_first(), boundary))
    }
}

/// The multipart body that `parts` are written as: each is a list of header
/// lines and a body.
pub open spec fn multipart_text(
    parts: Seq<(Seq<Seq<char>>, Seq<char>)>,
    boundary: Seq<char>,
) -> Seq<char> {
    delimiter(boundary) + parts_text(parts, boundary)
}

/// Whether `boundary` can separate parts: it is not empty and holds no line
/// break.
pub open spec fn is_boundary(boundary: Seq<char>) -> bool {
    &&& boundary.len() > 0
    &&& forall|i: int|
        0 <= i < boundary.len() ==> (#[trigger] boundary[i]) != '\r' && boundary[i] != '\n'
}

/// Whether `part` can be written between delimiters: it has header lines, does
/// not start or end with white space, and holds no delimiter.
pub open spec fn is_part(part: (Seq<Seq<char>>, Seq<char>), boundary: Seq<char>) -> bool {
    &&& part.0.len() > 0
    &&& are_header_lines(part.0)
    &&& !text::white_space(part.0[0][0])
    &&& part.1.len() > 0
    &&& !text::white_space(part.1.last())
    &&& text::first_in(part_text(part), delimiter(boundary)) is None
}

/// The pieces between the delimiters of a multipart body that starts with one.
spec fn written_pieces(parts: Seq<(Seq<Seq<char>>, Seq<char>)>) -> Seq<Seq<char>>
    decreases parts.len(),
{
    if parts.len() == 0 {
        seq!["--\r\n"@]
    } else {
        seq![part_text(parts[0])] + written_pieces(parts.drop_first())
    }
}

proof fn lemma_delimiter(boundary: Seq<char>)
    requires
        is_boundary(boundary),
    ensures
        delimiter(boundary).len() > 2,
        forall|i: int|
            0 <= i < delimiter(boundary).len() ==> (#[trigger] delimiter(boundary)[i]) != '\r'
                && delimiter(boundary)[i] != '\n',
{
    reveal_strlit("--");
    let d = delimiter(boundary);
    assert forall|i: int| 0 <= i < d.len() implies (#[trigger] d[i]) != '\r' && d[i] != '\n' by {
        if i >= 2 {
            assert(d[i] == boundary[i - 2]);
        }
    }
}

proof fn lemma_written_pieces(parts: Seq<(Seq<Seq<char>>, Seq<char>)>, boundary: Seq<char>)
    requires
        is_boundary(boundary),
        forall|i: int| 0 <= i < parts.len() ==> is_part(#[trigger] parts[i], boundary),
    ensures
        text::pieces(parts_text(parts, boundary), delimiter(boundary)) == written_pieces(parts),
    decreases parts.len(),
{
    reveal_strlit("--\r\n");
    reveal_strlit("\r\n");
    lemma_delimiter(boundary);
    let d = delimiter(boundary);
    let s = parts_text(parts, boundary);
    text::lemma_first_from(s, d, 0);
    if parts.len() == 0 {
        match text::first_in(s, d) {
            Some(k) => {
                let j = 2 - k;
                assert(s.subrange(k, k + d.len())[j] == s[2]);
                assert(d[j] == '\r');
            },
            None => {},
        }
        assert(text::pieces(s, d) == seq![s]);
    } else {
        let rest = parts.drop_first();
        assert forall|i: int| 0 <= i < rest.len() implies is_part(#[trigger] rest[i], boundary) by {
            assert(rest[i] == parts[i + 1]);
        }
        lemma_written_pieces(rest, boundary);
        assert(is_part(parts[0], boundary));
        let head = part_text(parts[0]);
        let tail = parts_text(rest, boundary);
        let n = head.len() as int;
        assert(s == head + (d + tail));
        assert(head[n - 1] == '\n');
        assert(s.subrange(n, n + d.len()) == d);
        assert(text::occurs_at(s, d, n));
        text::lemma_first_from(head, d, 0);
        match text::first_in(s, d) {
            Some(k) => {
                assert(k <= n);
                if k < n {
                    if k + d.len() <= n {
                        assert(head.subrange(k, k + d.len()) == s.subrange(k, k + d.len()));
                        assert(text::occurs_at(head, d, k));
                    } else {
                        let j = n - 1 - k;
                        assert(s.subrange(k, k + d.len())[j] == s[n - 1]);
                        assert(d[j] == '\n');
                    }
                }
                assert(k == n);
            },
            None => {},
        }
        assert(s.take(n) == head);
        assert(s.skip(n + d.len()) == tail);
    }
}

proof fn lemma_trimmed_part(inner: Seq<char>)
    requires
        inner.len() > 0,
        !text::white_space(inner[0]),
        !text::white_space(inner.last()),
    ensures
        text::trimmed("\r\n"@ + inner + "\r\n"@) == inner,
{
    reveal_strlit("\r\n");
    let s = "\r\n"@ + inner + "\r\n"@;
    let s1 = s.drop_first();
    let s2 = s1.drop_first();
    assert(s[0] == '\r' && s1[0] == '\n' && s2[0] == inner[0]);
    assert(text::trimmed_start(s2) == s2);
    assert(text::trimmed_start(s1) == s2);
    assert(text::trimmed_start(s) == s2);
    let t1 = s2.drop_last();
    let t2 = t1.drop_last();
    assert(t2 == inner);
    assert(s2.last() == '\n' && t1.last() == '\r');
    assert(text::trimmed_end(t2) == t2);
    assert(text::trimmed_end(t1) == t2);
    assert(text::trimmed_end(s2) == t2);
}

proof fn lemma_part_read_back(part: (Seq<Seq<char>>, Seq<char>), boundary: Seq<char>)
    requires
        is_part(part, boundary),
    ensures
        part_of(part_text(part)) == Some((text::joined(part.0, "\r\n"@), part.1)),
        text::line_seq(text::joined(part.0, "\r\n"@)) == part.0,
{
    reveal_strlit("\r\n");
    let head = text::joined(part.0, "\r\n"@);
    let inner = head + "\r\n\r\n"@ + part.1;
    let piece = part_text(part);
    assert(is_header_line(part.0[0]));
    if part.0.len() > 1 {
        lemma_joined_front(part.0, "\r\n"@);
    }
    assert(inner[0] == part.0[0][0]);
    assert(inner.last() == part.1.last());
    assert(piece[0] == '\r');
    assert(text::without_leading(piece, '-') == piece);
    lemma_trimmed_part(inner);
    lemma_blank_line_found(part.0, part.1);
    lemma_lines_of_joined(part.0, "\r\n"@);
}

proof fn lemma_last_piece()
    ensures
        part_of("--\r\n"@) is None,
{
    reveal_strlit("--\r\n");
    reveal_strlit("\r\n\r\n");
    reveal_strlit("\n\n");
    let s = "--\r\n"@;
    let s1 = s.drop_first();
    let s2 = s1.drop_first();
    assert(text::without_leading(s2, '-') == s2);
    assert(text::without_leading(s1, '-') == s2);
    assert(text::without_leading(s, '-') == s2);
    let t1 = s2.drop_first();
    let t2 = t1.drop_first();
    assert(text::trimmed_start(t2) == t2);
    assert(text::trimmed_start(t1) == t2);
    assert(text::trimmed_start(s2) == t2);
    assert(text::trimmed_end(t2) == t2);
    assert(t2.len() == 0);
}

proof fn lemma_nothing_before()
    ensures
        part_of(Seq::<char>::empty()) is None,
{
    reveal_strlit("\r\n\r\n");
    reveal_strlit("\n\n");
    let s = Seq::<char>::empty();
    assert(text::without_leading(s, '-') == s);
    assert(text::trimmed_start(s) == s);
    assert(text::trimmed_end(s) == s);
}

proof fn lemma_part_bodies_concat(a: Seq<Seq<char>>, b: Seq<Seq<char>>, limit: nat)
    ensures
        part_bodies(a + b, limit) == part_bodies(a, limit) + part_bodies(b, limit),
    decreases b.len(),
{
    if b.len() == 0 {
        assert(a + b == a);
        assert(part_bodies(b, limit) == Seq::<PartView>::empty());
    } else {
        assert((a + b).drop_last() == a + b.drop_last());
        assert((a + b).last() == b.last());
        lemma_part_bodies_concat(a, b.drop_last(), limit);
    }
}

proof fn lemma_attachments_concat(a: Seq<Seq<char>>, b: Seq<Seq<char>>)
    ensures
        attachments_in(a + b) == attachments_in(a) + attachments_in(b),
    decreases b.len(),
{
    if b.len() == 0 {
        assert(a + b == a);
        assert(attachments_in(b) == Seq::<AttachmentView>::empty());
    } else {
        assert((a + b).drop_last() == a + b.drop_last());
        assert((a + b).last() == b.last());
        lemma_attachments_concat(a, b.drop_last());
    }
}

/// What the written part `part` is shown as.
pub open spec fn shown(part: (Seq<Seq<char>>, Seq<char>)) -> PartView {
    among_parts(
        body_shown(part.1, field(part.0, "content-type: "@), encoding_field(part.0)),
        part.0,
    )
}

/// What each of `parts` is shown as.
pub open spec fn bodies_of(parts: Seq<(Seq<Seq<char>>, Seq<char>)>) -> Seq<PartView> {
    Seq::new(parts.len(), |i: int| shown(parts[i]))
}

/// The attachments among `parts`, in their order.
pub open spec fn attached(parts: Seq<(Seq<Seq<char>>, Seq<char>)>) -> Seq<AttachmentView>
    decreases parts.len(),
{
    if parts.len() == 0 {
        seq![]
    } else {
        (match part_attachment(parts[0].0, parts[0].1) {
            Some(a) => seq![a],
            None => seq![],
        }) + attached(parts.drop_first())
    }
}

proof fn lemma_read_pieces(
    parts: Seq<(Seq<Seq<char>>, Seq<char>)>,
    boundary: Seq<char>,
    limit: nat,
)
    requires
        forall|i: int| 0 <= i < parts.len() ==> is_part(#[trigger] parts[i], boundary),
        parts_text(parts, boundary).len() <= limit,
    ensures
        part_bodies(written_pieces(parts), limit) == bodies_of(parts),
        attachments_in(written_pieces(parts)) == attached(parts),
    decreases parts.len(),
{
    let pieces = written_pieces(parts);
    if parts.len() == 0 {
        lemma_last_piece();
        assert(pieces.drop_last() == Seq::<Seq<char>>::empty());
        assert(part_bodies(pieces.drop_last(), limit) == Seq::<PartView>::empty());
        assert(attachments_in(pieces.drop_last()) == Seq::<AttachmentView>::empty());
        assert(part_bodies(pieces, limit) == Seq::<PartView>::empty());
        assert(bodies_of(parts) == Seq::<PartView>::empty());
    } else {
        let rest = parts.drop_first();
        assert forall|i: int| 0 <= i < rest.len() implies is_part(#[trigger] rest[i], boundary) by {
            assert(rest[i] == parts[i + 1]);
        }
        lemma_read_pieces(rest, boundary, limit);
        assert(is_part(parts[0], boundary));
        lemma_part_read_back(parts[0], boundary);
        let one = seq![part_text(parts[0])];
        assert(one.drop_last() == Seq::<Seq<char>>::empty());
        lemma_part_bodies_concat(one, written_pieces(rest), limit);
        lemma_attachments_concat(one, written_pieces(rest));
        let body = shown(parts[0]);
        assert(parts[0].1.len() < limit) by {
            reveal_strlit("\r\n");
        }
        assert(part_bodies(one.drop_last(), limit) == Seq::<PartView>::empty());
        assert(part_bodies(one, limit) == seq![body]);
        assert(attachments_in(one.drop_last()) == Seq::<AttachmentView>::empty());
        assert(attachments_in(one) == (match part_attachment(parts[0].0, parts[0].1) {
            Some(a) => seq![a],
            None => seq![],
        }));
        assert(bodies_of(parts) == seq![body] + bodies_of(rest));
    }
}

/// A multipart body that is written from parts is shown as the best of them,
/// and has the attachments among them: every part is read with the header
/// lines and the body it was written from.
pub proof fn law_written_parts_read_back(
    parts: Seq<(Seq<Seq<char>>, Seq<char>)>,
    boundary: Seq<char>,
)
    requires
        is_boundary(boundary),
        forall|i: int| 0 <= i < parts.len() ==> is_part(#[trigger] parts[i], boundary),
    ensures
        multipart_shown(multipart_text(parts, boundary), boundary) == preferred(bodies_of(parts)),
        attachments_in(text::pieces(multipart_text(parts, boundary), delimiter(boundary)))
            == attached(parts),
{
    let d = delimiter(boundary);
    let s = multipart_text(parts, boundary);
    let rest = parts_text(parts, boundary);
    lemma_delimiter(boundary);
    assert(s.subrange(0, d.len() as int) == d);
    assert(text::occurs_at(s, d, 0));
    assert(text::first_in(s, d) == Some(0int));
    let nothing = s.take(0);
    assert(nothing == Seq::<char>::empty());
    assert(s.skip(d.len() as int) == rest);
    lemma_written_pieces(parts, boundary);
    let pieces = text::pieces(s, d);
    let one = seq![nothing];
    assert(pieces == one + written_pieces(parts));
    lemma_nothing_before();
    assert(one.drop_last() == Seq::<Seq<char>>::empty());
    lemma_part_bodies_concat(one, written_pieces(parts), s.len());
    lemma_attachments_concat(one, written_pieces(parts));
    assert(part_bodies(one.drop_last(), s.len()) == Seq::<PartView>::empty());
    assert(part_bodies(one, s.len()) == Seq::<PartView>::empty());
    assert(attachments_in(one.drop_last()) == Seq::<AttachmentView>::empty());
    assert(attachments_in(one) == Seq::<AttachmentView>::empty());
    lemma_read_pieces(parts, boundary, s.len());
    assert(part_bodies(pieces, s.len()) == bodies_of(parts));
}

/// The `Content-Type` of a multipart body of the kind `kind`, with its
/// boundary in quotes.
pub open spec fn multipart_type(kind: Seq<char>, boundary: Seq<char>) -> Seq<char> {
    "multipart/"@ + kind + "; boundary=\""@ + boundary + "\""@
}

proof fn lemma_no_piece(s: Seq<char>, c: char)
    requires
        forall|i: int| 0 <= i < s.len() ==> (#[trigger] s[i]) != c,
    ensures
        text::pieces(s, seq![c]) == seq![s],
{
    text::lemma_first_from(s, seq![c], 0);
    match text::first_in(s, seq![c]) {
        Some(k) => {
            assert(s.subrange(k, k + 1)[0] == s[k]);
        },
        None => {},
    }
}

proof fn lemma_two_pieces(a: Seq<char>, b: Seq<char>, c: char)
    requires
        forall|i: int| 0 <= i < a.len() ==> (#[trigger] a[i]) != c,
        forall|i: int| 0 <= i < b.len() ==> (#[trigger] b[i]) != c,
    ensures
        text::pieces(a + seq![c] + b, seq![c]) == seq![a, b],
{
    let s = a + seq![c] + b;
    let n = a.len() as int;
    text::lemma_first_from(s, seq![c], 0);
    assert(s.subrange(n, n + 1) == seq![c]);
    assert(text::occurs_at(s, seq![c], n));
    match text::first_in(s, seq![c]) {
        Some(k) => {
            assert(s.subrange(k, k + 1)[0] == s[k]);
            if k < n {
                assert(s[k] == a[k]);
            }
            assert(k == n);
        },
        None => {},
    }
    assert(s.take(n) == a);
    assert(s.skip(n + 1) == b);
    lemma_no_piece(b, c);
    assert(seq![a] + seq![b] == seq![a, b]);
}

proof fn lemma_without_ends(s: Seq<char>, c: char)
    requires
        s.len() > 0,
        s[0] != c,
        s.last() != c,
    ensures
        text::without_ends(seq![c] + s + seq![c], c) == s,
{
    let quoted = seq![c] + s + seq![c];
    let rest = quoted.drop_first();
    assert(rest[0] == s[0]);
    assert(text::without_leading(rest, c) == rest);
    assert(text::without_leading(quoted, c) == rest);
    assert(rest.last() == c);
    assert(rest.drop_last() == s);
    assert(text::without_trailing(s, c) == s);
}

/// The boundary of a multipart body is read from its `Content-Type` as it was
/// written there.
pub proof fn law_boundaries_read_back(kind: Seq<char>, mark: Seq<char>)
    requires
        mark.len() > 0,
        mark[0] != '"',
        mark.last() != '"',
        forall|i: int| 0 <= i < kind.len() ==> (#[trigger] kind[i]) != ';',
        forall|i: int| 0 <= i < mark.len() ==> (#[trigger] mark[i]) != ';',
    ensures
        is_multipart(multipart_type(kind, mark)),
        boundary(multipart_type(kind, mark)) == Some(mark),
{
    reveal_strlit("multipart/");
    reveal_strlit("; boundary=\"");
    reveal_strlit("\"");
    reveal_strlit("boundary=");
    let value = multipart_type(kind, mark);
    let a = "multipart/"@ + kind;
    let p = "boundary="@ + (seq!['"'] + mark + seq!['"']);
    let b = seq![' '] + p;
    assert(value == a + seq![';'] + b);
    assert forall|i: int| 0 <= i < a.len() implies (#[trigger] a[i]) != ';' by {
        if i >= 10 {
            assert(a[i] == kind[i - 10]);
        }
    }
    assert forall|i: int| 0 <= i < b.len() implies (#[trigger] b[i]) != ';' by {
        if 11 <= i < 11 + mark.len() {
            assert(b[i] == mark[i - 11]);
        }
    }
    lemma_two_pieces(a, b, ';');
    assert(seq![a, b].drop_first() == seq![b]);
    // The parameter, without the space before it.
    assert(b.drop_first() == p);
    assert(text::trimmed_start(p) == p);
    assert(text::trimmed_start(b) == p);
    assert(text::trimmed_end(p) == p) by {
        assert(p.last() == '"');
    }
    assert(text::lowered(p).take(9) == "boundary="@);
    assert(p.skip(9) == seq!['"'] + mark + seq!['"']);
    lemma_without_ends(mark, '"');
    assert(seq![b][0] == b);
    // The media type.
    let lc = text::lowered(value);
    let la = text::lowered(a);
    let lb = text::lowered(b);
    assert(lc == la + seq![';'] + lb);
    assert forall|i: int| 0 <= i < la.len() implies (#[trigger] la[i]) != ';' by {
        assert(a[i] != ';');
    }
    assert forall|i: int| 0 <= i < lb.len() implies (#[trigger] lb[i]) != ';' by {
        assert(b[i] != ';');
    }
    lemma_two_pieces(la, lb, ';');
    assert(la.take(10) == "multipart/"@);
    lemma_media_kind(la);
}

proof fn lemma_media_kind(la: Seq<char>)
    requires
        text::begins(la, "multipart/"@),
    ensures
        text::begins(text::trimmed(la), "multipart/"@),
    decreases la.len(),
{
    reveal_strlit("multipart/");
    assert(la.take(10)[0] == la[0]);
    assert(text::trimmed_start(la) == la);
    if text::white_space(la.last()) {
        assert(la.take(10)[9] == la[9]);
        assert(la.len() > 10);
        let shorter = la.drop_last();
        assert(shorter.take(10) == la.take(10));
        lemma_media_kind(shorter);
        assert(text::trimmed_start(shorter) == shorter) by {
            assert(shorter[0] == la[0]);
        }
    }
}

proof fn lemma_compacted_concat(a: Seq<char>, b: Seq<char>)
    ensures
        text::compacted(a + b) == text::compacted(a) + text::compacted(b),
    decreases b.len(),
{
    if b.len() == 0 {
        assert(a + b == a);
    } else {
        assert((a + b).drop_last() == a + b.drop_last());
        lemma_compacted_concat(a, b.drop_last());
    }
}

/// Base64 may be broken into lines anywhere, as mail does: what it decodes to
/// is the same, in a text body and in an attachment.
pub proof fn law_line_breaks_in_base64_do_not_matter(before: Seq<char>, after: Seq<char>)
    ensures
        ({
            let broken = before + "\r\n"@ + after;
            let whole = before + after;
            &&& part_data(broken, "base64"@) == part_data(whole, "base64"@)
            &&& codec::base64_bytes(encode_utf8(text::compacted(whole))) is Some
                ==> transfer_decoded(broken, "base64"@) == transfer_decoded(whole, "base64"@)
        }),
{
    reveal_strlit("\r\n");
    reveal_strlit("base64");
    reveal_strlit("quoted-printable");
    let crlf = "\r\n"@;
    assert(crlf.drop_last().drop_last() == Seq::<char>::empty());
    reveal_with_fuel(text::compacted, 3);
    assert(text::compacted(crlf) == Seq::<char>::empty());
    lemma_compacted_concat(before + crlf, after);
    lemma_compacted_concat(before, crlf);
    lemma_compacted_concat(before, after);
    let name = "base64"@;
    assert(text::trimmed_start(name) == name);
    assert(text::trimmed_end(name) == name);
    assert(name.len() == 6 && "quoted-printable"@.len() == 16);
}

/// The media type of a part is what its `Content-Type` says before the first
/// semicolon, in lower case and without the white space around it: parameters
/// do not change it.
pub proof fn law_parameters_do_not_change_the_media_type(
    before: Seq<char>,
    kind: Seq<char>,
    after: Seq<char>,
    params: Seq<char>,
)
    requires
        text::is_blank(before),
        text::is_blank(after),
        kind.len() > 0,
        !text::white_space(kind[0]),
        !text::white_space(kind.last()),
        forall|i: int| 0 <= i < kind.len() ==> (#[trigger] kind[i]) != ';',
    ensures
        media_type(before + kind + after) == text::lowered(kind),
        media_type(before + kind + after + seq![';'] + params) == text::lowered(kind),
{
    let value = before + kind + after;
    let low = text::lowered(value);
    let lb = text::lowered(before);
    let lk = text::lowered(kind);
    let la = text::lowered(after);
    assert(low == lb + lk + la);
    assert forall|i: int| 0 <= i < lb.len() implies text::white_space(#[trigger] lb[i]) by {
        assert(text::white_space(before[i]));
    }
    assert forall|i: int| 0 <= i < la.len() implies text::white_space(#[trigger] la[i]) by {
        assert(text::white_space(after[i]));
    }
    assert(lk[0] == text::lower_char(kind[0]));
    assert(lk.last() == text::lower_char(kind.last()));
    text::law_trimming_takes_the_blanks_around_a_text(lb, lk, la);
    assert forall|i: int| 0 <= i < low.len() implies (#[trigger] low[i]) != ';' by {
        if i < before.len() {
            assert(text::white_space(lb[i]));
        } else if i < before.len() + kind.len() {
            assert(kind[i - before.len()] != ';');
        } else {
            assert(text::white_space(la[i - before.len() - kind.len()]));
        }
    }
    lemma_no_piece(low, ';');
    let longer = value + seq![';'] + params;
    let all = text::lowered(longer);
    let mark = seq![';'];
    let n = value.len() as int;
    assert(all == low + mark + text::lowered(params));
    text::lemma_first_from(all, mark, 0);
    assert(all.subrange(n, n + 1) == mark);
    assert(text::occurs_at(all, mark, n));
    match text::first_in(all, mark) {
        Some(k) => {
            assert(all.subrange(k, k + 1)[0] == all[k]);
            if k < n {
                assert(all[k] == low[k]);
            }
            assert(k == n);
        },
        None => {},
    }
    assert(all.take(n) == low);
}

/// A boundary needs no quotation marks, may have its name in any case, and may
/// come after other parameters.
pub proof fn law_a_boundary_needs_no_quotes(
    kind: Seq<char>,
    other: Seq<char>,
    written: Seq<char>,
    mark: Seq<char>,
)
    requires
        text::lowered(written) == "boundary="@,
        mark.len() > 0,
        mark[0] != '"',
        mark.last() != '"',
        !text::white_space(mark.last()),
        forall|i: int| 0 <= i < kind.len() ==> (#[trigger] kind[i]) != ';',
        forall|i: int| 0 <= i < other.len() ==> (#[trigger] other[i]) != ';',
        forall|i: int| 0 <= i < mark.len() ==> (#[trigger] mark[i]) != ';',
        !text::begins(text::lowered(text::trimmed(other)), "boundary="@),
    ensures
        boundary(kind + seq![';', ' '] + written + mark) == Some(mark),
        boundary(kind + seq![';'] + (other + seq![';', ' '] + written + mark)) == Some(mark),
{
    reveal_strlit("boundary=");
    assert(written.len() == 9) by {
        assert(text::lowered(written).len() == written.len());
    }
    assert forall|i: int| 0 <= i < written.len() implies (#[trigger] written[i]) != ';'
        && !text::white_space(written[i]) by {
        assert(text::lowered(written)[i] == text::lower_char(written[i]));
        assert("boundary="@[i] != ';');
        assert(!text::white_space("boundary="@[i]));
    }
    let p = written + mark;
    let b = seq![' '] + p;
    assert forall|i: int| 0 <= i < b.len() implies (#[trigger] b[i]) != ';' by {
        if 1 <= i < 10 {
            assert(b[i] == written[i - 1]);
        } else if i >= 10 {
            assert(b[i] == mark[i - 10]);
        }
    }
    // The parameter, without the space before it.
    let blank = seq![' '];
    assert(text::is_blank(blank));
    assert(p[0] == written[0] && p.last() == mark.last());
    text::law_trimming_takes_the_blanks_around_a_text(blank, p, Seq::empty());
    assert(b + Seq::<char>::empty() == b);
    assert(blank + p + Seq::<char>::empty() == b);
    assert(text::trimmed(b) == p);
    assert(text::lowered(p).take(9) == text::lowered(written));
    assert(p.skip(9) == mark);
    assert(text::without_ends(mark, '"') == mark) by {
        text::law_ends_are_taken_away('"', 0, mark, 0);
        assert(Seq::new(0, |i: int| '"') + mark + Seq::new(0, |i: int| '"') == mark);
    }
    // One parameter.
    let one = kind + seq![';', ' '] + written + mark;
    assert(one == kind + seq![';'] + b);
    lemma_two_pieces(kind, b, ';');
    assert(seq![kind, b].drop_first() == seq![b]);
    assert(boundary_in(seq![b]) == Some(mark));
    // Another before it.
    let rest = other + seq![';', ' '] + written + mark;
    assert(rest == other + seq![';'] + b);
    lemma_two_pieces(other, b, ';');
    let two = kind + seq![';'] + rest;
    text::law_a_piece_ends_at_the_separator(kind, rest, ';');
    let params = text::pieces(two, seq![';']);
    assert(params == seq![kind] + seq![other, b]);
    assert(params.drop_first() == seq![other, b]);
    assert(seq![other, b].drop_first() == seq![b]);
}

/// The transfer encoding that a header names is told whatever its case and the
/// blanks around it.
pub proof fn law_a_transfer_encoding_is_told_in_any_case(
    lines: Seq<Seq<char>>,
    written: Seq<char>,
    before: Seq<char>,
    encoding: Seq<char>,
    after: Seq<char>,
)
    requires
        text::lowered(written) == "content-transfer-encoding: "@,
        text::is_blank(before),
        text::is_blank(after),
        encoding.len() > 0,
        !text::white_space(encoding[0]),
        !text::white_space(encoding.last()),
    ensures
        encoding_field(lines + seq![written + (before + encoding + after)]) == text::lowered(
            encoding,
        ),
{
    let value = before + encoding + after;
    let line = written + value;
    let all = lines + seq![line];
    let name = "content-transfer-encoding: "@;
    assert(text::lowered(written).len() == written.len());
    assert(text::lowered(line).take(name.len() as int) == name);
    assert(line.skip(name.len() as int) == value);
    assert(all.last() == line);
    text::law_trimming_takes_the_blanks_around_a_text(before, encoding, after);
}

/// A body is shown as what its transfer encoding stands for: base64 and
/// quoted-printable are undone, and a body of any other encoding, or one that
/// does not decode, is taken as it is.
pub proof fn law_transfer_encodings_are_undone(
    raw: Seq<char>,
    before: Seq<char>,
    encoding: Seq<char>,
    after: Seq<char>,
    bytes: Seq<u8>,
)
    requires
        text::is_blank(before),
        text::is_blank(after),
        encoding.len() > 0,
        !text::white_space(encoding[0]),
        !text::white_space(encoding.last()),
    ensures
        ({
            let named = before + encoding + after;
            &&& encoding == "quoted-printable"@ && codec::quoted_printable_bytes(encode_utf8(raw))
                == Some(bytes) ==> transfer_decoded(raw, named) == codec::lossy_text(bytes)
            &&& encoding == "base64"@ && codec::base64_bytes(encode_utf8(text::compacted(raw)))
                == Some(bytes) ==> transfer_decoded(raw, named) == codec::lossy_text(bytes)
            &&& encoding == "base64"@ && codec::base64_bytes(encode_utf8(text::compacted(raw))) is None
                ==> transfer_decoded(raw, named) == raw
            &&& encoding != "quoted-printable"@ && encoding != "base64"@ ==> transfer_decoded(
                raw,
                named,
            ) == raw
        }),
        transfer_decoded(raw, before) == raw,
{
    text::law_trimming_takes_the_blanks_around_a_text(before, encoding, after);
    text::law_trimming_takes_the_blanks_around_a_text(before, Seq::empty(), Seq::empty());
    assert(before + Seq::<char>::empty() + Seq::<char>::empty() == before);
    reveal_strlit("quoted-printable");
    reveal_strlit("base64");
    assert("quoted-printable"@.len() == 16 && "base64"@.len() == 6);
}

/// A part that is not multipart is shown as what its text says once it is
/// decoded: an HTML page as the text of what it holds, and any other, of
/// whatever type, as the FFON document that it writes, if it writes one, else
/// as its text.
pub proof fn law_a_part_is_shown_as_its_type_says(
    raw: Seq<char>,
    kind: Seq<char>,
    encoding: Seq<char>,
    document: Seq<ffon::Node>,
)
    requires
        kind.len() > 0,
        !text::white_space(kind[0]),
        !text::white_space(kind.last()),
        forall|i: int| 0 <= i < kind.len() ==> (#[trigger] kind[i]) != ';',
        !text::begins(text::lowered(kind), "multipart/"@),
    ensures
        ({
            let decoded = transfer_decoded(raw, encoding);
            let shown = body_of(raw, kind, encoding);
            &&& text::lowered(kind) == "text/html"@ ==> shown == BodyView::Text(
                ffon::document_text(ffon::html_ffon(decoded)),
            )
            &&& text::lowered(kind) != "text/html"@ && ffon::json_is_ffon(decoded)
                && ffon::json_ffon(decoded) == Some(document) ==> shown == BodyView::Ffon(document)
            &&& text::lowered(kind) != "text/html"@ && (!ffon::json_is_ffon(decoded)
                || ffon::json_ffon(decoded) is None) ==> shown == BodyView::Text(decoded)
        }),
{
    let none = Seq::<char>::empty();
    law_parameters_do_not_change_the_media_type(none, kind, none, none);
    assert(none + kind + none == kind);
}

/// A message whose body is written from parts, under a `Content-Type` that
/// names their boundary, is shown as the best of the parts and has all the
/// attachments among them.
pub proof fn law_a_written_multipart_message_reads_back(
    uid: u32,
    lines: Seq<Seq<char>>,
    kind: Seq<char>,
    mark: Seq<char>,
    parts: Seq<(Seq<Seq<char>>, Seq<char>)>,
)
    requires
        are_header_lines(lines),
        field(lines, "content-type: "@) == multipart_type(kind, mark),
        mark.len() > 0,
        mark[0] != '"',
        mark.last() != '"',
        forall|i: int| 0 <= i < kind.len() ==> (#[trigger] kind[i]) != ';',
        forall|i: int| 0 <= i < mark.len() ==> (#[trigger] mark[i]) != ';',
        is_boundary(mark),
        forall|i: int| 0 <= i < parts.len() ==> is_part(#[trigger] parts[i], mark),
    ensures
        ({
            let m = message_of(
                uid,
                text::joined(lines, "\r\n"@) + "\r\n\r\n"@ + multipart_text(parts, mark),
            );
            &&& m.body == preferred(bodies_of(parts)).body
            &&& m.attachments == attached(parts)
        }),
{
    law_a_written_message_reads_back(uid, lines, multipart_text(parts, mark));
    law_boundaries_read_back(kind, mark);
    law_written_parts_read_back(parts, mark);
}

/// Every part that is an attachment is among the attachments, in order, and
/// no other is.
pub proof fn law_every_attached_part_is_an_attachment(
    before: Seq<(Seq<Seq<char>>, Seq<char>)>,
    part: (Seq<Seq<char>>, Seq<char>),
    after: Seq<(Seq<Seq<char>>, Seq<char>)>,
)
    ensures
        attached(before + seq![part] + after) == attached(before) + attached(seq![part]) + attached(
            after,
        ),
        part_attachment(part.0, part.1) matches Some(a) ==> attached(seq![part]) == seq![a],
        part_attachment(part.0, part.1) is None ==> attached(seq![part]).len() == 0,
    decreases before.len(),
{
    let one = seq![part];
    let none = Seq::<(Seq<Seq<char>>, Seq<char>)>::empty();
    assert(one.drop_first() == none);
    assert(attached(none) == Seq::<AttachmentView>::empty());
    assert(attached(one) == (match part_attachment(part.0, part.1) {
        Some(a) => seq![a],
        None => seq![],
    }));
    let all = before + one + after;
    if before.len() == 0 {
        assert(all.drop_first() == after);
        assert(all[0] == part);
        assert(attached(before) == Seq::<AttachmentView>::empty());
    } else {
        let less = before.drop_first();
        law_every_attached_part_is_an_attachment(less, part, after);
        assert(all.drop_first() == less + one + after);
        assert(all[0] == before[0]);
    }
}

/// The header lines of an attached file of the type `kind`, called `name`,
/// with the transfer encoding `encoding`.
pub open spec fn attachment_lines(kind: Seq<char>, name: Seq<char>, encoding: Seq<char>) -> Seq<
    Seq<char>,
> {
    seq![
        "Content-Type: "@ + kind,
        "Content-Disposition: attachment; filename=\""@ + name + "\""@,
        "Content-Transfer-Encoding: "@ + encoding,
    ]
}

proof fn lemma_attachment_fields(kind: Seq<char>, name: Seq<char>, encoding: Seq<char>)
    ensures
        ({
            let lines = attachment_lines(kind, name, encoding);
            &&& field(lines, "content-type: "@) == kind
            &&& field(lines, "content-disposition: "@) == "attachment; filename=\""@ + name + "\""@
            &&& field(lines, "content-transfer-encoding: "@) == encoding
            &&& !is_field(lines[2], "content-disposition: "@)
            &&& is_field(lines[1], "content-disposition: "@)
            &&& lines[1].skip(21) == "attachment; filename=\""@ + name + "\""@
        }),
{
    reveal_strlit("Content-Type: ");
    reveal_strlit("Content-Disposition: attachment; filename=\"");
    reveal_strlit("Content-Transfer-Encoding: ");
    reveal_strlit("content-type: ");
    reveal_strlit("content-disposition: ");
    reveal_strlit("content-transfer-encoding: ");
    reveal_strlit("attachment; filename=\"");
    reveal_strlit("\"");
    let lines = attachment_lines(kind, name, encoding);
    let ct = "content-type: "@;
    let cd = "content-disposition: "@;
    let ce = "content-transfer-encoding: "@;
    let l0 = lines[0];
    let l1 = lines[1];
    let l2 = lines[2];
    assert(text::lowered(l0).take(14) == ct);
    assert(text::lowered(l1).take(21) == cd);
    assert(text::lowered(l2).take(27) == ce);
    assert(!is_field(l1, ct)) by {
        assert(text::lowered(l1)[8] == 'd');
        assert(ct[8] == 't');
        assert(text::lowered(l1).take(14)[8] == text::lowered(l1)[8]);
    }
    assert(!is_field(l2, ct)) by {
        assert(text::lowered(l2)[9] == 'r');
        assert(ct[9] == 'y');
        assert(text::lowered(l2).take(14)[9] == text::lowered(l2)[9]);
    }
    assert(!is_field(l2, cd)) by {
        assert(text::lowered(l2)[8] == 't');
        assert(cd[8] == 'd');
        assert(text::lowered(l2).take(21)[8] == text::lowered(l2)[8]);
    }
    law_the_last_field_counts(lines, ct, 0);
    law_the_last_field_counts(lines, cd, 1);
    law_the_last_field_counts(lines, ce, 2);
    assert(l0.skip(14) == kind);
    assert(l1.skip(21) == "attachment; filename=\""@ + name + "\""@);
    assert(l2.skip(27) == encoding);
}

proof fn lemma_file_name(name: Seq<char>)
    requires
        name.len() > 0,
        name[0] != '"',
        name.last() != '"',
        forall|i: int| 0 <= i < name.len() ==> (#[trigger] name[i]) != ';',
    ensures
        file_name_in(parameters("attachment; filename=\""@ + name + "\""@)) == Some(name),
        text::begins(
            text::trimmed_start(text::lowered("attachment; filename=\""@ + name + "\""@)),
            "attachment"@,
        ),
{
    reveal_strlit("attachment; filename=\"");
    reveal_strlit("\"");
    reveal_strlit("attachment");
    reveal_strlit("filename=");
    let value = "attachment; filename=\""@ + name + "\""@;
    let a = "attachment"@;
    let quoted = seq!['"'] + name + seq!['"'];
    let p = "filename="@ + quoted;
    let b = seq![' '] + p;
    assert(value == a + seq![';'] + b);
    assert forall|i: int| 0 <= i < b.len() implies (#[trigger] b[i]) != ';' by {
        if 11 <= i < 11 + name.len() {
            assert(b[i] == name[i - 11]);
        }
    }
    lemma_two_pieces(a, b, ';');
    let params = parameters(value);
    assert(params.last() == b);
    let blank = seq![' '];
    assert(text::is_blank(blank));
    assert(p[0] == 'f' && p.last() == '"');
    text::law_trimming_takes_the_blanks_around_a_text(blank, p, Seq::empty());
    assert(blank + p + Seq::<char>::empty() == b);
    assert(text::lowered(p).take(9) == "filename="@);
    let eq = seq!['='];
    text::lemma_first_from(p, eq, 0);
    assert(p.subrange(8, 9) == eq);
    assert(text::occurs_at(p, eq, 8));
    match text::first_in(p, eq) {
        Some(k) => {
            assert(p.subrange(k, k + 1)[0] == p[k]);
            if k < 8 {
                assert(p[k] == "filename="@[k]);
            }
            assert(k == 8);
        },
        None => {},
    }
    assert(p.skip(9) == quoted);
    lemma_without_ends(name, '"');
    let low = text::lowered(value);
    assert(low[0] == 'a');
    assert(text::trimmed_start(low) == low);
    assert(low.take(10) == a);
}

/// A file that is attached is read as it was: under its name, of its type in
/// lower case, with the data that its base64 stands for, or, where it is not
/// encoded, its text.
pub proof fn law_an_attached_file_reads_back(
    kind: Seq<char>,
    name: Seq<char>,
    encoding: Seq<char>,
    body: Seq<char>,
    data: Seq<u8>,
)
    requires
        kind.len() > 0,
        !text::white_space(kind[0]),
        !text::white_space(kind.last()),
        forall|i: int| 0 <= i < kind.len() ==> (#[trigger] kind[i]) != ';',
        name.len() > 0,
        name[0] != '"',
        name.last() != '"',
        forall|i: int| 0 <= i < name.len() ==> (#[trigger] name[i]) != ';',
    ensures
        ({
            let file = part_attachment(attachment_lines(kind, name, encoding), body);
            &&& file is Some
            &&& file->0.filename == name
            &&& file->0.content_type == text::lowered(kind)
            &&& text::lowered(encoding) == "base64"@ && codec::base64_bytes(
                encode_utf8(text::compacted(body)),
            ) == Some(data) ==> file->0.data == data
            &&& text::lowered(encoding) == "base64"@ && codec::base64_bytes(
                encode_utf8(text::compacted(body)),
            ) is None ==> file->0.data.len() == 0
            &&& text::lowered(encoding) == "8bit"@ ==> file->0.data == encode_utf8(body)
            &&& text::lowered(text::trimmed(encoding)) != "base64"@ ==> file->0.data == encode_utf8(
                body,
            )
        }),
{
    let lines = attachment_lines(kind, name, encoding);
    lemma_attachment_fields(kind, name, encoding);
    lemma_file_name(name);
    lemma_no_piece(kind, ';');
    let none = Seq::<char>::empty();
    text::law_trimming_takes_the_blanks_around_a_text(none, kind, none);
    assert(none + kind + none == kind);
    // The file name is on the last line that gives one.
    assert(lines.drop_last().last() == lines[1]);
    assert(lines.last() == lines[2]);
    assert(file_name(lines.drop_last()) == name);
    assert(file_name(lines) == name);
    reveal_strlit("base64");
    reveal_strlit("8bit");
    if text::lowered(encoding) == "base64"@ || text::lowered(encoding) == "8bit"@ {
        let low = text::lowered(encoding);
        assert(low.len() == encoding.len());
        assert(low[0] == text::lower_char(encoding[0]));
        assert(low[low.len() - 1] == text::lower_char(encoding[encoding.len() - 1]));
        assert(!text::white_space(encoding[0]));
        assert(!text::white_space(encoding.last()));
        text::law_trimming_takes_the_blanks_around_a_text(none, encoding, none);
        assert(none + encoding + none == encoding);
    }
    assert("8bit"@.len() == 4 && "base64"@.len() == 6);
}

/// A part that does not say that it is an attachment is one where it is
/// neither text nor multipart, and is then called `attachment`; a text or a
/// multipart body is none.
pub proof fn law_what_is_not_text_is_an_attachment(kind: Seq<char>, body: Seq<char>)
    requires
        kind.len() > 0,
        !text::white_space(kind[0]),
        !text::white_space(kind.last()),
        forall|i: int| 0 <= i < kind.len() ==> (#[trigger] kind[i]) != ';',
    ensures
        ({
            let low = text::lowered(kind);
            let file = part_attachment(seq!["Content-Type: "@ + kind], body);
            &&& file is None <==> text::begins(low, "text/"@) || text::begins(low, "multipart/"@)
            &&& file matches Some(a) ==> a.filename == "attachment"@ && a.content_type == low
                && a.data == encode_utf8(body)
        }),
{
    reveal_strlit("Content-Type: ");
    reveal_strlit("content-type: ");
    reveal_strlit("content-disposition: ");
    reveal_strlit("content-transfer-encoding: ");
    reveal_strlit("attachment");
    reveal_strlit("base64");
    let line = "Content-Type: "@ + kind;
    let lines = seq![line];
    let ct = "content-type: "@;
    let cd = "content-disposition: "@;
    let ce = "content-transfer-encoding: "@;
    assert(text::lowered(line).take(14) == ct);
    assert(line.skip(14) == kind);
    law_the_last_field_counts(lines, ct, 0);
    assert(text::lowered(line)[8] == 't');
    assert(text::lowered(line)[9] == 'y');
    assert(!is_field(line, cd)) by {
        assert(cd[8] == 'd');
        if text::begins(text::lowered(line), cd) {
            assert(text::lowered(line).take(21)[8] == text::lowered(line)[8]);
        }
    }
    assert(!is_field(line, ce)) by {
        assert(ce[9] == 'r');
        if text::begins(text::lowered(line), ce) {
            assert(text::lowered(line).take(27)[9] == text::lowered(line)[9]);
        }
    }
    law_a_missing_field_is_empty(lines, cd);
    law_a_missing_field_is_empty(lines, ce);
    let none = Seq::<char>::empty();
    assert(field(lines, cd) == none);
    assert(field(lines, ce) == none);
    assert(text::lowered(none) == none);
    assert(text::trimmed(none) == none);
    lemma_no_piece(kind, ';');
    text::law_trimming_takes_the_blanks_around_a_text(none, kind, none);
    assert(none + kind + none == kind);
    assert(lines.drop_last() == Seq::<Seq<char>>::empty());
    assert(file_name(lines.drop_last()).len() == 0);
    assert(file_name(lines).len() == 0);
    assert("base64"@.len() == 6);
}

/// An HTML page among the parts of a body counts as HTML to show, whatever the
/// case of its type, unless it says that it is an attachment.
pub proof fn law_an_attached_page_is_not_shown_as_html(
    kind: Seq<char>,
    name: Seq<char>,
    encoding: Seq<char>,
    body: Seq<char>,
)
    requires
        kind.len() > 0,
        !text::white_space(kind[0]),
        !text::white_space(kind.last()),
        forall|i: int| 0 <= i < kind.len() ==> (#[trigger] kind[i]) != ';',
        !text::begins(text::lowered(kind), "multipart/"@),
        name.len() > 0,
        name[0] != '"',
        name.last() != '"',
        forall|i: int| 0 <= i < name.len() ==> (#[trigger] name[i]) != ';',
    ensures
        !shown((attachment_lines(kind, name, encoding), body)).is_html,
        shown((seq!["Content-Type: "@ + kind], body)).is_html <==> text::lowered(kind)
            == "text/html"@,
{
    lemma_attachment_fields(kind, name, encoding);
    lemma_file_name(name);
    reveal_strlit("Content-Type: ");
    reveal_strlit("content-type: ");
    reveal_strlit("content-disposition: ");
    reveal_strlit("attachment");
    let line = "Content-Type: "@ + kind;
    let lines = seq![line];
    let cd = "content-disposition: "@;
    assert(text::lowered(line).take(14) == "content-type: "@);
    assert(line.skip(14) == kind);
    law_the_last_field_counts(lines, "content-type: "@, 0);
    assert(!is_field(line, cd)) by {
        assert(text::lowered(line)[8] == 't');
        assert(cd[8] == 'd');
        if text::begins(text::lowered(line), cd) {
            assert(text::lowered(line).take(21)[8] == text::lowered(line)[8]);
        }
    }
    law_a_missing_field_is_empty(lines, cd);
    let none = Seq::<char>::empty();
    assert(text::lowered(field(lines, cd)) == none);
    law_parameters_do_not_change_the_media_type(none, kind, none, none);
    assert(none + kind + none == kind);
}

/// A multipart body inside another counts, among the parts of that one, as the
/// part that it is itself shown as.
pub proof fn law_a_nested_body_counts_as_its_best_part(
    kind: Seq<char>,
    mark: Seq<char>,
    parts: Seq<(Seq<Seq<char>>, Seq<char>)>,
    encoding: Seq<char>,
)
    requires
        mark.len() > 0,
        mark[0] != '"',
        mark.last() != '"',
        forall|i: int| 0 <= i < kind.len() ==> (#[trigger] kind[i]) != ';',
        forall|i: int| 0 <= i < mark.len() ==> (#[trigger] mark[i]) != ';',
        is_boundary(mark),
        forall|i: int| 0 <= i < parts.len() ==> is_part(#[trigger] parts[i], mark),
    ensures
        body_shown(multipart_text(parts, mark), multipart_type(kind, mark), encoding) == preferred(
            bodies_of(parts),
        ),
        parts.len() == 0 ==> preferred(bodies_of(parts)).body == BodyView::Text(
            Seq::<char>::empty(),
        ),
{
    law_boundaries_read_back(kind, mark);
    law_written_parts_read_back(parts, mark);
    if parts.len() == 0 {
        assert(bodies_of(parts) == Seq::<PartView>::empty());
    }
}

/// The headers of a message end at its first blank line, in whichever way the
/// line breaks around it are written; a message without one is all headers.
pub proof fn law_headers_end_at_the_first_blank_line(s: Seq<char>, i: int, uid: u32)
    requires
        text::first_in(s, "\r\n\r\n"@) is None || text::first_in(s, "\r\n\r\n"@)->0 >= i,
        text::first_in(s, "\n\n"@) is None || text::first_in(s, "\n\n"@)->0 >= i,
    ensures
        text::first_in(s, "\r\n\r\n"@) == Some(i) && text::first_in(s, "\n\n"@) != Some(i)
            ==> message_parts(s) == (s.take(i), s.skip(i + 4)),
        text::first_in(s, "\n\n"@) == Some(i) && text::first_in(s, "\r\n\r\n"@) != Some(i)
            ==> message_parts(s) == (s.take(i), s.skip(i + 2)),
        text::first_in(s, "\r\n\r\n"@) is None && text::first_in(s, "\n\n"@) is None ==> {
            &&& message_parts(s) == (s, Seq::<char>::empty())
            &&& header_lines(s) == unfolded(text::line_seq(s))
        },
{
}

/// A part is split at the first blank line that is written with CR LF, wherever
/// it has one, and else at the first that is written with LF; one without a
/// blank line holds nothing.
pub proof fn law_a_part_is_split_at_a_blank_line(s: Seq<char>)
    ensures
        text::first_in(s, "\r\n\r\n"@) matches Some(i) ==> at_part_blank_line(s) == Some(
            (s.take(i), s.skip(i + 4)),
        ),
        text::first_in(s, "\r\n\r\n"@) is None ==> {
            &&& text::first_in(s, "\n\n"@) matches Some(i) ==> at_part_blank_line(s) == Some(
                (s.take(i), s.skip(i + 2)),
            )
            &&& text::first_in(s, "\n\n"@) is None ==> at_part_blank_line(s) is None
        },
{
}

/// A multipart body that names no boundary is shown as it is, and has no
/// attachments; neither has a body that is not multipart.
pub proof fn law_without_a_boundary_there_are_no_parts(
    raw: Seq<char>,
    content_type: Seq<char>,
    encoding: Seq<char>,
)
    requires
        !is_multipart(content_type) || boundary(content_type) is None,
    ensures
        attachments_of(raw, content_type) == Seq::<AttachmentView>::empty(),
        is_multipart(content_type) ==> body_of(raw, content_type, encoding) == BodyView::Text(raw),
{
}

/// A file name is told by `filename=` and by `filename*=`, in any case, with
/// quotation marks or without; what follows it is looked at first, so that the
/// last one counts.
pub proof fn law_a_file_name_is_told_either_way(
    params: Seq<Seq<char>>,
    key: Seq<char>,
    name: Seq<char>,
    other: Seq<char>,
)
    requires
        text::lowered(key) == "filename="@ || text::lowered(key) == "filename*="@,
        name.len() > 0,
        name[0] != '"',
        name.last() != '"',
        !text::white_space(name[0]),
        !text::white_space(name.last()),
        !is_field(text::trimmed(other), "filename="@),
        !is_field(text::trimmed(other), "filename*="@),
    ensures
        file_name_in(params.push(seq![' '] + key + name)) == Some(name),
        file_name_in(params.push(seq![' '] + key + (seq!['"'] + name + seq!['"']))) == Some(name),
        file_name_in(params.push(other)) == file_name_in(params),
        file_name_in(Seq::<Seq<char>>::empty()) is None,
{
    let quoted = seq!['"'] + name + seq!['"'];
    lemma_named_file(params, key, name);
    lemma_named_file(params, key, quoted);
    lemma_without_ends(name, '"');
    text::law_ends_are_taken_away('"', 0, name, 0);
    assert(params.push(other).drop_last() == params);
}

proof fn lemma_named_file(params: Seq<Seq<char>>, key: Seq<char>, value: Seq<char>)
    requires
        text::lowered(key) == "filename="@ || text::lowered(key) == "filename*="@,
        value.len() > 0,
        !text::white_space(value.last()),
    ensures
        file_name_in(params.push(seq![' '] + key + value)) == Some(text::without_ends(value, '"')),
{
    reveal_strlit("filename=");
    reveal_strlit("filename*=");
    let low = text::lowered(key);
    let n = key.len() as int;
    assert(low.len() == n);
    let p = key + value;
    let param = seq![' '] + key + value;
    let blank = seq![' '];
    let none = Seq::<char>::empty();
    assert(text::is_blank(blank));
    assert(low[0] == 'f');
    assert(low[0] == text::lower_char(key[0]));
    assert(!text::white_space(key[0]));
    assert(p[0] == key[0] && p.last() == value.last());
    text::law_trimming_takes_the_blanks_around_a_text(blank, p, none);
    assert(blank + p + none == param);
    assert(text::lowered(p).take(n) == low);
    assert forall|i: int| 0 <= i < n - 1 implies key[i] != '=' by {
        assert(low[i] == text::lower_char(key[i]));
        assert(low[i] != '=');
    }
    assert(key[n - 1] == '=') by {
        assert(low[n - 1] == '=');
        assert(low[n - 1] == text::lower_char(key[n - 1]));
    }
    let eq = seq!['='];
    text::lemma_first_from(p, eq, 0);
    assert(p.subrange(n - 1, n) == eq);
    assert(text::occurs_at(p, eq, n - 1));
    match text::first_in(p, eq) {
        Some(k) => {
            assert(p.subrange(k, k + 1)[0] == p[k]);
            if k < n - 1 {
                assert(p[k] == key[k]);
            }
            assert(k == n - 1);
        },
        None => {},
    }
    assert(p.skip(n) == value);
    assert(params.push(param).last() == param);
}

} // verus!

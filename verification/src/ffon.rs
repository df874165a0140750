//! FFON documents: what a message body holds when it is structured.
//!
//! FFON is a tree of texts and named sections, written as JSON. Its type and
//! its conversions from and to JSON and from HTML are `sicompass_sdk`'s.

use crate::text;
use sicompass_sdk::ffon::FfonElement;
use sicompass_sdk::ffon::FfonObject;
use vstd::prelude::*;

verus! {

/// A node of an FFON tree, `sicompass_sdk::ffon::FfonElement`.
#[verifier::external_type_specification]
pub struct ExFfonElement(FfonElement);

/// A named section of an FFON tree, `sicompass_sdk::ffon::FfonObject`.
#[verifier::external_type_specification]
pub struct ExFfonObject(FfonObject);

/// A node of an FFON tree.
pub enum Node {
    Text(Seq<char>),
    Section(Seq<char>, Seq<Node>),
}

/// What the element `e` holds.
pub open spec fn node(e: FfonElement) -> Node
    decreases e,
{
    match e {
        FfonElement::Str(s) => Node::Text(s@),
        FfonElement::Obj(o) => Node::Section(o.key@, nodes(o.children@)),
    }
}

/// What the elements `s` hold.
pub open spec fn nodes(s: Seq<FfonElement>) -> Seq<Node>
    decreases s,
{
    if s.len() == 0 {
        seq![]
    } else {
        nodes(s.drop_last()).push(node(s.last()))
    }
}

/// How many sections deep `n` is.
pub open spec fn node_depth(n: Node) -> nat
    decreases n,
{
    match n {
        Node::Text(_) => 0,
        Node::Section(_, children) => 1 + depth(children),
    }
}

/// How many sections deep the document `s` is.
pub open spec fn depth(s: Seq<Node>) -> nat
    decreases s,
{
    if s.len() == 0 {
        0
    } else {
        let last = node_depth(s.last());
        let rest = depth(s.drop_last());
        if last > rest {
            last
        } else {
            rest
        }
    }
}

/// Whether `text` is the JSON of an FFON document, as `sicompass_sdk` has it.
pub uninterp spec fn json_is_ffon(text: Seq<char>) -> bool;

/// The FFON elements that `serde_json` reads from `text`.
pub uninterp spec fn json_ffon(text: Seq<char>) -> Option<Seq<Node>>;

/// The JSON that `sicompass_sdk` writes for a document, or its complaint.
pub uninterp spec fn ffon_json(document: Seq<Node>) -> Result<Seq<char>, Seq<char>>;

/// The FFON that `sicompass_sdk` makes of `html`.
pub uninterp spec fn html_ffon(html: Seq<char>) -> Seq<Node>;

/// Whether `text` is the JSON of an FFON document.
///
/// Calls `sicompass_sdk::ffon::is_ffon` on what `serde_json::from_str` reads
/// from `text`; what is not JSON is no FFON.
#[verifier::external_body]
pub(crate) fn is_ffon_json(text: &str) -> (r: bool)
    ensures
        r == json_is_ffon(text@),
{
    serde_json::from_str::<serde_json::Value>(text).is_ok_and(|v| sicompass_sdk::ffon::is_ffon(&v))
}

/// The FFON elements of the JSON `text`, if it can be read as such.
///
/// Calls `serde_json::from_value` on what `serde_json::from_str` reads from
/// `text`.
#[verifier::external_body]
pub(crate) fn ffon_from_json(text: &str) -> (r: Option<Vec<FfonElement>>)
    ensures
        r is Some <==> json_ffon(text@) is Some,
        r matches Some(v) ==> json_ffon(text@) == Some(nodes(v@)),
{
    serde_json::from_str::<serde_json::Value>(text).ok().and_then(|v| serde_json::from_value(v).ok())
}

/// The JSON of the FFON document `elems`.
///
/// Calls `sicompass_sdk::ffon::to_json_string`. A document that nests at most
/// as many sections as `serde_json` reads (each takes two of its levels, of
/// which it reads 127) is written, is FFON, and reads back as the document it
/// was written from.
#[verifier::external_body]
pub(crate) fn ffon_to_json(elems: &Vec<FfonElement>) -> (r: Result<String, String>)
    ensures
        match r {
            Ok(text) => ffon_json(nodes(elems@)) == Ok::<Seq<char>, Seq<char>>(text@),
            Err(e) => ffon_json(nodes(elems@)) == Err::<Seq<char>, Seq<char>>(e@),
        },
        depth(nodes(elems@)) <= 63 ==> r is Ok && json_is_ffon(r->Ok_0@) && json_ffon(r->Ok_0@)
            == Some(nodes(elems@)),
{
    sicompass_sdk::ffon::to_json_string(elems).map_err(|e| e.to_string())
}

/// The FFON of an HTML text.
///
/// Calls `sicompass_sdk::ffon::html_to_ffon`, with no base address.
#[verifier::external_body]
pub(crate) fn ffon_from_html(html: &str) -> (r: Vec<FfonElement>)
    ensures
        nodes(r@) == html_ffon(html@),
{
    sicompass_sdk::ffon::html_to_ffon(html, "")
}

/// The texts of a node, depth first: a section's name, then its children's.
pub open spec fn node_lines(n: Node) -> Seq<Seq<char>>
    decreases n,
{
    match n {
        Node::Text(s) => seq![s],
        Node::Section(key, children) => seq![key] + document_lines(children),
    }
}

/// The texts of a document, depth first.
pub open spec fn document_lines(s: Seq<Node>) -> Seq<Seq<char>>
    decreases s,
{
    if s.len() == 0 {
        seq![]
    } else {
        document_lines(s.drop_last()) + node_lines(s.last())
    }
}

/// A document as plain text: its texts, each on a line of its own.
pub open spec fn document_text(s: Seq<Node>) -> Seq<char> {
    text::joined(document_lines(s), "\n"@)
}

proof fn lemma_nodes_take(s: Seq<FfonElement>, i: int)
    requires
        0 <= i < s.len(),
    ensures
        nodes(s.take(i + 1)) == nodes(s.take(i)).push(node(s[i])),
        nodes(s.take(i + 1)).drop_last() == nodes(s.take(i)),
{
    assert(s.take(i + 1).drop_last() == s.take(i));
    assert(nodes(s.take(i + 1)).drop_last() == nodes(s.take(i)));
}

fn collect_lines(elems: &Vec<FfonElement>, out: &mut Vec<Vec<char>>)
    ensures
        text::views(final(out)@) == text::views(old(out)@) + document_lines(nodes(elems@)),
    decreases elems,
{
    let mut i: usize = 0;
    assert(nodes(elems@.take(0)) == Seq::<Node>::empty());
    assert(text::views(out@) == text::views(old(out)@) + document_lines(nodes(elems@.take(0))));
    while i < elems.len()
        invariant
            i <= elems@.len(),
            text::views(out@) == text::views(old(out)@) + document_lines(nodes(elems@.take(i as int))),
        decreases elems@.len() - i,
    {
        proof {
            lemma_nodes_take(elems@, i as int);
        }
        let ghost before = out@;
        match &elems[i] {
            FfonElement::Str(s) => {
                out.push(text::chars(s.as_str()));
                assert(text::views(out@) == text::views(before) + seq![s@]);
            },
            FfonElement::Obj(o) => {
                out.push(text::chars(o.key.as_str()));
                assert(text::views(out@) == text::views(before) + seq![o.key@]);
                collect_lines(&o.children, out);
            },
        }
        assert(text::views(out@) == text::views(before) + node_lines(node(elems@[i as int])));
        assert(document_lines(nodes(elems@.take(i + 1))) == document_lines(
            nodes(elems@.take(i as int)),
        ) + node_lines(node(elems@[i as int])));
        i = i + 1;
    }
    assert(elems@.take(elems@.len() as int) == elems@);
}

/// A document as plain text: every text in it, depth first, each on a line of
/// its own.
pub fn flatten_ffon_to_text(elems: &Vec<FfonElement>) -> (r: String)
    ensures
        r@ == document_text(nodes(elems@)),
{
    let mut out: Vec<Vec<char>> = Vec::new();
    collect_lines(elems, &mut out);
    assert(text::views(out@) == document_lines(nodes(elems@)));
    text::string(&text::join(&out, "\n"))
}

// ---------------------------------------------------------------------------
// Laws
// ---------------------------------------------------------------------------

/// No text of a document is lost and none is told twice: a text is a line, a
/// section is its name and then the lines of its children, and the lines of a
/// document are those of its parts, in their order.
pub proof fn law_every_text_of_a_document_is_a_line(
    s: Seq<char>,
    key: Seq<char>,
    children: Seq<Node>,
    a: Seq<Node>,
    b: Seq<Node>,
)
    ensures
        document_lines(seq![Node::Text(s)]) == seq![s],
        document_lines(seq![Node::Section(key, children)]) == seq![key] + document_lines(children),
        document_lines(a + b) == document_lines(a) + document_lines(b),
        document_lines(Seq::<Node>::empty()) == Seq::<Seq<char>>::empty(),
    decreases b.len(),
{
    let none = Seq::<Node>::empty();
    assert(document_lines(none) == Seq::<Seq<char>>::empty());
    let one = seq![Node::Text(s)];
    let other = seq![Node::Section(key, children)];
    assert(one.drop_last() == none && one.last() == Node::Text(s));
    assert(other.drop_last() == none && other.last() == Node::Section(key, children));
    assert(document_lines(one) == document_lines(none) + node_lines(Node::Text(s)));
    assert(document_lines(other) == document_lines(none) + node_lines(
        Node::Section(key, children),
    ));
    if b.len() == 0 {
        assert(a + b == a);
    } else {
        law_every_text_of_a_document_is_a_line(s, key, children, a, b.drop_last());
        assert((a + b).drop_last() == a + b.drop_last());
        assert((a + b).last() == b.last());
    }
}

/// As plain text a document is its lines, each on one of its own: where no
/// text of it holds a line break, the text splits back into the lines.
pub proof fn law_a_document_splits_into_its_lines(document: Seq<Node>)
    requires
        document_lines(document).len() > 0,
        forall|i: int, j: int|
            #![trigger document_lines(document)[i][j]]
            0 <= i < document_lines(document).len() && 0 <= j < document_lines(document)[i].len()
                ==> document_lines(document)[i][j] != '\n',
    ensures
        text::pieces(document_text(document), seq!['\n']) == document_lines(document),
{
    reveal_strlit("\n");
    assert("\n"@ == seq!['\n']);
    text::law_joined_parts_split_back(document_lines(document), '\n');
}

} // verus!

//! Folders from what an IMAP server answers to a LIST.

use crate::types;
use crate::types::FolderInfo;
use crate::types::FolderInfoView;
use vstd::prelude::*;

verus! {

/// An attribute of a folder.
#[derive(Debug, Clone)]
pub enum NameAttribute {
    NoInferiors,
    NoSelect,
    Marked,
    Unmarked,
    All,
    Archive,
    Drafts,
    Flagged,
    Junk,
    Sent,
    Trash,
    /// Any other, with its leading backslash.
    Extension(String),
    /// One that has no name here, as it is shown.
    Other(String),
}

/// One LIST result.
#[derive(Debug, Clone)]
pub struct Name {
    pub name: String,
    pub attributes: Vec<NameAttribute>,
}

/// `a` as servers write it.
pub open spec fn attribute_text(a: NameAttribute) -> Seq<char> {
    match a {
        NameAttribute::NoInferiors => "\\Noinferiors"@,
        NameAttribute::NoSelect => "\\Noselect"@,
        NameAttribute::Marked => "\\Marked"@,
        NameAttribute::Unmarked => "\\Unmarked"@,
        NameAttribute::All => "\\All"@,
        NameAttribute::Archive => "\\Archive"@,
        NameAttribute::Drafts => "\\Drafts"@,
        NameAttribute::Flagged => "\\Flagged"@,
        NameAttribute::Junk => "\\Junk"@,
        NameAttribute::Sent => "\\Sent"@,
        NameAttribute::Trash => "\\Trash"@,
        NameAttribute::Extension(s) => s@,
        NameAttribute::Other(s) => s@,
    }
}

/// Whether `n` is a mere container of folders.
pub open spec fn is_container(n: Name) -> bool {
    exists|i: int| 0 <= i < n.attributes@.len() && (#[trigger] n.attributes@[i]) is NoSelect
}

/// What `n` is known as.
pub open spec fn folder_of(n: Name) -> FolderInfoView {
    FolderInfoView {
        name: n.name@,
        attributes: Seq::new(n.attributes@.len(), |i: int| attribute_text(n.attributes@[i])),
    }
}

/// The folders among `names`: those that are no mere containers.
pub open spec fn folders_of(names: Seq<Name>) -> Seq<FolderInfoView>
    decreases names.len(),
{
    if names.len() == 0 {
        seq![]
    } else if is_container(names.last()) {
        folders_of(names.drop_last())
    } else {
        folders_of(names.drop_last()).push(folder_of(names.last()))
    }
}

fn attribute_string(a: &NameAttribute) -> (r: String)
    ensures
        r@ == attribute_text(*a),
{
    match a {
        NameAttribute::NoInferiors => "\\Noinferiors".to_owned(),
        NameAttribute::NoSelect => "\\Noselect".to_owned(),
        NameAttribute::Marked => "\\Marked".to_owned(),
        NameAttribute::Unmarked => "\\Unmarked".to_owned(),
        NameAttribute::All => "\\All".to_owned(),
        NameAttribute::Archive => "\\Archive".to_owned(),
        NameAttribute::Drafts => "\\Drafts".to_owned(),
        NameAttribute::Flagged => "\\Flagged".to_owned(),
        NameAttribute::Junk => "\\Junk".to_owned(),
        NameAttribute::Sent => "\\Sent".to_owned(),
        NameAttribute::Trash => "\\Trash".to_owned(),
        NameAttribute::Extension(s) => s.clone(),
        NameAttribute::Other(s) => s.clone(),
    }
}

fn no_select(attributes: &Vec<NameAttribute>) -> (r: bool)
    ensures
        r == exists|i: int| 0 <= i < attributes@.len() && (#[trigger] attributes@[i]) is NoSelect,
{
    let mut i: usize = 0;
    while i < attributes.len()
        invariant
            i <= attributes@.len(),
            forall|k: int| 0 <= k < i ==> !((#[trigger] attributes@[k]) is NoSelect),
        decreases attributes@.len() - i,
    {
        if let NameAttribute::NoSelect = &attributes[i] {
            return true;
        }
        i = i + 1;
    }
    false
}

fn folder_info(n: &Name) -> (r: FolderInfo)
    ensures
        r@ == folder_of(*n),
{
    let mut attributes: Vec<String> = Vec::new();
    let mut i: usize = 0;
    while i < n.attributes.len()
        invariant
            i <= n.attributes@.len(),
            attributes@.len() == i,
            forall|k: int|
                0 <= k < i ==> (#[trigger] attributes@[k])@ == attribute_text(n.attributes@[k]),
        decreases n.attributes@.len() - i,
    {
        attributes.push(attribute_string(&n.attributes[i]));
        i = i + 1;
    }
    let r = FolderInfo { name: n.name.clone(), attributes };
    assert(r@ == folder_of(*n));
    r
}

/// The folders among `names`, each with its attributes as servers write them.
/// Mere containers are left out.
pub fn folder_infos(names: &Vec<Name>) -> (r: Vec<FolderInfo>)
    ensures
        types::folder_views(r@) == folders_of(names@),
{
    let mut out: Vec<FolderInfo> = Vec::new();
    let mut i: usize = 0;
    assert(types::folder_views(out@) == folders_of(names@.take(0)));
    while i < names.len()
        invariant
            i <= names@.len(),
            types::folder_views(out@) == folders_of(names@.take(i as int)),
        decreases names@.len() - i,
    {
        assert(names@.take(i + 1).drop_last() == names@.take(i as int));
        let ghost before = out@;
        if !no_select(&names[i].attributes) {
            let info = folder_info(&names[i]);
            out.push(info);
            assert(types::folder_views(out@) == types::folder_views(before).push(info@));
        }
        i = i + 1;
    }
    assert(names@.take(names@.len() as int) == names@);
    out
}

// ---------------------------------------------------------------------------
// Laws
// ---------------------------------------------------------------------------

/// A folder that is listed has each of its attributes under the name that RFC
/// 3501 and RFC 6154 give it: the archive is `\Archive`, the trash `\Trash`,
/// and so on. One without a name there has the name its server gave it.
pub proof fn law_attributes_have_their_standard_names(n: Name, i: int)
    requires
        0 <= i < n.attributes@.len(),
    ensures
        folder_of(n).attributes.len() == n.attributes@.len(),
        n.attributes@[i] is NoInferiors ==> folder_of(n).attributes[i] == "\\Noinferiors"@,
        n.attributes@[i] is NoSelect ==> folder_of(n).attributes[i] == "\\Noselect"@,
        n.attributes@[i] is Marked ==> folder_of(n).attributes[i] == "\\Marked"@,
        n.attributes@[i] is Unmarked ==> folder_of(n).attributes[i] == "\\Unmarked"@,
        n.attributes@[i] is All ==> folder_of(n).attributes[i] == "\\All"@,
        n.attributes@[i] is Archive ==> folder_of(n).attributes[i] == "\\Archive"@,
        n.attributes@[i] is Drafts ==> folder_of(n).attributes[i] == "\\Drafts"@,
        n.attributes@[i] is Flagged ==> folder_of(n).attributes[i] == "\\Flagged"@,
        n.attributes@[i] is Junk ==> folder_of(n).attributes[i] == "\\Junk"@,
        n.attributes@[i] is Sent ==> folder_of(n).attributes[i] == "\\Sent"@,
        n.attributes@[i] is Trash ==> folder_of(n).attributes[i] == "\\Trash"@,
        n.attributes@[i] matches NameAttribute::Extension(s) ==> folder_of(n).attributes[i] == s@,
        n.attributes@[i] matches NameAttribute::Other(s) ==> folder_of(n).attributes[i] == s@,
{
}

/// Whether `a` is an attribute that has a name of its own.
pub open spec fn is_named(a: NameAttribute) -> bool {
    !(a is Extension) && !(a is Other)
}

/// Two different attributes that have names of their own are never told by
/// the same text, and each is told by a backslash and letters.
pub proof fn law_attributes_are_told_apart(a: NameAttribute, b: NameAttribute)
    requires
        is_named(a),
        is_named(b),
    ensures
        attribute_text(a) == attribute_text(b) ==> a == b,
        attribute_text(a).len() > 1,
        attribute_text(a)[0] == '\\',
        forall|i: int|
            1 <= i < attribute_text(a).len() ==> {
                let c = #[trigger] attribute_text(a)[i];
                'a' <= c <= 'z' || 'A' <= c <= 'Z'
            },
{
    reveal_strlit("\\Noinferiors");
    reveal_strlit("\\Noselect");
    reveal_strlit("\\Marked");
    reveal_strlit("\\Unmarked");
    reveal_strlit("\\All");
    reveal_strlit("\\Archive");
    reveal_strlit("\\Drafts");
    reveal_strlit("\\Flagged");
    reveal_strlit("\\Junk");
    reveal_strlit("\\Sent");
    reveal_strlit("\\Trash");
    let s = attribute_text(a);
    let t = attribute_text(b);
    if s == t {
        assert(s.len() == t.len());
        assert(s[1] == t[1]);
        assert(s[3] == t[3]);
    }
}

/// Folders are listed in the order they came in, each on its own: one that has
/// `\Noselect` among its attributes is left out, and any other is there under
/// its name, with as many attributes as it came with.
pub proof fn law_every_folder_is_listed(before: Seq<Name>, n: Name, after: Seq<Name>)
    ensures
        folders_of(before + seq![n] + after) == folders_of(before) + folders_of(seq![n])
            + folders_of(after),
        folders_of(Seq::<Name>::empty()) == Seq::<FolderInfoView>::empty(),
        (exists|i: int| 0 <= i < n.attributes@.len() && (#[trigger] n.attributes@[i]) is NoSelect)
            ==> folders_of(seq![n]).len() == 0,
        (forall|i: int|
            0 <= i < n.attributes@.len() ==> !((#[trigger] n.attributes@[i]) is NoSelect)) ==> {
            &&& folders_of(seq![n]).len() == 1
            &&& folders_of(seq![n])[0].name == n.name@
            &&& folders_of(seq![n])[0].attributes.len() == n.attributes@.len()
        },
{
    lemma_folders_concat(before, seq![n]);
    lemma_folders_concat(before + seq![n], after);
    assert(seq![n].drop_last() == Seq::<Name>::empty());
    assert(folders_of(seq![n].drop_last()) == Seq::<FolderInfoView>::empty());
}

proof fn lemma_folders_concat(a: Seq<Name>, b: Seq<Name>)
    ensures
        folders_of(a + b) == folders_of(a) + folders_of(b),
    decreases b.len(),
{
    if b.len() == 0 {
        assert(a + b == a);
        assert(folders_of(b) == Seq::<FolderInfoView>::empty());
    } else {
        assert((a + b).drop_last() == a + b.drop_last());
        assert((a + b).last() == b.last());
        lemma_folders_concat(a, b.drop_last());
    }
}

} // verus!

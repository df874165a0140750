//! The envelope cache.
//!
//! Stores message headers (not bodies) per folder and UID, so that repeated
//! visits to a folder avoid a full IMAP round-trip when nothing has changed.
//! The cache is keyed on UIDVALIDITY: when the server reports a different one
//! for a folder, the folder is flushed and rebuilt from scratch.
//!
//! The cache is in memory. It says when it has changed since it was last
//! written out, and hands out what there is to write.

use crate::text;
use crate::types;
use crate::types::HeaderView;
use crate::types::MessageHeader;
use std::collections::BTreeMap;
use vstd::prelude::*;
use vstd::std_specs::btree::group_btree_axioms;
use vstd::utf8::*;

verus! {

broadcast use group_btree_axioms;

/// One folder's cached state.
#[derive(Debug, Clone)]
pub struct FolderCache {
    pub uidvalidity: u32,
    pub count: usize,
    pub envelopes: BTreeMap<u32, MessageHeader>,
}

/// What is cached of a folder.
#[verifier::ext_equal]
pub struct FolderView {
    pub uidvalidity: u32,
    pub count: nat,
    pub envelopes: Map<u32, HeaderView>,
}

/// A folder of which nothing is cached.
pub open spec fn empty_folder(uidvalidity: u32) -> FolderView {
    FolderView { uidvalidity, count: 0, envelopes: Map::empty() }
}

impl View for FolderCache {
    type V = FolderView;

    open spec fn view(&self) -> FolderView {
        FolderView {
            uidvalidity: self.uidvalidity,
            count: self.count as nat,
            envelopes: self.envelopes@.map_values(|h: MessageHeader| h@),
        }
    }
}

impl FolderCache {
    fn empty(uidvalidity: u32) -> (r: FolderCache)
        ensures
            r@ == empty_folder(uidvalidity),
    {
        let r = FolderCache { uidvalidity, count: 0, envelopes: BTreeMap::new() };
        assert(r@.envelopes == Map::<u32, HeaderView>::empty());
        r
    }
}

/// What is cached of `folder`: the first entry under its name.
pub open spec fn entry(folders: Seq<(String, FolderCache)>, folder: Seq<char>) -> Option<FolderView>
    decreases folders.len(),
{
    if folders.len() == 0 {
        None
    } else if folders[0].0@ == folder {
        Some(folders[0].1@)
    } else {
        entry(folders.drop_first(), folder)
    }
}

/// The cached state of every folder that has one.
pub open spec fn entries(folders: Seq<(String, FolderCache)>) -> Map<Seq<char>, FolderView> {
    Map::new(
        |folder: Seq<char>| entry(folders, folder) is Some,
        |folder: Seq<char>| entry(folders, folder)->0,
    )
}

/// The envelope cache of one account.
#[derive(Debug)]
pub struct EnvelopeCache {
    folders: Vec<(String, FolderCache)>,
    unsaved: bool,
}

impl View for EnvelopeCache {
    type V = Map<Seq<char>, FolderView>;

    closed spec fn view(&self) -> Map<Seq<char>, FolderView> {
        entries(self.folders@)
    }
}

/// Whether `k` is the greatest key of `m`.
pub open spec fn is_greatest(m: Map<u32, HeaderView>, k: u32) -> bool {
    m.contains_key(k) && forall|j: u32| #[trigger] m.contains_key(j) ==> j <= k
}

/// The greatest key of `m`.
pub open spec fn greatest(m: Map<u32, HeaderView>) -> Option<u32> {
    if exists|k: u32| is_greatest(m, k) {
        Some(choose|k: u32| is_greatest(m, k))
    } else {
        None
    }
}

/// The `limit` values of `m` with the greatest keys, the greatest first.
pub open spec fn latest(m: Map<u32, HeaderView>, limit: nat) -> Seq<HeaderView>
    decreases limit,
{
    match greatest(m) {
        Some(k) => if limit == 0 {
            seq![]
        } else {
            seq![m[k]] + latest(m.remove(k), (limit - 1) as nat)
        },
        None => seq![],
    }
}

/// `m` with each of `headers` put in under its UID, one after another.
pub open spec fn upserted(m: Map<u32, HeaderView>, headers: Seq<HeaderView>) -> Map<
    u32,
    HeaderView,
>
    decreases headers.len(),
{
    if headers.len() == 0 {
        m
    } else {
        upserted(m, headers.drop_last()).insert(headers.last().uid, headers.last())
    }
}

/// `f` with `headers` put in.
pub open spec fn folder_upserted(f: FolderView, headers: Seq<HeaderView>) -> FolderView {
    FolderView {
        uidvalidity: f.uidvalidity,
        count: upserted(f.envelopes, headers).dom().len(),
        envelopes: upserted(f.envelopes, headers),
    }
}

/// `h` with the flags that are given.
pub open spec fn flags_patched(h: HeaderView, seen: Option<bool>, flagged: Option<bool>) -> HeaderView {
    HeaderView {
        seen: match seen {
            Some(v) => v,
            None => h.seen,
        },
        flagged: match flagged {
            Some(v) => v,
            None => h.flagged,
        },
        ..h
    }
}

/// The cache `c` with the flags of one envelope changed; as it is where the
/// envelope is not cached.
pub open spec fn cache_patched(
    c: Map<Seq<char>, FolderView>,
    folder: Seq<char>,
    uid: u32,
    seen: Option<bool>,
    flagged: Option<bool>,
) -> Map<Seq<char>, FolderView> {
    if c.contains_key(folder) && c[folder].envelopes.contains_key(uid) {
        c.insert(
            folder,
            (FolderView {
                envelopes: c[folder].envelopes.insert(
                    uid,
                    flags_patched(c[folder].envelopes[uid], seen, flagged),
                ),
                ..c[folder]
            }),
        )
    } else {
        c
    }
}

/// The cache `c` with one envelope removed.
pub open spec fn cache_removed(c: Map<Seq<char>, FolderView>, folder: Seq<char>, uid: u32) -> Map<
    Seq<char>,
    FolderView,
> {
    if c.contains_key(folder) {
        c.insert(
            folder,
            (FolderView {
                count: c[folder].envelopes.remove(uid).dom().len(),
                envelopes: c[folder].envelopes.remove(uid),
                ..c[folder]
            }),
        )
    } else {
        c
    }
}

/// The cache `c` with `headers` put into `folder`.
pub open spec fn cache_upserted(
    c: Map<Seq<char>, FolderView>,
    folder: Seq<char>,
    headers: Seq<HeaderView>,
) -> Map<Seq<char>, FolderView> {
    let f = if c.contains_key(folder) {
        c[folder]
    } else {
        empty_folder(0)
    };
    c.insert(folder, folder_upserted(f, headers))
}

proof fn lemma_greatest(m: Map<u32, HeaderView>, k: u32)
    requires
        is_greatest(m, k),
    ensures
        greatest(m) == Some(k),
{
    let c = choose|k: u32| is_greatest(m, k);
    assert(is_greatest(m, c));
    assert(c <= k && k <= c);
}

proof fn lemma_entry(folders: Seq<(String, FolderCache)>, folder: Seq<char>, i: int)
    requires
        0 <= i < folders.len(),
        folders[i].0@ == folder,
        forall|j: int| 0 <= j < i ==> (#[trigger] folders[j]).0@ != folder,
    ensures
        entry(folders, folder) == Some(folders[i].1@),
    decreases folders.len(),
{
    if i > 0 {
        let rest = folders.drop_first();
        assert(folders[0].0@ != folder);
        assert forall|j: int| 0 <= j < i - 1 implies (#[trigger] rest[j]).0@ != folder by {
            assert(rest[j] == folders[j + 1]);
        }
        lemma_entry(rest, folder, i - 1);
    }
}

proof fn lemma_no_entry(folders: Seq<(String, FolderCache)>, folder: Seq<char>)
    requires
        forall|j: int| 0 <= j < folders.len() ==> (#[trigger] folders[j]).0@ != folder,
    ensures
        entry(folders, folder) is None,
    decreases folders.len(),
{
    if folders.len() > 0 {
        let rest = folders.drop_first();
        assert(folders[0].0@ != folder);
        assert forall|j: int| 0 <= j < rest.len() implies (#[trigger] rest[j]).0@ != folder by {
            assert(rest[j] == folders[j + 1]);
        }
        lemma_no_entry(rest, folder);
    }
}

/// Other folders keep their entries where one entry changes under its name.
proof fn lemma_other_entry(
    a: Seq<(String, FolderCache)>,
    b: Seq<(String, FolderCache)>,
    i: int,
    other: Seq<char>,
)
    requires
        a.len() == b.len(),
        0 <= i < a.len(),
        a[i].0@ == b[i].0@,
        a[i].0@ != other,
        forall|j: int| 0 <= j < a.len() && j != i ==> #[trigger] a[j] == b[j],
    ensures
        entry(a, other) == entry(b, other),
    decreases a.len(),
{
    if i == 0 {
        assert(a.drop_first() == b.drop_first());
    } else {
        assert(a[0] == b[0]);
        let x = a.drop_first();
        let y = b.drop_first();
        assert forall|j: int| 0 <= j < x.len() && j != i - 1 implies #[trigger] x[j] == y[j] by {
            assert(x[j] == a[j + 1]);
        }
        lemma_other_entry(x, y, i - 1, other);
    }
}

proof fn lemma_entries_changed(a: Seq<(String, FolderCache)>, b: Seq<(String, FolderCache)>, i: int)
    requires
        a.len() == b.len(),
        0 <= i < a.len(),
        a[i].0@ == b[i].0@,
        forall|j: int| 0 <= j < i ==> (#[trigger] a[j]).0@ != a[i].0@,
        forall|j: int| 0 <= j < a.len() && j != i ==> #[trigger] b[j] == a[j],
    ensures
        entries(b) == entries(a).insert(a[i].0@, b[i].1@),
{
    let folder = a[i].0@;
    assert forall|j: int| 0 <= j < i implies (#[trigger] b[j]).0@ != folder by {
        assert(b[j] == a[j]);
    }
    lemma_entry(b, folder, i);
    assert forall|other: Seq<char>| other != folder implies entry(a, other) == #[trigger] entry(
        b,
        other,
    ) by {
        lemma_other_entry(a, b, i, other);
    }
    assert(entries(b) == entries(a).insert(folder, b[i].1@));
}

proof fn lemma_push_entry(a: Seq<(String, FolderCache)>, e: (String, FolderCache), folder: Seq<char>)
    ensures
        entry(a.push(e), folder) == (match entry(a, folder) {
            Some(f) => Some(f),
            None => if e.0@ == folder {
                Some(e.1@)
            } else {
                None
            },
        }),
    decreases a.len(),
{
    let b = a.push(e);
    if a.len() == 0 {
        assert(b.drop_first() == a);
        reveal_with_fuel(entry, 2);
    } else {
        assert(b.drop_first() == a.drop_first().push(e));
        lemma_push_entry(a.drop_first(), e, folder);
    }
}

fn keys(m: &BTreeMap<u32, MessageHeader>) -> (r: Vec<u32>)
    ensures
        r@.to_set() == m@.dom(),
        forall|i: int, j: int| 0 <= i < j < r@.len() ==> r@[i] < r@[j],
{
    let mut out: Vec<u32> = Vec::new();
    for k in it: m.keys()
        invariant
            out@ == it.seq().unref().take(it.index()),
    {
        out.push(*k);
    }
    proof {
        let all = vstd::std_specs::iter::IteratorSpec::remaining(&m.keys());
        assert(out@ == all.unref());
        assert(vstd::laws_cmp::obeys_cmp::<&u32>());
        assert(vstd::std_specs::btree::increasing_seq(all));
        assert forall|i: int, j: int| 0 <= i < j < out@.len() implies out@[i] < out@[j] by {
            assert(vstd::std_specs::cmp::OrdSpec::cmp_spec(&all[i], &all[j]) is Less);
        }
    }
    out
}

impl EnvelopeCache {
    /// An empty cache.
    pub fn new() -> (r: EnvelopeCache)
        ensures
            r@ == Map::<Seq<char>, FolderView>::empty(),
            !r.is_unsaved(),
    {
        let r = EnvelopeCache { folders: Vec::new(), unsaved: false };
        assert(r@ == Map::<Seq<char>, FolderView>::empty());
        r
    }

    /// Whether the cache has changed since it was last written out.
    pub closed spec fn is_unsaved(&self) -> bool {
        self.unsaved
    }

    fn position(&self, folder: &str) -> (r: Option<usize>)
        ensures
            match r {
                Some(i) => {
                    &&& i < self.folders@.len()
                    &&& self.folders@[i as int].0@ == folder@
                    &&& self@.contains_key(folder@)
                    &&& self@[folder@] == self.folders@[i as int].1@
                    &&& forall|j: int| 0 <= j < i ==> (#[trigger] self.folders@[j]).0@ != folder@
                },
                None => {
                    &&& !self@.contains_key(folder@)
                    &&& entry(self.folders@, folder@) is None
                },
            },
    {
        let name = text::chars(folder);
        let mut i: usize = 0;
        while i < self.folders.len()
            invariant
                i <= self.folders@.len(),
                name@ == folder@,
                forall|j: int| 0 <= j < i ==> (#[trigger] self.folders@[j]).0@ != folder@,
            decreases self.folders@.len() - i,
        {
            if text::same_str(&name, self.folders[i].0.as_str()) {
                proof {
                    lemma_entry(self.folders@, folder@, i as int);
                }
                return Some(i);
            }
            i = i + 1;
        }
        proof {
            lemma_no_entry(self.folders@, folder@);
        }
        None
    }

    fn put(&mut self, at: Option<usize>, folder: &str, f: FolderCache)
        requires
            match at {
                Some(i) => {
                    &&& i < old(self).folders@.len()
                    &&& old(self).folders@[i as int].0@ == folder@
                    &&& forall|j: int|
                        0 <= j < i ==> (#[trigger] old(self).folders@[j]).0@ != folder@
                },
                None => entry(old(self).folders@, folder@) is None,
            },
        ensures
            final(self)@ == old(self)@.insert(folder@, f@),
            final(self).is_unsaved(),
    {
        let ghost before = self.folders@;
        match at {
            Some(i) => {
                let name = folder.to_owned();
                self.folders.set(i, (name, f));
                proof {
                    lemma_entries_changed(before, self.folders@, i as int);
                }
            },
            None => {
                self.folders.push((folder.to_owned(), f));
                proof {
                    let e = self.folders@.last();
                    assert(self.folders@ == before.push(e));
                    lemma_push_entry(before, e, folder@);
                    assert forall|other: Seq<char>| other != folder@ implies entry(
                        before,
                        other,
                    ) == #[trigger] entry(self.folders@, other) by {
                        lemma_push_entry(before, e, other);
                    }
                }
            },
        }
        self.unsaved = true;
        assert(self@ == entries(before).insert(folder@, f@));
    }

    /// The UIDVALIDITY stored for `folder`, or `None` if it is not cached yet.
    pub fn get_uidvalidity(&self, folder: &str) -> (r: Option<u32>)
        ensures
            r == (if self@.contains_key(folder@) {
                Some(self@[folder@].uidvalidity)
            } else {
                None
            }),
    {
        match self.position(folder) {
            Some(i) => Some(self.folders[i].1.uidvalidity),
            None => None,
        }
    }

    /// The number of envelopes cached for `folder`.
    pub fn cached_count(&self, folder: &str) -> (r: usize)
        ensures
            r == (if self@.contains_key(folder@) {
                self@[folder@].count
            } else {
                0
            }),
    {
        match self.position(folder) {
            Some(i) => self.folders[i].1.count,
            None => 0,
        }
    }

    /// The highest cached UID for `folder`, or `None` if it has none.
    pub fn max_uid(&self, folder: &str) -> (r: Option<u32>)
        ensures
            r == (if self@.contains_key(folder@) {
                greatest(self@[folder@].envelopes)
            } else {
                None
            }),
    {
        match self.position(folder) {
            Some(i) => {
                let f = &self.folders[i].1;
                let uids = keys(&f.envelopes);
                if uids.len() == 0 {
                    assert forall|k: u32| !is_greatest(f@.envelopes, k) by {
                        assert(!uids@.to_set().contains(k));
                    }
                    None
                } else {
                    let last = uids[uids.len() - 1];
                    proof {
                        assert(uids@.to_set().contains(last));
                        assert forall|j: u32| #[trigger] f@.envelopes.contains_key(j) implies j
                            <= last by {
                            assert(uids@.to_set().contains(j));
                        }
                        lemma_greatest(f@.envelopes, last);
                    }
                    Some(last)
                }
            },
            None => None,
        }
    }

    /// The `limit` most recent envelopes of `folder`, by descending UID.
    pub fn get_latest(&self, folder: &str, limit: usize) -> (r: Vec<MessageHeader>)
        ensures
            types::header_views(r@) == (if self@.contains_key(folder@) {
                latest(self@[folder@].envelopes, limit as nat)
            } else {
                seq![]
            }),
    {
        let mut out: Vec<MessageHeader> = Vec::new();
        let at = match self.position(folder) {
            Some(i) => i,
            None => {
                assert(types::header_views(out@) == Seq::<HeaderView>::empty());
                return out;
            },
        };
        let f = &self.folders[at].1;
        let uids = keys(&f.envelopes);
        let ghost all = f@.envelopes;
        let ghost rest = all;
        let mut i: usize = uids.len();
        let mut left: usize = limit;
        assert(types::header_views(out@) + latest(rest, left as nat) == latest(all, limit as nat));
        while i > 0 && left > 0
            invariant
                i <= uids@.len(),
                left <= limit,
                all == f@.envelopes,
                uids@.to_set() == f.envelopes@.dom(),
                forall|a: int, b: int| 0 <= a < b < uids@.len() ==> uids@[a] < uids@[b],
                forall|k: u32| #[trigger]
                    rest.contains_key(k) <==> exists|j: int| 0 <= j < i && uids@[j] == k,
                forall|k: u32| #[trigger]
                    rest.contains_key(k) ==> all.contains_key(k) && rest[k] == all[k],
                types::header_views(out@) + latest(rest, left as nat) == latest(all, limit as nat),
            decreases i,
        {
            let k = uids[i - 1];
            proof {
                assert(uids@[i - 1] == k);
                assert(rest.contains_key(k));
                assert forall|j: u32| #[trigger] rest.contains_key(j) implies j <= k by {}
                lemma_greatest(rest, k);
                assert(f.envelopes@.dom().contains(k));
            }
            let ghost before = out@;
            if let Some(h) = f.envelopes.get(&k) {
                out.push(h.clone());
                assert(types::header_views(out@) == types::header_views(before).push(all[k]));
                assert(types::header_views(before) + (seq![all[k]] + latest(
                    rest.remove(k),
                    (left - 1) as nat,
                )) == types::header_views(out@) + latest(rest.remove(k), (left - 1) as nat));
            }
            proof {
                let smaller = rest.remove(k);
                assert forall|q: u32| #[trigger] smaller.contains_key(q) <==> exists|j: int|
                    0 <= j < i - 1 && uids@[j] == q by {
                    if smaller.contains_key(q) {
                        assert(rest.contains_key(q));
                        let j = choose|j: int| 0 <= j < i && uids@[j] == q;
                        assert(uids@[j] == q && j != i - 1);
                    }
                    if exists|j: int| 0 <= j < i - 1 && uids@[j] == q {
                        let j = choose|j: int| 0 <= j < i - 1 && uids@[j] == q;
                        assert(0 <= j < i && uids@[j] == q);
                        assert(rest.contains_key(q));
                    }
                }
                rest = smaller;
            }
            i = i - 1;
            left = left - 1;
        }
        proof {
            if i == 0 {
                assert forall|k: u32| !is_greatest(rest, k) by {}
            }
            assert(latest(rest, left as nat) == Seq::<HeaderView>::empty());
            assert(types::header_views(out@) + Seq::<HeaderView>::empty() == types::header_views(
                out@,
            ));
        }
        out
    }

    /// Drop all cached envelopes of `folder` and record the new UIDVALIDITY.
    pub fn invalidate_folder(&mut self, folder: &str, new_uidvalidity: u32)
        ensures
            final(self)@ == old(self)@.insert(folder@, empty_folder(new_uidvalidity)),
            final(self).is_unsaved(),
    {
        let at = self.position(folder);
        self.put(at, folder, FolderCache::empty(new_uidvalidity));
    }

    /// Put a batch of envelopes into `folder`, replacing those it has under
    /// the same UIDs, and update its count.
    pub fn upsert_all(&mut self, folder: &str, headers: &[MessageHeader])
        ensures
            final(self)@ == cache_upserted(old(self)@, folder@, types::header_views(headers@)),
            final(self).is_unsaved(),
    {
        let ghost before = self.folders@;
        match self.position(folder) {
            Some(i) => {
                upsert_into(&mut self.folders[i].1, headers);
                self.unsaved = true;
                proof {
                    lemma_entries_changed(before, self.folders@, i as int);
                    assert(self@ == cache_upserted(
                        entries(before),
                        folder@,
                        types::header_views(headers@),
                    ));
                }
            },
            None => {
                let mut f = FolderCache::empty(0);
                upsert_into(&mut f, headers);
                self.put(None, folder, f);
            },
        }
    }

    /// Update both flags of one cached envelope.
    pub fn update_flags(&mut self, folder: &str, uid: u32, seen: bool, flagged: bool)
        ensures
            final(self)@ == cache_patched(old(self)@, folder@, uid, Some(seen), Some(flagged)),
            final(self).is_unsaved() == (old(self).is_unsaved() || (old(self)@.contains_key(folder@)
                && old(self)@[folder@].envelopes.contains_key(uid))),
    {
        self.patch_flags(folder, uid, Some(seen), Some(flagged));
    }

    /// Update the flags of one cached envelope that were changed. `None`
    /// leaves a flag as it is.
    pub fn patch_flags(
        &mut self,
        folder: &str,
        uid: u32,
        new_seen: Option<bool>,
        new_flagged: Option<bool>,
    )
        ensures
            final(self)@ == cache_patched(old(self)@, folder@, uid, new_seen, new_flagged),
            final(self).is_unsaved() == (old(self).is_unsaved() || (old(self)@.contains_key(folder@)
                && old(self)@[folder@].envelopes.contains_key(uid))),
    {
        let ghost before = self.folders@;
        if let Some(i) = self.position(folder) {
            let found = patch_in(&mut self.folders[i].1, uid, new_seen, new_flagged);
            if found {
                self.unsaved = true;
            }
            proof {
                lemma_entries_changed(before, self.folders@, i as int);
                assert(self@ == cache_patched(
                    entries(before),
                    folder@,
                    uid,
                    new_seen,
                    new_flagged,
                ));
            }
        }
    }

    /// Remove one cached envelope (after EXPUNGE).
    pub fn remove(&mut self, folder: &str, uid: u32)
        ensures
            final(self)@ == cache_removed(old(self)@, folder@, uid),
            final(self).is_unsaved() == (old(self).is_unsaved() || old(self)@.contains_key(folder@)),
    {
        let ghost before = self.folders@;
        if let Some(i) = self.position(folder) {
            remove_from(&mut self.folders[i].1, uid);
            self.unsaved = true;
            proof {
                lemma_entries_changed(before, self.folders@, i as int);
                assert(self@ == cache_removed(entries(before), folder@, uid));
            }
        }
    }

    /// The cache that was written out as `folders`.
    pub fn from_saved(folders: Vec<(String, FolderCache)>) -> (r: EnvelopeCache)
        ensures
            r@ == entries(folders@),
            !r.is_unsaved(),
    {
        EnvelopeCache { folders, unsaved: false }
    }

    /// What there is to write out.
    pub fn saved(&self) -> (r: &Vec<(String, FolderCache)>)
        ensures
            entries(r@) == self@,
    {
        &self.folders
    }

    /// Whether the cache has changed since this was last asked.
    pub fn take_unsaved(&mut self) -> (r: bool)
        ensures
            r == old(self).is_unsaved(),
            !final(self).is_unsaved(),
            final(self)@ == old(self)@,
    {
        let r = self.unsaved;
        self.unsaved = false;
        r
    }
}

fn upsert_into(f: &mut FolderCache, headers: &[MessageHeader])
    ensures
        final(f)@ == folder_upserted(old(f)@, types::header_views(headers@)),
{
    let ghost all = types::header_views(headers@);
    let mut i: usize = 0;
    while i < headers.len()
        invariant
            i <= headers@.len(),
            all == types::header_views(headers@),
            f.uidvalidity == old(f).uidvalidity,
            f@.envelopes == upserted(old(f)@.envelopes, all.take(i as int)),
        decreases headers@.len() - i,
    {
        assert(all.take(i + 1).drop_last() == all.take(i as int));
        let h = headers[i].clone();
        let ghost before = f.envelopes@;
        f.envelopes.insert(h.uid, h);
        assert(f@.envelopes == before.map_values(|h: MessageHeader| h@).insert(h.uid, h@));
        i = i + 1;
    }
    f.count = f.envelopes.len();
    assert(all.take(headers@.len() as int) == all);
    assert(f@.envelopes.dom() == f.envelopes@.dom());
    assert(f@ == folder_upserted(old(f)@, all));
}

fn patch_in(f: &mut FolderCache, uid: u32, seen: Option<bool>, flagged: Option<bool>) -> (r: bool)
    ensures
        r == old(f)@.envelopes.contains_key(uid),
        r ==> final(f)@ == (FolderView {
            envelopes: old(f)@.envelopes.insert(
                uid,
                flags_patched(old(f)@.envelopes[uid], seen, flagged),
            ),
            ..old(f)@
        }),
        !r ==> final(f)@ == old(f)@,
{
    let mut h = match f.envelopes.get(&uid) {
        Some(h) => h.clone(),
        None => return false,
    };
    let ghost was = h@;
    if let Some(v) = seen {
        h.seen = v;
    }
    if let Some(v) = flagged {
        h.flagged = v;
    }
    assert(h@ == flags_patched(was, seen, flagged));
    let ghost before = f.envelopes@;
    f.envelopes.insert(uid, h);
    assert(f@.envelopes == before.map_values(|h: MessageHeader| h@).insert(uid, h@));
    true
}

fn remove_from(f: &mut FolderCache, uid: u32)
    ensures
        final(f)@ == (FolderView {
            count: old(f)@.envelopes.remove(uid).dom().len(),
            envelopes: old(f)@.envelopes.remove(uid),
            ..old(f)@
        }),
{
    let ghost before = f.envelopes@;
    f.envelopes.remove(&uid);
    f.count = f.envelopes.len();
    assert(f@.envelopes == before.map_values(|h: MessageHeader| h@).remove(uid));
    assert(f@.envelopes.dom() == f.envelopes@.dom());
}

// ---------------------------------------------------------------------------
// Where the cache is kept
// ---------------------------------------------------------------------------

/// The hexadecimal digit `d`.
pub open spec fn hex_digit(d: nat) -> char {
    if d < 10 {
        (48 + d) as char
    } else {
        (87 + d) as char
    }
}

/// `bytes` in hexadecimal, two digits each.
pub open spec fn hex(bytes: Seq<u8>) -> Seq<char>
    decreases bytes.len(),
{
    if bytes.len() == 0 {
        seq![]
    } else {
        hex(bytes.drop_last()).push(hex_digit(bytes.last() as nat / 16)).push(
            hex_digit(bytes.last() as nat % 16),
        )
    }
}

/// The name of the file that holds the cache of `username`.
pub open spec fn file_name_of(username: Seq<char>) -> Seq<char> {
    hex(encode_utf8(username)) + ".json"@
}

fn push_hex_digit(out: &mut Vec<char>, d: u8)
    requires
        d < 16,
    ensures
        final(out)@ == old(out)@.push(hex_digit(d as nat)),
{
    if d < 10 {
        out.push((48 + d) as char);
    } else {
        out.push((87 + d) as char);
    }
}

/// The name of the file that holds the cache of `username`: its bytes in
/// hexadecimal, so any name makes a safe file name.
pub fn cache_file_name(username: &str) -> (r: String)
    ensures
        r@ == file_name_of(username@),
{
    let bytes = username.as_bytes();
    let mut out: Vec<char> = Vec::new();
    let mut i: usize = 0;
    while i < bytes.len()
        invariant
            i <= bytes@.len(),
            out@ == hex(bytes@.take(i as int)),
        decreases bytes@.len() - i,
    {
        assert(bytes@.take(i + 1).drop_last() == bytes@.take(i as int));
        push_hex_digit(&mut out, bytes[i] / 16);
        push_hex_digit(&mut out, bytes[i] % 16);
        i = i + 1;
    }
    assert(bytes@.take(bytes@.len() as int) == bytes@);
    text::extend_str(&mut out, ".json");
    text::string(&out)
}

/// The folder that cache files live under.
#[derive(Debug, PartialEq, Eq, Structural, Clone, Copy)]
pub enum CacheHome {
    /// `$XDG_CACHE_HOME/sicompass/email`.
    Xdg,
    /// `$HOME/.cache/sicompass/email`.
    Home,
    /// There is none.
    Nowhere,
}

/// Where cache files live: under `$XDG_CACHE_HOME` where it is set to
/// something, else under `$HOME` where it is set.
pub fn cache_home(xdg_is_given: bool, home_is_set: bool) -> (r: CacheHome)
    ensures
        r == (if xdg_is_given {
            CacheHome::Xdg
        } else if home_is_set {
            CacheHome::Home
        } else {
            CacheHome::Nowhere
        }),
{
    if xdg_is_given {
        CacheHome::Xdg
    } else if home_is_set {
        CacheHome::Home
    } else {
        CacheHome::Nowhere
    }
}

proof fn lemma_hex_digit_injective(d: nat, e: nat)
    requires
        d < 16,
        e < 16,
        hex_digit(d) == hex_digit(e),
    ensures
        d == e,
{
    assert(hex_digit(d) as nat == (if d < 10 {
        48 + d
    } else {
        87 + d
    }));
    assert(hex_digit(e) as nat == (if e < 10 {
        48 + e
    } else {
        87 + e
    }));
}

proof fn lemma_hex_injective(a: Seq<u8>, b: Seq<u8>)
    requires
        hex(a) == hex(b),
    ensures
        a == b,
    decreases a.len(),
{
    if a.len() == 0 {
        if b.len() > 0 {
            assert(hex(b).len() > 0);
        }
    } else if b.len() == 0 {
        assert(hex(a).len() > 0);
    } else {
        let ha = hex(a.drop_last()).push(hex_digit(a.last() as nat / 16));
        let hb = hex(b.drop_last()).push(hex_digit(b.last() as nat / 16));
        assert(hex(a).last() == hex_digit(a.last() as nat % 16));
        assert(hex(b).last() == hex_digit(b.last() as nat % 16));
        assert(hex(a).drop_last() == ha);
        assert(hex(b).drop_last() == hb);
        assert(ha.last() == hb.last());
        assert(ha.drop_last() == hex(a.drop_last()));
        assert(hb.drop_last() == hex(b.drop_last()));
        lemma_hex_injective(a.drop_last(), b.drop_last());
        lemma_hex_digit_injective(a.last() as nat / 16, b.last() as nat / 16);
        lemma_hex_digit_injective(a.last() as nat % 16, b.last() as nat % 16);
        assert(a == a.drop_last().push(a.last()));
        assert(b == b.drop_last().push(b.last()));
    }
}

/// Two accounts never share a cache file.
pub proof fn law_accounts_have_their_own_files(a: Seq<char>, b: Seq<char>)
    requires
        file_name_of(a) == file_name_of(b),
    ensures
        a == b,
{
    let n = file_name_of(a).len() - ".json"@.len();
    assert(file_name_of(a).take(n) == hex(encode_utf8(a)));
    assert(file_name_of(b).take(n) == hex(encode_utf8(b)));
    lemma_hex_injective(encode_utf8(a), encode_utf8(b));
    encode_utf8_decode_utf8(a);
    encode_utf8_decode_utf8(b);
}

// ---------------------------------------------------------------------------
// Laws
// ---------------------------------------------------------------------------

/// Whether every folder's count is the number of its envelopes, and every
/// envelope is kept under its own UID.
pub open spec fn consistent(c: Map<Seq<char>, FolderView>) -> bool {
    forall|folder: Seq<char>| #[trigger]
        c.contains_key(folder) ==> {
            &&& c[folder].envelopes.dom().finite()
            &&& c[folder].count == c[folder].envelopes.dom().len()
            &&& forall|uid: u32| #[trigger]
                c[folder].envelopes.contains_key(uid) ==> c[folder].envelopes[uid].uid == uid
        }
}

proof fn lemma_upserted_keyed(m: Map<u32, HeaderView>, headers: Seq<HeaderView>)
    requires
        m.dom().finite(),
        forall|uid: u32| #[trigger] m.contains_key(uid) ==> m[uid].uid == uid,
    ensures
        upserted(m, headers).dom().finite(),
        forall|uid: u32| #[trigger]
            upserted(m, headers).contains_key(uid) ==> upserted(m, headers)[uid].uid == uid,
    decreases headers.len(),
{
    if headers.len() > 0 {
        lemma_upserted_keyed(m, headers.drop_last());
    }
}

/// Whatever is done to a consistent cache leaves it consistent; an empty
/// cache is.
pub proof fn law_the_cache_stays_consistent(
    c: Map<Seq<char>, FolderView>,
    folder: Seq<char>,
    uidvalidity: u32,
    headers: Seq<HeaderView>,
    uid: u32,
    seen: Option<bool>,
    flagged: Option<bool>,
)
    requires
        consistent(c),
    ensures
        consistent(Map::empty()),
        consistent(c.insert(folder, empty_folder(uidvalidity))),
        consistent(cache_upserted(c, folder, headers)),
        consistent(cache_patched(c, folder, uid, seen, flagged)),
        consistent(cache_removed(c, folder, uid)),
{
    let f = if c.contains_key(folder) {
        c[folder]
    } else {
        empty_folder(0)
    };
    lemma_upserted_keyed(f.envelopes, headers);
    if c.contains_key(folder) && c[folder].envelopes.contains_key(uid) {
        let patched = cache_patched(c, folder, uid, seen, flagged);
        assert(patched[folder].envelopes.dom() == c[folder].envelopes.dom());
        assert(consistent(patched));
    }
}

proof fn lemma_has_greatest(m: Map<u32, HeaderView>)
    requires
        m.dom().finite(),
    ensures
        m.dom().len() > 0 ==> greatest(m) is Some,
        greatest(m) matches Some(k) ==> is_greatest(m, k),
    decreases m.dom().len(),
{
    if m.dom().len() > 0 {
        let k = m.dom().choose();
        assert(m.contains_key(k));
        let rest = m.remove(k);
        lemma_has_greatest(rest);
        if rest.dom().len() == 0 {
            assert forall|j: u32| #[trigger] m.contains_key(j) implies j <= k by {
                if j != k {
                    assert(rest.dom().contains(j));
                }
            }
            lemma_greatest(m, k);
        } else {
            let g = greatest(rest)->0;
            let top = if g > k {
                g
            } else {
                k
            };
            assert forall|j: u32| #[trigger] m.contains_key(j) implies j <= top by {
                if j != k {
                    assert(rest.contains_key(j));
                }
            }
            lemma_greatest(m, top);
        }
    }
}

/// A listing holds as many envelopes as it may and there are, all of them
/// cached, with the highest UIDs first.
pub proof fn law_a_listing_is_the_newest_first(m: Map<u32, HeaderView>, limit: nat)
    requires
        m.dom().finite(),
        forall|uid: u32| #[trigger] m.contains_key(uid) ==> m[uid].uid == uid,
    ensures
        latest(m, limit).len() == (if limit < m.dom().len() {
            limit
        } else {
            m.dom().len()
        }),
        forall|i: int|
            0 <= i < latest(m, limit).len() ==> {
                let h = #[trigger] latest(m, limit)[i];
                m.contains_key(h.uid) && m[h.uid] == h
            },
        forall|i: int, j: int|
            0 <= i < j < latest(m, limit).len() ==> latest(m, limit)[i].uid > latest(m, limit)[j].uid,
        forall|uid: u32, i: int|
            0 <= i < latest(m, limit).len() && #[trigger] m.contains_key(uid) && uid > (
            #[trigger] latest(m, limit)[i]).uid ==> exists|j: int|
                0 <= j < i && latest(m, limit)[j] == m[uid],
    decreases limit,
{
    lemma_has_greatest(m);
    if limit > 0 && m.dom().len() > 0 {
        let k = greatest(m)->0;
        let rest = m.remove(k);
        let less = (limit - 1) as nat;
        law_a_listing_is_the_newest_first(rest, less);
        let all = latest(m, limit);
        let tail = latest(rest, less);
        assert(all == seq![m[k]] + tail);
        assert forall|i: int| 0 <= i < all.len() implies {
            let h = #[trigger] all[i];
            m.contains_key(h.uid) && m[h.uid] == h
        } by {
            if i > 0 {
                assert(all[i] == tail[i - 1]);
                assert(rest.contains_key(tail[i - 1].uid));
            }
        }
        assert forall|i: int, j: int| 0 <= i < j < all.len() implies all[i].uid > all[j].uid by {
            assert(all[j] == tail[j - 1]);
            assert(rest.contains_key(tail[j - 1].uid));
            if i > 0 {
                assert(all[i] == tail[i - 1]);
            }
        }
        assert forall|uid: u32, i: int|
            0 <= i < all.len() && #[trigger] m.contains_key(uid) && uid > (
            #[trigger] all[i]).uid implies exists|j: int| 0 <= j < i && all[j] == m[uid] by {
            if uid == k {
                assert(all[0] == m[uid]);
            } else {
                assert(rest.contains_key(uid));
                assert(all[i] == tail[i - 1]);
                let j = choose|j: int| 0 <= j < i - 1 && tail[j] == rest[uid];
                assert(all[j + 1] == m[uid]);
            }
        }
    }
}

/// What was put into a folder is found there: the last header put in under a
/// UID, and what the folder had under the UIDs that were not put in.
pub proof fn law_what_is_put_in_is_found(m: Map<u32, HeaderView>, headers: Seq<HeaderView>, uid: u32)
    ensures
        (forall|i: int| 0 <= i < headers.len() ==> (#[trigger] headers[i]).uid != uid) ==> (upserted(
            m,
            headers,
        ).contains_key(uid) == m.contains_key(uid) && upserted(m, headers)[uid] == m[uid]),
        forall|i: int|
            #![trigger headers[i]]
            0 <= i < headers.len() && headers[i].uid == uid && (forall|j: int|
                i < j < headers.len() ==> (#[trigger] headers[j]).uid != uid) ==> upserted(
                m,
                headers,
            ).contains_key(uid) && upserted(m, headers)[uid] == headers[i],
    decreases headers.len(),
{
    if headers.len() > 0 {
        let before = headers.drop_last();
        law_what_is_put_in_is_found(m, before, uid);
        if forall|i: int| 0 <= i < headers.len() ==> (#[trigger] headers[i]).uid != uid {
            assert forall|i: int| 0 <= i < before.len() implies (#[trigger] before[i]).uid
                != uid by {
                assert(before[i] == headers[i]);
            }
            assert(headers[headers.len() - 1].uid != uid);
        }
        assert forall|i: int|
            #![trigger headers[i]]
            0 <= i < headers.len() && headers[i].uid == uid && (forall|j: int|
                i < j < headers.len() ==> (#[trigger] headers[j]).uid != uid) implies upserted(
            m,
            headers,
        ).contains_key(uid) && upserted(m, headers)[uid] == headers[i] by {
            if i < headers.len() - 1 {
                assert(before[i] == headers[i]);
                assert(headers[headers.len() - 1].uid != uid);
                assert forall|j: int| i < j < before.len() implies (#[trigger] before[j]).uid
                    != uid by {
                    assert(before[j] == headers[j]);
                }
            }
        }
    }
}

proof fn lemma_entry_is_one(folders: Seq<(String, FolderCache)>, folder: Seq<char>)
    ensures
        match entry(folders, folder) {
            Some(f) => exists|i: int|
                0 <= i < folders.len() && (#[trigger] folders[i]).0@ == folder && folders[i].1@ == f,
            None => forall|i: int| 0 <= i < folders.len() ==> (#[trigger] folders[i]).0@ != folder,
        },
    decreases folders.len(),
{
    if folders.len() > 0 && folders[0].0@ != folder {
        let rest = folders.drop_first();
        lemma_entry_is_one(rest, folder);
        match entry(rest, folder) {
            Some(f) => {
                let i = choose|i: int|
                    0 <= i < rest.len() && (#[trigger] rest[i]).0@ == folder && rest[i].1@ == f;
                assert(folders[i + 1] == rest[i]);
            },
            None => {
                assert forall|i: int| 0 <= i < folders.len() implies (#[trigger] folders[i]).0@
                    != folder by {
                    if i > 0 {
                        assert(rest[i - 1] == folders[i]);
                    }
                }
            },
        }
    }
}

/// A cache that was written out reads back as it was, in whatever order its
/// folders were written: all that matters is that each folder it has is there,
/// with what is cached of it.
pub proof fn law_a_saved_cache_reads_back(
    saved: Seq<(String, FolderCache)>,
    read: Seq<(String, FolderCache)>,
)
    requires
        forall|i: int|
            0 <= i < read.len() ==> entry(saved, (#[trigger] read[i]).0@) == Some(read[i].1@),
        forall|folder: Seq<char>| #[trigger]
            entry(saved, folder) is Some ==> exists|i: int|
                0 <= i < read.len() && (#[trigger] read[i]).0@ == folder,
    ensures
        entries(read) == entries(saved),
{
    assert forall|folder: Seq<char>| #[trigger] entry(read, folder) == entry(saved, folder) by {
        lemma_entry_is_one(read, folder);
        if entry(saved, folder) is Some {
            let i = choose|i: int| 0 <= i < read.len() && (#[trigger] read[i]).0@ == folder;
            assert(read[i].0@ == folder);
        }
    }
    assert(entries(read) == entries(saved));
}

/// Changing the flags of an envelope changes those that are given, to what
/// they are given as, and nothing else of it. No other envelope changes, and
/// none comes or goes.
pub proof fn law_only_the_given_flags_change(
    c: Map<Seq<char>, FolderView>,
    folder: Seq<char>,
    uid: u32,
    seen: Option<bool>,
    flagged: Option<bool>,
    other_folder: Seq<char>,
    other_uid: u32,
)
    ensures
        ({
            let after = cache_patched(c, folder, uid, seen, flagged);
            &&& after.dom() == c.dom()
            &&& other_folder != folder ==> after[other_folder] == c[other_folder]
            &&& c.contains_key(folder) ==> {
                &&& after[folder].uidvalidity == c[folder].uidvalidity
                &&& after[folder].count == c[folder].count
                &&& after[folder].envelopes.dom() == c[folder].envelopes.dom()
                &&& other_uid != uid ==> after[folder].envelopes[other_uid]
                    == c[folder].envelopes[other_uid]
            }
            &&& c.contains_key(folder) && c[folder].envelopes.contains_key(uid) ==> {
                let was = c[folder].envelopes[uid];
                let is = after[folder].envelopes[uid];
                &&& seen matches Some(v) ==> is.seen == v
                &&& seen is None ==> is.seen == was.seen
                &&& flagged matches Some(v) ==> is.flagged == v
                &&& flagged is None ==> is.flagged == was.flagged
                &&& is.uid == was.uid
                &&& is.from == was.from
                &&& is.subject == was.subject
                &&& is.date == was.date
                &&& is.message_id == was.message_id
            }
        }),
{
    let after = cache_patched(c, folder, uid, seen, flagged);
    assert(after.dom() == c.dom());
    if c.contains_key(folder) {
        assert(after[folder].envelopes.dom() == c[folder].envelopes.dom());
    }
}

/// Removing an envelope takes it out of its folder, and no other.
pub proof fn law_only_the_removed_envelope_goes(
    c: Map<Seq<char>, FolderView>,
    folder: Seq<char>,
    uid: u32,
    other_folder: Seq<char>,
    other_uid: u32,
)
    ensures
        ({
            let after = cache_removed(c, folder, uid);
            &&& after.dom() == c.dom()
            &&& other_folder != folder ==> after[other_folder] == c[other_folder]
            &&& c.contains_key(folder) ==> {
                &&& !after[folder].envelopes.contains_key(uid)
                &&& after[folder].uidvalidity == c[folder].uidvalidity
                &&& other_uid != uid ==> {
                    &&& after[folder].envelopes.contains_key(other_uid)
                        == c[folder].envelopes.contains_key(other_uid)
                    &&& after[folder].envelopes[other_uid] == c[folder].envelopes[other_uid]
                }
            }
        }),
{
    assert(cache_removed(c, folder, uid).dom() == c.dom());
}

/// What is put into a folder joins what the folder has, whose UIDVALIDITY
/// stays; a folder that was not cached has UIDVALIDITY 0 and nothing else. No
/// other folder changes.
pub proof fn law_what_is_put_in_joins_the_folder(
    c: Map<Seq<char>, FolderView>,
    folder: Seq<char>,
    headers: Seq<HeaderView>,
    uid: u32,
    other_folder: Seq<char>,
)
    ensures
        ({
            let after = cache_upserted(c, folder, headers);
            let had = c.contains_key(folder) && c[folder].envelopes.contains_key(uid);
            &&& after.contains_key(folder)
            &&& other_folder != folder ==> after.contains_key(other_folder) == c.contains_key(
                other_folder,
            ) && after[other_folder] == c[other_folder]
            &&& after[folder].uidvalidity == (if c.contains_key(folder) {
                c[folder].uidvalidity
            } else {
                0
            })
            &&& after[folder].envelopes.contains_key(uid) <==> had || exists|i: int|
                0 <= i < headers.len() && (#[trigger] headers[i]).uid == uid
            &&& had && (forall|i: int|
                0 <= i < headers.len() ==> (#[trigger] headers[i]).uid != uid)
                ==> after[folder].envelopes[uid] == c[folder].envelopes[uid]
            &&& forall|i: int|
                #![trigger headers[i]]
                0 <= i < headers.len() && headers[i].uid == uid && (forall|j: int|
                    i < j < headers.len() ==> (#[trigger] headers[j]).uid != uid)
                    ==> after[folder].envelopes[uid] == headers[i]
        }),
{
    let f = if c.contains_key(folder) {
        c[folder]
    } else {
        empty_folder(0)
    };
    law_what_is_put_in_is_found(f.envelopes, headers, uid);
    if exists|i: int| 0 <= i < headers.len() && (#[trigger] headers[i]).uid == uid {
        let i = choose|i: int| 0 <= i < headers.len() && (#[trigger] headers[i]).uid == uid;
        lemma_put_in(f.envelopes, headers, i);
    }
}

pub(crate) proof fn lemma_put_in(m: Map<u32, HeaderView>, headers: Seq<HeaderView>, i: int)
    requires
        0 <= i < headers.len(),
    ensures
        upserted(m, headers).contains_key(headers[i].uid),
    decreases headers.len(),
{
    if i < headers.len() - 1 {
        let less = headers.drop_last();
        assert(less[i] == headers[i]);
        lemma_put_in(m, less, i);
    }
}

/// A folder that is flushed has its new UIDVALIDITY and no envelopes.
pub proof fn law_a_flushed_folder_is_empty(uidvalidity: u32, uid: u32)
    ensures
        empty_folder(uidvalidity).uidvalidity == uidvalidity,
        empty_folder(uidvalidity).count == 0,
        !empty_folder(uidvalidity).envelopes.contains_key(uid),
{
}

/// The greatest UID is one that is cached and that no other exceeds; there is
/// one wherever anything is cached.
pub proof fn law_the_greatest_uid_is_found(m: Map<u32, HeaderView>, uid: u32)
    requires
        m.dom().finite(),
    ensures
        m.contains_key(uid) ==> (greatest(m) matches Some(k) && m.contains_key(k) && uid <= k),
        greatest(m) matches Some(k) ==> m.contains_key(k),
{
    lemma_has_greatest(m);
    if m.contains_key(uid) {
        assert(m.dom().contains(uid));
        assert(m.dom().len() > 0);
    }
}

/// A cache has the folders that it was written out with, each with what was
/// written under its name, and no others.
pub proof fn law_a_folder_is_found_under_its_name(
    folders: Seq<(String, FolderCache)>,
    i: int,
    folder: Seq<char>,
)
    requires
        forall|j: int, k: int|
            0 <= j < k < folders.len() ==> (#[trigger] folders[j]).0@ != (#[trigger] folders[k]).0@,
    ensures
        0 <= i < folders.len() ==> entries(folders).contains_key(folders[i].0@)
            && entries(folders)[folders[i].0@] == folders[i].1@,
        (forall|j: int| 0 <= j < folders.len() ==> (#[trigger] folders[j]).0@ != folder)
            ==> !entries(folders).contains_key(folder),
{
    if 0 <= i < folders.len() {
        lemma_entry(folders, folders[i].0@, i);
    }
    if forall|j: int| 0 <= j < folders.len() ==> (#[trigger] folders[j]).0@ != folder {
        lemma_no_entry(folders, folder);
    }
}

proof fn lemma_hex(bytes: Seq<u8>, i: int)
    requires
        0 <= i < bytes.len(),
    ensures
        hex(bytes).len() == 2 * bytes.len(),
        hex(bytes)[2 * i] == hex_digit(bytes[i] as nat / 16),
        hex(bytes)[2 * i + 1] == hex_digit(bytes[i] as nat % 16),
    decreases bytes.len(),
{
    let less = bytes.drop_last();
    if less.len() > 0 {
        if i < less.len() {
            lemma_hex(less, i);
            assert(less[i] == bytes[i]);
        } else {
            lemma_hex(less, 0);
        }
    } else {
        assert(hex(less).len() == 0);
    }
}

/// The name of a cache file is made of the digits and the letters `a` to `f`,
/// and ends in `.json`: nothing in an account's name can make it another path.
pub proof fn law_file_names_are_safe(username: Seq<char>, i: int)
    ensures
        ({
            let name = file_name_of(username);
            let n = 2 * encode_utf8(username).len() as int;
            &&& name.len() == n + 5
            &&& name.skip(n) == ".json"@
            &&& 0 <= i < n ==> (48 <= name[i] as u32 <= 57 || 97 <= name[i] as u32 <= 102)
        }),
{
    let bytes = encode_utf8(username);
    reveal_strlit(".json");
    if bytes.len() == 0 {
        assert(hex(bytes).len() == 0);
    } else {
        lemma_hex(bytes, 0);
    }
    let name = file_name_of(username);
    assert(name.skip(hex(bytes).len() as int) == ".json"@);
    if 0 <= i < 2 * bytes.len() {
        lemma_hex(bytes, i / 2);
        assert(name[i] == hex(bytes)[i]);
        assert(i == 2 * (i / 2) || i == 2 * (i / 2) + 1);
    }
}

/// Cache files live under the cache folder that was set, else under the home
/// folder, and nowhere where there is neither.
pub proof fn law_the_cache_has_a_home(xdg_is_given: bool, home_is_set: bool, r: CacheHome)
    requires
        call_ensures(cache_home, (xdg_is_given, home_is_set), r),
    ensures
        r == CacheHome::Xdg <==> xdg_is_given,
        r == CacheHome::Nowhere <==> !xdg_is_given && !home_is_set,
{
}

} // verus!

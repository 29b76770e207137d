//! The two-tier document store.
//!
//! The saved tier holds every indexed document as it is on disk. The overlay
//! holds the buffers of open documents that differ from their saved copy; an
//! open document that does not differ has no entry there and shares the saved
//! copy. Saving is the one way in which a buffer's content becomes saved content.
use vstd::prelude::*;
use crate::components;
use crate::diagnostic;
use crate::diagnostic::{DiagView, Diagnostic};
use crate::path;
use crate::pathmap::PathMap;
use crate::sorted;
use crate::sorted::KeyOrder;
use crate::structural::ledger::{FileSuppressions, SuppressionView};
use crate::text;
use crate::workspace;
use crate::workspace::{BacklinkDiagnostic, FileData, FileView, Files, Unknown};

verus! {

/// A parsed document and the deepest scope root that covers it.
#[derive(Debug)]
pub struct Document {
    pub data: FileData,
    /// None for a document outside every scope.
    pub primary_root: Option<String>,
}

/// A document, as text.
#[verifier::ext_equal]
pub struct DocView {
    pub data: FileView,
    pub root: Option<Seq<u8>>,
}

/// The path that a text which may be missing names.
pub open spec fn maybe(t: Option<String>) -> Option<Seq<u8>> {
    match t {
        Some(s) => Some(path::named(s@)),
        None => None,
    }
}

impl View for Document {
    type V = DocView;

    open spec fn view(&self) -> DocView {
        DocView { data: self.data@, root: maybe(self.primary_root) }
    }
}

/// Which copy of a document is meant.
#[derive(Clone, Copy, Debug, PartialEq, Eq, Structural)]
pub enum Tier {
    /// The copy on disk.
    Saved,
    /// The buffer of an open document.
    Overlay,
}

/// What a write to the saved tier leaves to be recomputed.
#[derive(Clone, Copy, Debug, PartialEq, Eq, Structural)]
pub enum DiskUpdate {
    /// Nothing changed.
    Untouched,
    /// The content of one document was replaced.
    Content,
    /// A document joined or left.
    Membership,
}

/// The documents of a tier, as text.
pub open spec fn docs(map: Map<Seq<u8>, Document>) -> Map<Seq<u8>, DocView> {
    Map::new(|k: Seq<u8>| map.contains_key(k), |k: Seq<u8>| map[k]@)
}

/// Both tiers, as text.
#[verifier::ext_equal]
pub struct StoreView {
    pub saved: Map<Seq<u8>, DocView>,
    pub overlay: Map<Seq<u8>, DocView>,
}

impl StoreView {
    pub open spec fn tier(self, tier: Tier) -> Map<Seq<u8>, DocView> {
        match tier {
            Tier::Saved => self.saved,
            Tier::Overlay => self.overlay,
        }
    }

    pub open spec fn with_tier(self, tier: Tier, docs: Map<Seq<u8>, DocView>) -> StoreView {
        match tier {
            Tier::Saved => StoreView { saved: docs, ..self },
            Tier::Overlay => StoreView { overlay: docs, ..self },
        }
    }

    /// Every document at its current text: its buffer if it has one, else its
    /// saved copy.
    pub open spec fn current(self) -> Map<Seq<u8>, DocView> {
        self.saved.union_prefer_right(self.overlay)
    }
}

/// The documents of a tier that a root owns, under their paths relative to it.
pub open spec fn files_of(docs: Map<Seq<u8>, DocView>, root: Seq<u8>) -> Map<Seq<u8>, FileView> {
    Map::new(
        |rel: Seq<u8>|
            docs.contains_key(path::absolute(root, rel)) && docs[path::absolute(root, rel)].root
                == Some(root),
        |rel: Seq<u8>| docs[path::absolute(root, rel)].data,
    )
}

/// The documents of a tier at or under a directory.
pub open spec fn docs_under(docs: Map<Seq<u8>, DocView>, root: Seq<u8>) -> Map<Seq<u8>, DocView> {
    Map::new(|k: Seq<u8>| docs.contains_key(k) && path::under(k, root), |k: Seq<u8>| docs[k])
}

/// The documents of a tier under a root that owns them.
pub open spec fn docs_owned(docs: Map<Seq<u8>, DocView>, root: Seq<u8>) -> Map<Seq<u8>, DocView> {
    Map::new(
        |k: Seq<u8>| docs.contains_key(k) && path::under(k, root) && docs[k].root == Some(root),
        |k: Seq<u8>| docs[k],
    )
}

/// The documents that a root's own documents are judged against when `focus`
/// is judged: the saved ones, with the buffer of `focus` in the place of its
/// saved copy.
pub open spec fn perspective(s: StoreView, root: Seq<u8>, focus: Seq<u8>) -> Map<
    Seq<u8>,
    FileView,
> {
    if s.overlay.contains_key(focus) && s.overlay[focus].root == Some(root) && path::under(
        focus,
        root,
    ) {
        files_of(s.saved, root).insert(path::relative(focus, root), s.overlay[focus].data)
    } else {
        files_of(s.saved, root)
    }
}

/// The documents of a root at their current text.
pub open spec fn current_of(s: StoreView, root: Seq<u8>) -> Map<Seq<u8>, FileView> {
    files_of(s.saved, root).union_prefer_right(files_of(s.overlay, root))
}

/// The documents in a map of references.
pub open spec fn data_views(map: Map<Seq<u8>, &FileData>) -> Map<Seq<u8>, FileView> {
    Map::new(|k: Seq<u8>| map.contains_key(k), |k: Seq<u8>| map[k]@)
}

/// The documents of a map in the order of their names.
pub open spec fn filed(map: Map<Seq<u8>, FileView>) -> Files {
    let names = sorted::keys_of(KeyOrder::Path, map);
    Files { names, data: names.map_values(|k: Seq<u8>| map[k]) }
}

// Writes.

/// A document whose saved copy is about to change under an open buffer: where
/// no overlay holds the buffer, the saved copy moves there.
pub open spec fn materialized(s: StoreView, abs: Seq<u8>, open: bool) -> StoreView {
    if open && !s.overlay.contains_key(abs) && s.saved.contains_key(abs) {
        StoreView { saved: s.saved.remove(abs), overlay: s.overlay.insert(abs, s.saved[abs]) }
    } else {
        s
    }
}

/// What a saved document that is gone from disk leaves.
pub open spec fn retired(s: StoreView, abs: Seq<u8>, open: bool) -> (StoreView, DiskUpdate) {
    if s.saved.contains_key(abs) {
        let m = materialized(s, abs, open);
        (StoreView { saved: m.saved.remove(abs), ..m }, DiskUpdate::Membership)
    } else {
        (s, DiskUpdate::Untouched)
    }
}

/// The store after a document was read from disk: nothing was found, or what
/// was found is already saved, or it replaces the saved copy.
pub open spec fn read_from_disk(
    s: StoreView,
    abs: Seq<u8>,
    open: bool,
    root: Option<Seq<u8>>,
    found: Option<FileView>,
) -> (StoreView, DiskUpdate) {
    match found {
        None => retired(s, abs, open),
        Some(data) => if s.saved.contains_key(abs) && s.saved[abs].data.tree.text()
            == data.tree.text() {
            (s, DiskUpdate::Untouched)
        } else {
            let m = materialized(s, abs, open);
            (
                StoreView { saved: m.saved.insert(abs, DocView { data, root }), ..m },
                if s.saved.contains_key(abs) {
                    DiskUpdate::Content
                } else {
                    DiskUpdate::Membership
                },
            )
        },
    }
}

/// The store after a buffer was saved.
pub open spec fn saved_now(
    s: StoreView,
    abs: Seq<u8>,
    root: Option<Seq<u8>>,
    data: FileView,
) -> StoreView {
    StoreView {
        saved: s.saved.insert(abs, DocView { data, root }),
        overlay: s.overlay.remove(abs),
    }
}

/// The tier after the placement of a document was changed.
pub open spec fn placed(
    docs: Map<Seq<u8>, DocView>,
    abs: Seq<u8>,
    root: Option<Seq<u8>>,
) -> Map<Seq<u8>, DocView> {
    if docs.contains_key(abs) {
        docs.insert(abs, DocView { root, ..docs[abs] })
    } else {
        docs
    }
}

/// The tier after a document got other data.
pub open spec fn replaced(
    docs: Map<Seq<u8>, DocView>,
    abs: Seq<u8>,
    data: FileView,
) -> Map<Seq<u8>, DocView> {
    if docs.contains_key(abs) {
        docs.insert(abs, DocView { data, ..docs[abs] })
    } else {
        docs
    }
}

/// The key of a document after its directory, or itself, was renamed.
pub open spec fn renamed(key: Seq<u8>, from: Seq<u8>, to: Seq<u8>) -> Seq<u8> {
    if key == from {
        to
    } else {
        path::child_of(to, path::relative(key, from))
    }
}

/// The tier after one document got another key.
pub open spec fn rekeyed_one(
    docs: Map<Seq<u8>, DocView>,
    from: Seq<u8>,
    to: Seq<u8>,
) -> Map<Seq<u8>, DocView> {
    if docs.contains_key(from) {
        docs.remove(from).insert(to, docs[from])
    } else {
        docs
    }
}

/// The tier after the documents of `keys` got their new keys, one after another.
pub open spec fn rekeyed(
    docs: Map<Seq<u8>, DocView>,
    keys: Seq<Seq<u8>>,
    from: Seq<u8>,
    to: Seq<u8>,
) -> Map<Seq<u8>, DocView>
    decreases keys.len(),
{
    if keys.len() == 0 {
        docs
    } else {
        rekeyed_one(
            rekeyed(docs, keys.drop_last(), from, to),
            keys.last(),
            renamed(keys.last(), from, to),
        )
    }
}

/// The saved documents and the open buffers.
#[derive(Debug)]
pub struct DocumentStore {
    saved: PathMap<Document>,
    overlay: PathMap<Document>,
}

impl View for DocumentStore {
    type V = StoreView;

    closed spec fn view(&self) -> StoreView {
        StoreView { saved: docs(self.saved@), overlay: docs(self.overlay@) }
    }
}

proof fn lemma_docs_insert(map: Map<Seq<u8>, Document>, k: Seq<u8>, d: Document)
    ensures
        docs(map.insert(k, d)) == docs(map).insert(k, d@),
{
    assert(docs(map.insert(k, d)) =~= docs(map).insert(k, d@));
}

proof fn lemma_docs_remove(map: Map<Seq<u8>, Document>, k: Seq<u8>)
    ensures
        docs(map.remove(k)) == docs(map).remove(k),
{
    assert(docs(map.remove(k)) =~= docs(map).remove(k));
}

/// One more key of a list.
pub proof fn lemma_take_contains(keys: Seq<Seq<u8>>, i: int, k: Seq<u8>)
    requires
        0 <= i < keys.len(),
    ensures
        keys.take(i + 1).contains(k) <==> (keys.take(i).contains(k) || k == keys[i]),
{
    let a = keys.take(i);
    let b = keys.take(i + 1);
    if a.contains(k) {
        assert(b[a.index_of(k)] == k);
    }
    if k == keys[i] {
        assert(b[i] == k);
    }
    if b.contains(k) {
        let j = b.index_of(k);
        if j < i {
            assert(a[j] == k);
        }
    }
}

/// Whether an optional text names a given path.
fn is_text(a: &Option<String>, b: &str) -> (r: bool)
    ensures
        r == (maybe(*a) == Some(path::named(b@))),
{
    match a {
        Some(s) => path::same_path(s.as_str(), b),
        None => false,
    }
}

/// A copy of an optional text.
pub(crate) fn copied(a: &Option<String>) -> (r: Option<String>)
    ensures
        maybe(r) == maybe(*a),
{
    match a {
        Some(s) => Some(text::owned(s.as_str())),
        None => None,
    }
}

fn insert_doc(map: &mut PathMap<Document>, abs: &str, doc: Document)
    ensures
        docs(final(map)@) == docs(old(map)@).insert(path::named(abs@), doc@),
{
    proof {
        lemma_docs_insert(map@, path::named(abs@), doc);
    }
    map.insert(text::owned(abs), doc);
}

fn remove_doc(map: &mut PathMap<Document>, abs: &str) -> (r: Option<Document>)
    ensures
        docs(final(map)@) == docs(old(map)@).remove(path::named(abs@)),
        match r {
            Some(doc) => docs(old(map)@).contains_key(path::named(abs@)) && doc@ == docs(
                old(map)@,
            )[path::named(abs@)],
            None => !docs(old(map)@).contains_key(path::named(abs@)),
        },
{
    proof {
        lemma_docs_remove(map@, path::named(abs@));
    }
    map.remove(abs)
}

/// Add the keys of a tier to a set.
fn add_keys(map: &PathMap<Document>, out: &mut PathMap<()>)
    ensures
        final(out).order() == old(out).order(),
        forall|k: Seq<u8>| #[trigger]
            final(out)@.contains_key(k) <==> (old(out)@.contains_key(k) || docs(
                map@,
            ).contains_key(k)),
{
    let n = map.len();
    let mut i: usize = 0;
    let ghost keys = map.keys();
    let ghost start = out@;
    assert(keys.take(0) =~= Seq::<Seq<u8>>::empty());
    while i < n
        invariant
            i <= n,
            n == keys.len(),
            keys == map.keys(),
            out.order() == old(out).order(),
            forall|k: Seq<u8>| #[trigger]
                out@.contains_key(k) <==> (start.contains_key(k) || keys.take(i as int).contains(k)),
        decreases n - i,
    {
        proof {
            assert forall|k: Seq<u8>| #[trigger] keys.take(i + 1).contains(k) <==> (keys.take(
                i as int,
            ).contains(k) || k == keys[i as int]) by {
                lemma_take_contains(keys, i as int, k);
            }
        }
        out.insert(text::owned(map.key_at(i)), ());
        i += 1;
    }
    assert(keys.take(i as int) =~= keys);
}

/// The keys of a set, in order.
pub(crate) fn key_list<V>(set: &PathMap<V>) -> (r: Vec<String>)
    ensures
        path::texts(r@) == set.keys(),
        path::all_named(r@) == set.keys(),
{
    let n = set.len();
    let mut r: Vec<String> = Vec::new();
    let mut i: usize = 0;
    while i < n
        invariant
            i <= n,
            n == set.keys().len(),
            path::texts(r@) =~= set.keys().take(i as int),
            path::all_named(r@) =~= set.keys().take(i as int),
        decreases n - i,
    {
        let ghost so_far = path::texts(r@);
        let ghost named = path::all_named(r@);
        r.push(text::owned(set.key_at(i)));
        assert(path::texts(r@) =~= so_far.push(set.keys()[i as int]));
        assert(path::all_named(r@) =~= named.push(set.keys()[i as int]));
        assert(set.keys().take(i + 1) =~= set.keys().take(i as int).push(set.keys()[i as int]));
        i += 1;
    }
    assert(set.keys().take(i as int) =~= set.keys());
    r
}

/// The documents under the first `n` keys.
spec fn first_docs(docs: Map<Seq<u8>, DocView>, keys: Seq<Seq<u8>>, n: int) -> Map<
    Seq<u8>,
    DocView,
> {
    Map::new(|k: Seq<u8>| keys.take(n).contains(k), |k: Seq<u8>| docs[k])
}

/// One more document is one more file of its root.
proof fn lemma_one_more_file(
    docs: Map<Seq<u8>, DocView>,
    keys: Seq<Seq<u8>>,
    i: int,
    root: Seq<u8>,
)
    requires
        0 <= i < keys.len(),
    ensures
        files_of(first_docs(docs, keys, i + 1), root) == (if path::under(keys[i], root)
            && docs[keys[i]].root == Some(root) {
            files_of(first_docs(docs, keys, i), root).insert(
                path::relative(keys[i], root),
                docs[keys[i]].data,
            )
        } else {
            files_of(first_docs(docs, keys, i), root)
        }),
{
    let key = keys[i];
    let a = files_of(first_docs(docs, keys, i), root);
    let b = files_of(first_docs(docs, keys, i + 1), root);
    let joins = path::under(key, root) && docs[key].root == Some(root);
    let c = if joins {
        a.insert(path::relative(key, root), docs[key].data)
    } else {
        a
    };
    if path::under(key, root) {
        path::lemma_relative(key, root);
    }
    assert forall|rel: Seq<u8>|
        (#[trigger] b.contains_key(rel) <==> c.contains_key(rel)) && (b.contains_key(rel) ==> b[rel]
            == c[rel]) by {
        let abs = path::absolute(root, rel);
        path::lemma_absolute(root, rel);
        lemma_take_contains(keys, i, abs);
    }
    assert(b.dom() =~= c.dom());
    assert(b =~= c);
}

proof fn lemma_data_insert(map: Map<Seq<u8>, &FileData>, k: Seq<u8>, d: &FileData)
    ensures
        data_views(map.insert(k, d)) == data_views(map).insert(k, d@),
{
    assert(data_views(map.insert(k, d)) =~= data_views(map).insert(k, d@));
}

/// Add the files that a root owns in a tier, in the place of what has their names.
fn add_files<'a>(map: &'a PathMap<Document>, root: &str, out: &mut PathMap<&'a FileData>)
    ensures
        final(out).order() == old(out).order(),
        data_views(final(out)@) == data_views(old(out)@).union_prefer_right(
            files_of(docs(map@), path::named(root@)),
        ),
{
    let n = map.len();
    let mut i: usize = 0;
    let ghost keys = map.keys();
    let ghost all = docs(map@);
    let ghost r = path::named(root@);
    let ghost start = data_views(out@);
    map.keys_ascend();
    proof {
        assert(keys.take(0) =~= Seq::<Seq<u8>>::empty());
        assert(start.union_prefer_right(files_of(first_docs(all, keys, 0), r)) =~= start);
    }
    while i < n
        invariant
            i <= n,
            n == keys.len(),
            keys == map.keys(),
            all == docs(map@),
            r == path::named(root@),
            out.order() == old(out).order(),
            data_views(out@) == start.union_prefer_right(
                files_of(first_docs(all, keys, i as int), r),
            ),
        decreases n - i,
    {
        let key = map.key_at(i);
        let doc = map.value_at(i);
        let ghost so_far = files_of(first_docs(all, keys, i as int), r);
        proof {
            lemma_one_more_file(all, keys, i as int, r);
            assert(all[keys[i as int]] == doc@);
        }
        if is_text(&doc.primary_root, root) {
            if let Some(rel) = path::strip_root(key, root) {
                proof {
                    let k = text::utf8(rel@);
                    lemma_data_insert(out@, k, &doc.data);
                    assert(start.union_prefer_right(so_far).insert(k, doc@.data)
                        =~= start.union_prefer_right(so_far.insert(k, doc@.data)));
                }
                out.insert(rel, &doc.data);
            }
        }
        i += 1;
    }
    proof {
        assert(keys.take(n as int) =~= keys);
        assert(first_docs(all, keys, n as int) =~= all);
    }
}

/// The keys of a tier that a root owns, as a set.
fn owned_keys(map: &PathMap<Document>, root: &str) -> (r: PathMap<()>)
    ensures
        r.order() == KeyOrder::Path,
        forall|k: Seq<u8>| #[trigger]
            r@.contains_key(k) <==> docs_owned(docs(map@), path::named(root@)).contains_key(k),
{
    let mut set: PathMap<()> = PathMap::new();
    let n = map.len();
    let mut i: usize = 0;
    let ghost keys = map.keys();
    let ghost owned = docs_owned(docs(map@), path::named(root@));
    map.keys_ascend();
    assert(keys.take(0) =~= Seq::<Seq<u8>>::empty());
    while i < n
        invariant
            i <= n,
            n == keys.len(),
            keys == map.keys(),
            owned == docs_owned(docs(map@), path::named(root@)),
            set.order() == KeyOrder::Path,
            forall|k: Seq<u8>| #[trigger]
                set@.contains_key(k) <==> (keys.take(i as int).contains(k) && owned.contains_key(k)),
        decreases n - i,
    {
        let key = map.key_at(i);
        let doc = map.value_at(i);
        proof {
            assert forall|k: Seq<u8>| #[trigger] keys.take(i + 1).contains(k) <==> (keys.take(
                i as int,
            ).contains(k) || k == keys[i as int]) by {
                lemma_take_contains(keys, i as int, k);
            }
        }
        if is_text(&doc.primary_root, root) && path::is_under(key, root) {
            set.insert(text::owned(key), ());
        }
        i += 1;
    }
    assert(keys.take(i as int) =~= keys);
    set
}

/// The keys of a set at or under a directory.
fn keys_in(set: &PathMap<()>, root: &str) -> (r: PathMap<()>)
    ensures
        r.order() == KeyOrder::Path,
        forall|k: Seq<u8>| #[trigger]
            r@.contains_key(k) <==> (set@.contains_key(k) && path::under(k, path::named(root@))),
{
    let mut out: PathMap<()> = PathMap::new();
    let n = set.len();
    let mut i: usize = 0;
    let ghost keys = set.keys();
    let ghost r = path::named(root@);
    set.keys_ascend();
    assert(keys.take(0) =~= Seq::<Seq<u8>>::empty());
    while i < n
        invariant
            i <= n,
            n == keys.len(),
            keys == set.keys(),
            r == path::named(root@),
            out.order() == KeyOrder::Path,
            forall|k: Seq<u8>| #[trigger]
                out@.contains_key(k) <==> (keys.take(i as int).contains(k) && path::under(k, r)),
        decreases n - i,
    {
        let key = set.key_at(i);
        proof {
            assert forall|k: Seq<u8>| #[trigger] keys.take(i + 1).contains(k) <==> (keys.take(
                i as int,
            ).contains(k) || k == keys[i as int]) by {
                lemma_take_contains(keys, i as int, k);
            }
        }
        if path::is_under(key, root) {
            out.insert(text::owned(key), ());
        }
        i += 1;
    }
    assert(keys.take(i as int) =~= keys);
    out
}

impl DocumentStore {
    /// An empty store.
    pub fn new() -> (s: DocumentStore)
        ensures
            s@ == (StoreView { saved: Map::empty(), overlay: Map::empty() }),
    {
        let s = DocumentStore {
            saved: PathMap::new(),
            overlay: PathMap::new(),
        };
        assert(s@.saved =~= Map::empty());
        assert(s@.overlay =~= Map::empty());
        s
    }

    // Reads.

    /// One tier's copy of a document.
    pub fn tier(&self, abs: &str, tier: Tier) -> (r: Option<&Document>)
        ensures
            match r {
                Some(doc) => self@.tier(tier).contains_key(path::named(abs@)) && doc@ == self@.tier(
                    tier,
                )[path::named(abs@)],
                None => !self@.tier(tier).contains_key(path::named(abs@)),
            },
    {
        match tier {
            Tier::Saved => self.saved.get(abs),
            Tier::Overlay => self.overlay.get(abs),
        }
    }

    /// The current copy of a document: its buffer if it has one, else its saved
    /// copy.
    pub fn current(&self, abs: &str) -> (r: Option<&Document>)
        ensures
            match r {
                Some(doc) => self@.current().contains_key(path::named(abs@)) && doc@
                    == self@.current()[path::named(abs@)],
                None => !self@.current().contains_key(path::named(abs@)),
            },
    {
        match self.overlay.get(abs) {
            Some(doc) => Some(doc),
            None => self.saved.get(abs),
        }
    }

    /// Whether the client holds a buffer that differs from the saved copy.
    pub fn has_overlay(&self, abs: &str) -> (r: bool)
        ensures
            r == self@.overlay.contains_key(path::named(abs@)),
    {
        self.overlay.contains_key(abs)
    }

    /// The deepest root that covers a document, as recorded on its current copy.
    pub fn primary_root(&self, abs: &str) -> (r: Option<String>)
        ensures
            maybe(r) == (if self@.current().contains_key(path::named(abs@)) {
                self@.current()[path::named(abs@)].root
            } else {
                None
            }),
    {
        match self.current(abs) {
            Some(doc) => copied(&doc.primary_root),
            None => None,
        }
    }

    /// The text of one tier's copy.
    pub fn source(&self, abs: &str, tier: Tier) -> (r: Option<&str>)
        ensures
            match r {
                Some(s) => self@.tier(tier).contains_key(path::named(abs@)) && text::utf8(s@)
                    == self@.tier(tier)[path::named(abs@)].data.tree.text(),
                None => !self@.tier(tier).contains_key(path::named(abs@)),
            },
    {
        match self.tier(abs, tier) {
            Some(doc) => Some(doc.data.tree.source.as_str()),
            None => None,
        }
    }

    /// Whether a document is a saved one that a root owns.
    pub fn is_saved_member(&self, abs: &str, root: &str) -> (r: bool)
        ensures
            r == (self@.saved.contains_key(path::named(abs@)) && self@.saved[path::named(abs@)].root
                == Some(path::named(root@))),
    {
        match self.saved.get(abs) {
            Some(doc) => is_text(&doc.primary_root, root),
            None => false,
        }
    }

    /// The keys of both tiers, as a set.
    fn key_set(&self) -> (r: PathMap<()>)
        ensures
            r.order() == KeyOrder::Path,
            forall|k: Seq<u8>| #[trigger] r@.contains_key(k) <==> self@.current().contains_key(k),
    {
        let mut set: PathMap<()> = PathMap::new();
        add_keys(&self.saved, &mut set);
        add_keys(&self.overlay, &mut set);
        set
    }

    /// Every key of the store, in order.
    pub fn all_keys(&self) -> (r: Vec<String>)
        ensures
            path::all_named(r@) == path::texts(r@),
            path::texts(r@) == sorted::keys_of(KeyOrder::Path, self@.current()),
            sorted::is_key_list(KeyOrder::Path, path::texts(r@), self@.current()),
    {
        let set = self.key_set();
        set.keys_ascend();
        proof {
            sorted::lemma_keys_of(KeyOrder::Path, set.keys(), self@.current());
        }
        key_list(&set)
    }

    /// The number of documents; a document with both copies counts once.
    pub fn len(&self) -> (r: usize)
        ensures
            r == sorted::keys_of(KeyOrder::Path, self@.current()).len(),
    {
        let set = self.key_set();
        set.keys_ascend();
        proof {
            sorted::lemma_keys_of(KeyOrder::Path, set.keys(), self@.current());
        }
        set.len()
    }

    /// Every key at or under a directory, in order.
    pub fn keys_under(&self, root: &str) -> (r: Vec<String>)
        ensures
            path::all_named(r@) == path::texts(r@),
            path::texts(r@) == sorted::keys_of(
                KeyOrder::Path,
                docs_under(self@.current(), path::named(root@)),
            ),
            sorted::is_key_list(
                KeyOrder::Path,
                path::texts(r@),
                docs_under(self@.current(), path::named(root@)),
            ),
    {
        let set = keys_in(&self.key_set(), root);
        set.keys_ascend();
        proof {
            sorted::lemma_keys_of(
                KeyOrder::Path,
                set.keys(),
                docs_under(self@.current(), path::named(root@)),
            );
        }
        key_list(&set)
    }

    /// The keys of the buffers that a root owns, in order.
    pub fn overlay_keys_of_root(&self, root: &str) -> (r: Vec<String>)
        ensures
            path::all_named(r@) == path::texts(r@),
            path::texts(r@) == sorted::keys_of(
                KeyOrder::Path,
                docs_owned(self@.overlay, path::named(root@)),
            ),
            sorted::is_key_list(
                KeyOrder::Path,
                path::texts(r@),
                docs_owned(self@.overlay, path::named(root@)),
            ),
    {
        let set = owned_keys(&self.overlay, root);
        set.keys_ascend();
        proof {
            sorted::lemma_keys_of(
                KeyOrder::Path,
                set.keys(),
                docs_owned(self@.overlay, path::named(root@)),
            );
        }
        key_list(&set)
    }

    /// Every document at its current text, with its key, in the order of the keys.
    pub fn current_documents(&self) -> (r: Vec<(&str, &Document)>)
        ensures
            ({
                let keys = sorted::keys_of(KeyOrder::Path, self@.current());
                &&& r@.len() == keys.len()
                &&& forall|i: int|
                    0 <= i < r@.len() ==> text::utf8((#[trigger] r@[i]).0@) == keys[i] && r@[i].1@
                        == self@.current()[keys[i]]
            }),
    {
        let set = self.key_set();
        set.keys_ascend();
        proof {
            sorted::lemma_keys_of(KeyOrder::Path, set.keys(), self@.current());
        }
        let ghost keys = set.keys();
        let n = set.len();
        let mut r: Vec<(&str, &Document)> = Vec::new();
        let mut i: usize = 0;
        while i < n
            invariant
                i <= n,
                n == keys.len(),
                keys == set.keys(),
                r@.len() == i,
                forall|k: Seq<u8>| #[trigger] set@.contains_key(k) <==> self@.current().contains_key(k),
                forall|k: Seq<u8>| #[trigger] keys.contains(k) <==> set@.contains_key(k),
                forall|j: int|
                    0 <= j < i ==> text::utf8((#[trigger] r@[j]).0@) == keys[j] && r@[j].1@
                        == self@.current()[keys[j]],
            decreases n - i,
        {
            let key = set.key_at(i);
            assert(keys.contains(keys[i as int]));
            match self.overlay.position(key) {
                Some(at) => {
                    let doc = self.overlay.value_at(at);
                    r.push((self.overlay.key_at(at), doc));
                },
                None => {
                    if let Some(at) = self.saved.position(key) {
                        let doc = self.saved.value_at(at);
                        r.push((self.saved.key_at(at), doc));
                    }
                },
            }
            i += 1;
        }
        r
    }

    /// The saved documents that a root owns, under their paths relative to it.
    pub fn saved_files(&self, root: &str) -> (r: PathMap<&FileData>)
        ensures
            r.order() == KeyOrder::Path,
            data_views(r@) == files_of(self@.saved, path::named(root@)),
            workspace::files_view(r) == filed(files_of(self@.saved, path::named(root@))),
    {
        let mut files: PathMap<&FileData> = PathMap::new();
        let ghost none = data_views(files@);
        add_files(&self.saved, root, &mut files);
        assert(data_views(files@) =~= files_of(self@.saved, path::named(root@)));
        files_in_order(&files);
        files
    }

    /// The saved documents of a root with the buffer of `focus` in the place of
    /// its saved copy; a document that is only a buffer joins them.
    pub fn perspective_files(&self, root: &str, focus: &str) -> (r: PathMap<&FileData>)
        ensures
            r.order() == KeyOrder::Path,
            data_views(r@) == perspective(self@, path::named(root@), path::named(focus@)),
            workspace::files_view(r) == filed(
                perspective(self@, path::named(root@), path::named(focus@)),
            ),
    {
        let mut files = self.saved_files(root);
        if let Some(doc) = self.overlay.get(focus) {
            if is_text(&doc.primary_root, root) {
                if let Some(rel) = path::strip_root(focus, root) {
                    proof {
                        lemma_data_insert(files@, text::utf8(rel@), &doc.data);
                    }
                    files.insert(rel, &doc.data);
                }
            }
        }
        files_in_order(&files);
        files
    }

    /// The documents of a root at their current text.
    pub fn current_files(&self, root: &str) -> (r: PathMap<&FileData>)
        ensures
            r.order() == KeyOrder::Path,
            data_views(r@) == current_of(self@, path::named(root@)),
            workspace::files_view(r) == filed(current_of(self@, path::named(root@))),
    {
        let mut files = self.saved_files(root);
        add_files(&self.overlay, root, &mut files);
        files_in_order(&files);
        files
    }
}

/// What is known of a document that may be missing.
pub open spec fn maybe_data(d: Option<FileData>) -> Option<FileView> {
    match d {
        Some(data) => Some(data@),
        None => None,
    }
}

impl DocumentStore {
    // Writers of the saved tier.

    /// Add a scanned document, unless the saved tier holds it already.
    pub fn seed_scan(&mut self, abs: &str, doc: Document)
        ensures
            final(self)@ == (if old(self)@.saved.contains_key(path::named(abs@)) {
                old(self)@
            } else {
                StoreView {
                    saved: old(self)@.saved.insert(path::named(abs@), doc@),
                    overlay: old(self)@.overlay,
                }
            }),
    {
        if !self.saved.contains_key(abs) {
            insert_doc(&mut self.saved, abs, doc);
        }
    }

    /// Keep an open buffer's text when its saved copy is about to change.
    fn materialize_before_write(&mut self, abs: &str, open: bool)
        ensures
            final(self)@ == materialized(old(self)@, path::named(abs@), open),
    {
        if !open || self.overlay.contains_key(abs) {
            return;
        }
        let ghost s0 = self@;
        let found = remove_doc(&mut self.saved, abs);
        if let Some(prev) = found {
            insert_doc(&mut self.overlay, abs, prev);
        } else {
            assert(s0.saved.remove(path::named(abs@)) =~= s0.saved);
        }
    }

    /// Drop a document from the saved tier.
    fn retire_saved(&mut self, abs: &str, open: bool) -> (r: DiskUpdate)
        ensures
            (final(self)@, r) == retired(old(self)@, path::named(abs@), open),
    {
        if !self.saved.contains_key(abs) {
            return DiskUpdate::Untouched;
        }
        self.materialize_before_write(abs, open);
        remove_doc(&mut self.saved, abs);
        DiskUpdate::Membership
    }

    /// Bring the saved copy of a document in line with what was found on disk:
    /// nothing, or this data.
    pub fn apply_from_disk(
        &mut self,
        abs: &str,
        open: bool,
        primary: Option<String>,
        found: Option<FileData>,
    ) -> (r: DiskUpdate)
        ensures
            (final(self)@, r) == read_from_disk(
                old(self)@,
                path::named(abs@),
                open,
                maybe(primary),
                maybe_data(found),
            ),
    {
        let Some(data) = found else {
            return self.retire_saved(abs, open);
        };
        let existed = match self.saved.get(abs) {
            Some(doc) => {
                if text::same(doc.data.tree.source.as_str(), data.tree.source.as_str()) {
                    return DiskUpdate::Untouched;
                }
                true
            },
            None => false,
        };
        self.materialize_before_write(abs, open);
        insert_doc(&mut self.saved, abs, Document { data, primary_root: primary });
        if existed {
            DiskUpdate::Content
        } else {
            DiskUpdate::Membership
        }
    }

    /// Commit a buffer: it becomes the saved copy, and the overlay drops it.
    pub fn commit_save(&mut self, abs: &str, primary: Option<String>, data: FileData) -> (r:
        DiskUpdate)
        ensures
            final(self)@ == saved_now(old(self)@, path::named(abs@), maybe(primary), data@),
            r == (if old(self)@.saved.contains_key(path::named(abs@)) {
                DiskUpdate::Content
            } else {
                DiskUpdate::Membership
            }),
    {
        let existed = self.saved.contains_key(abs);
        remove_doc(&mut self.overlay, abs);
        insert_doc(&mut self.saved, abs, Document { data, primary_root: primary });
        if existed {
            DiskUpdate::Content
        } else {
            DiskUpdate::Membership
        }
    }

    /// Commit a buffer whose text was not handed over: drop it from the overlay
    /// and take what was found on disk, as for a closed document.
    pub fn commit_save_from_disk(
        &mut self,
        abs: &str,
        primary: Option<String>,
        found: Option<FileData>,
    ) -> (r: DiskUpdate)
        ensures
            (final(self)@, r) == read_from_disk(
                StoreView {
                    saved: old(self)@.saved,
                    overlay: old(self)@.overlay.remove(path::named(abs@)),
                },
                path::named(abs@),
                false,
                maybe(primary),
                maybe_data(found),
            ),
    {
        remove_doc(&mut self.overlay, abs);
        self.apply_from_disk(abs, false, primary, found)
    }

    /// Drop a saved document that no scope covers any more.
    pub fn evict_saved(&mut self, abs: &str) -> (r: bool)
        ensures
            final(self)@ == (StoreView {
                saved: old(self)@.saved.remove(path::named(abs@)),
                overlay: old(self)@.overlay,
            }),
            r == old(self)@.saved.contains_key(path::named(abs@)),
    {
        remove_doc(&mut self.saved, abs).is_some()
    }

    // Writers of the overlay.

    /// Take the buffer of a document that was opened; none where it equals the
    /// saved copy.
    pub fn open_buffer(&mut self, abs: &str, data: Option<Document>)
        ensures
            final(self)@ == (StoreView {
                saved: old(self)@.saved,
                overlay: match data {
                    Some(doc) => old(self)@.overlay.insert(path::named(abs@), doc@),
                    None => old(self)@.overlay.remove(path::named(abs@)),
                },
            }),
    {
        match data {
            Some(doc) => {
                insert_doc(&mut self.overlay, abs, doc);
            },
            None => {
                remove_doc(&mut self.overlay, abs);
            },
        }
    }

    /// Take the buffer of a document that was edited.
    pub fn change_buffer(&mut self, abs: &str, doc: Document)
        ensures
            final(self)@ == (StoreView {
                saved: old(self)@.saved,
                overlay: old(self)@.overlay.insert(path::named(abs@), doc@),
            }),
    {
        insert_doc(&mut self.overlay, abs, doc);
    }

    /// Drop the buffer of a document that was closed.
    pub fn close_buffer(&mut self, abs: &str) -> (r: bool)
        ensures
            final(self)@ == (StoreView {
                saved: old(self)@.saved,
                overlay: old(self)@.overlay.remove(path::named(abs@)),
            }),
            r == old(self)@.overlay.contains_key(path::named(abs@)),
    {
        remove_doc(&mut self.overlay, abs).is_some()
    }

    // Maintenance of both tiers.

    /// Record another root for a document, on both copies.
    pub fn set_primary_root(&mut self, abs: &str, primary: &Option<String>)
        ensures
            final(self)@ == (StoreView {
                saved: placed(old(self)@.saved, path::named(abs@), maybe(*primary)),
                overlay: placed(old(self)@.overlay, path::named(abs@), maybe(*primary)),
            }),
    {
        place(&mut self.saved, abs, primary);
        place(&mut self.overlay, abs, primary);
    }

    /// Replace what one tier knows of a document, where it has a copy.
    pub fn reparse_in_place(&mut self, abs: &str, tier: Tier, data: FileData)
        ensures
            final(self)@ == old(self)@.with_tier(
                tier,
                replaced(old(self)@.tier(tier), path::named(abs@), data@),
            ),
    {
        match tier {
            Tier::Saved => replace(&mut self.saved, abs, data),
            Tier::Overlay => replace(&mut self.overlay, abs, data),
        }
    }

    /// Record what was computed of one tier's copy.
    pub fn set_caches(
        &mut self,
        abs: &str,
        tier: Tier,
        structural: Vec<Diagnostic>,
        suppressions: FileSuppressions,
    )
        ensures
            final(self)@ == old(self)@.with_tier(
                tier,
                recached(
                    old(self)@.tier(tier),
                    path::named(abs@),
                    diagnostic::views(structural@),
                    suppressions@,
                ),
            ),
    {
        match tier {
            Tier::Saved => recache(&mut self.saved, abs, structural, suppressions),
            Tier::Overlay => recache(&mut self.overlay, abs, structural, suppressions),
        }
    }

    /// Record the predicates that a document names and the project does not know.
    pub fn set_unknown(&mut self, abs: &str, tier: Tier, unknown: Vec<BacklinkDiagnostic>)
        ensures
            final(self)@ == old(self)@.with_tier(
                tier,
                reread(old(self)@.tier(tier), path::named(abs@), workspace::unknowns(unknown@)),
            ),
    {
        match tier {
            Tier::Saved => reread_doc(&mut self.saved, abs, unknown),
            Tier::Overlay => reread_doc(&mut self.overlay, abs, unknown),
        }
    }

    /// Give every document at or under `old_abs` its key under `new_abs`, in both
    /// tiers, and list the old and the new keys.
    pub fn rekey(&mut self, old_abs: &str, new_abs: &str) -> (r: Vec<(String, String)>)
        ensures
            ({
                let keys = sorted::keys_of(
                    KeyOrder::Path,
                    docs_under(old(self)@.current(), path::named(old_abs@)),
                );
                let from = path::named(old_abs@);
                let to = path::named(new_abs@);
                &&& final(self)@.saved == rekeyed(old(self)@.saved, keys, from, to)
                &&& final(self)@.overlay == rekeyed(old(self)@.overlay, keys, from, to)
                &&& r@.len() == keys.len()
                &&& forall|i: int|
                    0 <= i < keys.len() ==> text::utf8((#[trigger] r@[i]).0@) == keys[i]
                        && text::utf8(r@[i].1@) == renamed(keys[i], from, to) && path::named(
                        r@[i].0@,
                    ) == keys[i] && path::named(r@[i].1@) == renamed(keys[i], from, to)
            }),
    {
        let moved = self.keys_under(old_abs);
        let ghost keys = path::all_named(moved@);
        let ghost from = path::named(old_abs@);
        let ghost to = path::named(new_abs@);
        let ghost s0 = self@;
        let mut pairs: Vec<(String, String)> = Vec::new();
        let mut i: usize = 0;
        proof {
            assert(keys.take(0) =~= Seq::<Seq<u8>>::empty());
            assert forall|j: int| 0 <= j < keys.len() implies path::under(
                #[trigger] keys[j],
                from,
            ) by {
                assert(keys.contains(keys[j]));
            }
        }
        while i < moved.len()
            invariant
                i <= moved@.len(),
                keys == path::all_named(moved@),
                keys == path::texts(moved@),
                from == path::named(old_abs@),
                to == path::named(new_abs@),
                forall|j: int| 0 <= j < keys.len() ==> path::under(#[trigger] keys[j], from),
                self@.saved == rekeyed(s0.saved, keys.take(i as int), from, to),
                self@.overlay == rekeyed(s0.overlay, keys.take(i as int), from, to),
                pairs@.len() == i,
                forall|j: int|
                    0 <= j < i ==> text::utf8((#[trigger] pairs@[j]).0@) == keys[j] && text::utf8(
                        pairs@[j].1@,
                    ) == renamed(keys[j], from, to) && path::named(pairs@[j].0@) == keys[j]
                        && path::named(pairs@[j].1@) == renamed(keys[j], from, to),
            decreases moved@.len() - i,
        {
            let old_key = moved[i].as_str();
            assert(keys[i as int] == path::named(old_key@));
            let target = path::normal(new_abs);
            let new_key = if path::same_path(old_key, old_abs) {
                target
            } else {
                match path::strip_root(old_key, old_abs) {
                    Some(rel) => path::child(new_abs, rel.as_str()),
                    None => target,
                }
            };
            proof {
                assert(keys.take(i + 1).drop_last() =~= keys.take(i as int));
                assert(keys.take(i + 1).last() == keys[i as int]);
            }
            move_doc(&mut self.saved, old_key, new_key.as_str());
            move_doc(&mut self.overlay, old_key, new_key.as_str());
            pairs.push((text::owned(old_key), new_key));
            i += 1;
        }
        assert(keys.take(i as int) =~= keys);
        pairs
    }
}

/// The tier after something was computed of a document.
pub open spec fn recached(
    docs: Map<Seq<u8>, DocView>,
    abs: Seq<u8>,
    structural: Seq<DiagView>,
    suppressions: SuppressionView,
) -> Map<Seq<u8>, DocView> {
    if docs.contains_key(abs) {
        docs.insert(
            abs,
            DocView { data: FileView { structural, suppressions, ..docs[abs].data }, ..docs[abs] },
        )
    } else {
        docs
    }
}

/// The tier after the unknown predicates of a document were found again.
pub open spec fn reread(
    docs: Map<Seq<u8>, DocView>,
    abs: Seq<u8>,
    unknown: Seq<Unknown>,
) -> Map<Seq<u8>, DocView> {
    if docs.contains_key(abs) {
        docs.insert(abs, DocView { data: FileView { unknown, ..docs[abs].data }, ..docs[abs] })
    } else {
        docs
    }
}

fn place(map: &mut PathMap<Document>, abs: &str, primary: &Option<String>)
    ensures
        docs(final(map)@) == placed(docs(old(map)@), path::named(abs@), maybe(*primary)),
{
    let ghost before = docs(map@);
    let ghost k = path::named(abs@);
    match remove_doc(map, abs) {
        Some(doc) => {
            let changed = Document { data: doc.data, primary_root: copied(primary) };
            insert_doc(map, abs, changed);
            assert(docs(map@) =~= placed(before, k, maybe(*primary)));
        },
        None => {
            assert(before.remove(k) =~= before);
        },
    }
}

fn replace(map: &mut PathMap<Document>, abs: &str, data: FileData)
    ensures
        docs(final(map)@) == replaced(docs(old(map)@), path::named(abs@), data@),
{
    let ghost before = docs(map@);
    let ghost k = path::named(abs@);
    match remove_doc(map, abs) {
        Some(doc) => {
            insert_doc(map, abs, Document { data, primary_root: doc.primary_root });
            assert(docs(map@) =~= replaced(before, k, data@));
        },
        None => {
            assert(before.remove(k) =~= before);
        },
    }
}

fn recache(
    map: &mut PathMap<Document>,
    abs: &str,
    structural: Vec<Diagnostic>,
    suppressions: FileSuppressions,
)
    ensures
        docs(final(map)@) == recached(
            docs(old(map)@),
            path::named(abs@),
            diagnostic::views(structural@),
            suppressions@,
        ),
{
    let ghost before = docs(map@);
    let ghost k = path::named(abs@);
    match remove_doc(map, abs) {
        Some(doc) => {
            let mut data = doc.data;
            data.structural = structural;
            data.suppressions = suppressions;
            insert_doc(map, abs, Document { data, primary_root: doc.primary_root });
            assert(docs(map@) =~= recached(
                before,
                k,
                diagnostic::views(structural@),
                suppressions@,
            ));
        },
        None => {
            assert(before.remove(k) =~= before);
        },
    }
}

fn reread_doc(map: &mut PathMap<Document>, abs: &str, unknown: Vec<BacklinkDiagnostic>)
    ensures
        docs(final(map)@) == reread(
            docs(old(map)@),
            path::named(abs@),
            workspace::unknowns(unknown@),
        ),
{
    let ghost before = docs(map@);
    let ghost k = path::named(abs@);
    match remove_doc(map, abs) {
        Some(doc) => {
            let mut data = doc.data;
            data.backlink_diagnostics = unknown;
            insert_doc(map, abs, Document { data, primary_root: doc.primary_root });
            assert(docs(map@) =~= reread(before, k, workspace::unknowns(unknown@)));
        },
        None => {
            assert(before.remove(k) =~= before);
        },
    }
}

fn move_doc(map: &mut PathMap<Document>, from: &str, to: &str)
    ensures
        docs(final(map)@) == rekeyed_one(docs(old(map)@), path::named(from@), path::named(to@)),
{
    let ghost before = docs(map@);
    match remove_doc(map, from) {
        Some(doc) => insert_doc(map, to, doc),
        None => {
            assert(before.remove(path::named(from@)) =~= before);
        },
    }
}

/// A map that orders its keys as paths lists its documents in that order.
pub(crate) fn files_in_order(files: &PathMap<&FileData>)
    requires
        files.order() == KeyOrder::Path,
    ensures
        workspace::files_view(*files) == filed(data_views(files@)),
{
    files.keys_ascend();
    proof {
        let map = data_views(files@);
        let names = files.keys();
        sorted::lemma_keys_of(KeyOrder::Path, names, map);
        let a = workspace::files_view(*files);
        let b = filed(map);
        assert forall|i: int| 0 <= i < names.len() implies a.data[i] == b.data[i] by {
            assert(names.contains(names[i]));
            assert(names.index_of(names[i]) == i);
        }
        assert(a.data =~= b.data);
    }
}

// Laws.

/// A document without a buffer is judged against the saved documents alone.
pub proof fn law_no_buffer_no_change(s: StoreView, root: Seq<u8>, focus: Seq<u8>)
    requires
        !s.overlay.contains_key(focus),
    ensures
        perspective(s, root, focus) == files_of(s.saved, root),
{
}

/// A buffer is local: what a document is judged against depends on the saved
/// documents and its own buffer, and on no other buffer.
pub proof fn law_buffers_are_local(s: StoreView, t: StoreView, root: Seq<u8>, focus: Seq<u8>)
    requires
        s.saved == t.saved,
        s.overlay.contains_key(focus) <==> t.overlay.contains_key(focus),
        s.overlay.contains_key(focus) ==> s.overlay[focus] == t.overlay[focus],
    ensures
        perspective(s, root, focus) == perspective(t, root, focus),
{
}

/// A document that exists only as a buffer belongs to its own perspective, and
/// to no other document's.
pub proof fn law_unsaved_documents_are_private(
    s: StoreView,
    root: Seq<u8>,
    focus: Seq<u8>,
    other: Seq<u8>,
)
    requires
        s.overlay.contains_key(focus),
        s.overlay[focus].root == Some(root),
        path::under(focus, root),
        !s.saved.contains_key(focus),
        other != focus,
    ensures
        perspective(s, root, focus).contains_key(path::relative(focus, root)),
        !perspective(s, root, other).contains_key(path::relative(focus, root)),
{
    path::lemma_relative(focus, root);
    if path::under(other, root) {
        path::lemma_relative(other, root);
    }
}

/// What is written on disk under an open document does not reach the text that
/// the client holds.
pub proof fn law_open_text_survives_the_disk(
    s: StoreView,
    abs: Seq<u8>,
    root: Option<Seq<u8>>,
    found: Option<FileView>,
)
    requires
        s.current().contains_key(abs),
    ensures
        ({
            let t = read_from_disk(s, abs, true, root, found).0;
            t.current().contains_key(abs) && t.current()[abs] == s.current()[abs]
        }),
{
}

/// The saved tier follows the disk whatever buffers there are: afterwards it
/// holds the text that was found, or nothing.
pub proof fn law_the_saved_tier_follows_the_disk(
    s: StoreView,
    abs: Seq<u8>,
    open: bool,
    root: Option<Seq<u8>>,
    found: Option<FileView>,
)
    ensures
        ({
            let t = read_from_disk(s, abs, open, root, found).0;
            match found {
                Some(data) => t.saved.contains_key(abs) && t.saved[abs].data.tree.text()
                    == data.tree.text(),
                None => !t.saved.contains_key(abs),
            }
        }),
{
}

/// Reading what is saved already changes nothing.
pub proof fn law_an_echo_changes_nothing(
    s: StoreView,
    abs: Seq<u8>,
    open: bool,
    root: Option<Seq<u8>>,
    data: FileView,
)
    requires
        s.saved.contains_key(abs),
        s.saved[abs].data.tree.text() == data.tree.text(),
    ensures
        read_from_disk(s, abs, open, root, Some(data)) == (s, DiskUpdate::Untouched),
{
}

/// A write to one document leaves all others alone, in both tiers.
pub proof fn law_writes_touch_one_document(
    s: StoreView,
    abs: Seq<u8>,
    open: bool,
    root: Option<Seq<u8>>,
    found: Option<FileView>,
    data: FileView,
    other: Seq<u8>,
)
    requires
        other != abs,
    ensures
        ({
            let t = read_from_disk(s, abs, open, root, found).0;
            let u = saved_now(s, abs, root, data);
            &&& t.saved.contains_key(other) <==> s.saved.contains_key(other)
            &&& t.overlay.contains_key(other) <==> s.overlay.contains_key(other)
            &&& s.saved.contains_key(other) ==> t.saved[other] == s.saved[other] && u.saved[other]
                == s.saved[other]
            &&& s.overlay.contains_key(other) ==> t.overlay[other] == s.overlay[other]
                && u.overlay[other] == s.overlay[other]
        }),
{
}

/// After a save the document is saved with the buffer's data and has no buffer.
pub proof fn law_a_save_ends_the_buffer(
    s: StoreView,
    abs: Seq<u8>,
    root: Option<Seq<u8>>,
    data: FileView,
)
    ensures
        ({
            let t = saved_now(s, abs, root, data);
            &&& !t.overlay.contains_key(abs)
            &&& t.saved[abs] == (DocView { data, root })
            &&& t.current()[abs] == (DocView { data, root })
        }),
{
}

/// A key in the renamed directory becomes the same path in the new one.
proof fn lemma_renamed(key: Seq<u8>, from: Seq<u8>, to: Seq<u8>)
    requires
        path::under(key, from),
        path::normal_form(key) == key,
        path::normal_form(from) == from,
        path::normal_form(to) == to,
        from.len() > 0,
    ensures
        renamed(key, from, to) == path::absolute(to, path::relative(key, from)),
{
    path::lemma_relative(key, from);
    let rel = path::relative(key, from);
    if key == from {
        assert(rel.len() == 0);
    } else {
        if rel.len() == 0 {
            assert(path::absolute(from, rel) == from);
        }
        components::lemma_relative_normal(key, from);
        components::lemma_child(to, rel);
    }
}

/// Renamed keys lie in the new directory, each at a place of its own.
pub proof fn lemma_renamed_apart(a: Seq<u8>, b: Seq<u8>, from: Seq<u8>, to: Seq<u8>)
    requires
        path::under(a, from),
        path::under(b, from),
        path::normal_form(a) == a,
        path::normal_form(b) == b,
        path::normal_form(from) == from,
        path::normal_form(to) == to,
        from.len() > 0,
    ensures
        path::under(renamed(a, from, to), to),
        a != b ==> renamed(a, from, to) != renamed(b, from, to),
{
    lemma_renamed(a, from, to);
    lemma_renamed(b, from, to);
    path::lemma_absolute(to, path::relative(a, from));
    path::lemma_absolute(to, path::relative(b, from));
    path::lemma_relative(a, from);
    path::lemma_relative(b, from);
}

/// The tier after the documents of the first `n` keys were renamed, none of the
/// new keys being taken.
proof fn lemma_rekeyed(
    docs: Map<Seq<u8>, DocView>,
    keys: Seq<Seq<u8>>,
    n: int,
    from: Seq<u8>,
    to: Seq<u8>,
)
    requires
        0 <= n <= keys.len(),
        path::normal_form(from) == from,
        path::normal_form(to) == to,
        from.len() > 0,
        keys.no_duplicates(),
        forall|i: int|
            0 <= i < keys.len() ==> path::under(#[trigger] keys[i], from) && !path::under(
                keys[i],
                to,
            ) && path::normal_form(keys[i]) == keys[i],
        forall|k: Seq<u8>| #[trigger] docs.contains_key(k) ==> !path::under(k, to),
    ensures
        ({
            let r = rekeyed(docs, keys.take(n), from, to);
            &&& forall|k: Seq<u8>| #[trigger]
                r.contains_key(k) && !path::under(k, to) <==> docs.contains_key(k) && !keys.take(
                    n,
                ).contains(k)
            &&& forall|k: Seq<u8>|
                #![trigger r[k]]
                r.contains_key(k) && !path::under(k, to) ==> r[k] == docs[k]
            &&& forall|k: Seq<u8>| #[trigger]
                r.contains_key(k) && path::under(k, to) ==> exists|i: int|
                    0 <= i < n && docs.contains_key(#[trigger] keys[i]) && k == renamed(
                        keys[i],
                        from,
                        to,
                    )
            &&& forall|i: int|
                0 <= i < n && docs.contains_key(#[trigger] keys[i]) ==> r.contains_key(
                    renamed(keys[i], from, to),
                ) && r[renamed(keys[i], from, to)] == docs[keys[i]]
        }),
    decreases n,
{
    let r = rekeyed(docs, keys.take(n), from, to);
    if n == 0 {
        assert(keys.take(0) =~= Seq::<Seq<u8>>::empty());
    } else {
        lemma_rekeyed(docs, keys, n - 1, from, to);
        let prev = rekeyed(docs, keys.take(n - 1), from, to);
        let key = keys[n - 1];
        let new = renamed(key, from, to);
        assert(keys.take(n).drop_last() =~= keys.take(n - 1));
        assert(keys.take(n).last() == key);
        assert(r == rekeyed_one(prev, key, new));
        lemma_renamed(key, from, to);
        path::lemma_absolute(to, path::relative(key, from));
        assert(path::under(new, to));
        assert(!keys.take(n - 1).contains(key)) by {
            if keys.take(n - 1).contains(key) {
                let j = keys.take(n - 1).index_of(key);
                assert(keys[j] == keys[n - 1]);
            }
        }
        assert(prev.contains_key(key) <==> docs.contains_key(key));
        assert forall|k: Seq<u8>| #[trigger]
            r.contains_key(k) && !path::under(k, to) <==> docs.contains_key(k) && !keys.take(
                n,
            ).contains(k) by {
            lemma_take_contains(keys, n - 1, k);
        }
        assert forall|i: int| 0 <= i < n && docs.contains_key(#[trigger] keys[i]) implies r.contains_key(
            renamed(keys[i], from, to),
        ) && r[renamed(keys[i], from, to)] == docs[keys[i]] by {
            lemma_renamed(keys[i], from, to);
            path::lemma_absolute(to, path::relative(keys[i], from));
            path::lemma_relative(keys[i], from);
            path::lemma_relative(key, from);
        }
        assert forall|k: Seq<u8>| #[trigger] r.contains_key(k) && path::under(k, to) implies exists|
            i: int,
        | 0 <= i < n && docs.contains_key(#[trigger] keys[i]) && k == renamed(keys[i], from, to) by {
            if k == new && docs.contains_key(key) {
                assert(docs.contains_key(keys[n - 1]));
            } else {
                assert(prev.contains_key(k));
                let i = choose|i: int|
                    0 <= i < n - 1 && docs.contains_key(#[trigger] keys[i]) && k == renamed(
                        keys[i],
                        from,
                        to,
                    );
                assert(docs.contains_key(keys[i]));
            }
        }
    }
}

/// A rename into a place where no document is moves the documents and nothing
/// else: each of them is found under its new key with its data and its root, no
/// old key is left, and the other documents stay as they are.
pub proof fn law_a_rename_moves_keys(
    docs: Map<Seq<u8>, DocView>,
    keys: Seq<Seq<u8>>,
    from: Seq<u8>,
    to: Seq<u8>,
    key: Seq<u8>,
)
    requires
        path::normal_form(from) == from,
        path::normal_form(to) == to,
        from.len() > 0,
        keys.no_duplicates(),
        forall|k: Seq<u8>| #[trigger]
            keys.contains(k) ==> path::under(k, from) && !path::under(k, to) && path::normal_form(k)
                == k,
        forall|k: Seq<u8>| #[trigger] docs.contains_key(k) ==> !path::under(k, to),
        forall|k: Seq<u8>| #[trigger]
            docs.contains_key(k) && path::under(k, from) ==> keys.contains(k),
        docs.contains_key(key),
    ensures
        ({
            let r = rekeyed(docs, keys, from, to);
            if path::under(key, from) {
                &&& !r.contains_key(key)
                &&& r.contains_key(renamed(key, from, to))
                &&& r[renamed(key, from, to)] == docs[key]
            } else {
                r.contains_key(key) && r[key] == docs[key]
            }
        }),
{
    assert forall|i: int| 0 <= i < keys.len() implies path::under(#[trigger] keys[i], from)
        && !path::under(keys[i], to) && path::normal_form(keys[i]) == keys[i] by {
        assert(keys.contains(keys[i]));
    }
    lemma_rekeyed(docs, keys, keys.len() as int, from, to);
    assert(keys.take(keys.len() as int) =~= keys);
    if path::under(key, from) {
        assert(keys.contains(key));
        let i = keys.index_of(key);
        assert(docs.contains_key(keys[i]));
    } else {
        assert(!keys.contains(key));
    }
}

} // verus!

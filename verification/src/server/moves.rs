//! Documents that the client has renamed.
use vstd::prelude::*;
use crate::config::Config;
use crate::path;
use crate::pathmap::PathMap;
use crate::server::workspaces;
use crate::server::workspaces::{PublishedDiagnostics, State, Workspaces};
use crate::sorted;
use crate::sorted::{KeyOrder, SortedMap};
use crate::store;
use crate::store::{DocView, StoreView, Tier};
use crate::text;
use crate::uri;
use crate::workspace;
use crate::workspace::{FileData, FileView};

verus! {

/// What renamed documents read as at their new place, by their new keys. A
/// document that is not listed, or listed with another text than its own, reads
/// as before.
pub struct Reread {
    pub saved: PathMap<FileData>,
    pub overlay: PathMap<FileData>,
}

/// What renamed documents read as, as text.
#[verifier::ext_equal]
pub struct RereadView {
    pub saved: Map<Seq<u8>, FileView>,
    pub overlay: Map<Seq<u8>, FileView>,
}

/// Documents, as text.
pub open spec fn file_views(map: Map<Seq<u8>, FileData>) -> Map<Seq<u8>, FileView> {
    Map::new(|k: Seq<u8>| map.contains_key(k), |k: Seq<u8>| map[k]@)
}

impl View for Reread {
    type V = RereadView;

    open spec fn view(&self) -> RereadView {
        RereadView { saved: file_views(self.saved@), overlay: file_views(self.overlay@) }
    }
}

impl RereadView {
    pub open spec fn tier(self, tier: Tier) -> Map<Seq<u8>, FileView> {
        match tier {
            Tier::Saved => self.saved,
            Tier::Overlay => self.overlay,
        }
    }

    /// Whether every document can be checked.
    pub open spec fn wf(self) -> bool {
        &&& forall|k: Seq<u8>| #[trigger] self.saved.contains_key(k) ==> self.saved[k].wf()
        &&& forall|k: Seq<u8>| #[trigger] self.overlay.contains_key(k) ==> self.overlay[k].wf()
    }

    pub open spec fn without(self, key: Seq<u8>) -> RereadView {
        RereadView { saved: self.saved.remove(key), overlay: self.overlay.remove(key) }
    }
}

/// A tier after a renamed document was put under its root and read there.
pub open spec fn settled_in(
    docs: Map<Seq<u8>, DocView>,
    fresh: Map<Seq<u8>, FileView>,
    key: Seq<u8>,
    root: Option<Seq<u8>>,
    config: Config,
) -> Map<Seq<u8>, DocView> {
    if docs.contains_key(key) {
        let data = if fresh.contains_key(key) && fresh[key].tree.text()
            == docs[key].data.tree.text() {
            fresh[key]
        } else {
            docs[key].data
        };
        docs.insert(key, DocView { data: workspace::read_under(data, config), root })
    } else {
        docs
    }
}

/// The state after what is known of a document followed it to its new key.
pub open spec fn followed(
    s: State,
    fresh: RereadView,
    from: Seq<u8>,
    to: Seq<u8>,
) -> State {
    let root = workspaces::placement(s, to);
    let config = workspaces::config_at(s, root);
    State {
        open: if s.open.contains_key(from) {
            s.open.remove(from).insert(to, ())
        } else {
            s.open
        },
        published: s.published.remove(uri::uri_of(from)),
        store: StoreView {
            saved: settled_in(s.store.saved, fresh.saved, to, root, config),
            overlay: settled_in(s.store.overlay, fresh.overlay, to, root, config),
        },
        ..s
    }
}

/// What is known after the first `n` renamed documents were followed: the state,
/// what is left to read, and the URIs that the client held diagnostics for.
pub open spec fn all_followed(
    s: State,
    fresh: RereadView,
    keys: Seq<Seq<u8>>,
    from: Seq<u8>,
    to: Seq<u8>,
    n: int,
) -> (State, RereadView, Seq<Seq<u8>>)
    decreases n,
{
    if n <= 0 {
        (s, fresh, Seq::empty())
    } else {
        let (t, left, cleared) = all_followed(s, fresh, keys, from, to, n - 1);
        let old_key = keys[n - 1];
        let new_key = store::renamed(old_key, from, to);
        (
            followed(t, left, old_key, new_key),
            left.without(new_key),
            if t.published.contains_key(uri::uri_of(old_key)) {
                cleared.push(uri::uri_of(old_key))
            } else {
                cleared
            },
        )
    }
}

/// What is known after a rename.
pub open spec fn rename_done(s: State, fresh: RereadView, from: Seq<u8>, to: Seq<u8>) -> (
    State,
    RereadView,
    Seq<Seq<u8>>,
) {
    let keys = sorted::keys_of(KeyOrder::Path, store::docs_under(s.store.current(), from));
    let moved = State {
        store: StoreView {
            saved: store::rekeyed(s.store.saved, keys, from, to),
            overlay: store::rekeyed(s.store.overlay, keys, from, to),
        },
        ..s
    };
    all_followed(moved, fresh, keys, from, to, keys.len() as int)
}

fn take_record(map: &mut SortedMap<PublishedDiagnostics>, uri: &str) -> (r: bool)
    ensures
        final(map).order() == old(map).order(),
        workspaces::records(final(map)@) == workspaces::records(old(map)@).remove(
            text::utf8(uri@),
        ),
        r == workspaces::records(old(map)@).contains_key(text::utf8(uri@)),
{
    let ghost before = workspaces::records(map@);
    let r = map.remove(uri).is_some();
    assert(workspaces::records(map@) =~= before.remove(text::utf8(uri@)));
    r
}

fn take_file(map: &mut PathMap<FileData>, key: &str) -> (r: Option<FileData>)
    ensures
        file_views(final(map)@) == file_views(old(map)@).remove(path::named(key@)),
        match r {
            Some(data) => file_views(old(map)@).contains_key(path::named(key@)) && data@
                == file_views(old(map)@)[path::named(key@)],
            None => !file_views(old(map)@).contains_key(path::named(key@)),
        },
{
    let ghost before = file_views(map@);
    let r = map.remove(key);
    assert(file_views(map@) =~= before.remove(path::named(key@)));
    r
}

impl Workspaces {
    /// Read one tier's copy of a renamed document at its new place.
    fn reread_moved(
        &mut self,
        key: &str,
        tier: Tier,
        fresh: Option<FileData>,
        primary: &Option<String>,
    )
        requires
            old(self).wf(),
            fresh matches Some(data) ==> data@.wf(),
        ensures
            final(self).wf(),
            final(self)@ == (State {
                store: old(self)@.store.with_tier(
                    tier,
                    ({
                        let docs = old(self)@.store.tier(tier);
                        let k = path::named(key@);
                        let config = workspaces::config_at(old(self)@, store::maybe(*primary));
                        if docs.contains_key(k) {
                            let data = match store::maybe_data(fresh) {
                                Some(data) if data.tree.text() == docs[k].data.tree.text() => data,
                                _ => docs[k].data,
                            };
                            docs.insert(
                                k,
                                DocView {
                                    data: workspace::read_under(data, config),
                                    root: docs[k].root,
                                },
                            )
                        } else {
                            docs
                        }
                    }),
                ),
                ..old(self)@
            }),
    {
        let ghost docs = self@.store.tier(tier);
        let ghost k = path::named(key@);
        let kept = match fresh {
            Some(data) => match self.store.source(key, tier) {
                Some(source) => if text::same(source, data.tree.source.as_str()) {
                    Some(data)
                } else {
                    None
                },
                None => {
                    return ;
                },
            },
            None => None,
        };
        match kept {
            Some(data) => {
                let read = workspace::read_with(data, self.config_for(primary));
                self.store.reparse_in_place(key, tier, read);
            },
            None => {
                let unknown = match self.store.tier(key, tier) {
                    Some(doc) => workspace::unknown_predicates(
                        &doc.data.frontmatter,
                        self.config_for(primary),
                    ),
                    None => {
                        return ;
                    },
                };
                self.store.set_unknown(key, tier, unknown);
            },
        }
    }

    /// Follow one renamed document: whether the client held diagnostics for it.
    fn follow(&mut self, old_key: &str, new_key: &str, fresh: &mut Reread) -> (r: bool)
        requires
            old(self).wf(),
            old(fresh)@.wf(),
        ensures
            final(self).wf(),
            final(fresh)@.wf(),
            final(self)@ == followed(
                old(self)@,
                old(fresh)@,
                path::named(old_key@),
                path::named(new_key@),
            ),
            final(fresh)@ == old(fresh)@.without(path::named(new_key@)),
            r == old(self)@.published.contains_key(uri::uri_of(path::named(old_key@))),
    {
        let ghost s0 = self@;
        let ghost f0 = fresh@;
        let ghost from = path::named(old_key@);
        let ghost to = path::named(new_key@);
        if self.open_documents.remove(old_key).is_some() {
            self.open_documents.insert(text::owned(new_key), ());
        } else {
            assert(s0.open.remove(from) =~= s0.open);
        }
        let old_name = path::normal(old_key);
        let old_uri = uri::path_to_uri(old_name.as_str());
        let held = take_record(&mut self.published, old_uri.as_str());
        let ghost s1 = self@;
        let primary = self.deepest_root_for(new_key);
        self.store.set_primary_root(new_key, &primary);
        let ghost s2 = self@;
        let saved = take_file(&mut fresh.saved, new_key);
        let overlay = take_file(&mut fresh.overlay, new_key);
        self.reread_moved(new_key, Tier::Saved, saved, &primary);
        self.reread_moved(new_key, Tier::Overlay, overlay, &primary);
        proof {
            let goal = followed(s0, f0, from, to);
            let root = workspaces::placement(s0, to);
            assert(workspaces::placement(s1, to) == root);
            assert(store::maybe(primary) == root);
            assert(workspaces::config_at(s2, root) == workspaces::config_at(s0, root));
            assert(store::maybe_data(saved) is Some == f0.saved.contains_key(to));
            assert(store::maybe_data(overlay) is Some == f0.overlay.contains_key(to));
            assert(self@.store.saved =~= goal.store.saved);
            assert(self@.store.overlay =~= goal.store.overlay);
        }
        held
    }

    /// Follow a rename that the client has done: documents keep their text in
    /// both tiers, get their new keys and belong to the root that covers these.
    /// Lists the URIs that the client has to be told are empty now.
    pub fn rekey_rename(&mut self, old_abs: &str, new_abs: &str, fresh: &mut Reread) -> (r: Vec<
        String,
    >)
        requires
            old(self).wf(),
            old(fresh)@.wf(),
        ensures
            final(self).wf(),
            (final(self)@, final(fresh)@, path::texts(r@)) == rename_done(
                old(self)@,
                old(fresh)@,
                path::named(old_abs@),
                path::named(new_abs@),
            ),
    {
        let ghost s0 = self@;
        let ghost f0 = fresh@;
        let ghost from = path::named(old_abs@);
        let ghost to = path::named(new_abs@);
        let ghost keys = sorted::keys_of(
            KeyOrder::Path,
            store::docs_under(s0.store.current(), from),
        );
        let pairs = self.store.rekey(old_abs, new_abs);
        let ghost moved = self@;
        proof {
            lemma_rekeyed_wf(s0.store.saved, keys, from, to);
            lemma_rekeyed_wf(s0.store.overlay, keys, from, to);
        }
        let mut cleared: Vec<String> = Vec::new();
        let mut i: usize = 0;
        assert(path::texts(cleared@) =~= Seq::<Seq<u8>>::empty());
        while i < pairs.len()
            invariant
                i <= pairs@.len(),
                self.wf(),
                fresh@.wf(),
                pairs@.len() == keys.len(),
                forall|j: int|
                    0 <= j < keys.len() ==> text::utf8((#[trigger] pairs@[j]).0@) == keys[j]
                        && path::named(pairs@[j].0@) == keys[j] && path::named(pairs@[j].1@)
                        == store::renamed(keys[j], from, to),
                (self@, fresh@, path::texts(cleared@)) == all_followed(
                    moved,
                    f0,
                    keys,
                    from,
                    to,
                    i as int,
                ),
            decreases pairs@.len() - i,
        {
            let old_key = pairs[i].0.as_str();
            let new_key = pairs[i].1.as_str();
            let ghost before = path::texts(cleared@);
            let held = self.follow(old_key, new_key, fresh);
            if held {
                cleared.push(uri::path_to_uri(old_key));
                assert(path::texts(cleared@) =~= before.push(uri::uri_of(keys[i as int])));
            }
            i += 1;
        }
        cleared
    }
}

/// Other keys leave documents as they are.
proof fn lemma_rekeyed_wf(
    docs: Map<Seq<u8>, DocView>,
    keys: Seq<Seq<u8>>,
    from: Seq<u8>,
    to: Seq<u8>,
)
    requires
        workspaces::docs_wf(docs),
    ensures
        workspaces::docs_wf(store::rekeyed(docs, keys, from, to)),
    decreases keys.len(),
{
    if keys.len() > 0 {
        lemma_rekeyed_wf(docs, keys.drop_last(), from, to);
    }
}

// Laws.

/// The URIs of some documents that the client holds diagnostics for.
pub open spec fn held_among<V>(published: Map<Seq<u8>, V>, keys: Seq<Seq<u8>>) -> Seq<Seq<u8>>
    decreases keys.len(),
{
    if keys.len() == 0 {
        Seq::empty()
    } else {
        let rest = held_among(published, keys.drop_last());
        if published.contains_key(uri::uri_of(keys.last())) {
            rest.push(uri::uri_of(keys.last()))
        } else {
            rest
        }
    }
}

/// Whether documents of a directory can go to another: each has its own key, and
/// none is in the other already.
spec fn movable(keys: Seq<Seq<u8>>, from: Seq<u8>, to: Seq<u8>) -> bool {
    &&& path::normal_form(from) == from
    &&& path::normal_form(to) == to
    &&& from.len() > 0
    &&& keys.no_duplicates()
    &&& forall|i: int|
        0 <= i < keys.len() ==> path::under(#[trigger] keys[i], from) && !path::under(keys[i], to)
            && path::normal_form(keys[i]) == keys[i]
}

/// Whether a tier holds the documents that it held, those of the first `n` keys
/// under their new roots.
spec fn tier_followed(
    s: State,
    old: Map<Seq<u8>, DocView>,
    new: Map<Seq<u8>, DocView>,
    keys: Seq<Seq<u8>>,
    from: Seq<u8>,
    to: Seq<u8>,
    n: int,
) -> bool {
    &&& forall|k: Seq<u8>| #[trigger] new.contains_key(k) <==> old.contains_key(k)
    &&& forall|k: Seq<u8>|
        #![trigger new[k]]
        old.contains_key(k) ==> new[k].data.tree.text() == old[k].data.tree.text()
    &&& forall|k: Seq<u8>|
        #![trigger new[k]]
        old.contains_key(k) && !path::under(k, to) ==> new[k] == old[k]
    &&& forall|i: int|
        #![trigger keys[i]]
        0 <= i < n && old.contains_key(store::renamed(keys[i], from, to)) ==> new[store::renamed(
            keys[i],
            from,
            to,
        )].root == workspaces::placement(s, store::renamed(keys[i], from, to))
}

/// Whether the first `n` documents are open where they were, under their new keys.
spec fn open_followed(
    old: Map<Seq<u8>, ()>,
    new: Map<Seq<u8>, ()>,
    keys: Seq<Seq<u8>>,
    from: Seq<u8>,
    to: Seq<u8>,
    n: int,
) -> bool {
    &&& forall|i: int|
        0 <= i < n ==> !new.contains_key(#[trigger] keys[i]) && new.contains_key(
            store::renamed(keys[i], from, to),
        ) == old.contains_key(keys[i])
    &&& forall|k: Seq<u8>|
        #![trigger new.contains_key(k)]
        !path::under(k, to) && !keys.take(n).contains(k) ==> new.contains_key(k)
            == old.contains_key(k)
    &&& forall|k: Seq<u8>|
        #![trigger new.contains_key(k)]
        path::under(k, to) && new.contains_key(k) ==> exists|i: int|
            0 <= i < n && k == store::renamed(#[trigger] keys[i], from, to)
}

/// Whether diagnostics were forgotten for the first `n` keys and for no other.
spec fn records_followed<V>(
    old: Map<Seq<u8>, V>,
    new: Map<Seq<u8>, V>,
    keys: Seq<Seq<u8>>,
    n: int,
) -> bool {
    &&& forall|i: int| 0 <= i < n ==> !new.contains_key(uri::uri_of(#[trigger] keys[i]))
    &&& forall|u: Seq<u8>|
        #![trigger new.contains_key(u)]
        (forall|i: int| 0 <= i < n ==> u != uri::uri_of(#[trigger] keys[i])) ==> (new.contains_key(u)
            == old.contains_key(u) && new[u] == old[u])
}

proof fn lemma_tier_step(
    s: State,
    t: State,
    old: Map<Seq<u8>, DocView>,
    docs: Map<Seq<u8>, DocView>,
    fresh: Map<Seq<u8>, FileView>,
    keys: Seq<Seq<u8>>,
    from: Seq<u8>,
    to: Seq<u8>,
    n: int,
)
    requires
        0 < n <= keys.len(),
        movable(keys, from, to),
        tier_followed(s, old, docs, keys, from, to, n - 1),
        t.roots == s.roots,
        t.git == s.git,
    ensures
        ({
            let key = store::renamed(keys[n - 1], from, to);
            let root = workspaces::placement(t, key);
            tier_followed(
                s,
                old,
                settled_in(docs, fresh, key, root, workspaces::config_at(t, root)),
                keys,
                from,
                to,
                n,
            )
        }),
{
    let key = store::renamed(keys[n - 1], from, to);
    let root = workspaces::placement(t, key);
    let new = settled_in(docs, fresh, key, root, workspaces::config_at(t, root));
    store::lemma_renamed_apart(keys[n - 1], keys[n - 1], from, to);
    assert forall|i: int|
        #![trigger keys[i]]
        0 <= i < n && old.contains_key(store::renamed(keys[i], from, to)) implies new[store::renamed(
        keys[i],
        from,
        to,
    )].root == workspaces::placement(s, store::renamed(keys[i], from, to)) by {
        store::lemma_renamed_apart(keys[i], keys[n - 1], from, to);
    }
}

proof fn lemma_open_step(
    old: Map<Seq<u8>, ()>,
    docs: Map<Seq<u8>, ()>,
    keys: Seq<Seq<u8>>,
    from: Seq<u8>,
    to: Seq<u8>,
    n: int,
)
    requires
        0 < n <= keys.len(),
        movable(keys, from, to),
        open_followed(old, docs, keys, from, to, n - 1),
    ensures
        open_followed(
            old,
            if docs.contains_key(keys[n - 1]) {
                docs.remove(keys[n - 1]).insert(store::renamed(keys[n - 1], from, to), ())
            } else {
                docs
            },
            keys,
            from,
            to,
            n,
        ),
{
    let key = keys[n - 1];
    let target = store::renamed(key, from, to);
    let new = if docs.contains_key(key) {
        docs.remove(key).insert(target, ())
    } else {
        docs
    };
    store::lemma_renamed_apart(key, key, from, to);
    assert(!keys.take(n - 1).contains(key)) by {
        if keys.take(n - 1).contains(key) {
            let j = keys.take(n - 1).index_of(key);
            assert(keys[j] == keys[n - 1]);
        }
    }
    assert(docs.contains_key(key) == old.contains_key(key));
    assert(!docs.contains_key(target)) by {
        if docs.contains_key(target) {
            let i = choose|i: int|
                0 <= i < n - 1 && target == store::renamed(#[trigger] keys[i], from, to);
            store::lemma_renamed_apart(keys[i], key, from, to);
        }
    }
    assert forall|i: int| 0 <= i < n implies !new.contains_key(#[trigger] keys[i])
        && new.contains_key(store::renamed(keys[i], from, to)) == old.contains_key(keys[i]) by {
        store::lemma_renamed_apart(keys[i], key, from, to);
    }
    assert forall|k: Seq<u8>|
        #![trigger new.contains_key(k)]
        !path::under(k, to) && !keys.take(n).contains(k) implies new.contains_key(k)
        == old.contains_key(k) by {
        assert(keys.take(n)[n - 1] == key);
        if keys.take(n - 1).contains(k) {
            let j = keys.take(n - 1).index_of(k);
            assert(keys.take(n)[j] == k);
        }
    }
    assert forall|k: Seq<u8>|
        #![trigger new.contains_key(k)]
        path::under(k, to) && new.contains_key(k) implies exists|i: int|
        0 <= i < n && k == store::renamed(#[trigger] keys[i], from, to) by {
        if k != target {
            let i = choose|i: int|
                0 <= i < n - 1 && k == store::renamed(#[trigger] keys[i], from, to);
            assert(k == store::renamed(keys[i], from, to));
        } else {
            assert(k == store::renamed(keys[n - 1], from, to));
        }
    }
}

proof fn lemma_followed(
    s: State,
    fresh: RereadView,
    keys: Seq<Seq<u8>>,
    from: Seq<u8>,
    to: Seq<u8>,
    n: int,
)
    requires
        0 <= n <= keys.len(),
        movable(keys, from, to),
        forall|k: Seq<u8>| #[trigger] s.open.contains_key(k) ==> !path::under(k, to),
    ensures
        ({
            let (t, left, cleared) = all_followed(s, fresh, keys, from, to, n);
            &&& t == State { store: t.store, open: t.open, published: t.published, ..s }
            &&& tier_followed(s, s.store.saved, t.store.saved, keys, from, to, n)
            &&& tier_followed(s, s.store.overlay, t.store.overlay, keys, from, to, n)
            &&& open_followed(s.open, t.open, keys, from, to, n)
            &&& records_followed(s.published, t.published, keys, n)
            &&& cleared == held_among(s.published, keys.take(n))
        }),
    decreases n,
{
    if n == 0 {
        assert(keys.take(0) =~= Seq::<Seq<u8>>::empty());
    } else {
        lemma_followed(s, fresh, keys, from, to, n - 1);
        let (t, left, cleared) = all_followed(s, fresh, keys, from, to, n - 1);
        let key = keys[n - 1];
        lemma_tier_step(s, t, s.store.saved, t.store.saved, left.saved, keys, from, to, n);
        lemma_tier_step(s, t, s.store.overlay, t.store.overlay, left.overlay, keys, from, to, n);
        lemma_open_step(s.open, t.open, keys, from, to, n);
        assert(keys.take(n).drop_last() =~= keys.take(n - 1));
        assert(keys.take(n).last() == key);
        assert forall|i: int| 0 <= i < n - 1 implies uri::uri_of(key) != uri::uri_of(
            #[trigger] keys[i],
        ) by {
            if uri::uri_of(key) == uri::uri_of(keys[i]) {
                uri::law_each_path_has_its_own_uri(key, keys[i]);
            }
        }
    }
}

/// Whether a rename of a directory, or of one document, goes to a place where
/// nothing is: no document, stored or open, is there.
pub open spec fn place_is_free(s: State, to: Seq<u8>) -> bool {
    &&& forall|k: Seq<u8>| #[trigger] s.store.saved.contains_key(k) ==> !path::under(k, to)
    &&& forall|k: Seq<u8>| #[trigger] s.store.overlay.contains_key(k) ==> !path::under(k, to)
    &&& forall|k: Seq<u8>| #[trigger] s.open.contains_key(k) ==> !path::under(k, to)
}

/// Whether the documents are finitely many and named by normal paths.
pub open spec fn well_named(s: State) -> bool {
    &&& s.store.saved.dom().finite()
    &&& s.store.overlay.dom().finite()
    &&& forall|k: Seq<u8>| #[trigger] s.store.saved.contains_key(k) ==> path::normal_form(k) == k
    &&& forall|k: Seq<u8>| #[trigger] s.store.overlay.contains_key(k) ==> path::normal_form(k) == k
}

/// The state with the documents under their new keys and nothing else done.
spec fn moved(s: State, keys: Seq<Seq<u8>>, from: Seq<u8>, to: Seq<u8>) -> State {
    State {
        store: StoreView {
            saved: store::rekeyed(s.store.saved, keys, from, to),
            overlay: store::rekeyed(s.store.overlay, keys, from, to),
        },
        ..s
    }
}

proof fn lemma_movable(s: State, from: Seq<u8>, to: Seq<u8>)
    requires
        path::normal_form(from) == from,
        path::normal_form(to) == to,
        from.len() > 0,
        well_named(s),
        place_is_free(s, to),
    ensures
        ({
            let docs = store::docs_under(s.store.current(), from);
            let keys = sorted::keys_of(KeyOrder::Path, docs);
            movable(keys, from, to) && sorted::is_key_list(KeyOrder::Path, keys, docs)
        }),
{
    let current = s.store.current();
    let docs = store::docs_under(current, from);
    let keys = sorted::keys_of(KeyOrder::Path, docs);
    assert(docs.dom().finite()) by {
        let all = s.store.saved.dom().union(s.store.overlay.dom());
        vstd::set_lib::lemma_set_subset_finite(all, docs.dom());
    }
    sorted::lemma_keys_listed(KeyOrder::Path, docs);
    sorted::lemma_ascending_distinct(KeyOrder::Path, keys);
    assert forall|i: int| 0 <= i < keys.len() implies path::under(#[trigger] keys[i], from)
        && !path::under(keys[i], to) && path::normal_form(keys[i]) == keys[i] by {
        assert(keys.contains(keys[i]));
        assert(docs.contains_key(keys[i]));
        assert(s.store.saved.contains_key(keys[i]) || s.store.overlay.contains_key(keys[i]));
    }
}

/// A rename to a free place keeps the documents. In each tier, what was at a key in
/// the renamed directory is no longer there; it is at the new key, with the text
/// that it had, under the root that covers the new key. Other documents stay as
/// they are.
pub proof fn law_a_rename_keeps_documents(
    s: State,
    fresh: RereadView,
    from: Seq<u8>,
    to: Seq<u8>,
    tier: Tier,
    key: Seq<u8>,
)
    requires
        path::normal_form(from) == from,
        path::normal_form(to) == to,
        from.len() > 0,
        well_named(s),
        place_is_free(s, to),
        s.store.tier(tier).contains_key(key),
    ensures
        ({
            let t = rename_done(s, fresh, from, to).0;
            let docs = t.store.tier(tier);
            let new_key = store::renamed(key, from, to);
            if path::under(key, from) {
                &&& !docs.contains_key(key)
                &&& docs.contains_key(new_key)
                &&& docs[new_key].data.tree.text() == s.store.tier(tier)[key].data.tree.text()
                &&& docs[new_key].root == workspaces::placement(t, new_key)
            } else {
                docs.contains_key(key) && docs[key] == s.store.tier(tier)[key]
            }
        }),
{
    let keys = sorted::keys_of(KeyOrder::Path, store::docs_under(s.store.current(), from));
    lemma_movable(s, from, to);
    let m = moved(s, keys, from, to);
    lemma_followed(m, fresh, keys, from, to, keys.len() as int);
    let t = rename_done(s, fresh, from, to).0;
    let before = s.store.tier(tier);
    assert forall|k: Seq<u8>| #[trigger] keys.contains(k) implies path::under(k, from)
        && !path::under(k, to) && path::normal_form(k) == k by {
        let i = keys.index_of(k);
        assert(keys[i] == k);
    }
    assert forall|k: Seq<u8>| #[trigger]
        before.contains_key(k) && path::under(k, from) implies keys.contains(k) by {
        assert(s.store.current().contains_key(k));
        assert(store::docs_under(s.store.current(), from).contains_key(k));
    }
    store::law_a_rename_moves_keys(before, keys, from, to, key);
    assert(m.store.tier(tier) == store::rekeyed(before, keys, from, to));
    let docs = t.store.tier(tier);
    if path::under(key, from) {
        assert(keys.contains(key));
        let i = keys.index_of(key);
        assert(keys[i] == key);
        assert(docs[store::renamed(key, from, to)].root == workspaces::placement(
            m,
            store::renamed(key, from, to),
        ));
    } else {
        assert(docs[key] == m.store.tier(tier)[key]);
    }
}

/// A rename to a free place keeps which documents are open: a renamed one is open
/// under its new key where it was open, and under its old key no more.
pub proof fn law_a_rename_keeps_documents_open(
    s: State,
    fresh: RereadView,
    from: Seq<u8>,
    to: Seq<u8>,
    key: Seq<u8>,
)
    requires
        path::normal_form(from) == from,
        path::normal_form(to) == to,
        from.len() > 0,
        well_named(s),
        place_is_free(s, to),
    ensures
        ({
            let t = rename_done(s, fresh, from, to).0;
            if s.store.current().contains_key(key) && path::under(key, from) {
                &&& !t.open.contains_key(key)
                &&& t.open.contains_key(store::renamed(key, from, to)) == s.open.contains_key(key)
            } else {
                !path::under(key, to) ==> t.open.contains_key(key) == s.open.contains_key(key)
            }
        }),
{
    let docs = store::docs_under(s.store.current(), from);
    let keys = sorted::keys_of(KeyOrder::Path, docs);
    lemma_movable(s, from, to);
    lemma_followed(moved(s, keys, from, to), fresh, keys, from, to, keys.len() as int);
    assert(keys.take(keys.len() as int) =~= keys);
    assert(keys.contains(key) <==> docs.contains_key(key));
    if docs.contains_key(key) {
        let i = keys.index_of(key);
        assert(keys[i] == key);
    }
}

/// A rename to a free place tells of the diagnostics that are stale now: exactly
/// those of the renamed documents that the client holds some for, in the order of
/// their old keys; they are forgotten, and no others.
pub proof fn law_a_rename_clears_what_is_stale(
    s: State,
    fresh: RereadView,
    from: Seq<u8>,
    to: Seq<u8>,
    uri: Seq<u8>,
)
    requires
        path::normal_form(from) == from,
        path::normal_form(to) == to,
        from.len() > 0,
        well_named(s),
        place_is_free(s, to),
    ensures
        ({
            let (t, left, cleared) = rename_done(s, fresh, from, to);
            let keys = sorted::keys_of(
                KeyOrder::Path,
                store::docs_under(s.store.current(), from),
            );
            &&& cleared == held_among(s.published, keys)
            &&& if exists|k: Seq<u8>| #[trigger] keys.contains(k) && uri == uri::uri_of(k) {
                !t.published.contains_key(uri)
            } else {
                t.published.contains_key(uri) == s.published.contains_key(uri) && t.published[uri]
                    == s.published[uri]
            }
        }),
{
    let keys = sorted::keys_of(KeyOrder::Path, store::docs_under(s.store.current(), from));
    lemma_movable(s, from, to);
    lemma_followed(moved(s, keys, from, to), fresh, keys, from, to, keys.len() as int);
    assert(keys.take(keys.len() as int) =~= keys);
    if exists|k: Seq<u8>| #[trigger] keys.contains(k) && uri == uri::uri_of(k) {
        let k = choose|k: Seq<u8>| #[trigger] keys.contains(k) && uri == uri::uri_of(k);
        let i = keys.index_of(k);
        assert(keys[i] == k);
    } else {
        assert forall|i: int| 0 <= i < keys.len() implies uri != uri::uri_of(#[trigger] keys[i]) by {
            assert(keys.contains(keys[i]));
        }
    }
}

} // verus!

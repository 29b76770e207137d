//! Upkeep of the documents: what is cached of each of them, and where it belongs.
use vstd::prelude::*;
use crate::components;
use crate::config;
use crate::config::Config;
use crate::diagnostic;
use crate::diagnostic::{DiagView, Diagnostic};
use crate::path;
use crate::pathmap::PathMap;
use crate::server::workspaces;
use crate::server::workspaces::{State, Workspaces};
use crate::sorted;
use crate::sorted::KeyOrder;
use crate::store;
use crate::store::{DocView, Document, StoreView, Tier};
use crate::structural;
use crate::structural::ledger;
use crate::structural::ledger::{FileSuppressions, SuppressionView};
use crate::structural::references::SceneView;
use crate::structural::ExternalExistence;
use crate::text;
use crate::workspace;
use crate::workspace::FileView;

verus! {

/// The paths of the saved documents that a root owns, relative to it.
pub open spec fn members(saved: Map<Seq<u8>, DocView>, root: Seq<u8>) -> Map<Seq<u8>, ()> {
    Map::new(
        |rel: Seq<u8>|
            saved.contains_key(path::absolute(root, rel)) && saved[path::absolute(root, rel)].root
                == Some(root),
        |rel: Seq<u8>| (),
    )
}

/// The paths that exist for one copy of a document: the saved ones, and for a
/// buffer its own.
pub open spec fn existing(
    saved: Map<Seq<u8>, DocView>,
    root: Seq<u8>,
    tier: Tier,
    abs: Seq<u8>,
) -> Map<Seq<u8>, ()> {
    Map::new(
        |rel: Seq<u8>|
            members(saved, root).contains_key(rel) || (tier == Tier::Overlay && path::absolute(
                root,
                rel,
            ) == abs),
        |rel: Seq<u8>| (),
    )
}

/// What a copy of a document is judged against.
pub open spec fn scene_of(
    s: State,
    external: Map<Seq<u8>, ExternalExistence>,
    tier: Tier,
    abs: Seq<u8>,
    root: Seq<u8>,
) -> SceneView {
    SceneView {
        file: workspaces::rel_of(abs, Some(root)),
        config: workspaces::config_at(s, Some(root)),
        files: existing(s.store.saved, root, tier, abs),
        external,
    }
}

/// The ledger of a document that nothing was suppressed in.
pub open spec fn empty_ledger() -> SuppressionView {
    SuppressionView {
        file: Seq::empty(),
        exceptions: None,
        count_keys: Seq::empty(),
        artifacts: Map::empty(),
    }
}

/// What is computed of a copy of a document: its findings and its ledger; nothing
/// for a document outside every scope.
#[verifier::opaque]
pub open spec fn caches(
    s: State,
    external: Map<Seq<u8>, ExternalExistence>,
    tier: Tier,
    abs: Seq<u8>,
    doc: DocView,
) -> (Seq<DiagView>, SuppressionView) {
    match doc.root {
        Some(root) => {
            let scene = scene_of(s, external, tier, abs, root);
            let flow = structural::flow_of(
                doc.data.tree,
                scene,
                doc.data.exceptions,
                diagnostic::views(doc.data.metadata@),
            );
            (
                diagnostic::in_report_order(flow.out),
                ledger::ledger_view(
                    structural::rules_of(scene.config, doc.data.exceptions),
                    flow,
                    scene.file,
                ),
            )
        },
        None => (Seq::empty(), empty_ledger()),
    }
}

/// A document with what is computed of it.
pub open spec fn with_caches(doc: DocView, found: (Seq<DiagView>, SuppressionView)) -> DocView {
    DocView { data: FileView { structural: found.0, suppressions: found.1, ..doc.data }, ..doc }
}

/// The state after one document was computed again, in both tiers.
pub open spec fn recomputed(
    s: State,
    external: Map<Seq<u8>, ExternalExistence>,
    abs: Seq<u8>,
) -> State {
    State {
        store: StoreView {
            saved: recomputed_in(s, external, Tier::Saved, abs),
            overlay: recomputed_in(s, external, Tier::Overlay, abs),
        },
        ..s
    }
}

/// A tier after one document was computed again.
pub open spec fn recomputed_in(
    s: State,
    external: Map<Seq<u8>, ExternalExistence>,
    tier: Tier,
    abs: Seq<u8>,
) -> Map<Seq<u8>, DocView> {
    let docs = s.store.tier(tier);
    if docs.contains_key(abs) {
        docs.insert(abs, with_caches(docs[abs], caches(s, external, tier, abs, docs[abs])))
    } else {
        docs
    }
}

/// A tier after the documents of some keys were computed again.
pub open spec fn swept_in(
    s: State,
    external: Map<Seq<u8>, ExternalExistence>,
    tier: Tier,
    done: Seq<Seq<u8>>,
) -> Map<Seq<u8>, DocView> {
    let docs = s.store.tier(tier);
    Map::new(
        |k: Seq<u8>| docs.contains_key(k),
        |k: Seq<u8>|
            if done.contains(k) {
                with_caches(docs[k], caches(s, external, tier, k, docs[k]))
            } else {
                docs[k]
            },
    )
}

/// The state after every document was computed again.
pub open spec fn swept(s: State, external: Map<Seq<u8>, ExternalExistence>) -> State {
    State {
        store: StoreView {
            saved: every_in(s, external, Tier::Saved),
            overlay: every_in(s, external, Tier::Overlay),
        },
        ..s
    }
}

/// A tier after all its documents were computed again.
pub open spec fn every_in(
    s: State,
    external: Map<Seq<u8>, ExternalExistence>,
    tier: Tier,
) -> Map<Seq<u8>, DocView> {
    let docs = s.store.tier(tier);
    Map::new(
        |k: Seq<u8>| docs.contains_key(k),
        |k: Seq<u8>| with_caches(docs[k], caches(s, external, tier, k, docs[k])),
    )
}

/// Whether two states have the same saved documents in the same places, and the
/// same configurations.
spec fn same_ground(s: State, t: State) -> bool {
    &&& s.roots == t.roots
    &&& s.default_config == t.default_config
    &&& forall|k: Seq<u8>| #[trigger]
        s.store.saved.contains_key(k) <==> t.store.saved.contains_key(k)
    &&& forall|k: Seq<u8>| #[trigger]
        s.store.saved.contains_key(k) ==> s.store.saved[k].root == t.store.saved[k].root
}

proof fn lemma_same_ground(
    s: State,
    t: State,
    external: Map<Seq<u8>, ExternalExistence>,
    tier: Tier,
    abs: Seq<u8>,
    doc: DocView,
)
    requires
        same_ground(s, t),
    ensures
        caches(s, external, tier, abs, doc) == caches(t, external, tier, abs, doc),
{
    reveal(caches);
    if let Some(root) = doc.root {
        let a = existing(s.store.saved, root, tier, abs);
        let b = existing(t.store.saved, root, tier, abs);
        assert forall|rel: Seq<u8>| #[trigger] a.contains_key(rel) <==> b.contains_key(rel) by {
            let k = path::absolute(root, rel);
            assert(s.store.saved.contains_key(k) <==> t.store.saved.contains_key(k));
            assert(members(s.store.saved, root).contains_key(rel) <==> members(
                t.store.saved,
                root,
            ).contains_key(rel));
        }
        assert(a =~= b);
    }
}

fn no_suppressions() -> (r: FileSuppressions)
    ensures
        r@ == empty_ledger(),
{
    let r = FileSuppressions::default();
    proof {
        assert(text::utf8(r.file@) =~= Seq::<u8>::empty());
        components::lemma_written(Seq::empty(), false);
    }
    assert(r@.count_keys =~= Seq::empty());
    r
}

impl Workspaces {
    /// The paths that exist for one copy of a document.
    fn existing_files(&self, root: &str, tier: Tier, abs: &str) -> (r: PathMap<()>)
        ensures
            r@ == existing(self@.store.saved, path::named(root@), tier, path::named(abs@)),
    {
        let files = self.store.saved_files(root);
        let ghost rt = path::named(root@);
        let ghost a = path::named(abs@);
        let ghost keys = files.keys();
        let mut names: PathMap<()> = PathMap::new();
        let n = files.len();
        let mut i: usize = 0;
        files.keys_ascend();
        assert(keys.take(0) =~= Seq::<Seq<u8>>::empty());
        while i < n
            invariant
                i <= n,
                n == keys.len(),
                keys == files.keys(),
                forall|k: Seq<u8>| #[trigger]
                    names@.contains_key(k) <==> keys.take(i as int).contains(k),
            decreases n - i,
        {
            proof {
                assert forall|k: Seq<u8>| #[trigger] keys.take(i + 1).contains(k) <==> (keys.take(
                    i as int,
                ).contains(k) || k == keys[i as int]) by {
                    store::lemma_take_contains(keys, i as int, k);
                }
            }
            names.insert(text::owned(files.key_at(i)), ());
            i += 1;
        }
        proof {
            assert(keys.take(i as int) =~= keys);
            assert forall|rel: Seq<u8>| #[trigger] names@.contains_key(rel) <==> members(
                self@.store.saved,
                rt,
            ).contains_key(rel) by {
                assert(keys.contains(rel) <==> files@.contains_key(rel));
                assert(store::data_views(files@).contains_key(rel) <==> store::files_of(
                    self@.store.saved,
                    rt,
                ).contains_key(rel));
            }
        }
        if tier == Tier::Overlay {
            let ghost before = names@;
            if let Some(rel) = path::strip_root(abs, root) {
                names.insert(rel, ());
                proof {
                    path::lemma_relative(a, rt);
                }
            }
            proof {
                assert forall|rel: Seq<u8>| #[trigger] names@.contains_key(rel) <==> existing(
                    self@.store.saved,
                    rt,
                    tier,
                    a,
                ).contains_key(rel) by {
                    path::lemma_absolute(rt, rel);
                    assert(before.contains_key(rel) <==> members(
                        self@.store.saved,
                        rt,
                    ).contains_key(rel));
                }
            }
        }
        assert(names@ =~= existing(self@.store.saved, rt, tier, a));
        names
    }

    /// Compute what is cached of one copy of a document.
    fn compute(
        &self,
        abs: &str,
        tier: Tier,
        doc: &Document,
        external: &PathMap<ExternalExistence>,
    ) -> (r: (Vec<Diagnostic>, FileSuppressions))
        requires
            doc@.data.wf(),
        ensures
            (diagnostic::views(r.0@), r.1@) == caches(
                self@,
                external@,
                tier,
                path::named(abs@),
                doc@,
            ),
    {
        reveal(caches);
        let Some(root) = &doc.primary_root else {
            let none: Vec<Diagnostic> = Vec::new();
            assert(diagnostic::views(none@) =~= Seq::<DiagView>::empty());
            return (none, no_suppressions());
        };
        let files = self.existing_files(root.as_str(), tier, abs);
        let rel = workspaces::document_rel(abs, &doc.primary_root);
        let config = self.config_for(&doc.primary_root);
        structural::collect_with_suppressions(
            &doc.data.tree,
            rel.as_str(),
            config,
            &files,
            external,
            &doc.data.exceptions,
            &doc.data.metadata,
        )
    }

    fn recompute_tier(
        &mut self,
        abs: &str,
        tier: Tier,
        external: &PathMap<ExternalExistence>,
    )
        requires
            old(self).wf(),
        ensures
            final(self).wf(),
            final(self)@ == (State {
                store: old(self)@.store.with_tier(
                    tier,
                    recomputed_in(old(self)@, external@, tier, path::named(abs@)),
                ),
                ..old(self)@
            }),
    {
        let ghost s0 = self@;
        let ghost k = path::named(abs@);
        let found = match self.store.tier(abs, tier) {
            Some(doc) => self.compute(abs, tier, doc, external),
            None => {
                return ;
            },
        };
        let (structural, suppressions) = found;
        self.store.set_caches(abs, tier, structural, suppressions);
        assert(self@.store.tier(tier) =~= recomputed_in(s0, external@, tier, k));
    }

    /// Compute again what is cached of a document, in every tier that has a copy
    /// of it: the saved copy against the saved documents, a buffer against these
    /// and itself. A document outside every scope has no findings.
    pub fn recompute_structural(&mut self, abs: &str, external: &PathMap<ExternalExistence>)
        requires
            old(self).wf(),
        ensures
            final(self).wf(),
            final(self)@ == recomputed(old(self)@, external@, path::named(abs@)),
    {
        let ghost s0 = self@;
        let ghost k = path::named(abs@);
        self.recompute_tier(abs, Tier::Saved, external);
        let ghost s1 = self@;
        self.recompute_tier(abs, Tier::Overlay, external);
        proof {
            assert(same_ground(s1, s0));
            if s0.store.overlay.contains_key(k) {
                lemma_same_ground(s1, s0, external@, Tier::Overlay, k, s0.store.overlay[k]);
            }
        }
    }

    /// Compute again what is cached of every document: when one joins or leaves,
    /// any other may have named it.
    pub fn recompute_all_structural(&mut self, external: &PathMap<ExternalExistence>)
        requires
            old(self).wf(),
        ensures
            final(self).wf(),
            final(self)@ == swept(old(self)@, external@),
    {
        let keys = self.store.all_keys();
        let ghost s0 = self@;
        let ghost all = path::all_named(keys@);
        let mut i: usize = 0;
        proof {
            sorted::lemma_ascending_distinct(KeyOrder::Path, all);
            let none = all.take(0);
            assert(none =~= Seq::<Seq<u8>>::empty());
            assert(swept_in(s0, external@, Tier::Saved, none) =~= s0.store.saved);
            assert(swept_in(s0, external@, Tier::Overlay, none) =~= s0.store.overlay);
        }
        while i < keys.len()
            invariant
                i <= keys@.len(),
                all == path::all_named(keys@),
                all.no_duplicates(),
                self.wf(),
                self@ == (State {
                    store: StoreView {
                        saved: swept_in(s0, external@, Tier::Saved, all.take(i as int)),
                        overlay: swept_in(s0, external@, Tier::Overlay, all.take(i as int)),
                    },
                    ..s0
                }),
            decreases keys@.len() - i,
        {
            let ghost s1 = self@;
            self.recompute_structural(keys[i].as_str(), external);
            proof {
                assert(all[i as int] == path::named(keys@[i as int]@));
                lemma_one_more(s0, s1, external@, Tier::Saved, all, i as int);
                lemma_one_more(s0, s1, external@, Tier::Overlay, all, i as int);
            }
            i += 1;
        }
        proof {
            assert(all.take(i as int) =~= all);
            assert forall|k: Seq<u8>| #[trigger] s0.store.current().contains_key(k) implies all.contains(
                k,
            ) by {}
            assert(self@.store.saved =~= every_in(s0, external@, Tier::Saved)) by {
                assert forall|k: Seq<u8>| s0.store.saved.contains_key(k) implies #[trigger] all.contains(
                    k,
                ) by {
                    assert(s0.store.current().contains_key(k));
                }
            }
            assert(self@.store.overlay =~= every_in(s0, external@, Tier::Overlay)) by {
                assert forall|k: Seq<u8>| s0.store.overlay.contains_key(k) implies #[trigger] all.contains(
                    k,
                ) by {
                    assert(s0.store.current().contains_key(k));
                }
            }
        }
    }
}

/// One more key of a sweep.
proof fn lemma_one_more(
    s0: State,
    s1: State,
    external: Map<Seq<u8>, ExternalExistence>,
    tier: Tier,
    all: Seq<Seq<u8>>,
    i: int,
)
    requires
        0 <= i < all.len(),
        all.no_duplicates(),
        s1 == (State {
            store: StoreView {
                saved: swept_in(s0, external, Tier::Saved, all.take(i)),
                overlay: swept_in(s0, external, Tier::Overlay, all.take(i)),
            },
            ..s0
        }),
    ensures
        recomputed_in(s1, external, tier, all[i]) == swept_in(s0, external, tier, all.take(i + 1)),
{
    let k = all[i];
    let done = all.take(i);
    let next = all.take(i + 1);
    let a = recomputed_in(s1, external, tier, k);
    let b = swept_in(s0, external, tier, next);
    assert(same_ground(s1, s0));
    assert(!done.contains(k)) by {
        if done.contains(k) {
            let j = done.index_of(k);
            assert(all[j] == all[i]);
        }
    }
    assert forall|x: Seq<u8>| #[trigger] a.contains_key(x) implies b.contains_key(x) && a[x]
        == b[x] by {
        store::lemma_take_contains(all, i, x);
        if x == k {
            lemma_same_ground(s1, s0, external, tier, k, s0.store.tier(tier)[k]);
        }
    }
    assert(a =~= b);
}

// Placement.

/// A tier after a document was read again under a configuration.
pub open spec fn read_again(
    docs: Map<Seq<u8>, DocView>,
    abs: Seq<u8>,
    config: Config,
) -> Map<Seq<u8>, DocView> {
    if docs.contains_key(abs) {
        docs.insert(
            abs,
            DocView { data: workspace::read_under(docs[abs].data, config), ..docs[abs] },
        )
    } else {
        docs
    }
}

/// The recorded root of a document.
pub open spec fn recorded_root(s: State, abs: Seq<u8>) -> Option<Seq<u8>> {
    if s.store.current().contains_key(abs) {
        s.store.current()[abs].root
    } else {
        None
    }
}

/// The state after both copies of a document were read again under the
/// configuration of its root.
pub open spec fn reparsed(s: State, abs: Seq<u8>) -> State {
    let config = workspaces::config_at(s, recorded_root(s, abs));
    State {
        store: StoreView {
            saved: read_again(s.store.saved, abs, config),
            overlay: read_again(s.store.overlay, abs, config),
        },
        ..s
    }
}

/// The state after a document was put under the root that covers it: where that
/// changes the vocabulary, its copies are read again.
pub open spec fn refreshed(s: State, abs: Seq<u8>) -> State {
    if !s.store.current().contains_key(abs) {
        s
    } else {
        let before = s.store.current()[abs].root;
        let after = workspaces::placement(s, abs);
        if before == after {
            s
        } else {
            let moved = State {
                store: StoreView {
                    saved: store::placed(s.store.saved, abs, after),
                    overlay: store::placed(s.store.overlay, abs, after),
                },
                ..s
            };
            if config::vocabulary(workspaces::config_at(s, before)) == config::vocabulary(
                workspaces::config_at(s, after),
            ) {
                moved
            } else {
                reparsed(moved, abs)
            }
        }
    }
}

/// The state after some documents were put under the roots that cover them.
pub open spec fn all_refreshed(s: State, keys: Seq<Seq<u8>>) -> State
    decreases keys.len(),
{
    if keys.len() == 0 {
        s
    } else {
        refreshed(all_refreshed(s, keys.drop_last()), keys.last())
    }
}

fn same_root(a: &Option<String>, b: &Option<String>) -> (r: bool)
    ensures
        r == (store::maybe(*a) == store::maybe(*b)),
{
    match (a, b) {
        (Some(x), Some(y)) => path::same_path(x.as_str(), y.as_str()),
        (None, None) => true,
        _ => false,
    }
}

impl Workspaces {
    fn reread_tier(&mut self, abs: &str, tier: Tier, primary: &Option<String>)
        requires
            old(self).wf(),
        ensures
            final(self).wf(),
            final(self)@ == (State {
                store: old(self)@.store.with_tier(
                    tier,
                    read_again(
                        old(self)@.store.tier(tier),
                        path::named(abs@),
                        workspaces::config_at(old(self)@, store::maybe(*primary)),
                    ),
                ),
                ..old(self)@
            }),
    {
        let ghost s0 = self@;
        let unknown = match self.store.tier(abs, tier) {
            Some(doc) => workspace::unknown_predicates(
                &doc.data.frontmatter,
                self.config_for(primary),
            ),
            None => {
                return ;
            },
        };
        self.store.set_unknown(abs, tier, unknown);
        assert(self@.store.tier(tier) =~= read_again(
            s0.store.tier(tier),
            path::named(abs@),
            workspaces::config_at(s0, store::maybe(*primary)),
        ));
    }

    /// Read every copy of a document again under the configuration of its root.
    /// Of what was read, only the check of predicates depends on it.
    pub fn reparse_in_place(&mut self, abs: &str)
        requires
            old(self).wf(),
        ensures
            final(self).wf(),
            final(self)@ == reparsed(old(self)@, path::named(abs@)),
    {
        let primary = self.store.primary_root(abs);
        self.reread_tier(abs, Tier::Saved, &primary);
        self.reread_tier(abs, Tier::Overlay, &primary);
    }

    /// Put a document under the root that covers it.
    pub fn refresh_placement(&mut self, abs: &str)
        requires
            old(self).wf(),
        ensures
            final(self).wf(),
            final(self)@ == refreshed(old(self)@, path::named(abs@)),
    {
        let after = self.deepest_root_for(abs);
        let before = match self.store.current(abs) {
            Some(doc) => store::copied(&doc.primary_root),
            None => {
                return ;
            },
        };
        if same_root(&before, &after) {
            return ;
        }
        let reparse = !config::same_vocabulary(self.config_for(&before), self.config_for(&after));
        self.store.set_primary_root(abs, &after);
        if reparse {
            self.reparse_in_place(abs);
        }
    }

    /// Put documents under the roots that cover them.
    pub(crate) fn refresh_all(&mut self, keys: &Vec<String>)
        requires
            old(self).wf(),
        ensures
            final(self).wf(),
            final(self)@ == all_refreshed(old(self)@, path::all_named(keys@)),
    {
        let ghost s0 = self@;
        let ghost all = path::all_named(keys@);
        let mut i: usize = 0;
        assert(all.take(0) =~= Seq::<Seq<u8>>::empty());
        while i < keys.len()
            invariant
                i <= keys@.len(),
                all == path::all_named(keys@),
                self.wf(),
                self@ == all_refreshed(s0, all.take(i as int)),
            decreases keys@.len() - i,
        {
            self.refresh_placement(keys[i].as_str());
            proof {
                assert(all.take(i + 1).drop_last() =~= all.take(i as int));
                assert(all.take(i + 1).last() == path::named(keys@[i as int]@));
            }
            i += 1;
        }
        assert(all.take(i as int) =~= all);
    }
}

// Laws.

/// Moving a document to another root without reading it again gives what reading
/// it again would give, if both roots have one vocabulary.
pub proof fn law_placement_needs_no_reading(data: FileView, before: Config, after: Config)
    requires
        config::vocabulary(before) == config::vocabulary(after),
        data == workspace::read_under(data, before),
    ensures
        data == workspace::read_under(data, after),
{
    workspace::law_one_vocabulary_one_verdict(data.frontmatter, before, after);
}

/// Putting a document where it belongs moves no text: both tiers keep their
/// documents, and each keeps what was read out of its text.
pub proof fn law_placement_keeps_texts(s: State, abs: Seq<u8>, k: Seq<u8>, tier: Tier)
    ensures
        ({
            let t = refreshed(s, abs);
            &&& t.store.tier(tier).contains_key(k) <==> s.store.tier(tier).contains_key(k)
            &&& s.store.tier(tier).contains_key(k) ==> t.store.tier(tier)[k].data.tree
                == s.store.tier(tier)[k].data.tree && t.store.tier(tier)[k].data.links
                == s.store.tier(tier)[k].data.links
        }),
{
}

/// After a document was put where it belongs, it is there.
pub proof fn law_documents_land_where_they_belong(s: State, abs: Seq<u8>)
    requires
        s.store.current().contains_key(abs),
    ensures
        refreshed(s, abs).store.current()[abs].root == workspaces::placement(s, abs),
{
}

/// Computing a document again changes no text, no placement and no other
/// document.
pub proof fn law_computing_is_local(
    s: State,
    external: Map<Seq<u8>, ExternalExistence>,
    abs: Seq<u8>,
    other: Seq<u8>,
    tier: Tier,
)
    requires
        other != abs,
    ensures
        ({
            let t = recomputed(s, external, abs);
            &&& t.store.tier(tier).contains_key(other) <==> s.store.tier(tier).contains_key(other)
            &&& s.store.tier(tier).contains_key(other) ==> t.store.tier(tier)[other]
                == s.store.tier(tier)[other]
        }),
{
}

/// Computing everything twice is computing it once.
pub proof fn law_a_sweep_settles(s: State, external: Map<Seq<u8>, ExternalExistence>)
    ensures
        swept(swept(s, external), external) == swept(s, external),
{
    let t = swept(s, external);
    assert(same_ground(t, s));
    assert forall|tier: Tier, k: Seq<u8>| #[trigger]
        s.store.tier(tier).contains_key(k) implies caches(
        t,
        external,
        tier,
        k,
        t.store.tier(tier)[k],
    ) == caches(s, external, tier, k, s.store.tier(tier)[k]) by {
        lemma_same_ground(t, s, external, tier, k, t.store.tier(tier)[k]);
        reveal(caches);
    }
    assert(every_in(t, external, Tier::Saved) =~= t.store.saved) by {
        assert forall|k: Seq<u8>| #[trigger] t.store.saved.contains_key(k) implies every_in(
            t,
            external,
            Tier::Saved,
        )[k] == t.store.saved[k] by {
            assert(s.store.tier(Tier::Saved).contains_key(k));
        }
    }
    assert(every_in(t, external, Tier::Overlay) =~= t.store.overlay) by {
        assert forall|k: Seq<u8>| #[trigger] t.store.overlay.contains_key(k) implies every_in(
            t,
            external,
            Tier::Overlay,
        )[k] == t.store.overlay[k] by {
            assert(s.store.tier(Tier::Overlay).contains_key(k));
        }
    }
}

} // verus!

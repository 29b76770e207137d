//! What is kept of a document's findings is up to date.
use vstd::prelude::*;
use crate::config::Config;
use crate::diagnostic;
use crate::path;
use crate::server::buffers;
use crate::server::upkeep;
use crate::server::workspaces;
use crate::server::workspaces::State;
use crate::store;
use crate::store::{DiskUpdate, DocView, Tier};
use crate::structural;
use crate::structural::ExternalExistence;
use crate::structural::references::SceneView;
use crate::text;
use crate::workspace;
use crate::workspace::FileView;

verus! {

/// Whether a scene is what a copy of a document is judged against: its path in its
/// root, the configuration of the root, the saved documents that the root owns and,
/// where the copy is a buffer, the document itself, and what is known of paths
/// outside.
pub open spec fn is_scene(
    s: State,
    external: Map<Seq<u8>, ExternalExistence>,
    abs: Seq<u8>,
    root: Seq<u8>,
    buffer: bool,
    scene: SceneView,
) -> bool {
    &&& scene.file == path::relative(abs, root)
    &&& s.roots.contains_key(root) ==> scene.config == s.roots[root].config
    &&& !s.roots.contains_key(root) ==> scene.config == s.default_config
    &&& forall|rel: Seq<u8>| #[trigger]
        scene.files.contains_key(rel) <==> {
            let k = path::absolute(root, rel);
            ||| s.store.saved.contains_key(k) && s.store.saved[k].root == Some(root)
            ||| buffer && k == abs
        }
    &&& scene.external == external
}

/// Whether the findings that are kept of a copy of a document are those of its text,
/// judged against a state; none where the document has no root.
pub open spec fn is_fresh(
    s: State,
    external: Map<Seq<u8>, ExternalExistence>,
    abs: Seq<u8>,
    buffer: bool,
    doc: DocView,
) -> bool {
    match doc.root {
        None => doc.data.structural.len() == 0,
        Some(root) => path::under(abs, root) ==> forall|scene: SceneView| #[trigger]
            is_scene(s, external, abs, root, buffer, scene) ==> doc.data.structural
                == diagnostic::in_report_order(
                structural::flow_of(
                    doc.data.tree,
                    scene,
                    doc.data.exceptions,
                    diagnostic::views(doc.data.metadata@),
                ).out,
            ),
    }
}

proof fn lemma_fresh(
    s: State,
    t: State,
    external: Map<Seq<u8>, ExternalExistence>,
    tier: Tier,
    abs: Seq<u8>,
    doc: DocView,
)
    requires
        s.roots == t.roots,
        s.default_config == t.default_config,
        forall|k: Seq<u8>| #[trigger]
            s.store.saved.contains_key(k) <==> t.store.saved.contains_key(k),
        forall|k: Seq<u8>| #[trigger]
            s.store.saved.contains_key(k) ==> s.store.saved[k].root == t.store.saved[k].root,
    ensures
        is_fresh(
            t,
            external,
            abs,
            tier == Tier::Overlay,
            upkeep::with_caches(doc, upkeep::caches(s, external, tier, abs, doc)),
        ),
{
    reveal(upkeep::caches);
    let buffer = tier == Tier::Overlay;
    if let Some(root) = doc.root {
        let own = upkeep::scene_of(s, external, tier, abs, root);
        if path::under(abs, root) {
            assert forall|scene: SceneView| #[trigger]
                is_scene(t, external, abs, root, buffer, scene) implies scene
                == own by {
                assert forall|rel: Seq<u8>| #[trigger]
                    scene.files.contains_key(rel) <==> own.files.contains_key(rel) by {
                    let k = path::absolute(root, rel);
                    assert(s.store.saved.contains_key(k) == t.store.saved.contains_key(k));
                }
                assert(scene.files =~= own.files);
            }
        }
    }
}

/// After an edit, what is kept of the document's findings is up to date: those of
/// its new text, judged against the saved documents and itself.
pub proof fn law_edits_are_judged(
    s: State,
    external: Map<Seq<u8>, ExternalExistence>,
    abs: Seq<u8>,
    data: FileView,
)
    ensures
        ({
            let t = buffers::changed(s, external, abs, data);
            let doc = t.store.overlay[abs];
            &&& t.store.overlay.contains_key(abs)
            &&& doc.data.tree == data.tree
            &&& doc.root == workspaces::placement(s, abs)
            &&& is_fresh(t, external, abs, true, doc)
        }),
{
    let doc = buffers::taken_in(s, abs, data);
    let mid = buffers::with_buffer(s, abs, doc);
    let t = buffers::changed(s, external, abs, data);
    lemma_fresh(mid, t, external, Tier::Overlay, abs, doc);
}

/// After a document joined or left, what is kept of every document's findings is up
/// to date, in both tiers.
pub proof fn law_everything_is_judged_again(
    s: State,
    external: Map<Seq<u8>, ExternalExistence>,
    k: Seq<u8>,
)
    ensures
        ({
            let t = upkeep::swept(s, external);
            &&& t.store.saved.contains_key(k) == s.store.saved.contains_key(k)
            &&& t.store.overlay.contains_key(k) == s.store.overlay.contains_key(k)
            &&& t.store.saved.contains_key(k) ==> is_fresh(
                t,
                external,
                k,
                false,
                t.store.saved[k],
            )
            &&& t.store.overlay.contains_key(k) ==> is_fresh(
                t,
                external,
                k,
                true,
                t.store.overlay[k],
            )
        }),
{
    let t = upkeep::swept(s, external);
    if s.store.saved.contains_key(k) {
        lemma_fresh(s, t, external, Tier::Saved, k, s.store.saved[k]);
    }
    if s.store.overlay.contains_key(k) {
        lemma_fresh(s, t, external, Tier::Overlay, k, s.store.overlay[k]);
    }
}

/// After a save, what is kept of the document's findings is up to date; and where the
/// document is new, so is what is kept of every other one's.
pub proof fn law_saves_are_judged(
    s: State,
    external: Map<Seq<u8>, ExternalExistence>,
    abs: Seq<u8>,
    data: FileView,
    k: Seq<u8>,
)
    ensures
        ({
            let t = buffers::committed(s, external, abs, data);
            &&& t.store.saved.contains_key(abs)
            &&& is_fresh(t, external, abs, false, t.store.saved[abs])
            &&& !s.store.saved.contains_key(abs) && t.store.saved.contains_key(k) ==> is_fresh(
                t,
                external,
                k,
                false,
                t.store.saved[k],
            )
            &&& !s.store.saved.contains_key(abs) && t.store.overlay.contains_key(k) ==> is_fresh(
                t,
                external,
                k,
                true,
                t.store.overlay[k],
            )
        }),
{
    let doc = buffers::taken_in(s, abs, data);
    let mid = buffers::with_store(
        s,
        store::saved_now(s.store, abs, doc.root, doc.data),
    );
    let t = buffers::committed(s, external, abs, data);
    if s.store.saved.contains_key(abs) {
        lemma_fresh(mid, t, external, Tier::Saved, abs, mid.store.saved[abs]);
    } else {
        law_everything_is_judged_again(mid, external, abs);
        law_everything_is_judged_again(mid, external, k);
    }
}

/// What a write leaves to be computed is computed: everything where a document
/// joined or left, the document itself where its text was replaced.
pub proof fn law_writes_are_judged(
    s: State,
    external: Map<Seq<u8>, ExternalExistence>,
    abs: Seq<u8>,
    update: DiskUpdate,
    k: Seq<u8>,
)
    requires
        update == DiskUpdate::Membership || (update == DiskUpdate::Content && k == abs),
    ensures
        ({
            let t = buffers::settled(s, external, abs, update);
            &&& t.store.saved.contains_key(k) ==> is_fresh(
                t,
                external,
                k,
                false,
                t.store.saved[k],
            )
            &&& t.store.overlay.contains_key(k) ==> is_fresh(
                t,
                external,
                k,
                true,
                t.store.overlay[k],
            )
        }),
{
    let t = buffers::settled(s, external, abs, update);
    if update == DiskUpdate::Membership {
        law_everything_is_judged_again(s, external, k);
    } else {
        if s.store.saved.contains_key(k) {
            lemma_fresh(s, t, external, Tier::Saved, k, s.store.saved[k]);
        }
        if s.store.overlay.contains_key(k) {
            lemma_fresh(s, t, external, Tier::Overlay, k, s.store.overlay[k]);
        }
    }
}

/// A document is taken in with the predicates of its frontmatter that the vocabulary
/// of its root lacks, and no other.
pub proof fn law_unknown_predicates_are_noted(
    frontmatter: workspace::Frontmatter,
    config: Config,
    x: workspace::Unknown,
)
    ensures
        workspace::unknown_in(Some(frontmatter), config).contains(x) == exists|n: int|
            0 <= n < frontmatter.backlinks@.len() && config.opposite(
                text::utf8((#[trigger] frontmatter.backlinks@[n]).predicate@),
            ) is None && x.predicate == text::utf8(frontmatter.backlinks@[n].predicate@)
                && x.line == frontmatter.backlinks@[n].line,
{
    lemma_unknown(frontmatter.backlinks@, config, x);
}

proof fn lemma_unknown(
    list: Seq<workspace::Backlinks>,
    config: Config,
    x: workspace::Unknown,
)
    ensures
        workspace::unknown_among(list, config).contains(x) == exists|n: int|
            0 <= n < list.len() && config.opposite(
                text::utf8((#[trigger] list[n]).predicate@),
            ) is None && x.predicate == text::utf8(list[n].predicate@) && x.line
                == list[n].line,
    decreases list.len(),
{
    if list.len() > 0 {
        let most = list.drop_last();
        let rest = workspace::unknown_among(most, config);
        lemma_unknown(most, config, x);
        assert forall|n: int| 0 <= n < most.len() implies #[trigger] most[n] == list[n] by {}
        if rest.contains(x) {
            let n = choose|n: int|
                0 <= n < most.len() && config.opposite(
                    text::utf8((#[trigger] most[n]).predicate@),
                ) is None && x.predicate == text::utf8(most[n].predicate@) && x.line
                    == most[n].line;
            assert(list[n] == most[n]);
        }
        if exists|n: int|
            0 <= n < list.len() && config.opposite(
                text::utf8((#[trigger] list[n]).predicate@),
            ) is None && x.predicate == text::utf8(list[n].predicate@) && x.line == list[n].line {
            let n = choose|n: int|
                0 <= n < list.len() && config.opposite(
                    text::utf8((#[trigger] list[n]).predicate@),
                ) is None && x.predicate == text::utf8(list[n].predicate@) && x.line
                    == list[n].line;
            if n < most.len() {
                assert(most[n] == list[n]);
            }
        }
        if config.opposite(text::utf8(list.last().predicate@)) is None {
            let one = workspace::Unknown {
                line: list.last().line as nat,
                predicate: text::utf8(list.last().predicate@),
            };
            assert(rest.push(one) =~= rest + seq![one]);
            diagnostic::lemma_either(rest, seq![one], x);
            assert(seq![one].contains(x) == (one == x)) by {
                if one == x {
                    assert(seq![one][0] == x);
                }
            }
            assert(list[list.len() - 1] == list.last());
        }
    }
}

} // verus!

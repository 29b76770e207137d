//! The difference between what should be shown and what the client holds.
use vstd::prelude::*;
use crate::diagnostic;
use crate::diagnostic::{DiagView, Diagnostic};
use crate::overrides;
use crate::overrides::{OverrideVerdicts, VerdictsView};
use crate::path;
use crate::pathmap::PathMap;
use crate::server::folders;
use crate::server::publish;
use crate::server::publish::{Adjudication, Committed, PublishScope};
use crate::server::rows;
use crate::server::workspaces;
use crate::server::workspaces::{
    MetaView, PublishedDiagnostics, PublishedView, RootMeta, SentDiagnostic, SentView, State,
    Workspaces,
};
use crate::sorted;
use crate::sorted::{KeyOrder, SortedMap};
use crate::store;
use crate::text;
use crate::uri;

verus! {

/// The URI of a document under its root with symbolic links resolved.
pub open spec fn canonical_uri(s: State, uri: Seq<u8>) -> Option<Seq<u8>> {
    let abs = uri::path_of(uri);
    if s.store.current().contains_key(abs) {
        match s.store.current()[abs].root {
            Some(root) if s.roots.contains_key(root) && path::under(abs, root) => Some(
                uri::uri_of(path::child_of(s.roots[root].canonical, path::relative(abs, root))),
            ),
            _ => None,
        }
    } else {
        None
    }
}

/// The canonical URIs of some documents.
pub open spec fn canonical_uris(s: State, changed: Map<Seq<u8>, ()>) -> Map<Seq<u8>, ()> {
    Map::new(
        |c: Seq<u8>|
            exists|u: Seq<u8>| #[trigger]
                changed.contains_key(u) && canonical_uri(s, u) == Some(c),
        |c: Seq<u8>| (),
    )
}

fn find_canonical(workspaces: &Workspaces, uri: &str) -> (r: Option<String>)
    ensures
        text::maybe(r) == canonical_uri(workspaces@, text::utf8(uri@)),
{
    let abs = uri::uri_to_path(uri);
    let Some(doc) = workspaces.store.current(abs.as_str()) else {
        return None;
    };
    let Some(root) = &doc.primary_root else {
        return None;
    };
    let Some(meta) = workspaces.roots.get(root.as_str()) else {
        return None;
    };
    let Some(rel) = path::strip_root(abs.as_str(), root.as_str()) else {
        return None;
    };
    Some(uri::path_to_uri(path::child(meta.canonical_root.as_str(), rel.as_str()).as_str()))
}

/// Bring the URIs of changed documents into the form that they are compared in.
pub fn canonicalize_changed_uris(workspaces: &Workspaces, changed_uris: &SortedMap<()>) -> (r:
    SortedMap<()>)
    ensures
        r@ == canonical_uris(workspaces@, changed_uris@),
{
    let mut out: SortedMap<()> = SortedMap::new(KeyOrder::Bytes);
    let n = changed_uris.len();
    let ghost keys = changed_uris.keys();
    let ghost s = workspaces@;
    let mut i: usize = 0;
    changed_uris.keys_ascend();
    while i < n
        invariant
            i <= n,
            n == keys.len(),
            keys == changed_uris.keys(),
            s == workspaces@,
            forall|c: Seq<u8>| #[trigger]
                out@.contains_key(c) <==> exists|j: int|
                    0 <= j < i && canonical_uri(s, #[trigger] keys[j]) == Some(c),
        decreases n - i,
    {
        let ghost before = out@;
        if let Some(c) = find_canonical(workspaces, changed_uris.key_at(i)) {
            out.insert(c, ());
        }
        proof {
            assert forall|c: Seq<u8>| #[trigger] out@.contains_key(c) <==> exists|j: int|
                0 <= j < i + 1 && canonical_uri(s, #[trigger] keys[j]) == Some(c) by {
                if before.contains_key(c) {
                    let j = choose|j: int|
                        0 <= j < i && canonical_uri(s, #[trigger] keys[j]) == Some(c);
                    assert(canonical_uri(s, keys[j]) == Some(c));
                }
                if canonical_uri(s, keys[i as int]) == Some(c) {
                    assert(out@.contains_key(c));
                }
            }
        }
        i += 1;
    }
    proof {
        let goal = canonical_uris(s, changed_uris@);
        assert forall|c: Seq<u8>| #[trigger] out@.contains_key(c) <==> goal.contains_key(c) by {
            if out@.contains_key(c) {
                let j = choose|j: int| 0 <= j < n && canonical_uri(s, #[trigger] keys[j]) == Some(c);
                assert(keys.contains(keys[j]));
                assert(changed_uris@.contains_key(keys[j]));
            }
            if goal.contains_key(c) {
                let u = choose|u: Seq<u8>| #[trigger]
                    changed_uris@.contains_key(u) && canonical_uri(s, u) == Some(c);
                assert(keys.contains(u));
                assert(canonical_uri(s, keys[keys.index_of(u)]) == Some(c));
            }
        }
        assert(out@ =~= goal);
    }
    out
}

// Detection.

/// A document whose rows moved, or whose text did.
pub struct Materialized {
    pub uri: String,
    /// Its findings.
    pub lattice: Vec<Diagnostic>,
    /// Their form as it is sent.
    pub lsp: Vec<SentDiagnostic>,
    /// Whether the client holds something else.
    pub send: bool,
}

/// A document that moved, as text.
#[verifier::ext_equal]
pub struct MaterializedView {
    pub uri: Seq<u8>,
    pub lattice: Seq<DiagView>,
    pub lsp: Seq<SentView>,
    pub send: bool,
}

impl View for Materialized {
    type V = MaterializedView;

    open spec fn view(&self) -> MaterializedView {
        MaterializedView {
            uri: text::utf8(self.uri@),
            lattice: diagnostic::views(self.lattice@),
            lsp: workspaces::sent_views(self.lsp@),
            send: self.send,
        }
    }
}

/// Documents that moved, as text.
pub open spec fn moved_views(list: Seq<Materialized>) -> Seq<MaterializedView> {
    list.map_values(|m: Materialized| m@)
}

/// The documents that a pass has met, and those of them that moved.
#[verifier::ext_equal]
pub struct Pass {
    pub present: Map<Seq<u8>, ()>,
    pub moved: Seq<MaterializedView>,
}

/// The URI of a document of a root.
pub open spec fn uri_under(root: Seq<u8>, rel: Seq<u8>) -> Seq<u8> {
    uri::uri_of(path::child_of(root, rel))
}

/// The current text of a document of a root; none where there is no document.
pub open spec fn text_at(s: State, root: Seq<u8>, rel: Seq<u8>) -> Seq<u8> {
    let abs = path::child_of(root, rel);
    if s.store.current().contains_key(abs) {
        s.store.current()[abs].data.tree.text()
    } else {
        Seq::empty()
    }
}

/// Whether what the client holds for a document comes from these findings.
pub open spec fn is_held(published: Map<Seq<u8>, PublishedView>, uri: Seq<u8>, list: Seq<DiagView>) -> bool {
    if published.contains_key(uri) {
        published[uri].lattice == list
    } else {
        list.len() == 0
    }
}

/// The entry of a document that moved.
pub open spec fn entry_of(
    s: State,
    root: Seq<u8>,
    rel: Seq<u8>,
    list: Seq<DiagView>,
) -> MaterializedView {
    let uri = uri_under(root, rel);
    let lsp = rows::all_sent(list, text_at(s, root, rel));
    MaterializedView {
        uri,
        lattice: list,
        lsp,
        send: if s.published.contains_key(uri) {
            s.published[uri].lsp != lsp
        } else {
            lsp.len() > 0
        },
    }
}

/// A pass after one more document of a root: passed over where a deeper root had
/// it; left alone where its text is unchanged and its findings are held.
pub open spec fn visited(
    s: State,
    root: Seq<u8>,
    canonical: Seq<u8>,
    by_file: Map<Seq<u8>, Seq<DiagView>>,
    changed: Map<Seq<u8>, ()>,
    p: Pass,
    rel: Seq<u8>,
) -> Pass {
    let uri = uri_under(root, rel);
    if p.present.contains_key(uri) {
        p
    } else {
        let list = publish::rows_at(by_file, rel);
        let forced = changed.contains_key(uri_under(canonical, rel));
        Pass {
            present: p.present.insert(uri, ()),
            moved: if !forced && is_held(s.published, uri, list) {
                p.moved
            } else {
                p.moved.push(entry_of(s, root, rel, list))
            },
        }
    }
}

/// A pass after the first `n` documents of a root.
pub open spec fn all_visited(
    s: State,
    root: Seq<u8>,
    canonical: Seq<u8>,
    by_file: Map<Seq<u8>, Seq<DiagView>>,
    changed: Map<Seq<u8>, ()>,
    p: Pass,
    rels: Seq<Seq<u8>>,
) -> Pass
    decreases rels.len(),
{
    if rels.len() == 0 {
        p
    } else {
        visited(
            s,
            root,
            canonical,
            by_file,
            changed,
            all_visited(s, root, canonical, by_file, changed, p, rels.drop_last()),
            rels.last(),
        )
    }
}

/// The documents that a pass visits in a root: all current ones and its
/// configuration, or those that it has rows for.
pub open spec fn to_visit(
    s: State,
    root: Seq<u8>,
    meta: MetaView,
    focus: Option<Seq<u8>>,
    by_file: Map<Seq<u8>, Seq<DiagView>>,
) -> Seq<Seq<u8>> {
    match focus {
        None => {
            let names = sorted::keys_of(KeyOrder::Path, store::current_of(s.store, root));
            if meta.has_config || meta.error is Some {
                names.push(publish::marker_name())
            } else {
                names
            }
        },
        Some(_) => sorted::keys_of(KeyOrder::Path, by_file),
    }
}

/// A pass after a root.
pub open spec fn root_visited(
    s: State,
    root: Seq<u8>,
    meta: MetaView,
    focus: Option<Seq<u8>>,
    by_file: Map<Seq<u8>, Seq<DiagView>>,
    changed: Map<Seq<u8>, ()>,
    p: Pass,
) -> Pass {
    all_visited(
        s,
        root,
        meta.canonical,
        by_file,
        changed,
        p,
        to_visit(s, root, meta, focus, by_file),
    )
}

fn names_of<V>(map: &SortedMap<V>) -> (r: Vec<String>)
    ensures
        path::texts(r@) == map.keys(),
{
    let n = map.len();
    let mut r: Vec<String> = Vec::new();
    let mut i: usize = 0;
    while i < n
        invariant
            i <= n,
            n == map.keys().len(),
            path::texts(r@) =~= map.keys().take(i as int),
        decreases n - i,
    {
        let ghost so_far = path::texts(r@);
        r.push(text::owned(map.key_at(i)));
        assert(path::texts(r@) =~= so_far.push(map.keys()[i as int]));
        assert(map.keys().take(i + 1) =~= map.keys().take(i as int).push(map.keys()[i as int]));
        i += 1;
    }
    assert(map.keys().take(i as int) =~= map.keys());
    r
}

pub(crate) fn list_to_visit(
    workspaces: &Workspaces,
    root: &str,
    meta: &RootMeta,
    scope: &PublishScope,
    by_file: &PathMap<Vec<Diagnostic>>,
) -> (r: Vec<String>)
    ensures
        path::texts(r@) == to_visit(
            workspaces@,
            path::named(root@),
            meta@,
            scope.focus(),
            publish::row_views(by_file@),
        ),
        path::all_named(r@) == path::texts(r@),
{
    match scope {
        PublishScope::Full => {
            let files = workspaces.store.current_files(root);
            let mut names = store::key_list(&files);
            let ghost all = path::texts(names@);
            if meta.has_config || meta.config_error.is_some() {
                let marker = text::owned(".lattice.toml");
                let ghost named = path::all_named(names@);
                names.push(marker);
                proof {
                    publish::lemma_marker();
                    assert(path::texts(names@) =~= all.push(publish::marker_name()));
                    assert(path::all_named(names@) =~= named.push(publish::marker_name()));
                }
            }
            names
        },
        PublishScope::Only(_) => {
            by_file.keys_ascend();
            proof {
                sorted::lemma_keys_of(
                    KeyOrder::Path,
                    by_file.keys(),
                    publish::row_views(by_file@),
                );
            }
            store::key_list(by_file)
        },
    }
}

fn copy_rows(list: &Vec<Diagnostic>) -> (r: Vec<Diagnostic>)
    ensures
        diagnostic::views(r@) == diagnostic::views(list@),
{
    let mut r: Vec<Diagnostic> = Vec::new();
    let ghost all = diagnostic::views(list@);
    let mut i: usize = 0;
    while i < list.len()
        invariant
            i <= list@.len(),
            all == diagnostic::views(list@),
            diagnostic::views(r@) =~= all.take(i as int),
        decreases list@.len() - i,
    {
        let d = list[i].copied();
        proof {
            diagnostic::lemma_views_push(r@, d);
            assert(all.take(i + 1) =~= all.take(i as int).push(d@));
        }
        r.push(d);
        i += 1;
    }
    assert(all.take(i as int) =~= all);
    r
}

pub(crate) fn rows_of_file(by_file: &PathMap<Vec<Diagnostic>>, rel: &str) -> (r: Vec<Diagnostic>)
    ensures
        diagnostic::views(r@) == publish::rows_at(
            publish::row_views(by_file@),
            path::named(rel@),
        ),
{
    match by_file.get(rel) {
        Some(list) => copy_rows(list),
        None => {
            let none: Vec<Diagnostic> = Vec::new();
            assert(diagnostic::views(none@) =~= Seq::<DiagView>::empty());
            none
        },
    }
}

/// Bring the findings of a document into the form that is sent.
pub(crate) fn materialize(workspaces: &Workspaces, root: &str, rel: &str, lattice: Vec<Diagnostic>) -> (r:
    Materialized)
    ensures
        r@ == entry_of(
            workspaces@,
            path::named(root@),
            text::utf8(rel@),
            diagnostic::views(lattice@),
        ),
{
    let abs = path::child(root, rel);
    let uri = uri::path_to_uri(abs.as_str());
    let lsp = match workspaces.store.current(abs.as_str()) {
        Some(doc) => rows::to_lsp_diagnostics(&lattice, doc.data.tree.source.as_str()),
        None => {
            proof {
                reveal_strlit("");
                assert(text::utf8(""@) =~= Seq::<u8>::empty());
            }
            rows::to_lsp_diagnostics(&lattice, "")
        },
    };
    let send = match workspaces.published.get(uri.as_str()) {
        Some(held) => !rows::same_sent(&held.lsp, &lsp),
        None => lsp.len() > 0,
    };
    assert(workspaces::sent_views(lsp@).len() == lsp@.len());
    Materialized { uri, lattice, lsp, send }
}

/// Visit one document of a root.
fn visit(
    workspaces: &Workspaces,
    root: &str,
    canonical: &str,
    by_file: &PathMap<Vec<Diagnostic>>,
    changed: &SortedMap<()>,
    rel: &str,
    present: &mut SortedMap<()>,
    materialized: &mut Vec<Materialized>,
)
    requires
        path::named(rel@) == text::utf8(rel@),
    ensures
        ({
            let p = visited(
                workspaces@,
                path::named(root@),
                path::named(canonical@),
                publish::row_views(by_file@),
                changed@,
                (Pass { present: old(present)@, moved: moved_views(old(materialized)@) }),
                text::utf8(rel@),
            );
            final(present)@ == p.present && moved_views(final(materialized)@) == p.moved
        }),
{
    let uri = uri::path_to_uri(path::child(root, rel).as_str());
    if present.contains_key(uri.as_str()) {
        return ;
    }
    let lattice = rows_of_file(by_file, rel);
    let held = match workspaces.published.get(uri.as_str()) {
        Some(prev) => rows::same_rows(&prev.lattice, &lattice),
        None => lattice.len() == 0,
    };
    proof {
        assert(diagnostic::views(lattice@).len() == lattice@.len());
        assert(held == is_held(
            workspaces@.published,
            text::utf8(uri@),
            diagnostic::views(lattice@),
        ));
    }
    let forced = changed.contains_key(
        uri::path_to_uri(path::child(canonical, rel).as_str()).as_str(),
    );
    present.insert(uri, ());
    if !forced && held {
        return ;
    }
    let ghost so_far = moved_views(materialized@);
    let entry = materialize(workspaces, root, rel, lattice);
    let ghost v = entry@;
    materialized.push(entry);
    assert(moved_views(materialized@) =~= so_far.push(v));
}

/// Find the documents of a root that moved.
pub fn materialize_root(
    workspaces: &Workspaces,
    root: &str,
    meta: &RootMeta,
    scope: &PublishScope,
    by_file: &PathMap<Vec<Diagnostic>>,
    changed_canonical: &SortedMap<()>,
    present: &mut SortedMap<()>,
    materialized: &mut Vec<Materialized>,
)
    ensures
        ({
            let p = root_visited(
                workspaces@,
                path::named(root@),
                meta@,
                scope.focus(),
                publish::row_views(by_file@),
                changed_canonical@,
                (Pass { present: old(present)@, moved: moved_views(old(materialized)@) }),
            );
            final(present)@ == p.present && moved_views(final(materialized)@) == p.moved
        }),
{
    let rels = list_to_visit(workspaces, root, meta, scope, by_file);
    let ghost all = path::texts(rels@);
    let ghost s = workspaces@;
    let ghost rt = path::named(root@);
    let ghost canonical = path::named(meta.canonical_root@);
    let ghost map = publish::row_views(by_file@);
    let ghost start = Pass { present: present@, moved: moved_views(materialized@) };
    let mut i: usize = 0;
    assert(all.take(0) =~= Seq::<Seq<u8>>::empty());
    while i < rels.len()
        invariant
            i <= rels@.len(),
            all == path::texts(rels@),
            all == path::all_named(rels@),
            s == workspaces@,
            rt == path::named(root@),
            canonical == path::named(meta.canonical_root@),
            map == publish::row_views(by_file@),
            (Pass { present: present@, moved: moved_views(materialized@) }) == all_visited(
                s,
                rt,
                canonical,
                map,
                changed_canonical@,
                start,
                all.take(i as int),
            ),
        decreases rels@.len() - i,
    {
        assert(path::all_named(rels@)[i as int] == path::texts(rels@)[i as int]);
        visit(
            workspaces,
            root,
            meta.canonical_root.as_str(),
            by_file,
            changed_canonical,
            rels[i].as_str(),
            present,
            materialized,
        );
        proof {
            assert(all.take(i + 1).drop_last() =~= all.take(i as int));
            assert(all.take(i + 1).last() == text::utf8(rels@[i as int]@));
        }
        i += 1;
    }
    assert(all.take(i as int) =~= all);
}

// A whole pass.

/// What a pass is given: the mode and the documents that it is about, the
/// verdicts found for each root, the documents whose text changed, and what
/// exists on disk.
#[verifier::ext_equal]
pub struct Order {
    pub adjudication: Adjudication,
    pub focus: Option<Seq<u8>>,
    pub fresh: Map<Seq<u8>, VerdictsView>,
    pub changed: Map<Seq<u8>, ()>,
    pub on_disk: Map<Seq<u8>, ()>,
}

/// Verdicts by root, as text.
pub open spec fn fresh_views(map: Map<Seq<u8>, OverrideVerdicts>) -> Map<Seq<u8>, VerdictsView> {
    Map::new(|k: Seq<u8>| map.contains_key(k), |k: Seq<u8>| map[k]@)
}

/// The verdicts found for a root; none where it is not listed.
pub open spec fn fresh_for(fresh: Map<Seq<u8>, VerdictsView>, root: Seq<u8>) -> VerdictsView {
    if fresh.contains_key(root) {
        fresh[root]
    } else {
        overrides::no_verdicts()
    }
}

/// What should be shown for a root.
pub open spec fn rows_of_root(s: State, o: Order, root: Seq<u8>) -> Map<Seq<u8>, Seq<DiagView>> {
    publish::desired_rows(
        s,
        root,
        s.roots[root],
        o.adjudication,
        fresh_for(o.fresh, root),
        o.focus,
        o.on_disk,
    )
}

/// A pass over some roots, the last one first.
pub open spec fn detected(s: State, o: Order, roots: Seq<Seq<u8>>) -> Pass
    decreases roots.len(),
{
    if roots.len() == 0 {
        Pass { present: Map::empty(), moved: Seq::empty() }
    } else {
        root_visited(
            s,
            roots[0],
            s.roots[roots[0]],
            o.focus,
            rows_of_root(s, o, roots[0]),
            canonical_uris(s, o.changed),
            detected(s, o, roots.drop_first()),
        )
    }
}

/// A pass over all roots, deeper ones first.
pub open spec fn whole_pass(s: State, o: Order) -> Pass {
    detected(s, o, sorted::keys_of(KeyOrder::Path, s.roots))
}

/// A root after a pass: a commitment leaves the verdicts that it found.
pub open spec fn meta_after(s: State, o: Order, root: Seq<u8>) -> MetaView {
    let meta = s.roots[root];
    match publish::commitment(s, root, meta, o.adjudication, o.focus) {
        Committed::Nothing => meta,
        Committed::Cleared => MetaView { verdicts: overrides::no_verdicts(), ..meta },
        Committed::Adjudicated => MetaView { verdicts: fresh_for(o.fresh, root), ..meta },
    }
}

/// The roots after a pass.
pub open spec fn roots_after(s: State, o: Order) -> Map<Seq<u8>, MetaView> {
    Map::new(|r: Seq<u8>| s.roots.contains_key(r), |r: Seq<u8>| meta_after(s, o, r))
}

/// What the client holds after documents that moved were sent.
pub open spec fn held_after(
    published: Map<Seq<u8>, PublishedView>,
    moved: Seq<MaterializedView>,
) -> Map<Seq<u8>, PublishedView>
    decreases moved.len(),
{
    if moved.len() == 0 {
        published
    } else {
        let rest = held_after(published, moved.drop_last());
        let m = moved.last();
        if m.lsp.len() == 0 {
            rest.remove(m.uri)
        } else {
            rest.insert(m.uri, PublishedView { lattice: m.lattice, lsp: m.lsp })
        }
    }
}

/// What is sent of documents that moved.
pub open spec fn sends_of(moved: Seq<MaterializedView>) -> Map<Seq<u8>, Seq<SentView>>
    decreases moved.len(),
{
    if moved.len() == 0 {
        Map::empty()
    } else {
        let rest = sends_of(moved.drop_last());
        if moved.last().send {
            rest.insert(moved.last().uri, moved.last().lsp)
        } else {
            rest
        }
    }
}

/// Whether a document left: the client holds diagnostics for it, and a full pass
/// did not meet it.
pub open spec fn has_left(
    published: Map<Seq<u8>, PublishedView>,
    present: Map<Seq<u8>, ()>,
    focus: Option<Seq<u8>>,
    uri: Seq<u8>,
) -> bool {
    focus is None && published.contains_key(uri) && !present.contains_key(uri)
}

/// What the client holds after a pass.
pub open spec fn published_after(s: State, o: Order) -> Map<Seq<u8>, PublishedView> {
    let p = whole_pass(s, o);
    let held = held_after(s.published, p.moved);
    Map::new(
        |u: Seq<u8>| held.contains_key(u) && !has_left(held, p.present, o.focus, u),
        |u: Seq<u8>| held[u],
    )
}

/// What a pass sends: documents that moved, and nothing for those that left.
pub open spec fn sends_after(s: State, o: Order) -> Map<Seq<u8>, Seq<SentView>> {
    let p = whole_pass(s, o);
    let held = held_after(s.published, p.moved);
    let sends = sends_of(p.moved);
    Map::new(
        |u: Seq<u8>| sends.contains_key(u) || has_left(held, p.present, o.focus, u),
        |u: Seq<u8>|
            if has_left(held, p.present, o.focus, u) {
                Seq::empty()
            } else {
                sends[u]
            },
    )
}

/// The state after a pass.
pub open spec fn after_pass(s: State, o: Order) -> State {
    State { roots: roots_after(s, o), published: published_after(s, o), ..s }
}

/// What is sent, in the order of the URIs.
pub open spec fn in_uri_order(sends: Map<Seq<u8>, Seq<SentView>>) -> Seq<(Seq<u8>, Seq<SentView>)> {
    sorted::keys_of(KeyOrder::Bytes, sends).map_values(|u: Seq<u8>| (u, sends[u]))
}

/// A list of what is sent, as text.
pub open spec fn send_list(list: Seq<(String, Vec<SentDiagnostic>)>) -> Seq<
    (Seq<u8>, Seq<SentView>),
> {
    list.map_values(
        |e: (String, Vec<SentDiagnostic>)| (text::utf8(e.0@), workspaces::sent_views(e.1@)),
    )
}

/// What is sent, by URI.
pub open spec fn send_views(map: Map<Seq<u8>, Vec<SentDiagnostic>>) -> Map<Seq<u8>, Seq<SentView>> {
    Map::new(|k: Seq<u8>| map.contains_key(k), |k: Seq<u8>| workspaces::sent_views(map[k]@))
}

pub(crate) fn insert_send(map: &mut SortedMap<Vec<SentDiagnostic>>, uri: &str, list: Vec<SentDiagnostic>)
    ensures
        final(map).order() == old(map).order(),
        send_views(final(map)@) == send_views(old(map)@).insert(
            text::utf8(uri@),
            workspaces::sent_views(list@),
        ),
{
    let ghost before = send_views(map@);
    let ghost v = workspaces::sent_views(list@);
    map.insert(text::owned(uri), list);
    assert(send_views(map@) =~= before.insert(text::utf8(uri@), v));
}

fn insert_record(
    map: &mut SortedMap<PublishedDiagnostics>,
    uri: &str,
    lattice: Vec<Diagnostic>,
    lsp: Vec<SentDiagnostic>,
)
    ensures
        final(map).order() == old(map).order(),
        workspaces::records(final(map)@) == workspaces::records(old(map)@).insert(
            text::utf8(uri@),
            PublishedView {
                lattice: diagnostic::views(lattice@),
                lsp: workspaces::sent_views(lsp@),
            },
        ),
{
    let ghost before = workspaces::records(map@);
    let record = PublishedDiagnostics { lattice, lsp };
    let ghost v = record@;
    map.insert(text::owned(uri), record);
    assert(workspaces::records(map@) =~= before.insert(text::utf8(uri@), v));
}

pub(crate) fn remove_record(map: &mut SortedMap<PublishedDiagnostics>, uri: &str)
    ensures
        final(map).order() == old(map).order(),
        workspaces::records(final(map)@) == workspaces::records(old(map)@).remove(
            text::utf8(uri@),
        ),
{
    let ghost before = workspaces::records(map@);
    map.remove(uri);
    assert(workspaces::records(map@) =~= before.remove(text::utf8(uri@)));
}

fn list_sends(map: SortedMap<Vec<SentDiagnostic>>) -> (r: Vec<(String, Vec<SentDiagnostic>)>)
    requires
        map.order() == KeyOrder::Bytes,
    ensures
        send_list(r@) == in_uri_order(send_views(map@)),
{
    map.keys_ascend();
    let ghost keys = map.keys();
    let ghost sends = send_views(map@);
    proof {
        sorted::lemma_keys_of(KeyOrder::Bytes, keys, sends);
        assert forall|i: int| 0 <= i < keys.len() implies map.values()[i] == map@[keys[i]] by {
            assert(keys.contains(keys[i]));
            assert(keys.index_of(keys[i]) == i);
        }
    }
    let r = map.into_entries();
    proof {
        let goal = in_uri_order(sends);
        assert forall|i: int| 0 <= i < keys.len() implies send_list(r@)[i] == goal[i] by {
            assert(keys.contains(keys[i]));
            assert(map@.contains_key(keys[i]));
            assert(r@[i].1 == map@[keys[i]]);
        }
        assert(send_list(r@) =~= goal);
    }
    r
}

/// Apply the documents that moved to what the client holds, and list what is sent.
fn apply_moved(
    published: &mut SortedMap<PublishedDiagnostics>,
    moved: Vec<Materialized>,
) -> (r: SortedMap<Vec<SentDiagnostic>>)
    ensures
        final(published).order() == old(published).order(),
        workspaces::records(final(published)@) == held_after(
            workspaces::records(old(published)@),
            moved_views(moved@),
        ),
        r.order() == KeyOrder::Bytes,
        send_views(r@) == sends_of(moved_views(moved@)),
{
    let ghost p0 = workspaces::records(published@);
    let ghost list = moved@;
    let ghost all = moved_views(list);
    let mut sends: SortedMap<Vec<SentDiagnostic>> = SortedMap::new(KeyOrder::Bytes);
    let mut rest = moved;
    let ghost mut done: int = 0;
    proof {
        assert(all.take(0) =~= Seq::<MaterializedView>::empty());
        assert(list.skip(0) =~= list);
        assert(send_views(sends@) =~= Map::<Seq<u8>, Seq<SentView>>::empty());
    }
    while rest.len() > 0
        invariant
            0 <= done <= list.len(),
            all == moved_views(list),
            rest@ == list.skip(done),
            published.order() == old(published).order(),
            workspaces::records(published@) == held_after(p0, all.take(done)),
            sends.order() == KeyOrder::Bytes,
            send_views(sends@) == sends_of(all.take(done)),
        decreases rest@.len(),
    {
        proof {
            assert(rest@[0] == list[done]);
            assert(list.skip(done).remove(0) =~= list.skip(done + 1));
            assert(all.take(done + 1).drop_last() =~= all.take(done));
            assert(all.take(done + 1).last() == list[done]@);
        }
        let Materialized { uri, lattice, lsp, send } = rest.remove(0);
        assert(workspaces::sent_views(lsp@).len() == lsp@.len());
        if send {
            insert_send(&mut sends, uri.as_str(), rows::copy_sent(&lsp));
        }
        if lsp.len() == 0 {
            remove_record(published, uri.as_str());
        } else {
            insert_record(published, uri.as_str(), lattice, lsp);
        }
        proof {
            done = done + 1;
        }
    }
    assert(all.take(done) =~= all);
    sends
}

/// Drop the documents that left from what the client holds, and send that there
/// is nothing for them.
fn clear_absent(
    published: &mut SortedMap<PublishedDiagnostics>,
    present: &SortedMap<()>,
    sends: &mut SortedMap<Vec<SentDiagnostic>>,
)
    ensures
        final(published).order() == old(published).order(),
        final(sends).order() == old(sends).order(),
        ({
            let held = workspaces::records(old(published)@);
            let before = send_views(old(sends)@);
            &&& workspaces::records(final(published)@) == Map::<Seq<u8>, PublishedView>::new(
                |u: Seq<u8>| held.contains_key(u) && present@.contains_key(u),
                |u: Seq<u8>| held[u],
            )
            &&& send_views(final(sends)@) == Map::<Seq<u8>, Seq<SentView>>::new(
                |u: Seq<u8>|
                    before.contains_key(u) || (held.contains_key(u) && !present@.contains_key(u)),
                |u: Seq<u8>|
                    if held.contains_key(u) && !present@.contains_key(u) {
                        Seq::empty()
                    } else {
                        before[u]
                    },
            )
        }),
{
    let ghost held = workspaces::records(published@);
    let ghost before = send_views(sends@);
    let names = names_of(published);
    published.keys_ascend();
    let ghost all = path::texts(names@);
    let mut i: usize = 0;
    assert(all.take(0) =~= Seq::<Seq<u8>>::empty());
    while i < names.len()
        invariant
            i <= names@.len(),
            all == path::texts(names@),
            published.order() == old(published).order(),
            sends.order() == old(sends).order(),
            forall|u: Seq<u8>| #[trigger]
                workspaces::records(published@).contains_key(u) <==> (held.contains_key(u) && !(
                all.take(i as int).contains(u) && !present@.contains_key(u))),
            forall|u: Seq<u8>| #[trigger]
                workspaces::records(published@).contains_key(u) ==> workspaces::records(
                    published@,
                )[u] == held[u],
            forall|u: Seq<u8>| #[trigger]
                send_views(sends@).contains_key(u) <==> (before.contains_key(u) || (all.take(
                    i as int,
                ).contains(u) && !present@.contains_key(u))),
            forall|u: Seq<u8>| #[trigger]
                send_views(sends@).contains_key(u) ==> send_views(sends@)[u] == (if all.take(
                    i as int,
                ).contains(u) && !present@.contains_key(u) {
                    Seq::empty()
                } else {
                    before[u]
                }),
        decreases names@.len() - i,
    {
        let uri = names[i].as_str();
        proof {
            assert(all[i as int] == text::utf8(uri@));
            assert forall|k: Seq<u8>| #[trigger] all.take(i + 1).contains(k) <==> (all.take(
                i as int,
            ).contains(k) || k == all[i as int]) by {
                store::lemma_take_contains(all, i as int, k);
            }
        }
        if !present.contains_key(uri) {
            remove_record(published, uri);
            let none: Vec<SentDiagnostic> = Vec::new();
            assert(workspaces::sent_views(none@) =~= Seq::<SentView>::empty());
            insert_send(sends, uri, none);
        }
        i += 1;
    }
    proof {
        assert(all.take(i as int) =~= all);
        assert forall|u: Seq<u8>| #[trigger] all.contains(u) <==> held.contains_key(u) by {}
        assert(workspaces::records(published@) =~= Map::<Seq<u8>, PublishedView>::new(
            |u: Seq<u8>| held.contains_key(u) && present@.contains_key(u),
            |u: Seq<u8>| held[u],
        ));
        assert(send_views(sends@) =~= Map::<Seq<u8>, Seq<SentView>>::new(
            |u: Seq<u8>|
                before.contains_key(u) || (held.contains_key(u) && !present@.contains_key(u)),
            |u: Seq<u8>|
                if held.contains_key(u) && !present@.contains_key(u) {
                    Seq::empty()
                } else {
                    before[u]
                },
        ));
    }
}

/// What a pass over all roots found.
struct Detection {
    present: SortedMap<()>,
    moved: Vec<Materialized>,
    /// What becomes of the verdicts of each root, the last root first.
    committed: Vec<(String, Committed)>,
}

/// Whether a list holds the commitments of some roots, the last one first.
spec fn are_commitments(
    s: State,
    o: Order,
    roots: Seq<Seq<u8>>,
    list: Seq<(String, Committed)>,
) -> bool {
    &&& list.len() == roots.len()
    &&& forall|i: int|
        0 <= i < list.len() ==> path::named((#[trigger] list[i]).0@) == roots[roots.len() - 1 - i]
            && list[i].1 == publish::commitment(
            s,
            roots[roots.len() - 1 - i],
            s.roots[roots[roots.len() - 1 - i]],
            o.adjudication,
            o.focus,
        )
}

fn detect(
    workspaces: &Workspaces,
    changed_uris: &SortedMap<()>,
    adjudication: Adjudication,
    adjudicated: &PathMap<OverrideVerdicts>,
    scope: &PublishScope,
    on_disk: &PathMap<()>,
) -> (r: Detection)
    requires
        workspaces.wf(),
    ensures
        ({
            let s = workspaces@;
            let o = Order {
                adjudication,
                focus: scope.focus(),
                fresh: fresh_views(adjudicated@),
                changed: changed_uris@,
                on_disk: on_disk@,
            };
            let roots = sorted::keys_of(KeyOrder::Path, s.roots);
            &&& r.present@ == whole_pass(s, o).present
            &&& moved_views(r.moved@) == whole_pass(s, o).moved
            &&& are_commitments(s, o, roots, r.committed@)
            &&& sorted::is_key_list(KeyOrder::Path, roots, s.roots)
        }),
{
    let changed = canonicalize_changed_uris(workspaces, changed_uris);
    let ghost s = workspaces@;
    let ghost o = Order {
        adjudication,
        focus: scope.focus(),
        fresh: fresh_views(adjudicated@),
        changed: changed_uris@,
        on_disk: on_disk@,
    };
    let ghost keys = workspaces.roots.keys();
    let mut present: SortedMap<()> = SortedMap::new(KeyOrder::Bytes);
    let mut moved: Vec<Materialized> = Vec::new();
    let mut committed: Vec<(String, Committed)> = Vec::new();
    let none = OverrideVerdicts::default();
    let n = workspaces.roots.len();
    let mut i: usize = n;
    workspaces.roots.keys_ascend();
    proof {
        sorted::lemma_keys_of(KeyOrder::Path, keys, s.roots);
        assert(keys.skip(n as int) =~= Seq::<Seq<u8>>::empty());
        assert(moved_views(moved@) =~= Seq::<MaterializedView>::empty());
    }
    while i > 0
        invariant
            i <= n,
            n == keys.len(),
            keys == workspaces.roots.keys(),
            workspaces.wf(),
            s == workspaces@,
            o == (Order {
                adjudication,
                focus: scope.focus(),
                fresh: fresh_views(adjudicated@),
                changed: changed_uris@,
                on_disk: on_disk@,
            }),
            changed@ == canonical_uris(s, o.changed),
            none@ == overrides::no_verdicts(),
            (Pass { present: present@, moved: moved_views(moved@) }) == detected(
                s,
                o,
                keys.skip(i as int),
            ),
            are_commitments(s, o, keys.skip(i as int), committed@),
        decreases i,
    {
        let ghost later = keys.skip(i as int);
        i -= 1;
        let root = workspaces.roots.key_at(i);
        let meta = workspaces.roots.value_at(i);
        let ghost now = keys.skip(i as int);
        proof {
            assert(now.drop_first() =~= later);
            assert(now[0] == keys[i as int]);
            assert(s.roots[keys[i as int]] == meta@);
        }
        let fresh = match adjudicated.get(root) {
            Some(v) => v,
            None => &none,
        };
        assert(fresh@ == fresh_for(o.fresh, keys[i as int]));
        let (by_file, outcome) = publish::root_desired_rows(
            workspaces,
            root,
            meta,
            adjudication,
            fresh,
            scope,
            on_disk,
        );
        materialize_root(
            workspaces,
            root,
            meta,
            scope,
            &by_file,
            &changed,
            &mut present,
            &mut moved,
        );
        let ghost c0 = committed@;
        committed.push((text::owned(root), outcome));
        proof {
            assert forall|j: int| 0 <= j < committed@.len() implies path::named(
                (#[trigger] committed@[j]).0@,
            ) == now[now.len() - 1 - j] && committed@[j].1 == publish::commitment(
                s,
                now[now.len() - 1 - j],
                s.roots[now[now.len() - 1 - j]],
                o.adjudication,
                o.focus,
            ) by {
                if j < c0.len() {
                    assert(committed@[j] == c0[j]);
                    assert(now[now.len() - 1 - j] == later[later.len() - 1 - j]);
                }
            }
        }
    }
    assert(keys.skip(0) =~= keys);
    Detection { present, moved, committed }
}

fn take_verdicts(map: &mut PathMap<OverrideVerdicts>, root: &str) -> (r: OverrideVerdicts)
    ensures
        fresh_views(final(map)@) == fresh_views(old(map)@).remove(path::named(root@)),
        r@ == fresh_for(fresh_views(old(map)@), path::named(root@)),
{
    let ghost before = fresh_views(map@);
    let found = map.remove(root);
    assert(fresh_views(map@) =~= before.remove(path::named(root@)));
    match found {
        Some(v) => v,
        None => OverrideVerdicts::default(),
    }
}

fn set_verdicts(map: &mut PathMap<RootMeta>, root: &str, verdicts: OverrideVerdicts)
    ensures
        final(map).order() == old(map).order(),
        ({
            let before = workspaces::metas(old(map)@);
            let k = path::named(root@);
            workspaces::metas(final(map)@) == (if before.contains_key(k) {
                before.insert(k, MetaView { verdicts: verdicts@, ..before[k] })
            } else {
                before
            })
        }),
{
    let ghost before = workspaces::metas(map@);
    let ghost k = path::named(root@);
    match folders::remove_meta(map, root) {
        Some(meta) => {
            let RootMeta { canonical_root, config, config_error, config_committed, has_config, .. } =
                meta;
            folders::insert_meta(
                map,
                root,
                RootMeta {
                    canonical_root,
                    config,
                    config_error,
                    config_committed,
                    has_config,
                    verdicts,
                },
            );
            assert(workspaces::metas(map@) =~= before.insert(
                k,
                MetaView { verdicts: verdicts@, ..before[k] },
            ));
        },
        None => {
            assert(before.remove(k) =~= before);
        },
    }
}

/// Hold the verdicts that a commitment found.
fn hold_verdicts(
    roots: &mut PathMap<RootMeta>,
    committed: &Vec<(String, Committed)>,
    adjudicated: &mut PathMap<OverrideVerdicts>,
    Ghost(s): Ghost<State>,
    Ghost(o): Ghost<Order>,
)
    requires
        workspaces::metas(old(roots)@) == s.roots,
        fresh_views(old(adjudicated)@) == o.fresh,
        are_commitments(s, o, sorted::keys_of(KeyOrder::Path, s.roots), committed@),
        sorted::is_key_list(
            KeyOrder::Path,
            sorted::keys_of(KeyOrder::Path, s.roots),
            s.roots,
        ),
    ensures
        final(roots).order() == old(roots).order(),
        workspaces::metas(final(roots)@) == roots_after(s, o),
{
    let ghost keys = sorted::keys_of(KeyOrder::Path, s.roots);
    let mut i: usize = 0;
    proof {
        sorted::lemma_ascending_distinct(KeyOrder::Path, keys);
        assert(keys.skip(keys.len() as int) =~= Seq::<Seq<u8>>::empty());
    }
    while i < committed.len()
        invariant
            i <= committed@.len(),
            committed@.len() == keys.len(),
            keys.no_duplicates(),
            are_commitments(s, o, keys, committed@),
            sorted::is_key_list(KeyOrder::Path, keys, s.roots),
            roots.order() == old(roots).order(),
            forall|r: Seq<u8>| #[trigger]
                workspaces::metas(roots@).contains_key(r) <==> s.roots.contains_key(r),
            forall|r: Seq<u8>| #[trigger]
                workspaces::metas(roots@).contains_key(r) ==> workspaces::metas(roots@)[r] == (
                if keys.skip(keys.len() - i).contains(r) {
                    meta_after(s, o, r)
                } else {
                    s.roots[r]
                }),
            forall|r: Seq<u8>|
                s.roots.contains_key(r) && !keys.skip(keys.len() - i).contains(r)
                    ==> #[trigger] fresh_for(fresh_views(adjudicated@), r) == fresh_for(o.fresh, r),
        decreases committed@.len() - i,
    {
        let ghost at = keys.len() - 1 - i;
        let ghost k = keys[at];
        let ghost done = keys.skip(keys.len() - i);
        let ghost next = keys.skip(at);
        let ghost before = workspaces::metas(roots@);
        let ghost f0 = fresh_views(adjudicated@);
        proof {
            assert(path::named(committed@[i as int].0@) == k);
            assert(keys.contains(k));
            assert forall|r: Seq<u8>| #[trigger] next.contains(r) <==> (done.contains(r) || r == k) by {
                assert(next =~= seq![k] + done);
                if done.contains(r) {
                    assert(next[1 + done.index_of(r)] == r);
                }
                if r == k {
                    assert(next[0] == r);
                }
                if next.contains(r) && r != k {
                    let n = next.index_of(r);
                    assert(done[n - 1] == r);
                }
            }
            assert(!done.contains(k)) by {
                if done.contains(k) {
                    let n = done.index_of(k);
                    assert(keys[keys.len() - i + n] == k);
                }
            }
        }
        let root = committed[i].0.as_str();
        match committed[i].1 {
            Committed::Nothing => {},
            Committed::Cleared => {
                set_verdicts(roots, root, OverrideVerdicts::default());
            },
            Committed::Adjudicated => {
                let fresh = take_verdicts(adjudicated, root);
                assert(fresh@ == fresh_for(o.fresh, k));
                set_verdicts(roots, root, fresh);
            },
        }
        proof {
            assert forall|r: Seq<u8>|
                s.roots.contains_key(r) && !next.contains(r) implies #[trigger] fresh_for(
                fresh_views(adjudicated@),
                r,
            ) == fresh_for(o.fresh, r) by {
                assert(!done.contains(r) && r != k);
                assert(fresh_for(f0, r) == fresh_for(o.fresh, r));
            }
        }
        i += 1;
    }
    proof {
        assert(keys.skip(0) =~= keys);
        assert forall|r: Seq<u8>| #[trigger] s.roots.contains_key(r) implies keys.contains(r) by {}
        assert(workspaces::metas(roots@) =~= roots_after(s, o));
    }
}

/// Compare what should be shown with what the client holds: bring the record of
/// what it holds up to date and list what to send, in the order of the URIs.
///
/// `changed_uris` names the documents whose text changed: they are compared in
/// the form that is sent even where their findings are the same. `adjudicated`
/// holds the verdicts on the saved findings of each root, for a commitment.
pub fn diff_diagnostics_with(
    workspaces: &mut Workspaces,
    changed_uris: &SortedMap<()>,
    adjudication: Adjudication,
    adjudicated: &mut PathMap<OverrideVerdicts>,
    scope: &PublishScope,
    on_disk: &PathMap<()>,
) -> (r: Vec<(String, Vec<SentDiagnostic>)>)
    requires
        old(workspaces).wf(),
    ensures
        final(workspaces).wf(),
        ({
            let o = Order {
                adjudication,
                focus: scope.focus(),
                fresh: fresh_views(old(adjudicated)@),
                changed: changed_uris@,
                on_disk: on_disk@,
            };
            &&& final(workspaces)@ == after_pass(old(workspaces)@, o)
            &&& send_list(r@) == in_uri_order(sends_after(old(workspaces)@, o))
        }),
{
    let ghost s = workspaces@;
    let ghost o = Order {
        adjudication,
        focus: scope.focus(),
        fresh: fresh_views(adjudicated@),
        changed: changed_uris@,
        on_disk: on_disk@,
    };
    let Detection { present, moved, committed } = detect(
        workspaces,
        changed_uris,
        adjudication,
        adjudicated,
        scope,
        on_disk,
    );
    hold_verdicts(&mut workspaces.roots, &committed, adjudicated, Ghost(s), Ghost(o));
    let mut sends = apply_moved(&mut workspaces.published, moved);
    let full = match scope {
        PublishScope::Full => true,
        PublishScope::Only(_) => false,
    };
    if full {
        clear_absent(&mut workspaces.published, &present, &mut sends);
    }
    proof {
        assert(workspaces@.published =~= published_after(s, o));
        assert(send_views(sends@) =~= sends_after(s, o));
    }
    list_sends(sends)
}

/// A full pass at a commitment.
pub fn diff_diagnostics(
    workspaces: &mut Workspaces,
    changed_uris: &SortedMap<()>,
    adjudicated: &mut PathMap<OverrideVerdicts>,
    on_disk: &PathMap<()>,
) -> (r: Vec<(String, Vec<SentDiagnostic>)>)
    requires
        old(workspaces).wf(),
    ensures
        final(workspaces).wf(),
        ({
            let o = Order {
                adjudication: Adjudication::Commit,
                focus: None,
                fresh: fresh_views(old(adjudicated)@),
                changed: changed_uris@,
                on_disk: on_disk@,
            };
            &&& final(workspaces)@ == after_pass(old(workspaces)@, o)
            &&& send_list(r@) == in_uri_order(sends_after(old(workspaces)@, o))
        }),
{
    diff_diagnostics_with(
        workspaces,
        changed_uris,
        Adjudication::Commit,
        adjudicated,
        &PublishScope::Full,
        on_disk,
    )
}

// One file.

/// The URI, the findings and their sent form for the document of a URI.
pub open spec fn file_desired(s: State, uri: Seq<u8>, on_disk: Map<Seq<u8>, ()>) -> Option<
    (Seq<u8>, Seq<DiagView>, Seq<SentView>),
> {
    match workspaces::resolved(s, uri::path_of(uri)) {
        None => None,
        Some((graph, rel)) => {
            let list = rows::rows_for(rows::live_rows(graph, on_disk), rel);
            let source = if graph.files@.contains_key(rel) {
                graph.files@[rel].tree.text()
            } else {
                Seq::empty()
            };
            Some((uri_under(graph.root, rel), list, rows::all_sent(list, source)))
        },
    }
}

/// Whether the client holds this already.
pub open spec fn is_shown(published: Map<Seq<u8>, PublishedView>, uri: Seq<u8>, lsp: Seq<SentView>) -> bool {
    if published.contains_key(uri) {
        published[uri].lsp == lsp
    } else {
        lsp.len() == 0
    }
}

/// What the client holds after one document was sent.
pub open spec fn held_after_one(
    published: Map<Seq<u8>, PublishedView>,
    uri: Seq<u8>,
    lattice: Seq<DiagView>,
    lsp: Seq<SentView>,
) -> Map<Seq<u8>, PublishedView> {
    if lsp.len() == 0 {
        published.remove(uri)
    } else {
        published.insert(uri, PublishedView { lattice, lsp })
    }
}

/// Compare one document with what the client holds, and give what to send of it,
/// if anything. No other document's record is touched.
pub fn diff_file_diagnostics(workspaces: &mut Workspaces, uri: &str, on_disk: &PathMap<()>) -> (r:
    Option<(String, Vec<SentDiagnostic>)>)
    requires
        old(workspaces).wf(),
    ensures
        final(workspaces).wf(),
        match file_desired(old(workspaces)@, text::utf8(uri@), on_disk@) {
            None => r is None && final(workspaces)@ == old(workspaces)@,
            Some((canonical, lattice, lsp)) => if is_shown(
                old(workspaces)@.published,
                canonical,
                lsp,
            ) {
                r is None && final(workspaces)@ == old(workspaces)@
            } else {
                &&& r matches Some((u, list)) && text::utf8(u@) == canonical
                    && workspaces::sent_views(list@) == lsp
                &&& final(workspaces)@ == (State {
                    published: held_after_one(
                        old(workspaces)@.published,
                        canonical,
                        lattice,
                        lsp,
                    ),
                    ..old(workspaces)@
                })
            },
        },
{
    let (canonical, lattice, lsp) = match workspaces.resolve(uri) {
        None => {
            return None;
        },
        Some((view, rel)) => {
            let live = rows::collect_all_diagnostics(&view, on_disk);
            let lattice = rows::keep_rows(&live, rel.as_str());
            let lsp = match view.file(rel.as_str()) {
                Some(data) => rows::to_lsp_diagnostics(&lattice, data.tree.source.as_str()),
                None => {
                    proof {
                        reveal_strlit("");
                        assert(text::utf8(""@) =~= Seq::<u8>::empty());
                    }
                    rows::to_lsp_diagnostics(&lattice, "")
                },
            };
            let canonical = uri::path_to_uri(
                path::child(view.root.as_str(), rel.as_str()).as_str(),
            );
            (canonical, lattice, lsp)
        },
    };
    assert(workspaces::sent_views(lsp@).len() == lsp@.len());
    let shown = match workspaces.published.get(canonical.as_str()) {
        Some(held) => rows::same_sent(&held.lsp, &lsp),
        None => lsp.len() == 0,
    };
    if shown {
        return None;
    }
    let sent = rows::copy_sent(&lsp);
    if lsp.len() == 0 {
        remove_record(&mut workspaces.published, canonical.as_str());
    } else {
        insert_record(&mut workspaces.published, canonical.as_str(), lattice, lsp);
    }
    Some((canonical, sent))
}

} // verus!

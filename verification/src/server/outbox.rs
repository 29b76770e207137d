//! What is sent on each occasion.
use vstd::prelude::*;
use crate::diagnostic::DiagView;
use crate::overrides;
use crate::overrides::{OverrideVerdicts, VerdictsView};
use crate::path;
use crate::pathmap::PathMap;
use crate::server::diff;
use crate::server::diff::Order;
use crate::server::markers;
use crate::server::publish;
use crate::server::publish::{Adjudication, PublishScope};
use crate::server::rows;
use crate::server::workspaces;
use crate::server::workspaces::{SentDiagnostic, SentView, State, Workspaces};
use crate::sorted;
use crate::sorted::{KeyOrder, SortedMap};
use crate::text;
use crate::uri;

verus! {

/// The state without a record of what the client holds for a document.
pub open spec fn forgotten(s: State, uri: Option<Seq<u8>>) -> State {
    match uri {
        Some(u) => State { published: s.published.remove(u), ..s },
        None => s,
    }
}

/// What is sent, with an empty list for a document that has nothing to show.
pub open spec fn answered(
    sends: Seq<(Seq<u8>, Seq<SentView>)>,
    after: State,
    uri: Option<Seq<u8>>,
) -> Seq<(Seq<u8>, Seq<SentView>)> {
    match uri {
        Some(u) if !after.published.contains_key(u) => sends.push((u, Seq::empty())),
        _ => sends,
    }
}

/// The URI that a document is published under, where it belongs to a root.
pub open spec fn published_uri(s: State, uri: Seq<u8>) -> Option<Seq<u8>> {
    match workspaces::resolved(s, uri::path_of(uri)) {
        Some((graph, rel)) => Some(diff::uri_under(graph.root, rel)),
        None => None,
    }
}

/// The URI that a configuration is published under, where its scope is registered.
pub open spec fn config_uri(s: State, marker: Seq<u8>) -> Option<Seq<u8>> {
    match markers::parent_of(uri::path_of(marker)) {
        Some(dir) => match markers::registered_at(s, dir) {
            Some(root) => Some(diff::uri_under(root, publish::marker_name())),
            None => None,
        },
        None => None,
    }
}

fn find_published(workspaces: &Workspaces, uri: &str) -> (r: Option<String>)
    requires
        workspaces.wf(),
    ensures
        text::maybe(r) == published_uri(workspaces@, text::utf8(uri@)),
{
    match workspaces.resolve(uri) {
        Some((view, rel)) => Some(
            uri::path_to_uri(path::child(view.root.as_str(), rel.as_str()).as_str()),
        ),
        None => None,
    }
}

fn forget(workspaces: &mut Workspaces, uri: &Option<String>)
    requires
        old(workspaces).wf(),
    ensures
        final(workspaces).wf(),
        final(workspaces)@ == forgotten(old(workspaces)@, text::maybe(*uri)),
{
    if let Some(u) = uri {
        diff::remove_record(&mut workspaces.published, u.as_str());
    }
}

fn answer(
    workspaces: &Workspaces,
    uri: Option<String>,
    sends: Vec<(String, Vec<SentDiagnostic>)>,
) -> (r: Vec<(String, Vec<SentDiagnostic>)>)
    ensures
        diff::send_list(r@) == answered(
            diff::send_list(sends@),
            workspaces@,
            text::maybe(uri),
        ),
{
    let mut sends = sends;
    let ghost before = diff::send_list(sends@);
    if let Some(u) = uri {
        if !workspaces.published.contains_key(u.as_str()) {
            let none: Vec<SentDiagnostic> = Vec::new();
            let ghost one = (text::utf8(u@), Seq::<SentView>::empty());
            assert(workspaces::sent_views(none@) =~= Seq::<SentView>::empty());
            sends.push((u, none));
            assert(diff::send_list(sends@) =~= before.push(one));
        }
    }
    sends
}

/// Publish a document again though nothing may have changed: a client that
/// opened or saved it waits for an answer, and gets an empty one for a document
/// without diagnostics. One outside every scope gets none.
pub fn force_republish(
    workspaces: &mut Workspaces,
    uri: &str,
    adjudicated: &mut PathMap<OverrideVerdicts>,
    scope: &PublishScope,
    on_disk: &PathMap<()>,
) -> (r: Vec<(String, Vec<SentDiagnostic>)>)
    requires
        old(workspaces).wf(),
    ensures
        final(workspaces).wf(),
        ({
            let own = published_uri(old(workspaces)@, text::utf8(uri@));
            let s = forgotten(old(workspaces)@, own);
            let o = Order {
                adjudication: Adjudication::Commit,
                focus: scope.focus(),
                fresh: diff::fresh_views(old(adjudicated)@),
                changed: Map::empty().insert(text::utf8(uri@), ()),
                on_disk: on_disk@,
            };
            &&& final(workspaces)@ == diff::after_pass(s, o)
            &&& diff::send_list(r@) == answered(
                diff::in_uri_order(diff::sends_after(s, o)),
                diff::after_pass(s, o),
                own,
            )
        }),
{
    let own = find_published(workspaces, uri);
    forget(workspaces, &own);
    let changed = publish::one_uri(uri);
    let sends = diff::diff_diagnostics_with(
        workspaces,
        &changed,
        Adjudication::Commit,
        adjudicated,
        scope,
        on_disk,
    );
    answer(workspaces, own, sends)
}

/// Publish the diagnostics of a configuration again, with an empty answer where
/// there are none. A configuration outside every registered scope gets none.
pub fn force_republish_config(
    workspaces: &mut Workspaces,
    marker_uri: &str,
    adjudicated: &mut PathMap<OverrideVerdicts>,
    on_disk: &PathMap<()>,
) -> (r: Vec<(String, Vec<SentDiagnostic>)>)
    requires
        old(workspaces).wf(),
    ensures
        final(workspaces).wf(),
        match config_uri(old(workspaces)@, text::utf8(marker_uri@)) {
            None => {
                &&& diff::send_list(r@) == Seq::<(Seq<u8>, Seq<SentView>)>::empty()
                &&& final(workspaces)@ == old(workspaces)@
            },
            Some(own) => {
                let s = forgotten(old(workspaces)@, Some(own));
                let o = Order {
                    adjudication: Adjudication::Commit,
                    focus: None,
                    fresh: diff::fresh_views(old(adjudicated)@),
                    changed: Map::empty(),
                    on_disk: on_disk@,
                };
                &&& final(workspaces)@ == diff::after_pass(s, o)
                &&& diff::send_list(r@) == answered(
                    diff::in_uri_order(diff::sends_after(s, o)),
                    diff::after_pass(s, o),
                    Some(own),
                )
            },
        },
{
    let marker = uri::uri_to_path(marker_uri);
    let found = match markers::parent_directory(marker.as_str()) {
        Some(dir) => workspaces.registered_root_at(dir.as_str()),
        None => None,
    };
    let Some(root) = found else {
        let none: Vec<(String, Vec<SentDiagnostic>)> = Vec::new();
        assert(diff::send_list(none@) =~= Seq::<(Seq<u8>, Seq<SentView>)>::empty());
        return none;
    };
    let own = Some(
        uri::path_to_uri(path::child(root.as_str(), ".lattice.toml").as_str()),
    );
    forget(workspaces, &own);
    let changed: SortedMap<()> = SortedMap::new(KeyOrder::Bytes);
    let sends = diff::diff_diagnostics(workspaces, &changed, adjudicated, on_disk);
    answer(workspaces, own, sends)
}

/// Publish what changed, at a commitment.
pub fn publish_all_diagnostics(
    workspaces: &mut Workspaces,
    changed_uris: &SortedMap<()>,
    adjudicated: &mut PathMap<OverrideVerdicts>,
    on_disk: &PathMap<()>,
) -> (r: Vec<(String, Vec<SentDiagnostic>)>)
    requires
        old(workspaces).wf(),
    ensures
        final(workspaces).wf(),
        ({
            let o = Order {
                adjudication: Adjudication::Commit,
                focus: None,
                fresh: diff::fresh_views(old(adjudicated)@),
                changed: changed_uris@,
                on_disk: on_disk@,
            };
            &&& final(workspaces)@ == diff::after_pass(old(workspaces)@, o)
            &&& diff::send_list(r@) == diff::in_uri_order(
                diff::sends_after(old(workspaces)@, o),
            )
        }),
{
    diff::diff_diagnostics(workspaces, changed_uris, adjudicated, on_disk)
}

/// Publish what changed of one document, between commitments.
pub fn publish_draft_diagnostics(
    workspaces: &mut Workspaces,
    changed_uris: &SortedMap<()>,
    focus: &str,
    on_disk: &PathMap<()>,
) -> (r: Vec<(String, Vec<SentDiagnostic>)>)
    requires
        old(workspaces).wf(),
    ensures
        final(workspaces).wf(),
        ({
            let o = Order {
                adjudication: Adjudication::Held,
                focus: Some(path::named(focus@)),
                fresh: Map::empty(),
                changed: changed_uris@,
                on_disk: on_disk@,
            };
            &&& final(workspaces)@ == diff::after_pass(old(workspaces)@, o)
            &&& diff::send_list(r@) == diff::in_uri_order(
                diff::sends_after(old(workspaces)@, o),
            )
        }),
{
    let mut none: PathMap<OverrideVerdicts> = PathMap::new();
    assert(diff::fresh_views(none@) =~= Map::<Seq<u8>, VerdictsView>::empty());
    diff::diff_diagnostics_with(
        workspaces,
        changed_uris,
        Adjudication::Held,
        &mut none,
        &PublishScope::Only(text::owned(focus)),
        on_disk,
    )
}

/// Publish what changed of one document whose edit can move no other one's
/// diagnostics.
pub fn publish_file_diagnostics(
    workspaces: &mut Workspaces,
    uri: &str,
    on_disk: &PathMap<()>,
) -> (r: Option<(String, Vec<SentDiagnostic>)>)
    requires
        old(workspaces).wf(),
    ensures
        final(workspaces).wf(),
        match diff::file_desired(old(workspaces)@, text::utf8(uri@), on_disk@) {
            None => r is None && final(workspaces)@ == old(workspaces)@,
            Some((canonical, lattice, lsp)) => if diff::is_shown(
                old(workspaces)@.published,
                canonical,
                lsp,
            ) {
                r is None && final(workspaces)@ == old(workspaces)@
            } else {
                &&& r matches Some((u, list)) && text::utf8(u@) == canonical
                    && workspaces::sent_views(list@) == lsp
                &&& final(workspaces)@ == (State {
                    published: diff::held_after_one(
                        old(workspaces)@.published,
                        canonical,
                        lattice,
                        lsp,
                    ),
                    ..old(workspaces)@
                })
            },
        },
{
    diff::diff_file_diagnostics(workspaces, uri, on_disk)
}

// Everything from scratch.

/// What should be shown for a root between commitments.
pub open spec fn held_rows(s: State, root: Seq<u8>, on_disk: Map<Seq<u8>, ()>) -> Map<
    Seq<u8>,
    Seq<DiagView>,
> {
    publish::desired_rows(
        s,
        root,
        s.roots[root],
        Adjudication::Held,
        overrides::no_verdicts(),
        None,
        on_disk,
    )
}

/// What should be shown of some documents of a root, added to what should be
/// shown of others.
pub open spec fn shown_of(
    s: State,
    root: Seq<u8>,
    by_file: Map<Seq<u8>, Seq<DiagView>>,
    rels: Seq<Seq<u8>>,
    start: Map<Seq<u8>, Seq<SentView>>,
) -> Map<Seq<u8>, Seq<SentView>>
    decreases rels.len(),
{
    if rels.len() == 0 {
        start
    } else {
        let rel = rels.last();
        shown_of(s, root, by_file, rels.drop_last(), start).insert(
            diff::uri_under(root, rel),
            rows::all_sent(publish::rows_at(by_file, rel), diff::text_at(s, root, rel)),
        )
    }
}

/// What should be shown of all documents of some roots; deeper roots decide.
pub open spec fn shown_by(s: State, roots: Seq<Seq<u8>>, on_disk: Map<Seq<u8>, ()>) -> Map<
    Seq<u8>,
    Seq<SentView>,
>
    decreases roots.len(),
{
    if roots.len() == 0 {
        Map::empty()
    } else {
        let root = roots.last();
        let by_file = held_rows(s, root, on_disk);
        shown_of(
            s,
            root,
            by_file,
            diff::to_visit(s, root, s.roots[root], None, by_file),
            shown_by(s, roots.drop_last(), on_disk),
        )
    }
}

/// What the client should hold, for every document of every root, computed
/// without regard to what it does hold.
pub fn desired_diagnostics(workspaces: &Workspaces, on_disk: &PathMap<()>) -> (r: SortedMap<
    Vec<SentDiagnostic>,
>)
    requires
        workspaces.wf(),
    ensures
        diff::send_views(r@) == shown_by(
            workspaces@,
            sorted::keys_of(KeyOrder::Path, workspaces@.roots),
            on_disk@,
        ),
{
    let mut desired: SortedMap<Vec<SentDiagnostic>> = SortedMap::new(KeyOrder::Bytes);
    let none = OverrideVerdicts::default();
    let ghost s = workspaces@;
    let ghost keys = workspaces.roots.keys();
    let n = workspaces.roots.len();
    let mut i: usize = 0;
    workspaces.roots.keys_ascend();
    proof {
        sorted::lemma_keys_of(KeyOrder::Path, keys, s.roots);
        assert(keys.take(0) =~= Seq::<Seq<u8>>::empty());
        assert(diff::send_views(desired@) =~= Map::<Seq<u8>, Seq<SentView>>::empty());
    }
    while i < n
        invariant
            i <= n,
            n == keys.len(),
            keys == workspaces.roots.keys(),
            workspaces.wf(),
            s == workspaces@,
            none@ == overrides::no_verdicts(),
            diff::send_views(desired@) == shown_by(s, keys.take(i as int), on_disk@),
        decreases n - i,
    {
        let root = workspaces.roots.key_at(i);
        let meta = workspaces.roots.value_at(i);
        let ghost rt = path::named(root@);
        let ghost start = diff::send_views(desired@);
        let (by_file, _) = publish::root_desired_rows(
            workspaces,
            root,
            meta,
            Adjudication::Held,
            &none,
            &PublishScope::Full,
            on_disk,
        );
        let ghost map = publish::row_views(by_file@);
        proof {
            assert(s.roots[rt] == meta@);
            assert(map == held_rows(s, rt, on_disk@));
            assert(keys.take(i + 1).drop_last() =~= keys.take(i as int));
            assert(keys.take(i + 1).last() == rt);
        }
        let rels = diff::list_to_visit(workspaces, root, meta, &PublishScope::Full, &by_file);
        let ghost all = path::texts(rels@);
        let mut k: usize = 0;
        assert(all.take(0) =~= Seq::<Seq<u8>>::empty());
        while k < rels.len()
            invariant
                k <= rels@.len(),
                all == path::texts(rels@),
                all == path::all_named(rels@),
                s == workspaces@,
                rt == path::named(root@),
                map == publish::row_views(by_file@),
                diff::send_views(desired@) == shown_of(s, rt, map, all.take(k as int), start),
            decreases rels@.len() - k,
        {
            let rel = rels[k].as_str();
            assert(path::all_named(rels@)[k as int] == path::texts(rels@)[k as int]);
            let list = diff::rows_of_file(&by_file, rel);
            let entry = diff::materialize(workspaces, root, rel, list);
            proof {
                assert(all.take(k + 1).drop_last() =~= all.take(k as int));
                assert(all.take(k + 1).last() == text::utf8(rel@));
            }
            diff::insert_send(&mut desired, entry.uri.as_str(), entry.lsp);
            k += 1;
        }
        assert(all.take(k as int) =~= all);
        i += 1;
    }
    assert(keys.take(i as int) =~= keys);
    desired
}

} // verus!

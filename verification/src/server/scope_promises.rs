//! What scopes promise.
use vstd::prelude::*;
use crate::path;
use crate::server::folders;
use crate::server::markers;
use crate::server::markers::ReloadView;
use crate::server::scopes::{DiskView, ScanView};
use crate::server::workspaces;
use crate::server::workspaces::{MetaView, State};
use crate::sorted;
use crate::sorted::KeyOrder;
use crate::structural::ExternalExistence;
use crate::workspace::{BoundaryKind, BoundaryView};

verus! {

// Placement.

/// A document belongs to the deepest registered root that it lies in, or to none:
/// it never belongs to a root around that one.
pub proof fn law_the_deepest_root_owns(s: State, abs: Seq<u8>)
    requires
        workspaces::placement(s, abs) is Some,
    ensures
        workspaces::is_deepest(s.roots, abs, workspaces::placement(s, abs)->0),
{
}

/// A path outside every registered root belongs to none.
pub proof fn law_outside_paths_belong_nowhere(s: State, abs: Seq<u8>)
    requires
        forall|r: Seq<u8>| #[trigger] s.roots.contains_key(r) ==> !path::under(abs, r),
    ensures
        workspaces::placement(s, abs) is None,
{
}

/// A repository that a root is or lies in does not cut the documents of that
/// root off.
pub proof fn law_repositories_around_a_root_do_not_matter(
    roots: Map<Seq<u8>, MetaView>,
    git: Map<Seq<u8>, ()>,
    abs: Seq<u8>,
    root: Seq<u8>,
    g: Seq<u8>,
)
    requires
        workspaces::is_deepest(roots, abs, root),
        path::under(root, g),
    ensures
        workspaces::placement_among(roots, git.insert(g, ()), abs) == workspaces::placement_among(
            roots,
            git,
            abs,
        ),
{
    let chosen = choose|r: Seq<u8>| workspaces::is_deepest(roots, abs, r);
    workspaces::lemma_one_deepest(roots, abs, root, chosen);
    let more = git.insert(g, ());
    if workspaces::gated(git, abs, root) {
        let x = choose|x: Seq<u8>| #[trigger]
            git.contains_key(x) && path::under(abs, x) && !path::under(root, x);
        assert(more.contains_key(x));
    }
    if workspaces::gated(more, abs, root) {
        let x = choose|x: Seq<u8>| #[trigger]
            more.contains_key(x) && path::under(abs, x) && !path::under(root, x);
        assert(git.contains_key(x));
    }
}

/// A repository below the deepest root cuts its documents off.
pub proof fn law_repositories_below_a_root_cut_off(
    roots: Map<Seq<u8>, MetaView>,
    git: Map<Seq<u8>, ()>,
    abs: Seq<u8>,
    root: Seq<u8>,
    g: Seq<u8>,
)
    requires
        workspaces::is_deepest(roots, abs, root),
        git.contains_key(g),
        path::under(abs, g),
        !path::under(root, g),
    ensures
        workspaces::placement_among(roots, git, abs) is None,
{
    let chosen = choose|r: Seq<u8>| workspaces::is_deepest(roots, abs, r);
    workspaces::lemma_one_deepest(roots, abs, root, chosen);
}

// Boundaries.

proof fn lemma_inner_scopes(keys: Seq<Seq<u8>>, git: Map<Seq<u8>, ()>, root: Seq<u8>, i: int)
    requires
        0 <= i < workspaces::inner_scopes(keys, git, root).len(),
    ensures
        ({
            let b = workspaces::inner_scopes(keys, git, root)[i];
            b.path != root && path::under(b.path, root) && b.kind == BoundaryKind::Scope
                && !git.contains_key(b.path)
        }),
    decreases keys.len(),
{
    let rest = workspaces::inner_scopes(keys.drop_last(), git, root);
    if i < rest.len() {
        lemma_inner_scopes(keys.drop_last(), git, root, i);
    }
}

proof fn lemma_inner_repositories(keys: Seq<Seq<u8>>, root: Seq<u8>, i: int)
    requires
        0 <= i < workspaces::inner_repositories(keys, root).len(),
    ensures
        ({
            let b = workspaces::inner_repositories(keys, root)[i];
            b.path != root && path::under(b.path, root) && b.kind == BoundaryKind::Git
        }),
    decreases keys.len(),
{
    let rest = workspaces::inner_repositories(keys.drop_last(), root);
    if i < rest.len() {
        lemma_inner_repositories(keys.drop_last(), root, i);
    }
}

/// Every boundary in the view of a root lies strictly inside it: the root itself
/// is never a boundary of its own view.
pub proof fn law_boundaries_lie_inside(s: State, root: Seq<u8>, i: int)
    requires
        0 <= i < workspaces::boundaries_of(s, root).len(),
    ensures
        workspaces::boundaries_of(s, root)[i].path != root,
        path::under(workspaces::boundaries_of(s, root)[i].path, root),
{
    let scope_keys = sorted::keys_of(KeyOrder::Path, s.roots);
    let git_keys = sorted::keys_of(KeyOrder::Path, s.git);
    let n = workspaces::inner_scopes(scope_keys, s.git, root).len();
    if i < n {
        lemma_inner_scopes(scope_keys, s.git, root, i);
    } else {
        lemma_inner_repositories(git_keys, root, i - n);
    }
}

// Registration.

/// Whether a state goes on with what another one has: its roots, its saved
/// documents and all that is open and published.
pub open spec fn goes_on(s: State, t: State) -> bool {
    &&& forall|r: Seq<u8>| #[trigger]
        s.roots.contains_key(r) ==> t.roots.contains_key(r) && t.roots[r] == s.roots[r]
    &&& forall|k: Seq<u8>| #[trigger]
        s.store.saved.contains_key(k) ==> t.store.saved.contains_key(k) && t.store.saved[k]
            == s.store.saved[k]
    &&& t.store.overlay == s.store.overlay
    &&& t.open == s.open
    &&& t.folders == s.folders
    &&& t.published == s.published
}

proof fn lemma_seeded_keeps(
    saved: Map<Seq<u8>, crate::store::DocView>,
    root: Seq<u8>,
    files: Seq<(Seq<u8>, crate::workspace::FileView)>,
    n: int,
    k: Seq<u8>,
)
    requires
        saved.contains_key(k),
    ensures
        folders::seeded(saved, root, files, n).contains_key(k),
        folders::seeded(saved, root, files, n)[k] == saved[k],
    decreases n,
{
    if n > 0 {
        lemma_seeded_keeps(saved, root, files, n - 1, k);
    }
}

/// Registration only adds: registered roots keep what is known of them, saved
/// documents are not replaced, and nothing open or published changes.
pub proof fn law_registration_only_adds(
    s: State,
    scans: Map<Seq<u8>, ScanView>,
    nested: Map<Seq<u8>, Seq<BoundaryView>>,
    todo: Seq<Seq<u8>>,
)
    requires
        scans.dom().finite(),
    ensures
        goes_on(s, folders::registered(s, scans, nested, todo).0),
    decreases scans.dom().len(), todo.len(),
{
    if todo.len() > 0 {
        let root = todo[0];
        let rest = todo.drop_first();
        if s.roots.contains_key(root) || !scans.contains_key(root) {
            law_registration_only_adds(s, scans, nested, rest);
        } else {
            let t = folders::registered_one(s, root, scans[root]);
            let more = crate::server::scopes::scopes_at(nested, root) + rest;
            assert forall|k: Seq<u8>| #[trigger] s.store.saved.contains_key(k) implies
                t.store.saved.contains_key(k) && t.store.saved[k] == s.store.saved[k] by {
                lemma_seeded_keeps(
                    s.store.saved,
                    root,
                    scans[root].files,
                    scans[root].files.len() as int,
                    k,
                );
            }
            assert(goes_on(s, t));
            law_registration_only_adds(t, scans.remove(root), nested, more);
        }
    }
}

/// A scope that was scanned is registered by asking for it.
pub proof fn law_what_is_scanned_gets_registered(
    s: State,
    scans: Map<Seq<u8>, ScanView>,
    nested: Map<Seq<u8>, Seq<BoundaryView>>,
    root: Seq<u8>,
)
    requires
        scans.dom().finite(),
        scans.contains_key(root) || s.roots.contains_key(root),
    ensures
        folders::registered(s, scans, nested, seq![root]).0.roots.contains_key(root),
{
    let todo = seq![root];
    assert(todo.drop_first() =~= Seq::<Seq<u8>>::empty());
    law_registration_only_adds(s, scans, nested, todo);
    if !s.roots.contains_key(root) {
        let t = folders::registered_one(s, root, scans[root]);
        let more = crate::server::scopes::scopes_at(nested, root) + todo.drop_first();
        law_registration_only_adds(t, scans.remove(root), nested, more);
        assert(t.roots.contains_key(root));
    }
}

/// Registering a root again changes nothing.
pub proof fn law_registering_twice_is_registering_once(
    s: State,
    scans: Map<Seq<u8>, ScanView>,
    nested: Map<Seq<u8>, Seq<BoundaryView>>,
    root: Seq<u8>,
)
    requires
        scans.dom().finite(),
        s.roots.contains_key(root),
    ensures
        folders::registered(s, scans, nested, seq![root]) == (s, scans),
{
    let todo = seq![root];
    assert(todo.drop_first() =~= Seq::<Seq<u8>>::empty());
    assert(folders::registered(s, scans, nested, todo.drop_first()) == (s, scans));
}

// Folders and markers.

proof fn lemma_rerooted_keeps(s: State, keys: Seq<Seq<u8>>, k: Seq<u8>)
    ensures
        ({
            let t = folders::all_rerooted(s, keys);
            &&& t.roots == s.roots
            &&& t.open == s.open
            &&& t.folders == s.folders
            &&& t.published == s.published
            &&& t.store.overlay.contains_key(k) <==> s.store.overlay.contains_key(k)
            &&& s.open.contains_key(k) ==> (t.store.saved.contains_key(k)
                <==> s.store.saved.contains_key(k))
        }),
    decreases keys.len(),
{
    if keys.len() > 0 {
        lemma_rerooted_keeps(s, keys.drop_last(), k);
    }
}

/// Closing a folder takes away exactly the roots that no open folder shows any
/// more.
pub proof fn law_shown_scopes_stay(s: State, d: DiskView, folder: Seq<u8>, r: Seq<u8>)
    requires
        s.folders.contains_key(folder),
    ensures
        folders::folder_removed(s, d, folder).roots.contains_key(r) <==> s.roots.contains_key(r)
            && crate::server::scopes::shown(d, s.folders.remove(folder)).contains_key(r),
        folders::folder_removed(s, d, folder).roots.contains_key(r) ==> folders::folder_removed(
            s,
            d,
            folder,
        ).roots[r] == s.roots[r],
{
    let a = State { folders: s.folders.remove(folder), ..s };
    let stale = folders::stale_roots(a, d);
    let b = folders::with_repositories(
        State {
            roots: Map::new(
                |r: Seq<u8>| a.roots.contains_key(r) && !stale.contains_key(r),
                |r: Seq<u8>| a.roots[r],
            ),
            ..a
        },
        d,
    );
    lemma_rerooted_keeps(b, sorted::keys_of(KeyOrder::Path, folders::owned_by(b, stale)), r);
}

/// A document that the client has open survives the folder that showed it.
pub proof fn law_open_documents_outlive_folders(s: State, d: DiskView, folder: Seq<u8>, k: Seq<u8>)
    requires
        s.open.contains_key(k),
    ensures
        folders::folder_removed(s, d, folder).store.saved.contains_key(k)
            <==> s.store.saved.contains_key(k),
        folders::folder_removed(s, d, folder).store.overlay.contains_key(k)
            <==> s.store.overlay.contains_key(k),
{
    if s.folders.contains_key(folder) {
        let a = State { folders: s.folders.remove(folder), ..s };
        let stale = folders::stale_roots(a, d);
        let b = folders::with_repositories(
            State {
                roots: Map::new(
                    |r: Seq<u8>| a.roots.contains_key(r) && !stale.contains_key(r),
                    |r: Seq<u8>| a.roots[r],
                ),
                ..a
            },
            d,
        );
        lemma_rerooted_keeps(b, sorted::keys_of(KeyOrder::Path, folders::owned_by(b, stale)), k);
    }
}

/// A document that the client has open survives the marker of its scope.
pub proof fn law_open_documents_outlive_markers(s: State, d: DiskView, root: Seq<u8>, k: Seq<u8>)
    requires
        s.open.contains_key(k),
    ensures
        markers::scope_merged(s, d, root).store.saved.contains_key(k)
            <==> s.store.saved.contains_key(k),
        markers::scope_merged(s, d, root).store.overlay.contains_key(k)
            <==> s.store.overlay.contains_key(k),
{
    if s.roots.contains_key(root) {
        let b = folders::with_repositories(State { roots: s.roots.remove(root), ..s }, d);
        lemma_rerooted_keeps(b, folders::keys_in(b, root), k);
    }
}

/// A configuration that could not be loaded keeps the one before it in effect:
/// no document is read again, and only what is said of the load changes.
pub proof fn law_a_failed_load_keeps_the_configuration(
    s: State,
    root: Seq<u8>,
    reload: ReloadView,
    external: Map<Seq<u8>, ExternalExistence>,
)
    requires
        reload.loaded is Err,
        s.roots.contains_key(root),
    ensures
        ({
            let t = markers::config_reloaded(s, root, reload, external);
            &&& t.store == s.store
            &&& t.published == s.published
            &&& t.roots[root].config == s.roots[root].config
            &&& t.roots[root].committed == s.roots[root].committed
            &&& t.roots[root].verdicts == s.roots[root].verdicts
            &&& t.roots[root].error == Some(reload.loaded->Err_0)
        }),
{
}

proof fn lemma_reparsed_keeps(s: State, keys: Seq<Seq<u8>>)
    ensures
        markers::all_reparsed(s, keys).roots == s.roots,
        markers::all_reparsed(s, keys).git == s.git,
    decreases keys.len(),
{
    if keys.len() > 0 {
        lemma_reparsed_keeps(s, keys.drop_last());
    }
}

/// A configuration that loads takes effect and clears what was said of an earlier
/// failure; other roots keep what is known of them.
pub proof fn law_a_load_takes_effect(
    s: State,
    root: Seq<u8>,
    reload: ReloadView,
    external: Map<Seq<u8>, ExternalExistence>,
    other: Seq<u8>,
)
    requires
        reload.loaded is Ok,
        s.roots.contains_key(root),
    ensures
        ({
            let t = markers::config_reloaded(s, root, reload, external);
            &&& t.roots[root].config == reload.loaded->Ok_0
            &&& t.roots[root].committed
            &&& t.roots[root].error is None
            &&& other != root ==> (t.roots.contains_key(other) <==> s.roots.contains_key(other))
                && t.roots[other] == s.roots[other]
        }),
{
    let meta = MetaView {
        config: reload.loaded->Ok_0,
        error: None,
        committed: true,
        has_config: reload.has_config,
        ..s.roots[root]
    };
    let a = State { roots: s.roots.insert(root, meta), ..s };
    let keys = sorted::keys_of(
        KeyOrder::Path,
        folders::owned_by(a, Map::empty().insert(root, ())),
    );
    lemma_reparsed_keeps(a, keys);
}

/// A marker outside every scope does nothing.
pub proof fn law_stray_markers_do_nothing(
    s: State,
    d: DiskView,
    marker: Seq<u8>,
    present: bool,
    reload: ReloadView,
)
    requires
        markers::parent_of(marker) matches Some(dir) ==> markers::registered_at(s, dir) is None
            && workspaces::placement(s, dir) is None,
    ensures
        markers::marker_handled(s, d, marker, present, reload) == (s, d.scans, false),
{
}

/// A folder that the client opened stays a scope when its marker goes.
pub proof fn law_open_folders_stay_scopes(
    s: State,
    d: DiskView,
    marker: Seq<u8>,
    present: bool,
    reload: ReloadView,
    r: Seq<u8>,
)
    requires
        markers::parent_of(marker) matches Some(dir) && markers::registered_at(s, dir) == Some(
            r,
        ),
        s.roots.contains_key(r),
        s.folders.contains_key(r),
    ensures
        markers::marker_handled(s, d, marker, present, reload).0.roots.contains_key(r),
{
    if reload.loaded is Ok {
        law_a_load_takes_effect(s, r, reload, d.external, r);
        let meta = MetaView {
            config: reload.loaded->Ok_0,
            error: None,
            committed: true,
            has_config: reload.has_config,
            ..s.roots[r]
        };
        let a = State { roots: s.roots.insert(r, meta), ..s };
        let keys = sorted::keys_of(
            KeyOrder::Path,
            folders::owned_by(a, Map::empty().insert(r, ())),
        );
        lemma_reparsed_keeps(a, keys);
    }
}

} // verus!

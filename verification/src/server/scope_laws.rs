//! Which scopes are shown and registered, and which documents belong to them.
use vstd::prelude::*;
use crate::path;
use crate::path_laws;
use crate::server::folders;
use crate::server::markers;
use crate::server::markers::ReloadView;
use crate::server::scope_promises;
use crate::server::scopes;
use crate::server::scopes::{DiskView, ScanView};
use crate::server::upkeep;
use crate::server::workspaces;
use crate::server::workspaces::State;
use crate::sorted;
use crate::sorted::KeyOrder;
use crate::store::DocView;
use crate::workspace::{BoundaryKind, BoundaryView, FileView};

verus! {

// Shown scopes.

/// Whether a boundary of a kind lies just inside a directory.
pub open spec fn lies_in(
    nested: Map<Seq<u8>, Seq<BoundaryView>>,
    dir: Seq<u8>,
    p: Seq<u8>,
    kind: BoundaryKind,
) -> bool {
    nested.contains_key(dir) && exists|i: int|
        0 <= i < nested[dir].len() && (#[trigger] nested[dir][i]).path == p && nested[dir][i].kind
            == kind
}

proof fn lemma_scopes_in(list: Seq<BoundaryView>, p: Seq<u8>)
    ensures
        scopes::scopes_in(list).contains(p) <==> exists|i: int|
            0 <= i < list.len() && (#[trigger] list[i]).path == p && list[i].kind
                == BoundaryKind::Scope,
    decreases list.len(),
{
    if list.len() > 0 {
        let rest = list.drop_last();
        let before = scopes::scopes_in(rest);
        let after = scopes::scopes_in(list);
        lemma_scopes_in(rest, p);
        if before.contains(p) {
            let i = choose|i: int|
                0 <= i < rest.len() && (#[trigger] rest[i]).path == p && rest[i].kind
                    == BoundaryKind::Scope;
            assert(list[i] == rest[i]);
            let j = choose|j: int| 0 <= j < before.len() && before[j] == p;
            assert(after[j] == p);
        }
        if after.contains(p) && !before.contains(p) {
            let j = choose|j: int| 0 <= j < after.len() && after[j] == p;
            if j < before.len() {
                assert(before[j] == p);
            }
            assert(list[list.len() - 1].path == p);
        }
        if exists|i: int|
            0 <= i < list.len() && (#[trigger] list[i]).path == p && list[i].kind
                == BoundaryKind::Scope {
            let i = choose|i: int|
                0 <= i < list.len() && (#[trigger] list[i]).path == p && list[i].kind
                    == BoundaryKind::Scope;
            if i < rest.len() {
                assert(rest[i] == list[i]);
            } else {
                assert(after[before.len() as int] == p);
            }
        }
    }
}

proof fn lemma_scopes_at(nested: Map<Seq<u8>, Seq<BoundaryView>>, dir: Seq<u8>, p: Seq<u8>)
    ensures
        scopes::scopes_at(nested, dir).contains(p) <==> lies_in(
            nested,
            dir,
            p,
            BoundaryKind::Scope,
        ),
{
    if nested.contains_key(dir) {
        lemma_scopes_in(nested[dir], p);
    }
}

/// The scope that covers an open folder is shown, and with every shown scope those
/// that lie just inside it; so are scopes at any depth.
pub proof fn law_inner_scopes_are_shown(
    d: DiskView,
    open: Map<Seq<u8>, ()>,
    folder: Seq<u8>,
    outer: Seq<u8>,
    inner: Seq<u8>,
)
    ensures
        open.contains_key(folder) && d.covering.contains_key(folder) ==> scopes::shown(
            d,
            open,
        ).contains_key(d.covering[folder]),
        open.contains_key(folder) && !d.covering.contains_key(folder) ==> scopes::shown(
            d,
            open,
        ).contains_key(folder),
        scopes::shown(d, open).contains_key(outer) && lies_in(
            d.nested,
            outer,
            inner,
            BoundaryKind::Scope,
        ) ==> scopes::shown(d, open).contains_key(inner),
{
    let top = scopes::covering_of(d, folder);
    let none = Map::<Seq<u8>, ()>::empty();
    assert(scopes::reached_in(d.nested, none, top, 0, top));
    assert(scopes::reaches(d.nested, top, top));
    if scopes::shown(d, open).contains_key(outer) && lies_in(
        d.nested,
        outer,
        inner,
        BoundaryKind::Scope,
    ) {
        let f = choose|f: Seq<u8>| #[trigger]
            open.contains_key(f) && scopes::reaches(d.nested, scopes::covering_of(d, f), outer);
        let from = scopes::covering_of(d, f);
        let n = choose|n: nat| #[trigger] scopes::reached_in(d.nested, none, from, n, outer);
        lemma_scopes_at(d.nested, outer, inner);
        assert(scopes::scopes_at(d.nested, outer).contains(inner));
        assert(scopes::reached_in(d.nested, none, from, n + 1, inner));
        assert(scopes::reaches(d.nested, from, inner));
    }
}

/// Nothing else is shown: a shown scope covers an open folder, or lies just inside
/// another one that is shown.
pub proof fn law_shown_scopes_have_a_reason(d: DiskView, open: Map<Seq<u8>, ()>, x: Seq<u8>)
    requires
        scopes::shown(d, open).contains_key(x),
    ensures
        (exists|f: Seq<u8>| #[trigger]
            open.contains_key(f) && x == if d.covering.contains_key(f) {
                d.covering[f]
            } else {
                f
            }) || (exists|y: Seq<u8>| #[trigger]
            scopes::shown(d, open).contains_key(y) && lies_in(
                d.nested,
                y,
                x,
                BoundaryKind::Scope,
            )),
{
    let none = Map::<Seq<u8>, ()>::empty();
    let f = choose|f: Seq<u8>| #[trigger]
        open.contains_key(f) && scopes::reaches(d.nested, scopes::covering_of(d, f), x);
    let from = scopes::covering_of(d, f);
    let n = choose|n: nat| #[trigger] scopes::reached_in(d.nested, none, from, n, x);
    lemma_reason(d, open, f, n, x);
}

proof fn lemma_reason(d: DiskView, open: Map<Seq<u8>, ()>, f: Seq<u8>, n: nat, x: Seq<u8>)
    requires
        open.contains_key(f),
        scopes::reached_in(d.nested, Map::empty(), scopes::covering_of(d, f), n, x),
    ensures
        x == scopes::covering_of(d, f) || (exists|y: Seq<u8>| #[trigger]
            scopes::shown(d, open).contains_key(y) && lies_in(
                d.nested,
                y,
                x,
                BoundaryKind::Scope,
            )),
    decreases n,
{
    let none = Map::<Seq<u8>, ()>::empty();
    let from = scopes::covering_of(d, f);
    if n > 0 {
        let m = (n - 1) as nat;
        if scopes::reached_in(d.nested, none, from, m, x) {
            lemma_reason(d, open, f, m, x);
        } else {
            let y = choose|y: Seq<u8>|
                scopes::reached_in(d.nested, none, from, m, y) && #[trigger] scopes::scopes_at(
                    d.nested,
                    y,
                ).contains(x);
            lemma_scopes_at(d.nested, y, x);
            assert(scopes::reaches(d.nested, from, y));
            assert(scopes::shown(d, open).contains_key(y));
        }
    }
}

/// A repository without a marker just inside a shown scope is a boundary, and no
/// other is.
pub proof fn law_repositories_of_shown_scopes_are_boundaries(s: State, d: DiskView, g: Seq<u8>)
    ensures
        folders::with_repositories(s, d).git.contains_key(g) <==> exists|x: Seq<u8>| #[trigger]
            scopes::shown(d, s.folders).contains_key(x) && lies_in(
                d.nested,
                x,
                g,
                BoundaryKind::Git,
            ),
{
    let b = BoundaryView { path: g, kind: BoundaryKind::Git };
    if folders::with_repositories(s, d).git.contains_key(g) {
        let x = choose|x: Seq<u8>| #[trigger]
            scopes::shown(d, s.folders).contains_key(x) && scopes::has_repository(d.nested, x, g);
        let i = choose|i: int| 0 <= i < d.nested[x].len() && d.nested[x][i] == b;
        assert(d.nested[x][i].path == g);
        assert(lies_in(d.nested, x, g, BoundaryKind::Git));
    }
    if exists|x: Seq<u8>| #[trigger]
        scopes::shown(d, s.folders).contains_key(x) && lies_in(d.nested, x, g, BoundaryKind::Git) {
        let x = choose|x: Seq<u8>| #[trigger]
            scopes::shown(d, s.folders).contains_key(x) && lies_in(
                d.nested,
                x,
                g,
                BoundaryKind::Git,
            );
        let i = choose|i: int|
            0 <= i < d.nested[x].len() && (#[trigger] d.nested[x][i]).path == g
                && d.nested[x][i].kind == BoundaryKind::Git;
        assert(d.nested[x][i] == b);
        assert(scopes::has_repository(d.nested, x, g));
    }
}

// Placement.

/// A document belongs to the registered root that it lies in, where every other one
/// that it lies in lies around that root and no repository of its own lies between.
pub proof fn law_documents_belong_to_the_deepest_root(s: State, abs: Seq<u8>, root: Seq<u8>)
    requires
        s.roots.contains_key(root),
        path::under(abs, root),
        forall|r: Seq<u8>| #[trigger]
            s.roots.contains_key(r) && path::under(abs, r) ==> path::under(root, r),
        forall|g: Seq<u8>| #[trigger]
            s.git.contains_key(g) && path::under(abs, g) ==> path::under(root, g),
    ensures
        workspaces::placement(s, abs) == Some(root),
{
    assert forall|r: Seq<u8>| #[trigger]
        s.roots.contains_key(r) && path::under(abs, r) implies r.len() <= root.len() by {
        workspaces::lemma_under_prefix(root, r);
    }
    assert(workspaces::is_deepest(s.roots, abs, root));
    let chosen = choose|r: Seq<u8>| workspaces::is_deepest(s.roots, abs, r);
    workspaces::lemma_one_deepest(s.roots, abs, root, chosen);
}

proof fn lemma_inner(
    keys: Seq<Seq<u8>>,
    git: Map<Seq<u8>, ()>,
    root: Seq<u8>,
    i: int,
)
    requires
        0 <= i < keys.len(),
        keys[i] != root,
        path::under(keys[i], root),
    ensures
        !git.contains_key(keys[i]) ==> workspaces::inner_scopes(keys, git, root).contains(
            BoundaryView { path: keys[i], kind: BoundaryKind::Scope },
        ),
        workspaces::inner_repositories(keys, root).contains(
            BoundaryView { path: keys[i], kind: BoundaryKind::Git },
        ),
    decreases keys.len(),
{
    let rest = keys.drop_last();
    let before = workspaces::inner_scopes(rest, git, root);
    let after = workspaces::inner_scopes(keys, git, root);
    let first = workspaces::inner_repositories(rest, root);
    let all = workspaces::inner_repositories(keys, root);
    let scope = BoundaryView { path: keys[i], kind: BoundaryKind::Scope };
    let repository = BoundaryView { path: keys[i], kind: BoundaryKind::Git };
    if i < rest.len() {
        assert(rest[i] == keys[i]);
        lemma_inner(rest, git, root, i);
        if before.contains(scope) {
            let j = choose|j: int| 0 <= j < before.len() && before[j] == scope;
            assert(after[j] == scope);
        }
        let j = choose|j: int| 0 <= j < first.len() && first[j] == repository;
        assert(all[j] == repository);
    } else {
        if !git.contains_key(keys[i]) {
            assert(after[before.len() as int] == scope);
        }
        assert(all[first.len() as int] == repository);
    }
}

/// In the view of a root, every registered root strictly inside it is a boundary, and
/// so is every repository of its own there; a directory that is both is one of the
/// repositories.
pub proof fn law_every_boundary_is_listed(s: State, root: Seq<u8>, k: Seq<u8>)
    requires
        s.roots.dom().finite(),
        s.git.dom().finite(),
        k != root,
        path::under(k, root),
    ensures
        s.roots.contains_key(k) && !s.git.contains_key(k) ==> workspaces::boundaries_of(
            s,
            root,
        ).contains(BoundaryView { path: k, kind: BoundaryKind::Scope }),
        s.git.contains_key(k) ==> workspaces::boundaries_of(s, root).contains(
            BoundaryView { path: k, kind: BoundaryKind::Git },
        ),
{
    sorted::lemma_keys_listed(KeyOrder::Path, s.roots);
    sorted::lemma_keys_listed(KeyOrder::Path, s.git);
    let roots = sorted::keys_of(KeyOrder::Path, s.roots);
    let gits = sorted::keys_of(KeyOrder::Path, s.git);
    let first = workspaces::inner_scopes(roots, s.git, root);
    let second = workspaces::inner_repositories(gits, root);
    let all = workspaces::boundaries_of(s, root);
    if s.roots.contains_key(k) && !s.git.contains_key(k) {
        assert(roots.contains(k));
        let i = choose|i: int| 0 <= i < roots.len() && roots[i] == k;
        lemma_inner(roots, s.git, root, i);
        let b = BoundaryView { path: k, kind: BoundaryKind::Scope };
        let j = choose|j: int| 0 <= j < first.len() && first[j] == b;
        assert(all[j] == b);
    }
    if s.git.contains_key(k) {
        assert(gits.contains(k));
        let i = choose|i: int| 0 <= i < gits.len() && gits[i] == k;
        lemma_inner(gits, s.git, root, i);
        let b = BoundaryView { path: k, kind: BoundaryKind::Git };
        let j = choose|j: int| 0 <= j < second.len() && second[j] == b;
        assert(all[first.len() + j] == b);
    }
}

// Registration.

proof fn lemma_registered(
    s: State,
    scans: Map<Seq<u8>, ScanView>,
    nested: Map<Seq<u8>, Seq<BoundaryView>>,
    todo: Seq<Seq<u8>>,
)
    requires
        scans.dom().finite(),
    ensures
        ({
            let t = folders::registered(s, scans, nested, todo).0;
            &&& forall|x: Seq<u8>|
                todo.contains(x) && (scans.contains_key(x) || s.roots.contains_key(x))
                    ==> #[trigger] t.roots.contains_key(x)
            &&& forall|y: Seq<u8>, z: Seq<u8>|
                #![trigger t.roots.contains_key(y), t.roots.contains_key(z)]
                t.roots.contains_key(y) && !s.roots.contains_key(y) && scopes::scopes_at(
                    nested,
                    y,
                ).contains(z) && (scans.contains_key(z) || s.roots.contains_key(z))
                    ==> t.roots.contains_key(z)
        }),
    decreases scans.dom().len(), todo.len(),
{
    let t = folders::registered(s, scans, nested, todo).0;
    if todo.len() > 0 {
        let root = todo[0];
        let rest = todo.drop_first();
        scope_promises::law_registration_only_adds(s, scans, nested, todo);
        if s.roots.contains_key(root) || !scans.contains_key(root) {
            lemma_registered(s, scans, nested, rest);
            assert forall|x: Seq<u8>|
                todo.contains(x) && (scans.contains_key(x) || s.roots.contains_key(x)) implies
                #[trigger] t.roots.contains_key(x) by {
                let i = choose|i: int| 0 <= i < todo.len() && todo[i] == x;
                if i > 0 {
                    assert(rest[i - 1] == x);
                }
            }
        } else {
            let s1 = folders::registered_one(s, root, scans[root]);
            let scans1 = scans.remove(root);
            let inner = scopes::scopes_at(nested, root);
            let todo1 = inner + rest;
            lemma_registered(s1, scans1, nested, todo1);
            scope_promises::law_registration_only_adds(s1, scans1, nested, todo1);
            assert(s1.roots.contains_key(root));
            assert forall|x: Seq<u8>|
                todo.contains(x) && (scans.contains_key(x) || s.roots.contains_key(x)) implies
                #[trigger] t.roots.contains_key(x) by {
                let i = choose|i: int| 0 <= i < todo.len() && todo[i] == x;
                if i > 0 {
                    assert(rest[i - 1] == x);
                    assert(todo1[inner.len() + i - 1] == x);
                }
                if s.roots.contains_key(x) {
                    assert(s1.roots.contains_key(x));
                }
            }
            assert forall|y: Seq<u8>, z: Seq<u8>|
                #![trigger t.roots.contains_key(y), t.roots.contains_key(z)]
                t.roots.contains_key(y) && !s.roots.contains_key(y) && scopes::scopes_at(
                    nested,
                    y,
                ).contains(z) && (scans.contains_key(z) || s.roots.contains_key(z)) implies
                t.roots.contains_key(z) by {
                if s.roots.contains_key(z) {
                    assert(s1.roots.contains_key(z));
                }
                if y == root {
                    let j = choose|j: int| 0 <= j < inner.len() && inner[j] == z;
                    assert(todo1[j] == z);
                    assert(todo1.contains(z));
                }
            }
        }
    }
}

/// With a scope that gets registered, so do the scopes just inside it that could be
/// scanned; and with these, those inside them.
pub proof fn law_inner_scopes_are_registered(
    s: State,
    scans: Map<Seq<u8>, ScanView>,
    nested: Map<Seq<u8>, Seq<BoundaryView>>,
    root: Seq<u8>,
    outer: Seq<u8>,
    inner: Seq<u8>,
)
    requires
        scans.dom().finite(),
        !s.roots.contains_key(outer),
        folders::registered(s, scans, nested, seq![root]).0.roots.contains_key(outer),
        lies_in(nested, outer, inner, BoundaryKind::Scope),
        scans.contains_key(inner),
    ensures
        folders::registered(s, scans, nested, seq![root]).0.roots.contains_key(inner),
{
    lemma_registered(s, scans, nested, seq![root]);
    lemma_scopes_at(nested, outer, inner);
    let t = folders::registered(s, scans, nested, seq![root]).0;
    assert(t.roots.contains_key(outer));
    let there = t.roots.contains_key(inner);
}

proof fn lemma_seeded(
    saved: Map<Seq<u8>, DocView>,
    root: Seq<u8>,
    files: Seq<(Seq<u8>, FileView)>,
    n: int,
    i: int,
)
    requires
        0 <= i < n <= files.len(),
    ensures
        ({
            let key = path::child_of(root, files[i].0);
            let all = folders::seeded(saved, root, files, n);
            &&& all.contains_key(key)
            &&& !saved.contains_key(key) && (forall|j: int|
                0 <= j < i ==> path::child_of(root, (#[trigger] files[j]).0) != key) ==> all[key]
                == (DocView { data: files[i].1, root: Some(root) })
        }),
    decreases n,
{
    let key = path::child_of(root, files[i].0);
    if i < n - 1 {
        lemma_seeded(saved, root, files, n - 1, i);
    } else if forall|j: int|
        0 <= j < i ==> path::child_of(root, (#[trigger] files[j]).0) != key {
        lemma_unseeded(saved, root, files, i, key);
    }
}

proof fn lemma_unseeded(
    saved: Map<Seq<u8>, DocView>,
    root: Seq<u8>,
    files: Seq<(Seq<u8>, FileView)>,
    n: int,
    key: Seq<u8>,
)
    requires
        0 <= n <= files.len(),
        forall|j: int| 0 <= j < n ==> path::child_of(root, (#[trigger] files[j]).0) != key,
    ensures
        folders::seeded(saved, root, files, n).contains_key(key) <==> saved.contains_key(key),
    decreases n,
{
    if n > 0 {
        lemma_unseeded(saved, root, files, n - 1, key);
        assert(path::child_of(root, files[n - 1].0) != key);
    }
}

/// A scope that gets registered has the configuration that was found, and every
/// document that was found in it is saved, under that scope where it was not saved
/// before.
pub proof fn law_scanned_documents_are_saved(
    s: State,
    scans: Map<Seq<u8>, ScanView>,
    nested: Map<Seq<u8>, Seq<BoundaryView>>,
    root: Seq<u8>,
    i: int,
)
    requires
        scans.dom().finite(),
        scans.contains_key(root),
        !s.roots.contains_key(root),
        0 <= i < scans[root].files.len(),
    ensures
        ({
            let t = folders::registered(s, scans, nested, seq![root]).0;
            let scan = scans[root];
            let key = path::child_of(root, scan.files[i].0);
            &&& t.roots[root].config == scan.config
            &&& t.roots[root].error == scan.error
            &&& t.roots[root].committed <==> scan.error is None
            &&& t.store.saved.contains_key(key)
            &&& !s.store.saved.contains_key(key) && (forall|j: int|
                0 <= j < i ==> path::child_of(root, (#[trigger] scan.files[j]).0) != key)
                ==> t.store.saved[key].data == scan.files[i].1 && t.store.saved[key].root == Some(
                root,
            )
        }),
{
    let t1 = folders::registered_one(s, root, scans[root]);
    let more = scopes::scopes_at(nested, root) + seq![root].drop_first();
    lemma_seeded(s.store.saved, root, scans[root].files, scans[root].files.len() as int, i);
    scope_promises::law_registration_only_adds(t1, scans.remove(root), nested, more);
    assert(t1.roots.contains_key(root));
    assert(t1.store.saved.contains_key(path::child_of(root, scans[root].files[i].0)));
}

// Folders.

proof fn lemma_refreshed_keeps(s: State, keys: Seq<Seq<u8>>)
    ensures
        ({
            let t = upkeep::all_refreshed(s, keys);
            t.roots == s.roots && t.folders == s.folders && t.open == s.open && t.git == s.git
        }),
    decreases keys.len(),
{
    if keys.len() > 0 {
        lemma_refreshed_keeps(s, keys.drop_last());
    }
}

/// A folder that is opened is open, and the scope that covers it is registered if it
/// could be scanned; folders and scopes that were there stay.
pub proof fn law_opened_folders_are_covered(s: State, d: DiskView, folder: Seq<u8>, other: Seq<u8>)
    requires
        d.scans.dom().finite(),
    ensures
        ({
            let t = folders::folder_added(s, d, folder).0;
            let top = if d.covering.contains_key(folder) {
                d.covering[folder]
            } else {
                folder
            };
            &&& t.folders == s.folders.insert(folder, ())
            &&& d.scans.contains_key(top) ==> t.roots.contains_key(top)
            &&& s.roots.contains_key(other) ==> t.roots.contains_key(other) && t.roots[other]
                == s.roots[other]
            &&& t.git == scopes::repositories(d, s.folders.insert(folder, ()))
        }),
{
    let top = scopes::covering_of(d, folder);
    let s0 = State { folders: s.folders.insert(folder, ()), ..s };
    let a = folders::registered(s0, d.scans, d.nested, seq![top]).0;
    scope_promises::law_registration_only_adds(s0, d.scans, d.nested, seq![top]);
    if d.scans.contains_key(top) {
        scope_promises::law_what_is_scanned_gets_registered(s0, d.scans, d.nested, top);
    }
    assert(s.roots.contains_key(other) ==> s0.roots.contains_key(other));
    let b = folders::with_repositories(a, d);
    lemma_refreshed_keeps(b, folders::keys_in(b, top));
}

proof fn lemma_dropped(s: State, keys: Seq<Seq<u8>>, k: Seq<u8>)
    requires
        workspaces::placement(s, k) is None,
        !s.open.contains_key(k),
    ensures
        ({
            let t = folders::all_rerooted(s, keys);
            &&& t.roots == s.roots
            &&& t.git == s.git
            &&& t.open == s.open
            &&& keys.contains(k) ==> !t.store.saved.contains_key(k)
            &&& t.store.saved.contains_key(k) ==> s.store.saved.contains_key(k)
        }),
    decreases keys.len(),
{
    if keys.len() > 0 {
        let rest = keys.drop_last();
        lemma_dropped(s, rest, k);
        if keys.contains(k) && keys.last() != k {
            let i = choose|i: int| 0 <= i < keys.len() && keys[i] == k;
            assert(rest[i] == k);
            assert(rest.contains(k));
        }
    }
}

/// With the last folder that shows a scope go the documents of the scope that no other
/// scope covers, but for those that the client has open.
pub proof fn law_documents_leave_with_their_scope(
    s: State,
    d: DiskView,
    folder: Seq<u8>,
    k: Seq<u8>,
    root: Seq<u8>,
)
    requires
        s.store.saved.dom().finite(),
        s.store.overlay.dom().finite(),
        s.folders.contains_key(folder),
        s.roots.contains_key(root),
        !scopes::shown(d, s.folders.remove(folder)).contains_key(root),
        s.store.current().contains_key(k),
        s.store.current()[k].root == Some(root),
        !s.open.contains_key(k),
        forall|r: Seq<u8>| #[trigger]
            s.roots.contains_key(r) && path::under(k, r) ==> !scopes::shown(
                d,
                s.folders.remove(folder),
            ).contains_key(r),
    ensures
        !folders::folder_removed(s, d, folder).store.saved.contains_key(k),
{
    let a = State { folders: s.folders.remove(folder), ..s };
    let stale = folders::stale_roots(a, d);
    let b = folders::with_repositories(
        State {
            roots: Map::new(
                |r: Seq<u8>| a.roots.contains_key(r) && !stale.contains_key(r),
                |r: Seq<u8>| a.roots[r],
            ),
            ..a
        },
        d,
    );
    let owned = folders::owned_by(b, stale);
    let keys = sorted::keys_of(KeyOrder::Path, owned);
    assert(b.store == s.store);
    assert(owned.dom().subset_of(s.store.current().dom()));
    assert(s.store.current().dom().subset_of(s.store.saved.dom().union(s.store.overlay.dom())));
    vstd::set_lib::lemma_len_subset(
        s.store.current().dom(),
        s.store.saved.dom().union(s.store.overlay.dom()),
    );
    vstd::set_lib::lemma_len_subset(owned.dom(), s.store.current().dom());
    sorted::lemma_keys_listed(KeyOrder::Path, owned);
    assert(owned.contains_key(k));
    assert(keys.contains(k));
    assert(workspaces::placement(b, k) is None) by {
        if exists|r: Seq<u8>| workspaces::is_deepest(b.roots, k, r) {
            let r = choose|r: Seq<u8>| workspaces::is_deepest(b.roots, k, r);
            assert(s.roots.contains_key(r) && path::under(k, r));
        }
    }
    lemma_dropped(b, keys, k);
}

// Markers.

/// When the marker of a scope that is no open folder goes, the scope goes, and no
/// other one does.
pub proof fn law_scopes_go_with_their_marker(
    s: State,
    d: DiskView,
    marker: Seq<u8>,
    dir: Seq<u8>,
    root: Seq<u8>,
    reload: ReloadView,
    other: Seq<u8>,
)
    requires
        markers::parent_of(marker) == Some(dir),
        markers::registered_at(s, dir) == Some(root),
        s.roots.contains_key(root),
        !s.folders.contains_key(root),
    ensures
        ({
            let (t, scans, done) = markers::marker_handled(s, d, marker, false, reload);
            &&& done
            &&& !t.roots.contains_key(root)
            &&& other != root ==> (t.roots.contains_key(other) <==> s.roots.contains_key(other))
            &&& t.folders == s.folders
        }),
{
    let b = folders::with_repositories(State { roots: s.roots.remove(root), ..s }, d);
    lemma_rerooted_roots(b, folders::keys_in(b, root));
}

proof fn lemma_rerooted_roots(s: State, keys: Seq<Seq<u8>>)
    ensures
        folders::all_rerooted(s, keys).roots == s.roots,
        folders::all_rerooted(s, keys).folders == s.folders,
    decreases keys.len(),
{
    if keys.len() > 0 {
        lemma_rerooted_roots(s, keys.drop_last());
    }
}

/// When a marker appears in a directory inside a scope, the directory becomes a scope
/// if it could be scanned.
pub proof fn law_scopes_come_with_their_marker(
    s: State,
    d: DiskView,
    marker: Seq<u8>,
    dir: Seq<u8>,
    reload: ReloadView,
)
    requires
        d.scans.dom().finite(),
        d.scans.contains_key(dir),
        markers::parent_of(marker) == Some(dir),
        markers::registered_at(s, dir) is None,
        workspaces::placement(s, dir) is Some,
    ensures
        ({
            let (t, scans, done) = markers::marker_handled(s, d, marker, true, reload);
            &&& done
            &&& t.roots.contains_key(dir)
            &&& t.folders == s.folders
        }),
{
    let a = folders::registered(s, d.scans, d.nested, seq![dir]).0;
    scope_promises::law_what_is_scanned_gets_registered(s, d.scans, d.nested, dir);
    scope_promises::law_registration_only_adds(s, d.scans, d.nested, seq![dir]);
    let from = match workspaces::placement(s, dir) {
        Some(host) => host,
        None => dir,
    };
    let b = folders::with_repositories(a, d);
    lemma_refreshed_keeps(b, folders::keys_in(b, from));
}

// Names of documents.

proof fn lemma_last_slash(b: Seq<u8>, i: int, at: int)
    requires
        0 <= at < i <= b.len(),
        b[at] == 47,
        forall|k: int| at < k < i ==> #[trigger] b[k] != 47,
    ensures
        path::last_sep(b, i) == at,
    decreases i - at,
{
    if at < i - 1 {
        assert(b[i - 1] != 47);
        lemma_last_slash(b, i - 1, at);
    }
}

/// A document of a root is known by its path in the root; one outside every root by
/// its name, and its directory is what stands in front.
pub proof fn law_documents_are_known_by_their_place(
    root: Seq<u8>,
    rel: Seq<u8>,
    dir: Seq<u8>,
    name: Seq<u8>,
)
    requires
        path_laws::is_name(name),
        !vstd::utf8::is_continuation_byte(name[0]),
        dir.len() > 0,
    ensures
        workspaces::rel_of(path::absolute(root, rel), Some(root)) == rel,
        workspaces::rel_of(dir + seq![47u8] + name, None) == name,
        workspaces::directory_of(dir + seq![47u8] + name) == dir,
{
    path::lemma_absolute(root, rel);
    path::lemma_dots();
    let b = dir + seq![47u8] + name;
    let at = dir.len() as int;
    assert(b[at] == 47);
    assert forall|k: int| at < k < b.len() implies #[trigger] b[k] != 47 by {
        assert(b[k] == name[k - at - 1]);
    }
    lemma_last_slash(b, b.len() as int, at);
    assert(b[at + 1] == name[0]);
    assert(b.subrange(at + 1, b.len() as int) =~= name);
    assert(b.subrange(0, at) =~= dir);
    let x = b[at];
    assert(!vstd::utf8::is_continuation_byte(x));
    path_laws::law_plain_paths_stay(seq![name]);
    path_laws::law_parts_are_joined_by_slashes(seq![name], name);
}

} // verus!

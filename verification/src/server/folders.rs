//! Folders that come and go, and markers that split, merge and change scopes.
use vstd::prelude::*;
use crate::overrides;
use crate::overrides::OverrideVerdicts;
use crate::path;
use crate::pathmap;
use crate::pathmap::PathMap;
use crate::server::scopes;
use crate::server::scopes::{Disk, DiskView, Scan, ScanView};
use crate::server::upkeep;
use crate::server::workspaces;
use crate::server::workspaces::{MetaView, RootMeta, State, Workspaces};
use crate::sorted;
use crate::sorted::KeyOrder;
use crate::store;
use crate::store::{DocView, Document, StoreView};
use crate::text;
use crate::uri;
use crate::workspace::{BoundaryView, FileData, FileView};

verus! {

// Registration.

/// The saved tier after the first `n` documents of a scan were added to it,
/// those that it holds already left as they are.
pub open spec fn seeded(
    saved: Map<Seq<u8>, DocView>,
    root: Seq<u8>,
    files: Seq<(Seq<u8>, FileView)>,
    n: int,
) -> Map<Seq<u8>, DocView>
    decreases n,
{
    if n <= 0 {
        saved
    } else {
        let before = seeded(saved, root, files, n - 1);
        let key = path::child_of(root, files[n - 1].0);
        if before.contains_key(key) {
            before
        } else {
            before.insert(key, DocView { data: files[n - 1].1, root: Some(root) })
        }
    }
}

/// What is known of a root that was just scanned.
pub open spec fn fresh_meta(scan: ScanView) -> MetaView {
    MetaView {
        canonical: scan.canonical,
        config: scan.config,
        error: scan.error,
        committed: scan.error is None,
        has_config: scan.has_config,
        verdicts: overrides::no_verdicts(),
    }
}

/// The state after one scope was registered.
pub open spec fn registered_one(s: State, root: Seq<u8>, scan: ScanView) -> State {
    State {
        roots: s.roots.insert(root, fresh_meta(scan)),
        store: StoreView {
            saved: seeded(s.store.saved, root, scan.files, scan.files.len() as int),
            ..s.store
        },
        ..s
    }
}

/// The state after some scopes and what lies inside them were registered, each
/// scope in front of those inside it; with the scans that were not needed. What
/// is registered already, or could not be scanned, is passed over.
pub open spec fn registered(
    s: State,
    scans: Map<Seq<u8>, ScanView>,
    nested: Map<Seq<u8>, Seq<BoundaryView>>,
    todo: Seq<Seq<u8>>,
) -> (State, Map<Seq<u8>, ScanView>)
    decreases scans.dom().len(), todo.len(),
    when scans.dom().finite()
{
    if todo.len() == 0 {
        (s, scans)
    } else {
        let root = todo[0];
        let rest = todo.drop_first();
        if s.roots.contains_key(root) || !scans.contains_key(root) {
            registered(s, scans, nested, rest)
        } else {
            registered(
                registered_one(s, root, scans[root]),
                scans.remove(root),
                nested,
                scopes::scopes_at(nested, root) + rest,
            )
        }
    }
}

fn seed_files(workspaces: &mut Workspaces, root: &str, files: Vec<(String, FileData)>)
    requires
        old(workspaces).wf(),
        forall|i: int| 0 <= i < files@.len() ==> (#[trigger] files@[i]).1@.wf(),
    ensures
        final(workspaces).wf(),
        final(workspaces)@ == (State {
            store: StoreView {
                saved: seeded(
                    old(workspaces)@.store.saved,
                    path::named(root@),
                    scopes::scanned(files@),
                    files@.len() as int,
                ),
                ..old(workspaces)@.store
            },
            ..old(workspaces)@
        }),
{
    let ghost s0 = workspaces@;
    let ghost all = scopes::scanned(files@);
    let ghost list = files@;
    let ghost rt = path::named(root@);
    let ghost mut done: int = 0;
    let mut rest = files;
    assert(list.skip(0) =~= list);
    while rest.len() > 0
        invariant
            0 <= done <= list.len(),
            all == scopes::scanned(list),
            rt == path::named(root@),
            rest@ == list.skip(done),
            forall|i: int| 0 <= i < list.len() ==> (#[trigger] list[i]).1@.wf(),
            workspaces.wf(),
            workspaces@ == (State {
                store: StoreView {
                    saved: seeded(s0.store.saved, rt, all, done),
                    ..s0.store
                },
                ..s0
            }),
        decreases rest@.len(),
    {
        proof {
            assert(rest@[0] == list[done]);
            assert(all[done] == (path::named(list[done].0@), list[done].1@));
            assert(list.skip(done).remove(0) =~= list.skip(done + 1));
        }
        let (rel, data) = rest.remove(0);
        let name = path::normal(rel.as_str());
        let key = path::child(root, name.as_str());
        workspaces.store.seed_scan(
            key.as_str(),
            Document { data, primary_root: Some(text::owned(root)) },
        );
        proof {
            done = done + 1;
        }
    }
}

pub(crate) fn insert_meta(map: &mut PathMap<RootMeta>, root: &str, meta: RootMeta)
    ensures
        final(map).order() == old(map).order(),
        workspaces::metas(final(map)@) == workspaces::metas(old(map)@).insert(
            path::named(root@),
            meta@,
        ),
{
    let ghost before = workspaces::metas(map@);
    map.insert(text::owned(root), meta);
    assert(workspaces::metas(map@) =~= before.insert(path::named(root@), meta@));
}

pub(crate) fn remove_meta(map: &mut PathMap<RootMeta>, root: &str) -> (r: Option<RootMeta>)
    ensures
        final(map).order() == old(map).order(),
        workspaces::metas(final(map)@) == workspaces::metas(old(map)@).remove(path::named(root@)),
        match r {
            Some(meta) => workspaces::metas(old(map)@).contains_key(path::named(root@)) && meta@
                == workspaces::metas(old(map)@)[path::named(root@)],
            None => !workspaces::metas(old(map)@).contains_key(path::named(root@)),
        },
{
    let ghost before = workspaces::metas(map@);
    let r = map.remove(root);
    assert(workspaces::metas(map@) =~= before.remove(path::named(root@)));
    r
}

impl Workspaces {
    fn register_one(&mut self, scope_root: &str, scan: Scan)
        requires
            old(self).wf(),
            forall|i: int| 0 <= i < scan.files@.len() ==> (#[trigger] scan.files@[i]).1@.wf(),
        ensures
            final(self).wf(),
            final(self)@ == registered_one(old(self)@, path::named(scope_root@), scan@),
    {
        let Scan { canonical_root, config, config_error, has_config, files } = scan;
        let meta = RootMeta {
            canonical_root,
            config,
            config_committed: config_error.is_none(),
            config_error,
            has_config,
            verdicts: OverrideVerdicts::default(),
        };
        insert_meta(&mut self.roots, scope_root, meta);
        seed_files(self, scope_root, files);
    }

    /// Register a scope and every scope inside it. A scope that is registered
    /// already stays as it is, and so do documents that are saved already. A
    /// scope whose configuration is broken is registered too, without a
    /// commitment to it.
    pub fn register_scope(&mut self, scope_root: &str, disk: &mut Disk)
        requires
            old(self).wf(),
            scopes::scans_wf(old(disk)@.scans),
        ensures
            final(self).wf(),
            scopes::scans_wf(final(disk)@.scans),
            final(disk)@.covering == old(disk)@.covering,
            final(disk)@.nested == old(disk)@.nested,
            final(disk)@.external == old(disk)@.external,
            (final(self)@, final(disk)@.scans) == registered(
                old(self)@,
                old(disk)@.scans,
                old(disk)@.nested,
                seq![path::named(scope_root@)],
            ),
            old(disk)@.scans.dom().finite(),
    {
        let ghost s0 = self@;
        let ghost d0 = disk@;
        let ghost goal = registered(s0, d0.scans, d0.nested, seq![path::named(scope_root@)]);
        let mut todo: Vec<String> = Vec::new();
        todo.push(text::owned(scope_root));
        proof {
            pathmap::lemma_paths_finite(disk.scans);
            assert(disk@.scans.dom() =~= disk.scans@.dom());
            assert(path::all_named(todo@) =~= seq![path::named(scope_root@)]);
        }
        while todo.len() > 0
            invariant
                self.wf(),
                scopes::scans_wf(disk@.scans),
                disk@.scans.dom().finite(),
                disk@.covering == d0.covering,
                disk@.nested == d0.nested,
                disk@.external == d0.external,
                registered(self@, disk@.scans, d0.nested, path::all_named(todo@)) == goal,
            decreases disk@.scans.dom().len(), todo@.len(),
        {
            let ghost list = path::all_named(todo@);
            let ghost scans = disk@.scans;
            let root = todo.remove(0);
            let ghost rt = path::named(root@);
            proof {
                assert(list[0] == rt);
                assert(path::all_named(todo@) =~= list.drop_first());
            }
            if self.roots.contains_key(root.as_str()) {
                continue ;
            }
            let found = disk.scans.remove(root.as_str());
            proof {
                assert(disk@.scans =~= scans.remove(rt));
                if !scans.contains_key(rt) {
                    assert(scans.remove(rt) =~= scans);
                }
            }
            let Some(scan) = found else {
                continue ;
            };
            proof {
                assert(scan@ == scans[rt]);
                assert forall|i: int| 0 <= i < scan.files@.len() implies (
                #[trigger] scan.files@[i]).1@.wf() by {
                    assert(scans[rt].files[i].1.wf());
                }
                assert forall|k: Seq<u8>, i: int|
                    scans.remove(rt).contains_key(k) && 0 <= i < scans.remove(
                        rt,
                    )[k].files.len() implies (#[trigger] scans.remove(rt)[k].files[i]).1.wf() by {
                    assert(scans[k].files[i].1.wf());
                }
            }
            let ghost before = todo@;
            self.register_one(root.as_str(), scan);
            let mut next = disk.inner_scopes(root.as_str());
            let ghost inner = path::all_named(next@);
            next.append(&mut todo);
            proof {
                assert(path::all_named(next@) =~= inner + path::all_named(before));
            }
            todo = next;
        }
        assert(path::all_named(todo@) =~= Seq::<Seq<u8>>::empty());
    }
}

// Folders.

/// The keys of the current documents at or under a directory.
pub open spec fn keys_in(s: State, dir: Seq<u8>) -> Seq<Seq<u8>> {
    sorted::keys_of(KeyOrder::Path, store::docs_under(s.store.current(), dir))
}

/// The state with the repositories found again.
pub open spec fn with_repositories(s: State, d: DiskView) -> State {
    State { git: scopes::repositories(d, s.folders), ..s }
}

/// The state after a folder was opened: the scope that covers it and the scopes
/// inside are registered, and every document there is put where it belongs.
pub open spec fn folder_added(s: State, d: DiskView, folder: Seq<u8>) -> (
    State,
    Map<Seq<u8>, ScanView>,
) {
    let covering = scopes::covering_of(d, folder);
    let (a, scans) = registered(
        State { folders: s.folders.insert(folder, ()), ..s },
        d.scans,
        d.nested,
        seq![covering],
    );
    let b = with_repositories(a, d);
    (upkeep::swept(upkeep::all_refreshed(b, keys_in(b, covering)), d.external), scans)
}

/// The state after a document that lost its scope was dealt with: put under
/// another one, or dropped where there is none and nobody has it open.
pub open spec fn rerooted(s: State, key: Seq<u8>) -> State {
    if workspaces::placement(s, key) is None && !s.open.contains_key(key) {
        State { store: StoreView { saved: s.store.saved.remove(key), ..s.store }, ..s }
    } else {
        upkeep::refreshed(s, key)
    }
}

/// The state after some documents that lost their scope were dealt with.
pub open spec fn all_rerooted(s: State, keys: Seq<Seq<u8>>) -> State
    decreases keys.len(),
{
    if keys.len() == 0 {
        s
    } else {
        rerooted(all_rerooted(s, keys.drop_last()), keys.last())
    }
}

/// The current documents whose root is in a set.
pub open spec fn owned_by(s: State, roots: Map<Seq<u8>, ()>) -> Map<Seq<u8>, DocView> {
    Map::new(
        |k: Seq<u8>|
            s.store.current().contains_key(k) && (s.store.current()[k].root matches Some(r)
                && roots.contains_key(r)),
        |k: Seq<u8>| s.store.current()[k],
    )
}

/// The roots that no open folder shows any more.
pub open spec fn stale_roots(s: State, d: DiskView) -> Map<Seq<u8>, ()> {
    Map::new(
        |r: Seq<u8>|
            s.roots.contains_key(r) && !scopes::shown(d, s.folders).contains_key(r),
        |r: Seq<u8>| (),
    )
}

/// The state after a folder was closed: scopes that no other folder shows go,
/// and their documents move to another scope or are dropped.
pub open spec fn folder_removed(s: State, d: DiskView, folder: Seq<u8>) -> State {
    if !s.folders.contains_key(folder) {
        s
    } else {
        let a = State { folders: s.folders.remove(folder), ..s };
        let stale = stale_roots(a, d);
        let b = with_repositories(
            State {
                roots: Map::new(
                    |r: Seq<u8>| a.roots.contains_key(r) && !stale.contains_key(r),
                    |r: Seq<u8>| a.roots[r],
                ),
                ..a
            },
            d,
        );
        let keys = sorted::keys_of(KeyOrder::Path, owned_by(b, stale));
        upkeep::swept(all_rerooted(b, keys), d.external)
    }
}

impl Workspaces {
    /// Open a folder.
    pub fn add_folder(&mut self, uri: &str, disk: &mut Disk)
        requires
            old(self).wf(),
            scopes::scans_wf(old(disk)@.scans),
        ensures
            final(self).wf(),
            scopes::scans_wf(final(disk)@.scans),
            final(disk)@.covering == old(disk)@.covering,
            final(disk)@.nested == old(disk)@.nested,
            final(disk)@.external == old(disk)@.external,
            (final(self)@, final(disk)@.scans) == folder_added(
                old(self)@,
                old(disk)@,
                uri::path_of(text::utf8(uri@)),
            ),
    {
        let folder = uri::uri_to_path(uri);
        let covering = disk.covering_scope(folder.as_str());
        self.client_folders.insert(folder, ());
        self.register_scope(covering.as_str(), disk);
        let ghost d1 = disk@;
        self.rebuild_git_boundaries(disk);
        proof {
            lemma_repositories_need_no_scans(d1, old(disk)@, self@.folders);
        }
        let keys = self.document_keys_under(covering.as_str());
        self.refresh_all(&keys);
        self.recompute_all_structural(&disk.external);
    }

    /// Deal with a document that lost its scope.
    pub fn reroot_or_evict(&mut self, key: &str)
        requires
            old(self).wf(),
        ensures
            final(self).wf(),
            final(self)@ == rerooted(old(self)@, path::named(key@)),
    {
        let uncovered = self.deepest_root_for(key).is_none();
        if uncovered && !self.open_documents.contains_key(key) {
            self.store.evict_saved(key);
        } else {
            self.refresh_placement(key);
        }
    }

    pub(crate) fn reroot_all(&mut self, keys: &Vec<String>)
        requires
            old(self).wf(),
        ensures
            final(self).wf(),
            final(self)@ == all_rerooted(old(self)@, path::all_named(keys@)),
    {
        let ghost s0 = self@;
        let ghost all = path::all_named(keys@);
        let mut i: usize = 0;
        assert(all.take(0) =~= Seq::<Seq<u8>>::empty());
        while i < keys.len()
            invariant
                i <= keys@.len(),
                all == path::all_named(keys@),
                self.wf(),
                self@ == all_rerooted(s0, all.take(i as int)),
            decreases keys@.len() - i,
        {
            self.reroot_or_evict(keys[i].as_str());
            proof {
                assert(all.take(i + 1).drop_last() =~= all.take(i as int));
                assert(all.take(i + 1).last() == path::named(keys@[i as int]@));
            }
            i += 1;
        }
        assert(all.take(i as int) =~= all);
    }

    /// The roots that no open folder shows any more.
    fn find_stale(&self, disk: &Disk) -> (r: PathMap<()>)
        ensures
            r@ == stale_roots(self@, disk@),
    {
        let active = self.active_scope_roots(disk);
        let mut stale: PathMap<()> = PathMap::new();
        let n = self.roots.len();
        let ghost keys = self.roots.keys();
        let mut i: usize = 0;
        self.roots.keys_ascend();
        assert(keys.take(0) =~= Seq::<Seq<u8>>::empty());
        while i < n
            invariant
                i <= n,
                n == keys.len(),
                keys == self.roots.keys(),
                forall|k: Seq<u8>| #[trigger]
                    stale@.contains_key(k) <==> (keys.take(i as int).contains(k)
                        && !active@.contains_key(k)),
            decreases n - i,
        {
            let key = self.roots.key_at(i);
            proof {
                assert forall|k: Seq<u8>| #[trigger] keys.take(i + 1).contains(k) <==> (keys.take(
                    i as int,
                ).contains(k) || k == keys[i as int]) by {
                    store::lemma_take_contains(keys, i as int, k);
                }
            }
            if !active.contains_key(key) {
                stale.insert(text::owned(key), ());
            }
            i += 1;
        }
        assert(keys.take(i as int) =~= keys);
        assert(stale@ =~= stale_roots(self@, disk@));
        stale
    }

    /// Forget some roots.
    fn forget_roots(&mut self, stale: &PathMap<()>)
        requires
            old(self).wf(),
        ensures
            final(self).wf(),
            final(self)@ == (State {
                roots: Map::new(
                    |r: Seq<u8>| old(self)@.roots.contains_key(r) && !stale@.contains_key(r),
                    |r: Seq<u8>| old(self)@.roots[r],
                ),
                ..old(self)@
            }),
    {
        let ghost s0 = self@;
        let n = stale.len();
        let ghost keys = stale.keys();
        let mut i: usize = 0;
        stale.keys_ascend();
        assert(keys.take(0) =~= Seq::<Seq<u8>>::empty());
        while i < n
            invariant
                i <= n,
                n == keys.len(),
                keys == stale.keys(),
                self.wf(),
                self@ == (State { roots: self@.roots, ..s0 }),
                forall|r: Seq<u8>| #[trigger]
                    self@.roots.contains_key(r) <==> (s0.roots.contains_key(r) && !keys.take(
                        i as int,
                    ).contains(r)),
                forall|r: Seq<u8>| #[trigger]
                    self@.roots.contains_key(r) ==> self@.roots[r] == s0.roots[r],
            decreases n - i,
        {
            proof {
                assert forall|k: Seq<u8>| #[trigger] keys.take(i + 1).contains(k) <==> (keys.take(
                    i as int,
                ).contains(k) || k == keys[i as int]) by {
                    store::lemma_take_contains(keys, i as int, k);
                }
            }
            remove_meta(&mut self.roots, stale.key_at(i));
            i += 1;
        }
        proof {
            assert(keys.take(i as int) =~= keys);
            assert(self@.roots =~= Map::new(
                |r: Seq<u8>| s0.roots.contains_key(r) && !stale@.contains_key(r),
                |r: Seq<u8>| s0.roots[r],
            ));
        }
    }

    /// The keys of the current documents whose root is in a set.
    pub(crate) fn keys_owned_by(&self, roots: &PathMap<()>) -> (r: Vec<String>)
        ensures
            path::all_named(r@) == sorted::keys_of(KeyOrder::Path, owned_by(self@, roots@)),
    {
        let keys = self.store.all_keys();
        let ghost all = path::all_named(keys@);
        let ghost goal = owned_by(self@, roots@);
        let mut r: Vec<String> = Vec::new();
        let mut i: usize = 0;
        proof {
            assert(all.take(0) =~= Seq::<Seq<u8>>::empty());
            assert(path::all_named(r@) =~= Seq::<Seq<u8>>::empty());
        }
        while i < keys.len()
            invariant
                i <= keys@.len(),
                all == path::all_named(keys@),
                sorted::ascending(KeyOrder::Path, all),
                goal == owned_by(self@, roots@),
                sorted::ascending(KeyOrder::Path, path::all_named(r@)),
                forall|k: Seq<u8>| #[trigger]
                    path::all_named(r@).contains(k) <==> (all.take(i as int).contains(k)
                        && goal.contains_key(k)),
            decreases keys@.len() - i,
        {
            let key = keys[i].as_str();
            let ghost k = all[i as int];
            let ghost r0 = path::all_named(r@);
            assert(path::named(key@) == k);
            let owned = match self.store.current(key) {
                Some(doc) => match &doc.primary_root {
                    Some(root) => roots.contains_key(root.as_str()),
                    None => false,
                },
                None => false,
            };
            if owned {
                r.push(text::owned(key));
            }
            proof {
                let r1 = path::all_named(r@);
                assert(owned == goal.contains_key(k));
                assert(r1 =~= if owned {
                    r0.push(k)
                } else {
                    r0
                });
                assert forall|x: Seq<u8>| #[trigger] r1.contains(x) <==> (all.take(i + 1).contains(x)
                    && goal.contains_key(x)) by {
                    store::lemma_take_contains(all, i as int, x);
                    assert(r0.contains(x) <==> (all.take(i as int).contains(x)
                        && goal.contains_key(x)));
                    if r0.contains(x) {
                        assert(r1[r0.index_of(x)] == x);
                    }
                    if owned && x == k {
                        assert(r1[r0.len() as int] == x);
                    }
                    if r1.contains(x) {
                        let n = r1.index_of(x);
                        if n < r0.len() {
                            assert(r0[n] == x);
                        }
                    }
                }
                assert forall|a: int, b: int| 0 <= a < b < r1.len() implies sorted::before(
                    KeyOrder::Path,
                    #[trigger] r1[a],
                    #[trigger] r1[b],
                ) by {
                    assert(r1[a] == r0[a]);
                    if b >= r0.len() {
                        assert(r0.contains(r0[a]));
                        let n = all.take(i as int).index_of(r0[a]);
                        assert(sorted::before(KeyOrder::Path, all[n], all[i as int]));
                    } else {
                        assert(r1[b] == r0[b]);
                    }
                }
            }
            i += 1;
        }
        proof {
            let r1 = path::all_named(r@);
            assert(all.take(i as int) =~= all);
            assert forall|k: Seq<u8>| #[trigger] r1.contains(k) <==> goal.contains_key(k) by {
                if goal.contains_key(k) {
                    assert(self@.store.current().contains_key(k));
                    assert(all.contains(k));
                }
            }
            sorted::lemma_keys_of(KeyOrder::Path, r1, goal);
        }
        r
    }

    /// Close a folder.
    pub fn remove_folder(&mut self, uri: &str, disk: &Disk)
        requires
            old(self).wf(),
        ensures
            final(self).wf(),
            final(self)@ == folder_removed(
                old(self)@,
                disk@,
                uri::path_of(text::utf8(uri@)),
            ),
    {
        let folder = uri::uri_to_path(uri);
        if self.client_folders.remove(folder.as_str()).is_none() {
            return ;
        }
        let stale = self.find_stale(disk);
        self.forget_roots(&stale);
        self.rebuild_git_boundaries(disk);
        let affected = self.keys_owned_by(&stale);
        self.reroot_all(&affected);
        self.recompute_all_structural(&disk.external);
    }
}

/// What repositories there are does not depend on the scans.
pub proof fn lemma_repositories_need_no_scans(a: DiskView, b: DiskView, folders: Map<Seq<u8>, ()>)
    requires
        a.covering == b.covering,
        a.nested == b.nested,
    ensures
        scopes::repositories(a, folders) == scopes::repositories(b, folders),
{
    assert(scopes::shown(a, folders) =~= scopes::shown(b, folders)) by {
        assert forall|f: Seq<u8>| scopes::covering_of(a, f) == scopes::covering_of(b, f) by {}
    }
    assert(scopes::repositories(a, folders) =~= scopes::repositories(b, folders));
}

} // verus!

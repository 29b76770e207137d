//! Markers that appear, change and go while documents are open, renames of
//! documents, and the state that a client starts with.
use vstd::prelude::*;
use crate::components;
use crate::config::Config;
use crate::path;
use crate::pathmap::PathMap;
use crate::server::folders;
use crate::server::scopes;
use crate::server::scopes::{Disk, DiskView, ScanView};
use crate::server::upkeep;
use crate::server::workspaces;
use crate::server::workspaces::{ConfigError, MetaView, RootMeta, State, Workspaces};
use crate::sorted;
use crate::sorted::KeyOrder;
use crate::store;
use crate::structural::ExternalExistence;
use crate::text;
use crate::uri;

verus! {

/// What was found when a configuration was loaded again.
pub struct Reload {
    /// Whether there is a configuration file.
    pub has_config: bool,
    pub loaded: Result<Config, ConfigError>,
}

/// A configuration that was loaded again, as text.
#[verifier::ext_equal]
pub struct ReloadView {
    pub has_config: bool,
    pub loaded: Result<Config, Seq<u8>>,
}

impl View for Reload {
    type V = ReloadView;

    open spec fn view(&self) -> ReloadView {
        ReloadView {
            has_config: self.has_config,
            loaded: match self.loaded {
                Ok(config) => Ok(config),
                Err(error) => Err(error@),
            },
        }
    }
}

/// The first of some directories that is the root of a scope in `dir`, by its
/// own name or with symbolic links resolved.
pub open spec fn root_at(
    keys: Seq<Seq<u8>>,
    roots: Map<Seq<u8>, MetaView>,
    dir: Seq<u8>,
) -> Option<Seq<u8>>
    decreases keys.len(),
{
    if keys.len() == 0 {
        None
    } else if keys[0] == dir || roots[keys[0]].canonical == dir {
        Some(keys[0])
    } else {
        root_at(keys.drop_first(), roots, dir)
    }
}

/// The scope root registered at a directory.
pub open spec fn registered_at(s: State, dir: Seq<u8>) -> Option<Seq<u8>> {
    root_at(sorted::keys_of(KeyOrder::Path, s.roots), s.roots, dir)
}

/// The directory of a path; none for a root.
pub open spec fn parent_of(abs: Seq<u8>) -> Option<Seq<u8>> {
    let n = path::last_sep(abs, abs.len() as int);
    if abs.len() == 0 || (n == 0 && abs.len() == 1) {
        None
    } else if n < 0 {
        Some(Seq::empty())
    } else if n == 0 {
        Some(path::normal_form(text::piece(abs, 0, 1)))
    } else {
        Some(path::normal_form(text::piece(abs, 0, n)))
    }
}

/// The directory of a path.
pub(crate) fn parent_directory(abs: &str) -> (r: Option<String>)
    ensures
        store::maybe(r) == parent_of(path::named(abs@)),
{
    let whole = path::normal(abs);
    let b = whole.as_str().as_bytes();
    let mut n: usize = b.len();
    while n > 0 && b[n - 1] != sorted::SEP
        invariant
            n <= b@.len(),
            path::last_sep(b@, b@.len() as int) == path::last_sep(b@, n as int),
        decreases n,
    {
        n -= 1;
    }
    if b.len() == 0 || (n == 1 && b.len() == 1) {
        return None;
    }
    if n == 0 {
        let r = String::new();
        assert(text::utf8(r@) =~= Seq::<u8>::empty());
        proof {
            components::lemma_written(Seq::empty(), false);
        }
        return Some(r);
    }
    if n == 1 {
        return Some(path::normal(text::slice(whole.as_str(), 0, 1)));
    }
    Some(path::normal(text::slice(whole.as_str(), 0, n - 1)))
}

/// The state after a marker appeared inside a scope: its directory is registered,
/// and the documents of the scope around it are put where they belong.
pub open spec fn scope_split(s: State, d: DiskView, dir: Seq<u8>) -> (
    State,
    Map<Seq<u8>, ScanView>,
) {
    let from = match workspaces::placement(s, dir) {
        Some(host) => host,
        None => dir,
    };
    let (a, scans) = folders::registered(s, d.scans, d.nested, seq![dir]);
    let b = folders::with_repositories(a, d);
    (upkeep::swept(upkeep::all_refreshed(b, folders::keys_in(b, from)), d.external), scans)
}

/// The state after the marker of a scope went: its documents move to the scope
/// around it, or are dropped.
pub open spec fn scope_merged(s: State, d: DiskView, root: Seq<u8>) -> State {
    if !s.roots.contains_key(root) {
        s
    } else {
        let b = folders::with_repositories(State { roots: s.roots.remove(root), ..s }, d);
        upkeep::swept(folders::all_rerooted(b, folders::keys_in(b, root)), d.external)
    }
}

/// The state after some documents were read again.
pub open spec fn all_reparsed(s: State, keys: Seq<Seq<u8>>) -> State
    decreases keys.len(),
{
    if keys.len() == 0 {
        s
    } else {
        upkeep::reparsed(all_reparsed(s, keys.drop_last()), keys.last())
    }
}

/// The state after the configuration of a root was loaded again: it takes effect
/// on every document that the root owns. One that could not be loaded changes
/// nothing but what is said of it.
pub open spec fn config_reloaded(
    s: State,
    root: Seq<u8>,
    reload: ReloadView,
    external: Map<Seq<u8>, ExternalExistence>,
) -> State {
    if !s.roots.contains_key(root) {
        s
    } else {
        match reload.loaded {
            Ok(config) => {
                let meta = MetaView {
                    config,
                    error: None,
                    committed: true,
                    has_config: reload.has_config,
                    ..s.roots[root]
                };
                let a = State { roots: s.roots.insert(root, meta), ..s };
                let keys = sorted::keys_of(
                    KeyOrder::Path,
                    folders::owned_by(a, Map::empty().insert(root, ())),
                );
                upkeep::swept(all_reparsed(a, keys), external)
            },
            Err(error) => {
                let meta = MetaView {
                    error: Some(error),
                    has_config: reload.has_config,
                    ..s.roots[root]
                };
                State { roots: s.roots.insert(root, meta), ..s }
            },
        }
    }
}

/// The state after an event on a marker, what is left of the scans, and whether
/// anything was done.
pub open spec fn marker_handled(
    s: State,
    d: DiskView,
    marker: Seq<u8>,
    present: bool,
    reload: ReloadView,
) -> (State, Map<Seq<u8>, ScanView>, bool) {
    match parent_of(marker) {
        None => (s, d.scans, false),
        Some(dir) => match registered_at(s, dir) {
            Some(root) => if present || s.folders.contains_key(root) {
                (config_reloaded(s, root, reload, d.external), d.scans, true)
            } else {
                (scope_merged(s, d, root), d.scans, true)
            },
            None => if present && workspaces::placement(s, dir) is Some {
                let (t, scans) = scope_split(s, d, dir);
                (t, scans, true)
            } else {
                (s, d.scans, false)
            },
        },
    }
}

impl Workspaces {
    /// The scope root registered at a directory, under its own name or with
    /// symbolic links resolved.
    pub fn registered_root_at(&self, dir: &str) -> (r: Option<String>)
        requires
            self.wf(),
        ensures
            store::maybe(r) == registered_at(self@, path::named(dir@)),
    {
        let ghost keys = self.roots.keys();
        let ghost d = path::named(dir@);
        let n = self.roots.len();
        let mut i: usize = 0;
        self.roots.keys_ascend();
        proof {
            sorted::lemma_keys_of(KeyOrder::Path, keys, self@.roots);
            assert(keys.skip(0) =~= keys);
        }
        while i < n
            invariant
                i <= n,
                n == keys.len(),
                keys == self.roots.keys(),
                d == path::named(dir@),
                registered_at(self@, d) == root_at(keys.skip(i as int), self@.roots, d),
            decreases n - i,
        {
            let key = self.roots.key_at(i);
            let meta = self.roots.value_at(i);
            proof {
                assert(keys.skip(i as int)[0] == keys[i as int]);
                assert(keys.skip(i as int).drop_first() =~= keys.skip(i + 1));
                assert(self@.roots[keys[i as int]] == meta@);
            }
            if path::same_path(key, dir) || path::same_path(meta.canonical_root.as_str(), dir) {
                return Some(text::owned(key));
            }
            i += 1;
        }
        None
    }

    /// Split the directory of a new marker off the scope around it.
    pub fn split_scope(&mut self, marker_dir: &str, disk: &mut Disk)
        requires
            old(self).wf(),
            scopes::scans_wf(old(disk)@.scans),
        ensures
            final(self).wf(),
            scopes::scans_wf(final(disk)@.scans),
            final(disk)@.covering == old(disk)@.covering,
            final(disk)@.nested == old(disk)@.nested,
            final(disk)@.external == old(disk)@.external,
            (final(self)@, final(disk)@.scans) == scope_split(
                old(self)@,
                old(disk)@,
                path::named(marker_dir@),
            ),
    {
        let from = match self.deepest_root_for(marker_dir) {
            Some(host) => host,
            None => text::owned(marker_dir),
        };
        self.register_scope(marker_dir, disk);
        let ghost d1 = disk@;
        self.rebuild_git_boundaries(disk);
        proof {
            folders::lemma_repositories_need_no_scans(d1, old(disk)@, self@.folders);
        }
        let keys = self.document_keys_under(from.as_str());
        self.refresh_all(&keys);
        self.recompute_all_structural(&disk.external);
    }

    /// Merge a scope whose marker went into the scope around it.
    pub fn merge_scope(&mut self, scope_root: &str, disk: &Disk)
        requires
            old(self).wf(),
        ensures
            final(self).wf(),
            final(self)@ == scope_merged(old(self)@, disk@, path::named(scope_root@)),
    {
        let ghost before = self@.roots;
        if folders::remove_meta(&mut self.roots, scope_root).is_none() {
            assert(before.remove(path::named(scope_root@)) =~= before);
            return ;
        }
        self.rebuild_git_boundaries(disk);
        let keys = self.document_keys_under(scope_root);
        self.reroot_all(&keys);
        self.recompute_all_structural(&disk.external);
    }

    fn reparse_all(&mut self, keys: &Vec<String>)
        requires
            old(self).wf(),
        ensures
            final(self).wf(),
            final(self)@ == all_reparsed(old(self)@, path::all_named(keys@)),
    {
        let ghost s0 = self@;
        let ghost all = path::all_named(keys@);
        let mut i: usize = 0;
        assert(all.take(0) =~= Seq::<Seq<u8>>::empty());
        while i < keys.len()
            invariant
                i <= keys@.len(),
                all == path::all_named(keys@),
                self.wf(),
                self@ == all_reparsed(s0, all.take(i as int)),
            decreases keys@.len() - i,
        {
            self.reparse_in_place(keys[i].as_str());
            proof {
                assert(all.take(i + 1).drop_last() =~= all.take(i as int));
                assert(all.take(i + 1).last() == path::named(keys@[i as int]@));
            }
            i += 1;
        }
        assert(all.take(i as int) =~= all);
    }

    /// Take what was found when the configuration of a root was loaded again. A
    /// configuration that could not be loaded leaves the last good one in force.
    pub fn reload_root_config(
        &mut self,
        root: &str,
        reload: Reload,
        external: &PathMap<ExternalExistence>,
    )
        requires
            old(self).wf(),
        ensures
            final(self).wf(),
            final(self)@ == config_reloaded(
                old(self)@,
                path::named(root@),
                reload@,
                external@,
            ),
    {
        let ghost s0 = self@;
        let ghost rt = path::named(root@);
        let Some(meta) = folders::remove_meta(&mut self.roots, root) else {
            assert(s0.roots.remove(rt) =~= s0.roots);
            return ;
        };
        let RootMeta { canonical_root, config, config_committed, verdicts, .. } = meta;
        match reload.loaded {
            Ok(loaded) => {
                folders::insert_meta(
                    &mut self.roots,
                    root,
                    RootMeta {
                        canonical_root,
                        config: loaded,
                        config_error: None,
                        config_committed: true,
                        has_config: reload.has_config,
                        verdicts,
                    },
                );
                proof {
                    let goal = MetaView {
                        config: loaded,
                        error: None,
                        committed: true,
                        has_config: reload.has_config,
                        ..s0.roots[rt]
                    };
                    assert(self@.roots =~= s0.roots.insert(rt, goal));
                }
                let mut one: PathMap<()> = PathMap::new();
                one.insert(text::owned(root), ());
                let keys = self.keys_owned_by(&one);
                self.reparse_all(&keys);
                self.recompute_all_structural(external);
            },
            Err(error) => {
                let ghost said = error@;
                folders::insert_meta(
                    &mut self.roots,
                    root,
                    RootMeta {
                        canonical_root,
                        config,
                        config_error: Some(error),
                        config_committed,
                        has_config: reload.has_config,
                        verdicts,
                    },
                );
                proof {
                    let goal = MetaView {
                        error: Some(said),
                        has_config: reload.has_config,
                        ..s0.roots[rt]
                    };
                    assert(self@.roots =~= s0.roots.insert(rt, goal));
                }
            },
        }
    }

    /// Handle an event on a marker: `present` tells whether it is there now, and
    /// `reload` what loading it gave. Tells whether anything was done.
    pub fn handle_marker_event(
        &mut self,
        marker_uri: &str,
        present: bool,
        reload: Reload,
        disk: &mut Disk,
    ) -> (r: bool)
        requires
            old(self).wf(),
            scopes::scans_wf(old(disk)@.scans),
        ensures
            final(self).wf(),
            scopes::scans_wf(final(disk)@.scans),
            final(disk)@.covering == old(disk)@.covering,
            final(disk)@.nested == old(disk)@.nested,
            final(disk)@.external == old(disk)@.external,
            (final(self)@, final(disk)@.scans, r) == marker_handled(
                old(self)@,
                old(disk)@,
                uri::path_of(text::utf8(marker_uri@)),
                present,
                reload@,
            ),
    {
        let marker = uri::uri_to_path(marker_uri);
        let Some(dir) = parent_directory(marker.as_str()) else {
            return false;
        };
        match self.registered_root_at(dir.as_str()) {
            Some(root) => {
                if present || self.client_folders.contains_key(root.as_str()) {
                    self.reload_root_config(root.as_str(), reload, &disk.external);
                } else {
                    self.merge_scope(root.as_str(), disk);
                }
                true
            },
            None => {
                if present && self.deepest_root_for(dir.as_str()).is_some() {
                    self.split_scope(dir.as_str(), disk);
                    true
                } else {
                    false
                }
            },
        }
    }
}

// The start.

/// The state after some folders were opened, one after another, and what is left
/// of the scans.
pub open spec fn all_added(s: State, d: DiskView, folders: Seq<Seq<u8>>) -> (
    State,
    Map<Seq<u8>, ScanView>,
)
    decreases folders.len(),
{
    if folders.len() == 0 {
        (s, d.scans)
    } else {
        let (t, scans) = all_added(s, d, folders.drop_last());
        folders::folder_added(t, DiskView { scans, ..d }, folders.last())
    }
}

/// The folders that some URIs name.
pub open spec fn folder_paths(uris: Seq<String>) -> Seq<Seq<u8>> {
    path::texts(uris).map_values(|u: Seq<u8>| uri::path_of(u))
}

/// The folders that a client names.
pub open spec fn listed_folders(uris: Option<Vec<String>>) -> Seq<Seq<u8>> {
    match uris {
        Some(list) => folder_paths(list@),
        None => Seq::empty(),
    }
}

/// The state that a client starts with, from an empty one: with the folders that
/// it names, or with the one root that it names where no folder gave a scope.
pub open spec fn started(
    s: State,
    d: DiskView,
    listed: Seq<Seq<u8>>,
    root: Option<Seq<u8>>,
) -> (State, Map<Seq<u8>, ScanView>) {
    let (a, scans) = all_added(s, d, listed);
    match root {
        Some(uri) if a.roots.dom().is_empty() => folders::folder_added(
            a,
            DiskView { scans, ..d },
            uri::path_of(uri),
        ),
        _ => (a, scans),
    }
}

impl Workspaces {
    fn add_folders(&mut self, uris: &Vec<String>, disk: &mut Disk)
        requires
            old(self).wf(),
            scopes::scans_wf(old(disk)@.scans),
        ensures
            final(self).wf(),
            scopes::scans_wf(final(disk)@.scans),
            final(disk)@.covering == old(disk)@.covering,
            final(disk)@.nested == old(disk)@.nested,
            final(disk)@.external == old(disk)@.external,
            (final(self)@, final(disk)@.scans) == all_added(
                old(self)@,
                old(disk)@,
                folder_paths(uris@),
            ),
    {
        let ghost s0 = self@;
        let ghost d0 = disk@;
        let ghost all = folder_paths(uris@);
        let mut i: usize = 0;
        assert(all.take(0) =~= Seq::<Seq<u8>>::empty());
        while i < uris.len()
            invariant
                i <= uris@.len(),
                all == folder_paths(uris@),
                self.wf(),
                scopes::scans_wf(disk@.scans),
                disk@ == (DiskView { scans: disk@.scans, ..d0 }),
                (self@, disk@.scans) == all_added(s0, d0, all.take(i as int)),
            decreases uris@.len() - i,
        {
            self.add_folder(uris[i].as_str(), disk);
            proof {
                assert(all.take(i + 1).drop_last() =~= all.take(i as int));
                assert(all.take(i + 1).last() == uri::path_of(text::utf8(uris@[i as int]@)));
            }
            i += 1;
        }
        assert(all.take(i as int) =~= all);
    }

    /// The state that a client starts with: the folders that it names, or the
    /// one root that it names where no folder gave a scope.
    pub fn from_params(
        workspace_folders: &Option<Vec<String>>,
        root_uri: &Option<String>,
        disk: &mut Disk,
    ) -> (r: Workspaces)
        requires
            scopes::scans_wf(old(disk)@.scans),
        ensures
            r.wf(),
            exists|s: State| #[trigger]
                workspaces::is_empty_state(s) && (r@, final(disk)@.scans) == started(
                    s,
                    old(disk)@,
                    listed_folders(*workspace_folders),
                    text::maybe(*root_uri),
                ),
    {
        let mut w = Workspaces::new();
        let ghost s = w@;
        let ghost d0 = disk@;
        let ghost listed = listed_folders(*workspace_folders);
        if let Some(uris) = workspace_folders {
            w.add_folders(uris, disk);
        }
        assert((w@, disk@.scans) == all_added(s, d0, listed));
        assert(workspaces::is_empty_state(s));
        if let Some(root) = root_uri {
            let empty = w.roots.is_empty();
            proof {
                assert(empty == w@.roots.dom().is_empty()) by {
                    if !empty {
                        let k = w.roots.keys()[0];
                        assert(w.roots.keys().contains(k));
                        assert(w@.roots.contains_key(k));
                    } else {
                        assert(w@.roots.dom() =~= Set::empty());
                    }
                }
            }
            if empty {
                w.add_folder(root.as_str(), disk);
            }
        }
        w
    }
}

} // verus!

//! Scopes: the directories that markers declare, as they were found on disk.
//!
//! A folder that the client opens shows the scope that covers it and every scope
//! below that one; repositories without a marker are boundaries and no scopes.
use vstd::prelude::*;
use crate::config::Config;
use crate::path;
use crate::pathmap::PathMap;
use crate::server::workspaces;
use crate::server::workspaces::{ConfigError, State, Workspaces};
use crate::sorted::KeyOrder;
use crate::structural::ExternalExistence;
use crate::text;
use crate::workspace;
use crate::workspace::{Boundary, BoundaryKind, BoundaryView, FileData, FileView};

verus! {

/// What was found when a scope was scanned.
pub struct Scan {
    /// The scope's root with symbolic links resolved.
    pub canonical_root: String,
    pub config: Config,
    pub config_error: Option<ConfigError>,
    pub has_config: bool,
    /// The documents of the scope, under their paths relative to its root.
    pub files: Vec<(String, FileData)>,
}

/// A scan, as text.
#[verifier::ext_equal]
pub struct ScanView {
    pub canonical: Seq<u8>,
    pub config: Config,
    pub error: Option<Seq<u8>>,
    pub has_config: bool,
    pub files: Seq<(Seq<u8>, FileView)>,
}

/// The documents of a scan, as text.
pub open spec fn scanned(files: Seq<(String, FileData)>) -> Seq<(Seq<u8>, FileView)> {
    files.map_values(|f: (String, FileData)| (path::named(f.0@), f.1@))
}

impl View for Scan {
    type V = ScanView;

    open spec fn view(&self) -> ScanView {
        ScanView {
            canonical: path::named(self.canonical_root@),
            config: self.config,
            error: workspaces::maybe_error(self.config_error),
            has_config: self.has_config,
            files: scanned(self.files@),
        }
    }
}

/// What was found on disk.
pub struct Disk {
    /// The nearest directory with a marker above a folder, or the folder itself.
    pub covering: PathMap<String>,
    /// The outermost boundaries inside a directory.
    pub nested: PathMap<Vec<Boundary>>,
    /// The scopes that could be scanned.
    pub scans: PathMap<Scan>,
    /// What is known of paths outside the scopes.
    pub external: PathMap<ExternalExistence>,
}

/// What was found on disk, as text.
#[verifier::ext_equal]
pub struct DiskView {
    pub covering: Map<Seq<u8>, Seq<u8>>,
    pub nested: Map<Seq<u8>, Seq<BoundaryView>>,
    pub scans: Map<Seq<u8>, ScanView>,
    pub external: Map<Seq<u8>, ExternalExistence>,
}

/// Scans, as text.
pub open spec fn scan_views(map: Map<Seq<u8>, Scan>) -> Map<Seq<u8>, ScanView> {
    Map::new(|k: Seq<u8>| map.contains_key(k), |k: Seq<u8>| map[k]@)
}

impl View for Disk {
    type V = DiskView;

    open spec fn view(&self) -> DiskView {
        DiskView {
            covering: Map::new(
                |k: Seq<u8>| self.covering@.contains_key(k),
                |k: Seq<u8>| path::named(self.covering@[k]@),
            ),
            nested: Map::new(
                |k: Seq<u8>| self.nested@.contains_key(k),
                |k: Seq<u8>| workspace::boundary_views(self.nested@[k]@),
            ),
            scans: scan_views(self.scans@),
            external: self.external@,
        }
    }
}

/// Whether every document of some scans can be checked.
pub open spec fn scans_wf(scans: Map<Seq<u8>, ScanView>) -> bool {
    forall|k: Seq<u8>, i: int|
        scans.contains_key(k) && 0 <= i < scans[k].files.len() ==> (
        #[trigger] scans[k].files[i]).1.wf()
}

/// The scope that covers a folder.
pub open spec fn covering_of(d: DiskView, folder: Seq<u8>) -> Seq<u8> {
    if d.covering.contains_key(folder) {
        d.covering[folder]
    } else {
        folder
    }
}

/// The scopes among some boundaries.
pub open spec fn scopes_in(list: Seq<BoundaryView>) -> Seq<Seq<u8>>
    decreases list.len(),
{
    if list.len() == 0 {
        Seq::empty()
    } else if list.last().kind == BoundaryKind::Scope {
        scopes_in(list.drop_last()).push(list.last().path)
    } else {
        scopes_in(list.drop_last())
    }
}

/// The scopes just inside a directory.
pub open spec fn scopes_at(nested: Map<Seq<u8>, Seq<BoundaryView>>, dir: Seq<u8>) -> Seq<Seq<u8>> {
    if nested.contains_key(dir) {
        scopes_in(nested[dir])
    } else {
        Seq::empty()
    }
}

/// Whether a boundary without a marker lies just inside a directory.
pub open spec fn has_repository(
    nested: Map<Seq<u8>, Seq<BoundaryView>>,
    dir: Seq<u8>,
    g: Seq<u8>,
) -> bool {
    nested.contains_key(dir) && nested[dir].contains(
        BoundaryView { path: g, kind: BoundaryKind::Git },
    )
}

/// Whether at most `n` steps inwards lead from one scope to another, without
/// touching those in `avoid`.
pub open spec fn reached_in(
    nested: Map<Seq<u8>, Seq<BoundaryView>>,
    avoid: Map<Seq<u8>, ()>,
    from: Seq<u8>,
    n: nat,
    x: Seq<u8>,
) -> bool
    decreases n,
{
    &&& !avoid.contains_key(x)
    &&& if n == 0 {
        x == from
    } else {
        reached_in(nested, avoid, from, (n - 1) as nat, x) || exists|y: Seq<u8>|
            reached_in(nested, avoid, from, (n - 1) as nat, y) && #[trigger] scopes_at(
                nested,
                y,
            ).contains(x)
    }
}

/// Whether steps inwards lead from one scope to another, without touching those
/// in `avoid`.
pub open spec fn reaches_around(
    nested: Map<Seq<u8>, Seq<BoundaryView>>,
    avoid: Map<Seq<u8>, ()>,
    from: Seq<u8>,
    x: Seq<u8>,
) -> bool {
    exists|n: nat| #[trigger] reached_in(nested, avoid, from, n, x)
}

/// Whether a scope is another one or lies in it, at any depth.
pub open spec fn reaches(
    nested: Map<Seq<u8>, Seq<BoundaryView>>,
    from: Seq<u8>,
    x: Seq<u8>,
) -> bool {
    reaches_around(nested, Map::empty(), from, x)
}

/// The number of listed directories that a set does not hold.
spec fn left_over(keys: Seq<Seq<u8>>, set: Map<Seq<u8>, ()>) -> nat
    decreases keys.len(),
{
    if keys.len() == 0 {
        0
    } else {
        left_over(keys.drop_last(), set) + if set.contains_key(keys.last()) {
            0nat
        } else {
            1
        }
    }
}

proof fn lemma_left_over(keys: Seq<Seq<u8>>, set: Map<Seq<u8>, ()>, x: Seq<u8>)
    requires
        !set.contains_key(x),
    ensures
        left_over(keys, set.insert(x, ())) <= left_over(keys, set),
        keys.contains(x) ==> left_over(keys, set.insert(x, ())) < left_over(keys, set),
    decreases keys.len(),
{
    if keys.len() > 0 {
        let rest = keys.drop_last();
        lemma_left_over(rest, set, x);
        if keys.contains(x) && keys.last() != x {
            let i = keys.index_of(x);
            assert(rest[i] == x);
        }
    }
}

/// A step inwards from what is reached.
proof fn lemma_step(
    nested: Map<Seq<u8>, Seq<BoundaryView>>,
    avoid: Map<Seq<u8>, ()>,
    from: Seq<u8>,
    y: Seq<u8>,
    x: Seq<u8>,
)
    requires
        reaches_around(nested, avoid, from, y),
        scopes_at(nested, y).contains(x),
        !avoid.contains_key(x),
    ensures
        reaches_around(nested, avoid, from, x),
{
    let n = choose|n: nat| #[trigger] reached_in(nested, avoid, from, n, y);
    assert(reached_in(nested, avoid, from, n + 1, x));
}

/// What is closed under steps and holds the start holds what is reached.
proof fn lemma_closed(
    nested: Map<Seq<u8>, Seq<BoundaryView>>,
    avoid: Map<Seq<u8>, ()>,
    from: Seq<u8>,
    set: Map<Seq<u8>, ()>,
    n: nat,
    x: Seq<u8>,
)
    requires
        avoid.contains_key(from) || set.contains_key(from),
        forall|y: Seq<u8>, z: Seq<u8>|
            set.contains_key(y) && !avoid.contains_key(y) && #[trigger] scopes_at(
                nested,
                y,
            ).contains(z) ==> set.contains_key(z),
        reached_in(nested, avoid, from, n, x),
    ensures
        set.contains_key(x),
    decreases n,
{
    if n > 0 {
        if reached_in(nested, avoid, from, (n - 1) as nat, x) {
            lemma_closed(nested, avoid, from, set, (n - 1) as nat, x);
        } else {
            let y = choose|y: Seq<u8>|
                reached_in(nested, avoid, from, (n - 1) as nat, y) && #[trigger] scopes_at(
                    nested,
                    y,
                ).contains(x);
            lemma_closed(nested, avoid, from, set, (n - 1) as nat, y);
            assert(!avoid.contains_key(y));
            assert(scopes_at(nested, y).contains(x));
        }
    }
}

/// The scopes among some boundaries, as a list.
pub(crate) fn list_scopes(list: &Vec<Boundary>) -> (r: Vec<String>)
    ensures
        path::all_named(r@) == scopes_in(workspace::boundary_views(list@)),
{
    let mut r: Vec<String> = Vec::new();
    let ghost all = workspace::boundary_views(list@);
    let mut i: usize = 0;
    proof {
        assert(all.take(0) =~= Seq::<BoundaryView>::empty());
        assert(path::all_named(r@) =~= Seq::<Seq<u8>>::empty());
    }
    while i < list.len()
        invariant
            i <= list@.len(),
            all == workspace::boundary_views(list@),
            path::all_named(r@) == scopes_in(all.take(i as int)),
        decreases list@.len() - i,
    {
        let ghost so_far = path::all_named(r@);
        proof {
            assert(all.take(i + 1).drop_last() =~= all.take(i as int));
            assert(all.take(i + 1).last() == list@[i as int]@);
        }
        if list[i].kind == BoundaryKind::Scope {
            r.push(text::owned(list[i].path.as_str()));
            assert(path::all_named(r@) =~= so_far.push(path::named(list@[i as int].path@)));
        }
        i += 1;
    }
    assert(all.take(i as int) =~= all);
    r
}

impl Disk {
    /// The scope that covers a folder.
    pub(crate) fn covering_scope(&self, folder: &str) -> (r: String)
        ensures
            path::named(r@) == covering_of(self@, path::named(folder@)),
    {
        match self.covering.get(folder) {
            Some(root) => text::owned(root.as_str()),
            None => text::owned(folder),
        }
    }

    /// The scopes just inside a directory.
    pub(crate) fn inner_scopes(&self, dir: &str) -> (r: Vec<String>)
        ensures
            path::all_named(r@) == scopes_at(self@.nested, path::named(dir@)),
    {
        match self.nested.get(dir) {
            Some(list) => list_scopes(list),
            None => {
                let r: Vec<String> = Vec::new();
                assert(path::all_named(r@) =~= Seq::<Seq<u8>>::empty());
                r
            },
        }
    }
}

/// The scopes that some folders show: those that cover them, and every scope
/// inside these.
pub open spec fn shown(d: DiskView, folders: Map<Seq<u8>, ()>) -> Map<Seq<u8>, ()> {
    Map::new(
        |x: Seq<u8>|
            exists|f: Seq<u8>| #[trigger]
                folders.contains_key(f) && reaches(d.nested, covering_of(d, f), x),
        |x: Seq<u8>| (),
    )
}

/// The repositories without a marker in the scopes that some folders show.
pub open spec fn repositories(d: DiskView, folders: Map<Seq<u8>, ()>) -> Map<Seq<u8>, ()> {
    Map::new(
        |g: Seq<u8>|
            exists|x: Seq<u8>| #[trigger]
                shown(d, folders).contains_key(x) && has_repository(d.nested, x, g),
        |g: Seq<u8>| (),
    )
}

/// Whether a set holds with each scope the scopes just inside it.
spec fn is_closed(nested: Map<Seq<u8>, Seq<BoundaryView>>, set: Map<Seq<u8>, ()>) -> bool {
    forall|y: Seq<u8>, z: Seq<u8>|
        set.contains_key(y) && #[trigger] scopes_at(nested, y).contains(z) ==> set.contains_key(z)
}

/// Around a closed set everything is reached that is reached at all.
proof fn lemma_around_closed(
    nested: Map<Seq<u8>, Seq<BoundaryView>>,
    avoid: Map<Seq<u8>, ()>,
    from: Seq<u8>,
    n: nat,
    x: Seq<u8>,
)
    requires
        is_closed(nested, avoid),
        reached_in(nested, Map::empty(), from, n, x),
        !avoid.contains_key(x),
    ensures
        reached_in(nested, avoid, from, n, x),
    decreases n,
{
    if n > 0 {
        if reached_in(nested, Map::empty(), from, (n - 1) as nat, x) {
            lemma_around_closed(nested, avoid, from, (n - 1) as nat, x);
        } else {
            let y = choose|y: Seq<u8>|
                reached_in(nested, Map::empty(), from, (n - 1) as nat, y) && #[trigger] scopes_at(
                    nested,
                    y,
                ).contains(x);
            if avoid.contains_key(y) {
                assert(scopes_at(nested, y).contains(x));
            } else {
                lemma_around_closed(nested, avoid, from, (n - 1) as nat, y);
                assert(scopes_at(nested, y).contains(x));
            }
        }
    }
}

proof fn lemma_around_is_reach(
    nested: Map<Seq<u8>, Seq<BoundaryView>>,
    avoid: Map<Seq<u8>, ()>,
    from: Seq<u8>,
    n: nat,
    x: Seq<u8>,
)
    requires
        reached_in(nested, avoid, from, n, x),
    ensures
        reached_in(nested, Map::empty(), from, n, x),
    decreases n,
{
    if n > 0 {
        if reached_in(nested, avoid, from, (n - 1) as nat, x) {
            lemma_around_is_reach(nested, avoid, from, (n - 1) as nat, x);
        } else {
            let y = choose|y: Seq<u8>|
                reached_in(nested, avoid, from, (n - 1) as nat, y) && #[trigger] scopes_at(
                    nested,
                    y,
                ).contains(x);
            lemma_around_is_reach(nested, avoid, from, (n - 1) as nat, y);
            assert(scopes_at(nested, y).contains(x));
        }
    }
}

/// A closed set with what is reached around it holds what is reached at all, and
/// is closed again.
proof fn lemma_grown(
    nested: Map<Seq<u8>, Seq<BoundaryView>>,
    before: Map<Seq<u8>, ()>,
    after: Map<Seq<u8>, ()>,
    from: Seq<u8>,
)
    requires
        is_closed(nested, before),
        forall|x: Seq<u8>| #[trigger]
            after.contains_key(x) <==> (before.contains_key(x) || reaches_around(
                nested,
                before,
                from,
                x,
            )),
    ensures
        is_closed(nested, after),
        forall|x: Seq<u8>| #[trigger]
            after.contains_key(x) <==> (before.contains_key(x) || reaches(nested, from, x)),
{
    assert forall|x: Seq<u8>| #[trigger] after.contains_key(x) <==> (before.contains_key(x)
        || reaches(nested, from, x)) by {
        if reaches(nested, from, x) && !before.contains_key(x) {
            let n = choose|n: nat| #[trigger] reached_in(nested, Map::empty(), from, n, x);
            lemma_around_closed(nested, before, from, n, x);
        }
        if reaches_around(nested, before, from, x) {
            let n = choose|n: nat| #[trigger] reached_in(nested, before, from, n, x);
            lemma_around_is_reach(nested, before, from, n, x);
        }
    }
    assert forall|y: Seq<u8>, z: Seq<u8>|
        after.contains_key(y) && #[trigger] scopes_at(nested, y).contains(z) implies after.contains_key(
        z,
    ) by {
        if !before.contains_key(y) && !before.contains_key(z) {
            lemma_step(nested, before, from, y, z);
        }
    }
}

impl Workspaces {
    /// Add a scope and every scope inside it to a set. What the set holds already
    /// counts as done.
    pub fn collect_scope_tree(disk: &Disk, scope_root: &str, out: &mut PathMap<()>)
        ensures
            final(out).order() == old(out).order(),
            forall|x: Seq<u8>| #[trigger]
                final(out)@.contains_key(x) <==> (old(out)@.contains_key(x) || reaches_around(
                    disk@.nested,
                    old(out)@,
                    path::named(scope_root@),
                    x,
                )),
    {
        let ghost nested = disk@.nested;
        let ghost avoid = out@;
        let ghost from = path::named(scope_root@);
        let ghost tables = disk.nested.keys();
        let mut stack: Vec<String> = Vec::new();
        stack.push(text::owned(scope_root));
        disk.nested.keys_ascend();
        proof {
            assert(path::all_named(stack@)[0] == from);
            if !avoid.contains_key(from) {
                assert(reached_in(nested, avoid, from, 0, from));
            }
        }
        while stack.len() > 0
            invariant
                nested == disk@.nested,
                tables == disk.nested.keys(),
                from == path::named(scope_root@),
                out.order() == old(out).order(),
                avoid == old(out)@,
                forall|k: Seq<u8>| #[trigger] tables.contains(k) <==> disk.nested@.contains_key(k),
                forall|x: Seq<u8>| #[trigger] avoid.contains_key(x) ==> out@.contains_key(x),
                forall|x: Seq<u8>| #[trigger]
                    out@.contains_key(x) ==> avoid.contains_key(x) || reaches_around(
                        nested,
                        avoid,
                        from,
                        x,
                    ),
                forall|x: Seq<u8>| #[trigger]
                    path::all_named(stack@).contains(x) ==> avoid.contains_key(x) || reaches_around(
                        nested,
                        avoid,
                        from,
                        x,
                    ),
                out@.contains_key(from) || path::all_named(stack@).contains(from),
                forall|y: Seq<u8>, z: Seq<u8>|
                    out@.contains_key(y) && !avoid.contains_key(y) && #[trigger] scopes_at(
                        nested,
                        y,
                    ).contains(z) ==> out@.contains_key(z) || path::all_named(stack@).contains(z),
            decreases left_over(tables, out@), stack@.len(),
        {
            let ghost s0 = path::all_named(stack@);
            let ghost out0 = out@;
            let Some(node) = stack.pop() else {
                return ;
            };
            let ghost x = path::named(node@);
            let ghost s1 = path::all_named(stack@);
            proof {
                assert(s0.last() == x);
                assert(s1 =~= s0.drop_last());
                assert forall|k: Seq<u8>| #[trigger] s0.contains(k) && k != x implies s1.contains(k) by {
                    let i = s0.index_of(k);
                    assert(s1[i] == k);
                }
                assert forall|k: Seq<u8>| #[trigger] s1.contains(k) implies s0.contains(k) by {
                    let i = s1.index_of(k);
                    assert(s0[i] == k);
                }
            }
            if out.contains_key(node.as_str()) {
                continue ;
            }
            assert(s0.contains(x)) by {
                assert(s0[s0.len() - 1] == x);
            }
            proof {
                lemma_left_over(tables, out0, x);
            }
            let mut next = disk.inner_scopes(node.as_str());
            let ghost inner = path::all_named(next@);
            out.insert(node, ());
            proof {
                if inner.len() > 0 {
                    assert(nested.contains_key(x));
                    assert(tables.contains(x));
                }
            }
            stack.append(&mut next);
            proof {
                let s2 = path::all_named(stack@);
                assert(s2 =~= s1 + inner);
                assert forall|k: Seq<u8>| #[trigger] s2.contains(k) <==> s1.contains(k) || inner.contains(
                    k,
                ) by {
                    if s1.contains(k) {
                        assert(s2[s1.index_of(k)] == k);
                    }
                    if inner.contains(k) {
                        assert(s2[s1.len() + inner.index_of(k)] == k);
                    }
                    if s2.contains(k) {
                        let i = s2.index_of(k);
                        if i < s1.len() {
                            assert(s1[i] == k);
                        } else {
                            assert(inner[i - s1.len()] == k);
                        }
                    }
                }
                assert forall|k: Seq<u8>| #[trigger] s2.contains(k) implies avoid.contains_key(k)
                    || reaches_around(nested, avoid, from, k) by {
                    if !s1.contains(k) && !avoid.contains_key(k) {
                        lemma_step(nested, avoid, from, x, k);
                    }
                }
            }
        }
        proof {
            assert forall|x: Seq<u8>| #[trigger] out@.contains_key(x) <==> (avoid.contains_key(x)
                || reaches_around(nested, avoid, from, x)) by {
                if reaches_around(nested, avoid, from, x) {
                    let n = choose|n: nat| #[trigger] reached_in(nested, avoid, from, n, x);
                    lemma_closed(nested, avoid, from, out@, n, x);
                }
            }
        }
    }

    /// The scopes that the open folders show.
    pub fn active_scope_roots(&self, disk: &Disk) -> (r: PathMap<()>)
        ensures
            r.order() == KeyOrder::Path,
            r@ == shown(disk@, self@.folders),
    {
        let mut active: PathMap<()> = PathMap::new();
        let n = self.client_folders.len();
        let ghost keys = self.client_folders.keys();
        let ghost d = disk@;
        let mut i: usize = 0;
        self.client_folders.keys_ascend();
        while i < n
            invariant
                i <= n,
                n == keys.len(),
                keys == self.client_folders.keys(),
                d == disk@,
                active.order() == KeyOrder::Path,
                is_closed(d.nested, active@),
                forall|x: Seq<u8>| #[trigger]
                    active@.contains_key(x) <==> exists|j: int|
                        0 <= j < i && reaches(d.nested, covering_of(d, #[trigger] keys[j]), x),
            decreases n - i,
        {
            let folder = self.client_folders.key_at(i);
            let covering = disk.covering_scope(folder);
            let ghost before = active@;
            let ghost from = covering_of(d, keys[i as int]);
            Self::collect_scope_tree(disk, covering.as_str(), &mut active);
            proof {
                lemma_grown(d.nested, before, active@, from);
                assert forall|x: Seq<u8>| #[trigger] active@.contains_key(x) <==> exists|j: int|
                    0 <= j < i + 1 && reaches(d.nested, covering_of(d, #[trigger] keys[j]), x) by {
                    if before.contains_key(x) {
                        let j = choose|j: int|
                            0 <= j < i && reaches(d.nested, covering_of(d, #[trigger] keys[j]), x);
                        assert(reaches(d.nested, covering_of(d, keys[j]), x));
                    }
                    if reaches(d.nested, from, x) {
                        assert(reaches(d.nested, covering_of(d, keys[i as int]), x));
                    }
                }
            }
            i += 1;
        }
        proof {
            let goal = shown(d, self@.folders);
            assert forall|x: Seq<u8>| #[trigger] active@.contains_key(x) <==> goal.contains_key(x) by {
                if active@.contains_key(x) {
                    let j = choose|j: int|
                        0 <= j < n && reaches(d.nested, covering_of(d, #[trigger] keys[j]), x);
                    assert(keys.contains(keys[j]));
                    assert(self@.folders.contains_key(keys[j]));
                }
                if goal.contains_key(x) {
                    let f = choose|f: Seq<u8>| #[trigger]
                        self@.folders.contains_key(f) && reaches(d.nested, covering_of(d, f), x);
                    assert(keys.contains(f));
                    let j = keys.index_of(f);
                    assert(reaches(d.nested, covering_of(d, keys[j]), x));
                }
            }
            assert(active@ =~= goal);
        }
        active
    }

    /// Add the repositories without a marker just inside some scopes to a set.
    fn add_boundaries(disk: &Disk, scopes: &PathMap<()>, out: &mut PathMap<()>)
        ensures
            final(out).order() == old(out).order(),
            forall|g: Seq<u8>| #[trigger]
                final(out)@.contains_key(g) <==> (old(out)@.contains_key(g) || exists|x: Seq<u8>|
                 #[trigger]
                    scopes@.contains_key(x) && has_repository(disk@.nested, x, g)),
    {
        let n = scopes.len();
        let ghost keys = scopes.keys();
        let ghost nested = disk@.nested;
        let ghost start = out@;
        let mut i: usize = 0;
        scopes.keys_ascend();
        while i < n
            invariant
                i <= n,
                n == keys.len(),
                keys == scopes.keys(),
                nested == disk@.nested,
                out.order() == old(out).order(),
                forall|g: Seq<u8>| #[trigger]
                    out@.contains_key(g) <==> (start.contains_key(g) || exists|j: int|
                        0 <= j < i && has_repository(nested, #[trigger] keys[j], g)),
            decreases n - i,
        {
            let ghost before = out@;
            let dir = scopes.key_at(i);
            if let Some(list) = disk.nested.get(dir) {
                add_repositories(list, out);
            }
            proof {
                assert forall|g: Seq<u8>| #[trigger] out@.contains_key(g) <==> (start.contains_key(g)
                    || exists|j: int| 0 <= j < i + 1 && has_repository(nested, #[trigger] keys[j], g)) by {
                    assert(before.contains_key(g) <==> (start.contains_key(g) || exists|j: int|
                        0 <= j < i && has_repository(nested, #[trigger] keys[j], g)));
                    if out@.contains_key(g) && !before.contains_key(g) {
                        assert(has_repository(nested, keys[i as int], g));
                    }
                }
            }
            i += 1;
        }
        proof {
            assert forall|g: Seq<u8>| #[trigger] out@.contains_key(g) <==> (start.contains_key(g)
                || exists|x: Seq<u8>| #[trigger]
                scopes@.contains_key(x) && has_repository(nested, x, g)) by {
                if exists|j: int| 0 <= j < n && has_repository(nested, #[trigger] keys[j], g) {
                    let j = choose|j: int| 0 <= j < n && has_repository(nested, #[trigger] keys[j], g);
                    assert(keys.contains(keys[j]));
                    assert(scopes@.contains_key(keys[j]));
                }
                if exists|x: Seq<u8>| #[trigger]
                    scopes@.contains_key(x) && has_repository(nested, x, g) {
                    let x = choose|x: Seq<u8>| #[trigger]
                        scopes@.contains_key(x) && has_repository(nested, x, g);
                    assert(keys.contains(x));
                    let j = keys.index_of(x);
                    assert(has_repository(nested, keys[j], g));
                }
            }
        }
    }

    /// Add the repositories without a marker in a scope, and in every scope
    /// inside it, to a set.
    pub fn collect_git_boundaries(disk: &Disk, scope_root: &str, out: &mut PathMap<()>)
        ensures
            final(out).order() == old(out).order(),
            forall|g: Seq<u8>| #[trigger]
                final(out)@.contains_key(g) <==> (old(out)@.contains_key(g) || exists|x: Seq<u8>|
                    #[trigger] reaches(disk@.nested, path::named(scope_root@), x) && has_repository(
                        disk@.nested,
                        x,
                        g,
                    )),
    {
        let mut scopes: PathMap<()> = PathMap::new();
        let ghost from = path::named(scope_root@);
        let ghost start = out@;
        Self::collect_scope_tree(disk, scope_root, &mut scopes);
        Self::add_boundaries(disk, &scopes, out);
        proof {
            let nested = disk@.nested;
            assert forall|g: Seq<u8>| #[trigger] out@.contains_key(g) <==> (start.contains_key(g)
                || exists|x: Seq<u8>| #[trigger]
                reaches(nested, from, x) && has_repository(nested, x, g)) by {
                if exists|x: Seq<u8>| #[trigger]
                    scopes@.contains_key(x) && has_repository(nested, x, g) {
                    let x = choose|x: Seq<u8>| #[trigger]
                        scopes@.contains_key(x) && has_repository(nested, x, g);
                    assert(reaches(nested, from, x));
                }
                if exists|x: Seq<u8>| #[trigger]
                    reaches(nested, from, x) && has_repository(nested, x, g) {
                    let x = choose|x: Seq<u8>| #[trigger]
                        reaches(nested, from, x) && has_repository(nested, x, g);
                    assert(scopes@.contains_key(x));
                }
            }
        }
    }

    /// Find again the repositories without a marker that the open folders show.
    pub fn rebuild_git_boundaries(&mut self, disk: &Disk)
        requires
            old(self).wf(),
        ensures
            final(self).wf(),
            final(self)@ == (State {
                git: repositories(disk@, old(self)@.folders),
                ..old(self)@
            }),
    {
        let mut git: PathMap<()> = PathMap::new();
        let n = self.client_folders.len();
        let ghost keys = self.client_folders.keys();
        let ghost d = disk@;
        let ghost folders = self@.folders;
        let mut i: usize = 0;
        self.client_folders.keys_ascend();
        while i < n
            invariant
                i <= n,
                n == keys.len(),
                keys == self.client_folders.keys(),
                d == disk@,
                git.order() == KeyOrder::Path,
                forall|g: Seq<u8>| #[trigger]
                    git@.contains_key(g) <==> exists|j: int, x: Seq<u8>|
                        0 <= j < i && #[trigger] reaches(d.nested, covering_of(d, keys[j]), x)
                            && has_repository(d.nested, x, g),
            decreases n - i,
        {
            let ghost before = git@;
            let covering = disk.covering_scope(self.client_folders.key_at(i));
            Self::collect_git_boundaries(disk, covering.as_str(), &mut git);
            proof {
                assert forall|g: Seq<u8>| #[trigger] git@.contains_key(g) <==> exists|
                    j: int,
                    x: Seq<u8>,
                |
                    0 <= j < i + 1 && #[trigger] reaches(d.nested, covering_of(d, keys[j]), x)
                        && has_repository(d.nested, x, g) by {
                    if before.contains_key(g) {
                        let (j, x) = choose|j: int, x: Seq<u8>|
                            0 <= j < i && #[trigger] reaches(d.nested, covering_of(d, keys[j]), x)
                                && has_repository(d.nested, x, g);
                        assert(reaches(d.nested, covering_of(d, keys[j]), x));
                    }
                    if exists|x: Seq<u8>| #[trigger]
                        reaches(d.nested, covering_of(d, keys[i as int]), x) && has_repository(
                            d.nested,
                            x,
                            g,
                        ) {
                        let x = choose|x: Seq<u8>| #[trigger]
                            reaches(d.nested, covering_of(d, keys[i as int]), x) && has_repository(
                                d.nested,
                                x,
                                g,
                            );
                        assert(reaches(d.nested, covering_of(d, keys[i as int]), x));
                    }
                }
            }
            i += 1;
        }
        proof {
            let goal = repositories(d, folders);
            assert forall|g: Seq<u8>| #[trigger] git@.contains_key(g) <==> goal.contains_key(g) by {
                if git@.contains_key(g) {
                    let (j, x) = choose|j: int, x: Seq<u8>|
                        0 <= j < n && #[trigger] reaches(d.nested, covering_of(d, keys[j]), x)
                            && has_repository(d.nested, x, g);
                    assert(keys.contains(keys[j]));
                    assert(folders.contains_key(keys[j]));
                    assert(shown(d, folders).contains_key(x));
                }
                if goal.contains_key(g) {
                    let x = choose|x: Seq<u8>| #[trigger]
                        shown(d, folders).contains_key(x) && has_repository(d.nested, x, g);
                    let f = choose|f: Seq<u8>| #[trigger]
                        folders.contains_key(f) && reaches(d.nested, covering_of(d, f), x);
                    assert(keys.contains(f));
                    let j = keys.index_of(f);
                    assert(reaches(d.nested, covering_of(d, keys[j]), x));
                }
            }
            assert(git@ =~= goal);
        }
        self.git_boundaries = git;
    }
}

fn add_repositories(list: &Vec<Boundary>, out: &mut PathMap<()>)
    ensures
        final(out).order() == old(out).order(),
        forall|g: Seq<u8>| #[trigger]
            final(out)@.contains_key(g) <==> (old(out)@.contains_key(g)
                || workspace::boundary_views(list@).contains(
                BoundaryView { path: g, kind: BoundaryKind::Git },
            )),
{
    let ghost all = workspace::boundary_views(list@);
    let ghost start = out@;
    let mut i: usize = 0;
    while i < list.len()
        invariant
            i <= list@.len(),
            all == workspace::boundary_views(list@),
            out.order() == old(out).order(),
            forall|g: Seq<u8>| #[trigger]
                out@.contains_key(g) <==> (start.contains_key(g) || exists|j: int|
                    0 <= j < i && #[trigger] all[j] == (BoundaryView {
                        path: g,
                        kind: BoundaryKind::Git,
                    })),
        decreases list@.len() - i,
    {
        let ghost before = out@;
        assert(all[i as int] == list@[i as int]@);
        if list[i].kind == BoundaryKind::Git {
            out.insert(text::owned(list[i].path.as_str()), ());
        }
        proof {
            assert forall|g: Seq<u8>| #[trigger] out@.contains_key(g) <==> (start.contains_key(g)
                || exists|j: int|
                0 <= j < i + 1 && #[trigger] all[j] == (BoundaryView {
                    path: g,
                    kind: BoundaryKind::Git,
                })) by {
                assert(before.contains_key(g) <==> (start.contains_key(g) || exists|j: int|
                    0 <= j < i && #[trigger] all[j] == (BoundaryView {
                        path: g,
                        kind: BoundaryKind::Git,
                    })));
                if out@.contains_key(g) && !before.contains_key(g) {
                    assert(all[i as int] == (BoundaryView { path: g, kind: BoundaryKind::Git }));
                }
            }
        }
        i += 1;
    }
    proof {
        assert forall|g: Seq<u8>| #[trigger] out@.contains_key(g) <==> (start.contains_key(g)
            || all.contains(BoundaryView { path: g, kind: BoundaryKind::Git })) by {
            let b = BoundaryView { path: g, kind: BoundaryKind::Git };
            if all.contains(b) {
                assert(all[all.index_of(b)] == b);
            }
        }
    }
}

} // verus!

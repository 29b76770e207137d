//! The state of the server: the two-tier store, the scopes that markers declare,
//! and the views that are read from them.
use vstd::prelude::*;
use crate::config;
use crate::config::Config;
use crate::diagnostic;
use crate::diagnostic::{DiagView, Diagnostic, Severity};
use crate::overrides::{OverrideVerdicts, VerdictsView};
use crate::path;
use crate::pathmap::PathMap;
use crate::server::position::Range;
use crate::sorted;
use crate::sorted::{KeyOrder, SortedMap};
use crate::store;
use crate::store::{DocView, Document, DocumentStore, StoreView};
use crate::text;
use crate::uri;
use crate::workspace;
use crate::workspace::{Boundary, BoundaryKind, BoundaryView, FileData, FileView, Graph, WorkspaceView};

verus! {

/// Why a configuration could not be loaded: the error, and what it comes from.
#[derive(Debug)]
pub struct ConfigError {
    pub message: String,
    pub causes: Vec<String>,
}

/// The causes of an error behind what is said so far.
pub open spec fn with_causes(message: Seq<u8>, causes: Seq<Seq<u8>>) -> Seq<u8>
    decreases causes.len(),
{
    if causes.len() == 0 {
        message
    } else {
        with_causes(message, causes.drop_last()) + text::utf8(": "@) + causes.last()
    }
}

impl View for ConfigError {
    type V = Seq<u8>;

    /// What is said of the error.
    open spec fn view(&self) -> Seq<u8> {
        with_causes(text::utf8(self.message@), path::texts(self.causes@))
    }
}

/// A diagnostic as it is sent.
#[derive(Clone, Debug, PartialEq, Eq)]
pub struct SentDiagnostic {
    pub range: Range,
    pub severity: Severity,
    pub message: String,
}

/// A sent diagnostic, as text.
#[verifier::ext_equal]
pub struct SentView {
    pub range: Range,
    pub severity: Severity,
    pub message: Seq<u8>,
}

impl View for SentDiagnostic {
    type V = SentView;

    open spec fn view(&self) -> SentView {
        SentView { range: self.range, severity: self.severity, message: text::utf8(self.message@) }
    }
}

/// What a list of sent diagnostics says.
pub open spec fn sent_views(list: Seq<SentDiagnostic>) -> Seq<SentView> {
    list.map_values(|d: SentDiagnostic| d@)
}

/// What the client holds for one document.
#[derive(Debug)]
pub struct PublishedDiagnostics {
    /// The findings that were sent.
    pub lattice: Vec<Diagnostic>,
    /// Their form as it was sent.
    pub lsp: Vec<SentDiagnostic>,
}

/// What the client holds, as text.
#[verifier::ext_equal]
pub struct PublishedView {
    pub lattice: Seq<DiagView>,
    pub lsp: Seq<SentView>,
}

impl View for PublishedDiagnostics {
    type V = PublishedView;

    open spec fn view(&self) -> PublishedView {
        PublishedView { lattice: diagnostic::views(self.lattice@), lsp: sent_views(self.lsp@) }
    }
}

/// What is known of one scope root.
pub struct RootMeta {
    /// The root with symbolic links resolved.
    pub canonical_root: String,
    pub config: Config,
    /// Why the configuration could not be loaded, if it could not.
    pub config_error: Option<ConfigError>,
    /// Whether somebody wrote `config`: it was loaded, or there is none to load.
    pub config_committed: bool,
    /// Whether there is a configuration file.
    pub has_config: bool,
    /// The verdicts held since the last commitment.
    pub verdicts: OverrideVerdicts,
}

/// A scope root, as text.
#[verifier::ext_equal]
pub struct MetaView {
    pub canonical: Seq<u8>,
    pub config: Config,
    pub error: Option<Seq<u8>>,
    pub committed: bool,
    pub has_config: bool,
    pub verdicts: VerdictsView,
}

/// What is said of an error that may be missing.
pub open spec fn maybe_error(e: Option<ConfigError>) -> Option<Seq<u8>> {
    match e {
        Some(error) => Some(error@),
        None => None,
    }
}

impl View for RootMeta {
    type V = MetaView;

    open spec fn view(&self) -> MetaView {
        MetaView {
            canonical: path::named(self.canonical_root@),
            config: self.config,
            error: maybe_error(self.config_error),
            committed: self.config_committed,
            has_config: self.has_config,
            verdicts: self.verdicts@,
        }
    }
}

/// The roots of a map, as text.
pub open spec fn metas(map: Map<Seq<u8>, RootMeta>) -> Map<Seq<u8>, MetaView> {
    Map::new(|k: Seq<u8>| map.contains_key(k), |k: Seq<u8>| map[k]@)
}

/// What the client holds, by document.
pub open spec fn records(map: Map<Seq<u8>, PublishedDiagnostics>) -> Map<Seq<u8>, PublishedView> {
    Map::new(|k: Seq<u8>| map.contains_key(k), |k: Seq<u8>| map[k]@)
}

/// The state of the server.
pub struct Workspaces {
    pub store: DocumentStore,
    /// The scope roots.
    pub roots: PathMap<RootMeta>,
    /// The folders that the client opened.
    pub client_folders: PathMap<()>,
    /// Repositories inside scopes that belong to no scope.
    pub git_boundaries: PathMap<()>,
    /// What the client holds, by URI; documents without diagnostics are left out.
    pub published: SortedMap<PublishedDiagnostics>,
    /// The documents that the client has open.
    pub open_documents: PathMap<()>,
    /// What documents outside every scope are read under.
    pub default_config: Config,
}

/// The state of the server, as text.
#[verifier::ext_equal]
pub struct State {
    pub store: StoreView,
    pub roots: Map<Seq<u8>, MetaView>,
    pub folders: Map<Seq<u8>, ()>,
    pub git: Map<Seq<u8>, ()>,
    pub published: Map<Seq<u8>, PublishedView>,
    pub open: Map<Seq<u8>, ()>,
    pub default_config: Config,
}

impl View for Workspaces {
    type V = State;

    open spec fn view(&self) -> State {
        State {
            store: self.store@,
            roots: metas(self.roots@),
            folders: self.client_folders@,
            git: self.git_boundaries@,
            published: records(self.published@),
            open: self.open_documents@,
            default_config: self.default_config,
        }
    }
}

/// Whether every document of a store can be checked.
pub open spec fn docs_wf(docs: Map<Seq<u8>, DocView>) -> bool {
    forall|k: Seq<u8>| #[trigger] docs.contains_key(k) ==> docs[k].data.wf()
}

impl Workspaces {
    /// Maps are ordered as their keys compare, and every document can be checked.
    pub open spec fn wf(self) -> bool {
        &&& self.roots.order() == KeyOrder::Path
        &&& self.git_boundaries.order() == KeyOrder::Path
        &&& self.client_folders.order() == KeyOrder::Path
        &&& self.published.order() == KeyOrder::Bytes
        &&& docs_wf(self.store@.saved)
        &&& docs_wf(self.store@.overlay)
    }
}

// Placement.

/// Whether `root` is the longest of some directories that a path is or lies in.
pub open spec fn is_deepest(roots: Map<Seq<u8>, MetaView>, abs: Seq<u8>, root: Seq<u8>) -> bool {
    &&& roots.contains_key(root)
    &&& path::under(abs, root)
    &&& forall|r: Seq<u8>| #[trigger]
        roots.contains_key(r) && path::under(abs, r) ==> r.len() <= root.len()
}

/// Whether a boundary of its own lies between a root and a path below it.
pub open spec fn gated(git: Map<Seq<u8>, ()>, abs: Seq<u8>, root: Seq<u8>) -> bool {
    exists|g: Seq<u8>| #[trigger]
        git.contains_key(g) && path::under(abs, g) && !path::under(root, g)
}

/// The deepest of some roots over a path, unless a boundary below it cuts the
/// path off.
pub open spec fn placement_among(
    roots: Map<Seq<u8>, MetaView>,
    git: Map<Seq<u8>, ()>,
    abs: Seq<u8>,
) -> Option<Seq<u8>> {
    if exists|root: Seq<u8>| is_deepest(roots, abs, root) {
        let root = choose|root: Seq<u8>| is_deepest(roots, abs, root);
        if gated(git, abs, root) {
            None
        } else {
            Some(root)
        }
    } else {
        None
    }
}

/// The root that covers a path.
pub open spec fn placement(s: State, abs: Seq<u8>) -> Option<Seq<u8>> {
    placement_among(s.roots, s.git, abs)
}

/// What lies under a directory starts with it.
pub(crate) proof fn lemma_under_prefix(abs: Seq<u8>, root: Seq<u8>)
    requires
        path::under(abs, root),
    ensures
        root.len() <= abs.len(),
        root == abs.subrange(0, root.len() as int),
{
    if abs == root {
        assert(abs.subrange(0, root.len() as int) =~= root);
    } else if root.len() == 0 {
        assert(abs.subrange(0, 0) =~= root);
    }
}

/// There is one deepest root.
pub proof fn lemma_one_deepest(roots: Map<Seq<u8>, MetaView>, abs: Seq<u8>, a: Seq<u8>, b: Seq<u8>)
    requires
        is_deepest(roots, abs, a),
        is_deepest(roots, abs, b),
    ensures
        a == b,
{
    lemma_under_prefix(abs, a);
    lemma_under_prefix(abs, b);
    assert(a.len() <= b.len());
    assert(b.len() <= a.len());
}

/// The configuration of a placement.
pub open spec fn config_at(s: State, primary: Option<Seq<u8>>) -> Config {
    match primary {
        Some(root) if s.roots.contains_key(root) => s.roots[root].config,
        _ => s.default_config,
    }
}

/// The documents of a root, with its configuration.
pub open spec fn graph_over(s: State, root: Seq<u8>, files: Map<Seq<u8>, FileView>) -> Graph {
    Graph {
        root,
        config: config_at(s, Some(root)),
        has_config: s.roots.contains_key(root) && s.roots[root].has_config,
        files: store::filed(files),
        boundaries: boundaries_of(s, root),
    }
}

/// The roots among some directories that lie inside `root` and are no
/// repositories without a marker.
pub open spec fn inner_scopes(
    keys: Seq<Seq<u8>>,
    git: Map<Seq<u8>, ()>,
    root: Seq<u8>,
) -> Seq<BoundaryView>
    decreases keys.len(),
{
    if keys.len() == 0 {
        Seq::empty()
    } else {
        let rest = inner_scopes(keys.drop_last(), git, root);
        let k = keys.last();
        if k != root && path::under(k, root) && !git.contains_key(k) {
            rest.push(BoundaryView { path: k, kind: BoundaryKind::Scope })
        } else {
            rest
        }
    }
}

/// The repositories among some directories that lie inside `root`.
pub open spec fn inner_repositories(keys: Seq<Seq<u8>>, root: Seq<u8>) -> Seq<BoundaryView>
    decreases keys.len(),
{
    if keys.len() == 0 {
        Seq::empty()
    } else {
        let rest = inner_repositories(keys.drop_last(), root);
        let k = keys.last();
        if k != root && path::under(k, root) {
            rest.push(BoundaryView { path: k, kind: BoundaryKind::Git })
        } else {
            rest
        }
    }
}

/// The boundaries inside a root: scopes, then repositories.
pub open spec fn boundaries_of(s: State, root: Seq<u8>) -> Seq<BoundaryView> {
    inner_scopes(sorted::keys_of(KeyOrder::Path, s.roots), s.git, root) + inner_repositories(
        sorted::keys_of(KeyOrder::Path, s.git),
        root,
    )
}

// Single files.

/// Where the last component of a path starts.
pub open spec fn name_start(abs: Seq<u8>) -> int {
    path::last_sep(abs, abs.len() as int) + 1
}

/// Whether a path ends in the name of a file.
pub open spec fn names_a_file(abs: Seq<u8>) -> bool {
    let name = text::piece(abs, name_start(abs), abs.len() as int);
    name.len() > 0 && name != text::utf8("."@) && name != text::utf8(".."@)
}

/// The directory of a file, with its separator where it is the root of all.
pub open spec fn directory_of(abs: Seq<u8>) -> Seq<u8> {
    if !names_a_file(abs) {
        Seq::empty()
    } else if name_start(abs) == 1 {
        text::piece(abs, 0, 1)
    } else {
        text::piece(abs, 0, name_start(abs) - 1)
    }
}

/// The path that a document is known by: relative to its root, else its name.
pub open spec fn rel_of(abs: Seq<u8>, primary: Option<Seq<u8>>) -> Seq<u8> {
    match primary {
        Some(root) => if path::under(abs, root) {
            path::relative(abs, root)
        } else {
            abs
        },
        None => if names_a_file(abs) {
            path::normal_form(text::piece(abs, name_start(abs), abs.len() as int))
        } else {
            abs
        },
    }
}

/// The directory and the name of a file, where a path ends in one.
fn split_name<'a>(abs: &'a str) -> (r: Option<(&'a str, &'a str)>)
    ensures
        match r {
            Some((dir, name)) => names_a_file(text::utf8(abs@)) && text::utf8(dir@) == directory_of(
                text::utf8(abs@),
            ) && text::utf8(name@) == text::piece(
                text::utf8(abs@),
                name_start(text::utf8(abs@)),
                text::utf8(abs@).len() as int,
            ),
            None => !names_a_file(text::utf8(abs@)),
        },
{
    let b = abs.as_bytes();
    let mut n: usize = b.len();
    while n > 0 && b[n - 1] != sorted::SEP
        invariant
            n <= b@.len(),
            path::last_sep(b@, b@.len() as int) == path::last_sep(b@, n as int),
        decreases n,
    {
        n -= 1;
    }
    let name = text::slice(abs, n, b.len());
    proof {
        text::lemma_utf8_empty(name@);
        assert(n == name_start(b@));
    }
    if name.is_empty() || text::same(name, ".") || text::same(name, "..") {
        return None;
    }
    let dir = if n == 0 {
        text::slice(abs, 0, 0)
    } else if n == 1 {
        text::slice(abs, 0, 1)
    } else {
        text::slice(abs, 0, n - 1)
    };
    proof {
        if n == 0 {
            assert(text::piece(b@, 0, 0) =~= Seq::<u8>::empty());
            assert(text::piece(b@, 0, -1) =~= Seq::<u8>::empty());
        }
    }
    Some((dir, name))
}

/// The path that a document is known by.
pub fn document_rel(abs: &str, primary: &Option<String>) -> (r: String)
    ensures
        text::utf8(r@) == rel_of(path::named(abs@), store::maybe(*primary)),
        path::named(r@) == rel_of(path::named(abs@), store::maybe(*primary)),
{
    let whole = path::normal(abs);
    match primary {
        Some(root) => match path::strip_root(abs, root.as_str()) {
            Some(rel) => rel,
            None => whole,
        },
        None => match split_name(whole.as_str()) {
            Some((_, name)) => path::normal(name),
            None => whole,
        },
    }
}

/// The view of a document outside every scope: its directory, and it alone.
pub open spec fn single_graph(s: State, abs: Seq<u8>, data: FileView) -> Graph {
    Graph {
        root: path::normal_form(directory_of(abs)),
        config: s.default_config,
        has_config: false,
        files: store::filed(Map::empty().insert(rel_of(abs, None), data)),
        boundaries: Seq::empty(),
    }
}

// Resolution.

/// The document that diagnostics of a URI are computed for: its own perspective
/// under its root, and its path there.
pub open spec fn resolved(s: State, abs: Seq<u8>) -> Option<(Graph, Seq<u8>)> {
    if s.store.current().contains_key(abs) {
        match s.store.current()[abs].root {
            Some(root) if path::under(abs, root) => Some(
                (
                    graph_over(s, root, store::perspective(s.store, root, abs)),
                    path::relative(abs, root),
                ),
            ),
            _ => None,
        }
    } else {
        None
    }
}

/// The document that features of a URI read: the current documents of its root,
/// or itself alone.
pub open spec fn resolved_document(s: State, abs: Seq<u8>) -> Option<(Graph, Seq<u8>)> {
    if s.store.current().contains_key(abs) {
        match s.store.current()[abs].root {
            Some(root) => if path::under(abs, root) {
                Some(
                    (
                        graph_over(s, root, store::current_of(s.store, root)),
                        path::relative(abs, root),
                    ),
                )
            } else {
                None
            },
            None => Some(
                (single_graph(s, abs, s.store.current()[abs].data), rel_of(abs, None)),
            ),
        }
    } else {
        None
    }
}

/// The document that a request for a URI reads.
pub open spec fn document_of(s: State, uri: Seq<u8>) -> Option<FileView> {
    match resolved_document(s, uri::path_of(uri)) {
        Some((graph, rel)) => if graph.files@.contains_key(rel) {
            Some(graph.files@[rel])
        } else {
            None
        },
        None => None,
    }
}

/// Whether a state is that of a server that nothing was opened in.
pub open spec fn is_empty_state(s: State) -> bool {
    &&& s.store == (StoreView { saved: Map::empty(), overlay: Map::empty() })
    &&& s.roots == Map::<Seq<u8>, MetaView>::empty()
    &&& s.folders == Map::<Seq<u8>, ()>::empty()
    &&& s.git == Map::<Seq<u8>, ()>::empty()
    &&& s.published == Map::<Seq<u8>, PublishedView>::empty()
    &&& s.open == Map::<Seq<u8>, ()>::empty()
    &&& config::is_default(s.default_config)
}

impl Workspaces {
    /// An empty state.
    pub fn new() -> (w: Workspaces)
        ensures
            w.wf(),
            is_empty_state(w@),
    {
        let w = Workspaces {
            store: DocumentStore::new(),
            roots: PathMap::new(),
            client_folders: PathMap::new(),
            git_boundaries: PathMap::new(),
            published: SortedMap::new(KeyOrder::Bytes),
            open_documents: PathMap::new(),
            default_config: Config::default(),
        };
        assert(w@.roots =~= Map::empty());
        assert(w@.published =~= Map::empty());
        w
    }

    /// The deepest scope root over a path; none where there is none, or where a
    /// repository without a marker lies between the two.
    pub fn deepest_root_for(&self, abs: &str) -> (r: Option<String>)
        ensures
            store::maybe(r) == placement(self@, path::named(abs@)),
    {
        let ghost a = path::named(abs@);
        let ghost roots = self@.roots;
        let n = self.roots.len();
        let mut best: Option<&str> = None;
        let mut i: usize = 0;
        let ghost keys = self.roots.keys();
        self.roots.keys_ascend();
        while i < n
            invariant
                i <= n,
                n == keys.len(),
                keys == self.roots.keys(),
                roots == self@.roots,
                a == path::named(abs@),
                forall|k: Seq<u8>| #[trigger] keys.contains(k) <==> self.roots@.contains_key(k),
                match best {
                    Some(d) => {
                        &&& roots.contains_key(path::named(d@))
                        &&& text::utf8(d@) == path::named(d@)
                        &&& path::under(a, path::named(d@))
                        &&& forall|j: int|
                            0 <= j < i && path::under(a, #[trigger] keys[j]) ==> keys[j].len()
                                <= path::named(d@).len()
                    },
                    None => forall|j: int| 0 <= j < i ==> !path::under(a, #[trigger] keys[j]),
                },
            decreases n - i,
        {
            let key = self.roots.key_at(i);
            assert(keys.contains(keys[i as int]));
            if path::is_under(abs, key) {
                match best {
                    Some(d) => {
                        if key.as_bytes().len() > d.as_bytes().len() {
                            best = Some(key);
                        }
                    },
                    None => {
                        best = Some(key);
                    },
                }
            }
            i += 1;
        }
        proof {
            assert forall|k: Seq<u8>| #[trigger] roots.contains_key(k) implies exists|j: int|
                0 <= j < keys.len() && keys[j] == k by {
                assert(keys.contains(k));
            }
        }
        let Some(deepest) = best else {
            return None;
        };
        let ghost d = path::named(deepest@);
        proof {
            assert(is_deepest(roots, a, d)) by {
                assert forall|r: Seq<u8>| #[trigger]
                    roots.contains_key(r) && path::under(a, r) implies r.len() <= d.len() by {
                    let j = choose|j: int| 0 <= j < keys.len() && keys[j] == r;
                    assert(path::under(a, keys[j]));
                }
            }
            lemma_one_deepest(
                roots,
                a,
                d,
                choose|root: Seq<u8>| is_deepest(roots, a, root),
            );
        }
        let m = self.git_boundaries.len();
        let mut g: usize = 0;
        let ghost gits = self.git_boundaries.keys();
        self.git_boundaries.keys_ascend();
        while g < m
            invariant
                g <= m,
                m == gits.len(),
                gits == self.git_boundaries.keys(),
                a == path::named(abs@),
                d == path::named(deepest@),
                forall|k: Seq<u8>| #[trigger]
                    gits.contains(k) <==> self.git_boundaries@.contains_key(k),
                forall|j: int|
                    0 <= j < g ==> !(path::under(a, #[trigger] gits[j]) && !path::under(d, gits[j])),
                placement(self@, a) == (if gated(self@.git, a, d) {
                    None
                } else {
                    Some(d)
                }),
            decreases m - g,
        {
            let key = self.git_boundaries.key_at(g);
            if path::is_under(abs, key) && !path::is_under(deepest, key) {
                assert(gits.contains(gits[g as int]));
                assert(gated(self@.git, a, d));
                return None;
            }
            g += 1;
        }
        proof {
            if gated(self@.git, a, d) {
                let x = choose|x: Seq<u8>| #[trigger]
                    self@.git.contains_key(x) && path::under(a, x) && !path::under(d, x);
                assert(gits.contains(x));
                let j = gits.index_of(x);
                assert(path::under(a, gits[j]));
            }
        }
        Some(text::owned(deepest))
    }

    /// The paths of every document at or under a directory, in either tier.
    pub fn document_keys_under(&self, root: &str) -> (r: Vec<String>)
        ensures
            path::all_named(r@) == path::texts(r@),
            path::texts(r@) == sorted::keys_of(
                KeyOrder::Path,
                store::docs_under(self@.store.current(), path::named(root@)),
            ),
            sorted::is_key_list(
                KeyOrder::Path,
                path::all_named(r@),
                store::docs_under(self@.store.current(), path::named(root@)),
            ),
    {
        self.store.keys_under(root)
    }

    /// The configuration of a placement: that of the root, else the default.
    pub fn config_for(&self, primary: &Option<String>) -> (r: &Config)
        ensures
            *r == config_at(self@, store::maybe(*primary)),
    {
        Self::config_of(&self.roots, &self.default_config, primary)
    }

    /// The configuration of a placement among some roots.
    pub fn config_of<'a>(
        roots: &'a PathMap<RootMeta>,
        default_config: &'a Config,
        primary: &Option<String>,
    ) -> (r: &'a Config)
        ensures
            *r == (match store::maybe(*primary) {
                Some(root) if roots@.contains_key(root) => roots@[root].config,
                _ => *default_config,
            }),
    {
        match primary {
            Some(root) => match roots.get(root.as_str()) {
                Some(meta) => &meta.config,
                None => default_config,
            },
            None => default_config,
        }
    }

    /// The boundaries strictly inside a root: every scope root there, and every
    /// repository without a marker. A directory that is both is a repository.
    pub fn boundaries_under(&self, root: &str) -> (r: Vec<Boundary>)
        requires
            self.wf(),
        ensures
            workspace::boundary_views(r@) == boundaries_of(self@, path::named(root@)),
    {
        let ghost rt = path::named(root@);
        let mut out: Vec<Boundary> = Vec::new();
        let n = self.roots.len();
        let mut i: usize = 0;
        let ghost keys = self.roots.keys();
        self.roots.keys_ascend();
        self.git_boundaries.keys_ascend();
        proof {
            sorted::lemma_keys_of(KeyOrder::Path, keys, self@.roots);
            sorted::lemma_keys_of(KeyOrder::Path, self.git_boundaries.keys(), self@.git);
            assert(keys.take(0) =~= Seq::<Seq<u8>>::empty());
            assert(workspace::boundary_views(out@) =~= Seq::<BoundaryView>::empty());
        }
        while i < n
            invariant
                i <= n,
                n == keys.len(),
                keys == self.roots.keys(),
                rt == path::named(root@),
                workspace::boundary_views(out@) == inner_scopes(keys.take(i as int), self@.git, rt),
            decreases n - i,
        {
            let key = self.roots.key_at(i);
            let ghost so_far = workspace::boundary_views(out@);
            assert(keys.take(i + 1).drop_last() =~= keys.take(i as int));
            if !path::same_path(key, root) && path::is_under(key, root)
                && !self.git_boundaries.contains_key(key) {
                let b = Boundary { path: text::owned(key), kind: BoundaryKind::Scope };
                out.push(b);
                assert(workspace::boundary_views(out@) =~= so_far.push(b@));
            }
            i += 1;
        }
        assert(keys.take(i as int) =~= keys);
        let ghost scopes = workspace::boundary_views(out@);
        let ghost gits = self.git_boundaries.keys();
        let m = self.git_boundaries.len();
        let mut g: usize = 0;
        assert(gits.take(0) =~= Seq::<Seq<u8>>::empty());
        assert(scopes + Seq::<BoundaryView>::empty() =~= scopes);
        while g < m
            invariant
                g <= m,
                m == gits.len(),
                gits == self.git_boundaries.keys(),
                rt == path::named(root@),
                workspace::boundary_views(out@) == scopes + inner_repositories(gits.take(g as int), rt),
            decreases m - g,
        {
            let key = self.git_boundaries.key_at(g);
            let ghost so_far = workspace::boundary_views(out@);
            let ghost before = inner_repositories(gits.take(g as int), rt);
            assert(gits.take(g + 1).drop_last() =~= gits.take(g as int));
            if !path::same_path(key, root) && path::is_under(key, root) {
                let b = Boundary { path: text::owned(key), kind: BoundaryKind::Git };
                out.push(b);
                assert(workspace::boundary_views(out@) =~= so_far.push(b@));
                assert((scopes + before).push(b@) =~= scopes + before.push(b@));
            }
            g += 1;
        }
        assert(gits.take(g as int) =~= gits);
        out
    }

    /// The view of a root over some of its documents.
    pub fn view_over<'a>(&'a self, root: &str, files: PathMap<&'a FileData>) -> (r:
        WorkspaceView<'a>)
        requires
            self.wf(),
        ensures
            r@ == (Graph {
                root: path::named(root@),
                config: config_at(self@, Some(path::named(root@))),
                has_config: self@.roots.contains_key(path::named(root@))
                    && self@.roots[path::named(root@)].has_config,
                files: workspace::files_view(files),
                boundaries: boundaries_of(self@, path::named(root@)),
            }),
    {
        let boundaries = self.boundaries_under(root);
        match self.roots.get(root) {
            Some(meta) => WorkspaceView {
                root: path::normal(root),
                config: &meta.config,
                has_config: meta.has_config,
                files,
                boundaries,
            },
            None => WorkspaceView {
                root: path::normal(root),
                config: &self.default_config,
                has_config: false,
                files,
                boundaries,
            },
        }
    }

    /// The saved documents of a root.
    pub fn saved_view(&self, root: &str) -> (r: WorkspaceView<'_>)
        requires
            self.wf(),
        ensures
            r@ == graph_over(
                self@,
                path::named(root@),
                store::files_of(self@.store.saved, path::named(root@)),
            ),
            workspace::boundary_views(r.boundaries@) == boundaries_of(self@, path::named(root@)),
    {
        self.view_over(root, self.store.saved_files(root))
    }

    /// The perspective of one document: the saved documents of a root, with its
    /// own buffer in the place of its saved copy.
    pub fn perspective_view(&self, root: &str, focus: &str) -> (r: WorkspaceView<'_>)
        requires
            self.wf(),
        ensures
            r@ == graph_over(
                self@,
                path::named(root@),
                store::perspective(self@.store, path::named(root@), path::named(focus@)),
            ),
            workspace::boundary_views(r.boundaries@) == boundaries_of(self@, path::named(root@)),
    {
        self.view_over(root, self.store.perspective_files(root, focus))
    }

    /// The documents of a root at their current text.
    pub fn current_view(&self, root: &str) -> (r: WorkspaceView<'_>)
        requires
            self.wf(),
        ensures
            r@ == graph_over(
                self@,
                path::named(root@),
                store::current_of(self@.store, path::named(root@)),
            ),
            workspace::boundary_views(r.boundaries@) == boundaries_of(self@, path::named(root@)),
    {
        self.view_over(root, self.store.current_files(root))
    }

    /// The view of one document outside every scope.
    pub fn single_file_view<'a>(&'a self, abs: &str, doc: &'a Document) -> (r: WorkspaceView<'a>)
        ensures
            r@ == single_graph(self@, path::named(abs@), doc@.data),
            r.boundaries@.len() == 0,
    {
        let whole = path::normal(abs);
        let root = match split_name(whole.as_str()) {
            Some((dir, _)) => path::normal(dir),
            None => {
                let r = String::new();
                assert(text::utf8(r@) =~= Seq::<u8>::empty());
                r
            },
        };
        let mut files: PathMap<&FileData> = PathMap::new();
        let rel = document_rel(abs, &None);
        let ghost k = text::utf8(rel@);
        files.insert(rel, &doc.data);
        store::files_in_order(&files);
        assert(store::data_views(files@) =~= Map::empty().insert(k, doc@.data));
        WorkspaceView {
            root,
            config: &self.default_config,
            has_config: false,
            files,
            boundaries: Vec::new(),
        }
    }

    /// The view and the path for the diagnostics of a URI; none for a document
    /// outside every scope, or an unknown one.
    pub fn resolve(&self, uri: &str) -> (r: Option<(WorkspaceView<'_>, String)>)
        requires
            self.wf(),
        ensures
            match r {
                Some((view, rel)) => resolved(self@, uri::path_of(text::utf8(uri@))) == Some(
                    (view@, text::utf8(rel@)),
                ) && path::named(rel@) == text::utf8(rel@),
                None => resolved(self@, uri::path_of(text::utf8(uri@))) is None,
            },
    {
        let abs = uri::uri_to_path(uri);
        let Some(doc) = self.store.current(abs.as_str()) else {
            return None;
        };
        let Some(root) = &doc.primary_root else {
            return None;
        };
        let Some(rel) = path::strip_root(abs.as_str(), root.as_str()) else {
            return None;
        };
        let view = self.perspective_view(root.as_str(), abs.as_str());
        Some((view, rel))
    }

    /// The view and the path for the features of a URI, at current text.
    pub fn resolve_document(&self, uri: &str) -> (r: Option<(WorkspaceView<'_>, String)>)
        requires
            self.wf(),
        ensures
            match r {
                Some((view, rel)) => resolved_document(self@, uri::path_of(text::utf8(uri@)))
                    == Some((view@, text::utf8(rel@))) && path::named(rel@) == text::utf8(rel@),
                None => resolved_document(self@, uri::path_of(text::utf8(uri@))) is None,
            },
    {
        let abs = uri::uri_to_path(uri);
        let Some(doc) = self.store.current(abs.as_str()) else {
            return None;
        };
        match &doc.primary_root {
            Some(root) => {
                let Some(rel) = path::strip_root(abs.as_str(), root.as_str()) else {
                    return None;
                };
                let view = self.current_view(root.as_str());
                Some((view, rel))
            },
            None => {
                let view = self.single_file_view(abs.as_str(), doc);
                Some((view, document_rel(abs.as_str(), &None)))
            },
        }
    }
}

pub(crate) proof fn lemma_files_finite(docs: Map<Seq<u8>, DocView>, root: Seq<u8>)
    requires
        docs.dom().finite(),
    ensures
        store::files_of(docs, root).dom().finite(),
{
    let names = docs.dom().map(|k: Seq<u8>| path::relative(k, root));
    docs.dom().lemma_map_finite(|k: Seq<u8>| path::relative(k, root));
    assert forall|rel: Seq<u8>| store::files_of(docs, root).dom().contains(
        rel,
    ) implies names.contains(rel) by {
        path::lemma_absolute(root, rel);
        assert(docs.dom().contains(path::absolute(root, rel)));
    }
    vstd::set_lib::lemma_set_subset_finite(names, store::files_of(docs, root).dom());
}

/// A request reads the current text of the document that its URI names: its buffer
/// if it has one, else its saved copy.
pub proof fn law_requests_read_the_current_text(s: State, uri: Seq<u8>)
    requires
        s.store.saved.dom().finite(),
        s.store.overlay.dom().finite(),
        s.store.current().contains_key(uri::path_of(uri)),
        s.store.current()[uri::path_of(uri)].root matches Some(root) ==> path::under(
            uri::path_of(uri),
            root,
        ),
    ensures
        document_of(s, uri) == Some(s.store.current()[uri::path_of(uri)].data),
        s.store.overlay.contains_key(uri::path_of(uri)) ==> document_of(s, uri) == Some(
            s.store.overlay[uri::path_of(uri)].data,
        ),
        !s.store.overlay.contains_key(uri::path_of(uri)) ==> document_of(s, uri) == Some(
            s.store.saved[uri::path_of(uri)].data,
        ),
{
    let abs = uri::path_of(uri);
    let doc = s.store.current()[abs];
    let files = match doc.root {
        Some(root) => store::current_of(s.store, root),
        None => Map::empty().insert(rel_of(abs, None), doc.data),
    };
    let rel = match doc.root {
        Some(root) => path::relative(abs, root),
        None => rel_of(abs, None),
    };
    if let Some(root) = doc.root {
        path::lemma_relative(abs, root);
        let a = store::files_of(s.store.saved, root);
        let b = store::files_of(s.store.overlay, root);
        lemma_files_finite(s.store.saved, root);
        lemma_files_finite(s.store.overlay, root);
        assert(files.dom() =~= a.dom().union(b.dom()));
    }
    assert(files.contains_key(rel) && files[rel] == doc.data);
    let names = sorted::keys_of(KeyOrder::Path, files);
    sorted::lemma_keys_listed(KeyOrder::Path, files);
    assert(names.contains(rel));
    assert(names[names.index_of(rel)] == rel);
}

} // verus!

//! What is known of the documents of a workspace.
use vstd::prelude::*;
use crate::block::Tree;
use crate::config;
use crate::config::Config;
use crate::diagnostic;
use crate::diagnostic::{DiagView, Diagnostic};
use crate::fm::Exceptions;
use crate::path;
use crate::pathmap;
use crate::pathmap::PathMap;
use crate::span::Span;
use crate::structural::ledger::{FileSuppressions, SuppressionView};
use crate::text;

verus! {

/// Where a link leads.
#[derive(Debug)]
pub enum LinkKind {
    /// Out of the project.
    External,
    /// To an anchor of the same document.
    IntraDocument { anchor: String },
    /// To a file that is no markdown document.
    NonMarkdown { target: String },
    /// To a document of the project. Targets are workspace-relative.
    IntraProject {
        target: String,
        fragment: Option<String>,
        predicate: String,
        explicit_predicate: bool,
    },
}

/// A link of a document.
#[derive(Debug)]
pub struct Link {
    pub kind: LinkKind,
    /// Line number, from 1.
    pub line: usize,
    pub span: Span,
}

/// The anchors of a heading.
#[derive(Debug)]
pub enum HeadingId {
    /// Written out behind the heading.
    Explicit(String),
    /// As each renderer computes it.
    Computed { github: String, gitlab: String, vscode: String },
}

/// A heading of a document.
#[derive(Debug)]
pub struct Heading {
    pub id: HeadingId,
    pub line: usize,
    pub text_span: Span,
}

/// The documents that frontmatter names under one predicate.
#[derive(Debug)]
pub struct Backlinks {
    pub predicate: String,
    /// Line of the predicate, from 1.
    pub line: usize,
    /// Paths relative to the document.
    pub sources: Vec<String>,
}

/// The frontmatter of a document.
#[derive(Debug)]
pub struct Frontmatter {
    pub start_line: usize,
    pub backlinks: Vec<Backlinks>,
}

/// A predicate in frontmatter that the project does not know.
#[derive(Debug)]
pub struct BacklinkDiagnostic {
    pub line: usize,
    pub predicate: String,
}

/// What is known of one document.
#[derive(Debug)]
pub struct FileData {
    pub tree: Tree,
    pub links: Vec<Link>,
    pub headings: Vec<Heading>,
    /// The identifiers of raw HTML anchors.
    pub anchors: Vec<String>,
    pub frontmatter: Option<Frontmatter>,
    pub exceptions: Exceptions,
    /// What is wrong with the document's frontmatter: its parse errors and the like.
    pub metadata: Vec<Diagnostic>,
    pub backlink_diagnostics: Vec<BacklinkDiagnostic>,
    /// The structural findings, as last computed.
    pub structural: Vec<Diagnostic>,
    /// What the document's exceptions suppressed, as last computed.
    pub suppressions: FileSuppressions,
}

/// What divides one scope from another.
#[derive(Clone, Copy, Debug, PartialEq, Eq, Structural)]
pub enum BoundaryKind {
    /// A directory with a configuration of its own.
    Scope,
    /// A repository without one.
    Git,
}

/// A directory that is foreign to the scope around it.
#[derive(Clone, Debug, PartialEq, Eq)]
pub struct Boundary {
    pub path: String,
    pub kind: BoundaryKind,
}

/// A boundary, as text.
#[verifier::ext_equal]
pub struct BoundaryView {
    pub path: Seq<u8>,
    pub kind: BoundaryKind,
}

impl View for Boundary {
    type V = BoundaryView;

    open spec fn view(&self) -> BoundaryView {
        BoundaryView { path: path::named(self.path@), kind: self.kind }
    }
}

/// What a list of boundaries says.
pub open spec fn boundary_views(list: Seq<Boundary>) -> Seq<BoundaryView> {
    list.map_values(|b: Boundary| b@)
}

/// The documents of one scope, each under its path relative to the root.
pub struct WorkspaceView<'a> {
    pub root: String,
    pub config: &'a Config,
    /// Whether the scope has a configuration file.
    pub has_config: bool,
    pub files: PathMap<&'a FileData>,
    pub boundaries: Vec<Boundary>,
}

/// An unknown predicate, as text.
#[verifier::ext_equal]
pub struct Unknown {
    pub line: nat,
    pub predicate: Seq<u8>,
}

/// What a list of unknown predicates says.
pub open spec fn unknowns(list: Seq<BacklinkDiagnostic>) -> Seq<Unknown> {
    list.map_values(
        |d: BacklinkDiagnostic| Unknown { line: d.line as nat, predicate: text::utf8(d.predicate@) },
    )
}

/// What is known of one document: what was read out of its text, and what was
/// computed from that.
#[verifier::ext_equal]
pub struct FileView {
    pub tree: Tree,
    pub links: Vec<Link>,
    pub headings: Vec<Heading>,
    pub anchors: Vec<String>,
    pub frontmatter: Option<Frontmatter>,
    pub exceptions: Exceptions,
    pub metadata: Vec<Diagnostic>,
    pub unknown: Seq<Unknown>,
    pub structural: Seq<DiagView>,
    pub suppressions: SuppressionView,
}

impl FileView {
    /// Whether the document can be checked: its tree is well-formed and its
    /// exceptions can be counted.
    pub open spec fn wf(self) -> bool {
        self.tree.wf() && self.exceptions.countable()
    }
}

impl View for FileData {
    type V = FileView;

    open spec fn view(&self) -> FileView {
        FileView {
            tree: self.tree,
            links: self.links,
            headings: self.headings,
            anchors: self.anchors,
            frontmatter: self.frontmatter,
            exceptions: self.exceptions,
            metadata: self.metadata,
            unknown: unknowns(self.backlink_diagnostics@),
            structural: diagnostic::views(self.structural@),
            suppressions: self.suppressions@,
        }
    }
}

/// Documents under their names, in the order of the names.
#[verifier::ext_equal]
pub struct Files {
    pub names: Seq<Seq<u8>>,
    pub data: Seq<FileView>,
}

impl Files {
    pub open spec fn keys(self) -> Seq<Seq<u8>> {
        self.names
    }

    pub open spec fn values(self) -> Seq<FileView> {
        self.data
    }

    /// The map from names to documents.
    pub open spec fn view(self) -> Map<Seq<u8>, FileView> {
        Map::new(
            |k: Seq<u8>| self.names.contains(k),
            |k: Seq<u8>| self.data[self.names.index_of(k)],
        )
    }
}

/// The documents of one scope, as text.
#[verifier::ext_equal]
pub struct Graph {
    pub root: Seq<u8>,
    pub config: Config,
    pub has_config: bool,
    pub files: Files,
    pub boundaries: Seq<BoundaryView>,
}

/// The documents of a map.
pub open spec fn files_view(files: PathMap<&FileData>) -> Files {
    Files { names: files.keys(), data: files.values().map_values(|d: &FileData| d@) }
}

impl<'a> View for WorkspaceView<'a> {
    type V = Graph;

    open spec fn view(&self) -> Graph {
        Graph {
            root: path::named(self.root@),
            config: *self.config,
            has_config: self.has_config,
            files: files_view(self.files),
            boundaries: boundary_views(self.boundaries@),
        }
    }
}

impl<'a> WorkspaceView<'a> {
    /// The document under a path relative to the root.
    pub fn file(&self, rel: &str) -> (r: Option<&'a FileData>)
        ensures
            match r {
                Some(data) => self@.files@.contains_key(path::named(rel@)) && data@
                    == self@.files@[path::named(rel@)],
                None => !self@.files@.contains_key(path::named(rel@)),
            },
    {
        broadcast use pathmap::lemma_path_values_len;

        match self.files.get(rel) {
            Some(data) => {
                assert(self.files.keys().contains(path::named(rel@)));
                Some(*data)
            },
            None => None,
        }
    }
}

// Predicates.

/// The predicates in some frontmatter that a vocabulary does not have.
pub open spec fn unknown_among(list: Seq<Backlinks>, config: Config) -> Seq<Unknown>
    decreases list.len(),
{
    if list.len() == 0 {
        Seq::empty()
    } else {
        let rest = unknown_among(list.drop_last(), config);
        if config.opposite(text::utf8(list.last().predicate@)) is None {
            rest.push(
                Unknown {
                    line: list.last().line as nat,
                    predicate: text::utf8(list.last().predicate@),
                },
            )
        } else {
            rest
        }
    }
}

/// The predicates of a document that a configuration does not know.
pub open spec fn unknown_in(frontmatter: Option<Frontmatter>, config: Config) -> Seq<Unknown> {
    match frontmatter {
        Some(fm) => unknown_among(fm.backlinks@, config),
        None => Seq::empty(),
    }
}

/// Find the predicates of a document that a configuration does not know.
pub fn unknown_predicates(frontmatter: &Option<Frontmatter>, config: &Config) -> (r: Vec<
    BacklinkDiagnostic,
>)
    ensures
        unknowns(r@) == unknown_in(*frontmatter, *config),
{
    let mut r: Vec<BacklinkDiagnostic> = Vec::new();
    assert(unknowns(r@) =~= Seq::<Unknown>::empty());
    let Some(fm) = frontmatter else {
        return r;
    };
    let list = &fm.backlinks;
    let mut i: usize = 0;
    assert(list@.take(0) =~= Seq::<Backlinks>::empty());
    while i < list.len()
        invariant
            i <= list@.len(),
            unknowns(r@) == unknown_among(list@.take(i as int), *config),
        decreases list@.len() - i,
    {
        let ghost so_far = unknowns(r@);
        assert(list@.take(i + 1).drop_last() =~= list@.take(i as int));
        if !config.is_known_predicate(list[i].predicate.as_str()) {
            let d = BacklinkDiagnostic {
                line: list[i].line,
                predicate: text::owned(list[i].predicate.as_str()),
            };
            r.push(d);
            assert(unknowns(r@) =~= so_far.push(
                Unknown { line: d.line as nat, predicate: text::utf8(d.predicate@) },
            ));
        }
        i += 1;
    }
    assert(list@.take(i as int) =~= list@);
    r
}

/// A document as it reads under a configuration.
pub open spec fn read_under(data: FileView, config: Config) -> FileView {
    FileView { unknown: unknown_in(data.frontmatter, config), ..data }
}

/// Read a document under a configuration.
pub fn read_with(data: FileData, config: &Config) -> (r: FileData)
    ensures
        r@ == read_under(data@, *config),
{
    let mut data = data;
    data.backlink_diagnostics = unknown_predicates(&data.frontmatter, config);
    data
}

/// What does not depend on the predicates of a configuration does not change
/// with it: two configurations with one vocabulary find the same unknown
/// predicates.
pub proof fn law_one_vocabulary_one_verdict(
    frontmatter: Option<Frontmatter>,
    a: Config,
    b: Config,
)
    requires
        config::vocabulary(a) == config::vocabulary(b),
    ensures
        unknown_in(frontmatter, a) == unknown_in(frontmatter, b),
{
    if let Some(fm) = frontmatter {
        lemma_one_vocabulary(fm.backlinks@, a, b);
    }
}

proof fn lemma_one_vocabulary(list: Seq<Backlinks>, a: Config, b: Config)
    requires
        config::vocabulary(a) == config::vocabulary(b),
    ensures
        unknown_among(list, a) == unknown_among(list, b),
    decreases list.len(),
{
    if list.len() > 0 {
        lemma_one_vocabulary(list.drop_last(), a, b);
        config::lemma_same_vocabulary(a, b, text::utf8(list.last().predicate@));
    }
}

} // verus!

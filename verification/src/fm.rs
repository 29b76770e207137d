//! Frontmatter data: the parsed block and the exceptions it declares.
use vstd::prelude::*;
use crate::span::Span;
use crate::text;

verus! {

/// The lints that a frontmatter exception can name.
#[derive(Clone, Copy, Debug, PartialEq, Eq, Structural)]
pub enum ExceptionLint {
    /// References to files that do not exist.
    StaleReferences,
    /// Mentions of files that are not links.
    BarePaths,
}

impl ExceptionLint {
    /// The key under `exceptions` in frontmatter.
    pub open spec fn key_text(self) -> Seq<u8> {
        match self {
            ExceptionLint::StaleReferences => text::utf8("stale_references"@),
            ExceptionLint::BarePaths => text::utf8("bare_paths"@),
        }
    }

    /// What the lint counts, in words.
    pub open spec fn noun_text(self) -> Seq<u8> {
        match self {
            ExceptionLint::StaleReferences => text::utf8("stale references"@),
            ExceptionLint::BarePaths => text::utf8("bare paths"@),
        }
    }

    /// The key under `exceptions` in frontmatter.
    pub fn key(&self) -> (r: &'static str)
        ensures
            text::utf8(r@) == self.key_text(),
    {
        match self {
            ExceptionLint::StaleReferences => "stale_references",
            ExceptionLint::BarePaths => "bare_paths",
        }
    }

    /// What the lint counts, in words.
    pub fn noun(&self) -> (r: &'static str)
        ensures
            text::utf8(r@) == self.noun_text(),
    {
        match self {
            ExceptionLint::StaleReferences => "stale references",
            ExceptionLint::BarePaths => "bare paths",
        }
    }
}

/// One declared exception: a reference that is not a live one, and why.
#[derive(Clone, Debug, PartialEq, Eq)]
pub struct ExceptionEntry {
    /// The reference as written in the document.
    pub reference: String,
    /// The stored reason.
    pub reason: String,
    /// Line of the key, from 1.
    pub line: usize,
    /// Byte span of the key.
    pub key_span: Span,
}

/// A declared number of expected findings.
#[derive(Clone, Debug, PartialEq, Eq)]
pub struct CountKey {
    /// The expected number.
    pub expected: usize,
    /// The key as written.
    pub raw: String,
    /// The shared reason.
    pub reason: String,
    /// Line of the key, from 1.
    pub line: usize,
    /// Byte span of the key.
    pub key_span: Span,
}

/// The `exceptions` block of one file.
#[derive(Clone, Debug, PartialEq, Eq)]
pub struct Exceptions {
    pub stale_references: Vec<ExceptionEntry>,
    pub bare_paths: Vec<ExceptionEntry>,
    pub stale_references_count: Option<CountKey>,
    pub bare_paths_count: Option<CountKey>,
}

impl Exceptions {
    /// The entries of a lint.
    pub open spec fn entries_of(self, lint: ExceptionLint) -> Seq<ExceptionEntry> {
        match lint {
            ExceptionLint::StaleReferences => self.stale_references@,
            ExceptionLint::BarePaths => self.bare_paths@,
        }
    }

    /// The count-key of a lint.
    pub open spec fn count_of(self, lint: ExceptionLint) -> Option<CountKey> {
        match lint {
            ExceptionLint::StaleReferences => self.stale_references_count,
            ExceptionLint::BarePaths => self.bare_paths_count,
        }
    }

    /// The number of entries fits in a machine word.
    pub open spec fn countable(self) -> bool {
        self.stale_references@.len() + self.bare_paths@.len() <= usize::MAX
    }

    /// The entries of a lint, in source order.
    pub fn entries(&self, lint: ExceptionLint) -> (r: &Vec<ExceptionEntry>)
        ensures
            r@ == self.entries_of(lint),
    {
        match lint {
            ExceptionLint::StaleReferences => &self.stale_references,
            ExceptionLint::BarePaths => &self.bare_paths,
        }
    }

    /// The count-key of a lint.
    pub fn count_key(&self, lint: ExceptionLint) -> (r: &Option<CountKey>)
        ensures
            *r == self.count_of(lint),
    {
        match lint {
            ExceptionLint::StaleReferences => &self.stale_references_count,
            ExceptionLint::BarePaths => &self.bare_paths_count,
        }
    }
}

impl Default for Exceptions {
    fn default() -> (r: Exceptions)
        ensures
            r.stale_references@ == Seq::<ExceptionEntry>::empty(),
            r.bare_paths@ == Seq::<ExceptionEntry>::empty(),
            r.stale_references_count is None,
            r.bare_paths_count is None,
    {
        Exceptions {
            stale_references: Vec::new(),
            bare_paths: Vec::new(),
            stale_references_count: None,
            bare_paths_count: None,
        }
    }
}

// The parsed block.

/// A piece of frontmatter text and where it stands.
#[derive(Clone, Debug, PartialEq, Eq)]
pub struct ScalarSpan {
    pub span: Span,
    pub text: String,
}

/// A frontmatter value.
#[derive(Debug)]
pub enum FmValue {
    Scalar(ScalarSpan),
    /// An inline list of scalars.
    FlowSequence { span: Span, items: Vec<ScalarSpan> },
    Sequence(Vec<FmNode>),
    Mapping(Vec<FmNode>),
}

/// A frontmatter entry.
#[derive(Debug)]
pub enum FmNode {
    Mapping { key: ScalarSpan, value: FmValue, span: Span },
    SequenceItem { value: FmValue, span: Span },
}

/// How serious a finding about frontmatter is.
#[derive(Clone, Copy, Debug, PartialEq, Eq, Structural)]
pub enum FmSeverity {
    Error,
    Warning,
}

/// A finding about frontmatter.
#[derive(Clone, Debug, PartialEq, Eq)]
pub struct FmDiagnostic {
    pub span: Span,
    pub severity: FmSeverity,
    pub message: String,
}

/// A parsed frontmatter block.
#[derive(Debug)]
pub struct FrontmatterBlock {
    /// The block with its delimiters.
    pub span: Span,
    /// What stands between the delimiters.
    pub content_span: Span,
    pub entries: Vec<FmNode>,
    pub diagnostics: Vec<FmDiagnostic>,
}

/// What a scalar says.
#[verifier::ext_equal]
pub struct ScalarView {
    pub span: Span,
    pub text: Seq<u8>,
}

/// What a value says.
#[verifier::ext_equal]
pub enum ValueView {
    Scalar(ScalarView),
    FlowSequence { span: Span, items: Seq<ScalarView> },
    Sequence(Seq<NodeView>),
    Mapping(Seq<NodeView>),
}

/// What an entry says.
#[verifier::ext_equal]
pub enum NodeView {
    Mapping { key: ScalarView, value: ValueView, span: Span },
    SequenceItem { value: ValueView, span: Span },
}

/// What a finding says.
#[verifier::ext_equal]
pub struct FmDiagView {
    pub span: Span,
    pub severity: FmSeverity,
    pub message: Seq<u8>,
}

pub open spec fn scalar_view(s: ScalarSpan) -> ScalarView {
    ScalarView { span: s.span, text: text::utf8(s.text@) }
}

pub open spec fn scalar_views(list: Seq<ScalarSpan>) -> Seq<ScalarView> {
    list.map_values(|s: ScalarSpan| scalar_view(s))
}

pub open spec fn value_view(v: FmValue) -> ValueView
    decreases v,
{
    match v {
        FmValue::Scalar(s) => ValueView::Scalar(scalar_view(s)),
        FmValue::FlowSequence { span, items } => ValueView::FlowSequence {
            span,
            items: scalar_views(items@),
        },
        FmValue::Sequence(list) => ValueView::Sequence(node_views(list@)),
        FmValue::Mapping(list) => ValueView::Mapping(node_views(list@)),
    }
}

pub open spec fn node_views(list: Seq<FmNode>) -> Seq<NodeView>
    decreases list,
{
    Seq::new(
        list.len(),
        |i: int|
            if 0 <= i < list.len() {
                node_view(list[i])
            } else {
                arbitrary()
            },
    )
}

pub open spec fn node_view(n: FmNode) -> NodeView
    decreases n,
{
    match n {
        FmNode::Mapping { key, value, span } => NodeView::Mapping {
            key: scalar_view(key),
            value: value_view(value),
            span,
        },
        FmNode::SequenceItem { value, span } => NodeView::SequenceItem {
            value: value_view(value),
            span,
        },
    }
}

pub open spec fn fm_diag_view(d: FmDiagnostic) -> FmDiagView {
    FmDiagView { span: d.span, severity: d.severity, message: text::utf8(d.message@) }
}

pub open spec fn fm_diag_views(list: Seq<FmDiagnostic>) -> Seq<FmDiagView> {
    list.map_values(|d: FmDiagnostic| fm_diag_view(d))
}

/// One more entry is one more view.
pub proof fn lemma_node_views_push(list: Seq<FmNode>, n: FmNode)
    ensures
        node_views(list.push(n)) == node_views(list).push(node_view(n)),
{
    assert(node_views(list.push(n)) =~= node_views(list).push(node_view(n)));
}

impl ScalarSpan {
    /// A scalar that says the same.
    pub fn copied(&self) -> (r: ScalarSpan)
        ensures
            scalar_view(r) == scalar_view(*self),
    {
        ScalarSpan { span: self.span, text: self.text.clone() }
    }
}

/// The length of a byte-order mark at the start of a text.
pub open spec fn bom_len(b: Seq<u8>) -> int {
    if b.len() >= 3 && b[0] == 0xEF && b[1] == 0xBB && b[2] == 0xBF {
        3
    } else {
        0
    }
}

/// The length of a byte-order mark at the start of a text.
pub fn strip_bom(source: &str) -> (r: usize)
    ensures
        r == bom_len(text::utf8(source@)),
        r <= text::utf8(source@).len(),
{
    let b = source.as_bytes();
    if b.len() >= 3 && b[0] == 0xEF && b[1] == 0xBB && b[2] == 0xBF {
        3
    } else {
        0
    }
}

} // verus!

//! The parsed document: a flat list of nodes over the source text.
use vstd::prelude::*;
use crate::span::Span;
use crate::text;

verus! {

/// Whether a node was written as markdown or as HTML.
#[derive(Clone, Copy, Debug, PartialEq, Eq, Structural)]
pub enum Syntax {
    Markdown,
    Html,
}

/// The anchors that renderers give a heading, and the text of one written as HTML.
#[derive(Clone, Debug, PartialEq, Eq)]
pub struct HeadingText {
    /// The text between the tags of an HTML heading; empty for a markdown one.
    pub html: String,
    pub github: String,
    pub gitlab: String,
    pub vscode: String,
}

/// What a node is.
#[derive(Clone, Debug, PartialEq, Eq)]
pub enum ElementKind {
    Heading { level: u8, text: HeadingText },
    Paragraph,
    TableCell,
    Table,
    List { ordered: bool },
    Details,
    CodeBlock,
    HtmlBlock,
    Math,
    InlineCode,
    Image,
    Video,
    Audio,
    Link,
    Strong,
    Emphasis,
    Strikethrough,
    Other,
}

/// An attribute of an HTML tag.
#[derive(Clone, Debug, PartialEq, Eq)]
pub struct Attribute {
    pub name: String,
    pub value: Option<String>,
}

/// The opening tag that an HTML node starts with, and how HTML classes its element.
#[derive(Clone, Debug, PartialEq, Eq)]
pub struct OpenTag {
    pub name: String,
    pub attrs: Vec<Attribute>,
    pub self_closing: bool,
    /// The element has no content.
    pub is_void: bool,
    /// The element is one of HTML's.
    pub is_known: bool,
    /// The element is block-level.
    pub is_block: bool,
}

/// A node of the document.
#[derive(Clone, Debug, PartialEq, Eq)]
pub struct Node {
    pub kind: ElementKind,
    pub span: Span,
    pub syntax: Syntax,
    pub parent: Option<usize>,
    pub children: Vec<usize>,
    /// The opening tag at the start of the node's text, where there is one.
    pub tag: Option<OpenTag>,
    /// The opening tag at the start of the first line of that text, read by itself.
    pub line_tag: Option<OpenTag>,
}

/// How serious a finding of the parser is.
#[derive(Clone, Copy, Debug, PartialEq, Eq, Structural)]
pub enum DiagnosticLevel {
    Error,
    Warning,
}

/// A finding of the parser.
#[derive(Clone, Debug, PartialEq, Eq)]
pub struct ParserDiagnostic {
    pub level: DiagnosticLevel,
    pub message: String,
    pub span: Span,
}

/// A path-shaped word in prose.
#[derive(Clone, Debug, PartialEq, Eq)]
pub struct BarePath {
    pub path: String,
    pub line: usize,
}

/// A parsed document.
#[derive(Clone, Debug, PartialEq, Eq)]
pub struct Tree {
    pub source: String,
    pub nodes: Vec<Node>,
    pub diagnostics: Vec<ParserDiagnostic>,
    pub bare_paths: Vec<BarePath>,
}

impl Tree {
    /// The bytes of the source text.
    pub open spec fn text(self) -> Seq<u8> {
        text::utf8(self.source@)
    }

    /// Parents come before their children, links between nodes stay in the
    /// list, spans lie in the source, and heading levels are those of HTML.
    pub open spec fn wf(self) -> bool {
        &&& self.text().len() < usize::MAX
        &&& forall|i: int|
            0 <= i < self.nodes@.len() ==> self.node_wf(i, #[trigger] self.nodes@[i])
    }

    pub open spec fn node_wf(self, i: int, node: Node) -> bool {
        &&& node.span.start <= node.span.end <= self.text().len()
        &&& text::boundary(self.text(), node.span.start as int)
        &&& text::boundary(self.text(), node.span.end as int)
        &&& node.parent matches Some(p) ==> p < i
        &&& forall|k: int| 0 <= k < node.children@.len() ==> #[trigger] node.children@[k] < self.nodes@.len()
        &&& node.kind matches ElementKind::Heading { level, .. } ==> 1 <= level <= 6
    }

    /// Whether a parser's tree can be checked.
    pub fn is_well_formed(&self) -> (r: bool)
        ensures
            r == self.wf(),
    {
        let b = self.source.as_str().as_bytes();
        if b.len() == usize::MAX {
            return false;
        }
        let mut i: usize = 0;
        while i < self.nodes.len()
            invariant
                i <= self.nodes@.len(),
                b@ == self.text(),
                b@.len() < usize::MAX,
                forall|k: int| 0 <= k < i ==> self.node_wf(k, #[trigger] self.nodes@[k]),
            decreases self.nodes@.len() - i,
        {
            let node = &self.nodes[i];
            let span = node.span;
            if span.start > span.end || span.end > b.len() || !text::is_boundary(b, span.start)
                || !text::is_boundary(b, span.end) {
                assert(!self.node_wf(i as int, self.nodes@[i as int]));
                return false;
            }
            let placed = match node.parent {
                Some(p) => p < i,
                None => true,
            };
            let levelled = match &node.kind {
                ElementKind::Heading { level, .. } => 1 <= *level && *level <= 6,
                _ => true,
            };
            if !placed || !levelled {
                assert(!self.node_wf(i as int, self.nodes@[i as int]));
                return false;
            }
            let mut k: usize = 0;
            while k < node.children.len()
                invariant
                    k <= node.children@.len(),
                    i < self.nodes@.len(),
                    *node == self.nodes@[i as int],
                    forall|j: int|
                        0 <= j < k ==> #[trigger] node.children@[j] < self.nodes@.len(),
                decreases node.children@.len() - k,
            {
                if node.children[k] >= self.nodes.len() {
                    assert(!self.node_wf(i as int, self.nodes@[i as int]));
                    return false;
                }
                k += 1;
            }
            i += 1;
        }
        true
    }

    /// The bytes of a node's text.
    pub open spec fn text_of(self, node: Node) -> Seq<u8> {
        text::piece(self.text(), node.span.start as int, node.span.end as int)
    }

    /// The text of a node.
    pub fn raw<'a>(&'a self, node: &Node) -> (r: &'a str)
        ensures
            text::utf8(r@) == self.text_of(*node),
    {
        text::slice(self.source.as_str(), node.span.start, node.span.end)
    }
}

/// The bytes that an alias name is made of.
pub open spec fn alias_byte(b: u8) -> bool {
    48 <= b <= 57 || 65 <= b <= 90 || 97 <= b <= 122 || b == 95 || b == 45
}

/// The end of the run of alias bytes that starts at `i`.
pub open spec fn alias_end(b: Seq<u8>, i: int) -> int
    decreases b.len() - i,
{
    if 0 <= i < b.len() && alias_byte(b[i]) {
        alias_end(b, i + 1)
    } else {
        i
    }
}

/// Where the alias name of `{name}/rest` ends, if `b` has that form with neither
/// part empty.
pub open spec fn namespace_end(b: Seq<u8>) -> Option<int> {
    let n = alias_end(b, 1);
    if b.len() > 0 && b[0] == 123 && n > 1 && n + 2 < b.len() && b[n] == 125 && b[n + 1] == 47 {
        Some(n)
    } else {
        None
    }
}

/// The alias name and the rest of a `{name}/rest` reference.
pub open spec fn namespace_of(b: Seq<u8>) -> Option<(Seq<u8>, Seq<u8>)> {
    match namespace_end(b) {
        Some(n) => Some((b.subrange(1, n), b.subrange(n + 2, b.len() as int))),
        None => None,
    }
}

proof fn lemma_alias_end(b: Seq<u8>, i: int)
    requires
        0 <= i <= b.len(),
    ensures
        i <= alias_end(b, i) <= b.len(),
        forall|k: int| i <= k < alias_end(b, i) ==> alias_byte(#[trigger] b[k]),
    decreases b.len() - i,
{
    if i < b.len() && alias_byte(b[i]) {
        lemma_alias_end(b, i + 1);
    }
}

/// Take a `{name}/rest` reference apart.
pub fn external_namespace<'a>(path: &'a str) -> (r: Option<(&'a str, &'a str)>)
    ensures
        match r {
            Some((alias, rest)) => namespace_of(text::utf8(path@)) == Some(
                (text::utf8(alias@), text::utf8(rest@)),
            ),
            None => namespace_of(text::utf8(path@)) is None,
        },
{
    let b = path.as_bytes();
    if b.len() == 0 || b[0] != 123 {
        return None;
    }
    let mut n: usize = 1;
    while n < b.len()
        invariant_except_break
            alias_end(b@, 1) == alias_end(b@, n as int),
        invariant
            1 <= n <= b@.len(),
        ensures
            alias_end(b@, 1) == n,
        decreases b@.len() - n,
    {
        let c = b[n];
        let named = (48 <= c && c <= 57) || (65 <= c && c <= 90) || (97 <= c && c <= 122) || c == 95
            || c == 45;
        if !named {
            break;
        }
        n += 1;
    }
    if n == 1 || b.len() - n <= 2 || b[n] != 125 || b[n + 1] != 47 {
        return None;
    }
    proof {
        vstd::utf8::encode_utf8_valid_utf8(path@);
        lemma_alias_end(b@, 1);
        assert(alias_byte(b@[1]));
        text::lemma_after_ascii(b@, n + 2);
    }
    Some((text::slice(path, 1, n), text::slice(path, n + 2, b.len())))
}

} // verus!

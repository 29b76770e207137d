//! TOML frontmatter, delimited by `+++`.
use vstd::prelude::*;
use crate::fm;
use crate::fm::{FmDiagView, FmDiagnostic, FmNode, FmSeverity, FrontmatterBlock, NodeView};
use crate::limits::MAX_FRONTMATTER_BYTES;
use crate::span::Span;
use crate::text;

pub mod grammar;
pub mod parser;
pub mod promises;
pub mod spans;
pub mod strings;
pub mod tables;
pub mod written;

use crate::toml::grammar::Source;
use crate::toml::parser::Parser;

verus! {

/// Whether three plus signs stand at `i`.
pub open spec fn fence_at(b: Seq<u8>, i: int) -> bool {
    0 <= i && i + 3 <= b.len() && b[i] == 43 && b[i + 1] == 43 && b[i + 2] == 43
}

/// The length of a line with a fence at `i`, with its LF or CR LF.
pub open spec fn fence_line(b: Seq<u8>, i: int) -> Option<int> {
    if !fence_at(b, i) {
        None
    } else if i + 4 < b.len() && b[i + 3] == 13 && b[i + 4] == 10 {
        Some(5)
    } else if i + 3 < b.len() && b[i + 3] == 10 {
        Some(4)
    } else {
        None
    }
}

/// The first fence at or after `i`.
pub open spec fn next_fence(b: Seq<u8>, i: int) -> Option<int>
    decreases b.len() - i,
{
    if i < 0 || i >= b.len() {
        None
    } else if fence_at(b, i) {
        Some(i)
    } else {
        next_fence(b, i + 1)
    }
}

pub proof fn lemma_next_fence(b: Seq<u8>, i: int)
    ensures
        next_fence(b, i) matches Some(p) ==> i <= p && fence_at(b, p),
    decreases b.len() - i,
{
    if 0 <= i < b.len() && !fence_at(b, i) {
        lemma_next_fence(b, i + 1);
    }
}

/// The closing fence, looked for from `i` on: one that stands at the start of a
/// line and ends there.
pub open spec fn closing_fence(b: Seq<u8>, i: int) -> Option<int>
    decreases b.len() - i,
{
    match next_fence(b, i) {
        None => None,
        Some(p) => {
            proof {
                lemma_next_fence(b, i);
            }
            let starts = p == 0 || b[p - 1] == 10;
            let ends = p + 3 >= b.len() || b[p + 3] == 10 || b[p + 3] == 13;
            if starts && ends {
                Some(p)
            } else {
                closing_fence(b, p + 3)
            }
        },
    }
}

/// What a frontmatter block says.
#[verifier::ext_equal]
pub struct BlockView {
    pub span: Span,
    pub content_span: Span,
    pub entries: Seq<NodeView>,
    pub diagnostics: Seq<FmDiagView>,
}

pub open spec fn block_view(block: FrontmatterBlock) -> BlockView {
    BlockView {
        span: block.span,
        content_span: block.content_span,
        entries: fm::node_views(block.entries@),
        diagnostics: fm::fm_diag_views(block.diagnostics@),
    }
}

/// The message about a block that is too large.
pub open spec fn size_message() -> Seq<u8> {
    text::utf8("frontmatter exceeds the "@) + text::decimal(MAX_FRONTMATTER_BYTES as nat)
        + text::utf8("-byte limit; skipped"@)
}

/// The block that a document starts with, if it starts with an opening fence
/// behind an optional byte-order mark and has a closing one. A block that is too
/// large is not read.
pub open spec fn frontmatter(b: Seq<u8>) -> Option<BlockView> {
    let bom = fm::bom_len(b);
    match fence_line(b, bom) {
        None => None,
        Some(opener) => {
            let start = bom + opener;
            let rest = text::piece(b, start, b.len() as int);
            match closing_fence(rest, 0) {
                None => None,
                Some(p) => {
                    let closer = match fence_line(rest, p) {
                        Some(n) => n,
                        None => 3,
                    };
                    let content = text::piece(rest, 0, p);
                    let span = Span { start: bom as usize, end: (start + p + closer) as usize };
                    let content_span = Span { start: start as usize, end: (start + p) as usize };
                    Some(
                        if content.len() > MAX_FRONTMATTER_BYTES {
                            BlockView {
                                span,
                                content_span,
                                entries: Seq::empty(),
                                diagnostics: seq![
                                    FmDiagView {
                                        span: Span { start: start as usize, end: start as usize },
                                        severity: FmSeverity::Warning,
                                        message: size_message(),
                                    },
                                ],
                            }
                        } else {
                            let (doc, reading) = grammar::document(
                                Source { bytes: content, base: start },
                            );
                            BlockView {
                                span,
                                content_span,
                                entries: doc.entries,
                                diagnostics: reading.found,
                            }
                        },
                    )
                },
            }
        },
    }
}

fn is_fence(b: &[u8], i: usize) -> (r: bool)
    ensures
        r == fence_at(b@, i as int),
{
    i < b.len() && b.len() - i >= 3 && b[i] == 43 && b[i + 1] == 43 && b[i + 2] == 43
}

fn fence_line_len(b: &[u8], i: usize) -> (r: Option<usize>)
    ensures
        match r {
            Some(n) => fence_line(b@, i as int) == Some(n as int) && 4 <= n && i + n <= b@.len(),
            None => fence_line(b@, i as int) is None,
        },
{
    if !is_fence(b, i) {
        None
    } else if b.len() - i > 4 && b[i + 3] == 13 && b[i + 4] == 10 {
        Some(5)
    } else if b.len() - i > 3 && b[i + 3] == 10 {
        Some(4)
    } else {
        None
    }
}

fn find_opening(b: &[u8], at: usize) -> (r: Option<usize>)
    ensures
        match r {
            Some(n) => fence_line(b@, at as int) == Some(n as int) && 4 <= n && at + n <= b@.len(),
            None => fence_line(b@, at as int) is None,
        },
{
    fence_line_len(b, at)
}

fn find_closing(b: &[u8]) -> (r: Option<usize>)
    ensures
        match r {
            Some(p) => closing_fence(b@, 0) == Some(p as int) && p + 3 <= b@.len(),
            None => closing_fence(b@, 0) is None,
        },
{
    let mut from: usize = 0;
    let mut i: usize = 0;
    while i < b.len()
        invariant
            from <= i,
            i <= b.len(),
            closing_fence(b@, 0) == closing_fence(b@, from as int),
            next_fence(b@, from as int) == next_fence(b@, i as int),
        decreases b@.len() - i,
    {
        if is_fence(b, i) {
            let starts = i == 0 || b[i - 1] == 10;
            let ends = b.len() - i == 3 || b[i + 3] == 10 || b[i + 3] == 13;
            if starts && ends {
                return Some(i);
            }
            i += 3;
            from = i;
        } else {
            i += 1;
        }
    }
    None
}

/// Parse the TOML frontmatter that a document starts with.
pub fn parse_frontmatter_block(source: &str) -> (r: Option<FrontmatterBlock>)
    ensures
        match r {
            Some(block) => frontmatter(text::utf8(source@)) == Some(block_view(block)),
            None => frontmatter(text::utf8(source@)) is None,
        },
{
    let b = source.as_bytes();
    let bom = fm::strip_bom(source);
    let opener = find_opening(b, bom)?;
    let start = bom + opener;
    let rest = text::slice(source, start, b.len());
    let rb = rest.as_bytes();
    let p = find_closing(rb)?;
    let closer: usize = match fence_line_len(rb, p) {
        Some(n) => n,
        None => 3,
    };
    let content = text::slice(rest, 0, p);
    assert(rb@.len() <= b@.len() - start);
    let span = Span { start: bom, end: start + p + closer };
    let content_span = Span { start, end: start + p };
    if content.as_bytes().len() > MAX_FRONTMATTER_BYTES {
        let mut message = text::owned("frontmatter exceeds the ");
        text::push_decimal(&mut message, MAX_FRONTMATTER_BYTES);
        text::push(&mut message, "-byte limit; skipped");
        let mut diagnostics: Vec<FmDiagnostic> = Vec::new();
        diagnostics.push(
            FmDiagnostic {
                span: Span { start, end: start },
                severity: FmSeverity::Warning,
                message,
            },
        );
        let entries: Vec<FmNode> = Vec::new();
        let block = FrontmatterBlock { span, content_span, entries, diagnostics };
        assert(Some(block_view(block)) =~= frontmatter(text::utf8(source@)));
        return Some(block);
    }
    let mut parser = Parser::new(content, start);
    parser.parse();
    let (entries, diagnostics) = parser.into_parts();
    Some(FrontmatterBlock { span, content_span, entries, diagnostics })
}

} // verus!

//! What frontmatter promises.
use vstd::prelude::*;
use crate::fm;
use crate::fm::NodeView;
use crate::limits::MAX_FRONTMATTER_BYTES;
use crate::toml;
use crate::toml::grammar;
use crate::toml::grammar::{Document, Reading};

verus! {

// The block.

/// The spans of a block nest: it starts at the byte-order mark's end, its content
/// lies inside it, and it lies inside the document.
pub proof fn law_block_spans_nest(b: Seq<u8>)
    requires
        b.len() <= usize::MAX,
        toml::frontmatter(b) is Some,
    ensures
        ({
            let block = toml::frontmatter(b)->0;
            &&& block.span.start == fm::bom_len(b)
            &&& block.span.start + 4 <= block.content_span.start
            &&& block.content_span.start <= block.content_span.end
            &&& block.content_span.end + 3 <= block.span.end
            &&& block.span.end <= b.len()
        }),
{
    let bom = fm::bom_len(b);
    let opener = toml::fence_line(b, bom)->0;
    let start = bom + opener;
    let rest = crate::text::piece(b, start, b.len() as int);
    lemma_closing_fence(rest, 0);
}

pub proof fn lemma_closing_fence(b: Seq<u8>, i: int)
    ensures
        toml::closing_fence(b, i) matches Some(p) ==> i <= p && toml::fence_at(b, p) && (p == 0
            || b[p - 1] == 10),
    decreases b.len() - i,
{
    toml::lemma_next_fence(b, i);
    match toml::next_fence(b, i) {
        None => {},
        Some(p) => {
            lemma_closing_fence(b, p + 3);
        },
    }
}

/// A document that does not start with an opening fence has no block.
pub proof fn law_no_fence_no_block(b: Seq<u8>)
    requires
        toml::fence_line(b, fm::bom_len(b)) is None,
    ensures
        toml::frontmatter(b) is None,
{
}

/// A block over the limit is not read: it has no entries, and one finding says so.
pub proof fn law_large_blocks_are_not_read(b: Seq<u8>)
    requires
        b.len() <= usize::MAX,
        toml::frontmatter(b) is Some,
        ({
            let content = toml::frontmatter(b)->0.content_span;
            content.end - content.start > MAX_FRONTMATTER_BYTES
        }),
    ensures
        toml::frontmatter(b)->0.entries.len() == 0,
        toml::frontmatter(b)->0.diagnostics.len() == 1,
{
    let bom = fm::bom_len(b);
    let opener = toml::fence_line(b, bom)->0;
    let start = bom + opener;
    let rest = crate::text::piece(b, start, b.len() as int);
    lemma_closing_fence(rest, 0);
}

// Keys.

/// The key of an entry; none for an item of a list.
pub open spec fn key_of(node: NodeView) -> Option<Seq<u8>> {
    match node {
        NodeView::Mapping { key, .. } => Some(key.text),
        NodeView::SequenceItem { .. } => None,
    }
}

/// A key is taken once: an entry whose key is taken does not join, and is
/// reported once; any other joins, and nothing is reported.
pub proof fn law_keys_are_taken_once(doc: Document, r: Reading, node: NodeView)
    requires
        key_of(node) is Some,
    ensures
        ({
            let (d, s) = grammar::joined(doc, r, node);
            if doc.taken.contains(key_of(node)->0) {
                d == doc && s.found == r.found.push(grammar::duplicate_key(node->key))
            } else {
                d.entries == doc.entries.push(node) && s == r && d.taken.contains(key_of(node)->0)
            }
        }),
{
}

/// Entries that are not in tables have distinct keys, and every one that did not
/// join because its key was taken is reported.
pub proof fn law_plain_keys_are_distinct(r: Reading, list: Seq<NodeView>)
    requires
        forall|i: int| 0 <= i < list.len() ==> key_of(#[trigger] list[i]) is Some,
    ensures
        ({
            let (d, s) = grammar::all_joined(
                Document { entries: Seq::empty(), taken: Set::empty() },
                r,
                list,
            );
            &&& forall|i: int, j: int|
                0 <= i < j < d.entries.len() ==> key_of(#[trigger] d.entries[i]) != key_of(
                    #[trigger] d.entries[j],
                )
            &&& forall|i: int| 0 <= i < d.entries.len() ==> key_of(#[trigger] d.entries[i]) is Some
                && d.taken.contains(key_of(d.entries[i])->0)
            &&& s.found.len() - r.found.len() == list.len() - d.entries.len()
        }),
    decreases list.len(),
{
    if list.len() > 0 {
        let rest = list.drop_last();
        assert forall|i: int| 0 <= i < rest.len() implies key_of(#[trigger] rest[i]) is Some by {
            assert(rest[i] == list[i]);
        }
        law_plain_keys_are_distinct(r, rest);
        assert(key_of(list[list.len() - 1]) is Some);
    }
}

} // verus!

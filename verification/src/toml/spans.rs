//! Every span that parsing gives points into the text that was parsed.
use vstd::prelude::*;
use crate::fm;
use crate::fm::{FmDiagView, NodeView, ScalarView, ValueView};
use crate::limits::MAX_FRONTMATTER_NESTING;
use crate::span::Span;
use crate::text;
use crate::toml;
use crate::toml::grammar;
use crate::toml::grammar::{Document, Quoting, Reading, Scan, Source};
use crate::toml::promises;

verus! {

/// Whether a span lies between two offsets of the document.
pub open spec fn span_in(lo: int, hi: int, span: Span) -> bool {
    lo <= span.start <= span.end <= hi
}

/// Whether the spans of a value lie between two offsets of the document.
pub open spec fn value_in(lo: int, hi: int, v: ValueView) -> bool
    decreases v,
{
    match v {
        ValueView::Scalar(s) => span_in(lo, hi, s.span),
        ValueView::FlowSequence { span, items } => {
            &&& span_in(lo, hi, span)
            &&& forall|i: int| 0 <= i < items.len() ==> span_in(lo, hi, (#[trigger] items[i]).span)
        },
        ValueView::Sequence(list) => forall|i: int|
            0 <= i < list.len() ==> node_in(lo, hi, #[trigger] list[i]),
        ValueView::Mapping(list) => forall|i: int|
            0 <= i < list.len() ==> node_in(lo, hi, #[trigger] list[i]),
    }
}

/// Whether the spans of an entry and of all that it holds lie between two offsets
/// of the document.
pub open spec fn node_in(lo: int, hi: int, node: NodeView) -> bool
    decreases node,
{
    match node {
        NodeView::Mapping { key, value, span } => {
            &&& span_in(lo, hi, key.span)
            &&& span_in(lo, hi, span)
            &&& value_in(lo, hi, value)
        },
        NodeView::SequenceItem { value, span } => {
            &&& span_in(lo, hi, span)
            &&& value_in(lo, hi, value)
        },
    }
}

/// Whether the spans of entries lie between two offsets of the document.
pub open spec fn nodes_in(lo: int, hi: int, list: Seq<NodeView>) -> bool {
    forall|i: int| 0 <= i < list.len() ==> node_in(lo, hi, #[trigger] list[i])
}

/// Whether the spans of findings lie between two offsets of the document.
pub open spec fn found_in(lo: int, hi: int, found: Seq<FmDiagView>) -> bool {
    forall|i: int| 0 <= i < found.len() ==> span_in(lo, hi, (#[trigger] found[i]).span)
}

spec fn scalars_in(lo: int, hi: int, list: Seq<ScalarView>) -> bool {
    forall|i: int| 0 <= i < list.len() ==> span_in(lo, hi, (#[trigger] list[i]).span)
}

spec fn end_of(src: Source) -> int {
    src.base + src.bytes.len()
}

/// Whether a reading is in the text, with its findings.
spec fn good(src: Source, r: Reading) -> bool {
    &&& src.fits()
    &&& 0 <= r.pos <= src.bytes.len()
    &&& found_in(src.base, end_of(src), r.found)
}

spec fn good_scan(src: Source, s: Scan) -> bool {
    &&& src.fits()
    &&& 0 <= s.pos <= src.bytes.len()
    &&& found_in(src.base, end_of(src), s.found)
}

proof fn lemma_value_wider(lo: int, hi: int, more: int, v: ValueView)
    requires
        value_in(lo, hi, v),
        hi <= more,
    ensures
        value_in(lo, more, v),
    decreases v,
{
    match v {
        ValueView::Sequence(list) => {
            assert forall|i: int| 0 <= i < list.len() implies node_in(
                lo,
                more,
                #[trigger] list[i],
            ) by {
                lemma_node_wider(lo, hi, more, list[i]);
            }
        },
        ValueView::Mapping(list) => {
            assert forall|i: int| 0 <= i < list.len() implies node_in(
                lo,
                more,
                #[trigger] list[i],
            ) by {
                lemma_node_wider(lo, hi, more, list[i]);
            }
        },
        _ => {},
    }
}

proof fn lemma_node_wider(lo: int, hi: int, more: int, node: NodeView)
    requires
        node_in(lo, hi, node),
        hi <= more,
    ensures
        node_in(lo, more, node),
    decreases node,
{
    match node {
        NodeView::Mapping { value, .. } => {
            lemma_value_wider(lo, hi, more, value);
        },
        NodeView::SequenceItem { value, .. } => {
            lemma_value_wider(lo, hi, more, value);
        },
    }
}

proof fn lemma_nodes_wider(lo: int, hi: int, more: int, list: Seq<NodeView>)
    requires
        nodes_in(lo, hi, list),
        hi <= more,
    ensures
        nodes_in(lo, more, list),
{
    assert forall|i: int| 0 <= i < list.len() implies node_in(lo, more, #[trigger] list[i]) by {
        lemma_node_wider(lo, hi, more, list[i]);
    }
}

// Strings.

proof fn lemma_escape_in(src: Source, start: int, s: Scan)
    requires
        good_scan(src, s),
        0 <= start,
        start + 2 <= s.pos,
    ensures
        good_scan(src, grammar::escape(src, start, s)),
        s.pos <= grammar::escape(src, start, s).pos,
{
    grammar::lemma_escape(src, start, s);
    if s.pos < src.bytes.len() {
        grammar::lemma_hex_number(src.bytes, s.pos + 1, 4, 0);
        grammar::lemma_hex_number(src.bytes, s.pos + 1, 8, 0);
    }
}

proof fn lemma_basic_in(src: Source, start: int, s: Scan)
    requires
        good_scan(src, s),
        0 <= start < s.pos,
    ensures
        good_scan(src, grammar::basic_rest(src, start, s)),
        s.pos <= grammar::basic_rest(src, start, s).pos,
    decreases src.bytes.len() - s.pos,
{
    let b = src.bytes;
    if s.pos < b.len() {
        if b[s.pos] == 34 {
        } else if b[s.pos] == 92 {
            lemma_escape_in(src, start, s.moved(s.pos + 1));
            lemma_basic_in(src, start, grammar::escape(src, start, s.moved(s.pos + 1)));
        } else if b[s.pos] == 10 || b[s.pos] == 13 {
        } else {
            grammar::lemma_char_end(b, s.pos);
            lemma_basic_in(
                src,
                start,
                s.plus(
                    grammar::char_end(b, s.pos),
                    text::piece(b, s.pos, grammar::char_end(b, s.pos)),
                ),
            );
        }
    }
}

proof fn lemma_literal_in(src: Source, start: int, s: Scan)
    requires
        good_scan(src, s),
        0 <= start < s.pos,
    ensures
        good_scan(src, grammar::literal_rest(src, start, s)),
        s.pos <= grammar::literal_rest(src, start, s).pos,
    decreases src.bytes.len() - s.pos,
{
    let b = src.bytes;
    if s.pos < b.len() && b[s.pos] != 39 && b[s.pos] != 10 && b[s.pos] != 13 {
        grammar::lemma_char_end(b, s.pos);
        lemma_literal_in(
            src,
            start,
            s.plus(
                grammar::char_end(b, s.pos),
                text::piece(b, s.pos, grammar::char_end(b, s.pos)),
            ),
        );
    }
}

proof fn lemma_ml_basic_in(src: Source, start: int, s: Scan)
    requires
        good_scan(src, s),
        0 <= start < s.pos,
    ensures
        good_scan(src, grammar::ml_basic_rest(src, start, s)),
        s.pos <= grammar::ml_basic_rest(src, start, s).pos,
    decreases src.bytes.len() - s.pos,
{
    let b = src.bytes;
    if s.pos < b.len() && !grammar::tripled(b, s.pos, 34) {
        if b[s.pos] == 92 {
            let p = grammar::blank_end(b, s.pos + 1);
            grammar::lemma_blank_end(b, s.pos + 1);
            grammar::lemma_continuation_end(b, p);
            if grammar::full_break(b, p) {
                lemma_ml_basic_in(src, start, s.moved(grammar::continuation_end(b, p)));
            } else {
                lemma_escape_in(src, start, s.moved(s.pos + 1));
                lemma_ml_basic_in(src, start, grammar::escape(src, start, s.moved(s.pos + 1)));
            }
        } else if b[s.pos] == 13 && grammar::full_break(b, s.pos) {
            lemma_ml_basic_in(src, start, s.plus(s.pos + 2, grammar::numbered(10)));
        } else {
            grammar::lemma_char_end(b, s.pos);
            lemma_ml_basic_in(
                src,
                start,
                s.plus(
                    grammar::char_end(b, s.pos),
                    text::piece(b, s.pos, grammar::char_end(b, s.pos)),
                ),
            );
        }
    }
}

proof fn lemma_ml_literal_in(src: Source, start: int, s: Scan)
    requires
        good_scan(src, s),
        0 <= start < s.pos,
    ensures
        good_scan(src, grammar::ml_literal_rest(src, start, s)),
        s.pos <= grammar::ml_literal_rest(src, start, s).pos,
    decreases src.bytes.len() - s.pos,
{
    let b = src.bytes;
    if s.pos < b.len() && !grammar::tripled(b, s.pos, 39) {
        if b[s.pos] == 13 && grammar::full_break(b, s.pos) {
            lemma_ml_literal_in(src, start, s.plus(s.pos + 2, grammar::numbered(10)));
        } else {
            grammar::lemma_char_end(b, s.pos);
            lemma_ml_literal_in(
                src,
                start,
                s.plus(
                    grammar::char_end(b, s.pos),
                    text::piece(b, s.pos, grammar::char_end(b, s.pos)),
                ),
            );
        }
    }
}

/// What was read from `r` on: the reading goes on from there, and the span lies
/// between the two.
spec fn read_between(src: Source, r: Reading, next: Reading, span: Span) -> bool {
    &&& good(src, next)
    &&& r.pos <= next.pos
    &&& span_in(src.base + r.pos, src.base + next.pos, span)
}

proof fn lemma_string_in(src: Source, r: Reading, quoting: Quoting)
    requires
        good(src, r),
        match quoting {
            Quoting::Basic | Quoting::Literal => r.pos < src.bytes.len(),
            _ => r.pos + 3 <= src.bytes.len(),
        },
    ensures
        ({
            let (next, s) = grammar::string_at(src, r, quoting);
            read_between(src, r, next, s.span) && r.pos < next.pos
        }),
{
    let start = r.pos;
    let s0 = Scan {
        pos: grammar::content_start(src.bytes, start, quoting),
        text: Seq::empty(),
        found: r.found,
    };
    match quoting {
        Quoting::Basic => {
            lemma_basic_in(src, start, s0);
        },
        Quoting::Literal => {
            lemma_literal_in(src, start, s0);
        },
        Quoting::MultiLineBasic => {
            lemma_ml_basic_in(src, start, s0);
        },
        Quoting::MultiLineLiteral => {
            lemma_ml_literal_in(src, start, s0);
        },
    }
}

// Keys.

proof fn lemma_bare_key_in(b: Seq<u8>, i: int)
    requires
        0 <= i <= b.len(),
    ensures
        i <= grammar::bare_key_end(b, i) <= b.len(),
    decreases b.len() - i,
{
    if i < b.len() && grammar::bare_key_byte(b[i]) {
        lemma_bare_key_in(b, i + 1);
    }
}

proof fn lemma_key_in(src: Source, r: Reading)
    requires
        good(src, r),
    ensures
        ({
            let (next, key) = grammar::key_at(src, r);
            &&& good(src, next)
            &&& r.pos <= next.pos
            &&& key matches Some(s) ==> read_between(src, r, next, s.span) && r.pos < next.pos
        }),
{
    let b = src.bytes;
    let i = grammar::blank_end(b, r.pos);
    let here = r.moved(i);
    grammar::lemma_blank_end(b, r.pos);
    grammar::lemma_line_end(b, i);
    if grammar::tripled(b, i, 34) || grammar::tripled(b, i, 39) {
    } else if src.at(i) == Some(34u8) {
        lemma_string_in(src, here, Quoting::Basic);
    } else if src.at(i) == Some(39u8) {
        lemma_string_in(src, here, Quoting::Literal);
    } else if i < b.len() && grammar::bare_key_byte(b[i]) {
        lemma_bare_key_in(b, i + 1);
    }
}

proof fn lemma_key_rest_in(src: Source, r: Reading, parts: Seq<ScalarView>)
    requires
        good(src, r),
        parts.len() > 0,
        scalars_in(src.base, src.base + r.pos, parts),
    ensures
        ({
            let (next, all) = grammar::key_rest(src, r, parts);
            &&& good(src, next)
            &&& r.pos <= next.pos
            &&& all.len() > 0
            &&& scalars_in(src.base, src.base + next.pos, all)
        }),
    decreases src.bytes.len() - r.pos,
{
    if src.at(r.pos) == Some(46u8) {
        grammar::lemma_blank_end(src.bytes, r.pos + 1);
        let from = r.moved(grammar::blank_end(src.bytes, r.pos + 1));
        lemma_key_in(src, from);
        let (next, part) = grammar::key_at(src, from);
        match part {
            None => {},
            Some(part) => {
                grammar::lemma_blank_end(src.bytes, next.pos);
                let after = next.moved(grammar::blank_end(src.bytes, next.pos));
                if r.pos < after.pos <= src.bytes.len() {
                    lemma_key_rest_in(src, after, parts.push(part));
                }
            },
        }
    }
}

proof fn lemma_dotted_in(src: Source, r: Reading)
    requires
        good(src, r),
    ensures
        ({
            let (next, parts) = grammar::dotted_key(src, r);
            &&& good(src, next)
            &&& r.pos <= next.pos
            &&& parts.len() > 0 ==> r.pos < next.pos
            &&& scalars_in(src.base, src.base + next.pos, parts)
        }),
{
    lemma_key_in(src, r);
    let (next, first) = grammar::key_at(src, r);
    match first {
        None => {},
        Some(part) => {
            lemma_key_rest_in(src, next, seq![part]);
        },
    }
}

// Values.

proof fn lemma_plain_in(b: Seq<u8>, i: int)
    requires
        0 <= i <= b.len(),
    ensures
        i <= grammar::plain_end(b, i) <= b.len(),
    decreases b.len() - i,
{
    if i < b.len() && !(b[i] == 10 || b[i] == 13 || b[i] == 35 || b[i] == 44 || b[i] == 93 || b[i]
        == 125) {
        lemma_plain_in(b, i + 1);
    }
}

proof fn lemma_scalar_in(src: Source, r: Reading)
    requires
        good(src, r),
    ensures
        ({
            let (next, s) = grammar::scalar_at(src, r);
            read_between(src, r, next, s.span)
        }),
{
    let b = src.bytes;
    let i = grammar::blank_end(b, r.pos);
    let here = r.moved(i);
    grammar::lemma_blank_end(b, r.pos);
    if grammar::tripled(b, i, 34) {
        lemma_string_in(src, here, Quoting::MultiLineBasic);
    } else if src.at(i) == Some(34u8) {
        lemma_string_in(src, here, Quoting::Basic);
    } else if grammar::tripled(b, i, 39) {
        lemma_string_in(src, here, Quoting::MultiLineLiteral);
    } else if src.at(i) == Some(39u8) {
        lemma_string_in(src, here, Quoting::Literal);
    } else {
        lemma_plain_in(b, i);
    }
}

proof fn lemma_too_deep_in(src: Source, r: Reading)
    requires
        good(src, r),
    ensures
        good(src, grammar::too_deep(src, r)),
        r.pos <= grammar::too_deep(src, r).pos,
{
    grammar::lemma_balanced_end(src.bytes, r.pos, 0);
}

/// What was read from `r` on: the reading goes on from there, and the value lies
/// in front of where it goes on.
spec fn value_read(src: Source, r: Reading, next: Reading, v: ValueView) -> bool {
    &&& good(src, next)
    &&& r.pos <= next.pos
    &&& value_in(src.base, src.base + next.pos, v)
}

proof fn lemma_array_gap_in(b: Seq<u8>, i: int)
    requires
        0 <= i <= b.len(),
    ensures
        i <= grammar::array_gap_end(b, i) <= b.len(),
    decreases b.len() - i,
{
    if i < b.len() {
        if b[i] == 32 || b[i] == 9 || b[i] == 10 {
            lemma_array_gap_in(b, i + 1);
        } else if b[i] == 13 && i + 1 < b.len() && b[i + 1] == 10 {
            lemma_array_gap_in(b, i + 2);
        } else if b[i] == 35 {
            grammar::lemma_line_end(b, i);
            if grammar::line_end(b, i) > i {
                lemma_array_gap_in(b, grammar::line_end(b, i));
            }
        }
    }
}

proof fn lemma_array_in(src: Source, r: Reading, depth: nat)
    requires
        good(src, r),
        r.pos < src.bytes.len(),
    ensures
        ({
            let (next, v) = grammar::array_at(src, r, depth);
            value_read(src, r, next, v)
        }),
    decreases grammar::room(depth), src.bytes.len() - r.pos, 0int,
{
    if depth >= MAX_FRONTMATTER_NESTING {
        lemma_too_deep_in(src, r);
    } else {
        lemma_array_rest_in(src, r.pos, r.moved(r.pos + 1), depth + 1, Seq::empty());
    }
}

proof fn lemma_scalars_wider(lo: int, hi: int, more: int, list: Seq<ScalarView>)
    requires
        scalars_in(lo, hi, list),
        hi <= more,
    ensures
        scalars_in(lo, more, list),
{
}

proof fn lemma_array_rest_in(
    src: Source,
    start: int,
    r: Reading,
    depth: nat,
    items: Seq<ScalarView>,
)
    requires
        good(src, r),
        0 <= start <= r.pos,
        scalars_in(src.base, src.base + r.pos, items),
    ensures
        ({
            let (next, all) = grammar::array_rest(src, start, r, depth, items);
            &&& good(src, next)
            &&& r.pos <= next.pos
            &&& scalars_in(src.base, src.base + next.pos, all)
        }),
    decreases grammar::room(depth), src.bytes.len() - r.pos, 2int,
{
    let b = src.bytes;
    let i = grammar::array_gap_end(b, r.pos);
    let here = r.moved(i);
    lemma_array_gap_in(b, r.pos);
    if i >= b.len() {
    } else if b[i] == 93 {
    } else if b[i] == 44 {
        lemma_array_rest_in(src, start, here.moved(i + 1), depth, items);
    } else if b[i] == 91 {
        lemma_array_in(src, here, depth);
        let (next, nested) = grammar::array_at(src, here, depth);
        if i < next.pos <= b.len() {
            lemma_scalars_wider(src.base, src.base + r.pos, src.base + next.pos, items);
            let all = items + grammar::flow_items(nested);
            assert forall|k: int| 0 <= k < all.len() implies span_in(
                src.base,
                src.base + next.pos,
                (#[trigger] all[k]).span,
            ) by {
                if k < items.len() {
                    assert(all[k] == items[k]);
                } else {
                    assert(all[k] == grammar::flow_items(nested)[k - items.len()]);
                }
            }
            lemma_array_rest_in(src, start, next, depth, all);
        }
    } else if b[i] == 123 {
        lemma_table_in(src, here, depth);
        let (next, _) = grammar::table_at(src, here, depth);
        if i < next.pos <= b.len() {
            lemma_array_rest_in(src, start, next, depth, items);
        }
    } else {
        lemma_scalar_in(src, here);
        let (next, item) = grammar::scalar_at(src, here);
        if next.pos == i {
            lemma_array_rest_in(src, start, next.moved(i + 1), depth, items);
        } else if i < next.pos <= b.len() {
            lemma_array_rest_in(src, start, next, depth, if item.text.len() == 0 {
                items
            } else {
                items.push(item)
            });
        }
    }
}

proof fn lemma_table_in(src: Source, r: Reading, depth: nat)
    requires
        good(src, r),
        r.pos < src.bytes.len(),
    ensures
        ({
            let (next, v) = grammar::table_at(src, r, depth);
            value_read(src, r, next, v)
        }),
    decreases grammar::room(depth), src.bytes.len() - r.pos, 0int,
{
    if depth >= MAX_FRONTMATTER_NESTING {
        lemma_too_deep_in(src, r);
    } else {
        lemma_table_rest_in(src, r.pos, r.moved(r.pos + 1), depth + 1, Seq::empty());
    }
}

proof fn lemma_table_rest_in(
    src: Source,
    start: int,
    r: Reading,
    depth: nat,
    entries: Seq<NodeView>,
)
    requires
        good(src, r),
        0 <= start <= r.pos,
        nodes_in(src.base, src.base + r.pos, entries),
    ensures
        ({
            let (next, all) = grammar::table_rest(src, start, r, depth, entries);
            &&& good(src, next)
            &&& r.pos <= next.pos
            &&& nodes_in(src.base, src.base + next.pos, all)
        }),
    decreases grammar::room(depth), src.bytes.len() - r.pos, 2int,
{
    let b = src.bytes;
    let i = grammar::blank_end(b, r.pos);
    let here = r.moved(i);
    grammar::lemma_blank_end(b, r.pos);
    lemma_nodes_wider(src.base, src.base + r.pos, src.base + i, entries);
    if i >= b.len() || b[i] == 10 || b[i] == 13 {
    } else if b[i] == 125 {
        lemma_nodes_wider(src.base, src.base + r.pos, src.base + i + 1, entries);
    } else if b[i] == 44 {
        lemma_nodes_wider(src.base, src.base + r.pos, src.base + i + 1, entries);
        lemma_table_rest_in(src, start, here.moved(i + 1), depth, entries);
    } else {
        lemma_dotted_in(src, here);
        let (keyed, parts) = grammar::dotted_key(src, here);
        grammar::lemma_line_end(b, keyed.pos);
        if parts.len() == 0 {
            lemma_nodes_wider(
                src.base,
                src.base + r.pos,
                src.base + grammar::line_end(b, keyed.pos),
                entries,
            );
        } else {
            let j = grammar::blank_end(b, keyed.pos);
            grammar::lemma_blank_end(b, keyed.pos);
            let from = if src.at(j) == Some(61u8) {
                j + 1
            } else {
                j
            };
            let k = grammar::blank_end(b, from);
            grammar::lemma_blank_end(b, from);
            lemma_value_at_in(src, keyed.moved(k), depth);
            let (next, value) = grammar::value_at(src, keyed.moved(k), depth);
            lemma_nodes_wider(src.base, src.base + r.pos, src.base + next.pos, entries);
            lemma_scalars_wider(src.base, src.base + keyed.pos, src.base + next.pos, parts);
            lemma_entry_in(src, parts, 0, value, i, next.pos);
            lemma_table_rest_in(
                src,
                start,
                next,
                depth,
                entries.push(grammar::nested_entry(src, parts, value, i, next.pos)),
            );
        }
    }
}

proof fn lemma_value_at_in(src: Source, r: Reading, depth: nat)
    requires
        good(src, r),
    ensures
        ({
            let (next, v) = grammar::value_at(src, r, depth);
            value_read(src, r, next, v)
        }),
    decreases grammar::room(depth), src.bytes.len() - r.pos, 1int,
{
    let i = grammar::blank_end(src.bytes, r.pos);
    let here = r.moved(i);
    grammar::lemma_blank_end(src.bytes, r.pos);
    if src.at(i) == Some(91u8) {
        lemma_array_in(src, here, depth);
    } else if src.at(i) == Some(123u8) {
        lemma_table_in(src, here, depth);
    } else {
        lemma_scalar_in(src, here);
    }
}

proof fn lemma_entry_in(
    src: Source,
    parts: Seq<ScalarView>,
    k: int,
    value: ValueView,
    start: int,
    end: int,
)
    requires
        src.fits(),
        0 <= start <= end <= src.bytes.len(),
        0 <= k < parts.len(),
        scalars_in(src.base, src.base + end, parts),
        value_in(src.base, src.base + end, value),
    ensures
        node_in(src.base, src.base + end, grammar::entry_under(src, parts, k, value, start, end)),
    decreases parts.len() - k,
{
    assert(span_in(src.base, src.base + end, parts[k].span));
    if k < parts.len() - 1 {
        lemma_entry_in(src, parts, k + 1, value, start, end);
    }
}

// Documents.

proof fn lemma_break_in(b: Seq<u8>, i: int)
    requires
        0 <= i <= b.len(),
    ensures
        i <= grammar::break_end(b, i) <= b.len(),
{
}

proof fn lemma_trailer_in(b: Seq<u8>, i: int)
    requires
        0 <= i <= b.len(),
    ensures
        i <= grammar::trailer_end(b, i) <= b.len(),
{
    let j = grammar::blank_end(b, i);
    grammar::lemma_blank_end(b, i);
    grammar::lemma_line_end(b, j);
    lemma_break_in(b, grammar::comment_end(b, j));
}

proof fn lemma_gap_in(b: Seq<u8>, i: int)
    requires
        0 <= i <= b.len(),
    ensures
        i <= grammar::gap_end(b, i) <= b.len(),
    decreases b.len() - i,
{
    let j = grammar::blank_end(b, i);
    grammar::lemma_blank_end(b, i);
    grammar::lemma_line_end(b, j);
    if j < b.len() && (b[j] == 10 || b[j] == 13) {
        lemma_gap_in(b, grammar::break_end(b, j));
    } else if j < b.len() && b[j] == 35 {
        if grammar::line_end(b, j) > j {
            lemma_gap_in(b, grammar::break_end(b, grammar::line_end(b, j)));
        }
    }
}

proof fn lemma_body_in(src: Source, r: Reading, entries: Seq<NodeView>)
    requires
        good(src, r),
        nodes_in(src.base, src.base + r.pos, entries),
    ensures
        ({
            let (next, all) = grammar::body_rest(src, r, entries);
            &&& good(src, next)
            &&& r.pos <= next.pos
            &&& nodes_in(src.base, src.base + next.pos, all)
        }),
    decreases src.bytes.len() - r.pos,
{
    let b = src.bytes;
    let i = grammar::gap_end(b, r.pos);
    let here = r.moved(i);
    lemma_gap_in(b, r.pos);
    lemma_nodes_wider(src.base, src.base + r.pos, src.base + i, entries);
    if i < b.len() && b[i] != 91 {
        lemma_dotted_in(src, here);
        let (keyed, parts) = grammar::dotted_key(src, here);
        if parts.len() == 0 {
            let end = grammar::line_end(b, keyed.pos);
            grammar::lemma_line_end(b, keyed.pos);
            let noted = if end != keyed.pos {
                keyed.with(src.error(keyed.pos, end, text::utf8("expected key"@)))
            } else {
                keyed
            };
            let next = noted.moved(grammar::break_end(b, end));
            lemma_nodes_wider(src.base, src.base + r.pos, src.base + next.pos, entries);
            if r.pos < next.pos <= b.len() {
                lemma_body_in(src, next, entries);
            }
        } else {
            let j = grammar::blank_end(b, keyed.pos);
            grammar::lemma_blank_end(b, keyed.pos);
            if src.at(j) != Some(61u8) {
                let here_end = if j < b.len() {
                    j + 1
                } else {
                    j
                };
                grammar::lemma_line_end(b, j);
                let next = keyed.with(
                    src.error(j, here_end, text::utf8("expected '='"@)),
                ).moved(grammar::break_end(b, grammar::line_end(b, j)));
                lemma_nodes_wider(src.base, src.base + r.pos, src.base + next.pos, entries);
                if r.pos < next.pos <= b.len() {
                    lemma_body_in(src, next, entries);
                }
            } else {
                grammar::lemma_blank_end(b, j + 1);
                let from = keyed.moved(grammar::blank_end(b, j + 1));
                lemma_value_at_in(src, from, 0);
                let (valued, value) = grammar::value_at(src, from, 0);
                let next = valued.moved(grammar::trailer_end(b, valued.pos));
                lemma_trailer_in(b, valued.pos);
                lemma_nodes_wider(src.base, src.base + r.pos, src.base + next.pos, entries);
                lemma_value_wider(src.base, src.base + valued.pos, src.base + next.pos, value);
                lemma_scalars_wider(src.base, src.base + keyed.pos, src.base + next.pos, parts);
                lemma_entry_in(src, parts, 0, value, i, next.pos);
                if r.pos < next.pos <= b.len() {
                    lemma_body_in(
                        src,
                        next,
                        entries.push(grammar::nested_entry(src, parts, value, i, next.pos)),
                    );
                }
            }
        }
    }
}

proof fn lemma_header_in(src: Source, r: Reading, n: int)
    requires
        good(src, r),
        1 <= n <= 2,
        r.pos + n <= src.bytes.len(),
    ensures
        ({
            let (next, parts) = grammar::header_at(src, r, n);
            &&& good(src, next)
            &&& r.pos < next.pos
            &&& scalars_in(src.base, src.base + next.pos, parts)
        }),
{
    let b = src.bytes;
    grammar::lemma_blank_end(b, r.pos + n);
    let from = r.moved(grammar::blank_end(b, r.pos + n));
    lemma_dotted_in(src, from);
    let (keyed, parts) = grammar::dotted_key(src, from);
    let j = grammar::blank_end(b, keyed.pos);
    grammar::lemma_blank_end(b, keyed.pos);
    let closed = if n == 1 {
        src.at(j) == Some(93u8)
    } else {
        src.at(j) == Some(93u8) && src.at(j + 1) == Some(93u8)
    };
    let p = if closed {
        j + n
    } else {
        j
    };
    lemma_trailer_in(b, p);
    lemma_scalars_wider(
        src.base,
        src.base + keyed.pos,
        src.base + grammar::trailer_end(b, p),
        parts,
    );
}

spec fn good_doc(src: Source, doc: Document, r: Reading) -> bool {
    good(src, r) && nodes_in(src.base, src.base + r.pos, doc.entries)
}

proof fn lemma_joined_in(src: Source, doc: Document, r: Reading, node: NodeView)
    requires
        good_doc(src, doc, r),
        node_in(src.base, src.base + r.pos, node),
    ensures
        good_doc(src, grammar::joined(doc, r, node).0, grammar::joined(doc, r, node).1),
        grammar::joined(doc, r, node).1.pos == r.pos,
{
}

proof fn lemma_all_joined_in(src: Source, doc: Document, r: Reading, list: Seq<NodeView>)
    requires
        good_doc(src, doc, r),
        nodes_in(src.base, src.base + r.pos, list),
    ensures
        good_doc(src, grammar::all_joined(doc, r, list).0, grammar::all_joined(doc, r, list).1),
        grammar::all_joined(doc, r, list).1.pos == r.pos,
    decreases list.len(),
{
    if list.len() > 0 {
        let rest = list.drop_last();
        assert forall|i: int| 0 <= i < rest.len() implies node_in(
            src.base,
            src.base + r.pos,
            #[trigger] rest[i],
        ) by {
            assert(rest[i] == list[i]);
        }
        lemma_all_joined_in(src, doc, r, rest);
        let (d, s) = grammar::all_joined(doc, r, rest);
        assert(node_in(src.base, src.base + r.pos, list[list.len() - 1]));
        lemma_joined_in(src, d, s, list.last());
    }
}

proof fn lemma_entry_with(entries: Seq<NodeView>, key: Seq<u8>, from: int)
    ensures
        grammar::entry_with(entries, key, from) matches Some(k) ==> 0 <= k < entries.len(),
    decreases entries.len() - from,
{
    if 0 <= from < entries.len() {
        lemma_entry_with(entries, key, from + 1);
    }
}

proof fn lemma_merged_in(src: Source, doc: Document, r: Reading, node: NodeView)
    requires
        good_doc(src, doc, r),
        node_in(src.base, src.base + r.pos, node),
        node matches NodeView::Mapping { span, .. } && span.end == src.base + r.pos,
    ensures
        good_doc(src, grammar::merged(doc, r, node).0, grammar::merged(doc, r, node).1),
        grammar::merged(doc, r, node).1.pos == r.pos,
{
    match node {
        NodeView::Mapping { key, value, span } => {
            lemma_entry_with(doc.entries, key.text, 0);
            match grammar::entry_with(doc.entries, key.text, 0) {
                None => {},
                Some(k) => {
                    let old_node = doc.entries[k];
                    assert(node_in(src.base, src.base + r.pos, old_node));
                    match (old_node, value) {
                        (
                            NodeView::Mapping { value: ValueView::Sequence(items), .. },
                            ValueView::Sequence(more),
                        ) => {
                            let all = items + more;
                            assert(nodes_in(src.base, src.base + r.pos, items)) by {
                                assert(value_in(
                                    src.base,
                                    src.base + r.pos,
                                    ValueView::Sequence(items),
                                ));
                            }
                            assert forall|i: int| 0 <= i < all.len() implies node_in(
                                src.base,
                                src.base + r.pos,
                                #[trigger] all[i],
                            ) by {
                                if i < items.len() {
                                    assert(all[i] == items[i]);
                                } else {
                                    assert(all[i] == more[i - items.len()]);
                                }
                            }
                            assert(value_in(
                                src.base,
                                src.base + r.pos,
                                ValueView::Sequence(all),
                            ));
                        },
                        _ => {},
                    }
                },
            }
        },
        _ => {},
    }
}

proof fn lemma_tables_in(src: Source, doc: Document, r: Reading)
    requires
        good_doc(src, doc, r),
    ensures
        ({
            let (d, s) = grammar::tables_rest(src, doc, r);
            good_doc(src, d, s)
        }),
    decreases src.bytes.len() - r.pos,
{
    if src.at(r.pos) == Some(91u8) {
        let n: int = if src.at(r.pos + 1) == Some(91u8) {
            2
        } else {
            1
        };
        lemma_header_in(src, r, n);
        let (headed, parts) = grammar::header_at(src, r, n);
        lemma_body_in(src, headed, Seq::empty());
        let (next, body) = grammar::body_rest(src, headed, Seq::empty());
        lemma_nodes_wider(src.base, src.base + r.pos, src.base + next.pos, doc.entries);
        lemma_scalars_wider(src.base, src.base + headed.pos, src.base + next.pos, parts);
        assert(value_in(src.base, src.base + next.pos, ValueView::Mapping(body)));
        let (d, s) = if parts.len() == 0 {
            (doc, next)
        } else if n == 2 {
            let item = NodeView::SequenceItem {
                value: ValueView::Mapping(body),
                span: src.span(r.pos, next.pos),
            };
            let list = ValueView::Sequence(seq![item]);
            assert(node_in(src.base, src.base + next.pos, item));
            assert(value_in(src.base, src.base + next.pos, list));
            lemma_entry_in(src, parts, 0, list, r.pos, next.pos);
            let node = grammar::nested_entry(src, parts, list, r.pos, next.pos);
            lemma_merged_in(src, doc, next, node);
            grammar::merged(doc, next, node)
        } else {
            let table = ValueView::Mapping(body);
            lemma_entry_in(src, parts, 0, table, r.pos, next.pos);
            let node = grammar::nested_entry(src, parts, table, r.pos, next.pos);
            lemma_joined_in(src, doc, next, node);
            grammar::joined(doc, next, node)
        };
        if r.pos < s.pos <= src.bytes.len() {
            lemma_tables_in(src, d, s);
        }
    }
}

/// Every span that parsing gives, of entries at any depth and of findings, points
/// into the content of the block.
pub proof fn law_spans_point_into_the_content(b: Seq<u8>)
    requires
        b.len() <= usize::MAX,
        toml::frontmatter(b) is Some,
    ensures
        ({
            let block = toml::frontmatter(b)->0;
            let lo = block.content_span.start as int;
            let hi = block.content_span.end as int;
            &&& nodes_in(lo, hi, block.entries)
            &&& found_in(lo, hi, block.diagnostics)
        }),
{
    promises::law_block_spans_nest(b);
    let bom = fm::bom_len(b);
    let start = bom + toml::fence_line(b, bom)->0;
    let rest = text::piece(b, start, b.len() as int);
    let p = toml::closing_fence(rest, 0)->0;
    promises::lemma_closing_fence(rest, 0);
    let content = text::piece(rest, 0, p);
    assert(content.len() == p);
    let src = Source { bytes: content, base: start };
    let r0 = Reading { pos: 0, found: Seq::empty(), limit_hit: false };
    assert(src.fits());
    lemma_body_in(src, r0, Seq::empty());
    let (r1, top) = grammar::body_rest(src, r0, Seq::empty());
    let none = Document { entries: Seq::empty(), taken: Set::empty() };
    lemma_all_joined_in(src, none, r1, top);
    let (doc, r2) = grammar::all_joined(none, r1, top);
    lemma_tables_in(src, doc, r2);
    let (d, s) = grammar::tables_rest(src, doc, r2);
    lemma_nodes_wider(src.base, src.base + s.pos, end_of(src), d.entries);
}

} // verus!

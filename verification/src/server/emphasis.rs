//! What the tokens of a document mark: every emphasised character, and no other.
use vstd::prelude::*;
use crate::block::{Node, Tree};
use crate::diagnostic;
use crate::lines;
use crate::server::position;
use crate::server::semantic_tokens;
use crate::server::semantic_tokens::{EmphasisRegion, Spot};

verus! {

/// Whether a node is emphasised, under a modifier: 1 where it is strong, 2 where it is
/// stressed, 4 where it is struck out.
pub open spec fn is_marked(node: Node, bit: u32) -> bool {
    ||| node.kind is Strong && bit == 1
    ||| node.kind is Emphasis && bit == 2
    ||| node.kind is Strikethrough && bit == 4
}

proof fn lemma_run(nodes: Seq<Node>, i: int, bit: u32) -> (run: int)
    requires
        0 <= i < nodes.len(),
        is_marked(nodes[i], bit),
    ensures
        0 <= run < semantic_tokens::runs_of(nodes).len(),
        semantic_tokens::runs_of(nodes)[run] == (EmphasisRegion {
            start: nodes[i].span.start,
            end: nodes[i].span.end,
            modifiers: bit,
        }),
    decreases nodes.len(),
{
    let rest = semantic_tokens::runs_of(nodes.drop_last());
    if i == nodes.len() - 1 {
        rest.len() as int
    } else {
        assert(nodes.drop_last()[i] == nodes[i]);
        let run = lemma_run(nodes.drop_last(), i, bit);
        assert(semantic_tokens::runs_of(nodes)[run] == rest[run]);
        run
    }
}

proof fn lemma_node(nodes: Seq<Node>, run: int) -> (i: int)
    requires
        0 <= run < semantic_tokens::runs_of(nodes).len(),
    ensures
        0 <= i < nodes.len(),
        ({
            let r = semantic_tokens::runs_of(nodes)[run];
            &&& r.start == nodes[i].span.start
            &&& r.end == nodes[i].span.end
            &&& is_marked(nodes[i], r.modifiers)
        }),
    decreases nodes.len(),
{
    let rest = semantic_tokens::runs_of(nodes.drop_last());
    if run < rest.len() {
        let i = lemma_node(nodes.drop_last(), run);
        assert(nodes.drop_last()[i] == nodes[i]);
        assert(semantic_tokens::runs_of(nodes)[run] == rest[run]);
        i
    } else {
        nodes.len() - 1
    }
}

proof fn lemma_piece(b: Seq<u8>, start: int, end: int, at: int) -> (k: int)
    requires
        0 <= start <= at < end <= b.len(),
        b[at] != 10,
        b[at] != 13,
    ensures
        0 <= k < semantic_tokens::pieces(b, start, end).len(),
        semantic_tokens::pieces(b, start, end)[k].0 <= at
            < semantic_tokens::pieces(b, start, end)[k].1,
    decreases end - start,
{
    let n = lines::line_feed(b, start);
    lines::lemma_line_feed(b, start);
    let all = semantic_tokens::pieces(b, start, end);
    if n >= end {
        0
    } else if at < n {
        assert(at < lines::line_text_end(b, start));
        assert(all[0] == (start, lines::line_text_end(b, start)));
        0
    } else {
        assert(at != n);
        let k = lemma_piece(b, n + 1, end, at);
        assert(all[k + 1] == semantic_tokens::pieces(b, n + 1, end)[k]);
        k + 1
    }
}

proof fn lemma_spot(b: Seq<u8>, list: Seq<(int, int)>, m: u32, k: int, at: int) -> (i: int)
    requires
        0 <= k < list.len(),
        list[k].0 <= at < list[k].1,
        position::units(b[at]) > 0,
    ensures
        0 <= i < semantic_tokens::spots(b, list, m).len(),
        semantic_tokens::spots(b, list, m)[i] == (Spot {
            start: list[k].0,
            end: list[k].1,
            modifiers: m,
        }),
    decreases list.len(),
{
    let rest = semantic_tokens::spots(b, list.drop_first(), m);
    let all = semantic_tokens::spots(b, list, m);
    if k == 0 {
        position::lemma_width_split(b, list[0].0, at, list[0].1);
        position::lemma_width_split(b, at, at + 1, list[0].1);
        assert(position::width(b, at, at + 1) == position::width(b, at, at) + position::units(
            b[at],
        ));
        0
    } else {
        assert(list.drop_first()[k - 1] == list[k]);
        let i = lemma_spot(b, list.drop_first(), m, k - 1, at);
        if position::width(b, list[0].0, list[0].1) > 0 {
            assert(all[i + 1] == rest[i]);
            i + 1
        } else {
            i
        }
    }
}

proof fn lemma_in_all(
    b: Seq<u8>,
    regions: Seq<EmphasisRegion>,
    from: int,
    to: int,
    r: int,
    s: Spot,
)
    requires
        0 <= r < regions.len(),
        semantic_tokens::region_spots(b, regions[r], from, to).contains(s),
    ensures
        semantic_tokens::all_spots(b, regions, from, to).contains(s),
    decreases regions.len(),
{
    let most = regions.drop_last();
    if r < regions.len() - 1 {
        assert(most[r] == regions[r]);
        lemma_in_all(b, most, from, to, r, s);
    }
    diagnostic::lemma_either(
        semantic_tokens::all_spots(b, most, from, to),
        semantic_tokens::region_spots(b, regions.last(), from, to),
        s,
    );
}

/// Every emphasised character is marked: where a strong, stressed or struck node
/// covers a character that ends no line, between the two offsets, a token covers it
/// too, with the modifier of the node.
pub proof fn law_every_emphasised_character_is_marked(
    tree: Tree,
    regions: Seq<EmphasisRegion>,
    from: int,
    to: int,
    i: int,
    bit: u32,
    at: int,
)
    requires
        tree.wf(),
        semantic_tokens::are_regions(tree, regions),
        0 <= from <= at < to <= tree.text().len(),
        0 <= i < tree.nodes@.len(),
        is_marked(tree.nodes@[i], bit),
        tree.nodes@[i].span.start <= at < tree.nodes@[i].span.end,
        tree.text()[at] != 10,
        tree.text()[at] != 13,
        !(128 <= tree.text()[at] <= 191),
    ensures
        exists|s: Spot| #[trigger]
            semantic_tokens::all_spots(tree.text(), regions, from, to).contains(s) && s.start <= at
                < s.end && s.modifiers & bit != 0,
{
    let b = tree.text();
    let run = lemma_run(tree.nodes@, i, bit);
    semantic_tokens::law_regions_carry_every_run(tree, regions, run, at);
    let r = choose|r: int|
        0 <= r < regions.len() && (#[trigger] regions[r]).start <= at < regions[r].end
            && regions[r].modifiers & bit != 0;
    let region = regions[r];
    let start = semantic_tokens::larger(region.start as int, from);
    let end = semantic_tokens::smaller(region.end as int, to);
    let list = semantic_tokens::pieces(b, start, end);
    let k = lemma_piece(b, start, end, at);
    let x = lemma_spot(b, list, region.modifiers, k, at);
    let s = Spot { start: list[k].0, end: list[k].1, modifiers: region.modifiers };
    assert(semantic_tokens::region_spots(b, region, from, to)[x] == s);
    lemma_in_all(b, regions, from, to, r, s);
    assert(semantic_tokens::all_spots(b, regions, from, to).contains(s));
}

proof fn lemma_spot_of(
    b: Seq<u8>,
    list: Seq<(int, int)>,
    m: u32,
    s: Spot,
) -> (k: int)
    requires
        semantic_tokens::spots(b, list, m).contains(s),
    ensures
        0 <= k < list.len(),
        s == (Spot { start: list[k].0, end: list[k].1, modifiers: m }),
    decreases list.len(),
{
    let rest = semantic_tokens::spots(b, list.drop_first(), m);
    if list.len() == 0 {
        0
    } else {
        let first = Spot { start: list[0].0, end: list[0].1, modifiers: m };
        if position::width(b, list[0].0, list[0].1) > 0 {
            diagnostic::lemma_either(seq![first], rest, s);
        }
        if rest.contains(s) {
            let k = lemma_spot_of(b, list.drop_first(), m, s);
            k + 1
        } else {
            assert(seq![first].contains(s));
            let y = choose|y: int| 0 <= y < 1 && seq![first][y] == s;
            0
        }
    }
}

proof fn lemma_pieces_unbroken(b: Seq<u8>, start: int, end: int, k: int)
    requires
        0 <= start,
        end <= b.len(),
        0 <= k < semantic_tokens::pieces(b, start, end).len(),
    ensures
        ({
            let p = semantic_tokens::pieces(b, start, end)[k];
            &&& start <= p.0 <= p.1 <= end
            &&& forall|x: int| p.0 <= x < p.1 ==> #[trigger] b[x] != 10
        }),
    decreases end - start,
{
    let n = lines::line_feed(b, start);
    let all = semantic_tokens::pieces(b, start, end);
    if start < end {
        lines::lemma_line_feed(b, start);
        lemma_none_before(b, start);
        if n < end && k > 0 {
            assert(all[k] == semantic_tokens::pieces(b, n + 1, end)[k - 1]);
            lemma_pieces_unbroken(b, n + 1, end, k - 1);
        }
    }
}

proof fn lemma_none_before(b: Seq<u8>, i: int)
    requires
        0 <= i <= b.len(),
    ensures
        forall|x: int| i <= x < lines::line_feed(b, i) ==> #[trigger] b[x] != 10,
    decreases b.len() - i,
{
    if i < b.len() && b[i] != 10 {
        lemma_none_before(b, i + 1);
    }
}

proof fn lemma_region_of(
    b: Seq<u8>,
    regions: Seq<EmphasisRegion>,
    from: int,
    to: int,
    s: Spot,
) -> (r: int)
    requires
        semantic_tokens::all_spots(b, regions, from, to).contains(s),
    ensures
        0 <= r < regions.len(),
        semantic_tokens::region_spots(b, regions[r], from, to).contains(s),
    decreases regions.len(),
{
    if regions.len() == 0 {
        0
    } else {
        let most = regions.drop_last();
        diagnostic::lemma_either(
            semantic_tokens::all_spots(b, most, from, to),
            semantic_tokens::region_spots(b, regions.last(), from, to),
            s,
        );
        if semantic_tokens::all_spots(b, most, from, to).contains(s) {
            let r = lemma_region_of(b, most, from, to, s);
            assert(most[r] == regions[r]);
            r
        } else {
            regions.len() - 1
        }
    }
}

/// Nothing else is marked: what a token covers lies between the two offsets, on one
/// line, and for each of its modifiers inside a node of that kind.
pub proof fn law_only_emphasis_is_marked(
    tree: Tree,
    regions: Seq<EmphasisRegion>,
    from: int,
    to: int,
    s: Spot,
    bit: u32,
) -> (i: int)
    requires
        semantic_tokens::are_regions(tree, regions),
        0 <= from,
        to <= tree.text().len(),
        semantic_tokens::all_spots(tree.text(), regions, from, to).contains(s),
        bit == 1 || bit == 2 || bit == 4,
        s.modifiers & bit != 0,
    ensures
        from <= s.start <= s.end <= to,
        forall|x: int| s.start <= x < s.end ==> #[trigger] tree.text()[x] != 10,
        0 <= i < tree.nodes@.len(),
        is_marked(tree.nodes@[i], bit),
        tree.nodes@[i].span.start <= s.start,
        s.end <= tree.nodes@[i].span.end,
{
    let b = tree.text();
    let r = lemma_region_of(b, regions, from, to, s);
    let region = regions[r];
    let start = semantic_tokens::larger(region.start as int, from);
    let end = semantic_tokens::smaller(region.end as int, to);
    let k = lemma_spot_of(b, semantic_tokens::pieces(b, start, end), region.modifiers, s);
    lemma_pieces_unbroken(b, start, end, k);
    semantic_tokens::law_modifiers_come_from_runs(tree, regions, r, bit);
    let runs = semantic_tokens::runs_of(tree.nodes@);
    let run = choose|run: int|
        0 <= run < runs.len() && (#[trigger] runs[run]).start <= region.start && region.end
            <= runs[run].end && runs[run].modifiers & bit != 0;
    let i = lemma_node(tree.nodes@, run);
    lemma_one_bit(runs[run].modifiers, bit);
    i
}

proof fn lemma_one_bit(m: u32, bit: u32)
    requires
        m == 1 || m == 2 || m == 4,
        bit == 1 || bit == 2 || bit == 4,
        m & bit != 0,
    ensures
        m == bit,
{
    assert(m == bit) by (bit_vector)
        requires
            m == 1 || m == 2 || m == 4,
            bit == 1 || bit == 2 || bit == 4,
            m & bit != 0,
    ;
}

/// A stream has five numbers for each token, of which the fourth is the place of the
/// one token type in the legend.
pub proof fn law_streams_have_five_numbers_for_each_token(
    list: Seq<semantic_tokens::Token>,
    i: int,
)
    requires
        0 <= i < list.len(),
    ensures
        semantic_tokens::encoded(list).len() == 5 * list.len(),
        semantic_tokens::encoded(list)[5 * i + 3] == 0,
        semantic_tokens::encoded(list)[5 * i + 2] == list[i].length,
        semantic_tokens::encoded(list)[5 * i + 4] == list[i].modifiers,
    decreases list.len(),
{
    let rest = list.drop_last();
    lemma_stream_len(rest);
    if i < rest.len() {
        assert(rest[i] == list[i]);
        law_streams_have_five_numbers_for_each_token(rest, i);
    }
}

proof fn lemma_stream_len(list: Seq<semantic_tokens::Token>)
    ensures
        semantic_tokens::encoded(list).len() == 5 * list.len(),
    decreases list.len(),
{
    if list.len() > 0 {
        lemma_stream_len(list.drop_last());
    }
}

} // verus!

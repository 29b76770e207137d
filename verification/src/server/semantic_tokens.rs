//! Semantic tokens: runs of emphasis, and the legend that names them.
//!
//! There is one token type, and the kinds of emphasis are modifiers of it, so
//! that runs which overlap become tokens which do not.
use vstd::prelude::*;
use crate::block::{ElementKind, Node, Tree};
use crate::lines;
use crate::lines::CR;
use crate::server::position;
use crate::server::position::{Position, Range};
use crate::server::workspaces;
use crate::server::workspaces::Workspaces;
use crate::text;

verus! {

/// The name of the token type.
pub const SEMANTIC_TOKEN_TYPE_MARKUP: &'static str = "markup";

/// The name of the modifier of strong runs.
pub const SEMANTIC_MODIFIER_BOLD: &'static str = "bold";

/// The name of the modifier of emphasis runs.
pub const SEMANTIC_MODIFIER_ITALIC: &'static str = "italic";

/// The name of the modifier of struck runs.
pub const SEMANTIC_MODIFIER_STRIKETHROUGH: &'static str = "strikethrough";

/// The token type's place in the legend.
pub const SEMANTIC_TOKEN_TYPE_MARKUP_INDEX: u32 = 0;

/// The modifier bit of strong runs.
pub const SEMANTIC_MODIFIER_BOLD_BIT: u32 = 1;

/// The modifier bit of emphasis runs.
pub const SEMANTIC_MODIFIER_ITALIC_BIT: u32 = 2;

/// The modifier bit of struck runs.
pub const SEMANTIC_MODIFIER_STRIKETHROUGH_BIT: u32 = 4;

/// A token stream, five numbers for each token.
#[derive(Clone, Debug, PartialEq, Eq)]
pub struct SemanticTokens {
    pub data: Vec<usize>,
}

/// A stretch of text and the modifiers of the runs that cover it.
#[derive(Clone, Copy, Debug, PartialEq, Eq, Structural)]
pub struct EmphasisRegion {
    pub start: usize,
    pub end: usize,
    pub modifiers: u32,
}

// Runs and regions.

/// The modifier bit of a kind of node.
pub open spec fn bit_of(kind: ElementKind) -> Option<u32> {
    match kind {
        ElementKind::Strong => Some(SEMANTIC_MODIFIER_BOLD_BIT),
        ElementKind::Emphasis => Some(SEMANTIC_MODIFIER_ITALIC_BIT),
        ElementKind::Strikethrough => Some(SEMANTIC_MODIFIER_STRIKETHROUGH_BIT),
        _ => None,
    }
}

fn emphasis_modifier_bit(kind: &ElementKind) -> (r: Option<u32>)
    ensures
        r == bit_of(*kind),
{
    match kind {
        ElementKind::Strong => Some(SEMANTIC_MODIFIER_BOLD_BIT),
        ElementKind::Emphasis => Some(SEMANTIC_MODIFIER_ITALIC_BIT),
        ElementKind::Strikethrough => Some(SEMANTIC_MODIFIER_STRIKETHROUGH_BIT),
        _ => None,
    }
}

/// The runs of emphasis among some nodes: where each starts and ends, and its bit.
pub open spec fn runs_of(nodes: Seq<Node>) -> Seq<EmphasisRegion>
    decreases nodes.len(),
{
    if nodes.len() == 0 {
        Seq::empty()
    } else {
        let rest = runs_of(nodes.drop_last());
        match bit_of(nodes.last().kind) {
            Some(bit) => rest.push(
                EmphasisRegion {
                    start: nodes.last().span.start,
                    end: nodes.last().span.end,
                    modifiers: bit,
                },
            ),
            None => rest,
        }
    }
}

/// The modifiers of the runs that cover a stretch, together.
pub open spec fn mask(runs: Seq<EmphasisRegion>, start: int, end: int) -> u32
    decreases runs.len(),
{
    if runs.len() == 0 {
        0
    } else {
        let rest = mask(runs.drop_last(), start, end);
        if runs.last().start <= start && end <= runs.last().end {
            rest | runs.last().modifiers
        } else {
            rest
        }
    }
}

/// Whether a run starts or ends at an offset.
pub open spec fn is_cut(runs: Seq<EmphasisRegion>, at: usize) -> bool {
    exists|i: int|
        0 <= i < runs.len() && ((#[trigger] runs[i]).start == at || runs[i].end == at)
}

/// Whether a list ascends.
pub open spec fn ascending(cuts: Seq<usize>) -> bool {
    forall|i: int, j: int| 0 <= i < j < cuts.len() ==> #[trigger] cuts[i] < #[trigger] cuts[j]
}

/// Whether a list holds in ascending order the offsets where runs start or end.
pub open spec fn are_cuts(runs: Seq<EmphasisRegion>, cuts: Seq<usize>) -> bool {
    &&& ascending(cuts)
    &&& forall|at: usize| #[trigger] cuts.contains(at) <==> is_cut(runs, at)
}

/// The regions between the first `n` pairs of neighbouring cuts.
pub open spec fn regions_between(
    runs: Seq<EmphasisRegion>,
    cuts: Seq<usize>,
    n: int,
) -> Seq<EmphasisRegion>
    decreases n,
{
    if n <= 0 {
        Seq::empty()
    } else {
        let rest = regions_between(runs, cuts, n - 1);
        let modifiers = mask(runs, cuts[n - 1] as int, cuts[n] as int);
        if modifiers != 0 {
            rest.push(EmphasisRegion { start: cuts[n - 1], end: cuts[n], modifiers })
        } else {
            rest
        }
    }
}

/// Whether a list holds the regions of a tree: the stretches between
/// neighbouring cuts that some run covers.
pub open spec fn are_regions(tree: Tree, regions: Seq<EmphasisRegion>) -> bool {
    exists|cuts: Seq<usize>| #[trigger]
        are_cuts(runs_of(tree.nodes@), cuts) && regions == regions_between(
            runs_of(tree.nodes@),
            cuts,
            cuts.len() - 1,
        )
}

fn collect_runs(tree: &Tree) -> (r: Vec<EmphasisRegion>)
    ensures
        r@ == runs_of(tree.nodes@),
{
    let mut r: Vec<EmphasisRegion> = Vec::new();
    let mut i: usize = 0;
    assert(tree.nodes@.take(0) =~= Seq::<Node>::empty());
    while i < tree.nodes.len()
        invariant
            i <= tree.nodes@.len(),
            r@ == runs_of(tree.nodes@.take(i as int)),
        decreases tree.nodes@.len() - i,
    {
        let node = &tree.nodes[i];
        assert(tree.nodes@.take(i + 1).drop_last() =~= tree.nodes@.take(i as int));
        if let Some(bit) = emphasis_modifier_bit(&node.kind) {
            r.push(
                EmphasisRegion { start: node.span.start, end: node.span.end, modifiers: bit },
            );
        }
        i += 1;
    }
    assert(tree.nodes@.take(i as int) =~= tree.nodes@);
    r
}

fn insert_cut(cuts: &mut Vec<usize>, at: usize)
    requires
        ascending(old(cuts)@),
    ensures
        ascending(final(cuts)@),
        forall|x: usize| #[trigger]
            final(cuts)@.contains(x) <==> (x == at || old(cuts)@.contains(x)),
{
    let ghost c0 = cuts@;
    let mut i: usize = 0;
    while i < cuts.len() && cuts[i] < at
        invariant
            i <= cuts@.len(),
            cuts@ == c0,
            forall|k: int| 0 <= k < i ==> #[trigger] c0[k] < at,
        decreases cuts@.len() - i,
    {
        i += 1;
    }
    if i < cuts.len() && cuts[i] == at {
        assert(c0[i as int] == at);
        return;
    }
    cuts.insert(i, at);
    proof {
        assert(cuts@[i as int] == at);
        assert forall|x: usize| #[trigger] cuts@.contains(x) <==> (x == at || c0.contains(x)) by {
            if c0.contains(x) {
                let k = c0.index_of(x);
                if k < i {
                    assert(cuts@[k] == x);
                } else {
                    assert(cuts@[k + 1] == x);
                }
            }
            if cuts@.contains(x) && x != at {
                let k = cuts@.index_of(x);
                if k < i {
                    assert(c0[k] == x);
                } else {
                    assert(c0[k - 1] == x);
                }
            }
        }
    }
}

fn collect_cuts(runs: &Vec<EmphasisRegion>) -> (cuts: Vec<usize>)
    ensures
        are_cuts(runs@, cuts@),
{
    let mut cuts: Vec<usize> = Vec::new();
    let mut i: usize = 0;
    while i < runs.len()
        invariant
            i <= runs@.len(),
            are_cuts(runs@.take(i as int), cuts@),
        decreases runs@.len() - i,
    {
        let ghost seen = runs@.take(i as int);
        let ghost next = runs@.take(i + 1);
        insert_cut(&mut cuts, runs[i].start);
        insert_cut(&mut cuts, runs[i].end);
        proof {
            assert forall|at: usize| #[trigger] cuts@.contains(at) <==> is_cut(next, at) by {
                if is_cut(seen, at) {
                    let k = choose|k: int|
                        0 <= k < seen.len() && ((#[trigger] seen[k]).start == at || seen[k].end
                            == at);
                    assert(next[k] == seen[k]);
                }
                if at == runs@[i as int].start || at == runs@[i as int].end {
                    assert(next[i as int] == runs@[i as int]);
                }
                if is_cut(next, at) {
                    let k = choose|k: int|
                        0 <= k < next.len() && ((#[trigger] next[k]).start == at || next[k].end
                            == at);
                    if k < i {
                        assert(seen[k] == next[k]);
                    }
                }
            }
        }
        i += 1;
    }
    assert(runs@.take(i as int) =~= runs@);
    cuts
}

fn mask_of(runs: &Vec<EmphasisRegion>, start: usize, end: usize) -> (r: u32)
    ensures
        r == mask(runs@, start as int, end as int),
{
    let mut r: u32 = 0;
    let mut i: usize = 0;
    assert(runs@.take(0) =~= Seq::<EmphasisRegion>::empty());
    while i < runs.len()
        invariant
            i <= runs@.len(),
            r == mask(runs@.take(i as int), start as int, end as int),
        decreases runs@.len() - i,
    {
        assert(runs@.take(i + 1).drop_last() =~= runs@.take(i as int));
        if runs[i].start <= start && end <= runs[i].end {
            r = r | runs[i].modifiers;
        }
        i += 1;
    }
    assert(runs@.take(i as int) =~= runs@);
    r
}

/// Cut the overlapping runs of a tree into regions that do not overlap.
pub fn collect_emphasis_regions(tree: &Tree) -> (regions: Vec<EmphasisRegion>)
    ensures
        are_regions(*tree, regions@),
{
    let runs = collect_runs(tree);
    let cuts = collect_cuts(&runs);
    let mut regions: Vec<EmphasisRegion> = Vec::new();
    if cuts.len() == 0 {
        assert(are_cuts(runs_of(tree.nodes@), cuts@));
        return regions;
    }
    let mut i: usize = 1;
    while i < cuts.len()
        invariant
            1 <= i <= cuts@.len(),
            regions@ == regions_between(runs@, cuts@, i - 1),
        decreases cuts@.len() - i,
    {
        let modifiers = mask_of(&runs, cuts[i - 1], cuts[i]);
        if modifiers != 0 {
            regions.push(EmphasisRegion { start: cuts[i - 1], end: cuts[i], modifiers });
        }
        i += 1;
    }
    assert(are_cuts(runs_of(tree.nodes@), cuts@));
    regions
}

// Tokens.

/// A piece of a region within one line.
#[verifier::ext_equal]
pub struct Spot {
    pub start: int,
    pub end: int,
    pub modifiers: u32,
}

/// The pieces of a stretch of text within lines, without what ends the lines.
pub open spec fn pieces(b: Seq<u8>, start: int, end: int) -> Seq<(int, int)>
    decreases end - start,
{
    if start < 0 || start >= end || end > b.len() {
        Seq::empty()
    } else {
        let n = lines::line_feed(b, start);
        if n >= end {
            seq![(start, end)]
        } else {
            proof {
                lines::lemma_line_feed(b, start);
            }
            seq![(start, lines::line_text_end(b, start))] + pieces(b, n + 1, end)
        }
    }
}

/// The pieces that hold a character.
pub open spec fn spots(b: Seq<u8>, pieces: Seq<(int, int)>, modifiers: u32) -> Seq<Spot>
    decreases pieces.len(),
{
    if pieces.len() == 0 {
        Seq::empty()
    } else {
        let (start, end) = pieces[0];
        let rest = spots(b, pieces.drop_first(), modifiers);
        if position::width(b, start, end) > 0 {
            seq![Spot { start, end, modifiers }] + rest
        } else {
            rest
        }
    }
}

pub open spec fn larger(a: int, b: int) -> int {
    if a >= b {
        a
    } else {
        b
    }
}

pub open spec fn smaller(a: int, b: int) -> int {
    if a <= b {
        a
    } else {
        b
    }
}

/// The spots of a region within a stretch of the text.
pub open spec fn region_spots(b: Seq<u8>, region: EmphasisRegion, from: int, to: int) -> Seq<Spot> {
    spots(
        b,
        pieces(b, larger(region.start as int, from), smaller(region.end as int, to)),
        region.modifiers,
    )
}

/// The spots of the regions within a stretch of the text.
pub open spec fn all_spots(b: Seq<u8>, regions: Seq<EmphasisRegion>, from: int, to: int) -> Seq<Spot>
    decreases regions.len(),
{
    if regions.len() == 0 {
        Seq::empty()
    } else {
        all_spots(b, regions.drop_last(), from, to) + region_spots(b, regions.last(), from, to)
    }
}

/// A token: its place, its length in UTF-16 code units and its modifiers.
#[verifier::ext_equal]
pub struct Token {
    pub line: nat,
    pub start: nat,
    pub length: nat,
    pub modifiers: nat,
}

/// The token of a spot.
pub open spec fn token_at(b: Seq<u8>, s: Spot) -> Token {
    Token {
        line: position::row(b, s.start),
        start: position::column(b, s.start),
        length: position::width(b, s.start, s.end),
        modifiers: s.modifiers as nat,
    }
}

/// The tokens of some spots.
pub open spec fn tokens(b: Seq<u8>, spots: Seq<Spot>) -> Seq<Token> {
    spots.map_values(|s: Spot| token_at(b, s))
}

/// The numbers of a token, behind the line and the start of the one before it.
pub open spec fn five(line: nat, start: nat, t: Token) -> Seq<nat> {
    seq![
        (t.line - line) as nat,
        if t.line == line {
            (t.start - start) as nat
        } else {
            t.start
        },
        t.length,
        SEMANTIC_TOKEN_TYPE_MARKUP_INDEX as nat,
        t.modifiers,
    ]
}

/// The stream of some tokens.
pub open spec fn encoded(list: Seq<Token>) -> Seq<nat>
    decreases list.len(),
{
    if list.len() == 0 {
        Seq::empty()
    } else {
        let rest = list.drop_last();
        encoded(rest) + if rest.len() == 0 {
            five(0, 0, list.last())
        } else {
            five(rest.last().line, rest.last().start, list.last())
        }
    }
}

/// The numbers of a stream.
pub open spec fn numbers(data: Seq<usize>) -> Seq<nat> {
    data.map_values(|n: usize| n as nat)
}

/// Further on in a text the line is not lower, and in one line the column grows
/// by the width of what lies between.
proof fn lemma_forward(b: Seq<u8>, s: int, t: int)
    requires
        0 <= s <= t <= b.len(),
    ensures
        position::row(b, s) <= position::row(b, t),
        position::row(b, s) == position::row(b, t) ==> position::column(b, t) == position::column(
            b,
            s,
        ) + position::width(b, s, t),
    decreases t - s,
{
    if s < t {
        lemma_forward(b, s, t - 1);
        position::lemma_line_start(b, t - 1);
    }
}

/// Whether spots follow each other without overlap.
pub open spec fn in_sequence(list: Seq<Spot>) -> bool {
    &&& forall|i: int| 0 <= i < list.len() ==> 0 <= (#[trigger] list[i]).start <= list[i].end
    &&& forall|i: int, j: int|
        0 <= i < j < list.len() ==> (#[trigger] list[i]).end <= (#[trigger] list[j]).start
}

/// Whether regions follow each other without overlap.
pub open spec fn separate(regions: Seq<EmphasisRegion>) -> bool {
    &&& forall|i: int| 0 <= i < regions.len() ==> (#[trigger] regions[i]).start < regions[i].end
    &&& forall|i: int, j: int|
        0 <= i < j < regions.len() ==> (#[trigger] regions[i]).end <= (#[trigger] regions[j]).start
}

proof fn lemma_regions_separate(runs: Seq<EmphasisRegion>, cuts: Seq<usize>, n: int)
    requires
        ascending(cuts),
        0 <= n < cuts.len(),
    ensures
        separate(regions_between(runs, cuts, n)),
        forall|i: int|
            0 <= i < regions_between(runs, cuts, n).len() ==> (#[trigger] regions_between(
                runs,
                cuts,
                n,
            )[i]).end <= cuts[n],
    decreases n,
{
    if n > 0 {
        lemma_regions_separate(runs, cuts, n - 1);
        assert(cuts[n - 1] < cuts[n]);
    }
}

/// The place of the last token.
struct Previous {
    line: usize,
    start: usize,
}

impl Previous {
    spec fn of(self, b: Seq<u8>, list: Seq<Spot>) -> bool {
        if list.len() == 0 {
            self.line == 0 && self.start == 0
        } else {
            self.line == position::row(b, list.last().start) && self.start == position::column(
                b,
                list.last().start,
            )
        }
    }
}

fn push_token(
    source: &str,
    start: usize,
    end: usize,
    modifiers: u32,
    prev: &mut Previous,
    data: &mut Vec<usize>,
    Ghost(list): Ghost<Seq<Spot>>,
)
    requires
        start <= end <= text::utf8(source@).len(),
        old(prev).of(text::utf8(source@), list),
        numbers(old(data)@) == encoded(tokens(text::utf8(source@), list)),
        list.len() > 0 ==> 0 <= list.last().start <= start,
    ensures
        ({
            let b = text::utf8(source@);
            let longer = if position::width(b, start as int, end as int) > 0 {
                list.push(Spot { start: start as int, end: end as int, modifiers })
            } else {
                list
            };
            &&& final(prev).of(b, longer)
            &&& numbers(final(data)@) == encoded(tokens(b, longer))
        }),
{
    let ghost b = text::utf8(source@);
    let ghost d0 = data@;
    let length = position::utf16_width(source, start, end);
    if length == 0 {
        return;
    }
    let at = position::position_of(source, start);
    proof {
        if list.len() > 0 {
            lemma_forward(b, list.last().start, start as int);
        }
    }
    let delta_line: usize = at.line - prev.line;
    let delta_start: usize = if delta_line == 0 {
        at.character - prev.start
    } else {
        at.character
    };
    data.push(delta_line);
    data.push(delta_start);
    data.push(length);
    data.push(SEMANTIC_TOKEN_TYPE_MARKUP_INDEX as usize);
    data.push(modifiers as usize);
    prev.line = at.line;
    prev.start = at.character;
    proof {
        let spot = Spot { start: start as int, end: end as int, modifiers };
        let before = tokens(b, list);
        let after = tokens(b, list.push(spot));
        assert(after.drop_last() =~= before);
        assert(after.last() == token_at(b, spot));
        if list.len() > 0 {
            assert(before.last() == token_at(b, list.last()));
        }
        let added = five(
            if list.len() > 0 {
                position::row(b, list.last().start)
            } else {
                0
            },
            if list.len() > 0 {
                position::column(b, list.last().start)
            } else {
                0
            },
            token_at(b, spot),
        );
        assert(numbers(data@) =~= numbers(d0) + added);
    }
}

/// Encode a region as tokens.
fn push_region(
    source: &str,
    region: EmphasisRegion,
    from: usize,
    to: usize,
    prev: &mut Previous,
    data: &mut Vec<usize>,
    Ghost(list): Ghost<Seq<Spot>>,
)
    requires
        to <= text::utf8(source@).len(),
        old(prev).of(text::utf8(source@), list),
        numbers(old(data)@) == encoded(tokens(text::utf8(source@), list)),
        in_sequence(list),
        forall|i: int| 0 <= i < list.len() ==> (#[trigger] list[i]).end <= region.start,
    ensures
        ({
            let b = text::utf8(source@);
            let longer = list + region_spots(b, region, from as int, to as int);
            &&& final(prev).of(b, longer)
            &&& numbers(final(data)@) == encoded(tokens(b, longer))
            &&& in_sequence(longer)
            &&& forall|i: int|
                0 <= i < longer.len() ==> (#[trigger] longer[i]).end <= larger(
                    region.start as int,
                    region.end as int,
                )
        }),
{
    let b = source.as_bytes();
    let ghost m = region.modifiers;
    let start: usize = if region.start >= from {
        region.start
    } else {
        from
    };
    let end: usize = if region.end <= to {
        region.end
    } else {
        to
    };
    let ghost goal = list + region_spots(b@, region, from as int, to as int);
    let ghost mut done = list;
    let mut s: usize = start;
    if start >= end {
        assert(pieces(b@, start as int, end as int) =~= Seq::<(int, int)>::empty());
        assert(goal =~= list);
        return;
    }
    while s < end
        invariant
            region.start <= s,
            end <= b@.len(),
            end <= region.end,
            b@ == text::utf8(source@),
            m == region.modifiers,
            done + spots(b@, pieces(b@, s as int, end as int), m) == goal,
            prev.of(b@, done),
            numbers(data@) == encoded(tokens(b@, done)),
            in_sequence(done),
            forall|i: int| 0 <= i < done.len() ==> (#[trigger] done[i]).end <= s,
            forall|i: int| 0 <= i < done.len() ==> (#[trigger] done[i]).end <= region.end,
        decreases b@.len() + 1 - s,
    {
        let n = lines::find_line_feed(b, s);
        let last: bool = n >= end;
        let stop: usize = if last {
            end
        } else if s < n && b[n - 1] == CR {
            n - 1
        } else {
            n
        };
        let ghost all = pieces(b@, s as int, end as int);
        let ghost rest = if last {
            Seq::<(int, int)>::empty()
        } else {
            pieces(b@, n + 1, end as int)
        };
        proof {
            lines::lemma_line_feed(b@, s as int);
            assert(all =~= seq![(s as int, stop as int)] + rest);
            assert(all.drop_first() =~= rest);
            assert(all[0] == (s as int, stop as int));
        }
        let ghost spot = Spot { start: s as int, end: stop as int, modifiers: m };
        let ghost longer = if position::width(b@, s as int, stop as int) > 0 {
            done.push(spot)
        } else {
            done
        };
        push_token(source, s, stop, region.modifiers, prev, data, Ghost(done));
        proof {
            assert(longer + spots(b@, rest, m) =~= done + spots(b@, all, m));
            done = longer;
        }
        s = if last {
            end
        } else {
            n + 1
        };
        assert(last ==> pieces(b@, s as int, end as int) =~= rest);
    }
    assert(done + spots(b@, pieces(b@, s as int, end as int), m) =~= done);
}

/// Encode the regions of a text, as far as they lie between two offsets.
fn encode_semantic_tokens(
    source: &str,
    regions: &Vec<EmphasisRegion>,
    from: usize,
    to: usize,
) -> (r: SemanticTokens)
    requires
        to <= text::utf8(source@).len(),
        separate(regions@),
    ensures
        numbers(r.data@) == encoded(
            tokens(
                text::utf8(source@),
                all_spots(text::utf8(source@), regions@, from as int, to as int),
            ),
        ),
        in_sequence(all_spots(text::utf8(source@), regions@, from as int, to as int)),
{
    let ghost b = text::utf8(source@);
    let mut data: Vec<usize> = Vec::new();
    let mut prev = Previous { line: 0, start: 0 };
    let mut i: usize = 0;
    proof {
        assert(regions@.take(0) =~= Seq::<EmphasisRegion>::empty());
        assert(numbers(data@) =~= Seq::<nat>::empty());
        assert(tokens(b, Seq::empty()) =~= Seq::<Token>::empty());
    }
    while i < regions.len()
        invariant
            i <= regions@.len(),
            b == text::utf8(source@),
            to <= b.len(),
            separate(regions@),
            prev.of(b, all_spots(b, regions@.take(i as int), from as int, to as int)),
            numbers(data@) == encoded(
                tokens(b, all_spots(b, regions@.take(i as int), from as int, to as int)),
            ),
            in_sequence(all_spots(b, regions@.take(i as int), from as int, to as int)),
            i > 0 ==> forall|k: int|
                0 <= k < all_spots(b, regions@.take(i as int), from as int, to as int).len() ==> (
                #[trigger] all_spots(b, regions@.take(i as int), from as int, to as int)[k]).end
                    <= regions@[i - 1].end,
        decreases regions@.len() - i,
    {
        let ghost done = all_spots(b, regions@.take(i as int), from as int, to as int);
        proof {
            assert(regions@.take(i + 1).drop_last() =~= regions@.take(i as int));
            assert(regions@[i as int].start < regions@[i as int].end);
            if i > 0 {
                assert(regions@[i - 1].end <= regions@[i as int].start);
            } else {
                assert(regions@.take(0) =~= Seq::<EmphasisRegion>::empty());
            }
        }
        push_region(source, regions[i], from, to, &mut prev, &mut data, Ghost(done));
        i += 1;
    }
    assert(regions@.take(i as int) =~= regions@);
    SemanticTokens { data }
}

/// Whether a stream is that of a document's emphasis between two offsets.
pub open spec fn is_stream(data: Seq<usize>, tree: Tree, from: int, to: int) -> bool {
    exists|regions: Seq<EmphasisRegion>| #[trigger]
        are_regions(tree, regions) && numbers(data) == encoded(
            tokens(tree.text(), all_spots(tree.text(), regions, from, to)),
        )
}

/// The tokens of a document.
pub fn document_tokens(tree: &Tree) -> (r: SemanticTokens)
    ensures
        is_stream(r.data@, *tree, 0, tree.text().len() as int),
{
    let regions = collect_emphasis_regions(tree);
    proof {
        lemma_are_separate(*tree, regions@);
    }
    let n = tree.source.as_str().as_bytes().len();
    encode_semantic_tokens(tree.source.as_str(), &regions, 0, n)
}

/// The tokens of a document between two positions.
pub fn document_tokens_between(tree: &Tree, start: Position, end: Position) -> (r: SemanticTokens)
    ensures
        is_stream(
            r.data@,
            *tree,
            position::offset_at(tree.text(), start),
            position::offset_at(tree.text(), end),
        ),
{
    let regions = collect_emphasis_regions(tree);
    proof {
        lemma_are_separate(*tree, regions@);
    }
    let source = tree.source.as_str();
    let from = position::offset_of(source, start);
    let to = position::offset_of(source, end);
    encode_semantic_tokens(source, &regions, from, to)
}

proof fn lemma_are_separate(tree: Tree, regions: Seq<EmphasisRegion>)
    requires
        are_regions(tree, regions),
    ensures
        separate(regions),
{
    let runs = runs_of(tree.nodes@);
    let cuts = choose|cuts: Seq<usize>| #[trigger]
        are_cuts(runs, cuts) && regions == regions_between(runs, cuts, cuts.len() - 1);
    if cuts.len() > 0 {
        lemma_regions_separate(runs, cuts, cuts.len() - 1);
    }
}

/// The tokens of the document of a URI; none for an unknown one.
pub fn semantic_tokens_full(workspaces: &Workspaces, uri: &str) -> (r: SemanticTokens)
    requires
        workspaces.wf(),
    ensures
        match workspaces::document_of(workspaces@, text::utf8(uri@)) {
            Some(data) => is_stream(r.data@, data.tree, 0, data.tree.text().len() as int),
            None => r.data@.len() == 0,
        },
{
    let Some((view, rel)) = workspaces.resolve_document(uri) else {
        return SemanticTokens { data: Vec::new() };
    };
    let Some(data) = view.file(rel.as_str()) else {
        return SemanticTokens { data: Vec::new() };
    };
    document_tokens(&data.tree)
}

/// The tokens of the document of a URI within a range; none for an unknown one.
pub fn semantic_tokens_range(workspaces: &Workspaces, uri: &str, range: Range) -> (r:
    SemanticTokens)
    requires
        workspaces.wf(),
    ensures
        match workspaces::document_of(workspaces@, text::utf8(uri@)) {
            Some(data) => is_stream(
                r.data@,
                data.tree,
                position::offset_at(data.tree.text(), range.start),
                position::offset_at(data.tree.text(), range.end),
            ),
            None => r.data@.len() == 0,
        },
{
    let Some((view, rel)) = workspaces.resolve_document(uri) else {
        return SemanticTokens { data: Vec::new() };
    };
    let Some(data) = view.file(rel.as_str()) else {
        return SemanticTokens { data: Vec::new() };
    };
    document_tokens_between(&data.tree, range.start, range.end)
}

// Laws.

proof fn lemma_spots(b: Seq<u8>, start: int, end: int, m: u32)
    requires
        0 <= start,
        end <= b.len(),
    ensures
        in_sequence(spots(b, pieces(b, start, end), m)),
        forall|i: int|
            0 <= i < spots(b, pieces(b, start, end), m).len() ==> start <= (#[trigger] spots(
                b,
                pieces(b, start, end),
                m,
            )[i]).start && spots(b, pieces(b, start, end), m)[i].end <= end,
    decreases end - start,
{
    let all = pieces(b, start, end);
    let list = spots(b, all, m);
    if start < end {
        let n = lines::line_feed(b, start);
        lines::lemma_line_feed(b, start);
        let rest = if n >= end {
            Seq::<(int, int)>::empty()
        } else {
            pieces(b, n + 1, end)
        };
        let stop = if n >= end {
            end
        } else {
            lemma_spots(b, n + 1, end, m);
            lines::line_text_end(b, start)
        };
        assert(all =~= seq![(start, stop)] + rest);
        assert(all.drop_first() =~= rest);
        assert(all[0] == (start, stop));
        let later = spots(b, rest, m);
        let spot = Spot { start, end: stop, modifiers: m };
        assert(in_sequence(later));
        assert(list == seq![spot] + later || list == later);
        assert forall|i: int| 0 <= i < list.len() implies start <= (#[trigger] list[i]).start
            && list[i].start <= list[i].end <= end by {
            if list.len() > later.len() {
                if i > 0 {
                    assert(list[i] == later[i - 1]);
                }
            } else {
                assert(list[i] == later[i]);
            }
        }
        assert forall|i: int, j: int| 0 <= i < j < list.len() implies (#[trigger] list[i]).end <= (
        #[trigger] list[j]).start by {
            if list.len() > later.len() {
                assert(list[j] == later[j - 1]);
                if i > 0 {
                    assert(list[i] == later[i - 1]);
                }
            } else {
                assert(list[i] == later[i]);
                assert(list[j] == later[j]);
            }
        }
    } else {
        assert(all =~= Seq::<(int, int)>::empty());
    }
}

proof fn lemma_all_spots(b: Seq<u8>, regions: Seq<EmphasisRegion>, from: int, to: int)
    requires
        0 <= from,
        to <= b.len(),
        separate(regions),
    ensures
        in_sequence(all_spots(b, regions, from, to)),
        forall|i: int|
            0 <= i < all_spots(b, regions, from, to).len() ==> (#[trigger] all_spots(
                b,
                regions,
                from,
                to,
            )[i]).end <= to && regions.len() > 0 && all_spots(b, regions, from, to)[i].end
                <= regions.last().end,
    decreases regions.len(),
{
    if regions.len() > 0 {
        let rest = regions.drop_last();
        let r = regions.last();
        assert(separate(rest));
        lemma_all_spots(b, rest, from, to);
        lemma_spots(b, larger(r.start as int, from), smaller(r.end as int, to), r.modifiers);
        if rest.len() > 0 {
            assert(regions[rest.len() - 1].end <= regions[regions.len() - 1].start);
        }
        assert(r.start < r.end);
    }
}

/// Tokens never overlap: of two tokens the later one lies on a later line, or
/// starts at or behind the end of the other one.
pub proof fn law_tokens_do_not_overlap(
    tree: Tree,
    regions: Seq<EmphasisRegion>,
    from: int,
    to: int,
    i: int,
    j: int,
)
    requires
        are_regions(tree, regions),
        0 <= from,
        to <= tree.text().len(),
        0 <= i < j < tokens(tree.text(), all_spots(tree.text(), regions, from, to)).len(),
    ensures
        ({
            let list = tokens(tree.text(), all_spots(tree.text(), regions, from, to));
            list[i].line < list[j].line || (list[i].line == list[j].line && list[i].start
                + list[i].length <= list[j].start)
        }),
{
    let b = tree.text();
    let list = all_spots(b, regions, from, to);
    lemma_are_separate(tree, regions);
    lemma_all_spots(b, regions, from, to);
    let x = list[i];
    let y = list[j];
    assert(x.end <= y.start);
    assert(y.end <= to);
    assert(0 <= x.start <= x.end);
    assert(0 <= y.start <= y.end);
    lemma_forward(b, x.start, y.start);
    position::lemma_width_split(b, x.start, x.end, y.start);
}

proof fn lemma_mask(runs: Seq<EmphasisRegion>, start: int, end: int, bit: u32)
    ensures
        mask(runs, start, end) & bit != 0 <==> exists|k: int|
            0 <= k < runs.len() && (#[trigger] runs[k]).start <= start && end <= runs[k].end
                && runs[k].modifiers & bit != 0,
    decreases runs.len(),
{
    if runs.len() == 0 {
        assert(0u32 & bit == 0) by (bit_vector);
    } else {
        let rest = runs.drop_last();
        lemma_mask(rest, start, end, bit);
        let a = mask(rest, start, end);
        let c = runs.last().modifiers;
        assert((a | c) & bit != 0 <==> a & bit != 0 || c & bit != 0) by (bit_vector);
        if a & bit != 0 {
            let k = choose|k: int|
                0 <= k < rest.len() && (#[trigger] rest[k]).start <= start && end <= rest[k].end
                    && rest[k].modifiers & bit != 0;
            assert(runs[k] == rest[k]);
        }
        if exists|k: int|
            0 <= k < runs.len() && (#[trigger] runs[k]).start <= start && end <= runs[k].end
                && runs[k].modifiers & bit != 0 {
            let k = choose|k: int|
                0 <= k < runs.len() && (#[trigger] runs[k]).start <= start && end <= runs[k].end
                    && runs[k].modifiers & bit != 0;
            if k < rest.len() {
                assert(rest[k] == runs[k]);
            } else {
                assert(runs[k] == runs.last());
            }
        }
    }
}

/// Around an offset between cuts there are two neighbouring ones.
proof fn lemma_around(cuts: Seq<usize>, at: int, low: int, high: int) -> (k: int)
    requires
        ascending(cuts),
        0 <= low < high < cuts.len(),
        cuts[low] <= at < cuts[high],
    ensures
        low <= k < high,
        cuts[k] <= at < cuts[k + 1],
    decreases high - low,
{
    if high == low + 1 {
        low
    } else if at < cuts[high - 1] {
        lemma_around(cuts, at, low, high - 1)
    } else {
        high - 1
    }
}

proof fn lemma_region_there(runs: Seq<EmphasisRegion>, cuts: Seq<usize>, n: int, k: int)
    requires
        0 <= k < n < cuts.len(),
        mask(runs, cuts[k] as int, cuts[k + 1] as int) != 0,
    ensures
        exists|r: int|
            0 <= r < regions_between(runs, cuts, n).len() && #[trigger] regions_between(
                runs,
                cuts,
                n,
            )[r] == (EmphasisRegion {
                start: cuts[k],
                end: cuts[k + 1],
                modifiers: mask(runs, cuts[k] as int, cuts[k + 1] as int),
            }),
    decreases n,
{
    let goal = EmphasisRegion {
        start: cuts[k],
        end: cuts[k + 1],
        modifiers: mask(runs, cuts[k] as int, cuts[k + 1] as int),
    };
    let all = regions_between(runs, cuts, n);
    if k == n - 1 {
        assert(all[all.len() - 1] == goal);
    } else {
        lemma_region_there(runs, cuts, n - 1, k);
        let before = regions_between(runs, cuts, n - 1);
        let r = choose|r: int| 0 <= r < before.len() && #[trigger] before[r] == goal;
        assert(all[r] == goal);
    }
}

/// No run is lost: where a run covers an offset, so does a region, and it
/// carries the modifier of the run.
pub proof fn law_regions_carry_every_run(
    tree: Tree,
    regions: Seq<EmphasisRegion>,
    run: int,
    at: int,
)
    requires
        are_regions(tree, regions),
        0 <= run < runs_of(tree.nodes@).len(),
        runs_of(tree.nodes@)[run].start <= at < runs_of(tree.nodes@)[run].end,
    ensures
        exists|r: int|
            0 <= r < regions.len() && (#[trigger] regions[r]).start <= at < regions[r].end
                && regions[r].modifiers & runs_of(tree.nodes@)[run].modifiers != 0,
{
    let runs = runs_of(tree.nodes@);
    let x = runs[run];
    let cuts = choose|cuts: Seq<usize>| #[trigger]
        are_cuts(runs, cuts) && regions == regions_between(runs, cuts, cuts.len() - 1);
    assert(is_cut(runs, x.start));
    assert(is_cut(runs, x.end));
    assert(cuts.contains(x.start));
    assert(cuts.contains(x.end));
    let low = cuts.index_of(x.start);
    let high = cuts.index_of(x.end);
    assert(low < high) by {
        if high < low {
            assert(cuts[high] < cuts[low]);
        }
    }
    let k = lemma_around(cuts, at, low, high);
    assert(x.start <= cuts[k]);
    assert(cuts[k + 1] <= x.end);
    lemma_run_bits(tree.nodes@, run);
    let bit = x.modifiers;
    let m = mask(runs, cuts[k] as int, cuts[k + 1] as int);
    assert(bit != 0 ==> bit & bit != 0) by (bit_vector);
    lemma_mask(runs, cuts[k] as int, cuts[k + 1] as int, bit);
    assert(m & bit != 0);
    assert(0u32 & bit == 0) by (bit_vector);
    lemma_region_there(runs, cuts, cuts.len() - 1, k);
}

proof fn lemma_run_bits(nodes: Seq<Node>, run: int)
    requires
        0 <= run < runs_of(nodes).len(),
    ensures
        runs_of(nodes)[run].modifiers != 0,
    decreases nodes.len(),
{
    let rest = runs_of(nodes.drop_last());
    if run < rest.len() {
        lemma_run_bits(nodes.drop_last(), run);
    }
}

/// No modifier is made up: where a region carries one, a run of that kind covers
/// the region.
pub proof fn law_modifiers_come_from_runs(
    tree: Tree,
    regions: Seq<EmphasisRegion>,
    r: int,
    bit: u32,
)
    requires
        are_regions(tree, regions),
        0 <= r < regions.len(),
        regions[r].modifiers & bit != 0,
    ensures
        exists|k: int|
            0 <= k < runs_of(tree.nodes@).len() && (#[trigger] runs_of(tree.nodes@)[k]).start
                <= regions[r].start && regions[r].end <= runs_of(tree.nodes@)[k].end && runs_of(
                tree.nodes@,
            )[k].modifiers & bit != 0,
{
    let runs = runs_of(tree.nodes@);
    let cuts = choose|cuts: Seq<usize>| #[trigger]
        are_cuts(runs, cuts) && regions == regions_between(runs, cuts, cuts.len() - 1);
    lemma_region_mask(runs, cuts, cuts.len() - 1, r);
    lemma_mask(runs, regions[r].start as int, regions[r].end as int, bit);
}

proof fn lemma_region_mask(runs: Seq<EmphasisRegion>, cuts: Seq<usize>, n: int, r: int)
    requires
        0 <= r < regions_between(runs, cuts, n).len(),
    ensures
        ({
            let region = regions_between(runs, cuts, n)[r];
            region.modifiers == mask(runs, region.start as int, region.end as int)
        }),
    decreases n,
{
    if n > 0 {
        let rest = regions_between(runs, cuts, n - 1);
        if r < rest.len() {
            lemma_region_mask(runs, cuts, n - 1, r);
        }
    }
}

/// The tokens that a stream stands for, given the place of the one before it.
pub open spec fn decoded(data: Seq<nat>) -> Seq<Token>
    decreases data.len(),
{
    if data.len() < 5 {
        Seq::empty()
    } else {
        let rest = decoded(data.take(data.len() - 5));
        let at = data.len() - 5;
        let line = if rest.len() == 0 {
            0
        } else {
            rest.last().line
        };
        let start = if rest.len() == 0 {
            0
        } else {
            rest.last().start
        };
        rest.push(
            Token {
                line: line + data[at],
                start: if data[at] == 0 {
                    start + data[at + 1]
                } else {
                    data[at + 1]
                },
                length: data[at + 2],
                modifiers: data[at + 4],
            },
        )
    }
}

/// A client that adds up the numbers of a stream gets the tokens back, if no
/// token starts in front of the one before it.
pub proof fn law_streams_decode(list: Seq<Token>)
    requires
        forall|i: int|
            0 <= i && i + 1 < list.len() ==> (#[trigger] list[i]).line < list[i + 1].line || (
            list[i].line == list[i + 1].line && list[i].start <= list[i + 1].start),
    ensures
        decoded(encoded(list)) == list,
    decreases list.len(),
{
    if list.len() > 0 {
        let rest = list.drop_last();
        assert forall|i: int| 0 <= i && i + 1 < rest.len() implies (#[trigger] rest[i]).line
            < rest[i + 1].line || (rest[i].line == rest[i + 1].line && rest[i].start
            <= rest[i + 1].start) by {
            assert(rest[i] == list[i]);
        }
        law_streams_decode(rest);
        let data = encoded(list);
        let t = list.last();
        assert(data.take(data.len() - 5) =~= encoded(rest));
        if rest.len() > 0 {
            let p = rest.last();
            assert(list[list.len() - 2] == p);
            assert(p.line < t.line || (p.line == t.line && p.start <= t.start));
        }
        assert(decoded(data) =~= list);
    }
}

proof fn lemma_same_cuts(a: Seq<usize>, b: Seq<usize>)
    requires
        ascending(a),
        ascending(b),
        forall|at: usize| #[trigger] a.contains(at) <==> b.contains(at),
    ensures
        a == b,
    decreases a.len(),
{
    if a.len() == 0 {
        if b.len() > 0 {
            assert(b.contains(b[0]));
            assert(a.contains(b[0]));
        }
        assert(a =~= b);
    } else {
        assert(a.contains(a.last()));
        assert(b.contains(a.last()));
        assert(b.contains(b.last()));
        assert(a.contains(b.last()));
        let i = choose|i: int| 0 <= i < b.len() && b[i] == a.last();
        let j = choose|j: int| 0 <= j < a.len() && a[j] == b.last();
        assert(a.last() == b.last());
        let x = a.drop_last();
        let y = b.drop_last();
        assert forall|at: usize| #[trigger] x.contains(at) <==> y.contains(at) by {
            if x.contains(at) {
                let k = choose|k: int| 0 <= k < x.len() && x[k] == at;
                assert(a[k] == at);
                assert(a.contains(at));
                assert(b.contains(at));
                let m = choose|m: int| 0 <= m < b.len() && b[m] == at;
                assert(y[m] == at);
            }
            if y.contains(at) {
                let k = choose|k: int| 0 <= k < y.len() && y[k] == at;
                assert(b[k] == at);
                assert(b.contains(at));
                assert(a.contains(at));
                let m = choose|m: int| 0 <= m < a.len() && a[m] == at;
                assert(x[m] == at);
            }
        }
        lemma_same_cuts(x, y);
        assert(a =~= x.push(a.last()));
        assert(b =~= y.push(b.last()));
    }
}

/// A document has one list of regions, and so one stream between two offsets.
pub proof fn law_a_document_has_one_stream(
    tree: Tree,
    a: Seq<usize>,
    b: Seq<usize>,
    from: int,
    to: int,
)
    requires
        is_stream(a, tree, from, to),
        is_stream(b, tree, from, to),
    ensures
        a == b,
        forall|x: Seq<EmphasisRegion>, y: Seq<EmphasisRegion>| #[trigger]
            are_regions(tree, x) && #[trigger] are_regions(tree, y) ==> x == y,
{
    let runs = runs_of(tree.nodes@);
    assert forall|x: Seq<EmphasisRegion>, y: Seq<EmphasisRegion>| #[trigger]
        are_regions(tree, x) && #[trigger] are_regions(tree, y) implies x == y by {
        let c = choose|c: Seq<usize>| #[trigger]
            are_cuts(runs, c) && x == regions_between(runs, c, c.len() - 1);
        let d = choose|d: Seq<usize>| #[trigger]
            are_cuts(runs, d) && y == regions_between(runs, d, d.len() - 1);
        assert forall|at: usize| #[trigger] c.contains(at) <==> d.contains(at) by {
            assert(is_cut(runs, at) == d.contains(at));
        }
        lemma_same_cuts(c, d);
    }
    assert(numbers(a) == numbers(b));
    assert(numbers(a).len() == a.len());
    assert(numbers(b).len() == b.len());
    assert forall|i: int| 0 <= i < a.len() implies a[i] == b[i] by {
        assert(numbers(a)[i] == a[i] as nat);
        assert(numbers(b)[i] == b[i] as nat);
    }
    assert(a =~= b);
}

} // verus!

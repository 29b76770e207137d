//! Frontmatter with tables, lists and escapes.
use vstd::prelude::*;
use crate::fm::{NodeView, ScalarView, ValueView};
use crate::lines;
use crate::text;
use crate::toml::grammar;
use crate::toml::grammar::{Document, Reading, Scan, Source};
use crate::toml::written;
use crate::toml::written::{Line, Writing};

verus! {

// Tables.

/// The places in a table: of its header `[name]`, and its lines.
pub struct Section {
    pub start: int,
    pub name: int,
    pub name_end: int,
    /// The closing bracket.
    pub close: int,
    /// Behind the blanks.
    pub tail: int,
    /// Behind the comment.
    pub stop: int,
    /// Behind the line break.
    pub body: int,
    pub lines: Seq<Line>,
    pub end: int,
}

/// Whether the places of a table are those of the text.
#[verifier::opaque]
pub open spec fn is_section(b: Seq<u8>, t: Section) -> bool {
    &&& 0 <= t.start < t.name
    &&& t.end <= b.len()
    &&& b[t.start] == 91
    &&& written::blank_between(b, t.start + 1, t.name)
    &&& written::key_between(b, t.name, t.name_end)
    &&& written::blank_between(b, t.name_end, t.close)
    &&& b[t.close] == 93
    &&& written::blank_between(b, t.close + 1, t.tail)
    &&& written::comment_between(b, t.tail, t.stop)
    &&& written::break_between(b, t.stop, t.body)
    &&& written::is_made_between(b, t.lines, t.body, t.end)
    &&& t.end == b.len() || b[t.end] == 91
}

/// Whether tables follow one another from an offset up to the end.
pub open spec fn are_sections(b: Seq<u8>, list: Seq<Section>, from: int) -> bool {
    &&& forall|i: int| 0 <= i < list.len() ==> is_section(b, #[trigger] list[i])
    &&& list.len() > 0 ==> list[0].start == from && list.last().end == b.len()
    &&& list.len() == 0 ==> from == b.len()
    &&& forall|i: int, j: int|
        #![trigger list[i], list[j]]
        0 <= i && j == i + 1 && j < list.len() ==> list[j].start == list[i].end
}

/// The name of a table.
pub open spec fn name_of(b: Seq<u8>, t: Section) -> Seq<u8> {
    b.subrange(t.name, t.name_end)
}

/// Whether an entry is a table: its key is the name, and its value has an entry for
/// each line, which says what the line says.
#[verifier::opaque]
pub open spec fn is_table(base: int, b: Seq<u8>, node: NodeView, t: Section) -> bool {
    node matches NodeView::Mapping { key, value, span } && {
        &&& key.text == name_of(b, t)
        &&& key.span.start == base + t.name && key.span.end == base + t.name_end
        &&& value matches ValueView::Mapping(list) && list.len() == written::entry_lines(
            t.lines,
        ).len() && forall|i: int|
            0 <= i < list.len() ==> written::says(
                base,
                b,
                #[trigger] list[i],
                written::entry_lines(t.lines)[i],
            )
        &&& span.start == base + t.start && span.end == base + t.end
    }
}

proof fn lemma_header(src: Source, r: Reading, t: Section)
    requires
        src.fits(),
        is_section(src.bytes, t),
        r.pos == t.start,
    ensures
        ({
            let (next, parts) = grammar::header_at(src, r, 1);
            &&& next == r.moved(t.body)
            &&& parts == seq![
                ScalarView {
                    span: src.span(t.name, t.name_end),
                    text: name_of(src.bytes, t),
                },
            ]
        }),
        src.bytes[t.start + 1] != 91,
{
    reveal(is_section);
    let b = src.bytes;
    assert(grammar::bare_key_byte(b[t.name]));
    assert(b[t.start + 1] != 91) by {
        if t.start + 1 < t.name {
            assert(b[t.start + 1] == 32 || b[t.start + 1] == 9);
        }
    }
    written::lemma_blanks(b, t.start + 1, t.name);
    assert(grammar::blank_end(b, t.name) == t.name);
    assert(b[t.name_end] == 32 || b[t.name_end] == 9 || b[t.name_end] == 93) by {
        if t.name_end < t.close {
            assert(b[t.name_end] == 32 || b[t.name_end] == 9);
        }
    }
    lemma_bare_end(b, t.name, t.name_end);
    assert(text::piece(b, t.name, t.name_end) == b.subrange(t.name, t.name_end));
    written::lemma_blanks(b, t.name_end, t.close);
    assert(b[t.tail] == 10 || b[t.tail] == 13 || b[t.tail] == 35);
    written::lemma_blanks(b, t.close + 1, t.tail);
    written::lemma_comment(b, t.tail, t.stop, t.body);
    let (keyed, parts) = grammar::dotted_key(src, r.moved(t.name));
    assert(parts =~= seq![
        ScalarView { span: src.span(t.name, t.name_end), text: name_of(b, t) },
    ]);
    assert(keyed == r.moved(t.name_end));
}

pub(crate) proof fn lemma_bare_end(b: Seq<u8>, i: int, j: int)
    requires
        0 <= i < j,
        j < b.len(),
        written::key_between(b, i, j),
        b[j] == 32 || b[j] == 9 || b[j] == 93 || b[j] == 46,
    ensures
        grammar::bare_key_end(b, i) == j,
    decreases j - i,
{
    assert(grammar::bare_key_byte(b[i]));
    if i + 1 < j {
        assert(written::key_between(b, i + 1, j));
        lemma_bare_end(b, i + 1, j);
    } else {
        assert(!grammar::bare_key_byte(b[j]));
        assert(grammar::bare_key_end(b, j) == j);
    }
}

/// One table joins the document.
proof fn lemma_section(src: Source, doc: Document, r: Reading, t: Section) -> (node: NodeView)
    requires
        src.fits(),
        is_section(src.bytes, t),
        r.pos == t.start,
        !doc.taken.contains(name_of(src.bytes, t)),
    ensures
        is_table(src.base, src.bytes, node, t),
        grammar::tables_rest(src, doc, r) == grammar::tables_rest(
            src,
            Document {
                entries: doc.entries.push(node),
                taken: doc.taken.insert(name_of(src.bytes, t)),
            },
            r.moved(t.end),
        ),
        t.end <= src.bytes.len(),
{
    reveal(is_section);
    reveal(is_table);
    let b = src.bytes;
    lemma_header(src, r, t);
    let (headed, parts) = grammar::header_at(src, r, 1);
    written::lemma_body(src, headed, t.lines, t.end);
    let (next, body) = grammar::body_rest(src, headed, Seq::empty());
    let node = grammar::nested_entry(src, parts, ValueView::Mapping(body), r.pos, next.pos);
    assert(next == r.moved(t.end));
    let (d, s) = grammar::joined(doc, next, node);
    assert(s == next);
    assert(t.start < t.body <= t.end);
    assert(src.at(r.pos) == Some(91u8));
    assert(src.at(r.pos + 1) != Some(91u8));
    node
}

spec fn section_start(b: Seq<u8>, list: Seq<Section>, k: int) -> int {
    if 0 <= k < list.len() {
        list[k].start
    } else {
        b.len() as int
    }
}

/// The tables from the `k`th on join the document one after another.
proof fn lemma_sections(
    src: Source,
    doc: Document,
    r: Reading,
    list: Seq<Section>,
    from: int,
    k: int,
)
    requires
        src.fits(),
        are_sections(src.bytes, list, from),
        0 <= k <= list.len(),
        r.pos == section_start(src.bytes, list, k),
        forall|i: int|
            k <= i < list.len() ==> !doc.taken.contains(name_of(src.bytes, #[trigger] list[i])),
        forall|i: int, j: int|
            0 <= i < j < list.len() ==> name_of(src.bytes, #[trigger] list[i]) != name_of(
                src.bytes,
                #[trigger] list[j],
            ),
    ensures
        ({
            let (end, next) = grammar::tables_rest(src, doc, r);
            &&& next.found == r.found
            &&& end.entries.len() == doc.entries.len() + list.len() - k
            &&& forall|i: int|
                0 <= i < doc.entries.len() ==> #[trigger] end.entries[i] == doc.entries[i]
            &&& forall|i: int|
                k <= i < list.len() ==> is_table(
                    src.base,
                    src.bytes,
                    end.entries[doc.entries.len() + i - k],
                    #[trigger] list[i],
                )
        }),
    decreases list.len() - k,
{
    let b = src.bytes;
    if k < list.len() {
        let t = list[k];
        let node = lemma_section(src, doc, r, t);
        let d = Document {
            entries: doc.entries.push(node),
            taken: doc.taken.insert(name_of(b, t)),
        };
        let s = r.moved(t.end);
        assert(section_start(b, list, k + 1) == t.end) by {
            if k + 1 < list.len() {
                assert(list[k + 1].start == list[k].end);
            }
        }
        assert forall|i: int| k + 1 <= i < list.len() implies !d.taken.contains(
            name_of(b, #[trigger] list[i]),
        ) by {
            assert(name_of(b, list[k]) != name_of(b, list[i]));
        }
        lemma_sections(src, d, s, list, from, k + 1);
        let end = grammar::tables_rest(src, doc, r).0;
        assert forall|i: int| k <= i < list.len() implies is_table(
            src.base,
            b,
            end.entries[doc.entries.len() + i - k],
            #[trigger] list[i],
        ) by {
            if i == k {
                assert(end.entries[doc.entries.len() as int] == d.entries[doc.entries.len() as int]);
            } else {
                assert(d.entries.len() + i - (k + 1) == doc.entries.len() + i - k);
            }
        }
        assert forall|i: int| 0 <= i < doc.entries.len() implies #[trigger] end.entries[i]
            == doc.entries[i] by {
            assert(end.entries[i] == d.entries[i]);
        }
    }
}

/// Lines and then tables with lines are read as entries for the lines, and one for
/// each table with an entry for each of its lines; in their order, and without a
/// report, where no key comes twice.
pub proof fn law_tables_are_read_as_written(
    src: Source,
    top: Seq<Line>,
    at: int,
    list: Seq<Section>,
)
    requires
        src.fits(),
        written::is_made_between(src.bytes, top, 0, at),
        are_sections(src.bytes, list, at),
        forall|i: int, j: int|
            0 <= i < j < written::entry_lines(top).len() ==> written::key_of(
                src.bytes,
                #[trigger] written::entry_lines(top)[i],
            ) != written::key_of(src.bytes, #[trigger] written::entry_lines(top)[j]),
        forall|i: int, j: int|
            0 <= i < written::entry_lines(top).len() && 0 <= j < list.len() ==> written::key_of(
                src.bytes,
                #[trigger] written::entry_lines(top)[i],
            ) != name_of(src.bytes, #[trigger] list[j]),
        forall|i: int, j: int|
            0 <= i < j < list.len() ==> name_of(src.bytes, #[trigger] list[i]) != name_of(
                src.bytes,
                #[trigger] list[j],
            ),
    ensures
        ({
            let (doc, r) = grammar::document(src);
            let n = written::entry_lines(top).len();
            &&& r.found.len() == 0
            &&& doc.entries.len() == n + list.len()
            &&& forall|i: int|
                0 <= i < n ==> written::says(
                    src.base,
                    src.bytes,
                    #[trigger] doc.entries[i],
                    written::entry_lines(top)[i],
                )
            &&& forall|i: int|
                0 <= i < list.len() ==> is_table(
                    src.base,
                    src.bytes,
                    doc.entries[n + i],
                    #[trigger] list[i],
                )
        }),
{
    let b = src.bytes;
    let r0 = Reading { pos: 0, found: Seq::empty(), limit_hit: false };
    let from = written::entry_lines(top);
    assert(at == b.len() || b[at] == 91) by {
        reveal(is_section);
        if list.len() > 0 {
            assert(is_section(b, list[0]));
        }
    }
    written::lemma_body(src, r0, top, at);
    let (r1, entries) = grammar::body_rest(src, r0, Seq::empty());
    written::lemma_all_join(src, r1, entries, from);
    let empty = Document { entries: Seq::empty(), taken: Set::empty() };
    let (doc, r2) = grammar::all_joined(empty, r1, entries);
    assert forall|i: int| 0 <= i < list.len() implies !doc.taken.contains(
        name_of(b, #[trigger] list[i]),
    ) by {
        let name = name_of(b, list[i]);
        if doc.taken.contains(name) {
            let k = choose|k: int|
                0 <= k < from.len() && written::key_of(b, #[trigger] from[k]) == name;
            assert(written::key_of(b, from[k]) != name_of(b, list[i]));
        }
    }
    lemma_sections(src, doc, r2, list, at, 0);
    let all = grammar::document(src).0;
    assert forall|i: int| 0 <= i < from.len() implies written::says(
        src.base,
        b,
        #[trigger] all.entries[i],
        from[i],
    ) by {
        assert(all.entries[i] == doc.entries[i]);
        assert(written::says(src.base, b, entries[i], from[i]));
    }
}

// Dotted keys.

/// An entry under a key of two parts is an entry inside an entry.
pub proof fn law_dotted_keys_nest(
    src: Source,
    r: Reading,
    dot: int,
    end: int,
    equals: int,
    value: ValueView,
    stop: int,
)
    requires
        src.fits(),
        0 <= r.pos,
        written::key_between(src.bytes, r.pos, dot),
        written::key_between(src.bytes, dot + 1, end),
        written::blank_between(src.bytes, end, equals),
        equals < src.bytes.len(),
        src.bytes[dot] == 46,
        src.bytes[equals] == 61,
    ensures
        ({
            let (next, parts) = grammar::dotted_key(src, r);
            let node = grammar::nested_entry(src, parts, value, r.pos, stop);
            &&& next.pos == equals
            &&& next.found == r.found
            &&& node->Mapping_key.text == src.bytes.subrange(r.pos, dot)
            &&& node->Mapping_value matches ValueView::Mapping(list) && list.len() == 1
                && list[0]->Mapping_key.text == src.bytes.subrange(dot + 1, end)
                && list[0]->Mapping_value == value
        }),
{
    let b = src.bytes;
    assert(grammar::bare_key_byte(b[r.pos]));
    assert(grammar::bare_key_byte(b[dot + 1]));
    assert(grammar::blank_end(b, r.pos) == r.pos);
    assert(grammar::blank_end(b, dot + 1) == dot + 1);
    lemma_bare_end(b, r.pos, dot);
    assert(b[end] == 32 || b[end] == 9 || b[end] == 61) by {
        if end < equals {
            assert(b[end] == 32 || b[end] == 9);
        }
    }
    written::lemma_bare(b, dot + 1, end);
    written::lemma_blanks(b, end, equals);
    assert(text::piece(b, r.pos, dot) == b.subrange(r.pos, dot));
    assert(text::piece(b, dot + 1, end) == b.subrange(dot + 1, end));
    let (first, part) = grammar::key_at(src, r);
    assert(first == r.moved(dot));
    let (second, other) = grammar::key_at(src, first.moved(dot + 1));
    assert(second == r.moved(end));
    let after = second.moved(equals);
    assert(src.at(after.pos) == Some(61u8));
    let parts = seq![part->0, other->0];
    assert(seq![part->0].push(other->0) =~= parts);
    assert(grammar::key_rest(src, after, parts) == (after, parts));
    assert(grammar::dotted_key(src, r) == (after, parts));
    reveal_with_fuel(grammar::entry_under, 2);
}

// Escapes.

/// In a string between double quotes, a backslash and a letter stand for one
/// character: `b`, `t`, `n`, `f`, `r` for a control character, a quote and a backslash
/// for themselves.
pub proof fn law_escapes_stand_for_a_character(src: Source, start: int, s: Scan, letter: u8, c: u8)
    requires
        0 <= s.pos,
        s.pos + 1 < src.bytes.len(),
        src.bytes[s.pos] == 92,
        src.bytes[s.pos + 1] == letter,
        ({
            ||| letter == 98 && c == 8
            ||| letter == 116 && c == 9
            ||| letter == 110 && c == 10
            ||| letter == 102 && c == 12
            ||| letter == 114 && c == 13
            ||| letter == 34 && c == 34
            ||| letter == 92 && c == 92
        }),
    ensures
        grammar::basic_rest(src, start, s) == grammar::basic_rest(
            src,
            start,
            Scan { pos: s.pos + 2, text: s.text.push(c), found: s.found },
        ),
{
    let ch = c as char;
    let one = seq![ch];
    assert(vstd::utf8::is_ascii_chars(one));
    vstd::utf8::is_ascii_chars_encode_utf8(one);
    assert(text::utf8(one) =~= seq![c]);
    assert(s.text + seq![c] =~= s.text.push(c));
    assert(grammar::numbered(c as int) == text::utf8(one));
}

// Lists.

/// The places of an item of a list.
pub struct Item {
    pub from: int,
    pub to: int,
    pub writing: Writing,
    /// The comma behind the item, or the closing bracket.
    pub mark: int,
}

/// Whether the places of an item are those of the text: the value, blanks and line
/// feeds around it, and the mark behind it.
pub open spec fn is_item(b: Seq<u8>, start: int, x: Item) -> bool {
    &&& 0 <= start <= x.from
    &&& x.mark < b.len()
    &&& forall|k: int| start <= k < x.from ==> #[trigger] b[k] == 32 || b[k] == 9 || b[k] == 10
    &&& written::value_between(b, x.from, x.to, x.writing)
    &&& b[x.from] != 44 && b[x.from] != 93
    &&& x.to <= x.mark
    &&& forall|k: int| x.to <= k < x.mark ==> #[trigger] b[k] == 32 || b[k] == 9 || b[k] == 10
    &&& x.writing is Plain || x.to - x.from > 2
}

/// Whether items follow one another behind the bracket at `open`, with commas
/// between them and a bracket at the end.
pub open spec fn are_items(b: Seq<u8>, open: int, list: Seq<Item>) -> bool {
    &&& list.len() > 0
    &&& is_item(b, open + 1, list[0])
    &&& forall|i: int, j: int|
        #![trigger list[i], list[j]]
        0 <= i && j == i + 1 && j < list.len() ==> b[list[i].mark] == 44 && is_item(
            b,
            list[i].mark + 1,
            list[j],
        )
    &&& b[list.last().mark] == 93
}

/// What an item says.
pub open spec fn item_text(b: Seq<u8>, x: Item) -> Seq<u8> {
    match x.writing {
        Writing::Plain => b.subrange(x.from, x.to),
        _ => b.subrange(x.from + 1, x.to - 1),
    }
}

proof fn lemma_array_gap(b: Seq<u8>, i: int, j: int)
    requires
        0 <= i <= j < b.len(),
        forall|k: int| i <= k < j ==> #[trigger] b[k] == 32 || b[k] == 9 || b[k] == 10,
        b[j] != 32 && b[j] != 9 && b[j] != 10 && b[j] != 13 && b[j] != 35,
    ensures
        grammar::array_gap_end(b, i) == j,
    decreases j - i,
{
    if i < j {
        assert(b[i] == 32 || b[i] == 9 || b[i] == 10);
        lemma_array_gap(b, i + 1, j);
    }
}

/// An item is read as written; the reading goes on behind it or behind blanks.
pub(crate) proof fn lemma_item(src: Source, r: Reading, start: int, x: Item)
    requires
        src.fits(),
        is_item(src.bytes, start, x),
        src.bytes[x.mark] == 44 || src.bytes[x.mark] == 93 || src.bytes[x.mark] == 125,
        r.pos == x.from,
    ensures
        ({
            let (next, s) = grammar::scalar_at(src, r);
            &&& next.found == r.found
            &&& next.limit_hit == r.limit_hit
            &&& x.to <= next.pos <= x.mark
            &&& s.text == item_text(src.bytes, x)
            &&& s.text.len() > 0
            &&& s.span.start == src.base + x.from && s.span.end == src.base + x.to
        }),
{
    let b = src.bytes;
    let i = x.from;
    let j = x.to;
    assert(b[i] != 32 && b[i] != 9);
    assert(grammar::blank_end(b, i) == i);
    match x.writing {
        Writing::Plain => {
            let stop = lemma_first_mark(b, j, x.mark);
            assert forall|k: int| i <= k < stop implies #[trigger] b[k] != 10 && b[k] != 13 && b[k]
                != 35 && b[k] != 44 && b[k] != 93 && b[k] != 125 by {
                if k < j {
                    assert(b[k] != 10 && b[k] != 13);
                    assert(b[k] != 35);
                } else {
                    assert(b[k] == 32 || b[k] == 9);
                }
            }
            lemma_plain_stop(b, i, stop);
            let t = b.subrange(i, stop);
            assert(text::piece(b, i, stop) == t) by {
                let y = b[stop];
                assert(!vstd::utf8::is_continuation_byte(y));
            }
            assert forall|k: int| j - i <= k < t.len() implies #[trigger] t[k] == 32 || t[k] == 9 by {
                assert(t[k] == b[i + k]);
            }
            written::lemma_stripped(t, j - i);
            assert(t.subrange(0, j - i) =~= b.subrange(i, j));
        },
        Writing::Quoted => {
            let q = j - 1;
            assert(b[i + 1] != 34);
            let s0 = Scan { pos: i + 1, text: Seq::empty(), found: r.found };
            assert forall|k: int| i + 1 <= k < q implies #[trigger] b[k] != 10 && b[k] != 13 by {
                assert(b[k] != 10);
            }
            written::lemma_basic(src, i, s0, q);
            assert(Seq::<u8>::empty() + b.subrange(i + 1, q) =~= b.subrange(i + 1, q));
        },
        Writing::Literal => {
            let q = j - 1;
            assert(b[i + 1] != 39);
            let s0 = Scan { pos: i + 1, text: Seq::empty(), found: r.found };
            assert forall|k: int| i + 1 <= k < q implies #[trigger] b[k] != 10 && b[k] != 13 by {
                assert(b[k] != 10);
            }
            written::lemma_literal(src, i, s0, q);
            assert(Seq::<u8>::empty() + b.subrange(i + 1, q) =~= b.subrange(i + 1, q));
        },
    }
}

proof fn lemma_first_mark(b: Seq<u8>, i: int, mark: int) -> (stop: int)
    requires
        0 <= i <= mark < b.len(),
        forall|k: int| i <= k < mark ==> #[trigger] b[k] == 32 || b[k] == 9 || b[k] == 10,
        b[mark] == 44 || b[mark] == 93 || b[mark] == 125,
    ensures
        i <= stop <= mark,
        forall|k: int| i <= k < stop ==> #[trigger] b[k] == 32 || b[k] == 9,
        b[stop] == 10 || b[stop] == 44 || b[stop] == 93 || b[stop] == 125,
    decreases mark - i,
{
    if i == mark || b[i] == 10 {
        i
    } else {
        assert(b[i] == 32 || b[i] == 9);
        lemma_first_mark(b, i + 1, mark)
    }
}

proof fn lemma_plain_stop(b: Seq<u8>, i: int, j: int)
    requires
        0 <= i <= j,
        j < b.len(),
        forall|k: int|
            i <= k < j ==> #[trigger] b[k] != 10 && b[k] != 13 && b[k] != 35 && b[k] != 44 && b[k]
                != 93 && b[k] != 125,
        b[j] == 10 || b[j] == 44 || b[j] == 93 || b[j] == 125,
    ensures
        grammar::plain_end(b, i) == j,
    decreases j - i,
{
    if i < j {
        assert(b[i] != 10);
        lemma_plain_stop(b, i + 1, j);
    }
}

spec fn item_start(open: int, list: Seq<Item>, k: int) -> int {
    if k <= 0 {
        open + 1
    } else {
        list[k - 1].mark + 1
    }
}

/// The items from the `k`th on are read one after another.
proof fn lemma_items(
    src: Source,
    open: int,
    r: Reading,
    depth: nat,
    items: Seq<ScalarView>,
    list: Seq<Item>,
    k: int,
)
    requires
        src.fits(),
        0 <= open,
        are_items(src.bytes, open, list),
        0 <= k < list.len(),
        r.pos == item_start(open, list, k),
        items.len() == k,
        forall|i: int|
            0 <= i < k ==> (#[trigger] items[i]).text == item_text(src.bytes, list[i]),
    ensures
        ({
            let (next, all) = grammar::array_rest(src, open, r, depth, items);
            &&& next == r.moved(list.last().mark + 1)
            &&& all.len() == list.len()
            &&& forall|i: int|
                0 <= i < list.len() ==> (#[trigger] all[i]).text == item_text(src.bytes, list[i])
        }),
    decreases list.len() - k,
{
    let b = src.bytes;
    let x = list[k];
    assert(is_item(b, r.pos, x)) by {
        if k > 0 {
            assert(list[k - 1].mark + 1 == r.pos);
        }
    }
    assert(b[x.mark] == 44 || b[x.mark] == 93) by {
        if k + 1 < list.len() {
            assert(b[list[k].mark] == 44);
            let y = list[k + 1];
        }
    }
    assert(b[x.from] != 10 && b[x.from] != 13 && b[x.from] != 35 && b[x.from] != 91 && b[x.from]
        != 123);
    lemma_array_gap(b, r.pos, x.from);
    let here = r.moved(x.from);
    lemma_item(src, here, r.pos, x);
    let (next, item) = grammar::scalar_at(src, here);
    let more = items.push(item);
    assert forall|k2: int| next.pos <= k2 < x.mark implies #[trigger] b[k2] == 32 || b[k2] == 9
        || b[k2] == 10 by {
        assert(x.to <= k2);
    }
    lemma_array_gap(b, next.pos, x.mark);
    assert(next == r.moved(next.pos));
    if k + 1 < list.len() {
        let y = list[k + 1];
        assert(b[list[k].mark] == 44);
        let after = r.moved(x.mark + 1);
        assert forall|i: int| 0 <= i < k + 1 implies (#[trigger] more[i]).text == item_text(
            b,
            list[i],
        ) by {
            if i < k {
                assert(more[i] == items[i]);
            }
        }
        lemma_items(src, open, after, depth, more, list, k + 1);
        assert(grammar::array_rest(src, open, next, depth, more) == grammar::array_rest(
            src,
            open,
            after,
            depth,
            more,
        ));
    } else {
        assert(b[x.mark] == 93);
        assert(grammar::array_rest(src, open, next, depth, more) == (r.moved(x.mark + 1), more));
        assert forall|i: int| 0 <= i < list.len() implies (#[trigger] more[i]).text == item_text(
            b,
            list[i],
        ) by {
            if i < k {
                assert(more[i] == items[i]);
            }
        }
    }
}

/// A list in brackets, with commas between its items, is read as its items in their
/// order, each without its quotes; blanks and line feeds around them change nothing,
/// and nothing is reported.
pub proof fn law_lists_are_read_as_written(src: Source, r: Reading, list: Seq<Item>)
    requires
        src.fits(),
        0 <= r.pos < src.bytes.len(),
        src.bytes[r.pos] == 91,
        are_items(src.bytes, r.pos, list),
    ensures
        ({
            let (next, value) = grammar::value_at(src, r, 0);
            &&& next == r.moved(list.last().mark + 1)
            &&& value matches ValueView::FlowSequence { span, items } && items.len() == list.len()
                && span.start == src.base + r.pos && span.end == src.base + list.last().mark + 1
                && forall|i: int|
                0 <= i < list.len() ==> (#[trigger] items[i]).text == item_text(
                    src.bytes,
                    list[i],
                )
        }),
{
    assert(grammar::blank_end(src.bytes, r.pos) == r.pos);
    lemma_items(src, r.pos, r.moved(r.pos + 1), 1, Seq::empty(), list, 0);
    assert(r.moved(r.pos) == r);
    assert(src.at(r.pos) == Some(91u8));
    assert(grammar::value_at(src, r, 0) == grammar::array_at(src, r, 0));
    assert(grammar::array_at(src, r, 0).0 == r.moved(list.last().mark + 1));
    let n = list.len() - 1;
    assert(list.last() == list[n]);
    assert(list[n].mark < src.bytes.len() && r.pos < list[n].mark) by {
        lemma_marks_go_on(src.bytes, r.pos, list, n);
    }
}

proof fn lemma_marks_go_on(b: Seq<u8>, open: int, list: Seq<Item>, k: int)
    requires
        are_items(b, open, list),
        0 <= k < list.len(),
    ensures
        open < list[k].mark < b.len(),
    decreases k,
{
    if k > 0 {
        lemma_marks_go_on(b, open, list, k - 1);
        assert(is_item(b, list[k - 1].mark + 1, list[k]));
    }
}

} // verus!

//! Frontmatter with strings, inline tables and arrays of tables.
use vstd::prelude::*;
use crate::fm::{FmDiagView, NodeView, ScalarView, ValueView};
use crate::span::Span;
use crate::text;
use crate::toml::grammar;
use crate::toml::grammar::{Document, Quoting, Reading, Scan, Source};
use crate::toml::tables;
use crate::toml::tables::{Item, Section};
use crate::toml::written;
use crate::toml::written::{Line, Writing};

verus! {

// Strings over several lines.

/// Whether three of a quote stand at an offset.
pub open spec fn has_three(b: Seq<u8>, at: int, quote: u8) -> bool {
    0 <= at && at + 2 < b.len() && b[at] == quote && b[at + 1] == quote && b[at + 2] == quote
}

/// Whether the content of a string between three quotes stands between two offsets:
/// no three quotes stand earlier than behind it, and no carriage return stands in it.
pub open spec fn content_between(b: Seq<u8>, from: int, to: int, quote: u8) -> bool {
    &&& 0 <= from <= to
    &&& has_three(b, to, quote)
    &&& forall|k: int| from <= k < to ==> !#[trigger] has_three(b, k, quote)
    &&& forall|k: int| from <= k < to ==> #[trigger] b[k] != 13
    &&& !vstd::utf8::is_continuation_byte(b[from])
}

proof fn lemma_ml_literal(src: Source, start: int, s: Scan, to: int)
    requires
        content_between(src.bytes, s.pos, to, 39),
    ensures
        grammar::ml_literal_rest(src, start, s) == (Scan {
            pos: to + 3,
            text: s.text + src.bytes.subrange(s.pos, to),
            found: s.found,
        }),
    decreases to - s.pos,
{
    let b = src.bytes;
    if s.pos == to {
        assert(s.text + b.subrange(to, to) =~= s.text);
    } else {
        let e = grammar::char_end(b, s.pos);
        written::lemma_char_stays(b, s.pos, to);
        assert(!has_three(b, s.pos, 39));
        assert(b[s.pos] != 13);
        assert(text::piece(b, s.pos, e) == b.subrange(s.pos, e));
        let next = s.plus(e, b.subrange(s.pos, e));
        lemma_ml_literal(src, start, next, to);
        assert(next.text + b.subrange(e, to) =~= s.text + b.subrange(s.pos, to));
    }
}

proof fn lemma_ml_basic(src: Source, start: int, s: Scan, to: int)
    requires
        content_between(src.bytes, s.pos, to, 34),
        forall|k: int| s.pos <= k < to ==> #[trigger] src.bytes[k] != 92,
    ensures
        grammar::ml_basic_rest(src, start, s) == (Scan {
            pos: to + 3,
            text: s.text + src.bytes.subrange(s.pos, to),
            found: s.found,
        }),
    decreases to - s.pos,
{
    let b = src.bytes;
    if s.pos == to {
        assert(s.text + b.subrange(to, to) =~= s.text);
    } else {
        let e = grammar::char_end(b, s.pos);
        written::lemma_char_stays(b, s.pos, to);
        assert(!has_three(b, s.pos, 34));
        assert(b[s.pos] != 13 && b[s.pos] != 92);
        assert(text::piece(b, s.pos, e) == b.subrange(s.pos, e));
        let next = s.plus(e, b.subrange(s.pos, e));
        lemma_ml_basic(src, start, next, to);
        assert(next.text + b.subrange(e, to) =~= s.text + b.subrange(s.pos, to));
    }
}

/// Whether the content of a string that opens with three quotes starts at an offset:
/// behind the quotes, or behind the line break that stands right behind them.
pub open spec fn opens_at(b: Seq<u8>, start: int, from: int) -> bool {
    ||| from == start + 3 && b[from] != 10 && b[from] != 13
    ||| written::break_between(b, start + 3, from)
}

/// A string between three single quotes, or between three double quotes and without
/// a backslash, is read as written, with its line feeds; a line break right behind
/// the opening quotes does not belong to it, and nothing is reported.
pub proof fn law_long_strings_are_read_as_written(
    src: Source,
    r: Reading,
    quote: u8,
    from: int,
    to: int,
)
    requires
        src.fits(),
        quote == 34 || quote == 39,
        has_three(src.bytes, r.pos, quote),
        opens_at(src.bytes, r.pos, from),
        content_between(src.bytes, from, to, quote),
        quote == 34 ==> forall|k: int| from <= k < to ==> #[trigger] src.bytes[k] != 92,
    ensures
        ({
            let (next, s) = grammar::scalar_at(src, r);
            &&& next == r.moved(to + 3)
            &&& s.text == src.bytes.subrange(from, to)
            &&& s.span.start == src.base + r.pos && s.span.end == src.base + to + 3
        }),
{
    let b = src.bytes;
    assert(b[r.pos] != 32 && b[r.pos] != 9);
    assert(grammar::blank_end(b, r.pos) == r.pos);
    let s0 = Scan { pos: from, text: Seq::empty(), found: r.found };
    assert(Seq::<u8>::empty() + b.subrange(from, to) =~= b.subrange(from, to));
    assert(from < b.len());
    if quote == 34 {
        assert(grammar::content_start(b, r.pos, Quoting::MultiLineBasic) == from);
        lemma_ml_basic(src, r.pos, s0, to);
    } else {
        assert(grammar::content_start(b, r.pos, Quoting::MultiLineLiteral) == from);
        lemma_ml_literal(src, r.pos, s0, to);
    }
}

/// In a string over several lines, a carriage return and a line feed stand for a
/// line feed.
pub proof fn law_line_breaks_become_feeds(src: Source, start: int, s: Scan)
    requires
        0 <= s.pos,
        s.pos + 1 < src.bytes.len(),
        src.bytes[s.pos] == 13,
        src.bytes[s.pos + 1] == 10,
    ensures
        ({
            let next = Scan { pos: s.pos + 2, text: s.text.push(10), found: s.found };
            &&& grammar::ml_basic_rest(src, start, s) == grammar::ml_basic_rest(src, start, next)
            &&& grammar::ml_literal_rest(src, start, s) == grammar::ml_literal_rest(
                src,
                start,
                next,
            )
        }),
{
    let one = seq![10u8 as char];
    assert(vstd::utf8::is_ascii_chars(one));
    vstd::utf8::is_ascii_chars_encode_utf8(one);
    assert(text::utf8(one) =~= seq![10u8]);
    assert(s.text + seq![10u8] =~= s.text.push(10));
    assert(grammar::numbered(10) == text::utf8(one));
}

proof fn lemma_continues(b: Seq<u8>, i: int, j: int)
    requires
        0 <= i < j < b.len(),
        b[i] == 10,
        forall|k: int| i < k < j ==> #[trigger] b[k] == 32 || b[k] == 9 || b[k] == 10,
        b[j] != 32 && b[j] != 9 && b[j] != 10 && b[j] != 13,
    ensures
        grammar::continuation_end(b, i) == j,
    decreases j - i,
{
    let stop = lemma_first_feed(b, i + 1, j);
    written::lemma_blanks(b, i + 1, stop);
    if stop < j {
        lemma_continues(b, stop, j);
    } else {
        assert(!grammar::full_break(b, j));
        assert(grammar::continuation_end(b, j) == j);
    }
}

proof fn lemma_first_feed(b: Seq<u8>, i: int, j: int) -> (stop: int)
    requires
        0 <= i <= j < b.len(),
        forall|k: int| i <= k < j ==> #[trigger] b[k] == 32 || b[k] == 9 || b[k] == 10,
    ensures
        i <= stop <= j,
        written::blank_between(b, i, stop),
        stop == j || b[stop] == 10,
    decreases j - i,
{
    if i == j || b[i] == 10 {
        i
    } else {
        assert(b[i] == 32 || b[i] == 9);
        lemma_first_feed(b, i + 1, j)
    }
}

/// In a string between three double quotes, a backslash at the end of a line joins
/// what follows on the lines behind it: neither the line feeds nor the blanks up to
/// the next character belong to the string.
pub proof fn law_lines_are_joined(src: Source, start: int, s: Scan, feed: int, to: int)
    requires
        0 <= s.pos < feed < to < src.bytes.len(),
        src.bytes[s.pos] == 92,
        written::blank_between(src.bytes, s.pos + 1, feed),
        src.bytes[feed] == 10,
        forall|k: int|
            feed < k < to ==> #[trigger] src.bytes[k] == 32 || src.bytes[k] == 9 || src.bytes[k]
                == 10,
        src.bytes[to] != 32 && src.bytes[to] != 9 && src.bytes[to] != 10 && src.bytes[to] != 13,
    ensures
        grammar::ml_basic_rest(src, start, s) == grammar::ml_basic_rest(
            src,
            start,
            Scan { pos: to, text: s.text, found: s.found },
        ),
{
    let b = src.bytes;
    written::lemma_blanks(b, s.pos + 1, feed);
    lemma_continues(b, feed, to);
    assert(s.moved(to) == (Scan { pos: to, text: s.text, found: s.found }));
}

// Numbered characters.

/// Whether a byte is a hexadecimal digit of a value.
pub open spec fn is_hex_digit(c: u8, value: int) -> bool {
    ||| 0 <= value <= 9 && c == 48 + value
    ||| 10 <= value <= 15 && c == 55 + value
    ||| 10 <= value <= 15 && c == 87 + value
}

/// In a string between double quotes, `\u` and four hexadecimal digits stand for the
/// character with that number; where there is none, it is reported, and stands for
/// nothing.
pub proof fn law_numbers_stand_for_characters(
    src: Source,
    start: int,
    s: Scan,
    h: (int, int, int, int),
)
    requires
        src.fits(),
        0 <= s.pos,
        s.pos + 5 < src.bytes.len(),
        src.bytes[s.pos] == 92,
        src.bytes[s.pos + 1] == 117,
        is_hex_digit(src.bytes[s.pos + 2], h.0),
        is_hex_digit(src.bytes[s.pos + 3], h.1),
        is_hex_digit(src.bytes[s.pos + 4], h.2),
        is_hex_digit(src.bytes[s.pos + 5], h.3),
    ensures
        ({
            let n = h.0 * 4096 + h.1 * 256 + h.2 * 16 + h.3;
            if 0xD800 <= n <= 0xDFFF {
                exists|d: FmDiagView|
                    d.severity is Error && grammar::basic_rest(src, start, s)
                        == #[trigger] grammar::basic_rest(
                        src,
                        start,
                        Scan { pos: s.pos + 6, text: s.text, found: s.found.push(d) },
                    )
            } else {
                grammar::basic_rest(src, start, s) == grammar::basic_rest(
                    src,
                    start,
                    Scan {
                        pos: s.pos + 6,
                        text: s.text + text::utf8(seq![n as char]),
                        found: s.found,
                    },
                )
            }
        }),
{
    reveal_with_fuel(grammar::hex_number, 5);
    let b = src.bytes;
    let n = h.0 * 4096 + h.1 * 256 + h.2 * 16 + h.3;
    let (pos, number) = grammar::hex_number(b, s.pos + 2, 4, 0);
    assert(grammar::hex_value(b[s.pos + 2]) == Some(h.0));
    assert(grammar::hex_value(b[s.pos + 3]) == Some(h.1));
    assert(grammar::hex_value(b[s.pos + 4]) == Some(h.2));
    assert(grammar::hex_value(b[s.pos + 5]) == Some(h.3));
    assert(pos == s.pos + 6);
    assert(number == Some(n));
    let next = grammar::escape(src, start, s.moved(s.pos + 1));
    assert(grammar::basic_rest(src, start, s) == grammar::basic_rest(src, start, next));
    if 0xD800 <= n <= 0xDFFF {
        let d = next.found.last();
        assert(next == (Scan { pos: s.pos + 6, text: s.text, found: s.found.push(d) }));
        assert(d.severity is Error);
        assert(grammar::basic_rest(src, start, s) == grammar::basic_rest(
            src,
            start,
            Scan { pos: s.pos + 6, text: s.text, found: s.found.push(d) },
        ));
    } else {
        assert(next == (Scan {
            pos: s.pos + 6,
            text: s.text + text::utf8(seq![n as char]),
            found: s.found,
        }));
    }
}

// Strings without an end.

/// A string whose line ends before its quote is reported, from where it starts.
pub proof fn law_unclosed_strings_are_reported(
    src: Source,
    start: int,
    s: Scan,
    quote: u8,
    at: int,
)
    requires
        src.fits(),
        quote == 34 || quote == 39,
        0 <= start < s.pos <= at < src.bytes.len(),
        src.bytes[at] == 10 || src.bytes[at] == 13,
        written::unbroken_between(src.bytes, s.pos, at),
        forall|k: int| s.pos <= k < at ==> #[trigger] src.bytes[k] != quote && src.bytes[k] != 92,
    ensures
        ({
            let end = if quote == 34 {
                grammar::basic_rest(src, start, s)
            } else {
                grammar::literal_rest(src, start, s)
            };
            &&& end.found.len() == s.found.len() + 1
            &&& end.found.drop_last() == s.found
            &&& end.found.last().severity is Error
            &&& end.found.last().span == (Span {
                start: (src.base + start) as usize,
                end: (src.base + at + 1) as usize,
            })
            &&& end.found.last().message == if quote == 34 {
                text::utf8("unclosed basic string"@)
            } else {
                text::utf8("unclosed literal string"@)
            }
            &&& end.pos == at + 1
        }),
    decreases at - s.pos,
{
    let b = src.bytes;
    if s.pos == at {
        assert(s.found.push(
            src.error(start, at + 1, text::utf8("unclosed basic string"@)),
        ).drop_last() =~= s.found);
        assert(s.found.push(
            src.error(start, at + 1, text::utf8("unclosed literal string"@)),
        ).drop_last() =~= s.found);
    } else {
        let e = grammar::char_end(b, s.pos);
        written::lemma_char_stays(b, s.pos, at);
        assert(b[s.pos] != quote && b[s.pos] != 92);
        assert(b[s.pos] != 10 && b[s.pos] != 13);
        law_unclosed_strings_are_reported(
            src,
            start,
            s.plus(e, text::piece(b, s.pos, e)),
            quote,
            at,
        );
    }
}

// Quoted keys.

/// A key between quotes is read without them; blanks before it do not belong to it.
pub proof fn law_quoted_keys_are_read(
    src: Source,
    r: Reading,
    from: int,
    to: int,
    writing: Writing,
)
    requires
        src.fits(),
        0 <= r.pos,
        written::blank_between(src.bytes, r.pos, from),
        writing !is Plain,
        written::value_between(src.bytes, from, to, writing),
        from + 2 < to <= src.bytes.len(),
    ensures
        ({
            let (next, key) = grammar::key_at(src, r);
            &&& next == r.moved(to)
            &&& key is Some
            &&& key->0.text == src.bytes.subrange(from + 1, to - 1)
            &&& key->0.span.start == src.base + from && key->0.span.end == src.base + to
        }),
{
    let b = src.bytes;
    written::lemma_blanks(b, r.pos, from);
    let s0 = Scan { pos: from + 1, text: Seq::empty(), found: r.found };
    let q = to - 1;
    assert(Seq::<u8>::empty() + b.subrange(from + 1, q) =~= b.subrange(from + 1, q));
    assert forall|k: int| from + 1 <= k < q implies #[trigger] b[k] != 10 && b[k] != 13 by {
        assert(b[k] != 10);
    }
    match writing {
        Writing::Quoted => {
            assert(b[from + 1] != 34);
            written::lemma_basic(src, from, s0, q);
        },
        Writing::Literal => {
            assert(b[from + 1] != 39);
            written::lemma_literal(src, from, s0, q);
        },
        Writing::Plain => {},
    }
}

// Inline tables.

/// The places of an entry of an inline table.
pub struct Field {
    pub key: int,
    pub key_end: int,
    pub equals: int,
    pub item: Item,
}

/// Whether the places of an entry are those of the text: blanks, a key, `=` and a
/// value, and the mark behind it.
pub open spec fn is_field(b: Seq<u8>, start: int, x: Field) -> bool {
    &&& 0 <= start
    &&& x.item.mark < b.len()
    &&& written::blank_between(b, start, x.key)
    &&& written::key_between(b, x.key, x.key_end)
    &&& written::blank_between(b, x.key_end, x.equals)
    &&& b[x.equals] == 61
    &&& written::blank_between(b, x.equals + 1, x.item.from)
    &&& written::value_between(b, x.item.from, x.item.to, x.item.writing)
    &&& written::blank_between(b, x.item.to, x.item.mark)
    &&& x.item.writing is Plain || x.item.to - x.item.from > 2
}

/// Whether entries follow one another behind the brace at `open`, with commas
/// between them and a brace at the end.
pub open spec fn are_fields(b: Seq<u8>, open: int, list: Seq<Field>) -> bool {
    &&& list.len() > 0
    &&& is_field(b, open + 1, list[0])
    &&& forall|i: int, j: int|
        #![trigger list[i], list[j]]
        0 <= i && j == i + 1 && j < list.len() ==> b[list[i].item.mark] == 44 && is_field(
            b,
            list[i].item.mark + 1,
            list[j],
        )
    &&& b[list.last().item.mark] == 125
}

/// Whether an entry says what is written.
pub open spec fn is_said(b: Seq<u8>, node: NodeView, x: Field) -> bool {
    node matches NodeView::Mapping { key, value, .. } && {
        &&& key.text == b.subrange(x.key, x.key_end)
        &&& value matches ValueView::Scalar(s) && s.text == tables::item_text(b, x.item)
    }
}

spec fn field_start(open: int, list: Seq<Field>, k: int) -> int {
    if k <= 0 {
        open + 1
    } else {
        list[k - 1].item.mark + 1
    }
}

/// One entry of an inline table is read.
proof fn lemma_field(
    src: Source,
    open: int,
    r: Reading,
    depth: nat,
    entries: Seq<NodeView>,
    x: Field,
) -> (node: NodeView)
    requires
        src.fits(),
        is_field(src.bytes, r.pos, x),
        src.bytes[x.item.mark] == 44 || src.bytes[x.item.mark] == 125,
    ensures
        is_said(src.bytes, node, x),
        src.bytes[x.item.mark] == 44 ==> grammar::table_rest(src, open, r, depth, entries)
            == grammar::table_rest(
            src,
            open,
            r.moved(x.item.mark + 1),
            depth,
            entries.push(node),
        ),
        src.bytes[x.item.mark] == 125 ==> grammar::table_rest(src, open, r, depth, entries) == (
            r.moved(x.item.mark + 1),
            entries.push(node),
        ),
{
    let b = src.bytes;
    let item = x.item;
    assert(grammar::bare_key_byte(b[x.key]));
    written::lemma_blanks(b, r.pos, x.key);
    let here = r.moved(x.key);
    assert(grammar::blank_end(b, x.key) == x.key);
    assert(b[x.key_end] == 32 || b[x.key_end] == 9 || b[x.key_end] == 61) by {
        if x.key_end < x.equals {
            assert(b[x.key_end] == 32 || b[x.key_end] == 9);
        }
    }
    written::lemma_bare(b, x.key, x.key_end);
    assert(text::piece(b, x.key, x.key_end) == b.subrange(x.key, x.key_end));
    let (keyed, parts) = grammar::dotted_key(src, here);
    assert(keyed == r.moved(x.key_end));
    assert(parts.len() == 1);
    written::lemma_blanks(b, x.key_end, x.equals);
    assert(b[item.from] != 32 && b[item.from] != 9);
    written::lemma_blanks(b, x.equals + 1, item.from);
    let at = r.moved(item.from);
    assert forall|k: int| item.to <= k < item.mark implies #[trigger] b[k] == 32 || b[k] == 9
        || b[k] == 10 by {
        assert(b[k] == 32 || b[k] == 9);
    }
    assert(tables::is_item(b, item.from, item));
    tables::lemma_item(src, at, item.from, item);
    let (next, s) = grammar::scalar_at(src, at);
    assert(grammar::blank_end(b, item.from) == item.from);
    assert(at.moved(item.from) == at);
    assert(grammar::value_at(src, at, depth) == (next, ValueView::Scalar(s)));
    let node = grammar::nested_entry(src, parts, ValueView::Scalar(s), x.key, next.pos);
    assert(written::blank_between(b, next.pos, item.mark));
    written::lemma_blanks(b, next.pos, item.mark);
    assert(next == r.moved(next.pos));
    assert(x.key < item.from <= b.len());
    assert(grammar::table_rest(src, open, r, depth, entries) == grammar::table_rest(
        src,
        open,
        next,
        depth,
        entries.push(node),
    ));
    node
}

/// The entries from the `k`th on are read one after another.
proof fn lemma_fields(
    src: Source,
    open: int,
    r: Reading,
    depth: nat,
    entries: Seq<NodeView>,
    list: Seq<Field>,
    k: int,
)
    requires
        src.fits(),
        0 <= open,
        are_fields(src.bytes, open, list),
        0 <= k < list.len(),
        r.pos == field_start(open, list, k),
        entries.len() == k,
        forall|i: int| 0 <= i < k ==> is_said(src.bytes, #[trigger] entries[i], list[i]),
    ensures
        ({
            let (next, all) = grammar::table_rest(src, open, r, depth, entries);
            &&& next == r.moved(list.last().item.mark + 1)
            &&& all.len() == list.len()
            &&& forall|i: int|
                0 <= i < list.len() ==> is_said(src.bytes, #[trigger] all[i], list[i])
        }),
    decreases list.len() - k,
{
    let b = src.bytes;
    let x = list[k];
    assert(is_field(b, r.pos, x)) by {
        if k > 0 {
            assert(list[k - 1].item.mark + 1 == r.pos);
        }
    }
    assert(b[x.item.mark] == 44 || b[x.item.mark] == 125) by {
        if k + 1 < list.len() {
            let y = list[k + 1];
            assert(b[list[k].item.mark] == 44);
        }
    }
    let node = lemma_field(src, open, r, depth, entries, x);
    let more = entries.push(node);
    assert forall|i: int| 0 <= i < k + 1 implies is_said(b, #[trigger] more[i], list[i]) by {
        if i < k {
            assert(more[i] == entries[i]);
        }
    }
    if k + 1 < list.len() {
        let y = list[k + 1];
        assert(b[list[k].item.mark] == 44);
        lemma_fields(src, open, r.moved(x.item.mark + 1), depth, more, list, k + 1);
    } else {
        assert(b[x.item.mark] == 125);
    }
}

/// A table in braces, with commas between its entries, is read as its entries in
/// their order, each with its key and its value without quotes; blanks around them
/// change nothing, and nothing is reported.
pub proof fn law_inline_tables_are_read_as_written(src: Source, r: Reading, list: Seq<Field>)
    requires
        src.fits(),
        0 <= r.pos < src.bytes.len(),
        src.bytes[r.pos] == 123,
        are_fields(src.bytes, r.pos, list),
    ensures
        ({
            let (next, value) = grammar::value_at(src, r, 0);
            &&& next == r.moved(list.last().item.mark + 1)
            &&& value matches ValueView::Mapping(entries) && entries.len() == list.len()
                && forall|i: int|
                0 <= i < list.len() ==> is_said(src.bytes, #[trigger] entries[i], list[i])
        }),
{
    assert(grammar::blank_end(src.bytes, r.pos) == r.pos);
    lemma_fields(src, r.pos, r.moved(r.pos + 1), 1, Seq::empty(), list, 0);
    assert(r.moved(r.pos) == r);
    assert(src.at(r.pos) == Some(123u8));
    assert(grammar::value_at(src, r, 0) == grammar::table_at(src, r, 0));
}

// Arrays of tables.

/// Whether the places of an element `[[name]]` of an array of tables are those of the
/// text; the last closing bracket stands behind `close`.
#[verifier::opaque]
pub open spec fn is_element(b: Seq<u8>, t: Section) -> bool {
    &&& 0 <= t.start
    &&& t.start + 2 <= t.name
    &&& t.end <= b.len()
    &&& b[t.start] == 91 && b[t.start + 1] == 91
    &&& written::blank_between(b, t.start + 2, t.name)
    &&& written::key_between(b, t.name, t.name_end)
    &&& written::blank_between(b, t.name_end, t.close)
    &&& b[t.close] == 93 && b[t.close + 1] == 93
    &&& written::blank_between(b, t.close + 2, t.tail)
    &&& written::comment_between(b, t.tail, t.stop)
    &&& written::break_between(b, t.stop, t.body)
    &&& written::is_made_between(b, t.lines, t.body, t.end)
    &&& t.end == b.len() || b[t.end] == 91
}

/// Whether elements of one array follow one another and make up a text.
pub open spec fn are_elements(b: Seq<u8>, list: Seq<Section>, name: Seq<u8>) -> bool {
    &&& list.len() > 0
    &&& list[0].start == 0
    &&& list.last().end == b.len()
    &&& forall|i: int|
        0 <= i < list.len() ==> is_element(b, #[trigger] list[i]) && tables::name_of(b, list[i])
            == name
    &&& forall|i: int, j: int|
        #![trigger list[i], list[j]]
        0 <= i && j == i + 1 && j < list.len() ==> list[j].start == list[i].end
}

/// Whether an item is an element: it has an entry for each line, which says what the
/// line says.
#[verifier::opaque]
pub open spec fn is_made(base: int, b: Seq<u8>, node: NodeView, lines: Seq<Line>) -> bool {
    node matches NodeView::SequenceItem { value: ValueView::Mapping(list), .. } && list.len()
        == written::entry_lines(lines).len() && forall|i: int|
        0 <= i < list.len() ==> written::says(
            base,
            b,
            #[trigger] list[i],
            written::entry_lines(lines)[i],
        )
}

/// One element is read: what it adds to the document.
proof fn lemma_element(src: Source, doc: Document, r: Reading, t: Section) -> (out: (
    ScalarView,
    NodeView,
))
    requires
        src.fits(),
        is_element(src.bytes, t),
        r.pos == t.start,
    ensures
        out.0.text == tables::name_of(src.bytes, t),
        is_made(src.base, src.bytes, out.1, t.lines),
        t.start < t.end <= src.bytes.len(),
        ({
            let node = NodeView::Mapping {
                key: out.0,
                value: ValueView::Sequence(seq![out.1]),
                span: src.span(t.start, t.end),
            };
            let (d, s) = grammar::merged(doc, r.moved(t.end), node);
            s.pos == t.end ==> grammar::tables_rest(src, doc, r) == grammar::tables_rest(src, d, s)
        }),
{
    reveal(is_element);
    reveal(is_made);
    let b = src.bytes;
    assert(grammar::bare_key_byte(b[t.name]));
    written::lemma_blanks(b, t.start + 2, t.name);
    assert(grammar::blank_end(b, t.name) == t.name);
    assert(b[t.name_end] == 32 || b[t.name_end] == 9 || b[t.name_end] == 93) by {
        if t.name_end < t.close {
            assert(b[t.name_end] == 32 || b[t.name_end] == 9);
        }
    }
    tables::lemma_bare_end(b, t.name, t.name_end);
    assert(text::piece(b, t.name, t.name_end) == b.subrange(t.name, t.name_end));
    written::lemma_blanks(b, t.name_end, t.close);
    assert(b[t.tail] == 10 || b[t.tail] == 13 || b[t.tail] == 35);
    written::lemma_blanks(b, t.close + 2, t.tail);
    written::lemma_comment(b, t.tail, t.stop, t.body);
    let key = ScalarView { span: src.span(t.name, t.name_end), text: tables::name_of(b, t) };
    let (keyed, parts) = grammar::dotted_key(src, r.moved(t.name));
    assert(parts =~= seq![key]);
    assert(keyed == r.moved(t.name_end));
    let (headed, named) = grammar::header_at(src, r, 2);
    assert(headed == r.moved(t.body));
    written::lemma_body(src, headed, t.lines, t.end);
    let (next, body) = grammar::body_rest(src, headed, Seq::empty());
    assert(next == r.moved(t.end));
    let item = NodeView::SequenceItem {
        value: ValueView::Mapping(body),
        span: src.span(t.start, t.end),
    };
    let node = grammar::nested_entry(
        src,
        parts,
        ValueView::Sequence(seq![item]),
        r.pos,
        next.pos,
    );
    assert(src.at(r.pos) == Some(91u8));
    assert(src.at(r.pos + 1) == Some(91u8));
    (key, item)
}

/// Whether a document is one array of tables with an item for each of some elements.
spec fn is_array(base: int, b: Seq<u8>, doc: Document, list: Seq<Section>, k: int, name: Seq<u8>) -> bool {
    &&& doc.entries.len() == 1
    &&& doc.entries[0] matches NodeView::Mapping { key, value: ValueView::Sequence(items), .. }
        && key.text == name && items.len() == k && forall|i: int|
        0 <= i < k ==> is_made(base, b, #[trigger] items[i], list[i].lines)
}

proof fn lemma_elements(
    src: Source,
    doc: Document,
    r: Reading,
    list: Seq<Section>,
    k: int,
    name: Seq<u8>,
)
    requires
        src.fits(),
        are_elements(src.bytes, list, name),
        0 <= k <= list.len(),
        r.pos == if k == 0 {
            0
        } else {
            list[k - 1].end
        },
        k == 0 ==> doc.entries.len() == 0,
        k > 0 ==> is_array(src.base, src.bytes, doc, list, k, name),
    ensures
        ({
            let (end, next) = grammar::tables_rest(src, doc, r);
            &&& next.found == r.found
            &&& is_array(src.base, src.bytes, end, list, list.len() as int, name)
        }),
    decreases list.len() - k,
{
    let b = src.bytes;
    if k < list.len() {
        let t = list[k];
        assert(r.pos == t.start) by {
            if k > 0 {
                assert(list[k].start == list[k - 1].end);
            }
        }
        let (key, item) = lemma_element(src, doc, r, t);
        let node = NodeView::Mapping {
            key,
            value: ValueView::Sequence(seq![item]),
            span: src.span(t.start, t.end),
        };
        let (d, s) = grammar::merged(doc, r.moved(t.end), node);
        if k == 0 {
            assert(grammar::entry_with(doc.entries, name, 0) is None);
            assert(d.entries =~= seq![node]);
            assert(is_array(src.base, b, d, list, 1, name)) by {
                assert(seq![item][0] == item);
            }
        } else {
            assert(grammar::entry_with(doc.entries, name, 0) == Some(0int));
            let old_items = doc.entries[0]->Mapping_value->Sequence_0;
            let items = old_items + seq![item];
            assert(d.entries[0]->Mapping_value == ValueView::Sequence(items));
            assert forall|i: int| 0 <= i < k + 1 implies is_made(
                src.base,
                b,
                #[trigger] items[i],
                list[i].lines,
            ) by {
                if i < k {
                    assert(items[i] == old_items[i]);
                } else {
                    assert(items[i] == item);
                }
            }
        }
        assert(s == r.moved(t.end));
        lemma_elements(src, d, s, list, k + 1, name);
    } else {
        assert(r.pos == b.len());
    }
}

/// Elements of an array of tables under one name are read as one entry, whose value
/// has an item for each of them in their order, with an entry for each of its lines;
/// nothing is reported.
pub proof fn law_arrays_of_tables_are_read_as_written(
    src: Source,
    list: Seq<Section>,
    name: Seq<u8>,
)
    requires
        src.fits(),
        are_elements(src.bytes, list, name),
    ensures
        ({
            let (doc, r) = grammar::document(src);
            &&& r.found.len() == 0
            &&& doc.entries.len() == 1
            &&& doc.entries[0] matches NodeView::Mapping {
                key,
                value: ValueView::Sequence(items),
                ..
            } && key.text == name && items.len() == list.len() && forall|i: int|
                0 <= i < items.len() ==> is_made(
                    src.base,
                    src.bytes,
                    #[trigger] items[i],
                    list[i].lines,
                )
        }),
{
    let b = src.bytes;
    let r0 = Reading { pos: 0, found: Seq::empty(), limit_hit: false };
    assert(b.len() > 0 && b[0] == 91) by {
        reveal(is_element);
        assert(is_element(b, list[0]));
    }
    assert(grammar::blank_end(b, 0) == 0);
    assert(grammar::gap_end(b, 0) == 0);
    assert(r0.moved(0) == r0);
    assert(grammar::body_rest(src, r0, Seq::empty()) == (r0, Seq::<NodeView>::empty()));
    let empty = Document { entries: Seq::empty(), taken: Set::empty() };
    lemma_elements(src, empty, r0, list, 0, name);
}

} // verus!

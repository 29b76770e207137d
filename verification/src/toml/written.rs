//! Frontmatter as people write it: a key, an equals sign and a value on each line,
//! with comments behind them and between them.
use vstd::prelude::*;
use crate::fm::{NodeView, ScalarView, ValueView};
use crate::limits::MAX_FRONTMATTER_BYTES;
use crate::lines;
use crate::span::Span;
use crate::text;
use crate::toml;
use crate::toml::grammar;
use crate::toml::grammar::{Document, Reading, Scan, Source};

verus! {

/// How a value is written.
pub enum Writing {
    /// As it is: a number, a date, a word.
    Plain,
    /// Between double quotes, without escapes.
    Quoted,
    /// Between single quotes.
    Literal,
}

/// The places in a line.
pub struct Line {
    /// Whether the line has an entry.
    pub entry: bool,
    pub start: int,
    pub key_end: int,
    pub equals: int,
    pub value: int,
    pub value_end: int,
    /// Behind the blanks.
    pub tail: int,
    /// Behind the comment.
    pub stop: int,
    /// Behind the line break.
    pub end: int,
    pub writing: Writing,
}

/// Whether the bytes between two offsets are spaces and tabs.
pub open spec fn blank_between(b: Seq<u8>, i: int, j: int) -> bool {
    i <= j && forall|k: int| i <= k < j ==> #[trigger] b[k] == 32 || b[k] == 9
}

/// Whether no byte between two offsets breaks a line.
pub open spec fn unbroken_between(b: Seq<u8>, i: int, j: int) -> bool {
    i <= j && forall|k: int| i <= k < j ==> #[trigger] b[k] != 10 && b[k] != 13
}

/// Whether the bytes between two offsets are letters, digits, `-` and `_`, and
/// there is one at least.
pub open spec fn key_between(b: Seq<u8>, i: int, j: int) -> bool {
    i < j && forall|k: int|
        i <= k < j ==> 48 <= #[trigger] b[k] <= 57 || 65 <= b[k] <= 90 || 97 <= b[k] <= 122 || b[k]
            == 45 || b[k] == 95
}

/// Whether nothing, or a comment, stands between two offsets.
pub open spec fn comment_between(b: Seq<u8>, i: int, j: int) -> bool {
    unbroken_between(b, i, j) && (i == j || b[i] == 35)
}

/// Whether a line feed, or a carriage return and a line feed, stands between two
/// offsets.
pub open spec fn break_between(b: Seq<u8>, i: int, j: int) -> bool {
    ||| j == i + 1 && b[i] == 10
    ||| j == i + 2 && b[i] == 13 && b[i + 1] == 10
}

/// Whether a value stands between two offsets: a plain one starts with none of
/// quotes and brackets, holds none of `#`, `,`, `]`, `}` and line breaks, and ends
/// with a visible ASCII character; a quoted one holds neither its quote nor a line
/// break, and between double quotes no backslash either.
pub open spec fn value_between(b: Seq<u8>, i: int, j: int, writing: Writing) -> bool {
    match writing {
        Writing::Plain => {
            &&& i < j
            &&& unbroken_between(b, i, j)
            &&& forall|k: int|
                i <= k < j ==> #[trigger] b[k] != 35 && b[k] != 44 && b[k] != 93 && b[k] != 125
            &&& b[i] != 32 && b[i] != 9 && b[i] != 34 && b[i] != 39 && b[i] != 91 && b[i] != 123
            &&& !vstd::utf8::is_continuation_byte(b[i])
            &&& 33 <= b[j - 1] <= 126
        },
        Writing::Quoted => {
            &&& i + 2 <= j
            &&& b[i] == 34 && b[j - 1] == 34
            &&& unbroken_between(b, i, j)
            &&& forall|k: int| i < k < j - 1 ==> #[trigger] b[k] != 34 && b[k] != 92
            &&& !vstd::utf8::is_continuation_byte(b[i + 1])
        },
        Writing::Literal => {
            &&& i + 2 <= j
            &&& b[i] == 39 && b[j - 1] == 39
            &&& unbroken_between(b, i, j)
            &&& forall|k: int| i < k < j - 1 ==> #[trigger] b[k] != 39
            &&& !vstd::utf8::is_continuation_byte(b[i + 1])
        },
    }
}

/// Whether the places of a line are those of the text.
pub open spec fn is_line(b: Seq<u8>, l: Line) -> bool {
    &&& 0 <= l.start
    &&& l.end <= b.len()
    &&& if l.entry {
        &&& key_between(b, l.start, l.key_end)
        &&& blank_between(b, l.key_end, l.equals)
        &&& b[l.equals] == 61
        &&& blank_between(b, l.equals + 1, l.value)
        &&& value_between(b, l.value, l.value_end, l.writing)
        &&& blank_between(b, l.value_end, l.tail)
    } else {
        blank_between(b, l.start, l.tail)
    }
    &&& comment_between(b, l.tail, l.stop)
    &&& break_between(b, l.stop, l.end)
}

/// Whether a text is made, between two offsets, of lines, one behind the other.
pub open spec fn is_made_between(b: Seq<u8>, list: Seq<Line>, from: int, to: int) -> bool {
    &&& 0 <= from <= to <= b.len()
    &&& forall|i: int| 0 <= i < list.len() ==> is_line(b, #[trigger] list[i])
    &&& list.len() > 0 ==> list[0].start == from
    &&& forall|i: int, j: int|
        #![trigger list[i], list[j]]
        0 <= i && j == i + 1 && j < list.len() ==> list[j].start == list[i].end
    &&& to == (if list.len() == 0 {
        from
    } else {
        list.last().end
    })
}

/// Whether a text is made of lines.
pub open spec fn is_made_of(b: Seq<u8>, list: Seq<Line>) -> bool {
    is_made_between(b, list, 0, b.len() as int)
}

/// The key of a line, as written.
pub open spec fn key_of(b: Seq<u8>, l: Line) -> Seq<u8> {
    b.subrange(l.start, l.key_end)
}

/// What the value of a line says: what is written, without quotes.
pub open spec fn text_of(b: Seq<u8>, l: Line) -> Seq<u8> {
    match l.writing {
        Writing::Plain => b.subrange(l.value, l.value_end),
        _ => b.subrange(l.value + 1, l.value_end - 1),
    }
}

/// The lines with entries.
pub open spec fn entry_lines(list: Seq<Line>) -> Seq<Line>
    decreases list.len(),
{
    if list.len() == 0 {
        list
    } else if list.last().entry {
        entry_lines(list.drop_last()).push(list.last())
    } else {
        entry_lines(list.drop_last())
    }
}

/// Whether an entry says what its line says, and its spans are the places of the
/// key and of the value as written.
pub open spec fn says(base: int, b: Seq<u8>, node: NodeView, l: Line) -> bool {
    node matches NodeView::Mapping { key, value, span } && {
        &&& key.text == key_of(b, l)
        &&& key.span.start == base + l.start && key.span.end == base + l.key_end
        &&& value matches ValueView::Scalar(s) && s.text == text_of(b, l) && s.span.start == base
            + l.value && s.span.end == base + l.value_end
        &&& span.start == base + l.start && span.end == base + l.end
    }
}

// Reading.

pub(crate) proof fn lemma_blanks(b: Seq<u8>, i: int, j: int)
    requires
        0 <= i,
        j <= b.len(),
        blank_between(b, i, j),
        j < b.len() ==> b[j] != 32 && b[j] != 9,
    ensures
        grammar::blank_end(b, i) == j,
    decreases j - i,
{
    if i < j {
        assert(b[i] == 32 || b[i] == 9);
        lemma_blanks(b, i + 1, j);
    }
}

pub(crate) proof fn lemma_comment(b: Seq<u8>, i: int, j: int, end: int)
    requires
        0 <= i,
        end <= b.len(),
        comment_between(b, i, j),
        break_between(b, j, end),
    ensures
        grammar::comment_end(b, i) == j,
        grammar::break_end(b, j) == end,
        i < j ==> grammar::line_end(b, i) == j,
{
    lemma_line_rest(b, i, j);
    if i == j {
        assert(b[i] == 10 || b[i] == 13);
    }
}

proof fn lemma_line_rest(b: Seq<u8>, i: int, j: int)
    requires
        0 <= i,
        j < b.len(),
        unbroken_between(b, i, j),
        b[j] == 10 || b[j] == 13,
    ensures
        grammar::line_end(b, i) == j,
    decreases j - i,
{
    if i < j {
        assert(b[i] != 10 && b[i] != 13);
        lemma_line_rest(b, i + 1, j);
    }
}

pub(crate) proof fn lemma_bare(b: Seq<u8>, i: int, j: int)
    requires
        0 <= i < j,
        j < b.len(),
        key_between(b, i, j),
        b[j] == 32 || b[j] == 9 || b[j] == 61,
    ensures
        grammar::bare_key_end(b, i) == j,
    decreases j - i,
{
    assert(grammar::bare_key_byte(b[i]));
    if i + 1 < j {
        assert(key_between(b, i + 1, j));
        lemma_bare(b, i + 1, j);
    } else {
        assert(!grammar::bare_key_byte(b[j]));
        assert(grammar::bare_key_end(b, j) == j);
    }
}

pub(crate) proof fn lemma_plain_end(b: Seq<u8>, i: int, j: int)
    requires
        0 <= i <= j,
        j < b.len(),
        forall|k: int|
            i <= k < j ==> #[trigger] b[k] != 10 && b[k] != 13 && b[k] != 35 && b[k] != 44 && b[k]
                != 93 && b[k] != 125,
        b[j] == 10 || b[j] == 13 || b[j] == 35,
    ensures
        grammar::plain_end(b, i) == j,
    decreases j - i,
{
    if i < j {
        assert(b[i] != 10);
        lemma_plain_end(b, i + 1, j);
    }
}

/// Blanks at the end of a text are stripped, and no visible character is.
pub(crate) proof fn lemma_stripped(t: Seq<u8>, n: int)
    requires
        0 < n <= t.len(),
        33 <= t[n - 1] <= 126,
        blank_between(t, n, t.len() as int),
    ensures
        lines::trimmed_end(t) == t.subrange(0, n),
{
    lemma_strip_back(t, n, t.len() as int);
    assert(n < t.len() ==> t[n] == 32 || t[n] == 9);
}

proof fn lemma_strip_back(t: Seq<u8>, n: int, i: int)
    requires
        0 < n <= i <= t.len(),
        33 <= t[n - 1] <= 126,
        blank_between(t, n, i),
    ensures
        lines::skip_space_back(t, i) == n,
    decreases i - n,
{
    let c = t[i - 1];
    assert(t.take(i)[i - 1] == c);
    if n < i {
        assert(c == 32 || c == 9);
        assert(lines::space_len_before(t, i) == 1);
        lemma_strip_back(t, n, i - 1);
    } else {
        assert(lines::space_len(t.take(i), i - 1) == 0);
        assert(lines::space_len(t.take(i), i - 2) != 2);
        assert(lines::space_len(t.take(i), i - 3) != 3);
    }
}

pub(crate) proof fn lemma_char_stays(b: Seq<u8>, i: int, q: int)
    requires
        0 <= i < q < b.len(),
        b[q] < 128,
    ensures
        i < grammar::char_end(b, i) <= q,
        !vstd::utf8::is_continuation_byte(b[grammar::char_end(b, i)]),
    decreases q - i,
{
    if vstd::utf8::is_continuation_byte(b[i + 1]) {
        assert(i + 1 != q);
        lemma_char_stays(b, i + 1, q);
    }
}

/// A string between double quotes is read up to its end.
pub(crate) proof fn lemma_basic(src: Source, start: int, s: Scan, q: int)
    requires
        0 <= s.pos <= q < src.bytes.len(),
        src.bytes[q] == 34,
        unbroken_between(src.bytes, s.pos, q),
        forall|k: int| s.pos <= k < q ==> #[trigger] src.bytes[k] != 34 && src.bytes[k] != 92,
        !vstd::utf8::is_continuation_byte(src.bytes[s.pos]),
    ensures
        grammar::basic_rest(src, start, s) == (Scan {
            pos: q + 1,
            text: s.text + src.bytes.subrange(s.pos, q),
            found: s.found,
        }),
    decreases q - s.pos,
{
    let b = src.bytes;
    if s.pos == q {
        assert(s.text + b.subrange(q, q) =~= s.text);
    } else {
        let e = grammar::char_end(b, s.pos);
        lemma_char_stays(b, s.pos, q);
        assert(b[s.pos] != 34 && b[s.pos] != 92 && b[s.pos] != 10 && b[s.pos] != 13);
        assert(text::piece(b, s.pos, e) == b.subrange(s.pos, e));
        let next = s.plus(e, b.subrange(s.pos, e));
        lemma_basic(src, start, next, q);
        assert(next.text + b.subrange(e, q) =~= s.text + b.subrange(s.pos, q));
    }
}

/// A string between single quotes is read up to its end.
pub(crate) proof fn lemma_literal(src: Source, start: int, s: Scan, q: int)
    requires
        0 <= s.pos <= q < src.bytes.len(),
        src.bytes[q] == 39,
        unbroken_between(src.bytes, s.pos, q),
        forall|k: int| s.pos <= k < q ==> #[trigger] src.bytes[k] != 39,
        !vstd::utf8::is_continuation_byte(src.bytes[s.pos]),
    ensures
        grammar::literal_rest(src, start, s) == (Scan {
            pos: q + 1,
            text: s.text + src.bytes.subrange(s.pos, q),
            found: s.found,
        }),
    decreases q - s.pos,
{
    let b = src.bytes;
    if s.pos == q {
        assert(s.text + b.subrange(q, q) =~= s.text);
    } else {
        let e = grammar::char_end(b, s.pos);
        lemma_char_stays(b, s.pos, q);
        assert(b[s.pos] != 39 && b[s.pos] != 10 && b[s.pos] != 13);
        assert(text::piece(b, s.pos, e) == b.subrange(s.pos, e));
        let next = s.plus(e, b.subrange(s.pos, e));
        lemma_literal(src, start, next, q);
        assert(next.text + b.subrange(e, q) =~= s.text + b.subrange(s.pos, q));
    }
}

/// A value is read as written; the reading goes on behind it, or, where it is
/// plain, behind the blanks that follow it.
proof fn lemma_value(src: Source, r: Reading, l: Line)
    requires
        src.fits(),
        l.entry,
        is_line(src.bytes, l),
        r.pos == l.value,
    ensures
        ({
            let (next, value) = grammar::value_at(src, r, 0);
            &&& next.found == r.found
            &&& next.limit_hit == r.limit_hit
            &&& l.value_end <= next.pos <= l.tail
            &&& value matches ValueView::Scalar(s) && s.text == text_of(src.bytes, l)
                && s.span.start == src.base + l.value && s.span.end == src.base + l.value_end
        }),
{
    let b = src.bytes;
    let i = l.value;
    let j = l.value_end;
    assert(b[i] != 32 && b[i] != 9);
    assert(grammar::blank_end(b, i) == i);
    match l.writing {
        Writing::Plain => {
            assert forall|k: int| i <= k < l.tail implies #[trigger] b[k] != 10 && b[k] != 13 && b[k]
                != 35 && b[k] != 44 && b[k] != 93 && b[k] != 125 by {
                if k < j {
                    assert(b[k] != 10 && b[k] != 13);
                    assert(b[k] != 35);
                } else {
                    assert(b[k] == 32 || b[k] == 9);
                }
            }
            assert(b[l.tail] == 10 || b[l.tail] == 13 || b[l.tail] == 35);
            lemma_plain_end(b, i, l.tail);
            let t = b.subrange(i, l.tail);
            assert(text::piece(b, i, l.tail) == t);
            assert forall|k: int| j - i <= k < t.len() implies #[trigger] t[k] == 32 || t[k] == 9 by {
                assert(t[k] == b[i + k]);
            }
            lemma_stripped(t, j - i);
            assert(t.subrange(0, j - i) =~= b.subrange(i, j));
        },
        Writing::Quoted => {
            let q = j - 1;
            assert(!grammar::tripled(b, i, 34)) by {
                if grammar::tripled(b, i, 34) {
                    assert(q == i + 1);
                    assert(b[j] == 34);
                    if j < l.tail {
                        assert(b[j] == 32 || b[j] == 9);
                    } else if j < l.stop {
                        assert(b[j] == 35);
                    }
                }
            }
            let s0 = Scan { pos: i + 1, text: Seq::empty(), found: r.found };
            assert forall|k: int| i + 1 <= k < q implies #[trigger] b[k] != 10 && b[k] != 13 by {
                assert(b[k] != 10);
            }
            lemma_basic(src, i, s0, q);
            assert(Seq::<u8>::empty() + b.subrange(i + 1, q) =~= b.subrange(i + 1, q));
        },
        Writing::Literal => {
            let q = j - 1;
            assert(!grammar::tripled(b, i, 39)) by {
                if grammar::tripled(b, i, 39) {
                    assert(q == i + 1);
                    assert(b[j] == 39);
                    if j < l.tail {
                        assert(b[j] == 32 || b[j] == 9);
                    } else if j < l.stop {
                        assert(b[j] == 35);
                    }
                }
            }
            let s0 = Scan { pos: i + 1, text: Seq::empty(), found: r.found };
            assert forall|k: int| i + 1 <= k < q implies #[trigger] b[k] != 10 && b[k] != 13 by {
                assert(b[k] != 10);
            }
            lemma_literal(src, i, s0, q);
            assert(Seq::<u8>::empty() + b.subrange(i + 1, q) =~= b.subrange(i + 1, q));
        },
    }
}

/// A line with an entry is read as that entry.
proof fn lemma_entry(src: Source, r: Reading, l: Line)
    requires
        src.fits(),
        l.entry,
        is_line(src.bytes, l),
        r.pos == l.start,
    ensures
        ({
            let b = src.bytes;
            let (keyed, parts) = grammar::dotted_key(src, r);
            let j = grammar::blank_end(b, keyed.pos);
            let (valued, value) = grammar::value_at(
                src,
                keyed.moved(grammar::blank_end(b, j + 1)),
                0,
            );
            let next = valued.moved(grammar::trailer_end(b, valued.pos));
            &&& parts.len() == 1
            &&& src.at(j) == Some(61u8)
            &&& next.pos == l.end
            &&& next.found == r.found
            &&& next.limit_hit == r.limit_hit
            &&& says(src.base, b, grammar::nested_entry(src, parts, value, l.start, next.pos), l)
        }),
{
    let b = src.bytes;
    let i = l.start;
    assert(grammar::bare_key_byte(b[i]));
    assert(grammar::blank_end(b, i) == i);
    assert(b[l.key_end] == 32 || b[l.key_end] == 9 || b[l.key_end] == 61) by {
        if l.key_end < l.equals {
            assert(b[l.key_end] == 32 || b[l.key_end] == 9);
        }
    }
    lemma_bare(b, i, l.key_end);
    assert(text::piece(b, i, l.key_end) == b.subrange(i, l.key_end));
    lemma_blanks(b, l.key_end, l.equals);
    assert(b[l.value] != 32 && b[l.value] != 9);
    lemma_blanks(b, l.equals + 1, l.value);
    let (keyed, parts) = grammar::dotted_key(src, r);
    assert(parts =~= seq![
        ScalarView { span: src.span(i, l.key_end), text: b.subrange(i, l.key_end) },
    ]);
    let at = keyed.moved(l.value);
    lemma_value(src, at, l);
    let (valued, value) = grammar::value_at(src, at, 0);
    assert(blank_between(b, valued.pos, l.tail)) by {
        assert forall|k: int| valued.pos <= k < l.tail implies #[trigger] b[k] == 32 || b[k]
            == 9 by {
            assert(l.value_end <= k);
        }
    }
    assert(b[l.tail] == 10 || b[l.tail] == 13 || b[l.tail] == 35);
    lemma_blanks(b, valued.pos, l.tail);
    lemma_comment(b, l.tail, l.stop, l.end);
}

/// A line without an entry is passed over.
proof fn lemma_filler(b: Seq<u8>, l: Line)
    requires
        !l.entry,
        is_line(b, l),
    ensures
        grammar::gap_end(b, l.start) == grammar::gap_end(b, l.end),
{
    assert(b[l.tail] == 10 || b[l.tail] == 13 || b[l.tail] == 35);
    lemma_blanks(b, l.start, l.tail);
    lemma_comment(b, l.tail, l.stop, l.end);
    if l.tail == l.stop {
        assert(b[l.tail] == 10 || b[l.tail] == 13);
    }
}

spec fn start_of(list: Seq<Line>, to: int, k: int) -> int {
    if 0 <= k < list.len() {
        list[k].start
    } else {
        to
    }
}

/// The lines from the `k`th on are read one after another, up to the end or to the
/// next header.
proof fn lemma_lines(
    src: Source,
    r: Reading,
    entries: Seq<NodeView>,
    list: Seq<Line>,
    from: int,
    to: int,
    k: int,
)
    requires
        src.fits(),
        is_made_between(src.bytes, list, from, to),
        to == src.bytes.len() || src.bytes[to] == 91,
        0 <= k <= list.len(),
        0 <= r.pos <= start_of(list, to, k),
        grammar::gap_end(src.bytes, r.pos) == grammar::gap_end(
            src.bytes,
            start_of(list, to, k),
        ),
        entries.len() == entry_lines(list.take(k)).len(),
        forall|i: int|
            0 <= i < entries.len() ==> says(
                src.base,
                src.bytes,
                #[trigger] entries[i],
                entry_lines(list.take(k))[i],
            ),
    ensures
        ({
            let (next, all) = grammar::body_rest(src, r, entries);
            &&& next == r.moved(to)
            &&& all.len() == entry_lines(list).len()
            &&& forall|i: int|
                0 <= i < all.len() ==> says(
                    src.base,
                    src.bytes,
                    #[trigger] all[i],
                    entry_lines(list)[i],
                )
        }),
    decreases list.len() - k,
{
    let b = src.bytes;
    if k == list.len() {
        assert(list.take(k) =~= list);
        assert(grammar::gap_end(b, to) == to) by {
            assert(grammar::blank_end(b, to) == to);
        }
    } else {
        let l = list[k];
        let at = l.start;
        assert(list.take(k + 1).drop_last() =~= list.take(k));
        assert(list.take(k + 1).last() == l);
        assert(start_of(list, to, k + 1) == l.end) by {
            if k + 1 < list.len() {
                assert(list[k + 1].start == list[k].end);
            }
        }
        if l.entry {
            let here = r.moved(at);
            assert(grammar::bare_key_byte(b[at]));
            assert(grammar::blank_end(b, at) == at);
            assert(grammar::gap_end(b, at) == at);
            lemma_entry(src, here, l);
            let (keyed, parts) = grammar::dotted_key(src, here);
            let j = grammar::blank_end(b, keyed.pos);
            let (valued, value) = grammar::value_at(
                src,
                keyed.moved(grammar::blank_end(b, j + 1)),
                0,
            );
            let next = valued.moved(grammar::trailer_end(b, valued.pos));
            let node = grammar::nested_entry(src, parts, value, at, next.pos);
            let more = entries.push(node);
            assert(at < l.end);
            assert(entry_lines(list.take(k + 1)) == entry_lines(list.take(k)).push(l));
            assert forall|i: int| 0 <= i < more.len() implies says(
                src.base,
                b,
                #[trigger] more[i],
                entry_lines(list.take(k + 1))[i],
            ) by {
                if i < entries.len() {
                    assert(more[i] == entries[i]);
                }
            }
            lemma_lines(src, next, more, list, from, to, k + 1);
        } else {
            lemma_filler(b, l);
            lemma_lines(src, r, entries, list, from, to, k + 1);
        }
    }
}

pub(crate) proof fn lemma_all_join(
    src: Source,
    r: Reading,
    list: Seq<NodeView>,
    from: Seq<Line>,
)
    requires
        list.len() == from.len(),
        forall|i: int| 0 <= i < list.len() ==> says(src.base, src.bytes, #[trigger] list[i], from[i]),
        forall|i: int, j: int|
            0 <= i < j < from.len() ==> key_of(src.bytes, #[trigger] from[i]) != key_of(
                src.bytes,
                #[trigger] from[j],
            ),
    ensures
        ({
            let empty = Document { entries: Seq::empty(), taken: Set::empty() };
            let (doc, next) = grammar::all_joined(empty, r, list);
            &&& doc.entries == list
            &&& next == r
            &&& forall|k: Seq<u8>| #[trigger]
                doc.taken.contains(k) ==> exists|i: int|
                    0 <= i < from.len() && key_of(src.bytes, #[trigger] from[i]) == k
        }),
    decreases list.len(),
{
    if list.len() == 0 {
        assert(list =~= Seq::<NodeView>::empty());
    } else {
        let front = list.drop_last();
        let before = from.drop_last();
        let n = list.len() - 1;
        assert forall|i: int| 0 <= i < front.len() implies says(
            src.base,
            src.bytes,
            #[trigger] front[i],
            before[i],
        ) by {
            assert(front[i] == list[i]);
        }
        lemma_all_join(src, r, front, before);
        assert(says(src.base, src.bytes, list[n], from[n]));
        let empty = Document { entries: Seq::empty(), taken: Set::empty() };
        let (doc, next) = grammar::all_joined(empty, r, front);
        let key = key_of(src.bytes, from[n]);
        if doc.taken.contains(key) {
            let i = choose|i: int|
                0 <= i < before.len() && key_of(src.bytes, #[trigger] before[i]) == key;
            assert(from[i] == before[i]);
        }
        assert(front.push(list[n]) =~= list);
        let (end, _) = grammar::all_joined(empty, r, list);
        assert forall|k: Seq<u8>| #[trigger] end.taken.contains(k) implies exists|i: int|
            0 <= i < from.len() && key_of(src.bytes, #[trigger] from[i]) == k by {
            if k == key {
                assert(key_of(src.bytes, from[n]) == k);
            } else {
                let i = choose|i: int|
                    0 <= i < before.len() && key_of(src.bytes, #[trigger] before[i]) == k;
                assert(from[i] == before[i]);
            }
        }
    }
}

/// Lines that each hold a key, an equals sign and a value, under different keys,
/// are read as one entry each, in their order: with the key as written and the
/// value without its quotes. Comments behind entries and on lines of their own, and
/// blanks, change nothing, and nothing is reported.
pub proof fn law_lines_are_read_as_written(src: Source, list: Seq<Line>)
    requires
        src.fits(),
        is_made_of(src.bytes, list),
        forall|i: int, j: int|
            0 <= i < j < entry_lines(list).len() ==> key_of(
                src.bytes,
                #[trigger] entry_lines(list)[i],
            ) != key_of(src.bytes, #[trigger] entry_lines(list)[j]),
    ensures
        ({
            let (doc, r) = grammar::document(src);
            &&& r.found.len() == 0
            &&& doc.entries.len() == entry_lines(list).len()
            &&& forall|i: int|
                0 <= i < doc.entries.len() ==> says(
                    src.base,
                    src.bytes,
                    #[trigger] doc.entries[i],
                    entry_lines(list)[i],
                )
        }),
{
    let r0 = Reading { pos: 0, found: Seq::empty(), limit_hit: false };
    assert(list.take(0) =~= Seq::<Line>::empty());
    let n = src.bytes.len() as int;
    assert(start_of(list, n, 0) == 0);
    lemma_lines(src, r0, Seq::empty(), list, 0, n, 0);
    let (r1, top) = grammar::body_rest(src, r0, Seq::empty());
    lemma_all_join(src, r1, top, entry_lines(list));
}

/// Where the first fence at the start of a line stands, the block closes.
proof fn lemma_closes(b: Seq<u8>, i: int, q: int)
    requires
        0 <= i <= q,
        toml::fence_at(b, q),
        q == 0 || b[q - 1] == 10,
        q + 3 == b.len() || b[q + 3] == 10 || b[q + 3] == 13,
        forall|p: int|
            i <= p < q && #[trigger] toml::fence_at(b, p) ==> p > 0 && b[p - 1] != 10,
    ensures
        toml::closing_fence(b, i) == Some(q),
    decreases q - i,
{
    lemma_next(b, i, q);
    toml::lemma_next_fence(b, i);
    let p = toml::next_fence(b, i)->0;
    if p < q {
        assert(p + 3 <= q) by {
            if q < p + 3 {
                assert(b[q - 1] == 43 || b[q - 1] == 10);
                assert(p <= q - 1 < p + 3);
            }
        }
        lemma_closes(b, p + 3, q);
    }
}

proof fn lemma_next(b: Seq<u8>, i: int, q: int)
    requires
        0 <= i <= q,
        toml::fence_at(b, q),
    ensures
        toml::next_fence(b, i) matches Some(p) && p <= q,
    decreases q - i,
{
    if i < q && !toml::fence_at(b, i) {
        lemma_next(b, i + 1, q);
    }
}

/// No line of such a text starts with a fence.
proof fn lemma_no_fence(b: Seq<u8>, list: Seq<Line>, p: int, k: int)
    requires
        is_made_of(b, list),
        0 <= k < list.len(),
        list[k].start <= p < list[k].end,
        p == 0 || b[p - 1] == 10,
    ensures
        b[p] != 43,
{
    let l = list[k];
    assert(is_line(b, l));
    if p == l.start {
        if l.entry {
            assert(48 <= b[p] <= 57 || 65 <= b[p] <= 90 || 97 <= b[p] <= 122 || b[p] == 45 || b[p]
                == 95);
        } else if p < l.tail {
            assert(b[p] == 32 || b[p] == 9);
        }
    } else {
        let c = b[p - 1];
        assert(c == 10);
        if p - 1 < l.tail {
            if l.entry {
                if p - 1 < l.key_end {
                    assert(c != 10);
                } else if p - 1 < l.equals {
                    assert(c == 32 || c == 9);
                } else if p - 1 == l.equals {
                } else if p - 1 < l.value {
                    assert(c == 32 || c == 9);
                } else if p - 1 < l.value_end {
                    assert(unbroken_between(b, l.value, l.value_end));
                    assert(c != 10);
                } else {
                    assert(c == 32 || c == 9);
                }
            } else {
                assert(c == 32 || c == 9);
            }
        } else if p - 1 < l.stop {
            assert(c != 10);
        } else {
            assert(b[l.stop] == 10 || b[l.stop] == 13);
        }
    }
}

proof fn lemma_in_a_line(b: Seq<u8>, list: Seq<Line>, n: int, p: int) -> (k: int)
    requires
        is_made_of(b, list),
        0 < n <= list.len(),
        0 <= p < list[n - 1].end,
    ensures
        0 <= k < n,
        list[k].start <= p < list[k].end,
    decreases n,
{
    if list[n - 1].start <= p {
        n - 1
    } else {
        assert(n > 1);
        assert(list[n - 1].start == list[n - 2].end);
        lemma_in_a_line(b, list, n - 1, p)
    }
}

/// A document that starts with such lines between fences has them as its
/// frontmatter: one entry for each, with the key and the text of its line, at the
/// places of the document; whatever follows the block does not matter.
pub proof fn law_frontmatter_is_read_as_written(
    content: Seq<u8>,
    list: Seq<Line>,
    rest: Seq<u8>,
)
    requires
        is_made_of(content, list),
        content.len() <= MAX_FRONTMATTER_BYTES,
        8 + content.len() + rest.len() <= usize::MAX,
        forall|i: int, j: int|
            0 <= i < j < entry_lines(list).len() ==> key_of(
                content,
                #[trigger] entry_lines(list)[i],
            ) != key_of(content, #[trigger] entry_lines(list)[j]),
    ensures
        ({
            let fence = seq![43u8, 43u8, 43u8, 10u8];
            let block = toml::frontmatter(fence + content + fence + rest);
            &&& block is Some
            &&& block->0.diagnostics.len() == 0
            &&& block->0.span == Span { start: 0, end: (8 + content.len()) as usize }
            &&& block->0.content_span == Span { start: 4, end: (4 + content.len()) as usize }
            &&& block->0.entries.len() == entry_lines(list).len()
            &&& forall|i: int|
                0 <= i < block->0.entries.len() ==> says(
                    4,
                    content,
                    #[trigger] block->0.entries[i],
                    entry_lines(list)[i],
                )
        }),
{
    let fence = seq![43u8, 43u8, 43u8, 10u8];
    let b = fence + content + fence + rest;
    let tail = content + fence + rest;
    let n = content.len() as int;
    assert(toml::fence_line(b, 0) == Some(4int));
    assert(b[4] == tail[0]);
    assert(tail[0] < 128) by {
        if n > 0 {
            let k = lemma_in_a_line(content, list, list.len() as int, 0);
            assert(list[k].start == 0);
            assert(is_line(content, list[k]));
            let l = list[k];
            assert(tail[0] == content[0]);
            if !l.entry && l.tail > 0 {
                assert(content[0] == 32 || content[0] == 9);
            } else if l.entry {
                assert(content[0] < 128);
            }
        }
    }
    assert(text::piece(b, 4, b.len() as int) =~= tail);
    assert(toml::fence_at(tail, n)) by {
        assert(tail[n] == fence[0] && tail[n + 1] == fence[1] && tail[n + 2] == fence[2]);
    }
    assert(tail[n + 3] == fence[3]);
    assert(n == 0 || tail[n - 1] == 10) by {
        if n > 0 {
            let l = list[list.len() - 1];
            assert(is_line(content, l));
            assert(tail[n - 1] == content[n - 1]);
        }
    }
    assert forall|p: int| 0 <= p < n && #[trigger] toml::fence_at(tail, p) implies p > 0 && tail[p
        - 1] != 10 by {
        let k = lemma_in_a_line(content, list, list.len() as int, p);
        assert(tail[p] == content[p]);
        if p == 0 || tail[p - 1] == 10 {
            if p > 0 {
                assert(tail[p - 1] == content[p - 1]);
            }
            lemma_no_fence(content, list, p, k);
        }
    }
    lemma_closes(tail, 0, n);
    assert(toml::fence_line(tail, n) == Some(4int));
    assert(text::piece(tail, 0, n) =~= content);
    let src = Source { bytes: content, base: 4 };
    law_lines_are_read_as_written(src, list);
}

/// An unquoted scalar holds neither a comment nor what ends a value: its text has
/// no `#`, `,`, `]`, `}` and no line break in it, and the reading stops at one of
/// these or at the end.
pub proof fn law_plain_values_stop(src: Source, r: Reading)
    requires
        0 <= r.pos <= src.bytes.len(),
        ({
            let i = grammar::blank_end(src.bytes, r.pos);
            src.at(i) != Some(34u8) && src.at(i) != Some(39u8)
        }),
    ensures
        ({
            let (next, s) = grammar::scalar_at(src, r);
            &&& forall|k: int|
                0 <= k < s.text.len() ==> #[trigger] s.text[k] != 35 && s.text[k] != 44 && s.text[k]
                    != 93 && s.text[k] != 125 && s.text[k] != 10 && s.text[k] != 13
            &&& next.pos < src.bytes.len() ==> {
                let c = src.bytes[next.pos];
                c == 35 || c == 44 || c == 93 || c == 125 || c == 10 || c == 13
            }
            &&& next.found == r.found
        }),
{
    let b = src.bytes;
    let i = grammar::blank_end(b, r.pos);
    grammar::lemma_blank_end(b, r.pos);
    lemma_stops(b, i);
    let end = grammar::plain_end(b, i);
    let t = text::piece(b, i, end);
    let u = lines::trimmed_end(t);
    assert forall|k: int| 0 <= k < u.len() implies #[trigger] u[k] != 35 && u[k] != 44 && u[k] != 93
        && u[k] != 125 && u[k] != 10 && u[k] != 13 by {
        assert(u[k] == t[k]);
        assert(t[k] == b[i + k]);
    }
}

proof fn lemma_stops(b: Seq<u8>, i: int)
    requires
        0 <= i <= b.len(),
    ensures
        i <= grammar::plain_end(b, i) <= b.len(),
        forall|k: int|
            i <= k < grammar::plain_end(b, i) ==> #[trigger] b[k] != 35 && b[k] != 44 && b[k] != 93
                && b[k] != 125 && b[k] != 10 && b[k] != 13,
        grammar::plain_end(b, i) < b.len() ==> {
            let c = b[grammar::plain_end(b, i)];
            c == 35 || c == 44 || c == 93 || c == 125 || c == 10 || c == 13
        },
    decreases b.len() - i,
{
    if i < b.len() && b[i] != 35 && b[i] != 44 && b[i] != 93 && b[i] != 125 && b[i] != 10 && b[i]
        != 13 {
        lemma_stops(b, i + 1);
    }
}

/// Texts whose lines have the same keys and say the same, whatever blanks, comments
/// and line breaks stand around them, have the same entries.
pub proof fn law_comments_change_no_entry(
    one: Source,
    list: Seq<Line>,
    other: Source,
    other_list: Seq<Line>,
)
    requires
        one.fits(),
        other.fits(),
        is_made_of(one.bytes, list),
        is_made_of(other.bytes, other_list),
        entry_lines(list).len() == entry_lines(other_list).len(),
        forall|i: int|
            #![trigger entry_lines(list)[i]]
            0 <= i < entry_lines(list).len() ==> {
                &&& key_of(one.bytes, entry_lines(list)[i]) == key_of(
                    other.bytes,
                    entry_lines(other_list)[i],
                )
                &&& text_of(one.bytes, entry_lines(list)[i]) == text_of(
                    other.bytes,
                    entry_lines(other_list)[i],
                )
            },
        forall|i: int, j: int|
            0 <= i < j < entry_lines(list).len() ==> key_of(
                one.bytes,
                #[trigger] entry_lines(list)[i],
            ) != key_of(one.bytes, #[trigger] entry_lines(list)[j]),
    ensures
        ({
            let a = grammar::document(one).0.entries;
            let b = grammar::document(other).0.entries;
            &&& a.len() == b.len()
            &&& forall|i: int|
                #![trigger a[i]]
                0 <= i < a.len() ==> {
                    &&& a[i]->Mapping_key.text == b[i]->Mapping_key.text
                    &&& a[i]->Mapping_value->Scalar_0.text == b[i]->Mapping_value->Scalar_0.text
                }
        }),
{
    law_lines_are_read_as_written(one, list);
    assert forall|i: int, j: int|
        0 <= i < j < entry_lines(other_list).len() implies key_of(
        other.bytes,
        #[trigger] entry_lines(other_list)[i],
    ) != key_of(other.bytes, #[trigger] entry_lines(other_list)[j]) by {
        assert(key_of(one.bytes, entry_lines(list)[i]) != key_of(
            one.bytes,
            entry_lines(list)[j],
        ));
    }
    law_lines_are_read_as_written(other, other_list);
    let a = grammar::document(one).0.entries;
    let b = grammar::document(other).0.entries;
    assert forall|i: int| #![trigger a[i]] 0 <= i < a.len() implies {
        &&& a[i]->Mapping_key.text == b[i]->Mapping_key.text
        &&& a[i]->Mapping_value->Scalar_0.text == b[i]->Mapping_value->Scalar_0.text
    } by {
        assert(says(one.base, one.bytes, a[i], entry_lines(list)[i]));
        assert(says(other.base, other.bytes, b[i], entry_lines(other_list)[i]));
    }
}

/// Lines between two offsets, in front of a header or the end, are read as entries.
pub(crate) proof fn lemma_body(src: Source, r: Reading, list: Seq<Line>, to: int)
    requires
        src.fits(),
        is_made_between(src.bytes, list, r.pos, to),
        to == src.bytes.len() || src.bytes[to] == 91,
    ensures
        ({
            let (next, all) = grammar::body_rest(src, r, Seq::empty());
            &&& next == r.moved(to)
            &&& all.len() == entry_lines(list).len()
            &&& forall|i: int|
                0 <= i < all.len() ==> says(
                    src.base,
                    src.bytes,
                    #[trigger] all[i],
                    entry_lines(list)[i],
                )
        }),
{
    assert(list.take(0) =~= Seq::<Line>::empty());
    lemma_lines(src, r, Seq::empty(), list, r.pos, to, 0);
}

} // verus!

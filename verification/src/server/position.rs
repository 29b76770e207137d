//! Positions as editors count them: lines, and UTF-16 code units in a line.
use vstd::prelude::*;
use crate::lines;
use crate::lines::LF;
use crate::span::Span;
use crate::text;

verus! {

/// A place in a text, counted from 0.
#[derive(Clone, Copy, Debug, PartialEq, Eq, Structural)]
pub struct Position {
    pub line: usize,
    /// In UTF-16 code units.
    pub character: usize,
}

/// A half-open range in a text.
#[derive(Clone, Copy, Debug, PartialEq, Eq, Structural)]
pub struct Range {
    pub start: Position,
    pub end: Position,
}

/// The code units of the character that a byte starts; none where it starts none.
pub open spec fn units(c: u8) -> nat {
    if 128 <= c <= 191 {
        0
    } else if c >= 240 {
        2
    } else {
        1
    }
}

/// The code units of the characters that start between two offsets.
pub open spec fn width(b: Seq<u8>, i: int, j: int) -> nat
    decreases j - i,
{
    if j <= i {
        0
    } else {
        width(b, i, j - 1) + units(b[j - 1])
    }
}

/// Where the line of an offset starts.
pub open spec fn line_start(b: Seq<u8>, at: int) -> int
    decreases at,
{
    if at <= 0 {
        0
    } else if b[at - 1] == LF {
        at
    } else {
        line_start(b, at - 1)
    }
}

/// An offset, or the end of the text where it lies behind that.
pub open spec fn clamped(b: Seq<u8>, at: int) -> int {
    if at <= b.len() {
        at
    } else {
        b.len() as int
    }
}

/// The line of an offset, from 0.
pub open spec fn row(b: Seq<u8>, at: int) -> nat {
    lines::line_feeds(b, clamped(b, at))
}

/// The code units in front of an offset in its line.
pub open spec fn column(b: Seq<u8>, at: int) -> nat {
    width(b, line_start(b, clamped(b, at)), clamped(b, at))
}

/// Whether a position is that of an offset.
pub open spec fn is_at(p: Position, b: Seq<u8>, at: int) -> bool {
    p.line == row(b, at) && p.character == column(b, at)
}

/// A line starts at or before each of its offsets.
pub proof fn lemma_line_start(b: Seq<u8>, at: int)
    ensures
        0 <= line_start(b, at),
        0 <= at ==> line_start(b, at) <= at,
    decreases at,
{
    if at > 0 && b[at - 1] != LF {
        lemma_line_start(b, at - 1);
    }
}

/// A byte that starts a character of two code units is not the last one, and the
/// next one starts no character.
proof fn lemma_leader(b: Seq<u8>, p: int)
    requires
        vstd::utf8::valid_utf8(b),
        0 <= p < b.len(),
        b[p] >= 240,
    ensures
        p + 1 < b.len(),
        128 <= b[p + 1] <= 191,
    decreases b.len(),
{
    reveal_with_fuel(vstd::utf8::valid_utf8, 2);
    let n = vstd::utf8::length_of_first_scalar(b);
    if p >= n {
        let rest = vstd::utf8::pop_first_scalar(b);
        assert(rest[p - n] == b[p]);
        lemma_leader(rest, p - n);
    }
}

/// Text has no more code units than bytes, and at most one more up to an offset
/// within a character.
proof fn lemma_width_pending(b: Seq<u8>, i: int, j: int)
    requires
        vstd::utf8::valid_utf8(b),
        0 <= i <= j <= b.len(),
    ensures
        width(b, i, j) <= j - i + (if j > i && b[j - 1] >= 240 {
            1int
        } else {
            0
        }),
    decreases j - i,
{
    if j > i {
        lemma_width_pending(b, i, j - 1);
        if j - 1 > i && b[j - 2] >= 240 {
            lemma_leader(b, j - 2);
        }
    }
}

/// Text has no more code units than bytes.
pub proof fn lemma_width(b: Seq<u8>, i: int, j: int)
    requires
        vstd::utf8::valid_utf8(b),
        0 <= i <= j <= b.len(),
    ensures
        width(b, i, j) <= b.len(),
{
    lemma_width_pending(b, i, j);
    if j > i && b[j - 1] >= 240 {
        lemma_leader(b, j - 1);
    }
}

/// Widths add up.
pub proof fn lemma_width_split(b: Seq<u8>, i: int, m: int, j: int)
    requires
        i <= m <= j,
    ensures
        width(b, i, j) == width(b, i, m) + width(b, m, j),
    decreases j - m,
{
    if m < j {
        lemma_width_split(b, i, m, j - 1);
    }
}

fn unit_count(c: u8) -> (r: usize)
    ensures
        r == units(c),
{
    if 128 <= c && c <= 191 {
        0
    } else if c >= 240 {
        2
    } else {
        1
    }
}

/// Count the code units between two offsets.
pub fn utf16_width(source: &str, i: usize, j: usize) -> (r: usize)
    requires
        i <= j <= text::utf8(source@).len(),
    ensures
        r == width(text::utf8(source@), i as int, j as int),
{
    let b = source.as_bytes();
    let mut n: usize = 0;
    let mut k: usize = i;
    while k < j
        invariant
            i <= k <= j <= b@.len(),
            b@ == text::utf8(source@),
            n == width(b@, i as int, k as int),
        decreases j - k,
    {
        proof {
            vstd::utf8::encode_utf8_valid_utf8(source@);
            lemma_width(b@, i as int, k + 1);
        }
        n = n + unit_count(b[k]);
        k += 1;
    }
    n
}

fn find_line_start(b: &[u8], at: usize) -> (r: usize)
    requires
        at <= b@.len(),
    ensures
        r == line_start(b@, at as int),
        r <= at,
{
    let mut k: usize = at;
    while k > 0
        invariant
            k <= at <= b@.len(),
            line_start(b@, at as int) == line_start(b@, k as int),
        decreases k,
    {
        if b[k - 1] == LF {
            return k;
        }
        k -= 1;
    }
    0
}

fn count_rows(b: &[u8], at: usize) -> (r: usize)
    requires
        at <= b@.len(),
    ensures
        r == lines::line_feeds(b@, at as int),
        r <= at,
{
    let mut n: usize = 0;
    let mut k: usize = 0;
    while k < at
        invariant
            k <= at <= b@.len(),
            n == lines::line_feeds(b@, k as int),
            n <= k,
        decreases at - k,
    {
        if b[k] == LF {
            n += 1;
        }
        k += 1;
    }
    n
}

/// The position of a byte offset.
pub fn position_of(source: &str, offset: usize) -> (r: Position)
    ensures
        is_at(r, text::utf8(source@), offset as int),
{
    let b = source.as_bytes();
    let at: usize = if offset <= b.len() {
        offset
    } else {
        b.len()
    };
    let start = find_line_start(b, at);
    Position { line: count_rows(b, at), character: utf16_width(source, start, at) }
}

/// Whether a range is that of a span.
pub open spec fn is_range_of(r: Range, b: Seq<u8>, span: Span) -> bool {
    is_at(r.start, b, span.start as int) && is_at(r.end, b, span.end as int)
}

/// The range of a span.
pub fn span_to_range(source: &str, span: Span) -> (r: Range)
    ensures
        is_range_of(r, text::utf8(source@), span),
{
    Range { start: position_of(source, span.start), end: position_of(source, span.end) }
}

// From positions to offsets.

/// Where a line starts, counted from 0 behind offset `i`; the end of the text
/// where there is no such line.
pub open spec fn nth_line(b: Seq<u8>, i: int, line: nat) -> int
    decreases line,
{
    if line == 0 {
        i
    } else if lines::line_feed(b, i) >= b.len() {
        b.len() as int
    } else {
        nth_line(b, lines::line_feed(b, i) + 1, (line - 1) as nat)
    }
}

/// The first start of a character at or after `i` that `left` code units lie in
/// front of; the end of the line where it has fewer.
pub open spec fn walk(b: Seq<u8>, i: int, left: nat) -> int
    decreases b.len() - i,
{
    if i < 0 || i >= b.len() {
        b.len() as int
    } else if b[i] == LF || (left == 0 && units(b[i]) > 0) {
        i
    } else if units(b[i]) <= left {
        walk(b, i + 1, (left - units(b[i])) as nat)
    } else {
        walk(b, i + 1, 0)
    }
}

/// The byte offset of a position.
pub open spec fn offset_at(b: Seq<u8>, p: Position) -> int {
    walk(b, nth_line(b, 0, p.line as nat), p.character as nat)
}

/// The byte offset of a position.
pub fn offset_of(source: &str, p: Position) -> (r: usize)
    ensures
        r == offset_at(text::utf8(source@), p),
        r <= text::utf8(source@).len(),
{
    let b = source.as_bytes();
    let mut line: usize = p.line;
    let mut i: usize = 0;
    while line > 0
        invariant
            i <= b@.len(),
            b@ == text::utf8(source@),
            nth_line(b@, 0, p.line as nat) == nth_line(b@, i as int, line as nat),
        decreases line,
    {
        let n = lines::find_line_feed(b, i);
        if n >= b.len() {
            return b.len();
        }
        i = n + 1;
        line -= 1;
    }
    let mut left: usize = p.character;
    while i < b.len()
        invariant
            i <= b@.len(),
            b@ == text::utf8(source@),
            offset_at(b@, p) == walk(b@, i as int, left as nat),
        decreases b@.len() - i,
    {
        let u = unit_count(b[i]);
        if b[i] == LF || (left == 0 && u > 0) {
            return i;
        }
        if u <= left {
            left = left - u;
        } else {
            left = 0;
        }
        i += 1;
    }
    i
}

// Laws.

proof fn lemma_no_feed(b: Seq<u8>, i: int, j: int)
    requires
        0 <= i <= j <= lines::line_feed(b, i),
        j <= b.len(),
    ensures
        lines::line_feeds(b, j) == lines::line_feeds(b, i),
        forall|k: int| i <= k < j ==> #[trigger] b[k] != LF,
        i == 0 || b[i - 1] == LF ==> line_start(b, j) == i,
    decreases j - i,
{
    if i < j {
        lemma_no_feed(b, i, j - 1);
        lemma_before_feed(b, i, j - 1);
    }
}

proof fn lemma_before_feed(b: Seq<u8>, i: int, k: int)
    requires
        0 <= i <= k < lines::line_feed(b, i),
        k < b.len(),
    ensures
        b[k] != LF,
    decreases k - i,
{
    if i < k {
        lemma_before_feed(b, i + 1, k);
    }
}

/// Counting lines from the start of one leads to the start of another.
proof fn lemma_nth_line(b: Seq<u8>, i: int, at: int)
    requires
        0 <= i <= at <= b.len(),
        i == 0 || b[i - 1] == LF,
    ensures
        lines::line_feeds(b, i) <= lines::line_feeds(b, at),
        nth_line(b, i, (lines::line_feeds(b, at) - lines::line_feeds(b, i)) as nat) == line_start(
            b,
            at,
        ),
    decreases at - i,
{
    let n = lines::line_feed(b, i);
    lines::lemma_line_feed(b, i);
    if n >= at {
        lemma_no_feed(b, i, at);
    } else {
        lemma_no_feed(b, i, n);
        assert(lines::line_feeds(b, n + 1) == lines::line_feeds(b, i) + 1);
        lemma_nth_line(b, n + 1, at);
    }
}

proof fn lemma_line_start_feeds(b: Seq<u8>, at: int, k: int)
    requires
        0 <= at <= b.len(),
        line_start(b, at) <= k < at,
    ensures
        b[k] != LF,
    decreases at,
{
    if k < at - 1 {
        lemma_line_start_feeds(b, at - 1, k);
    }
}

proof fn lemma_walk(b: Seq<u8>, k: int, at: int)
    requires
        0 <= k <= at <= b.len(),
        at < b.len() ==> units(b[at]) > 0,
        forall|x: int| k <= x < at ==> #[trigger] b[x] != LF,
    ensures
        walk(b, k, width(b, k, at)) == at,
    decreases at - k,
{
    if k < at {
        lemma_width_split(b, k, k + 1, at);
        assert(width(b, k, k + 1) == width(b, k, k) + units(b[k]));
        lemma_walk(b, k + 1, at);
    }
}

/// A position leads back to the offset that it was computed from, wherever a
/// character starts or the text ends.
pub proof fn law_offset_position_round_trip(b: Seq<u8>, at: int, p: Position)
    requires
        0 <= at <= b.len(),
        at < b.len() ==> units(b[at]) > 0,
        is_at(p, b, at),
    ensures
        offset_at(b, p) == at,
{
    lemma_nth_line(b, 0, at);
    let start = line_start(b, at);
    lemma_line_start(b, at);
    assert forall|x: int| start <= x < at implies #[trigger] b[x] != LF by {
        lemma_line_start_feeds(b, at, x);
    }
    lemma_walk(b, start, at);
}

/// The number of line feeds in a text.
pub open spec fn feeds_in(chars: Seq<char>) -> nat
    decreases chars.len(),
{
    if chars.len() == 0 {
        0
    } else {
        feeds_in(chars.drop_last()) + if chars.last() == '\n' {
            1nat
        } else {
            0
        }
    }
}

/// The length of a text in UTF-16: two code units for each character above U+FFFF,
/// one for every other.
pub open spec fn utf16_len(chars: Seq<char>) -> nat
    decreases chars.len(),
{
    if chars.len() == 0 {
        0
    } else {
        utf16_len(chars.drop_last()) + if chars.last() as u32 > 0xFFFF {
            2nat
        } else {
            1
        }
    }
}

/// The bytes of one character.
proof fn lemma_char_bytes(c: char)
    ensures
        ({
            let b = text::utf8(seq![c]);
            &&& 1 <= b.len() <= 4
            &&& (b.len() == 4) == (c as u32 > 0xFFFF)
            &&& forall|i: int| 0 < i < b.len() ==> 128 <= #[trigger] b[i] <= 191
            &&& b.len() == 1 ==> b[0] < 128 && (b[0] == LF) == (c == '\n')
            &&& 1 < b.len() < 4 ==> 192 <= b[0] < 240
            &&& b.len() == 4 ==> b[0] >= 240
            &&& c == '\n' ==> b.len() == 1
        }),
{
    let chars = seq![c];
    let b = text::utf8(chars);
    vstd::utf8::encode_utf8_first_scalar(chars);
    assert(chars.drop_first() =~= Seq::<char>::empty());
    reveal_with_fuel(vstd::utf8::encode_utf8, 2);
    assert(b =~= vstd::utf8::encode_scalar(c as u32));
    if b.len() == 1 {
        let x = b[0];
        assert(x & 0x7F == x) by (bit_vector)
            requires
                x < 128u8,
        ;
        assert(x as u32 == c as u32);
    }
}

proof fn lemma_char_counts(b: Seq<u8>, at: int, c: char)
    requires
        0 <= at,
        at + text::utf8(seq![c]).len() <= b.len(),
        b.subrange(at, at + text::utf8(seq![c]).len()) == text::utf8(seq![c]),
    ensures
        ({
            let end = at + text::utf8(seq![c]).len();
            &&& lines::line_feeds(b, end) == lines::line_feeds(b, at) + feeds_in(seq![c])
            &&& width(b, at, end) == utf16_len(seq![c])
            &&& c != '\n' ==> forall|k: int| at <= k < end ==> #[trigger] b[k] != LF
            &&& c == '\n' ==> end == at + 1 && b[at] == LF
        }),
{
    let p = text::utf8(seq![c]);
    lemma_char_bytes(c);
    assert(seq![c].drop_last() =~= Seq::<char>::empty());
    reveal_with_fuel(feeds_in, 2);
    reveal_with_fuel(utf16_len, 2);
    reveal_with_fuel(width, 6);
    reveal_with_fuel(lines::line_feeds, 6);
    assert forall|k: int| 0 <= k < p.len() implies b[at + k] == #[trigger] p[k] by {
        assert(b.subrange(at, at + p.len())[k] == p[k]);
    }
    assert(b[at] == p[0]);
    if p.len() > 1 {
        assert(b[at + 1] == p[1]);
    }
    if p.len() > 2 {
        assert(b[at + 2] == p[2]);
    }
    if p.len() > 3 {
        assert(b[at + 3] == p[3]);
    }
    assert forall|k: int| c != '\n' && at <= k < at + p.len() implies #[trigger] b[k] != LF by {
        assert(b[k] == p[k - at]);
    }
}

/// Counts up to the end of some characters that stand in a text.
proof fn lemma_counts(b: Seq<u8>, at: int, chars: Seq<char>)
    requires
        0 <= at,
        at + text::utf8(chars).len() <= b.len(),
        b.subrange(at, at + text::utf8(chars).len()) == text::utf8(chars),
    ensures
        ({
            let end = at + text::utf8(chars).len();
            &&& lines::line_feeds(b, end) == lines::line_feeds(b, at) + feeds_in(chars)
            &&& width(b, at, end) == utf16_len(chars)
            &&& (forall|k: int| 0 <= k < chars.len() ==> #[trigger] chars[k] != '\n') ==> forall|
                k: int,
            |
                at <= k < end ==> #[trigger] b[k] != LF
            &&& chars.len() > 0 && chars.last() == '\n' ==> end > at && b[end - 1] == LF
        }),
    decreases chars.len(),
{
    if chars.len() == 0 {
        text::lemma_utf8_empty(chars);
    } else {
        let rest = chars.drop_last();
        let c = chars.last();
        assert(chars =~= rest + seq![c]);
        text::lemma_utf8_concat(rest, seq![c]);
        let mid = at + text::utf8(rest).len();
        let whole = text::utf8(chars);
        let end = at + whole.len();
        assert(b.subrange(at, mid) =~= text::utf8(rest)) by {
            assert forall|i: int| 0 <= i < text::utf8(rest).len() implies b.subrange(at, mid)[i]
                == text::utf8(rest)[i] by {
                assert(b.subrange(at, end)[i] == whole[i]);
            }
        }
        assert(b.subrange(mid, end) =~= text::utf8(seq![c])) by {
            assert forall|i: int| 0 <= i < text::utf8(seq![c]).len() implies b.subrange(
                mid,
                end,
            )[i] == text::utf8(seq![c])[i] by {
                assert(b.subrange(at, end)[text::utf8(rest).len() + i] == whole[text::utf8(
                    rest,
                ).len() + i]);
            }
        }
        lemma_counts(b, at, rest);
        lemma_char_counts(b, mid, c);
        lemma_width_split(b, at, mid, end);
        assert(seq![c].drop_last() =~= Seq::<char>::empty());
        reveal_with_fuel(feeds_in, 2);
        reveal_with_fuel(utf16_len, 2);
        if forall|k: int| 0 <= k < chars.len() ==> #[trigger] chars[k] != '\n' {
            assert(chars[chars.len() - 1] != '\n');
            assert forall|k: int| 0 <= k < rest.len() implies #[trigger] rest[k] != '\n' by {
                assert(rest[k] == chars[k]);
            }
        }
    }
}

/// A position is a line and a column: of an offset behind some whole lines and a
/// piece of one more, the line is the number of line feeds in those lines, and the
/// column the length of the piece in UTF-16.
pub proof fn law_positions_count_lines_and_code_units(
    before: Seq<char>,
    piece: Seq<char>,
    rest: Seq<char>,
    p: Position,
)
    requires
        before.len() == 0 || before.last() == '\n',
        forall|k: int| 0 <= k < piece.len() ==> #[trigger] piece[k] != '\n',
        is_at(p, text::utf8(before + piece + rest), text::utf8(before + piece).len() as int),
    ensures
        p.line == feeds_in(before),
        p.character == utf16_len(piece),
{
    let b = text::utf8(before + piece + rest);
    let m = text::utf8(before).len() as int;
    let at = text::utf8(before + piece).len() as int;
    text::lemma_utf8_concat(before + piece, rest);
    text::lemma_utf8_concat(before, piece);
    assert(b.subrange(0, m) =~= text::utf8(before));
    assert(b.subrange(m, at) =~= text::utf8(piece));
    lemma_counts(b, 0, before);
    lemma_counts(b, m, piece);
    assert(feeds_in(piece) == 0) by {
        lemma_no_feeds(piece);
    }
    if before.len() == 0 {
        text::lemma_utf8_empty(before);
    }
    lemma_line_start_at(b, m, at);
}

proof fn lemma_no_feeds(chars: Seq<char>)
    requires
        forall|k: int| 0 <= k < chars.len() ==> #[trigger] chars[k] != '\n',
    ensures
        feeds_in(chars) == 0,
    decreases chars.len(),
{
    if chars.len() > 0 {
        assert(chars[chars.len() - 1] != '\n');
        assert forall|k: int| 0 <= k < chars.drop_last().len() implies #[trigger] chars.drop_last()[k]
            != '\n' by {
            assert(chars.drop_last()[k] == chars[k]);
        }
        lemma_no_feeds(chars.drop_last());
    }
}

proof fn lemma_line_start_at(b: Seq<u8>, start: int, at: int)
    requires
        0 <= start <= at <= b.len(),
        start == 0 || b[start - 1] == LF,
        forall|k: int| start <= k < at ==> #[trigger] b[k] != LF,
    ensures
        line_start(b, at) == start,
    decreases at - start,
{
    if start < at {
        assert(b[at - 1] != LF);
        lemma_line_start_at(b, start, at - 1);
    }
}

/// The offset of a position in a text: behind as many whole lines as its line says,
/// and behind as many code units of the next as its column says.
pub proof fn law_offsets_count_lines_and_code_units(
    before: Seq<char>,
    piece: Seq<char>,
    rest: Seq<char>,
    p: Position,
)
    requires
        before.len() == 0 || before.last() == '\n',
        forall|k: int| 0 <= k < piece.len() ==> #[trigger] piece[k] != '\n',
        text::utf8(before + piece + rest).len() <= usize::MAX,
        p.line == feeds_in(before),
        p.character == utf16_len(piece),
    ensures
        offset_at(text::utf8(before + piece + rest), p) == text::utf8(before + piece).len(),
{
    let b = text::utf8(before + piece + rest);
    let m = text::utf8(before).len() as int;
    let at = text::utf8(before + piece).len() as int;
    text::lemma_utf8_concat(before + piece, rest);
    text::lemma_utf8_concat(before, piece);
    assert(b.subrange(0, m) =~= text::utf8(before));
    assert(b.subrange(m, at) =~= text::utf8(piece));
    lemma_counts(b, 0, before);
    lemma_counts(b, m, piece);
    lemma_no_feeds(piece);
    if before.len() == 0 {
        text::lemma_utf8_empty(before);
    }
    lemma_line_start_at(b, m, at);
    if at < b.len() {
        text::lemma_utf8_empty(rest);
        vstd::utf8::encode_utf8_first_scalar(rest);
        assert(b[at] == text::utf8(rest)[0]);
    }
    assert(is_at(p, b, at));
    law_offset_position_round_trip(b, at, p);
}

/// Counting as many lines as stand in front leads behind them.
pub proof fn lemma_nth_of_feeds(before: Seq<char>, rest: Seq<char>)
    requires
        before.len() == 0 || before.last() == '\n',
    ensures
        nth_line(text::utf8(before + rest), 0, feeds_in(before)) == text::utf8(before).len(),
{
    let b = text::utf8(before + rest);
    let m = text::utf8(before).len() as int;
    text::lemma_utf8_concat(before, rest);
    assert(b.subrange(0, m) =~= text::utf8(before));
    lemma_counts(b, 0, before);
    if before.len() == 0 {
        text::lemma_utf8_empty(before);
    }
    lemma_nth_line(b, 0, m);
    lemma_line_start_at(b, m, m);
}

/// Where the text of a line ends.
pub proof fn lemma_line_text(b: Seq<u8>, before: Seq<char>, line: Seq<char>, rest: Seq<char>)
    requires
        b == text::utf8(before + line + rest),
        forall|k: int| 0 <= k < line.len() ==> #[trigger] line[k] != '\n',
        line.len() == 0 || line.last() != '\r',
        rest.len() == 0 || rest[0] == '\n' || (rest.len() > 1 && rest[0] == '\r' && rest[1] == '\n'),
    ensures
        lines::line_text_end(b, text::utf8(before).len() as int) == text::utf8(before + line).len(),
{
    let m = text::utf8(before).len() as int;
    let at = text::utf8(before + line).len() as int;
    text::lemma_utf8_concat(before + line, rest);
    text::lemma_utf8_concat(before, line);
    assert(b.subrange(m, at) =~= text::utf8(line));
    lemma_counts(b, m, line);
    text::lemma_utf8_empty(rest);
    if line.len() > 0 {
        let front = line.drop_last();
        let c = line.last();
        assert(line =~= front + seq![c]);
        text::lemma_utf8_concat(front, seq![c]);
        lemma_char_bytes(c);
        lemma_last_byte_of_char(c);
        let p = text::utf8(seq![c]);
        assert(text::utf8(line).last() == p.last());
        assert(b[at - 1] == text::utf8(line).last());
    } else {
        text::lemma_utf8_empty(line);
    }
    if rest.len() == 0 {
        lemma_feed_at(b, m, at);
    } else {
        let first = seq![rest[0]];
        let more = rest.drop_first();
        assert(rest =~= first + more);
        text::lemma_utf8_concat(first, more);
        lemma_char_bytes(rest[0]);
        lemma_last_byte_of_char(rest[0]);
        assert(b[at] == text::utf8(rest)[0]);
        if rest[0] == '\n' {
            lemma_feed_at(b, m, at);
        } else {
            let second = seq![more[0]];
            assert(more =~= second + more.drop_first());
            text::lemma_utf8_concat(second, more.drop_first());
            lemma_char_bytes(more[0]);
            assert(b[at + 1] == text::utf8(rest)[1]);
            lemma_feed_at(b, m, at + 1);
        }
    }
}

proof fn lemma_last_byte_of_char(c: char)
    ensures
        text::utf8(seq![c]).len() > 0,
        (text::utf8(seq![c]).last() == lines::CR) == (c == '\r'),
        c == '\r' ==> text::utf8(seq![c]) == seq![lines::CR],
{
    let chars = seq![c];
    let b = text::utf8(chars);
    lemma_char_bytes(c);
    vstd::utf8::encode_utf8_first_scalar(chars);
    assert(chars.drop_first() =~= Seq::<char>::empty());
    reveal_with_fuel(vstd::utf8::encode_utf8, 2);
    assert(b =~= vstd::utf8::encode_scalar(c as u32));
    if b.len() == 1 {
        let x = b[0];
        assert(x & 0x7F == x) by (bit_vector)
            requires
                x < 128u8,
        ;
        assert(x as u32 == c as u32);
        assert(b =~= seq![x]);
    }
}

proof fn lemma_feed_at(b: Seq<u8>, i: int, n: int)
    requires
        0 <= i <= n <= b.len(),
        forall|k: int| i <= k < n ==> #[trigger] b[k] != LF,
        n < b.len() ==> b[n] == LF,
    ensures
        lines::line_feed(b, i) == n,
    decreases n - i,
{
    if i < n {
        assert(b[i] != LF);
        lemma_feed_at(b, i + 1, n);
    }
}

} // verus!

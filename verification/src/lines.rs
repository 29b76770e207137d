//! White space, lines and line numbers of a source text.
use vstd::prelude::*;
use crate::span::Span;
use crate::text;

verus! {

pub const LF: u8 = 10;

pub const CR: u8 = 13;

/// The length in bytes of the Unicode white-space character that starts at
/// offset `i`; 0 where none does.
pub open spec fn space_len(b: Seq<u8>, i: int) -> int {
    if i < 0 || i >= b.len() {
        0
    } else if 9 <= b[i] <= 13 || b[i] == 32 {
        1
    } else if i + 1 < b.len() && b[i] == 0xC2 && (b[i + 1] == 0x85 || b[i + 1] == 0xA0) {
        2
    } else if i + 2 < b.len() && wide_space(b[i], b[i + 1], b[i + 2]) {
        3
    } else {
        0
    }
}

/// The white-space characters that take three bytes: U+1680, U+2000 to U+200A,
/// U+2028, U+2029, U+202F, U+205F and U+3000.
pub open spec fn wide_space(b0: u8, b1: u8, b2: u8) -> bool {
    ||| b0 == 0xE1 && b1 == 0x9A && b2 == 0x80
    ||| b0 == 0xE2 && b1 == 0x80 && (0x80 <= b2 <= 0x8A || b2 == 0xA8 || b2 == 0xA9 || b2 == 0xAF)
    ||| b0 == 0xE2 && b1 == 0x81 && b2 == 0x9F
    ||| b0 == 0xE3 && b1 == 0x80 && b2 == 0x80
}

/// The length in bytes of the white-space character that ends at offset `i`; 0
/// where none does.
pub open spec fn space_len_before(b: Seq<u8>, i: int) -> int {
    if i > b.len() {
        0
    } else if space_len(b.take(i), i - 1) == 1 {
        1
    } else if space_len(b.take(i), i - 2) == 2 {
        2
    } else if space_len(b.take(i), i - 3) == 3 {
        3
    } else {
        0
    }
}

/// The first offset at or after `i` that holds no white space.
pub open spec fn skip_space(b: Seq<u8>, i: int) -> int
    decreases b.len() - i,
{
    if space_len(b, i) > 0 {
        skip_space(b, i + space_len(b, i))
    } else {
        i
    }
}

/// The last offset at or before `i` that no white space precedes.
pub open spec fn skip_space_back(b: Seq<u8>, i: int) -> int
    decreases i,
{
    if space_len_before(b, i) > 0 {
        skip_space_back(b, i - space_len_before(b, i))
    } else {
        i
    }
}

/// A text without the white space at its two ends.
pub open spec fn trimmed(b: Seq<u8>) -> Seq<u8> {
    text::piece(b, skip_space(b, 0), skip_space_back(b, b.len() as int))
}

/// A text without the white space at its start.
pub open spec fn trimmed_start(b: Seq<u8>) -> Seq<u8> {
    text::piece(b, skip_space(b, 0), b.len() as int)
}

/// A text without the white space at its end.
pub open spec fn trimmed_end(b: Seq<u8>) -> Seq<u8> {
    text::piece(b, 0, skip_space_back(b, b.len() as int))
}

/// The length of the white-space character at `i`.
pub fn space_at(b: &[u8], i: usize) -> (r: usize)
    ensures
        r == space_len(b@, i as int),
        i + r <= b.len() || r == 0,
{
    if i >= b.len() {
        return 0;
    }
    let b0 = b[i];
    if (9 <= b0 && b0 <= 13) || b0 == 32 {
        return 1;
    }
    if b.len() - i >= 2 && b0 == 0xC2 && (b[i + 1] == 0x85 || b[i + 1] == 0xA0) {
        return 2;
    }
    if b.len() - i >= 3 && is_wide_space(b0, b[i + 1], b[i + 2]) {
        return 3;
    }
    0
}

fn is_wide_space(b0: u8, b1: u8, b2: u8) -> (r: bool)
    ensures
        r == wide_space(b0, b1, b2),
{
    (b0 == 0xE1 && b1 == 0x9A && b2 == 0x80) || (b0 == 0xE2 && b1 == 0x80 && ((0x80 <= b2 && b2
        <= 0x8A) || b2 == 0xA8 || b2 == 0xA9 || b2 == 0xAF)) || (b0 == 0xE2 && b1 == 0x81 && b2
        == 0x9F) || (b0 == 0xE3 && b1 == 0x80 && b2 == 0x80)
}

/// The length of the white-space character that ends at `i`.
pub fn space_before(b: &[u8], i: usize) -> (r: usize)
    requires
        i <= b@.len(),
    ensures
        r == space_len_before(b@, i as int),
        r <= i,
{
    if i >= 1 {
        let x = b[i - 1];
        if (9 <= x && x <= 13) || x == 32 {
            return 1;
        }
    }
    if i >= 2 && b[i - 2] == 0xC2 && (b[i - 1] == 0x85 || b[i - 1] == 0xA0) {
        return 2;
    }
    if i >= 3 && is_wide_space(b[i - 3], b[i - 2], b[i - 1]) {
        return 3;
    }
    0
}

fn skip_spaces(b: &[u8]) -> (r: usize)
    ensures
        r == skip_space(b@, 0),
        r <= b@.len(),
{
    let mut i: usize = 0;
    loop
        invariant
            i <= b@.len(),
            skip_space(b@, 0) == skip_space(b@, i as int),
        decreases b@.len() - i,
    {
        let n = space_at(b, i);
        if n == 0 {
            return i;
        }
        i += n;
    }
}

fn skip_spaces_back(b: &[u8]) -> (r: usize)
    ensures
        r == skip_space_back(b@, b@.len() as int),
        r <= b@.len(),
{
    let mut i: usize = b.len();
    loop
        invariant
            i <= b@.len(),
            skip_space_back(b@, b@.len() as int) == skip_space_back(b@, i as int),
        decreases i,
    {
        let n = space_before(b, i);
        if n == 0 {
            return i;
        }
        i -= n;
    }
}

/// Strip white space from both ends.
pub fn trim<'a>(s: &'a str) -> (r: &'a str)
    ensures
        text::utf8(r@) == trimmed(text::utf8(s@)),
{
    let b = s.as_bytes();
    text::slice(s, skip_spaces(b), skip_spaces_back(b))
}

/// Strip white space from the start.
pub fn trim_start<'a>(s: &'a str) -> (r: &'a str)
    ensures
        text::utf8(r@) == trimmed_start(text::utf8(s@)),
{
    let b = s.as_bytes();
    text::slice(s, skip_spaces(b), b.len())
}

/// Strip white space from the end.
pub fn trim_end<'a>(s: &'a str) -> (r: &'a str)
    ensures
        text::utf8(r@) == trimmed_end(text::utf8(s@)),
{
    let b = s.as_bytes();
    text::slice(s, 0, skip_spaces_back(b))
}

/// The offset of the first line feed at or after `i`; the length where none is left.
pub open spec fn line_feed(b: Seq<u8>, i: int) -> int
    decreases b.len() - i,
{
    if i < 0 || i >= b.len() {
        b.len() as int
    } else if b[i] == LF {
        i
    } else {
        line_feed(b, i + 1)
    }
}

/// Where the text of the line that starts at `i` ends: before its line feed and
/// the carriage return in front of that.
pub open spec fn line_text_end(b: Seq<u8>, i: int) -> int {
    let n = line_feed(b, i);
    if i < n < b.len() && b[n - 1] == CR {
        n - 1
    } else {
        n
    }
}

/// The lines from offset `i` on. What follows the last line feed is a line
/// where it is not empty.
pub open spec fn lines_from(b: Seq<u8>, i: int) -> Seq<(int, int)>
    decreases b.len() + 1 - i,
{
    if i < 0 || i >= b.len() {
        Seq::empty()
    } else {
        proof {
            lemma_line_feed(b, i);
        }
        seq![(i, line_text_end(b, i))] + lines_from(b, line_feed(b, i) + 1)
    }
}

/// The pieces between line feeds from offset `i` on; the last one may be empty.
pub open spec fn rows_from(b: Seq<u8>, i: int) -> Seq<(int, int)>
    decreases b.len() - i,
{
    let n = line_feed(b, i);
    if i < 0 || n >= b.len() {
        seq![(i, n)]
    } else {
        proof {
            lemma_line_feed(b, i);
        }
        seq![(i, n)] + rows_from(b, n + 1)
    }
}

/// A line feed found from `i` on lies at or after `i`.
pub proof fn lemma_line_feed(b: Seq<u8>, i: int)
    ensures
        0 <= i <= b.len() ==> i <= line_feed(b, i) <= b.len(),
        line_feed(b, i) < b.len() ==> b[line_feed(b, i)] == LF,
    decreases b.len() - i,
{
    if 0 <= i < b.len() && b[i] != LF {
        lemma_line_feed(b, i + 1);
    }
}

/// The number of line feeds among the first `n` bytes.
pub open spec fn line_feeds(b: Seq<u8>, n: int) -> nat
    decreases n,
{
    if n <= 0 {
        0
    } else {
        line_feeds(b, n - 1) + if b[n - 1] == LF {
            1nat
        } else {
            0
        }
    }
}

/// The number, from 1, of the line that offset `at` lies in.
pub open spec fn line_of(b: Seq<u8>, at: int) -> nat {
    line_feeds(b, if at <= b.len() {
        at
    } else {
        b.len() as int
    }) + 1
}

/// The spans that offsets given as numbers stand for.
pub open spec fn as_ranges(spans: Seq<Span>) -> Seq<(int, int)> {
    spans.map_values(|s: Span| (s.start as int, s.end as int))
}

pub fn find_line_feed(b: &[u8], from: usize) -> (r: usize)
    requires
        from <= b@.len(),
    ensures
        r == line_feed(b@, from as int),
        from <= r <= b@.len(),
{
    let mut i: usize = from;
    while i < b.len()
        invariant
            from <= i <= b@.len(),
            line_feed(b@, from as int) == line_feed(b@, i as int),
        decreases b@.len() - i,
    {
        if b[i] == LF {
            return i;
        }
        i += 1;
    }
    i
}

/// The lines of a text.
pub fn lines(b: &[u8]) -> (r: Vec<Span>)
    ensures
        as_ranges(r@) == lines_from(b@, 0),
        forall|k: int| 0 <= k < r@.len() ==> (#[trigger] r@[k]).start <= r@[k].end <= b@.len(),
{
    let mut r: Vec<Span> = Vec::new();
    let mut i: usize = 0;
    assert(as_ranges(r@) + lines_from(b@, 0) =~= lines_from(b@, 0));
    while i < b.len()
        invariant
            i <= b@.len(),
            as_ranges(r@) + lines_from(b@, i as int) == lines_from(b@, 0),
            forall|k: int| 0 <= k < r@.len() ==> (#[trigger] r@[k]).start <= r@[k].end <= b@.len(),
        decreases b@.len() - i,
    {
        let n = find_line_feed(b, i);
        let end: usize = if i < n && n < b.len() && b[n - 1] == CR {
            n - 1
        } else {
            n
        };
        let ghost before = as_ranges(r@);
        r.push(Span { start: i, end });
        proof {
            assert(as_ranges(r@) =~= before.push((i as int, end as int)));
            assert(as_ranges(r@) + lines_from(b@, n + 1) =~= before + lines_from(b@, i as int));
        }
        if n >= b.len() {
            assert(lines_from(b@, n + 1) =~= Seq::<(int, int)>::empty());
            assert(as_ranges(r@) + lines_from(b@, n + 1) =~= as_ranges(r@));
            return r;
        }
        i = n + 1;
    }
    assert(as_ranges(r@) + lines_from(b@, i as int) =~= as_ranges(r@));
    r
}

/// The pieces of a text between line feeds.
pub fn rows(b: &[u8]) -> (r: Vec<Span>)
    ensures
        as_ranges(r@) == rows_from(b@, 0),
        forall|k: int| 0 <= k < r@.len() ==> (#[trigger] r@[k]).start <= r@[k].end <= b@.len(),
{
    let mut r: Vec<Span> = Vec::new();
    let mut i: usize = 0;
    assert(as_ranges(r@) + rows_from(b@, 0) =~= rows_from(b@, 0));
    loop
        invariant
            i <= b@.len(),
            as_ranges(r@) + rows_from(b@, i as int) == rows_from(b@, 0),
            forall|k: int| 0 <= k < r@.len() ==> (#[trigger] r@[k]).start <= r@[k].end <= b@.len(),
        decreases b@.len() - i,
    {
        let n = find_line_feed(b, i);
        let ghost before = as_ranges(r@);
        r.push(Span { start: i, end: n });
        assert(as_ranges(r@) =~= before.push((i as int, n as int)));
        if n >= b.len() {
            assert(as_ranges(r@) =~= before + rows_from(b@, i as int));
            return r;
        }
        assert(as_ranges(r@) + rows_from(b@, n + 1) =~= before + rows_from(b@, i as int));
        i = n + 1;
    }
}

/// The line number of a byte offset.
pub fn byte_offset_to_line(source: &str, offset: usize) -> (r: usize)
    requires
        text::utf8(source@).len() < usize::MAX,
    ensures
        r == line_of(text::utf8(source@), offset as int),
{
    let b = source.as_bytes();
    let end: usize = if offset <= b.len() {
        offset
    } else {
        b.len()
    };
    let mut count: usize = 0;
    let mut i: usize = 0;
    while i < end
        invariant
            i <= end <= b@.len() < usize::MAX,
            count == line_feeds(b@, i as int),
            count <= i,
        decreases end - i,
    {
        if b[i] == LF {
            count += 1;
        }
        i += 1;
    }
    count + 1
}

/// There are no more line feeds than bytes.
pub proof fn lemma_line_feeds_bound(b: Seq<u8>, n: int)
    ensures
        0 <= n ==> line_feeds(b, n) <= n,
    decreases n,
{
    if n > 0 {
        lemma_line_feeds_bound(b, n - 1);
    }
}

// What lines and trimming come to.

/// Whether a byte is white space by itself.
pub open spec fn is_white(c: u8) -> bool {
    9 <= c <= 13 || c == 32
}

/// Whether the bytes between two offsets are white space.
pub open spec fn white_between(b: Seq<u8>, i: int, j: int) -> bool {
    i <= j && forall|k: int| i <= k < j ==> is_white(#[trigger] b[k])
}

proof fn lemma_skip(b: Seq<u8>, i: int, j: int)
    requires
        0 <= i,
        white_between(b, i, j),
        j <= b.len(),
        j < b.len() ==> 33 <= b[j] <= 126,
    ensures
        skip_space(b, i) == j,
    decreases j - i,
{
    if i < j {
        assert(is_white(b[i]));
        lemma_skip(b, i + 1, j);
    }
}

proof fn lemma_skip_back(b: Seq<u8>, i: int, j: int)
    requires
        0 <= j,
        white_between(b, j, i),
        i <= b.len(),
        j > 0 ==> 33 <= b[j - 1] <= 126,
    ensures
        skip_space_back(b, i) == j,
    decreases i - j,
{
    if j < i {
        assert(is_white(b[i - 1]));
        assert(b.take(i)[i - 1] == b[i - 1]);
        assert(space_len_before(b, i) == 1);
        lemma_skip_back(b, i - 1, j);
    } else if i > 0 {
        assert(b.take(i)[i - 1] == b[i - 1]);
        assert(space_len(b.take(i), i - 1) == 0);
        assert(space_len(b.take(i), i - 2) != 2);
        assert(space_len(b.take(i), i - 3) != 3);
    }
}

/// Trimming takes the white space at the ends and nothing else.
pub proof fn law_trimming_takes_the_ends(b: Seq<u8>, i: int, j: int)
    requires
        white_between(b, 0, i),
        i < j,
        white_between(b, j, b.len() as int),
        33 <= b[i] <= 126,
        33 <= b[j - 1] <= 126,
    ensures
        trimmed(b) == b.subrange(i, j),
        trimmed_start(b) == b.subrange(i, b.len() as int),
        trimmed_end(b) == b.subrange(0, j),
{
    lemma_skip(b, 0, i);
    lemma_skip_back(b, b.len() as int, j);
    let x = b[i];
    assert(!vstd::utf8::is_continuation_byte(x));
    if j < b.len() {
        let y = b[j];
        assert(is_white(y));
        assert(!vstd::utf8::is_continuation_byte(y));
    }
}

/// Of white space, nothing is left.
pub proof fn law_white_space_is_trimmed_away(b: Seq<u8>)
    requires
        white_between(b, 0, b.len() as int),
    ensures
        trimmed(b).len() == 0,
        trimmed_start(b).len() == 0,
        trimmed_end(b).len() == 0,
{
    lemma_skip(b, 0, b.len() as int);
    lemma_skip_back(b, b.len() as int, 0);
}

/// The number of a line is one more than the number of line feeds before it.
pub proof fn law_lines_are_counted_by_feeds(b: Seq<u8>, at: int)
    requires
        0 <= at <= b.len(),
    ensures
        line_of(b, at) == b.take(at).filter(|c: u8| c == 10).len() + 1,
{
    lemma_feeds_filter(b, at);
}

proof fn lemma_feeds_filter(b: Seq<u8>, n: int)
    requires
        0 <= n <= b.len(),
    ensures
        line_feeds(b, n) == b.take(n).filter(|c: u8| c == 10).len(),
    decreases n,
{
    let f = |c: u8| c == 10;
    reveal(Seq::filter);
    if n > 0 {
        lemma_feeds_filter(b, n - 1);
        assert(b.take(n).drop_last() =~= b.take(n - 1));
        assert(b.take(n).last() == b[n - 1]);
        assert(f(b[n - 1]) == (b[n - 1] == 10));
    } else {
        assert(b.take(0).len() == 0);
    }
}

/// Every line of a text is among its lines, at the index that its number says: what
/// stands between the start of the text or a line feed, and the end of the text or
/// the next line feed, without a carriage return in front of that.
pub proof fn law_every_line_is_listed(b: Seq<u8>, start: int, end: int, next: int)
    requires
        0 <= start < b.len(),
        start == 0 || b[start - 1] == 10,
        start <= end <= next <= b.len(),
        forall|k: int| start <= k < next ==> #[trigger] b[k] != 10,
        next == b.len() || b[next] == 10,
        end == if start < next < b.len() && b[next - 1] == 13 {
            next - 1
        } else {
            next
        },
    ensures
        1 <= line_of(b, start) <= lines_from(b, 0).len(),
        lines_from(b, 0)[line_of(b, start) - 1] == (start, end),
{
    lemma_listed(b, 0, start, end, next);
}

proof fn lemma_listed(b: Seq<u8>, i: int, start: int, end: int, next: int)
    requires
        0 <= i <= start < b.len(),
        i == 0 || b[i - 1] == 10,
        start == 0 || b[start - 1] == 10,
        start <= end <= next <= b.len(),
        forall|k: int| start <= k < next ==> #[trigger] b[k] != 10,
        next == b.len() || b[next] == 10,
        end == if start < next < b.len() && b[next - 1] == 13 {
            next - 1
        } else {
            next
        },
    ensures
        line_feeds(b, i) <= line_feeds(b, start),
        line_feeds(b, start) - line_feeds(b, i) < lines_from(b, i).len(),
        lines_from(b, i)[line_feeds(b, start) - line_feeds(b, i)] == (start, end),
    decreases b.len() - i,
{
    let n = line_feed(b, i);
    lemma_line_feed(b, i);
    lemma_feed_is_first(b, i);
    if i == start {
        assert(n == next) by {
            if n < next {
                assert(b[n] != 10);
            }
        }
        assert(lines_from(b, i)[0] == (start, end));
    } else {
        assert(n < start) by {
            if n >= start {
                assert(b[start - 1] != 10);
            }
        }
        lemma_feeds_between(b, i, n);
        assert(line_feeds(b, n + 1) == line_feeds(b, i) + 1);
        lemma_listed(b, n + 1, start, end, next);
        let rest = lines_from(b, n + 1);
        let k = line_feeds(b, start) - line_feeds(b, n + 1);
        assert(lines_from(b, i)[k + 1] == rest[k]);
    }
}

proof fn lemma_feed_is_first(b: Seq<u8>, i: int)
    requires
        0 <= i <= b.len(),
    ensures
        forall|k: int| i <= k < line_feed(b, i) ==> #[trigger] b[k] != 10,
    decreases b.len() - i,
{
    if i < b.len() && b[i] != LF {
        lemma_feed_is_first(b, i + 1);
    }
}

proof fn lemma_feeds_between(b: Seq<u8>, i: int, n: int)
    requires
        0 <= i <= n <= b.len(),
        forall|k: int| i <= k < n ==> #[trigger] b[k] != 10,
    ensures
        line_feeds(b, i) == line_feeds(b, n),
    decreases n - i,
{
    if i < n {
        assert(b[n - 1] != 10);
        lemma_feeds_between(b, i, n - 1);
    }
}

} // verus!

//! What the TOML subset of frontmatter means: the entries and the findings
//! that each text gives, offset by offset.
use vstd::prelude::*;
use crate::fm::{FmDiagView, FmSeverity, NodeView, ScalarView, ValueView};
use crate::limits::MAX_FRONTMATTER_NESTING;
use crate::lines;
use crate::span::Span;
use crate::text;

verus! {

/// The text that is parsed, and where it starts in the document.
pub struct Source {
    pub bytes: Seq<u8>,
    pub base: int,
}

impl Source {
    /// The byte at an offset.
    pub open spec fn at(self, i: int) -> Option<u8> {
        if 0 <= i < self.bytes.len() {
            Some(self.bytes[i])
        } else {
            None
        }
    }

    /// A span in the document.
    pub open spec fn span(self, start: int, end: int) -> Span {
        Span { start: (self.base + start) as usize, end: (self.base + end) as usize }
    }

    pub open spec fn error(self, start: int, end: int, message: Seq<u8>) -> FmDiagView {
        FmDiagView { span: self.span(start, end), severity: FmSeverity::Error, message }
    }

    /// The document fits in memory.
    pub open spec fn fits(self) -> bool {
        0 <= self.base && self.base + self.bytes.len() <= usize::MAX
    }
}

/// How far the text has been read, and what has been found so far.
#[verifier::ext_equal]
pub struct Reading {
    pub pos: int,
    pub found: Seq<FmDiagView>,
    /// Whether the nesting limit has been reported.
    pub limit_hit: bool,
}

impl Reading {
    pub open spec fn moved(self, pos: int) -> Reading {
        Reading { pos, ..self }
    }

    pub open spec fn with(self, d: FmDiagView) -> Reading {
        Reading { found: self.found.push(d), ..self }
    }
}

// White space and lines.

/// The first offset at or after `i` that holds neither a space nor a tab.
pub open spec fn blank_end(b: Seq<u8>, i: int) -> int
    decreases b.len() - i,
{
    if 0 <= i < b.len() && (b[i] == 32 || b[i] == 9) {
        blank_end(b, i + 1)
    } else {
        i
    }
}

/// The end of the line break at `i`, if there is one: LF, CR LF or CR.
pub open spec fn break_end(b: Seq<u8>, i: int) -> int {
    if 0 <= i < b.len() && b[i] == 10 {
        i + 1
    } else if 0 <= i < b.len() && b[i] == 13 {
        if i + 1 < b.len() && b[i + 1] == 10 {
            i + 2
        } else {
            i + 1
        }
    } else {
        i
    }
}

/// The first offset at or after `i` that holds a line break.
pub open spec fn line_end(b: Seq<u8>, i: int) -> int
    decreases b.len() - i,
{
    if 0 <= i < b.len() && b[i] != 10 && b[i] != 13 {
        line_end(b, i + 1)
    } else {
        i
    }
}

/// The end of the comment at `i`, if there is one.
pub open spec fn comment_end(b: Seq<u8>, i: int) -> int {
    if 0 <= i < b.len() && b[i] == 35 {
        line_end(b, i)
    } else {
        i
    }
}

/// Past the rest of a line: blanks, a comment and the line break.
pub open spec fn trailer_end(b: Seq<u8>, i: int) -> int {
    break_end(b, comment_end(b, blank_end(b, i)))
}

pub proof fn lemma_blank_end(b: Seq<u8>, i: int)
    requires
        0 <= i <= b.len(),
    ensures
        i <= blank_end(b, i) <= b.len(),
    decreases b.len() - i,
{
    if i < b.len() && (b[i] == 32 || b[i] == 9) {
        lemma_blank_end(b, i + 1);
    }
}

pub proof fn lemma_line_end(b: Seq<u8>, i: int)
    requires
        0 <= i <= b.len(),
    ensures
        i <= line_end(b, i) <= b.len(),
    decreases b.len() - i,
{
    if i < b.len() && b[i] != 10 && b[i] != 13 {
        lemma_line_end(b, i + 1);
    }
}

/// The first offset at or after `i` that holds none of blanks, line breaks and comments.
pub open spec fn gap_end(b: Seq<u8>, i: int) -> int
    decreases b.len() - i,
{
    if i < 0 || i > b.len() {
        i
    } else {
        let j = blank_end(b, i);
        proof {
            lemma_blank_end(b, i);
            lemma_line_end(b, j);
        }
        if j < b.len() && (b[j] == 10 || b[j] == 13) {
            gap_end(b, break_end(b, j))
        } else if j < b.len() && b[j] == 35 {
            if line_end(b, j) > j {
                gap_end(b, break_end(b, line_end(b, j)))
            } else {
                j
            }
        } else {
            j
        }
    }
}

/// The first offset at or after `i` inside an array that holds none of blanks,
/// line breaks and comments; a lone CR is none of these.
pub open spec fn array_gap_end(b: Seq<u8>, i: int) -> int
    decreases b.len() - i,
{
    if i < 0 || i >= b.len() {
        i
    } else if b[i] == 32 || b[i] == 9 || b[i] == 10 {
        array_gap_end(b, i + 1)
    } else if b[i] == 13 && i + 1 < b.len() && b[i + 1] == 10 {
        array_gap_end(b, i + 2)
    } else if b[i] == 35 {
        proof {
            lemma_line_end(b, i);
        }
        if line_end(b, i) > i {
            array_gap_end(b, line_end(b, i))
        } else {
            i
        }
    } else {
        i
    }
}

// Strings.

/// The end of the character that starts at `i`.
pub open spec fn char_end(b: Seq<u8>, i: int) -> int
    decreases b.len() - i,
{
    if i + 1 < b.len() && 0 <= i && vstd::utf8::is_continuation_byte(b[i + 1]) {
        char_end(b, i + 1)
    } else {
        i + 1
    }
}

pub proof fn lemma_char_end(b: Seq<u8>, i: int)
    requires
        0 <= i < b.len(),
    ensures
        i < char_end(b, i) <= b.len(),
    decreases b.len() - i,
{
    if i + 1 < b.len() && vstd::utf8::is_continuation_byte(b[i + 1]) {
        lemma_char_end(b, i + 1);
    }
}

/// A string as far as it has been read.
#[verifier::ext_equal]
pub struct Scan {
    pub pos: int,
    pub text: Seq<u8>,
    pub found: Seq<FmDiagView>,
}

impl Scan {
    pub open spec fn moved(self, pos: int) -> Scan {
        Scan { pos, ..self }
    }

    pub open spec fn plus(self, pos: int, more: Seq<u8>) -> Scan {
        Scan { pos, text: self.text + more, ..self }
    }

    pub open spec fn with(self, pos: int, d: FmDiagView) -> Scan {
        Scan { pos, found: self.found.push(d), ..self }
    }
}

/// The value of a hexadecimal digit.
pub open spec fn hex_value(c: u8) -> Option<int> {
    if 48 <= c <= 57 {
        Some(c - 48)
    } else if 65 <= c <= 70 {
        Some(c - 55)
    } else if 97 <= c <= 102 {
        Some(c - 87)
    } else {
        None
    }
}

/// `n` hexadecimal digits at `i`: where reading stops and the number they give.
/// A byte that is no digit is read too.
pub open spec fn hex_number(b: Seq<u8>, i: int, n: nat, so_far: int) -> (int, Option<int>)
    decreases n,
{
    if n == 0 {
        (i, Some(so_far))
    } else if i < 0 || i >= b.len() {
        (i, None)
    } else {
        match hex_value(b[i]) {
            Some(v) => hex_number(b, i + 1, (n - 1) as nat, so_far * 16 + v),
            None => (i + 1, None),
        }
    }
}

/// Whether a number is that of a character.
pub open spec fn is_scalar_value(n: int) -> bool {
    0 <= n <= 0xD7FF || 0xE000 <= n <= 0x10FFFF
}

/// The text of a numbered character.
pub open spec fn numbered(n: int) -> Seq<u8> {
    text::utf8(seq![n as char])
}

/// A numbered escape of `n` digits whose digits start at `i`.
pub open spec fn unicode_escape(
    src: Source,
    s: Scan,
    n: nat,
    message: Seq<u8>,
) -> Scan {
    let (pos, number) = hex_number(src.bytes, s.pos, n, 0);
    match number {
        Some(v) if is_scalar_value(v) => s.plus(pos, numbered(v)),
        _ => s.with(
            pos,
            FmDiagView {
                span: Span {
                    start: if src.base + pos >= 2 {
                        (src.base + pos - 2) as usize
                    } else {
                        0
                    },
                    end: (src.base + pos) as usize,
                },
                severity: FmSeverity::Error,
                message,
            },
        ),
    }
}

/// An escape whose letter stands at `s.pos`, in a string that starts at `start`.
pub open spec fn escape(src: Source, start: int, s: Scan) -> Scan {
    match src.at(s.pos) {
        None => s,
        Some(c) => if c == 98 {
            s.plus(s.pos + 1, numbered(8))
        } else if c == 116 {
            s.plus(s.pos + 1, numbered(9))
        } else if c == 110 {
            s.plus(s.pos + 1, numbered(10))
        } else if c == 102 {
            s.plus(s.pos + 1, numbered(12))
        } else if c == 114 {
            s.plus(s.pos + 1, numbered(13))
        } else if c == 34 {
            s.plus(s.pos + 1, numbered(34))
        } else if c == 92 {
            s.plus(s.pos + 1, numbered(92))
        } else if c == 117 {
            unicode_escape(src, s.moved(s.pos + 1), 4, text::utf8("invalid \\uXXXX escape"@))
        } else if c == 85 {
            unicode_escape(src, s.moved(s.pos + 1), 8, text::utf8("invalid \\UXXXXXXXX escape"@))
        } else {
            s.with(
                s.pos + 1,
                src.error(start, s.pos + 1, text::utf8("unknown escape sequence"@)),
            )
        },
    }
}

pub proof fn lemma_hex_number(b: Seq<u8>, i: int, n: nat, so_far: int)
    requires
        0 <= i <= b.len(),
    ensures
        i <= hex_number(b, i, n, so_far).0 <= b.len(),
    decreases n,
{
    if n > 0 && i < b.len() && hex_value(b[i]) is Some {
        lemma_hex_number(b, i + 1, (n - 1) as nat, so_far * 16 + hex_value(b[i]).unwrap());
    }
}

/// An escape is read forward.
pub proof fn lemma_escape(src: Source, start: int, s: Scan)
    requires
        0 <= s.pos <= src.bytes.len(),
    ensures
        s.pos <= escape(src, start, s).pos <= src.bytes.len(),
{
    if s.pos < src.bytes.len() {
        lemma_hex_number(src.bytes, s.pos + 1, 4, 0);
        lemma_hex_number(src.bytes, s.pos + 1, 8, 0);
    }
}

/// The rest of a basic string: up to a double quote, with escapes, on one line.
pub open spec fn basic_rest(src: Source, start: int, s: Scan) -> Scan
    decreases src.bytes.len() - s.pos,
{
    let b = src.bytes;
    if s.pos < 0 || s.pos >= b.len() {
        s.with(s.pos, src.error(start, s.pos, text::utf8("unclosed basic string"@)))
    } else if b[s.pos] == 34 {
        s.moved(s.pos + 1)
    } else if b[s.pos] == 92 {
        proof {
            lemma_escape(src, start, s.moved(s.pos + 1));
        }
        basic_rest(src, start, escape(src, start, s.moved(s.pos + 1)))
    } else if b[s.pos] == 10 || b[s.pos] == 13 {
        s.with(s.pos + 1, src.error(start, s.pos + 1, text::utf8("unclosed basic string"@)))
    } else {
        proof {
            lemma_char_end(b, s.pos);
        }
        basic_rest(
            src,
            start,
            s.plus(char_end(b, s.pos), text::piece(b, s.pos, char_end(b, s.pos))),
        )
    }
}

/// The rest of a literal string: up to a single quote, on one line.
pub open spec fn literal_rest(src: Source, start: int, s: Scan) -> Scan
    decreases src.bytes.len() - s.pos,
{
    let b = src.bytes;
    if s.pos < 0 || s.pos >= b.len() {
        s.with(s.pos, src.error(start, s.pos, text::utf8("unclosed literal string"@)))
    } else if b[s.pos] == 39 {
        s.moved(s.pos + 1)
    } else if b[s.pos] == 10 || b[s.pos] == 13 {
        s.with(s.pos + 1, src.error(start, s.pos + 1, text::utf8("unclosed literal string"@)))
    } else {
        proof {
            lemma_char_end(b, s.pos);
        }
        literal_rest(
            src,
            start,
            s.plus(char_end(b, s.pos), text::piece(b, s.pos, char_end(b, s.pos))),
        )
    }
}

/// Whether LF or CR LF stands at `i`.
pub open spec fn full_break(b: Seq<u8>, i: int) -> bool {
    0 <= i < b.len() && (b[i] == 10 || (b[i] == 13 && i + 1 < b.len() && b[i + 1] == 10))
}

/// Past the line break at `i` and the blanks and line breaks behind it.
pub open spec fn continuation_end(b: Seq<u8>, i: int) -> int
    decreases b.len() - i,
{
    if !full_break(b, i) {
        i
    } else {
        let j = blank_end(b, break_end(b, i));
        proof {
            lemma_blank_end(b, break_end(b, i));
        }
        continuation_end(b, j)
    }
}

pub proof fn lemma_continuation_end(b: Seq<u8>, i: int)
    requires
        0 <= i <= b.len(),
    ensures
        i <= continuation_end(b, i) <= b.len(),
    decreases b.len() - i,
{
    if full_break(b, i) {
        lemma_blank_end(b, break_end(b, i));
        lemma_continuation_end(b, blank_end(b, break_end(b, i)));
    }
}

/// Whether three of a quote stand at `i`.
pub open spec fn tripled(b: Seq<u8>, i: int, quote: u8) -> bool {
    0 <= i && i + 2 < b.len() && b[i] == quote && b[i + 1] == quote && b[i + 2] == quote
}

/// The rest of a multi-line basic string: up to three double quotes. A backslash
/// at the end of a line joins the next line with text to it.
pub open spec fn ml_basic_rest(src: Source, start: int, s: Scan) -> Scan
    decreases src.bytes.len() - s.pos,
{
    let b = src.bytes;
    if s.pos < 0 || s.pos >= b.len() {
        s.with(s.pos, src.error(start, s.pos, text::utf8("unclosed multi-line basic string"@)))
    } else if tripled(b, s.pos, 34) {
        s.moved(s.pos + 3)
    } else if b[s.pos] == 92 {
        let p = blank_end(b, s.pos + 1);
        proof {
            lemma_blank_end(b, s.pos + 1);
            lemma_continuation_end(b, p);
            lemma_escape(src, start, s.moved(s.pos + 1));
        }
        if full_break(b, p) {
            ml_basic_rest(src, start, s.moved(continuation_end(b, p)))
        } else {
            ml_basic_rest(src, start, escape(src, start, s.moved(s.pos + 1)))
        }
    } else if b[s.pos] == 13 && full_break(b, s.pos) {
        ml_basic_rest(src, start, s.plus(s.pos + 2, numbered(10)))
    } else {
        proof {
            lemma_char_end(b, s.pos);
        }
        ml_basic_rest(
            src,
            start,
            s.plus(char_end(b, s.pos), text::piece(b, s.pos, char_end(b, s.pos))),
        )
    }
}

/// The rest of a multi-line literal string: up to three single quotes.
pub open spec fn ml_literal_rest(src: Source, start: int, s: Scan) -> Scan
    decreases src.bytes.len() - s.pos,
{
    let b = src.bytes;
    if s.pos < 0 || s.pos >= b.len() {
        s.with(s.pos, src.error(start, s.pos, text::utf8("unclosed multi-line literal string"@)))
    } else if tripled(b, s.pos, 39) {
        s.moved(s.pos + 3)
    } else if b[s.pos] == 13 && full_break(b, s.pos) {
        ml_literal_rest(src, start, s.plus(s.pos + 2, numbered(10)))
    } else {
        proof {
            lemma_char_end(b, s.pos);
        }
        ml_literal_rest(
            src,
            start,
            s.plus(char_end(b, s.pos), text::piece(b, s.pos, char_end(b, s.pos))),
        )
    }
}

/// The kinds of strings.
pub enum Quoting {
    Basic,
    Literal,
    MultiLineBasic,
    MultiLineLiteral,
}

/// Where the content of a string that starts at `start` begins: a line break
/// right behind three quotes does not belong to it.
pub open spec fn content_start(b: Seq<u8>, start: int, quoting: Quoting) -> int {
    match quoting {
        Quoting::Basic | Quoting::Literal => start + 1,
        _ => if full_break(b, start + 3) {
            break_end(b, start + 3)
        } else {
            start + 3
        },
    }
}

/// The string that starts at the reading position.
pub open spec fn string_at(src: Source, r: Reading, quoting: Quoting) -> (Reading, ScalarView) {
    let start = r.pos;
    let s0 = Scan {
        pos: content_start(src.bytes, start, quoting),
        text: Seq::empty(),
        found: r.found,
    };
    let s = match quoting {
        Quoting::Basic => basic_rest(src, start, s0),
        Quoting::Literal => literal_rest(src, start, s0),
        Quoting::MultiLineBasic => ml_basic_rest(src, start, s0),
        Quoting::MultiLineLiteral => ml_literal_rest(src, start, s0),
    };
    (
        Reading { pos: s.pos, found: s.found, ..r },
        ScalarView { span: src.span(start, s.pos), text: s.text },
    )
}

// Keys.

/// The bytes of an unquoted key.
pub open spec fn bare_key_byte(c: u8) -> bool {
    48 <= c <= 57 || 65 <= c <= 90 || 97 <= c <= 122 || c == 45 || c == 95
}

/// The end of the unquoted key at `i`.
pub open spec fn bare_key_end(b: Seq<u8>, i: int) -> int
    decreases b.len() - i,
{
    if 0 <= i < b.len() && bare_key_byte(b[i]) {
        bare_key_end(b, i + 1)
    } else {
        i
    }
}

/// A key: quoted or bare. Three quotes are no key, and neither is anything else.
pub open spec fn key_at(src: Source, r: Reading) -> (Reading, Option<ScalarView>) {
    let b = src.bytes;
    let i = blank_end(b, r.pos);
    let here = r.moved(i);
    if tripled(b, i, 34) || tripled(b, i, 39) {
        (
            here.with(
                src.error(i, i + 3, text::utf8("multi-line strings cannot be used as keys"@)),
            ).moved(line_end(b, i)),
            None,
        )
    } else if src.at(i) == Some(34u8) {
        let (next, key) = string_at(src, here, Quoting::Basic);
        (next, Some(key))
    } else if src.at(i) == Some(39u8) {
        let (next, key) = string_at(src, here, Quoting::Literal);
        (next, Some(key))
    } else if 0 <= i < b.len() && bare_key_byte(b[i]) {
        let end = bare_key_end(b, i);
        (
            here.moved(end),
            Some(ScalarView { span: src.span(i, end), text: text::piece(b, i, end) }),
        )
    } else {
        (here, None)
    }
}

/// The parts of a dotted key behind its first part.
pub open spec fn key_rest(src: Source, r: Reading, parts: Seq<ScalarView>) -> (
    Reading,
    Seq<ScalarView>,
)
    decreases src.bytes.len() - r.pos,
{
    if src.at(r.pos) != Some(46u8) {
        (r, parts)
    } else {
        let (next, part) = key_at(src, r.moved(blank_end(src.bytes, r.pos + 1)));
        match part {
            None => (
                next.with(
                    src.error(next.pos, next.pos, text::utf8("expected key after '.'"@)),
                ),
                parts,
            ),
            Some(part) => {
                let after = next.moved(blank_end(src.bytes, next.pos));
                if r.pos < after.pos <= src.bytes.len() {
                    key_rest(src, after, parts.push(part))
                } else {
                    (after, parts.push(part))
                }
            },
        }
    }
}

/// A dotted key; without parts where there is no key.
pub open spec fn dotted_key(src: Source, r: Reading) -> (Reading, Seq<ScalarView>) {
    let (next, first) = key_at(src, r);
    match first {
        None => (next, Seq::empty()),
        Some(part) => key_rest(src, next, seq![part]),
    }
}

// Values.

/// Where an unquoted value at `i` stops.
pub open spec fn plain_end(b: Seq<u8>, i: int) -> int
    decreases b.len() - i,
{
    if 0 <= i < b.len() && !(b[i] == 10 || b[i] == 13 || b[i] == 35 || b[i] == 44 || b[i] == 93
        || b[i] == 125) {
        plain_end(b, i + 1)
    } else {
        i
    }
}

/// A scalar: a string, or what stands up to the end of the value, as written.
pub open spec fn scalar_at(src: Source, r: Reading) -> (Reading, ScalarView) {
    let b = src.bytes;
    let i = blank_end(b, r.pos);
    let here = r.moved(i);
    if tripled(b, i, 34) {
        string_at(src, here, Quoting::MultiLineBasic)
    } else if src.at(i) == Some(34u8) {
        string_at(src, here, Quoting::Basic)
    } else if tripled(b, i, 39) {
        string_at(src, here, Quoting::MultiLineLiteral)
    } else if src.at(i) == Some(39u8) {
        string_at(src, here, Quoting::Literal)
    } else {
        let end = plain_end(b, i);
        let t = lines::trimmed_end(text::piece(b, i, end));
        (here.moved(end), ScalarView { span: src.span(i, i + t.len()), text: t })
    }
}

// Values that are too deep.

/// Past a quoted string, without reading it; a line break ends it too.
pub open spec fn raw_string_end(b: Seq<u8>, i: int, quote: u8) -> int
    decreases b.len() - i,
{
    if i < 0 || i >= b.len() {
        i
    } else if b[i] == quote {
        i + 1
    } else if b[i] == 10 || b[i] == 13 {
        i
    } else if b[i] == 92 && quote == 34 {
        raw_string_end(b, if i + 2 <= b.len() {
            i + 2
        } else {
            b.len() as int
        }, quote)
    } else {
        raw_string_end(b, i + 1, quote)
    }
}

pub proof fn lemma_raw_string_end(b: Seq<u8>, i: int, quote: u8)
    requires
        0 <= i <= b.len(),
    ensures
        i <= raw_string_end(b, i, quote) <= b.len(),
    decreases b.len() - i,
{
    if i < b.len() && b[i] != quote && b[i] != 10 && b[i] != 13 {
        if b[i] == 92 && quote == 34 {
            lemma_raw_string_end(b, if i + 2 <= b.len() {
                i + 2
            } else {
                b.len() as int
            }, quote);
        } else {
            lemma_raw_string_end(b, i + 1, quote);
        }
    }
}

/// Past the bracket that closes `depth` open ones.
pub open spec fn balanced_end(b: Seq<u8>, i: int, depth: int) -> int
    decreases b.len() - i,
{
    if i < 0 || i >= b.len() {
        i
    } else if b[i] == 34 || b[i] == 39 {
        proof {
            lemma_raw_string_end(b, i + 1, b[i]);
        }
        balanced_end(b, raw_string_end(b, i + 1, b[i]), depth)
    } else if b[i] == 91 || b[i] == 123 {
        balanced_end(b, i + 1, depth + 1)
    } else if b[i] == 93 || b[i] == 125 {
        if depth <= 1 {
            i + 1
        } else {
            balanced_end(b, i + 1, depth - 1)
        }
    } else {
        balanced_end(b, i + 1, depth)
    }
}

pub proof fn lemma_balanced_end(b: Seq<u8>, i: int, depth: int)
    requires
        0 <= i <= b.len(),
    ensures
        i <= balanced_end(b, i, depth) <= b.len(),
    decreases b.len() - i,
{
    if i < b.len() {
        if b[i] == 34 || b[i] == 39 {
            lemma_raw_string_end(b, i + 1, b[i]);
            lemma_balanced_end(b, raw_string_end(b, i + 1, b[i]), depth);
        } else if b[i] == 91 || b[i] == 123 {
            lemma_balanced_end(b, i + 1, depth + 1);
        } else if b[i] == 93 || b[i] == 125 {
            if depth > 1 {
                lemma_balanced_end(b, i + 1, depth - 1);
            }
        } else {
            lemma_balanced_end(b, i + 1, depth);
        }
    }
}

/// The message about values that are nested too deep.
pub open spec fn limit_message() -> Seq<u8> {
    text::utf8("TOML nesting exceeds the limit of "@) + text::decimal(
        MAX_FRONTMATTER_NESTING as nat,
    ) + text::utf8("; deeper structure is flattened"@)
}

/// A value that is too deep is passed over, and the first one is reported.
pub open spec fn too_deep(src: Source, r: Reading) -> Reading {
    let noted = if r.limit_hit {
        r
    } else {
        Reading {
            found: r.found.push(
                FmDiagView {
                    span: src.span(r.pos, r.pos),
                    severity: FmSeverity::Warning,
                    message: limit_message(),
                },
            ),
            limit_hit: true,
            ..r
        }
    };
    noted.moved(balanced_end(src.bytes, r.pos, 0))
}

// Collections.

/// How much nesting is left.
pub open spec fn room(depth: nat) -> int {
    if depth <= MAX_FRONTMATTER_NESTING {
        MAX_FRONTMATTER_NESTING - depth
    } else {
        0
    }
}

/// An inline array. Nested arrays lend it their items; tables in it count for nothing.
pub open spec fn array_at(src: Source, r: Reading, depth: nat) -> (Reading, ValueView)
    decreases room(depth), src.bytes.len() - r.pos, 0int,
{
    if depth >= MAX_FRONTMATTER_NESTING {
        let next = too_deep(src, r);
        (next, ValueView::FlowSequence { span: src.span(r.pos, next.pos), items: Seq::empty() })
    } else {
        let (next, items) = array_rest(src, r.pos, r.moved(r.pos + 1), depth + 1, Seq::empty());
        (next, ValueView::FlowSequence { span: src.span(r.pos, next.pos), items })
    }
}

/// The items of a value that is an inline array.
pub open spec fn flow_items(v: ValueView) -> Seq<ScalarView> {
    match v {
        ValueView::FlowSequence { items, .. } => items,
        _ => Seq::empty(),
    }
}

/// The rest of an inline array that starts at `start`.
pub open spec fn array_rest(
    src: Source,
    start: int,
    r: Reading,
    depth: nat,
    items: Seq<ScalarView>,
) -> (Reading, Seq<ScalarView>)
    decreases room(depth), src.bytes.len() - r.pos, 2int,
{
    let b = src.bytes;
    let i = array_gap_end(b, r.pos);
    let here = r.moved(i);
    if i < r.pos || i >= b.len() {
        (here.with(src.error(start, i, text::utf8("unclosed inline array"@))), items)
    } else if b[i] == 93 {
        (here.moved(i + 1), items)
    } else if b[i] == 44 {
        array_rest(src, start, here.moved(i + 1), depth, items)
    } else if b[i] == 91 {
        let (next, nested) = array_at(src, here, depth);
        if i < next.pos <= b.len() {
            array_rest(src, start, next, depth, items + flow_items(nested))
        } else {
            (next, items)
        }
    } else if b[i] == 123 {
        let (next, _) = table_at(src, here, depth);
        if i < next.pos <= b.len() {
            array_rest(src, start, next, depth, items)
        } else {
            (next, items)
        }
    } else {
        let (next, item) = scalar_at(src, here);
        if next.pos == i {
            array_rest(src, start, next.moved(i + 1), depth, items)
        } else if i < next.pos <= b.len() {
            array_rest(src, start, next, depth, if item.text.len() == 0 {
                items
            } else {
                items.push(item)
            })
        } else {
            (next, items)
        }
    }
}

/// An inline table.
pub open spec fn table_at(src: Source, r: Reading, depth: nat) -> (Reading, ValueView)
    decreases room(depth), src.bytes.len() - r.pos, 0int,
{
    if depth >= MAX_FRONTMATTER_NESTING {
        (too_deep(src, r), ValueView::Mapping(Seq::empty()))
    } else {
        let (next, entries) = table_rest(
            src,
            r.pos,
            r.moved(r.pos + 1),
            depth + 1,
            Seq::empty(),
        );
        (next, ValueView::Mapping(entries))
    }
}

/// The rest of an inline table that starts at `start`; a line break ends it.
pub open spec fn table_rest(
    src: Source,
    start: int,
    r: Reading,
    depth: nat,
    entries: Seq<NodeView>,
) -> (Reading, Seq<NodeView>)
    decreases room(depth), src.bytes.len() - r.pos, 2int,
{
    let b = src.bytes;
    let i = blank_end(b, r.pos);
    let here = r.moved(i);
    if i < r.pos || i >= b.len() || b[i] == 10 || b[i] == 13 {
        (here.with(src.error(start, i, text::utf8("unclosed inline table"@))), entries)
    } else if b[i] == 125 {
        (here.moved(i + 1), entries)
    } else if b[i] == 44 {
        table_rest(src, start, here.moved(i + 1), depth, entries)
    } else {
        let (keyed, parts) = dotted_key(src, here);
        if parts.len() == 0 {
            (keyed.moved(line_end(b, keyed.pos)), entries)
        } else {
            let j = blank_end(b, keyed.pos);
            let k = blank_end(b, if src.at(j) == Some(61u8) {
                j + 1
            } else {
                j
            });
            if i < k <= b.len() {
                let (next, value) = value_at(src, keyed.moved(k), depth);
                if i < next.pos <= b.len() {
                    table_rest(
                        src,
                        start,
                        next,
                        depth,
                        entries.push(nested_entry(src, parts, value, i, next.pos)),
                    )
                } else {
                    (next, entries)
                }
            } else {
                (keyed, entries)
            }
        }
    }
}

/// A value: an array, a table or a scalar.
pub open spec fn value_at(src: Source, r: Reading, depth: nat) -> (Reading, ValueView)
    decreases room(depth), src.bytes.len() - r.pos, 1int,
{
    let i = blank_end(src.bytes, r.pos);
    let here = r.moved(i);
    if i < r.pos {
        (here, ValueView::Mapping(Seq::empty()))
    } else if src.at(i) == Some(91u8) {
        array_at(src, here, depth)
    } else if src.at(i) == Some(123u8) {
        table_at(src, here, depth)
    } else {
        let (next, s) = scalar_at(src, here);
        (next, ValueView::Scalar(s))
    }
}

// Entries.

/// An entry under the parts of a dotted key from index `k` on. The first part's
/// entry spans from `start`, every other from its own key.
pub open spec fn entry_under(
    src: Source,
    parts: Seq<ScalarView>,
    k: int,
    value: ValueView,
    start: int,
    end: int,
) -> NodeView
    decreases parts.len() - k,
{
    let span = if k == 0 {
        src.span(start, end)
    } else {
        Span { start: parts[k].span.start, end: (src.base + end) as usize }
    };
    if k < 0 || k >= parts.len() - 1 {
        NodeView::Mapping { key: parts[k], value, span }
    } else {
        NodeView::Mapping {
            key: parts[k],
            value: ValueView::Mapping(seq![entry_under(src, parts, k + 1, value, start, end)]),
            span,
        }
    }
}

/// An entry under a dotted key.
pub open spec fn nested_entry(
    src: Source,
    parts: Seq<ScalarView>,
    value: ValueView,
    start: int,
    end: int,
) -> NodeView {
    entry_under(src, parts, 0, value, start, end)
}

/// The entries up to the next header or the end. What is no entry is reported
/// and its line passed over.
pub open spec fn body_rest(src: Source, r: Reading, entries: Seq<NodeView>) -> (
    Reading,
    Seq<NodeView>,
)
    decreases src.bytes.len() - r.pos,
{
    let b = src.bytes;
    let i = gap_end(b, r.pos);
    let here = r.moved(i);
    if i < r.pos || i >= b.len() || b[i] == 91 {
        (here, entries)
    } else {
        let (keyed, parts) = dotted_key(src, here);
        if parts.len() == 0 {
            let end = line_end(b, keyed.pos);
            let noted = if end != keyed.pos {
                keyed.with(src.error(keyed.pos, end, text::utf8("expected key"@)))
            } else {
                keyed
            };
            let next = noted.moved(break_end(b, end));
            if r.pos < next.pos <= b.len() {
                body_rest(src, next, entries)
            } else {
                (next, entries)
            }
        } else {
            let j = blank_end(b, keyed.pos);
            if src.at(j) != Some(61u8) {
                let here_end = if j < b.len() {
                    j + 1
                } else {
                    j
                };
                let next = keyed.with(
                    src.error(j, here_end, text::utf8("expected '='"@)),
                ).moved(break_end(b, line_end(b, j)));
                if r.pos < next.pos <= b.len() {
                    body_rest(src, next, entries)
                } else {
                    (next, entries)
                }
            } else {
                let (valued, value) = value_at(src, keyed.moved(blank_end(b, j + 1)), 0);
                let next = valued.moved(trailer_end(b, valued.pos));
                if r.pos < next.pos <= b.len() {
                    body_rest(
                        src,
                        next,
                        entries.push(nested_entry(src, parts, value, i, next.pos)),
                    )
                } else {
                    (next, entries)
                }
            }
        }
    }
}

/// The key of a header of `n` brackets, and past its line.
pub open spec fn header_at(src: Source, r: Reading, n: int) -> (Reading, Seq<ScalarView>) {
    let b = src.bytes;
    let (keyed, parts) = dotted_key(src, r.moved(blank_end(b, r.pos + n)));
    let j = blank_end(b, keyed.pos);
    let closed = if n == 1 {
        src.at(j) == Some(93u8)
    } else {
        src.at(j) == Some(93u8) && src.at(j + 1) == Some(93u8)
    };
    let next = if closed {
        keyed.moved(j + n)
    } else {
        keyed.with(
            src.error(
                j,
                j,
                if n == 1 {
                    text::utf8("expected ']' to close table header"@)
                } else {
                    text::utf8("expected ']]' to close array-of-tables header"@)
                },
            ),
        ).moved(j)
    };
    (next.moved(trailer_end(b, next.pos)), parts)
}

/// The top-level entries, with the keys that tables and plain entries have taken.
#[verifier::ext_equal]
pub struct Document {
    pub entries: Seq<NodeView>,
    pub taken: Set<Seq<u8>>,
}

/// The message about a key that is taken.
pub open spec fn duplicate_message(key: Seq<u8>) -> Seq<u8> {
    text::utf8("duplicate key: "@) + key
}

pub open spec fn duplicate_key(key: ScalarView) -> FmDiagView {
    FmDiagView {
        span: key.span,
        severity: FmSeverity::Error,
        message: duplicate_message(key.text),
    }
}

/// A plain entry or a table joins the document unless its key is taken.
pub open spec fn joined(doc: Document, r: Reading, node: NodeView) -> (Document, Reading) {
    match node {
        NodeView::Mapping { key, .. } => if doc.taken.contains(key.text) {
            (doc, r.with(duplicate_key(key)))
        } else {
            (
                Document {
                    entries: doc.entries.push(node),
                    taken: doc.taken.insert(key.text),
                },
                r,
            )
        },
        _ => (Document { entries: doc.entries.push(node), ..doc }, r),
    }
}

/// The first entry with a key.
pub open spec fn entry_with(entries: Seq<NodeView>, key: Seq<u8>, from: int) -> Option<int>
    decreases entries.len() - from,
{
    if from < 0 || from >= entries.len() {
        None
    } else if entries[from] matches NodeView::Mapping { key: k, .. } && k.text == key {
        Some(from)
    } else {
        entry_with(entries, key, from + 1)
    }
}

/// An array of tables grows by the items of another; any other entry does not.
pub open spec fn grown(old_node: NodeView, value: ValueView, end: usize) -> Option<NodeView> {
    match (old_node, value) {
        (
            NodeView::Mapping { key, value: ValueView::Sequence(items), span },
            ValueView::Sequence(more),
        ) => Some(
            NodeView::Mapping {
                key,
                value: ValueView::Sequence(items + more),
                span: Span { start: span.start, end },
            },
        ),
        _ => None,
    }
}

/// An element of an array of tables joins the array if that is there already.
pub open spec fn merged(doc: Document, r: Reading, node: NodeView) -> (Document, Reading) {
    match node {
        NodeView::Mapping { key, value, span } => match entry_with(doc.entries, key.text, 0) {
            None => (Document { entries: doc.entries.push(node), ..doc }, r),
            Some(k) => match grown(doc.entries[k], value, span.end) {
                Some(new_node) => (
                    Document { entries: doc.entries.update(k, new_node), ..doc },
                    r,
                ),
                None => (doc, r.with(duplicate_key(key))),
            },
        },
        _ => (doc, r),
    }
}

/// A list of entries joins the document.
pub open spec fn all_joined(doc: Document, r: Reading, list: Seq<NodeView>) -> (Document, Reading)
    decreases list.len(),
{
    if list.len() == 0 {
        (doc, r)
    } else {
        let (d, s) = all_joined(doc, r, list.drop_last());
        joined(d, s, list.last())
    }
}

/// The tables from the reading position on.
pub open spec fn tables_rest(src: Source, doc: Document, r: Reading) -> (Document, Reading)
    decreases src.bytes.len() - r.pos,
{
    if src.at(r.pos) != Some(91u8) {
        (doc, r)
    } else {
        let n: int = if src.at(r.pos + 1) == Some(91u8) {
            2
        } else {
            1
        };
        let (headed, parts) = header_at(src, r, n);
        let (next, body) = body_rest(src, headed, Seq::empty());
        let (d, s) = if parts.len() == 0 {
            (doc, next)
        } else if n == 2 {
            let item = NodeView::SequenceItem {
                value: ValueView::Mapping(body),
                span: src.span(r.pos, next.pos),
            };
            merged(
                doc,
                next,
                nested_entry(src, parts, ValueView::Sequence(seq![item]), r.pos, next.pos),
            )
        } else {
            joined(
                doc,
                next,
                nested_entry(src, parts, ValueView::Mapping(body), r.pos, next.pos),
            )
        };
        if r.pos < s.pos <= src.bytes.len() {
            tables_rest(src, d, s)
        } else {
            (d, s)
        }
    }
}

/// The document that a text gives, and what was found in it.
pub open spec fn document(src: Source) -> (Document, Reading) {
    let r0 = Reading { pos: 0, found: Seq::empty(), limit_hit: false };
    let (r1, top) = body_rest(src, r0, Seq::empty());
    let (doc, r2) = all_joined(
        Document { entries: Seq::empty(), taken: Set::empty() },
        r1,
        top,
    );
    tables_rest(src, doc, r2)
}

} // verus!

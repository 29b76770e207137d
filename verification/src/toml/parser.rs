//! The frontmatter parser.
use vstd::prelude::*;
use crate::fm;
use crate::fm::{FmDiagnostic, FmNode, FmSeverity, FmValue, ScalarSpan};
use crate::limits::MAX_FRONTMATTER_NESTING;
use crate::lines;
use crate::sorted::{KeyOrder, SortedMap};
use crate::span::Span;
use crate::text;
use crate::toml::grammar;
use crate::toml::grammar::{Document, Quoting, Reading, Scan, Source};

verus! {

/// `char::from_u32` of std: the character with a number, for the numbers that
/// are Unicode scalar values, and none for any other.
#[verifier::external_body]
fn char_from_number(n: u32) -> (r: Option<char>)
    ensures
        match r {
            Some(c) => grammar::is_scalar_value(n as int) && c == n as char,
            None => !grammar::is_scalar_value(n as int),
        },
{
    char::from_u32(n)
}

/// `String::push` of std: appends one character.
#[verifier::external_body]
fn push_character(out: &mut String, c: char)
    ensures
        final(out)@ == old(out)@.push(c),
{
    out.push(c);
}

fn push_numbered(out: &mut String, c: char)
    ensures
        text::utf8(final(out)@) == text::utf8(old(out)@) + grammar::numbered(c as int),
{
    proof {
        let n = c as int;
        assert(n as char == c);
        assert(out@.push(c) =~= out@ + seq![c]);
        text::lemma_utf8_concat(out@, seq![c]);
    }
    push_character(out, c);
}

/// The state of the parser.
pub struct Parser<'a> {
    content: &'a str,
    src: &'a [u8],
    pos: usize,
    base: usize,
    diagnostics: Vec<FmDiagnostic>,
    root: Vec<FmNode>,
    seen_keys: SortedMap<()>,
    depth_limit_hit: bool,
}

impl<'a> Parser<'a> {
    /// The text that is parsed.
    pub closed spec fn source(self) -> Source {
        Source { bytes: self.src@, base: self.base as int }
    }

    /// How far it has been read.
    pub closed spec fn reading(self) -> Reading {
        Reading {
            pos: self.pos as int,
            found: fm::fm_diag_views(self.diagnostics@),
            limit_hit: self.depth_limit_hit,
        }
    }

    /// What has joined the document.
    pub closed spec fn doc(self) -> Document {
        Document { entries: fm::node_views(self.root@), taken: self.seen_keys@.dom() }
    }

    /// The position lies in the text, and the text in the document.
    pub closed spec fn wf(self) -> bool {
        &&& self.src@ == text::utf8(self.content@)
        &&& self.source().fits()
        &&& self.pos <= self.src@.len()
    }

    /// Nothing has joined the document, and the text is the same.
    spec fn kept(self, before: Parser<'a>) -> bool {
        &&& self.wf()
        &&& self.content == before.content
        &&& self.src == before.src
        &&& self.base == before.base
        &&& self.root == before.root
        &&& self.seen_keys == before.seen_keys
    }

    /// The text of a string as far as it has been read.
    spec fn scan(self, t: String) -> Scan {
        Scan {
            pos: self.pos as int,
            text: text::utf8(t@),
            found: fm::fm_diag_views(self.diagnostics@),
        }
    }

    /// A parser at the start of a text.
    pub fn new(content: &'a str, base: usize) -> (r: Parser<'a>)
        requires
            base + text::utf8(content@).len() <= usize::MAX,
        ensures
            r.wf(),
            r.source() == (Source { bytes: text::utf8(content@), base: base as int }),
            r.reading() == (Reading { pos: 0, found: Seq::empty(), limit_hit: false }),
            r.doc() == (Document { entries: Seq::empty(), taken: Set::empty() }),
    {
        let r = Parser {
            content,
            src: content.as_bytes(),
            pos: 0,
            base,
            diagnostics: Vec::new(),
            root: Vec::new(),
            seen_keys: SortedMap::new(KeyOrder::Bytes),
            depth_limit_hit: false,
        };
        proof {
            assert(r.reading().found =~= Seq::<fm::FmDiagView>::empty());
            assert(r.doc().entries =~= Seq::<fm::NodeView>::empty());
            assert(r.doc().taken =~= Set::<Seq<u8>>::empty());
        }
        r
    }

    /// The entries and the findings.
    pub fn into_parts(self) -> (r: (Vec<FmNode>, Vec<FmDiagnostic>))
        ensures
            fm::node_views(r.0@) == self.doc().entries,
            fm::fm_diag_views(r.1@) == self.reading().found,
    {
        (self.root, self.diagnostics)
    }

    // Helpers.

    fn peek_at(&self, offset: usize) -> (r: Option<u8>)
        requires
            self.wf(),
        ensures
            r == self.source().at(self.pos + offset),
    {
        let left = self.src.len() - self.pos;
        if offset < left {
            Some(self.src[self.pos + offset])
        } else {
            None
        }
    }

    fn peek(&self) -> (r: Option<u8>)
        requires
            self.wf(),
        ensures
            r == self.source().at(self.pos as int),
    {
        self.peek_at(0)
    }

    fn at_end(&self) -> (r: bool)
        requires
            self.wf(),
        ensures
            r == (self.pos >= self.source().bytes.len()),
    {
        self.pos >= self.src.len()
    }

    /// Whether three of a quote stand at the position.
    fn at_tripled(&self, quote: u8) -> (r: bool)
        requires
            self.wf(),
        ensures
            r == grammar::tripled(self.source().bytes, self.pos as int, quote),
    {
        self.src.len() - self.pos >= 3 && self.src[self.pos] == quote && self.src[self.pos + 1]
            == quote && self.src[self.pos + 2] == quote
    }

    /// Whether LF or CR LF stands at an offset.
    fn full_break_at(&self, i: usize) -> (r: bool)
        requires
            self.wf(),
            i <= self.src@.len(),
        ensures
            r == grammar::full_break(self.source().bytes, i as int),
    {
        i < self.src.len() && (self.src[i] == 10 || (self.src[i] == 13 && self.src.len() - i >= 2
            && self.src[i + 1] == 10))
    }

    fn span(&self, start: usize, end: usize) -> (r: Span)
        requires
            self.wf(),
            start <= self.src@.len(),
            end <= self.src@.len(),
        ensures
            r == self.source().span(start as int, end as int),
    {
        Span { start: self.base + start, end: self.base + end }
    }

    fn emit(&mut self, span: Span, severity: FmSeverity, message: String)
        requires
            old(self).wf(),
        ensures
            final(self).kept(*old(self)),
            final(self).pos == old(self).pos,
            final(self).reading() == old(self).reading().with(
                (fm::FmDiagView { span, severity, message: text::utf8(message@) }),
            ),
            forall|t: String| #[trigger]
                final(self).scan(t) == old(self).scan(t).with(
                    old(self).pos as int,
                    (fm::FmDiagView { span, severity, message: text::utf8(message@) }),
                ),
    {
        let ghost before = self.diagnostics@;
        self.diagnostics.push(FmDiagnostic { span, severity, message });
        proof {
            assert(fm::fm_diag_views(self.diagnostics@) =~= fm::fm_diag_views(before).push(
                fm::FmDiagView { span, severity, message: text::utf8(message@) },
            ));
        }
    }

    /// Report an error between two offsets.
    fn error(&mut self, start: usize, end: usize, message: &str)
        requires
            old(self).wf(),
            start <= old(self).source().bytes.len(),
            end <= old(self).source().bytes.len(),
        ensures
            final(self).kept(*old(self)),
            final(self).pos == old(self).pos,
            final(self).reading() == old(self).reading().with(
                old(self).source().error(start as int, end as int, text::utf8(message@)),
            ),
            forall|t: String| #[trigger]
                final(self).scan(t) == old(self).scan(t).with(
                    old(self).pos as int,
                    old(self).source().error(start as int, end as int, text::utf8(message@)),
                ),
    {
        let span = self.span(start, end);
        self.emit(span, FmSeverity::Error, text::owned(message));
    }

    fn skip_whitespace(&mut self)
        requires
            old(self).wf(),
        ensures
            final(self).kept(*old(self)),
            final(self).reading() == old(self).reading().moved(
                grammar::blank_end(old(self).source().bytes, old(self).pos as int),
            ),
            final(self).pos >= old(self).pos,
            final(self).diagnostics == old(self).diagnostics,
    {
        let start = self.pos;
        while self.pos < self.src.len() && (self.src[self.pos] == 32 || self.src[self.pos] == 9)
            invariant
                self.kept(*old(self)),
                self.pos >= start,
                start == old(self).pos,
                self.diagnostics == old(self).diagnostics,
                self.depth_limit_hit == old(self).depth_limit_hit,
                grammar::blank_end(self.src@, start as int) == grammar::blank_end(
                    self.src@,
                    self.pos as int,
                ),
            decreases self.src@.len() - self.pos,
        {
            self.pos = self.pos + 1;
        }
    }

    fn skip_newline(&mut self)
        requires
            old(self).wf(),
        ensures
            final(self).kept(*old(self)),
            final(self).reading() == old(self).reading().moved(
                grammar::break_end(old(self).source().bytes, old(self).pos as int),
            ),
            final(self).pos >= old(self).pos,
            final(self).diagnostics == old(self).diagnostics,
    {
        if self.pos < self.src.len() {
            let c = self.src[self.pos];
            if c == 10 {
                self.pos = self.pos + 1;
            } else if c == 13 {
                let step: usize = if self.peek_at(1) == Some(10) {
                    2
                } else {
                    1
                };
                self.pos = self.pos + step;
            }
        }
    }

    fn skip_to_eol(&mut self)
        requires
            old(self).wf(),
        ensures
            final(self).kept(*old(self)),
            final(self).reading() == old(self).reading().moved(
                grammar::line_end(old(self).source().bytes, old(self).pos as int),
            ),
            final(self).pos >= old(self).pos,
    {
        let start = self.pos;
        while self.pos < self.src.len() && self.src[self.pos] != 10 && self.src[self.pos] != 13
            invariant
                self.kept(*old(self)),
                self.pos >= start,
                start == old(self).pos,
                self.diagnostics == old(self).diagnostics,
                self.depth_limit_hit == old(self).depth_limit_hit,
                grammar::line_end(self.src@, start as int) == grammar::line_end(
                    self.src@,
                    self.pos as int,
                ),
            decreases self.src@.len() - self.pos,
        {
            self.pos = self.pos + 1;
        }
    }

    fn skip_comment(&mut self)
        requires
            old(self).wf(),
        ensures
            final(self).kept(*old(self)),
            final(self).reading() == old(self).reading().moved(
                grammar::comment_end(old(self).source().bytes, old(self).pos as int),
            ),
            final(self).pos >= old(self).pos,
    {
        if self.peek() == Some(35) {
            self.skip_to_eol();
        }
    }

    /// Past the rest of the line.
    fn skip_trailer(&mut self)
        requires
            old(self).wf(),
        ensures
            final(self).kept(*old(self)),
            final(self).reading() == old(self).reading().moved(
                grammar::trailer_end(old(self).source().bytes, old(self).pos as int),
            ),
            final(self).pos >= old(self).pos,
    {
        self.skip_whitespace();
        self.skip_comment();
        self.skip_newline();
    }

    fn skip_blanks(&mut self)
        requires
            old(self).wf(),
        ensures
            final(self).kept(*old(self)),
            final(self).reading() == old(self).reading().moved(
                grammar::gap_end(old(self).source().bytes, old(self).pos as int),
            ),
            final(self).pos >= old(self).pos,
            final(self).pos < final(self).src@.len() ==> {
                let c = final(self).src@[final(self).pos as int];
                c != 10 && c != 13 && c != 32 && c != 9 && c != 35
            },
    {
        let start = self.pos;
        loop
            invariant
                self.kept(*old(self)),
                self.pos >= start,
                start == old(self).pos,
                self.reading() == old(self).reading().moved(self.pos as int),
                grammar::gap_end(self.src@, start as int) == grammar::gap_end(
                    self.src@,
                    self.pos as int,
                ),
            decreases self.src@.len() - self.pos,
        {
            let ghost p0 = self.pos;
            self.skip_whitespace();
            proof {
                lemma_blank_stops(self.src@, p0 as int);
                if self.pos < self.src@.len() && self.src@[self.pos as int] == 35 {
                    grammar::lemma_line_end(self.src@, self.pos + 1);
                }
            }
            match self.peek() {
                Some(10) | Some(13) => {
                    self.skip_newline();
                },
                Some(35) => {
                    self.skip_comment();
                    self.skip_newline();
                },
                _ => {
                    return;
                },
            }
        }
    }

    fn skip_array_whitespace(&mut self)
        requires
            old(self).wf(),
        ensures
            final(self).kept(*old(self)),
            final(self).reading() == old(self).reading().moved(
                grammar::array_gap_end(old(self).source().bytes, old(self).pos as int),
            ),
            final(self).pos >= old(self).pos,
    {
        let start = self.pos;
        loop
            invariant
                self.kept(*old(self)),
                self.pos >= start,
                start == old(self).pos,
                self.reading() == old(self).reading().moved(self.pos as int),
                grammar::array_gap_end(self.src@, start as int) == grammar::array_gap_end(
                    self.src@,
                    self.pos as int,
                ),
            decreases self.src@.len() - self.pos,
        {
            proof {
                if self.pos < self.src@.len() && self.src@[self.pos as int] == 35 {
                    grammar::lemma_line_end(self.src@, self.pos + 1);
                }
            }
            if self.pos >= self.src.len() {
                return;
            }
            let c = self.src[self.pos];
            if c == 32 || c == 9 || c == 10 {
                self.pos = self.pos + 1;
            } else if c == 13 && self.peek_at(1) == Some(10) {
                self.pos = self.pos + 2;
            } else if c == 35 {
                self.skip_comment();
            } else {
                return;
            }
        }
    }

    // Strings.

    /// Append the character at the position.
    fn push_char(&mut self, out: &mut String)
        requires
            old(self).wf(),
            old(self).pos < old(self).source().bytes.len(),
        ensures
            final(self).kept(*old(self)),
            final(self).depth_limit_hit == old(self).depth_limit_hit,
            final(self).pos > old(self).pos,
            final(self).scan(*final(out)) == old(self).scan(*old(out)).plus(
                grammar::char_end(old(self).source().bytes, old(self).pos as int),
                text::piece(
                    old(self).source().bytes,
                    old(self).pos as int,
                    grammar::char_end(old(self).source().bytes, old(self).pos as int),
                ),
            ),
    {
        let start = self.pos;
        let mut end: usize = start + 1;
        while end < self.src.len() && 128 <= self.src[end] && self.src[end] <= 191
            invariant
                self.wf(),
                start < end <= self.src@.len(),
                grammar::char_end(self.src@, start as int) == grammar::char_end(
                    self.src@,
                    end - 1,
                ),
            decreases self.src@.len() - end,
        {
            end += 1;
        }
        text::push(out, text::slice(self.content, start, end));
        self.pos = end;
    }

    fn parse_unicode_escape(&mut self, digits: usize) -> (r: Option<char>)
        requires
            old(self).wf(),
            digits <= 8,
        ensures
            final(self).kept(*old(self)),
            final(self).depth_limit_hit == old(self).depth_limit_hit,
            final(self).diagnostics == old(self).diagnostics,
            final(self).pos >= old(self).pos,
            ({
                let (pos, number) = grammar::hex_number(
                    old(self).source().bytes,
                    old(self).pos as int,
                    digits as nat,
                    0,
                );
                &&& final(self).pos == pos
                &&& match r {
                    Some(c) => number matches Some(v) && grammar::is_scalar_value(v) && c as int
                        == v,
                    None => number matches Some(v) ==> !grammar::is_scalar_value(v),
                }
            }),
    {
        let ghost start = self.pos as int;
        let mut code: u32 = 0;
        let mut k: usize = 0;
        proof {
            reveal_with_fuel(vstd::arithmetic::power::pow, 2);
        }
        while k < digits
            invariant
                k <= digits <= 8,
                self.kept(*old(self)),
                self.depth_limit_hit == old(self).depth_limit_hit,
                self.diagnostics == old(self).diagnostics,
                self.pos >= start,
                start == old(self).pos,
                code < vstd::arithmetic::power::pow(16, k as nat),
                grammar::hex_number(self.src@, start, digits as nat, 0) == grammar::hex_number(
                    self.src@,
                    self.pos as int,
                    (digits - k) as nat,
                    code as int,
                ),
            decreases digits - k,
        {
            if self.pos >= self.src.len() {
                return None;
            }
            let c = self.src[self.pos];
            self.pos = self.pos + 1;
            let v: u32 = if 48 <= c && c <= 57 {
                (c - 48) as u32
            } else if 65 <= c && c <= 70 {
                (c - 55) as u32
            } else if 97 <= c && c <= 102 {
                (c - 87) as u32
            } else {
                return None;
            };
            proof {
                lemma_hex_room(k as nat, code as int, v as int);
            }
            code = code * 16 + v;
            k += 1;
        }
        char_from_number(code)
    }

    fn parse_escape(&mut self, out: &mut String, start: usize)
        requires
            old(self).wf(),
            start <= old(self).pos,
        ensures
            final(self).kept(*old(self)),
            final(self).depth_limit_hit == old(self).depth_limit_hit,
            final(self).pos >= old(self).pos,
            final(self).scan(*final(out)) == grammar::escape(
                old(self).source(),
                start as int,
                old(self).scan(*old(out)),
            ),
    {
        let ghost s0 = self.scan(*out);
        let ghost src = self.source();
        let Some(c) = self.peek() else {
            return;
        };
        self.pos = self.pos + 1;
        if c == 98 {
            push_numbered(out, '\u{0008}');
        } else if c == 116 {
            push_numbered(out, '\t');
        } else if c == 110 {
            push_numbered(out, '\n');
        } else if c == 102 {
            push_numbered(out, '\u{000C}');
        } else if c == 114 {
            push_numbered(out, '\r');
        } else if c == 34 {
            push_numbered(out, '"');
        } else if c == 92 {
            push_numbered(out, '\\');
        } else if c == 117 || c == 85 {
            let digits: usize = if c == 117 {
                4
            } else {
                8
            };
            let ghost s1 = self.scan(*out);
            match self.parse_unicode_escape(digits) {
                Some(ch) => {
                    push_numbered(out, ch);
                    proof {
                        assert(self.scan(*out) =~= grammar::escape(src, start as int, s0));
                    }
                },
                None => {
                    let end = self.base + self.pos;
                    let span = Span {
                        start: if end >= 2 {
                            end - 2
                        } else {
                            0
                        },
                        end,
                    };
                    let message: &str = if c == 117 {
                        "invalid \\uXXXX escape"
                    } else {
                        "invalid \\UXXXXXXXX escape"
                    };
                    self.emit(span, FmSeverity::Error, text::owned(message));
                },
            }
        } else {
            let end = self.pos;
            self.error(start, end, "unknown escape sequence");
        }
        assert(self.scan(*out) =~= grammar::escape(src, start as int, s0));
    }
}

impl<'a> Parser<'a> {
    /// A basic string.
    fn parse_basic_string(&mut self) -> (r: ScalarSpan)
        requires
            old(self).wf(),
            old(self).source().at(old(self).reading().pos) is Some,
        ensures
            final(self).kept(*old(self)),
            final(self).pos > old(self).pos,
            (final(self).reading(), fm::scalar_view(r)) == grammar::string_at(
                old(self).source(),
                old(self).reading(),
                Quoting::Basic,
            ),
    {
        let start = self.pos;
        let ghost src = self.source();
        let mut out = String::new();
        self.pos = self.pos + 1;
        let ghost goal = grammar::basic_rest(src, start as int, self.scan(out));
        proof {
            assert(text::utf8(out@) =~= Seq::<u8>::empty());
        }
        loop
            invariant_except_break
                grammar::basic_rest(src, start as int, self.scan(out)) == goal,
            invariant
                self.kept(*old(self)),
                src == self.source(),
                start == old(self).pos,
                start < self.pos,
                self.depth_limit_hit == old(self).depth_limit_hit,
            ensures
                self.scan(out) == goal,
            decreases self.src@.len() - self.pos,
        {
            let Some(c) = self.peek() else {
                let end = self.pos;
                self.error(start, end, "unclosed basic string");
                break;
            };
            if c == 34 {
                self.pos = self.pos + 1;
                break;
            } else if c == 92 {
                self.pos = self.pos + 1;
                self.parse_escape(&mut out, start);
            } else if c == 10 || c == 13 {
                self.pos = self.pos + 1;
                let end = self.pos;
                self.error(start, end, "unclosed basic string");
                break;
            } else {
                self.push_char(&mut out);
            }
        }
        let end = self.pos;
        ScalarSpan { span: self.span(start, end), text: out }
    }

    /// A literal string.
    fn parse_literal_string(&mut self) -> (r: ScalarSpan)
        requires
            old(self).wf(),
            old(self).source().at(old(self).reading().pos) is Some,
        ensures
            final(self).kept(*old(self)),
            final(self).pos > old(self).pos,
            (final(self).reading(), fm::scalar_view(r)) == grammar::string_at(
                old(self).source(),
                old(self).reading(),
                Quoting::Literal,
            ),
    {
        let start = self.pos;
        let ghost src = self.source();
        let mut out = String::new();
        self.pos = self.pos + 1;
        let ghost goal = grammar::literal_rest(src, start as int, self.scan(out));
        proof {
            assert(text::utf8(out@) =~= Seq::<u8>::empty());
        }
        loop
            invariant_except_break
                grammar::literal_rest(src, start as int, self.scan(out)) == goal,
            invariant
                self.kept(*old(self)),
                src == self.source(),
                start == old(self).pos,
                start < self.pos,
                self.depth_limit_hit == old(self).depth_limit_hit,
            ensures
                self.scan(out) == goal,
            decreases self.src@.len() - self.pos,
        {
            let Some(c) = self.peek() else {
                let end = self.pos;
                self.error(start, end, "unclosed literal string");
                break;
            };
            if c == 39 {
                self.pos = self.pos + 1;
                break;
            } else if c == 10 || c == 13 {
                self.pos = self.pos + 1;
                let end = self.pos;
                self.error(start, end, "unclosed literal string");
                break;
            } else {
                self.push_char(&mut out);
            }
        }
        let end = self.pos;
        ScalarSpan { span: self.span(start, end), text: out }
    }

    /// What a backslash in a multi-line string starts: a continuation or an escape.
    fn parse_backslash(&mut self, out: &mut String, start: usize)
        requires
            old(self).wf(),
            start <= old(self).pos,
        ensures
            final(self).kept(*old(self)),
            final(self).depth_limit_hit == old(self).depth_limit_hit,
            final(self).pos >= old(self).pos,
            ({
                let b = old(self).source().bytes;
                let p = grammar::blank_end(b, old(self).reading().pos);
                let s = old(self).scan(*old(out));
                final(self).scan(*final(out)) == (if grammar::full_break(b, p) {
                    s.moved(grammar::continuation_end(b, p))
                } else {
                    grammar::escape(old(self).source(), start as int, s)
                })
            }),
    {
        let saved = self.pos;
        self.skip_whitespace();
        if !self.full_break_at(self.pos) {
            self.pos = saved;
            self.parse_escape(out, start);
            return;
        }
        let ghost p = self.pos as int;
        while self.full_break_at(self.pos)
            invariant
                self.kept(*old(self)),
                self.pos >= p,
                p >= saved,
                self.depth_limit_hit == old(self).depth_limit_hit,
                self.diagnostics == old(self).diagnostics,
                grammar::continuation_end(self.src@, p) == grammar::continuation_end(
                    self.src@,
                    self.pos as int,
                ),
            decreases self.src@.len() - self.pos,
        {
            self.skip_newline();
            self.skip_whitespace();
        }
    }

    /// A multi-line basic string.
    fn parse_ml_basic_string(&mut self) -> (r: ScalarSpan)
        requires
            old(self).wf(),
            grammar::tripled(old(self).source().bytes, old(self).reading().pos, 34),
        ensures
            final(self).kept(*old(self)),
            final(self).pos > old(self).pos,
            (final(self).reading(), fm::scalar_view(r)) == grammar::string_at(
                old(self).source(),
                old(self).reading(),
                Quoting::MultiLineBasic,
            ),
    {
        let start = self.pos;
        let ghost src = self.source();
        let mut out = String::new();
        self.pos = self.pos + 3;
        if self.full_break_at(self.pos) {
            self.skip_newline();
        }
        let ghost goal = grammar::ml_basic_rest(src, start as int, self.scan(out));
        proof {
            assert(text::utf8(out@) =~= Seq::<u8>::empty());
        }
        loop
            invariant_except_break
                grammar::ml_basic_rest(src, start as int, self.scan(out)) == goal,
            invariant
                self.kept(*old(self)),
                src == self.source(),
                start == old(self).pos,
                start < self.pos,
                self.depth_limit_hit == old(self).depth_limit_hit,
            ensures
                self.scan(out) == goal,
            decreases self.src@.len() - self.pos,
        {
            let Some(c) = self.peek() else {
                let end = self.pos;
                self.error(start, end, "unclosed multi-line basic string");
                break;
            };
            if self.at_tripled(34) {
                self.pos = self.pos + 3;
                break;
            } else if c == 92 {
                self.pos = self.pos + 1;
                self.parse_backslash(&mut out, start);
            } else if c == 13 && self.full_break_at(self.pos) {
                self.pos = self.pos + 2;
                push_numbered(&mut out, '\n');
            } else {
                self.push_char(&mut out);
            }
        }
        let end = self.pos;
        ScalarSpan { span: self.span(start, end), text: out }
    }

    /// A multi-line literal string.
    fn parse_ml_literal_string(&mut self) -> (r: ScalarSpan)
        requires
            old(self).wf(),
            grammar::tripled(old(self).source().bytes, old(self).reading().pos, 39),
        ensures
            final(self).kept(*old(self)),
            final(self).pos > old(self).pos,
            (final(self).reading(), fm::scalar_view(r)) == grammar::string_at(
                old(self).source(),
                old(self).reading(),
                Quoting::MultiLineLiteral,
            ),
    {
        let start = self.pos;
        let ghost src = self.source();
        let mut out = String::new();
        self.pos = self.pos + 3;
        if self.full_break_at(self.pos) {
            self.skip_newline();
        }
        let ghost goal = grammar::ml_literal_rest(src, start as int, self.scan(out));
        proof {
            assert(text::utf8(out@) =~= Seq::<u8>::empty());
        }
        loop
            invariant_except_break
                grammar::ml_literal_rest(src, start as int, self.scan(out)) == goal,
            invariant
                self.kept(*old(self)),
                src == self.source(),
                start == old(self).pos,
                start < self.pos,
                self.depth_limit_hit == old(self).depth_limit_hit,
            ensures
                self.scan(out) == goal,
            decreases self.src@.len() - self.pos,
        {
            let Some(c) = self.peek() else {
                let end = self.pos;
                self.error(start, end, "unclosed multi-line literal string");
                break;
            };
            if self.at_tripled(39) {
                self.pos = self.pos + 3;
                break;
            } else if c == 13 && self.full_break_at(self.pos) {
                self.pos = self.pos + 2;
                push_numbered(&mut out, '\n');
            } else {
                self.push_char(&mut out);
            }
        }
        let end = self.pos;
        ScalarSpan { span: self.span(start, end), text: out }
    }
}

impl<'a> Parser<'a> {
    // Keys.

    fn parse_bare_key(&mut self) -> (r: ScalarSpan)
        requires
            old(self).wf(),
        ensures
            final(self).kept(*old(self)),
            final(self).pos >= old(self).pos,
            ({
                let src = old(self).source();
                let i = old(self).reading().pos;
                let end = grammar::bare_key_end(src.bytes, i);
                &&& final(self).reading() == old(self).reading().moved(end)
                &&& fm::scalar_view(r) == (fm::ScalarView {
                    span: src.span(i, end),
                    text: text::piece(src.bytes, i, end),
                })
            }),
    {
        let start = self.pos;
        while self.pos < self.src.len() && is_bare_key_char(self.src[self.pos])
            invariant
                self.kept(*old(self)),
                self.pos >= start,
                start == old(self).pos,
                self.reading() == old(self).reading().moved(self.pos as int),
                grammar::bare_key_end(self.src@, start as int) == grammar::bare_key_end(
                    self.src@,
                    self.pos as int,
                ),
            decreases self.src@.len() - self.pos,
        {
            self.pos = self.pos + 1;
        }
        let end = self.pos;
        ScalarSpan {
            span: self.span(start, end),
            text: text::owned(text::slice(self.content, start, end)),
        }
    }

    /// A key, where one follows.
    fn parse_key(&mut self) -> (r: Option<ScalarSpan>)
        requires
            old(self).wf(),
        ensures
            final(self).kept(*old(self)),
            final(self).pos >= old(self).pos,
            r is Some ==> final(self).pos > old(self).pos,
            ({
                let (next, key) = grammar::key_at(old(self).source(), old(self).reading());
                &&& final(self).reading() == next
                &&& match r {
                    Some(k) => key == Some(fm::scalar_view(k)),
                    None => key is None,
                }
            }),
    {
        self.skip_whitespace();
        if self.at_tripled(34) || self.at_tripled(39) {
            let start = self.pos;
            self.error(start, start + 3, "multi-line strings cannot be used as keys");
            self.skip_to_eol();
            return None;
        }
        match self.peek() {
            Some(34) => Some(self.parse_basic_string()),
            Some(39) => Some(self.parse_literal_string()),
            Some(c) => {
                if is_bare_key_char(c) {
                    let ghost i = self.pos as int;
                    proof {
                        lemma_bare_key_end(self.src@, i + 1);
                    }
                    Some(self.parse_bare_key())
                } else {
                    None
                }
            },
            None => None,
        }
    }

    /// A dotted key; no parts where no key follows.
    fn parse_dotted_key(&mut self) -> (r: Vec<ScalarSpan>)
        requires
            old(self).wf(),
        ensures
            final(self).kept(*old(self)),
            final(self).pos >= old(self).pos,
            r@.len() > 0 ==> final(self).pos > old(self).pos,
            (final(self).reading(), fm::scalar_views(r@)) == grammar::dotted_key(
                old(self).source(),
                old(self).reading(),
            ),
    {
        let ghost src = self.source();
        let ghost p0 = self.pos;
        let mut parts: Vec<ScalarSpan> = Vec::new();
        let Some(first) = self.parse_key() else {
            assert(fm::scalar_views(parts@) =~= Seq::<fm::ScalarView>::empty());
            return parts;
        };
        let ghost v = fm::scalar_view(first);
        parts.push(first);
        assert(fm::scalar_views(parts@) =~= seq![v]);
        let ghost goal = grammar::key_rest(src, self.reading(), seq![v]);
        while self.peek() == Some(46)
            invariant_except_break
                grammar::key_rest(src, self.reading(), fm::scalar_views(parts@)) == goal,
            invariant
                self.kept(*old(self)),
                src == self.source(),
                parts@.len() > 0,
                self.pos > p0,
                p0 == old(self).pos,
            ensures
                (self.reading(), fm::scalar_views(parts@)) == goal,
            decreases self.src@.len() - self.pos,
        {
            let ghost r1 = self.reading();
            let ghost before = fm::scalar_views(parts@);
            self.pos = self.pos + 1;
            self.skip_whitespace();
            match self.parse_key() {
                Some(part) => {
                    let ghost pv = fm::scalar_view(part);
                    parts.push(part);
                    assert(fm::scalar_views(parts@) =~= before.push(pv));
                },
                None => {
                    let start = self.pos;
                    self.error(start, start, "expected key after '.'");
                    break;
                },
            }
            self.skip_whitespace();
        }
        parts
    }

    // Values.

    /// An unquoted value, as written.
    fn parse_unquoted_value(&mut self) -> (r: ScalarSpan)
        requires
            old(self).wf(),
        ensures
            final(self).kept(*old(self)),
            final(self).pos >= old(self).pos,
            ({
                let src = old(self).source();
                let i = old(self).reading().pos;
                let end = grammar::plain_end(src.bytes, i);
                let t = lines::trimmed_end(text::piece(src.bytes, i, end));
                &&& final(self).reading() == old(self).reading().moved(end)
                &&& fm::scalar_view(r) == (fm::ScalarView { span: src.span(i, i + t.len()), text: t })
            }),
    {
        let start = self.pos;
        while self.pos < self.src.len() && !stops_value(self.src[self.pos])
            invariant
                self.kept(*old(self)),
                self.pos >= start,
                start == old(self).pos,
                self.reading() == old(self).reading().moved(self.pos as int),
                grammar::plain_end(self.src@, start as int) == grammar::plain_end(
                    self.src@,
                    self.pos as int,
                ),
            decreases self.src@.len() - self.pos,
        {
            self.pos = self.pos + 1;
        }
        let raw = text::slice(self.content, start, self.pos);
        let trimmed = lines::trim_end(raw);
        let n = trimmed.as_bytes().len();
        assert(n <= text::utf8(raw@).len() <= self.pos - start);
        ScalarSpan { span: self.span(start, start + n), text: text::owned(trimmed) }
    }

    /// A scalar.
    fn parse_value(&mut self) -> (r: ScalarSpan)
        requires
            old(self).wf(),
        ensures
            final(self).kept(*old(self)),
            final(self).pos >= old(self).pos,
            (final(self).reading(), fm::scalar_view(r)) == grammar::scalar_at(
                old(self).source(),
                old(self).reading(),
            ),
    {
        self.skip_whitespace();
        match self.peek() {
            Some(34) => {
                if self.at_tripled(34) {
                    self.parse_ml_basic_string()
                } else {
                    self.parse_basic_string()
                }
            },
            Some(39) => {
                if self.at_tripled(39) {
                    self.parse_ml_literal_string()
                } else {
                    self.parse_literal_string()
                }
            },
            _ => self.parse_unquoted_value(),
        }
    }

    // Values that are too deep.

    /// Report the nesting limit, once.
    fn note_depth_limit(&mut self)
        requires
            old(self).wf(),
        ensures
            final(self).kept(*old(self)),
            final(self).pos == old(self).pos,
            final(self).reading() == (if old(self).reading().limit_hit {
                old(self).reading()
            } else {
                Reading {
                    found: old(self).reading().found.push(
                        fm::FmDiagView {
                            span: old(self).source().span(
                                old(self).reading().pos,
                                old(self).reading().pos,
                            ),
                            severity: FmSeverity::Warning,
                            message: grammar::limit_message(),
                        },
                    ),
                    limit_hit: true,
                    ..old(self).reading()
                }
            }),
    {
        if !self.depth_limit_hit {
            self.depth_limit_hit = true;
            let pos = self.pos;
            let span = self.span(pos, pos);
            let mut message = text::owned("TOML nesting exceeds the limit of ");
            text::push_decimal(&mut message, MAX_FRONTMATTER_NESTING);
            text::push(&mut message, "; deeper structure is flattened");
            self.emit(span, FmSeverity::Warning, message);
        }
    }

    /// Past a quoted string.
    fn skip_string_raw(&mut self, quote: u8)
        requires
            old(self).wf(),
            old(self).pos < old(self).source().bytes.len(),
        ensures
            final(self).kept(*old(self)),
            final(self).pos > old(self).pos,
            final(self).reading() == old(self).reading().moved(
                grammar::raw_string_end(
                    old(self).source().bytes,
                    old(self).reading().pos + 1,
                    quote,
                ),
            ),
    {
        let ghost start = self.pos + 1;
        self.pos = self.pos + 1;
        while self.pos < self.src.len()
            invariant
                self.kept(*old(self)),
                self.pos >= start,
                start == old(self).pos + 1,
                self.reading() == old(self).reading().moved(self.pos as int),
                grammar::raw_string_end(self.src@, start, quote) == grammar::raw_string_end(
                    self.src@,
                    self.pos as int,
                    quote,
                ),
            decreases self.src@.len() - self.pos,
        {
            let c = self.src[self.pos];
            if c == quote {
                self.pos = self.pos + 1;
                return;
            }
            if c == 10 || c == 13 {
                return;
            }
            if c == 92 && quote == 34 {
                if self.src.len() - self.pos >= 2 {
                    self.pos = self.pos + 2;
                } else {
                    self.pos = self.src.len();
                }
            } else {
                self.pos = self.pos + 1;
            }
        }
    }

    /// Past a bracketed value.
    fn skip_balanced(&mut self)
        requires
            old(self).wf(),
        ensures
            final(self).kept(*old(self)),
            final(self).pos >= old(self).pos,
            old(self).pos < old(self).source().bytes.len() ==> final(self).pos > old(self).pos,
            final(self).reading() == old(self).reading().moved(
                grammar::balanced_end(old(self).source().bytes, old(self).reading().pos, 0),
            ),
    {
        let ghost start = self.pos as int;
        let mut depth: usize = 0;
        while self.pos < self.src.len()
            invariant
                self.kept(*old(self)),
                self.pos >= start,
                start == old(self).pos,
                depth <= self.pos - start,
                self.reading() == old(self).reading().moved(self.pos as int),
                grammar::balanced_end(self.src@, start, 0) == grammar::balanced_end(
                    self.src@,
                    self.pos as int,
                    depth as int,
                ),
            decreases self.src@.len() - self.pos,
        {
            let c = self.src[self.pos];
            if c == 34 || c == 39 {
                self.skip_string_raw(c);
            } else if c == 91 || c == 123 {
                depth = depth + 1;
                self.pos = self.pos + 1;
            } else if c == 93 || c == 125 {
                self.pos = self.pos + 1;
                if depth <= 1 {
                    return;
                }
                depth = depth - 1;
            } else {
                self.pos = self.pos + 1;
            }
        }
    }

    /// Pass over a value that is too deep.
    fn skip_too_deep(&mut self)
        requires
            old(self).wf(),
            old(self).pos < old(self).source().bytes.len(),
        ensures
            final(self).kept(*old(self)),
            final(self).pos > old(self).pos,
            final(self).reading() == grammar::too_deep(old(self).source(), old(self).reading()),
    {
        self.note_depth_limit();
        self.skip_balanced();
    }

    // Collections.

    /// An inline array.
    fn parse_inline_array(&mut self, depth: usize) -> (r: FmValue)
        requires
            old(self).wf(),
            old(self).pos < old(self).source().bytes.len(),
            depth <= MAX_FRONTMATTER_NESTING,
        ensures
            final(self).kept(*old(self)),
            final(self).pos > old(self).pos,
            (final(self).reading(), fm::value_view(r)) == grammar::array_at(
                old(self).source(),
                old(self).reading(),
                depth as nat,
            ),
        decreases grammar::room(depth as nat), old(self).src@.len() - old(self).pos, 0int,
    {
        let start = self.pos;
        let ghost src = self.source();
        if depth >= MAX_FRONTMATTER_NESTING {
            self.skip_too_deep();
            let end = self.pos;
            let items: Vec<ScalarSpan> = Vec::new();
            assert(fm::scalar_views(items@) =~= Seq::<fm::ScalarView>::empty());
            return FmValue::FlowSequence { span: self.span(start, end), items };
        }
        self.pos = self.pos + 1;
        let mut items: Vec<ScalarSpan> = Vec::new();
        assert(fm::scalar_views(items@) =~= Seq::<fm::ScalarView>::empty());
        let ghost goal = grammar::array_rest(
            src,
            start as int,
            self.reading(),
            (depth + 1) as nat,
            Seq::empty(),
        );
        loop
            invariant_except_break
                grammar::array_rest(
                    src,
                    start as int,
                    self.reading(),
                    (depth + 1) as nat,
                    fm::scalar_views(items@),
                ) == goal,
            invariant
                self.kept(*old(self)),
                src == self.source(),
                depth < MAX_FRONTMATTER_NESTING,
                start == old(self).pos,
                self.pos > start,
            ensures
                (self.reading(), fm::scalar_views(items@)) == goal,
            decreases self.src@.len() - self.pos,
        {
            self.skip_array_whitespace();
            let Some(c) = self.peek() else {
                let end = self.pos;
                self.error(start, end, "unclosed inline array");
                break;
            };
            let ghost before = fm::scalar_views(items@);
            if c == 93 {
                self.pos = self.pos + 1;
                break;
            } else if c == 44 {
                self.pos = self.pos + 1;
            } else if c == 91 {
                let nested = self.parse_inline_array(depth + 1);
                let ghost nv = fm::value_view(nested);
                if let FmValue::FlowSequence { items: more, .. } = nested {
                    let mut more = more;
                    let ghost mv = fm::scalar_views(more@);
                    items.append(&mut more);
                    assert(fm::scalar_views(items@) =~= before + mv);
                }
                proof {
                    assert(fm::scalar_views(items@) =~= before + grammar::flow_items(nv));
                }
            } else if c == 123 {
                self.parse_inline_table(depth + 1);
            } else {
                let at = self.pos;
                let scalar = self.parse_value();
                if self.pos == at {
                    self.pos = self.pos + 1;
                } else {
                    proof {
                        text::lemma_utf8_empty(scalar.text@);
                    }
                    if !scalar.text.as_str().is_empty() {
                        let ghost v = fm::scalar_view(scalar);
                        items.push(scalar);
                        assert(fm::scalar_views(items@) =~= before.push(v));
                    }
                }
            }
        }
        let end = self.pos;
        FmValue::FlowSequence { span: self.span(start, end), items }
    }

    /// An inline table.
    fn parse_inline_table(&mut self, depth: usize) -> (r: FmValue)
        requires
            old(self).wf(),
            old(self).pos < old(self).source().bytes.len(),
            depth <= MAX_FRONTMATTER_NESTING,
        ensures
            final(self).kept(*old(self)),
            final(self).pos > old(self).pos,
            (final(self).reading(), fm::value_view(r)) == grammar::table_at(
                old(self).source(),
                old(self).reading(),
                depth as nat,
            ),
        decreases grammar::room(depth as nat), old(self).src@.len() - old(self).pos, 0int,
    {
        let start = self.pos;
        let ghost src = self.source();
        let mut entries: Vec<FmNode> = Vec::new();
        assert(fm::node_views(entries@) =~= Seq::<fm::NodeView>::empty());
        if depth >= MAX_FRONTMATTER_NESTING {
            self.skip_too_deep();
            return FmValue::Mapping(entries);
        }
        self.pos = self.pos + 1;
        let ghost goal = grammar::table_rest(
            src,
            start as int,
            self.reading(),
            (depth + 1) as nat,
            Seq::empty(),
        );
        loop
            invariant_except_break
                grammar::table_rest(
                    src,
                    start as int,
                    self.reading(),
                    (depth + 1) as nat,
                    fm::node_views(entries@),
                ) == goal,
            invariant
                self.kept(*old(self)),
                src == self.source(),
                depth < MAX_FRONTMATTER_NESTING,
                start == old(self).pos,
                self.pos > start,
            ensures
                (self.reading(), fm::node_views(entries@)) == goal,
            decreases self.src@.len() - self.pos,
        {
            self.skip_whitespace();
            let c = self.peek();
            if c.is_none() || c == Some(10) || c == Some(13) {
                let end = self.pos;
                self.error(start, end, "unclosed inline table");
                break;
            } else if c == Some(125) {
                self.pos = self.pos + 1;
                break;
            } else if c == Some(44) {
                self.pos = self.pos + 1;
            } else {
                let at = self.pos;
                let parts = self.parse_dotted_key();
                assert(fm::scalar_views(parts@).len() == parts@.len());
                if parts.len() == 0 {
                    self.skip_to_eol();
                    break;
                }
                self.skip_whitespace();
                if self.peek() == Some(61) {
                    self.pos = self.pos + 1;
                }
                self.skip_whitespace();
                let value = self.parse_value_or_collection(depth + 1);
                let end = self.pos;
                let node = self.build_dotted_entry(&parts, value, at, end);
                proof {
                    fm::lemma_node_views_push(entries@, node);
                }
                entries.push(node);
            }
        }
        FmValue::Mapping(entries)
    }

    /// A value.
    fn parse_value_or_collection(&mut self, depth: usize) -> (r: FmValue)
        requires
            old(self).wf(),
            depth <= MAX_FRONTMATTER_NESTING,
        ensures
            final(self).kept(*old(self)),
            final(self).pos >= old(self).pos,
            (final(self).reading(), fm::value_view(r)) == grammar::value_at(
                old(self).source(),
                old(self).reading(),
                depth as nat,
            ),
        decreases grammar::room(depth as nat), old(self).src@.len() - old(self).pos, 1int,
    {
        self.skip_whitespace();
        match self.peek() {
            Some(91) => self.parse_inline_array(depth),
            Some(123) => self.parse_inline_table(depth),
            _ => FmValue::Scalar(self.parse_value()),
        }
    }

    // Entries.

    /// An entry under a dotted key.
    fn build_dotted_entry(
        &self,
        parts: &Vec<ScalarSpan>,
        value: FmValue,
        start: usize,
        end: usize,
    ) -> (r: FmNode)
        requires
            self.wf(),
            parts@.len() > 0,
            start <= self.source().bytes.len(),
            end <= self.source().bytes.len(),
        ensures
            fm::node_view(r) == grammar::nested_entry(
                self.source(),
                fm::scalar_views(parts@),
                fm::value_view(value),
                start as int,
                end as int,
            ),
    {
        let ghost src = self.source();
        let ghost views = fm::scalar_views(parts@);
        let ghost v = fm::value_view(value);
        let mut k: usize = parts.len() - 1;
        let mut node = FmNode::Mapping {
            key: parts[k].copied(),
            value,
            span: if k == 0 {
                self.span(start, end)
            } else {
                Span { start: parts[k].span.start, end: self.base + end }
            },
        };
        proof {
            assert(views[k as int] == fm::scalar_view(parts@[k as int]));
        }
        while k > 0
            invariant
                k < parts@.len(),
                self.wf(),
                src == self.source(),
                start <= src.bytes.len(),
                end <= src.bytes.len(),
                views == fm::scalar_views(parts@),
                fm::node_view(node) == grammar::entry_under(
                    src,
                    views,
                    k as int,
                    v,
                    start as int,
                    end as int,
                ),
            decreases k,
        {
            let ghost inner_view = fm::node_view(node);
            k -= 1;
            let mut inner: Vec<FmNode> = Vec::new();
            proof {
                assert(fm::node_views(inner@) =~= Seq::<fm::NodeView>::empty());
                fm::lemma_node_views_push(inner@, node);
            }
            inner.push(node);
            assert(fm::node_views(inner@) =~= seq![inner_view]);
            node = FmNode::Mapping {
                key: parts[k].copied(),
                value: FmValue::Mapping(inner),
                span: if k == 0 {
                    self.span(start, end)
                } else {
                    Span { start: parts[k].span.start, end: self.base + end }
                },
            };
            proof {
                assert(views[k as int] == fm::scalar_view(parts@[k as int]));
            }
        }
        node
    }

    /// The entry of a table.
    fn build_table_entry(
        &self,
        parts: &Vec<ScalarSpan>,
        body: Vec<FmNode>,
        start: usize,
        end: usize,
    ) -> (r: FmNode)
        requires
            self.wf(),
            parts@.len() > 0,
            start <= self.source().bytes.len(),
            end <= self.source().bytes.len(),
        ensures
            fm::node_view(r) == grammar::nested_entry(
                self.source(),
                fm::scalar_views(parts@),
                fm::ValueView::Mapping(fm::node_views(body@)),
                start as int,
                end as int,
            ),
    {
        self.build_dotted_entry(parts, FmValue::Mapping(body), start, end)
    }

    /// The entry of one element of an array of tables.
    fn build_array_table_entry(
        &self,
        parts: &Vec<ScalarSpan>,
        body: Vec<FmNode>,
        start: usize,
        end: usize,
    ) -> (r: FmNode)
        requires
            self.wf(),
            parts@.len() > 0,
            start <= self.source().bytes.len(),
            end <= self.source().bytes.len(),
        ensures
            fm::node_view(r) == grammar::nested_entry(
                self.source(),
                fm::scalar_views(parts@),
                fm::ValueView::Sequence(
                    seq![
                        fm::NodeView::SequenceItem {
                            value: fm::ValueView::Mapping(fm::node_views(body@)),
                            span: self.source().span(start as int, end as int),
                        },
                    ],
                ),
                start as int,
                end as int,
            ),
    {
        let item = FmNode::SequenceItem {
            value: FmValue::Mapping(body),
            span: self.span(start, end),
        };
        let ghost iv = fm::node_view(item);
        let mut items: Vec<FmNode> = Vec::new();
        proof {
            assert(fm::node_views(items@) =~= Seq::<fm::NodeView>::empty());
            fm::lemma_node_views_push(items@, item);
        }
        items.push(item);
        assert(fm::node_views(items@) =~= seq![iv]);
        self.build_dotted_entry(parts, FmValue::Sequence(items), start, end)
    }
}

impl<'a> Parser<'a> {
    // Tables.

    /// A header of one bracket, or of two for an array of tables.
    fn parse_header(&mut self, brackets: usize) -> (r: Vec<ScalarSpan>)
        requires
            old(self).wf(),
            brackets == 1 || brackets == 2,
            old(self).pos + brackets <= old(self).source().bytes.len(),
        ensures
            final(self).kept(*old(self)),
            final(self).pos > old(self).pos,
            (final(self).reading(), fm::scalar_views(r@)) == grammar::header_at(
                old(self).source(),
                old(self).reading(),
                brackets as int,
            ),
    {
        self.pos = self.pos + brackets;
        self.skip_whitespace();
        let parts = self.parse_dotted_key();
        self.skip_whitespace();
        let closed = self.peek() == Some(93) && (brackets == 1 || self.peek_at(1) == Some(93));
        if closed {
            self.pos = self.pos + brackets;
        } else {
            let at = self.pos;
            let message: &str = if brackets == 1 {
                "expected ']' to close table header"
            } else {
                "expected ']]' to close array-of-tables header"
            };
            self.error(at, at, message);
        }
        self.skip_trailer();
        parts
    }

    fn parse_table_header(&mut self) -> (r: Vec<ScalarSpan>)
        requires
            old(self).wf(),
            old(self).pos < old(self).source().bytes.len(),
        ensures
            final(self).kept(*old(self)),
            final(self).pos > old(self).pos,
            (final(self).reading(), fm::scalar_views(r@)) == grammar::header_at(
                old(self).source(),
                old(self).reading(),
                1,
            ),
    {
        self.parse_header(1)
    }

    fn parse_array_table_header(&mut self) -> (r: Vec<ScalarSpan>)
        requires
            old(self).wf(),
            old(self).pos + 2 <= old(self).source().bytes.len(),
        ensures
            final(self).kept(*old(self)),
            final(self).pos > old(self).pos,
            (final(self).reading(), fm::scalar_views(r@)) == grammar::header_at(
                old(self).source(),
                old(self).reading(),
                2,
            ),
    {
        self.parse_header(2)
    }

    /// The entries up to the next header or the end.
    fn parse_table_body(&mut self) -> (r: Vec<FmNode>)
        requires
            old(self).wf(),
        ensures
            final(self).kept(*old(self)),
            final(self).pos >= old(self).pos,
            (final(self).reading(), fm::node_views(r@)) == grammar::body_rest(
                old(self).source(),
                old(self).reading(),
                Seq::empty(),
            ),
    {
        let ghost src = self.source();
        let ghost goal = grammar::body_rest(src, self.reading(), Seq::empty());
        let mut entries: Vec<FmNode> = Vec::new();
        assert(fm::node_views(entries@) =~= Seq::<fm::NodeView>::empty());
        loop
            invariant
                self.kept(*old(self)),
                src == self.source(),
                self.pos >= old(self).pos,
                goal == grammar::body_rest(
                    old(self).source(),
                    old(self).reading(),
                    Seq::empty(),
                ),
                grammar::body_rest(src, self.reading(), fm::node_views(entries@)) == goal,
            decreases self.src@.len() - self.pos,
        {
            let ghost p0 = self.pos;
            self.skip_blanks();
            if self.at_end() || self.peek() == Some(91) {
                return entries;
            }
            let at = self.pos;
            let parts = self.parse_dotted_key();
            assert(fm::scalar_views(parts@).len() == parts@.len());
            if parts.len() == 0 {
                let from = self.pos;
                proof {
                    if from == at {
                        grammar::lemma_line_end(self.src@, from + 1);
                    }
                }
                self.skip_to_eol();
                let end = self.pos;
                if end != from {
                    self.error(from, end, "expected key");
                }
                self.skip_newline();
                continue ;
            }
            self.skip_whitespace();
            if self.peek() != Some(61) {
                let here = self.pos;
                let end: usize = if here < self.src.len() {
                    here + 1
                } else {
                    here
                };
                self.error(here, end, "expected '='");
                self.skip_to_eol();
                self.skip_newline();
                continue ;
            }
            self.pos = self.pos + 1;
            self.skip_whitespace();
            let value = self.parse_value_or_collection(0);
            self.skip_trailer();
            let end = self.pos;
            let node = self.build_dotted_entry(&parts, value, at, end);
            proof {
                fm::lemma_node_views_push(entries@, node);
            }
            entries.push(node);
        }
    }

    // The document.

    /// Let a plain entry or a table join the document.
    fn check_duplicate_and_push(&mut self, node: FmNode)
        requires
            old(self).wf(),
        ensures
            final(self).wf(),
            final(self).source() == old(self).source(),
            final(self).reading().pos == old(self).reading().pos,
            (final(self).doc(), final(self).reading()) == grammar::joined(
                old(self).doc(),
                old(self).reading(),
                fm::node_view(node),
            ),
    {
        let ghost v = fm::node_view(node);
        let ghost doc0 = self.doc();
        if let FmNode::Mapping { key, .. } = &node {
            if self.seen_keys.contains_key(key.text.as_str()) {
                let mut message = text::owned("duplicate key: ");
                text::push(&mut message, key.text.as_str());
                self.emit(key.span, FmSeverity::Error, message);
                return;
            }
            self.seen_keys.insert(key.text.clone(), ());
            proof {
                assert(self.seen_keys@.dom() =~= doc0.taken.insert(
                    fm::scalar_view(*key).text,
                ));
            }
        }
        proof {
            fm::lemma_node_views_push(self.root@, node);
        }
        self.root.push(node);
    }

    /// The first entry with a key.
    fn find_entry(&self, key: &str) -> (r: Option<usize>)
        ensures
            match r {
                Some(k) => grammar::entry_with(self.doc().entries, text::utf8(key@), 0) == Some(
                    k as int,
                ) && k < self.root@.len(),
                None => grammar::entry_with(self.doc().entries, text::utf8(key@), 0) is None,
            },
    {
        let ghost entries = self.doc().entries;
        let mut k: usize = 0;
        while k < self.root.len()
            invariant
                entries == fm::node_views(self.root@),
                k <= self.root@.len(),
                grammar::entry_with(entries, text::utf8(key@), 0) == grammar::entry_with(
                    entries,
                    text::utf8(key@),
                    k as int,
                ),
            decreases self.root@.len() - k,
        {
            assert(entries[k as int] == fm::node_view(self.root@[k as int]));
            if let FmNode::Mapping { key: found, .. } = &self.root[k] {
                if text::same(found.text.as_str(), key) {
                    return Some(k);
                }
            }
            k += 1;
        }
        None
    }

    /// Let an element of an array of tables join the document.
    fn merge_array_table(&mut self, node: FmNode)
        requires
            old(self).wf(),
        ensures
            final(self).wf(),
            final(self).source() == old(self).source(),
            final(self).reading().pos == old(self).reading().pos,
            (final(self).doc(), final(self).reading()) == grammar::merged(
                old(self).doc(),
                old(self).reading(),
                fm::node_view(node),
            ),
    {
        let ghost v = fm::node_view(node);
        let ghost doc0 = self.doc();
        let FmNode::Mapping { key, value, span } = node else {
            return;
        };
        let Some(k) = self.find_entry(key.text.as_str()) else {
            let node = FmNode::Mapping { key, value, span };
            proof {
                fm::lemma_node_views_push(self.root@, node);
            }
            self.root.push(node);
            return;
        };
        let ghost root0 = self.root@;
        assert(doc0.entries[k as int] == fm::node_view(root0[k as int]));
        let is_array = match &self.root[k] {
            FmNode::Mapping { value: FmValue::Sequence(_), .. } => true,
            _ => false,
        };
        let grows = match &value {
            FmValue::Sequence(_) => true,
            _ => false,
        };
        if is_array && grows {
            let old_node = self.root.remove(k);
            let FmNode::Mapping { key: old_key, value: old_value, span: old_span } = old_node else {
                return;
            };
            if let FmValue::Sequence(old_items) = old_value {
                if let FmValue::Sequence(new_items) = value {
                    let mut items = old_items;
                    let mut more = new_items;
                    let ghost a = fm::node_views(items@);
                    let ghost b = fm::node_views(more@);
                    items.append(&mut more);
                    assert(fm::node_views(items@) =~= a + b);
                    let grown = FmNode::Mapping {
                        key: old_key,
                        value: FmValue::Sequence(items),
                        span: Span { start: old_span.start, end: span.end },
                    };
                    let ghost gv = fm::node_view(grown);
                    self.root.insert(k, grown);
                    proof {
                        assert(fm::node_views(self.root@) =~= doc0.entries.update(k as int, gv));
                    }
                }
            }
            return;
        }
        let mut message = text::owned("duplicate key: ");
        text::push(&mut message, key.text.as_str());
        self.emit(key.span, FmSeverity::Error, message);
    }

    /// Parse the whole text.
    pub fn parse(&mut self)
        requires
            old(self).wf(),
            old(self).reading() == (Reading { pos: 0, found: Seq::empty(), limit_hit: false }),
            old(self).doc() == (Document { entries: Seq::empty(), taken: Set::empty() }),
        ensures
            final(self).wf(),
            final(self).source() == old(self).source(),
            (final(self).doc(), final(self).reading()) == grammar::document(
                old(self).source(),
            ),
    {
        let ghost src = self.source();
        let ghost doc0 = self.doc();
        let top = self.parse_table_body();
        let ghost r1 = self.reading();
        let ghost views = fm::node_views(top@);
        let ghost mut n: int = 0;
        assert(views.take(0) =~= Seq::<fm::NodeView>::empty());
        for entry in it: top
            invariant
                self.wf(),
                self.source() == src,
                views == fm::node_views(it.seq()),
                n == it.index(),
                (self.doc(), self.reading()) == grammar::all_joined(doc0, r1, views.take(n)),
        {
            proof {
                assert(views.take(n + 1).drop_last() =~= views.take(n));
                assert(views.take(n + 1).last() == fm::node_view(entry));
                n = n + 1;
            }
            self.check_duplicate_and_push(entry);
        }
        assert(views.take(n) =~= views);
        let ghost goal = grammar::tables_rest(src, self.doc(), self.reading());
        while self.peek() == Some(91)
            invariant
                self.wf(),
                self.source() == src,
                grammar::tables_rest(src, self.doc(), self.reading()) == goal,
            decreases self.src@.len() - self.pos,
        {
            let at = self.pos;
            if self.peek_at(1) == Some(91) {
                let parts = self.parse_array_table_header();
                let body = self.parse_table_body();
                assert(fm::scalar_views(parts@).len() == parts@.len());
                if parts.len() > 0 {
                    let end = self.pos;
                    let node = self.build_array_table_entry(&parts, body, at, end);
                    self.merge_array_table(node);
                }
            } else {
                let parts = self.parse_table_header();
                let body = self.parse_table_body();
                assert(fm::scalar_views(parts@).len() == parts@.len());
                if parts.len() > 0 {
                    let end = self.pos;
                    let node = self.build_table_entry(&parts, body, at, end);
                    self.check_duplicate_and_push(node);
                }
            }
        }
    }
}

/// Whether a byte belongs to an unquoted key.
fn is_bare_key_char(c: u8) -> (r: bool)
    ensures
        r == grammar::bare_key_byte(c),
{
    (48 <= c && c <= 57) || (65 <= c && c <= 90) || (97 <= c && c <= 122) || c == 45 || c == 95
}

fn stops_value(c: u8) -> (r: bool)
    ensures
        r == (c == 10 || c == 13 || c == 35 || c == 44 || c == 93 || c == 125),
{
    c == 10 || c == 13 || c == 35 || c == 44 || c == 93 || c == 125
}

proof fn lemma_bare_key_end(b: Seq<u8>, i: int)
    requires
        0 <= i <= b.len(),
    ensures
        i <= grammar::bare_key_end(b, i) <= b.len(),
    decreases b.len() - i,
{
    if i < b.len() && grammar::bare_key_byte(b[i]) {
        lemma_bare_key_end(b, i + 1);
    }
}

proof fn lemma_blank_stops(b: Seq<u8>, i: int)
    requires
        0 <= i <= b.len(),
    ensures
        i <= grammar::blank_end(b, i) <= b.len(),
        grammar::blank_end(b, i) < b.len() ==> b[grammar::blank_end(b, i)] != 32 && b[
        grammar::blank_end(b, i)] != 9,
    decreases b.len() - i,
{
    if i < b.len() && (b[i] == 32 || b[i] == 9) {
        lemma_blank_stops(b, i + 1);
    }
}

proof fn lemma_hex_room(k: nat, code: int, v: int)
    requires
        k < 8,
        0 <= code < vstd::arithmetic::power::pow(16, k),
        0 <= v < 16,
    ensures
        code * 16 + v < vstd::arithmetic::power::pow(16, k + 1),
        code * 16 + v <= u32::MAX,
{
    reveal_with_fuel(vstd::arithmetic::power::pow, 10);
}

} // verus!

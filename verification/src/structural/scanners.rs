//! Scanning the text of paragraphs and table cells for bare URLs, quoted paths
//! and backticked paths.
use vstd::prelude::*;
use crate::block::{ElementKind, Node, Tree};
use crate::config::BarePathPolicy;
use crate::diagnostic::{Diagnostic, Severity};
use crate::lines;
use crate::span::Span;
use crate::structural::ledger;
use crate::structural::ledger::{Emission, ExceptionLookup};
use crate::structural::references;
use crate::structural::references::{Scene, SceneView};
use crate::text;

verus! {

/// Whether an offset falls in one of the spans.
pub open spec fn excluded_at(pos: int, excluded: Seq<Span>) -> bool {
    exists|k: int|
        0 <= k < excluded.len() && (#[trigger] excluded[k]).start <= pos < excluded[k].end
}

pub(crate) fn is_excluded(pos: usize, excluded: &Vec<Span>) -> (r: bool)
    ensures
        r == excluded_at(pos as int, excluded@),
{
    let mut k: usize = 0;
    while k < excluded.len()
        invariant
            k <= excluded@.len(),
            forall|j: int|
                0 <= j < k ==> !((#[trigger] excluded@[j]).start <= pos < excluded@[j].end),
        decreases excluded@.len() - k,
    {
        if excluded[k].start <= pos && pos < excluded[k].end {
            return true;
        }
        k += 1;
    }
    false
}

// Bare URLs.

/// Where a URL that runs through offset `i` stops: at white space or a closing
/// bracket.
pub open spec fn url_stop(b: Seq<u8>, i: int) -> int
    decreases b.len() - i,
{
    if i < 0 || i >= b.len() {
        b.len() as int
    } else if lines::space_len(b, i) > 0 || b[i] == 41 || b[i] == 93 || b[i] == 62 {
        i
    } else {
        url_stop(b, i + 1)
    }
}

/// Punctuation that ends a sentence rather than a URL.
pub open spec fn sentence_mark(c: u8) -> bool {
    c == 46 || c == 44 || c == 59 || c == 58 || c == 33 || c == 63
}

/// The end of a URL that stops at `end`, without the punctuation before it.
pub open spec fn url_end(b: Seq<u8>, start: int, end: int) -> int
    decreases end - start,
{
    if start < end <= b.len() && sentence_mark(b[end - 1]) {
        url_end(b, start, end - 1)
    } else {
        end
    }
}

/// The message about a bare URL.
pub open spec fn url_message(url: Seq<u8>) -> Seq<u8> {
    text::utf8("bare URL `"@) + url + text::utf8(
        "`: wrap in angle brackets or make a markdown link"@,
    )
}

/// A line of text in the source: its bytes, where it starts and its number.
pub struct LineView {
    pub bytes: Seq<u8>,
    pub start: int,
    pub number: nat,
}

/// What is said of a URL that starts at offset `at` of a line: nothing inside an
/// excluded span, nor where no more than the scheme is left.
pub open spec fn url_mention(
    scene: SceneView,
    line: LineView,
    excluded: Seq<Span>,
    scheme: Seq<u8>,
    at: int,
) -> Seq<Emission> {
    let url = text::piece(line.bytes, at, url_end(line.bytes, at, url_stop(line.bytes, at)));
    if excluded_at(line.start + at, excluded) || url.len() <= scheme.len() {
        Seq::empty()
    } else {
        let span = Span {
            start: (line.start + at) as usize,
            end: (line.start + at + url.len()) as usize,
        };
        seq![Emission::Plain(
            references::found(
                scene,
                line.number,
                references::nudge_severity(scene.config.policy.bare_paths, Severity::Warning),
                url_message(url),
                Some(span),
            ),
        )]
    }
}

/// What is said of the URLs of one scheme from offset `from` on.
pub open spec fn url_mentions(
    scene: SceneView,
    line: LineView,
    excluded: Seq<Span>,
    scheme: Seq<u8>,
    from: int,
) -> Seq<Emission>
    decreases line.bytes.len() - from,
{
    match text::first_match(line.bytes, from, scheme) {
        None => Seq::empty(),
        Some(at) => if scheme.len() == 0 {
            Seq::empty()
        } else {
            proof {
                text::lemma_first_match(line.bytes, from, scheme);
            }
            url_mention(scene, line, excluded, scheme, at) + url_mentions(
                scene,
                line,
                excluded,
                scheme,
                at + scheme.len(),
            )
        },
    }
}

/// What is said of the bare URLs of a line.
pub open spec fn line_urls(scene: SceneView, line: LineView, excluded: Seq<Span>) -> Seq<Emission> {
    url_mentions(scene, line, excluded, text::utf8("https://"@), 0) + url_mentions(
        scene,
        line,
        excluded,
        text::utf8("http://"@),
        0,
    )
}

fn find_url_end(b: &[u8], start: usize) -> (r: usize)
    requires
        start <= b@.len(),
    ensures
        r == url_end(b@, start as int, url_stop(b@, start as int)),
        start <= r <= b@.len(),
{
    let mut i: usize = start;
    while i < b.len()
        invariant_except_break
            url_stop(b@, start as int) == url_stop(b@, i as int),
        invariant
            start <= i <= b@.len(),
        ensures
            i == url_stop(b@, start as int),
        decreases b@.len() - i,
    {
        let c = b[i];
        if lines::space_at(b, i) > 0 || c == 41 || c == 93 || c == 62 {
            break;
        }
        i += 1;
    }
    while i > start
        invariant_except_break
            url_end(b@, start as int, url_stop(b@, start as int)) == url_end(
                b@,
                start as int,
                i as int,
            ),
        invariant
            start <= i <= b@.len(),
        ensures
            i == url_end(b@, start as int, url_stop(b@, start as int)),
        decreases i,
    {
        let c = b[i - 1];
        if !(c == 46 || c == 44 || c == 59 || c == 58 || c == 33 || c == 63) {
            break;
        }
        i -= 1;
    }
    i
}

/// A line as the scanners take it.
struct Line<'a> {
    text: &'a str,
    start: usize,
    number: usize,
}

impl<'a> Line<'a> {
    spec fn view(self) -> LineView {
        LineView {
            bytes: text::utf8(self.text@),
            start: self.start as int,
            number: self.number as nat,
        }
    }

    spec fn fits(self) -> bool {
        self.start + text::utf8(self.text@).len() <= usize::MAX
    }
}

fn scan_line_for_scheme(
    scene: &Scene<'_>,
    line: &Line<'_>,
    scheme: &str,
    excluded: &Vec<Span>,
    lookup: &ExceptionLookup<'_>,
    out: &mut Vec<Diagnostic>,
)
    requires
        lookup.wf(),
        line.fits(),
        text::utf8(scheme@).len() > 0,
    ensures
        ledger::stepped(
            *lookup,
            old(out)@,
            *lookup,
            final(out)@,
            url_mentions(scene@, line.view(), excluded@, text::utf8(scheme@), 0),
        ),
{
    let b = line.text.as_bytes();
    let p = scheme.as_bytes();
    let ghost o0 = out@;
    let ghost goal = url_mentions(scene@, line.view(), excluded@, p@, 0);
    let ghost mut done: Seq<Emission> = Seq::empty();
    let mut from: usize = 0;
    proof {
        ledger::lemma_stepped_nothing(*lookup, o0);
        assert(done + goal =~= goal);
    }
    loop
        invariant
            done + url_mentions(scene@, line.view(), excluded@, p@, from as int) == goal,
            goal == url_mentions(scene@, line.view(), excluded@, p@, 0),
            from <= b@.len(),
            b@ == text::utf8(line.text@),
            p@ == text::utf8(scheme@),
            p@.len() > 0,
            lookup.wf(),
            line.fits(),
            ledger::stepped(*lookup, o0, *lookup, out@, done),
            o0 == old(out)@,
        decreases b@.len() - from,
    {
        let Some(at) = text::find(b, from, p) else {
            assert(done + Seq::<Emission>::empty() =~= done);
            return;
        };
        let ghost one = url_mention(scene@, line.view(), excluded@, p@, at as int);
        let ghost rest = url_mentions(scene@, line.view(), excluded@, p@, at + p@.len());
        proof {
            assert((done + one) + rest =~= done + (one + rest));
        }
        let abs_pos = line.start + at;
        let end = find_url_end(b, at);
        let url = text::slice(line.text, at, end);
        let n = url.as_bytes().len();
        let ghost o1 = out@;
        if !is_excluded(abs_pos, excluded) && n > p.len() {
            let mut message = text::owned("bare URL `");
            text::push(&mut message, url);
            text::push(&mut message, "`: wrap in angle brackets or make a markdown link");
            let severity = references::bare_path_severity(
                scene.config.policy.bare_paths,
                Severity::Warning,
            );
            let span = Span { start: abs_pos, end: abs_pos + n };
            let d = references::diagnostic_at(scene, line.number, severity, message, Some(span));
            let ghost dd = d;
            out.push(d);
            proof {
                ledger::lemma_stepped_plain(*lookup, o1, dd);
                assert(one =~= seq![Emission::Plain(dd@)]);
            }
        } else {
            proof {
                ledger::lemma_stepped_nothing(*lookup, o1);
                assert(one =~= Seq::<Emission>::empty());
            }
        }
        proof {
            ledger::lemma_stepped_concat(*lookup, o0, *lookup, o1, *lookup, out@, done, one);
            done = done + one;
        }
        from = at + p.len();
    }
}

fn scan_line_for_bare_urls(
    scene: &Scene<'_>,
    line: &Line<'_>,
    excluded: &Vec<Span>,
    lookup: &ExceptionLookup<'_>,
    out: &mut Vec<Diagnostic>,
)
    requires
        lookup.wf(),
        line.fits(),
    ensures
        ledger::stepped(
            *lookup,
            old(out)@,
            *lookup,
            final(out)@,
            line_urls(scene@, line.view(), excluded@),
        ),
{
    let ghost o0 = out@;
    proof {
        reveal_strlit("https://");
        reveal_strlit("http://");
        text::lemma_utf8_empty("https://"@);
        text::lemma_utf8_empty("http://"@);
    }
    scan_line_for_scheme(scene, line, "https://", excluded, lookup, out);
    let ghost o1 = out@;
    scan_line_for_scheme(scene, line, "http://", excluded, lookup, out);
    proof {
        ledger::lemma_stepped_concat(
            *lookup,
            o0,
            *lookup,
            o1,
            *lookup,
            out@,
            url_mentions(scene@, line.view(), excluded@, text::utf8("https://"@), 0),
            url_mentions(scene@, line.view(), excluded@, text::utf8("http://"@), 0),
        );
    }
}

// Quoted paths.

/// Whether Unicode counts `c` among letters and digits.
pub uninterp spec fn char_is_alphanumeric(c: char) -> bool;

/// `char::is_alphanumeric` of std: whether a character has the Unicode property
/// Alphabetic or a numeric general category. Nothing more is said of which
/// characters those are.
#[verifier::external_body]
fn is_alphanumeric(c: char) -> (r: bool)
    ensures
        r == char_is_alphanumeric(c),
{
    c.is_alphanumeric()
}

/// Whether a quote at `i` has white space, an opening parenthesis or the start
/// of the line before it.
pub open spec fn opens_at(b: Seq<u8>, i: int) -> bool {
    i == 0 || lines::space_len_before(b, i) > 0 || b[i - 1] == 40
}

/// Whether a letter or digit starts at `i`.
pub open spec fn word_at(b: Seq<u8>, i: int) -> bool {
    let rest = vstd::utf8::decode_utf8(text::piece(b, i, b.len() as int));
    rest.len() > 0 && char_is_alphanumeric(rest[0])
}

/// Whether the quote at `i` can open or close a quotation, given whether a letter
/// or digit follows it. A double quote always can. A single quote is an apostrophe
/// unless it stands at a word boundary.
pub open spec fn delimits_before(
    b: Seq<u8>,
    i: int,
    quote: u8,
    opening: bool,
    word_follows: bool,
) -> bool {
    if quote == 34 {
        true
    } else if opening {
        opens_at(b, i)
    } else {
        !word_follows
    }
}

/// Whether the quote at `i` can open or close a quotation.
pub open spec fn delimits(b: Seq<u8>, i: int, quote: u8, opening: bool) -> bool {
    delimits_before(b, i, quote, opening, word_at(b, i + 1))
}

/// The first closing quote at or after `from`.
pub open spec fn closing_quote(b: Seq<u8>, from: int, quote: u8) -> Option<int>
    decreases b.len() - from,
{
    if from < 0 || from >= b.len() {
        None
    } else if b[from] == quote && delimits(b, from, quote, false) {
        Some(from)
    } else {
        closing_quote(b, from + 1, quote)
    }
}

/// A closing quote found from `from` on lies at or after `from`.
pub proof fn lemma_closing_quote(b: Seq<u8>, from: int, quote: u8)
    ensures
        closing_quote(b, from, quote) matches Some(i) ==> from <= i < b.len(),
    decreases b.len() - from,
{
    if 0 <= from < b.len() {
        lemma_closing_quote(b, from + 1, quote);
    }
}

fn prev_is_boundary(b: &[u8], i: usize) -> (r: bool)
    requires
        i <= b@.len(),
    ensures
        r == opens_at(b@, i as int),
{
    i == 0 || lines::space_before(b, i) > 0 || b[i - 1] == 40
}

fn next_is_alphanumeric(line: &str, i: usize) -> (r: bool)
    ensures
        r == word_at(text::utf8(line@), i as int),
{
    let b = line.as_bytes();
    let rest = text::slice(line, i, b.len());
    proof {
        vstd::utf8::encode_utf8_decode_utf8(rest@);
        text::lemma_utf8_empty(rest@);
    }
    if rest.is_empty() {
        false
    } else {
        is_alphanumeric(rest.get_char(0))
    }
}

/// Test whether a quote can open or close a quotation, given what follows it.
pub fn quote_delimits(line: &str, i: usize, quote: u8, opening: bool, word_follows: bool) -> (r: bool)
    requires
        i < text::utf8(line@).len(),
    ensures
        r == delimits_before(text::utf8(line@), i as int, quote, opening, word_follows),
{
    if quote == 34 {
        true
    } else if opening {
        prev_is_boundary(line.as_bytes(), i)
    } else {
        !word_follows
    }
}

pub(crate) fn is_quote_delimiter(line: &str, i: usize, quote: u8, opening: bool) -> (r: bool)
    requires
        i < text::utf8(line@).len(),
    ensures
        r == delimits(text::utf8(line@), i as int, quote, opening),
{
    let end = line.as_bytes().len();
    assert(i < end);
    quote_delimits(line, i, quote, opening, next_is_alphanumeric(line, i + 1))
}

pub(crate) fn find_closing_quote(line: &str, from: usize, quote: u8) -> (r: Option<usize>)
    ensures
        match r {
            Some(i) => closing_quote(text::utf8(line@), from as int, quote) == Some(i as int)
                && from <= i < text::utf8(line@).len(),
            None => closing_quote(text::utf8(line@), from as int, quote) is None,
        },
{
    let b = line.as_bytes();
    let mut i: usize = from;
    while i < b.len()
        invariant
            from <= i,
            b@ == text::utf8(line@),
            closing_quote(b@, from as int, quote) == closing_quote(b@, i as int, quote),
        decreases b@.len() - i,
    {
        if b[i] == quote && is_quote_delimiter(line, i, quote, false) {
            return Some(i);
        }
        i += 1;
    }
    None
}

/// The quote characters.
pub open spec fn quote_text(quote: u8) -> Seq<u8> {
    if quote == 34 {
        text::utf8("\""@)
    } else {
        text::utf8("'"@)
    }
}

/// The nudge for a quoted path.
pub open spec fn quoted_message(quote: u8, inner: Seq<u8>) -> Seq<u8> {
    text::utf8("quoted path `"@) + quote_text(quote) + inner + quote_text(quote) + text::utf8(
        "`: would moving the target update this mention? if so it's a reference — make it a markdown link; if not it's an example — except it (see `lattice help config`)"@,
    )
}

/// What is said of the quotation between the quotes at `i` and `end`.
pub open spec fn quoted_mention(
    scene: SceneView,
    line: LineView,
    excluded: Seq<Span>,
    i: int,
    end: int,
) -> Seq<Emission> {
    let inner = text::piece(line.bytes, i + 1, end);
    if excluded_at(line.start + i, excluded) || !references::path_shaped(inner) {
        Seq::empty()
    } else {
        let span = Span {
            start: (line.start + i) as usize,
            end: (line.start + end + 1) as usize,
        };
        references::mention(
            scene,
            line.number,
            Some(span),
            inner,
            references::path_part(inner),
            Severity::Hint,
            quoted_message(line.bytes[i], inner),
        )
    }
}

/// What is said of the quotations of a line from offset `i` on.
pub open spec fn quoted_mentions(
    scene: SceneView,
    line: LineView,
    excluded: Seq<Span>,
    i: int,
) -> Seq<Emission>
    decreases line.bytes.len() - i,
{
    let b = line.bytes;
    if i < 0 || i >= b.len() {
        Seq::empty()
    } else if (b[i] == 34 || b[i] == 39) && delimits(b, i, b[i], true) {
        match closing_quote(b, i + 1, b[i]) {
            Some(end) => {
                proof {
                    lemma_closing_quote(b, i + 1, b[i]);
                }
                quoted_mention(scene, line, excluded, i, end) + quoted_mentions(
                    scene,
                    line,
                    excluded,
                    end + 1,
                )
            },
            None => quoted_mentions(scene, line, excluded, i + 1),
        }
    } else {
        quoted_mentions(scene, line, excluded, i + 1)
    }
}

fn report_quotation(
    scene: &Scene<'_>,
    line: &Line<'_>,
    excluded: &Vec<Span>,
    i: usize,
    end: usize,
    lookup: &mut ExceptionLookup<'_>,
    out: &mut Vec<Diagnostic>,
)
    requires
        old(lookup).wf(),
        line.fits(),
        i < end < line.view().bytes.len(),
        line.view().bytes[i as int] == 34 || line.view().bytes[i as int] == 39,
    ensures
        ledger::stepped(
            *old(lookup),
            old(out)@,
            *final(lookup),
            final(out)@,
            quoted_mention(scene@, line.view(), excluded@, i as int, end as int),
        ),
{
    let b = line.text.as_bytes();
    let inner = text::slice(line.text, i + 1, end);
    let abs_pos = line.start + i;
    if is_excluded(abs_pos, excluded) || !references::looks_like_path(inner) {
        proof {
            ledger::lemma_stepped_nothing(*lookup, out@);
        }
        return;
    }
    let q: &str = if b[i] == 34 {
        "\""
    } else {
        "'"
    };
    let mut nudge = text::owned("quoted path `");
    text::push(&mut nudge, q);
    text::push(&mut nudge, inner);
    text::push(&mut nudge, q);
    text::push(
        &mut nudge,
        "`: would moving the target update this mention? if so it's a reference — make it a markdown link; if not it's an example — except it (see `lattice help config`)",
    );
    let span = Span { start: abs_pos, end: line.start + end + 1 };
    let target = references::split_path_fragment(inner).0;
    references::route_mention(
        scene,
        line.number,
        Some(span),
        inner,
        target,
        Severity::Hint,
        nudge,
        lookup,
        out,
    );
}

fn scan_line_for_quoted_paths(
    scene: &Scene<'_>,
    line: &Line<'_>,
    excluded: &Vec<Span>,
    lookup: &mut ExceptionLookup<'_>,
    out: &mut Vec<Diagnostic>,
)
    requires
        old(lookup).wf(),
        line.fits(),
    ensures
        ledger::stepped(
            *old(lookup),
            old(out)@,
            *final(lookup),
            final(out)@,
            quoted_mentions(scene@, line.view(), excluded@, 0),
        ),
{
    let b = line.text.as_bytes();
    let ghost l0 = *lookup;
    let ghost o0 = out@;
    let ghost v = line.view();
    let ghost goal = quoted_mentions(scene@, v, excluded@, 0);
    let ghost mut done: Seq<Emission> = Seq::empty();
    let mut i: usize = 0;
    proof {
        ledger::lemma_stepped_nothing(l0, o0);
        assert(done + goal =~= goal);
    }
    while i < b.len()
        invariant
            i <= b@.len(),
            b@ == text::utf8(line.text@),
            v == line.view(),
            line.fits(),
            lookup.wf(),
            ledger::stepped(l0, o0, *lookup, out@, done),
            done + quoted_mentions(scene@, v, excluded@, i as int) == goal,
        decreases b@.len() - i,
    {
        let quote = b[i];
        if (quote == 34 || quote == 39) && is_quote_delimiter(line.text, i, quote, true) {
            match find_closing_quote(line.text, i + 1, quote) {
                Some(end) => {
                    let ghost l1 = *lookup;
                    let ghost o1 = out@;
                    let ghost one = quoted_mention(scene@, v, excluded@, i as int, end as int);
                    report_quotation(scene, line, excluded, i, end, lookup, out);
                    proof {
                        ledger::lemma_stepped_concat(l0, o0, l1, o1, *lookup, out@, done, one);
                        let rest = quoted_mentions(scene@, v, excluded@, end + 1);
                        assert((done + one) + rest =~= done + (one + rest));
                        done = done + one;
                    }
                    i = end + 1;
                },
                None => {
                    i += 1;
                },
            }
        } else {
            i += 1;
        }
    }
    assert(done + Seq::<Emission>::empty() =~= done);
}

// Whole paragraphs.

/// What is said of one row of a text that starts at `base` in the source.
pub open spec fn row_mentions(
    scene: SceneView,
    source: Seq<u8>,
    part: Seq<u8>,
    base: int,
    row: (int, int),
    excluded: Seq<Span>,
) -> Seq<Emission> {
    let line = LineView {
        bytes: text::piece(part, row.0, row.1),
        start: base + row.0,
        number: lines::line_of(source, base + row.0),
    };
    if scene.config.policy.bare_paths == BarePathPolicy::Disabled {
        quoted_mentions(scene, line, excluded, 0)
    } else {
        line_urls(scene, line, excluded) + quoted_mentions(scene, line, excluded, 0)
    }
}

/// What is said of the first `n` rows of a text.
pub open spec fn rows_mentions(
    scene: SceneView,
    source: Seq<u8>,
    part: Seq<u8>,
    base: int,
    rows: Seq<(int, int)>,
    excluded: Seq<Span>,
) -> Seq<Emission>
    decreases rows.len(),
{
    if rows.len() == 0 {
        Seq::empty()
    } else {
        rows_mentions(scene, source, part, base, rows.drop_last(), excluded) + row_mentions(
            scene,
            source,
            part,
            base,
            rows.last(),
            excluded,
        )
    }
}

fn scan_row(
    scene: &Scene<'_>,
    source: &str,
    part: &str,
    base: usize,
    row: Span,
    excluded: &Vec<Span>,
    lookup: &mut ExceptionLookup<'_>,
    out: &mut Vec<Diagnostic>,
)
    requires
        old(lookup).wf(),
        row.start <= row.end <= text::utf8(part@).len(),
        base + text::utf8(part@).len() <= text::utf8(source@).len() < usize::MAX,
    ensures
        ledger::stepped(
            *old(lookup),
            old(out)@,
            *final(lookup),
            final(out)@,
            row_mentions(
                scene@,
                text::utf8(source@),
                text::utf8(part@),
                base as int,
                (row.start as int, row.end as int),
                excluded@,
            ),
        ),
{
    let start = base + row.start;
    let line = Line {
        text: text::slice(part, row.start, row.end),
        start,
        number: lines::byte_offset_to_line(source, start),
    };
    assert(line.fits());
    let ghost l0 = *lookup;
    let ghost o0 = out@;
    if scene.config.policy.bare_paths != BarePathPolicy::Disabled {
        scan_line_for_bare_urls(scene, &line, excluded, lookup, out);
        let ghost l1 = *lookup;
        let ghost o1 = out@;
        scan_line_for_quoted_paths(scene, &line, excluded, lookup, out);
        proof {
            ledger::lemma_stepped_concat(
                l0,
                o0,
                l1,
                o1,
                *lookup,
                out@,
                line_urls(scene@, line.view(), excluded@),
                quoted_mentions(scene@, line.view(), excluded@, 0),
            );
        }
    } else {
        scan_line_for_quoted_paths(scene, &line, excluded, lookup, out);
    }
}

fn scan_text_for_paths(
    scene: &Scene<'_>,
    source: &str,
    part: &str,
    base: usize,
    excluded: &Vec<Span>,
    lookup: &mut ExceptionLookup<'_>,
    out: &mut Vec<Diagnostic>,
)
    requires
        old(lookup).wf(),
        base + text::utf8(part@).len() <= text::utf8(source@).len() < usize::MAX,
    ensures
        ledger::stepped(
            *old(lookup),
            old(out)@,
            *final(lookup),
            final(out)@,
            rows_mentions(
                scene@,
                text::utf8(source@),
                text::utf8(part@),
                base as int,
                lines::rows_from(text::utf8(part@), 0),
                excluded@,
            ),
        ),
{
    let rows = lines::rows(part.as_bytes());
    let ghost all = lines::as_ranges(rows@);
    let ghost src = text::utf8(source@);
    let ghost b = text::utf8(part@);
    let ghost l0 = *lookup;
    let ghost o0 = out@;
    let mut k: usize = 0;
    proof {
        ledger::lemma_stepped_nothing(l0, o0);
        assert(all.take(0) =~= Seq::<(int, int)>::empty());
    }
    while k < rows.len()
        invariant
            k <= rows@.len(),
            lookup.wf(),
            src == text::utf8(source@),
            b == text::utf8(part@),
            base + b.len() <= src.len() < usize::MAX,
            all == lines::as_ranges(rows@),
            forall|j: int|
                0 <= j < rows@.len() ==> (#[trigger] rows@[j]).start <= rows@[j].end <= b.len(),
            ledger::stepped(
                l0,
                o0,
                *lookup,
                out@,
                rows_mentions(scene@, src, b, base as int, all.take(k as int), excluded@),
            ),
        decreases rows@.len() - k,
    {
        let row = rows[k];
        let ghost l1 = *lookup;
        let ghost o1 = out@;
        scan_row(scene, source, part, base, row, excluded, lookup, out);
        proof {
            assert(all.take(k + 1).drop_last() =~= all.take(k as int));
            assert(all.take(k + 1).last() == (row.start as int, row.end as int));
            ledger::lemma_stepped_concat(
                l0,
                o0,
                l1,
                o1,
                *lookup,
                out@,
                rows_mentions(scene@, src, b, base as int, all.take(k as int), excluded@),
                row_mentions(
                    scene@,
                    src,
                    b,
                    base as int,
                    (row.start as int, row.end as int),
                    excluded@,
                ),
            );
        }
        k += 1;
    }
    assert(all.take(k as int) =~= all);
}

/// The nudge for a backticked path.
pub open spec fn backticked_message(inner: Seq<u8>) -> Seq<u8> {
    text::utf8("backticked path `"@) + inner + text::utf8(
        "` refers to an existing file: would moving it update this mention? if so it's a reference — make it a link; if not it's an example — drop the extension (a name) or except it with a reason (see `lattice help config`)"@,
    )
}

/// What is said of a code span.
pub open spec fn code_mention(scene: SceneView, tree: Tree, child: Node) -> Seq<Emission> {
    let inner = references::without_ticks(tree.text_of(child));
    if child.kind is InlineCode && references::path_shaped(inner) {
        references::mention(
            scene,
            lines::line_of(tree.text(), child.span.start as int),
            Some(child.span),
            inner,
            references::path_part(inner),
            Severity::Hint,
            backticked_message(inner),
        )
    } else {
        Seq::empty()
    }
}

/// What is said of the code spans among the children.
pub open spec fn code_mentions(scene: SceneView, tree: Tree, children: Seq<usize>) -> Seq<Emission>
    decreases children.len(),
{
    if children.len() == 0 {
        Seq::empty()
    } else {
        code_mentions(scene, tree, children.drop_last()) + code_mention(
            scene,
            tree,
            tree.nodes@[children.last() as int],
        )
    }
}

/// The spans of the children.
pub open spec fn child_spans(tree: Tree, children: Seq<usize>) -> Seq<Span> {
    children.map_values(|c: usize| tree.nodes@[c as int].span)
}

/// What is said of a node: nothing unless it is a paragraph or a table cell.
/// Text inside its children does not count as its own.
pub open spec fn node_mentions(scene: SceneView, tree: Tree, node: Node) -> Seq<Emission> {
    if node.kind is Paragraph || node.kind is TableCell {
        rows_mentions(
            scene,
            tree.text(),
            tree.text_of(node),
            node.span.start as int,
            lines::rows_from(tree.text_of(node), 0),
            child_spans(tree, node.children@),
        ) + code_mentions(scene, tree, node.children@)
    } else {
        Seq::empty()
    }
}

/// What is said of a list of nodes.
pub open spec fn text_mentions(scene: SceneView, tree: Tree, nodes: Seq<Node>) -> Seq<Emission>
    decreases nodes.len(),
{
    if nodes.len() == 0 {
        Seq::empty()
    } else {
        text_mentions(scene, tree, nodes.drop_last()) + node_mentions(scene, tree, nodes.last())
    }
}

fn report_code(
    scene: &Scene<'_>,
    tree: &Tree,
    child: &Node,
    lookup: &mut ExceptionLookup<'_>,
    out: &mut Vec<Diagnostic>,
)
    requires
        old(lookup).wf(),
        tree.wf(),
    ensures
        ledger::stepped(
            *old(lookup),
            old(out)@,
            *final(lookup),
            final(out)@,
            code_mention(scene@, *tree, *child),
        ),
{
    let is_code = match child.kind {
        ElementKind::InlineCode => true,
        _ => false,
    };
    if is_code {
        let inner = references::strip_backtick_delimiters(tree.raw(child));
        if references::looks_like_path(inner) {
            let target = references::split_path_fragment(inner).0;
            let line = lines::byte_offset_to_line(tree.source.as_str(), child.span.start);
            let mut nudge = text::owned("backticked path `");
            text::push(&mut nudge, inner);
            text::push(
                &mut nudge,
                "` refers to an existing file: would moving it update this mention? if so it's a reference — make it a link; if not it's an example — drop the extension (a name) or except it with a reason (see `lattice help config`)",
            );
            references::route_mention(
                scene,
                line,
                Some(child.span),
                inner,
                target,
                Severity::Hint,
                nudge,
                lookup,
                out,
            );
            return;
        }
    }
    proof {
        ledger::lemma_stepped_nothing(*lookup, out@);
    }
}

fn report_node(
    scene: &Scene<'_>,
    tree: &Tree,
    node: &Node,
    lookup: &mut ExceptionLookup<'_>,
    out: &mut Vec<Diagnostic>,
    Ghost(index): Ghost<int>,
)
    requires
        old(lookup).wf(),
        tree.wf(),
        0 <= index < tree.nodes@.len(),
        *node == tree.nodes@[index],
        node.kind is Paragraph || node.kind is TableCell,
    ensures
        ledger::stepped(
            *old(lookup),
            old(out)@,
            *final(lookup),
            final(out)@,
            node_mentions(scene@, *tree, *node),
        ),
{
    let ghost l0 = *lookup;
    let ghost o0 = out@;
    proof {
        assert(tree.node_wf(index, tree.nodes@[index]));
    }
    let mut excluded: Vec<Span> = Vec::new();
    let mut k: usize = 0;
    while k < node.children.len()
        invariant
            k <= node.children@.len(),
            forall|j: int|
                0 <= j < node.children@.len() ==> #[trigger] node.children@[j] < tree.nodes@.len(),
            excluded@ =~= child_spans(*tree, node.children@).take(k as int),
        decreases node.children@.len() - k,
    {
        excluded.push(tree.nodes[node.children[k]].span);
        k += 1;
    }
    assert(excluded@ =~= child_spans(*tree, node.children@));
    let part = tree.raw(node);
    scan_text_for_paths(
        scene,
        tree.source.as_str(),
        part,
        node.span.start,
        &excluded,
        lookup,
        out,
    );
    let ghost l1 = *lookup;
    let ghost o1 = out@;
    let ghost first = rows_mentions(
        scene@,
        tree.text(),
        tree.text_of(*node),
        node.span.start as int,
        lines::rows_from(tree.text_of(*node), 0),
        excluded@,
    );
    proof {
        ledger::lemma_stepped_nothing(l1, o1);
        assert(node.children@.take(0) =~= Seq::<usize>::empty());
    }
    let mut c: usize = 0;
    while c < node.children.len()
        invariant
            c <= node.children@.len(),
            tree.wf(),
            lookup.wf(),
            forall|j: int|
                0 <= j < node.children@.len() ==> #[trigger] node.children@[j] < tree.nodes@.len(),
            ledger::stepped(
                l1,
                o1,
                *lookup,
                out@,
                code_mentions(scene@, *tree, node.children@.take(c as int)),
            ),
        decreases node.children@.len() - c,
    {
        let child = &tree.nodes[node.children[c]];
        let ghost l2 = *lookup;
        let ghost o2 = out@;
        report_code(scene, tree, child, lookup, out);
        proof {
            assert(node.children@.take(c + 1).drop_last() =~= node.children@.take(c as int));
            ledger::lemma_stepped_concat(
                l1,
                o1,
                l2,
                o2,
                *lookup,
                out@,
                code_mentions(scene@, *tree, node.children@.take(c as int)),
                code_mention(scene@, *tree, *child),
            );
        }
        c += 1;
    }
    proof {
        assert(node.children@.take(c as int) =~= node.children@);
        ledger::lemma_stepped_concat(
            l0,
            o0,
            l1,
            o1,
            *lookup,
            out@,
            first,
            code_mentions(scene@, *tree, node.children@),
        );
    }
}

/// Report bare URLs, quoted paths and backticked paths in paragraphs and table cells.
pub fn emit_bare_path_diagnostics(
    tree: &Tree,
    scene: &Scene<'_>,
    lookup: &mut ExceptionLookup<'_>,
    out: &mut Vec<Diagnostic>,
)
    requires
        old(lookup).wf(),
        tree.wf(),
    ensures
        ledger::stepped(
            *old(lookup),
            old(out)@,
            *final(lookup),
            final(out)@,
            text_mentions(scene@, *tree, tree.nodes@),
        ),
{
    let ghost l0 = *lookup;
    let ghost o0 = out@;
    let mut i: usize = 0;
    proof {
        ledger::lemma_stepped_nothing(l0, o0);
        assert(tree.nodes@.take(0) =~= Seq::<Node>::empty());
    }
    while i < tree.nodes.len()
        invariant
            i <= tree.nodes@.len(),
            tree.wf(),
            lookup.wf(),
            ledger::stepped(
                l0,
                o0,
                *lookup,
                out@,
                text_mentions(scene@, *tree, tree.nodes@.take(i as int)),
            ),
        decreases tree.nodes@.len() - i,
    {
        let node = &tree.nodes[i];
        let hosts_text = match node.kind {
            ElementKind::Paragraph | ElementKind::TableCell => true,
            _ => false,
        };
        let ghost l1 = *lookup;
        let ghost o1 = out@;
        if hosts_text {
            report_node(scene, tree, node, lookup, out, Ghost(i as int));
        } else {
            proof {
                ledger::lemma_stepped_nothing(l1, o1);
            }
        }
        proof {
            assert(tree.nodes@.take(i + 1).drop_last() =~= tree.nodes@.take(i as int));
            ledger::lemma_stepped_concat(
                l0,
                o0,
                l1,
                o1,
                *lookup,
                out@,
                text_mentions(scene@, *tree, tree.nodes@.take(i as int)),
                node_mentions(scene@, *tree, *node),
            );
        }
        i += 1;
    }
    assert(tree.nodes@.take(i as int) =~= tree.nodes@);
}

} // verus!

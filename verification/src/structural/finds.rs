//! What the structural checks find: every finding that the text calls for is there.
use vstd::prelude::*;
use crate::block;
use crate::block::{BarePath, Node, Tree};
use crate::config::{BarePathPolicy, StaleReferencePolicy};
use crate::diagnostic;
use crate::diagnostic::{DiagView, Severity};
use crate::fm::{ExceptionEntry, ExceptionLint, Exceptions};
use crate::lines;
use crate::span::Span;
use crate::structural;
use crate::structural::ledger;
use crate::structural::ledger::{BucketRules, Emission, Flow, Rules};
use crate::structural::references;
use crate::structural::references::SceneView;
use crate::structural::scanners;
use crate::structural::scanners::LineView;
use crate::text;

verus! {

// From the checks to the report.

proof fn lemma_out_grows(rules: Rules, flow: Flow, list: Seq<Emission>, d: DiagView)
    requires
        flow.out.contains(d) || list.contains(Emission::Plain(d)),
    ensures
        ledger::emitted_all(rules, flow, list).out.contains(d),
    decreases list.len(),
{
    if list.len() > 0 {
        let before = ledger::emitted_all(rules, flow, list.drop_last());
        let after = ledger::emitted_all(rules, flow, list);
        if list.last() == Emission::Plain(d) {
            assert(after.out == before.out.push(d));
            assert(after.out[before.out.len() as int] == d);
        } else {
            if !flow.out.contains(d) {
                let i = choose|i: int| 0 <= i < list.len() && list[i] == Emission::Plain(d);
                assert(list.drop_last()[i] == Emission::Plain(d));
            }
            lemma_out_grows(rules, flow, list.drop_last(), d);
            let k = choose|k: int| 0 <= k < before.out.len() && before.out[k] == d;
            assert(after.out[k] == d);
        }
    }
}

proof fn lemma_settling_keeps(
    b: BucketRules,
    lint: ExceptionLint,
    file: Seq<u8>,
    flow: Flow,
    d: DiagView,
)
    requires
        flow.out.contains(d),
    ensures
        ledger::count_settled(b, lint, file, flow).out.contains(d),
{
    let i = choose|i: int| 0 <= i < flow.out.len() && flow.out[i] == d;
    assert(ledger::count_settled(b, lint, file, flow).out[i] == d);
}

/// What a check finds, and no exception can claim, is reported.
pub proof fn lemma_reported(
    tree: Tree,
    scene: SceneView,
    exceptions: Exceptions,
    metadata: Seq<DiagView>,
    d: DiagView,
)
    requires
        structural::early_reports(tree, scene.file, scene.config).contains(d)
            || structural::mentions_of(tree, scene).contains(Emission::Plain(d))
            || structural::late_reports(tree, scene.file, scene.config, metadata).contains(d),
    ensures
        diagnostic::in_report_order(
            structural::flow_of(tree, scene, exceptions, metadata).out,
        ).contains(d),
{
    let file = scene.file;
    let config = scene.config;
    let rules = structural::rules_of(config, exceptions);
    let early = ledger::start(exceptions, structural::early_reports(tree, file, config));
    let list = structural::mentions_of(tree, scene);
    let mentioned = ledger::emitted_all(rules, early, list);
    let late = structural::late_reports(tree, file, config, metadata);
    let all = Flow { out: mentioned.out + late, ..mentioned };
    if !late.contains(d) {
        lemma_out_grows(rules, early, list, d);
    }
    diagnostic::lemma_either(mentioned.out, late, d);
    lemma_settling_keeps(rules.stale, ExceptionLint::StaleReferences, file, all, d);
    let first = ledger::count_settled(rules.stale, ExceptionLint::StaleReferences, file, all);
    lemma_settling_keeps(rules.bare, ExceptionLint::BarePaths, file, first, d);
    let settled = ledger::counts_settled(rules, file, all);
    let a = ledger::bucket_reports(
        rules.stale,
        settled.stale,
        ExceptionLint::StaleReferences,
        file,
    );
    let b = ledger::bucket_reports(rules.bare, settled.bare, ExceptionLint::BarePaths, file);
    diagnostic::lemma_either(settled.out, a, d);
    diagnostic::lemma_either(settled.out + a, b, d);
    diagnostic::lemma_report_order_contains(
        structural::flow_of(tree, scene, exceptions, metadata).out,
        d,
    );
}

// Rows.

/// The row that an offset lies in.
proof fn lemma_row_of(b: Seq<u8>, i: int, at: int) -> (row: (int, int))
    requires
        0 <= i <= at <= b.len(),
        i == 0 || b[i - 1] == 10,
    ensures
        lines::rows_from(b, i).contains(row),
        i <= row.0 <= at <= row.1 <= b.len(),
        row.0 == 0 || b[row.0 - 1] == 10,
        row.1 == b.len() || b[row.1] == 10,
        forall|k: int| row.0 <= k < row.1 ==> #[trigger] b[k] != 10,
    decreases b.len() - i,
{
    let n = lines::line_feed(b, i);
    lines::lemma_line_feed(b, i);
    lemma_no_feed(b, i);
    let rows = lines::rows_from(b, i);
    if at <= n {
        assert(rows[0] == (i, n));
        (i, n)
    } else {
        let row = lemma_row_of(b, n + 1, at);
        let rest = lines::rows_from(b, n + 1);
        let k = choose|k: int| 0 <= k < rest.len() && rest[k] == row;
        assert(rows[k + 1] == row);
        row
    }
}

proof fn lemma_no_feed(b: Seq<u8>, i: int)
    requires
        0 <= i <= b.len(),
    ensures
        forall|k: int| i <= k < lines::line_feed(b, i) ==> #[trigger] b[k] != 10,
    decreases b.len() - i,
{
    if i < b.len() && b[i] != 10 {
        lemma_no_feed(b, i + 1);
    }
}

proof fn lemma_same_line(b: Seq<u8>, i: int, j: int)
    requires
        0 <= i <= j <= b.len(),
        forall|k: int| i <= k < j ==> #[trigger] b[k] != 10,
    ensures
        lines::line_of(b, i) == lines::line_of(b, j),
    decreases j - i,
{
    if i < j {
        assert(b[j - 1] != 10);
        lemma_same_line(b, i, j - 1);
    }
}

proof fn lemma_rows_contain(
    scene: SceneView,
    source: Seq<u8>,
    part: Seq<u8>,
    base: int,
    rows: Seq<(int, int)>,
    excluded: Seq<Span>,
    row: (int, int),
    e: Emission,
)
    requires
        rows.contains(row),
        scanners::row_mentions(scene, source, part, base, row, excluded).contains(e),
    ensures
        scanners::rows_mentions(scene, source, part, base, rows, excluded).contains(e),
    decreases rows.len(),
{
    let a = scanners::rows_mentions(scene, source, part, base, rows.drop_last(), excluded);
    let b = scanners::row_mentions(scene, source, part, base, rows.last(), excluded);
    if rows.last() != row {
        let k = choose|k: int| 0 <= k < rows.len() && rows[k] == row;
        assert(rows.drop_last()[k] == row);
        lemma_rows_contain(scene, source, part, base, rows.drop_last(), excluded, row, e);
    }
    diagnostic::lemma_either(a, b, e);
}

proof fn lemma_nodes_contain(
    scene: SceneView,
    tree: Tree,
    nodes: Seq<Node>,
    i: int,
    e: Emission,
)
    requires
        0 <= i < nodes.len(),
        scanners::node_mentions(scene, tree, nodes[i]).contains(e),
    ensures
        scanners::text_mentions(scene, tree, nodes).contains(e),
    decreases nodes.len(),
{
    if i < nodes.len() - 1 {
        assert(nodes.drop_last()[i] == nodes[i]);
        lemma_nodes_contain(scene, tree, nodes.drop_last(), i, e);
    }
    diagnostic::lemma_either(
        scanners::text_mentions(scene, tree, nodes.drop_last()),
        scanners::node_mentions(scene, tree, nodes.last()),
        e,
    );
}

// Bare URLs.

/// Whether a text has `http://` or `https://` at an offset, of `n` bytes.
pub open spec fn scheme_at(t: Seq<u8>, at: int, n: int) -> bool {
    let http = seq![104u8, 116u8, 116u8, 112u8, 58u8, 47u8, 47u8];
    let https = seq![104u8, 116u8, 116u8, 112u8, 115u8, 58u8, 47u8, 47u8];
    &&& 0 <= at
    &&& at + n <= t.len()
    &&& (n == http.len() && t.subrange(at, at + n) == http) || (n == https.len() && t.subrange(
        at,
        at + n,
    ) == https)
}

/// Whether white space starts at an offset: a tab, a line feed, a vertical tab, a
/// form feed, a carriage return, a space, or one of U+0085, U+00A0, U+1680,
/// U+2000 to U+200A, U+2028, U+2029, U+202F, U+205F and U+3000.
pub open spec fn white_at(t: Seq<u8>, i: int) -> bool {
    ||| 9 <= t[i] <= 13
    ||| t[i] == 32
    ||| i + 1 < t.len() && t[i] == 0xC2 && (t[i + 1] == 0x85 || t[i + 1] == 0xA0)
    ||| i + 2 < t.len() && t[i] == 0xE1 && t[i + 1] == 0x9A && t[i + 2] == 0x80
    ||| i + 2 < t.len() && t[i] == 0xE2 && t[i + 1] == 0x80 && (0x80 <= t[i + 2] <= 0x8A || t[i + 2]
        == 0xA8 || t[i + 2] == 0xA9 || t[i + 2] == 0xAF)
    ||| i + 2 < t.len() && t[i] == 0xE2 && t[i + 1] == 0x81 && t[i + 2] == 0x9F
    ||| i + 2 < t.len() && t[i] == 0xE3 && t[i + 1] == 0x80 && t[i + 2] == 0x80
}

/// Whether an offset ends a URL: white space, `)`, `]` or `>` stands there.
pub open spec fn ends_url(t: Seq<u8>, i: int) -> bool {
    white_at(t, i) || t[i] == 41 || t[i] == 93 || t[i] == 62
}

/// Whether a URL stands in a text from `at` up to `end`: a scheme of `n` bytes and
/// more, as far as nothing ends it, but without the `.`, `,`, `;`, `:`, `!` and `?`
/// at its end.
pub open spec fn is_url(t: Seq<u8>, at: int, n: int, end: int, stop: int) -> bool {
    &&& scheme_at(t, at, n)
    &&& at + n < end <= stop <= t.len()
    &&& forall|k: int| at <= k < stop ==> !#[trigger] ends_url(t, k)
    &&& stop == t.len() || ends_url(t, stop)
    &&& forall|k: int|
        end <= k < stop ==> #[trigger] t[k] == 46 || t[k] == 44 || t[k] == 59 || t[k] == 58 || t[k]
            == 33 || t[k] == 63
    &&& t[end - 1] != 46 && t[end - 1] != 44 && t[end - 1] != 59 && t[end - 1] != 58 && t[end - 1]
        != 33 && t[end - 1] != 63
}

proof fn lemma_space(t: Seq<u8>, i: int)
    requires
        0 <= i < t.len(),
    ensures
        (lines::space_len(t, i) > 0) == white_at(t, i),
{
}

proof fn lemma_url_stop(b: Seq<u8>, i: int, stop: int)
    requires
        0 <= i <= stop <= b.len(),
        forall|k: int| i <= k < stop ==> !#[trigger] ends_url(b, k),
        stop == b.len() || ends_url(b, stop),
    ensures
        scanners::url_stop(b, i) == stop,
    decreases stop - i,
{
    if i < b.len() {
        lemma_space(b, i);
    }
    if i < stop {
        assert(!ends_url(b, i));
        lemma_url_stop(b, i + 1, stop);
    }
}

proof fn lemma_url_end(b: Seq<u8>, start: int, end: int, stop: int)
    requires
        0 <= start < end <= stop <= b.len(),
        forall|k: int| end <= k < stop ==> #[trigger] scanners::sentence_mark(b[k]),
        !scanners::sentence_mark(b[end - 1]),
    ensures
        scanners::url_end(b, start, stop) == end,
    decreases stop - end,
{
    if end < stop {
        assert(scanners::sentence_mark(b[stop - 1]));
        lemma_url_end(b, start, end, stop - 1);
    }
}

/// Each place at which a scheme stands is met, since no two of them overlap.
proof fn lemma_met(
    scene: SceneView,
    line: LineView,
    excluded: Seq<Span>,
    scheme: Seq<u8>,
    from: int,
    at: int,
    e: Emission,
)
    requires
        0 <= from <= at,
        text::matches_at(line.bytes, at, scheme),
        scheme.len() > 0,
        scheme[0] == 104,
        forall|k: int| 0 < k < scheme.len() ==> #[trigger] scheme[k] != 104,
        scanners::url_mention(scene, line, excluded, scheme, at).contains(e),
    ensures
        scanners::url_mentions(scene, line, excluded, scheme, from).contains(e),
    decreases line.bytes.len() - from,
{
    let b = line.bytes;
    lemma_first(b, from, scheme, at);
    text::lemma_first_match(b, from, scheme);
    let first = text::first_match(b, from, scheme)->0;
    let here = scanners::url_mention(scene, line, excluded, scheme, first);
    let n = scheme.len() as int;
    let rest = scanners::url_mentions(scene, line, excluded, scheme, first + n);
    if first < at {
        assert(b.subrange(at, at + n)[0] == b[at]);
        if at < first + n {
            assert(b.subrange(first, first + n)[at - first] == b[at]);
            assert(scheme[at - first] != 104);
        }
        lemma_met(scene, line, excluded, scheme, first + n, at, e);
    }
    diagnostic::lemma_either(here, rest, e);
}

proof fn lemma_first(b: Seq<u8>, from: int, pattern: Seq<u8>, at: int)
    requires
        0 <= from <= at,
        text::matches_at(b, at, pattern),
    ensures
        text::first_match(b, from, pattern) matches Some(i) && i <= at,
    decreases at - from,
{
    if !text::matches_at(b, from, pattern) {
        lemma_first(b, from + 1, pattern, at);
    }
}

proof fn lemma_schemes()
    ensures
        text::utf8("http://"@) == seq![104u8, 116u8, 116u8, 112u8, 58u8, 47u8, 47u8],
        text::utf8("https://"@) == seq![104u8, 116u8, 116u8, 112u8, 115u8, 58u8, 47u8, 47u8],
{
    reveal_strlit("http://");
    reveal_strlit("https://");
    assert(vstd::utf8::is_ascii_chars("http://"@));
    assert(vstd::utf8::is_ascii_chars("https://"@));
    vstd::utf8::is_ascii_chars_encode_utf8("http://"@);
    vstd::utf8::is_ascii_chars_encode_utf8("https://"@);
    assert(text::utf8("http://"@) =~= seq![104u8, 116u8, 116u8, 112u8, 58u8, 47u8, 47u8]);
    assert(text::utf8("https://"@) =~= seq![104u8, 116u8, 116u8, 112u8, 115u8, 58u8, 47u8, 47u8]);
}

/// A URL in a row is mentioned there.
proof fn lemma_row_url(
    scene: SceneView,
    line: LineView,
    excluded: Seq<Span>,
    at: int,
    n: int,
    end: int,
    stop: int,
    d: DiagView,
)
    requires
        is_url(line.bytes, at, n, end, stop),
        !scanners::excluded_at(line.start + at, excluded),
        scene.config.policy.bare_paths != BarePathPolicy::Disabled,
        d == (DiagView {
            file: scene.file,
            line: line.number,
            severity: if scene.config.policy.bare_paths == BarePathPolicy::Deny {
                Severity::Error
            } else {
                Severity::Warning
            },
            message: text::utf8("bare URL `"@) + line.bytes.subrange(at, end) + text::utf8(
                "`: wrap in angle brackets or make a markdown link"@,
            ),
            span: Some(
                Span { start: (line.start + at) as usize, end: (line.start + end) as usize },
            ),
        }),
    ensures
        scanners::line_urls(scene, line, excluded).contains(Emission::Plain(d)),
{
    let b = line.bytes;
    lemma_schemes();
    lemma_url_stop(b, at, stop);
    assert forall|k: int| end <= k < stop implies #[trigger] scanners::sentence_mark(b[k]) by {
        assert(b[k] == 46 || b[k] == 44 || b[k] == 59 || b[k] == 58 || b[k] == 33 || b[k] == 63);
    }
    lemma_url_end(b, at, end, stop);
    assert(b.subrange(at, at + n)[0] == b[at]);
    assert(text::boundary(b, at)) by {
        let x = b[at];
        assert(x == 104);
        assert(!vstd::utf8::is_continuation_byte(x));
    }
    assert(text::boundary(b, end)) by {
        if end < stop {
            assert(b[end] == 46 || b[end] == 44 || b[end] == 59 || b[end] == 58 || b[end] == 33
                || b[end] == 63);
        }
        if end < b.len() {
            let x = b[end];
            assert(!vstd::utf8::is_continuation_byte(x));
        }
    }
    let scheme = b.subrange(at, at + n);
    let one = scanners::url_mention(scene, line, excluded, scheme, at);
    assert(one[0] == Emission::Plain(d));
    lemma_met(scene, line, excluded, scheme, 0, at, Emission::Plain(d));
    diagnostic::lemma_either(
        scanners::url_mentions(scene, line, excluded, text::utf8("https://"@), 0),
        scanners::url_mentions(scene, line, excluded, text::utf8("http://"@), 0),
        Emission::Plain(d),
    );
}

/// The finding that a URL calls for.
pub open spec fn url_finding(
    tree: Tree,
    scene: SceneView,
    node: Node,
    at: int,
    end: int,
) -> DiagView {
    let start = node.span.start as int;
    DiagView {
        file: scene.file,
        line: lines::line_of(tree.text(), start + at),
        severity: if scene.config.policy.bare_paths == BarePathPolicy::Deny {
            Severity::Error
        } else {
            Severity::Warning
        },
        message: text::utf8("bare URL `"@) + tree.text().subrange(start + at, start + end)
            + text::utf8("`: wrap in angle brackets or make a markdown link"@),
        span: Some(Span { start: (start + at) as usize, end: (start + end) as usize }),
    }
}

/// Every bare URL is reported: wherever the text of a paragraph or a table cell has
/// `http://` or `https://` and more of a URL, outside the spans of the children,
/// the report has a finding whose span is exactly the URL, with its text, on its
/// line; unless the lint is off.
pub proof fn law_bare_urls_are_reported(
    tree: Tree,
    scene: SceneView,
    exceptions: Exceptions,
    metadata: Seq<DiagView>,
    i: int,
    at: int,
    n: int,
    end: int,
    stop: int,
)
    requires
        tree.wf(),
        0 <= i < tree.nodes@.len(),
        tree.nodes@[i].kind is Paragraph || tree.nodes@[i].kind is TableCell,
        ({
            let node = tree.nodes@[i];
            is_url(
                tree.text().subrange(node.span.start as int, node.span.end as int),
                at,
                n,
                end,
                stop,
            )
        }),
        forall|k: int|
            0 <= k < tree.nodes@[i].children@.len() ==> !((
            tree.nodes@[#[trigger] tree.nodes@[i].children@[k] as int].span.start)
                <= tree.nodes@[i].span.start + at
                < tree.nodes@[tree.nodes@[i].children@[k] as int].span.end),
        scene.config.policy.bare_paths != BarePathPolicy::Disabled,
    ensures
        diagnostic::in_report_order(
            structural::flow_of(tree, scene, exceptions, metadata).out,
        ).contains(url_finding(tree, scene, tree.nodes@[i], at, end)),
{
    let node = tree.nodes@[i];
    let d = url_finding(tree, scene, node, at, end);
    let e = Emission::Plain(d);
    let b = tree.text();
    let start = node.span.start as int;
    assert(tree.node_wf(i, node));
    let t = tree.text_of(node);
    assert(t == b.subrange(start, node.span.end as int));
    vstd::utf8::encode_utf8_valid_utf8(tree.source@);
    let row = lemma_row_of(t, 0, at);
    assert(stop <= row.1) by {
        if row.1 < stop {
            assert(!ends_url(t, row.1));
        }
    }
    lemma_row_cut(b, start, t, row);
    let bytes = t.subrange(row.0, row.1);
    let line = LineView {
        bytes,
        start: start + row.0,
        number: lines::line_of(b, start + row.0),
    };
    let spans = scanners::child_spans(tree, node.children@);
    lemma_url_in_row(t, row, at, n, end, stop);
    assert forall|k: int| start + row.0 <= k < start + at implies #[trigger] b[k] != 10 by {
        assert(t[k - start] != 10);
    }
    lemma_same_line(b, start + row.0, start + at);
    assert(bytes.subrange(at - row.0, end - row.0) =~= b.subrange(start + at, start + end));
    lemma_not_excluded(tree, node, at);
    lemma_row_url(scene, line, spans, at - row.0, n, end - row.0, stop - row.0, d);
    let quoted = scanners::quoted_mentions(scene, line, spans, 0);
    diagnostic::lemma_either(scanners::line_urls(scene, line, spans), quoted, e);
    let rows = lines::rows_from(t, 0);
    lemma_rows_contain(scene, b, t, start, rows, spans, row, e);
    diagnostic::lemma_either(
        scanners::rows_mentions(scene, b, t, start, rows, spans),
        scanners::code_mentions(scene, tree, node.children@),
        e,
    );
    lemma_nodes_contain(scene, tree, tree.nodes@, i, e);
    reveal(structural::mentions_of);
    diagnostic::lemma_either(
        references::prose_mentions(scene, tree.bare_paths@),
        scanners::text_mentions(scene, tree, tree.nodes@),
        e,
    );
    lemma_reported(tree, scene, exceptions, metadata, d);
}

proof fn lemma_url_in_row(t: Seq<u8>, row: (int, int), at: int, n: int, end: int, stop: int)
    requires
        is_url(t, at, n, end, stop),
        0 <= row.0 <= at,
        stop <= row.1 <= t.len(),
        row.1 == t.len() || t[row.1] == 10,
    ensures
        is_url(t.subrange(row.0, row.1), at - row.0, n, end - row.0, stop - row.0),
{
    let r = t.subrange(row.0, row.1);
    let lo = row.0;
    assert(r.subrange(at - lo, at - lo + n) =~= t.subrange(at, at + n));
    assert forall|k: int| 0 <= k < r.len() implies #[trigger] ends_url(r, k) == ends_url(
        t,
        lo + k,
    ) by {
        assert(r[k] == t[lo + k]);
        if k + 1 < r.len() {
            assert(r[k + 1] == t[lo + k + 1]);
        }
        if k + 2 < r.len() {
            assert(r[k + 2] == t[lo + k + 2]);
        }
    }
    assert forall|k: int| at - lo <= k < stop - lo implies !#[trigger] ends_url(r, k) by {
        assert(!ends_url(t, lo + k));
    }
    assert forall|k: int| end - lo <= k < stop - lo implies #[trigger] r[k] == 46 || r[k] == 44
        || r[k] == 59 || r[k] == 58 || r[k] == 33 || r[k] == 63 by {
        assert(r[k] == t[lo + k]);
    }
}

proof fn lemma_url_extent(t: Seq<u8>, at: int, n: int, q: int, stop: int) -> (places: (int, int))
    requires
        scheme_at(t, at, n),
        at + n <= q < stop <= t.len(),
        forall|k: int| at <= k < stop ==> !#[trigger] ends_url(t, k),
        t[q] != 46 && t[q] != 44 && t[q] != 59 && t[q] != 58 && t[q] != 33 && t[q] != 63,
    ensures
        is_url(t, at, n, places.0, places.1),
    decreases t.len() - stop,
{
    if stop < t.len() && !ends_url(t, stop) {
        lemma_url_extent(t, at, n, q, stop + 1)
    } else {
        (lemma_last_of_url(t, q, stop), stop)
    }
}

proof fn lemma_last_of_url(t: Seq<u8>, q: int, stop: int) -> (end: int)
    requires
        0 <= q < stop <= t.len(),
        t[q] != 46 && t[q] != 44 && t[q] != 59 && t[q] != 58 && t[q] != 33 && t[q] != 63,
    ensures
        q < end <= stop,
        forall|k: int|
            end <= k < stop ==> #[trigger] t[k] == 46 || t[k] == 44 || t[k] == 59 || t[k] == 58
                || t[k] == 33 || t[k] == 63,
        t[end - 1] != 46 && t[end - 1] != 44 && t[end - 1] != 59 && t[end - 1] != 58 && t[end - 1]
            != 33 && t[end - 1] != 63,
    decreases stop,
{
    let c = t[stop - 1];
    if c == 46 || c == 44 || c == 59 || c == 58 || c == 33 || c == 63 {
        lemma_last_of_url(t, q, stop - 1)
    } else {
        stop
    }
}

/// Whatever a URL is like: where more than a scheme follows, and not only
/// punctuation, the report has a bare URL whose span starts there.
pub proof fn law_no_bare_url_is_passed_over(
    tree: Tree,
    scene: SceneView,
    exceptions: Exceptions,
    metadata: Seq<DiagView>,
    i: int,
    at: int,
    n: int,
    q: int,
) -> (d: DiagView)
    requires
        tree.wf(),
        0 <= i < tree.nodes@.len(),
        tree.nodes@[i].kind is Paragraph || tree.nodes@[i].kind is TableCell,
        ({
            let node = tree.nodes@[i];
            let t = tree.text().subrange(node.span.start as int, node.span.end as int);
            &&& scheme_at(t, at, n)
            &&& at + n <= q < t.len()
            &&& forall|k: int| at + n <= k <= q ==> !#[trigger] ends_url(t, k)
            &&& t[q] != 46 && t[q] != 44 && t[q] != 59 && t[q] != 58 && t[q] != 33 && t[q] != 63
        }),
        forall|k: int|
            0 <= k < tree.nodes@[i].children@.len() ==> !((
            tree.nodes@[#[trigger] tree.nodes@[i].children@[k] as int].span.start)
                <= tree.nodes@[i].span.start + at
                < tree.nodes@[tree.nodes@[i].children@[k] as int].span.end),
        scene.config.policy.bare_paths != BarePathPolicy::Disabled,
    ensures
        diagnostic::in_report_order(
            structural::flow_of(tree, scene, exceptions, metadata).out,
        ).contains(d),
        d.span is Some,
        d.span->0.start == tree.nodes@[i].span.start + at,
        d.span->0.end > tree.nodes@[i].span.start + q,
        text::has_prefix(d.message, text::utf8("bare URL `"@)),
{
    let node = tree.nodes@[i];
    let t = tree.text().subrange(node.span.start as int, node.span.end as int);
    assert(tree.node_wf(i, node));
    assert forall|k: int| at <= k < q + 1 implies !#[trigger] ends_url(t, k) by {
        if k < at + n {
            assert(t.subrange(at, at + n)[k - at] == t[k]);
        }
    }
    let (end, stop) = lemma_url_extent(t, at, n, q, q + 1);
    law_bare_urls_are_reported(tree, scene, exceptions, metadata, i, at, n, end, stop);
    let d = url_finding(tree, scene, node, at, end);
    let head = text::utf8("bare URL `"@);
    assert(d.message.subrange(0, head.len() as int) =~= head);
    d
}

// References.

proof fn lemma_routed_out(rules: Rules, flow: Flow, list: Seq<Emission>, e: Emission, d: DiagView)
    requires
        list.contains(e),
        e matches Emission::Routed { lint, reference, diag } && diag == d
            && !rules.artifacts.contains_key(reference) && (rules.of(lint).active
            ==> !ledger::excepted(rules.of(lint).entries, reference) && rules.of(lint).count
            is None),
    ensures
        ledger::emitted_all(rules, flow, list).out.contains(d),
    decreases list.len(),
{
    let before = ledger::emitted_all(rules, flow, list.drop_last());
    let after = ledger::emitted_all(rules, flow, list);
    if list.last() == e {
        assert(after.out == before.out.push(d));
        assert(after.out[before.out.len() as int] == d);
    } else {
        let i = choose|i: int| 0 <= i < list.len() && list[i] == e;
        assert(list.drop_last()[i] == e);
        lemma_routed_out(rules, flow, list.drop_last(), e, d);
        let k = choose|k: int| 0 <= k < before.out.len() && before.out[k] == d;
        assert(after.out[k] == d);
    }
}

/// What is said of a reference comes out in the report, unless the reference is
/// in the glossary, or the file declares an exception for it or a number of them.
pub proof fn law_references_come_out(
    tree: Tree,
    scene: SceneView,
    exceptions: Exceptions,
    metadata: Seq<DiagView>,
    lint: ExceptionLint,
    reference: Seq<u8>,
    d: DiagView,
)
    requires
        structural::mentions_of(tree, scene).contains(
            Emission::Routed { lint, reference, diag: d },
        ),
        !scene.config.artifacts@.contains_key(reference),
        lint == ExceptionLint::StaleReferences ==> exceptions.stale_references_count is None
            && forall|i: int|
            0 <= i < exceptions.stale_references@.len() ==> text::utf8(
                (#[trigger] exceptions.stale_references@[i]).reference@,
            ) != reference,
        lint == ExceptionLint::BarePaths ==> exceptions.bare_paths_count is None && forall|i: int|
            0 <= i < exceptions.bare_paths@.len() ==> text::utf8(
                (#[trigger] exceptions.bare_paths@[i]).reference@,
            ) != reference,
    ensures
        diagnostic::in_report_order(
            structural::flow_of(tree, scene, exceptions, metadata).out,
        ).contains(d),
{
    let file = scene.file;
    let config = scene.config;
    let rules = structural::rules_of(config, exceptions);
    let early = ledger::start(exceptions, structural::early_reports(tree, file, config));
    let list = structural::mentions_of(tree, scene);
    let mentioned = ledger::emitted_all(rules, early, list);
    let late = structural::late_reports(tree, file, config, metadata);
    let all = Flow { out: mentioned.out + late, ..mentioned };
    lemma_routed_out(rules, early, list, Emission::Routed { lint, reference, diag: d }, d);
    diagnostic::lemma_either(mentioned.out, late, d);
    lemma_settling_keeps(rules.stale, ExceptionLint::StaleReferences, file, all, d);
    let first = ledger::count_settled(rules.stale, ExceptionLint::StaleReferences, file, all);
    lemma_settling_keeps(rules.bare, ExceptionLint::BarePaths, file, first, d);
    let settled = ledger::counts_settled(rules, file, all);
    let a = ledger::bucket_reports(
        rules.stale,
        settled.stale,
        ExceptionLint::StaleReferences,
        file,
    );
    let b = ledger::bucket_reports(rules.bare, settled.bare, ExceptionLint::BarePaths, file);
    diagnostic::lemma_either(settled.out, a, d);
    diagnostic::lemma_either(settled.out + a, b, d);
    diagnostic::lemma_report_order_contains(
        structural::flow_of(tree, scene, exceptions, metadata).out,
        d,
    );
}

/// What a reference without an alias calls for. Where the file exists: what it is
/// urged to be, as a hint or a warning, and as an error where bare paths are
/// denied. Where it does not, and no alias is configured: that it is stale, as
/// severely as the configuration says.
pub open spec fn called_for(
    scene: SceneView,
    reference: Seq<u8>,
    target: Seq<u8>,
    base: Severity,
    urge: Seq<u8>,
    lint: ExceptionLint,
    d: DiagView,
) -> bool {
    &&& d.file == scene.file
    &&& block::namespace_of(references::path_part(reference)) is None
    &&& match lint {
        ExceptionLint::BarePaths => {
            &&& references::resolves(scene, target)
            &&& d.message == urge
            &&& match scene.config.policy.bare_paths {
                BarePathPolicy::Disabled => false,
                BarePathPolicy::Deny => d.severity == Severity::Error,
                _ => d.severity == base,
            }
        },
        ExceptionLint::StaleReferences => {
            &&& !references::resolves(scene, target)
            &&& scene.config.external.keys().len() == 0
            &&& d.message == text::utf8("stale reference: `"@) + reference + text::utf8(
                "` — no such markdown file under this root; would moving the target update this mention? if so it's a reference — fix the path (or write it as `{repo}/…` and alias `repo` in .lattice.toml if it's in another repo); if not it's an example — except it (see `lattice help config`)"@,
            )
            &&& match scene.config.policy.stale_references {
                StaleReferencePolicy::Disabled => false,
                StaleReferencePolicy::Hint => d.severity == Severity::Hint,
                StaleReferencePolicy::Warn => d.severity == Severity::Warning,
                StaleReferencePolicy::Deny => d.severity == Severity::Error,
            }
        },
    }
}

proof fn lemma_called_for(
    scene: SceneView,
    reference: Seq<u8>,
    target: Seq<u8>,
    base: Severity,
    urge: Seq<u8>,
    lint: ExceptionLint,
    d: DiagView,
)
    requires
        called_for(scene, reference, target, base, urge, lint, d),
    ensures
        references::mention(scene, d.line, d.span, reference, target, base, urge).contains(
            Emission::Routed { lint, reference, diag: d },
        ),
{
    let list = references::mention(scene, d.line, d.span, reference, target, base, urge);
    assert(list[0] == (Emission::Routed { lint, reference, diag: d }));
}

proof fn lemma_prose(scene: SceneView, list: Seq<BarePath>, k: int, e: Emission)
    requires
        0 <= k < list.len(),
        ({
            let p = text::utf8(list[k].path@);
            references::mention(
                scene,
                list[k].line as nat,
                None,
                p,
                p,
                Severity::Warning,
                references::bare_message(p),
            ).contains(e)
        }),
    ensures
        references::prose_mentions(scene, list).contains(e),
    decreases list.len(),
{
    let b = list.last();
    let p = text::utf8(b.path@);
    if k < list.len() - 1 {
        assert(list.drop_last()[k] == list[k]);
        lemma_prose(scene, list.drop_last(), k, e);
    }
    diagnostic::lemma_either(
        references::prose_mentions(scene, list.drop_last()),
        references::mention(
            scene,
            b.line as nat,
            None,
            p,
            p,
            Severity::Warning,
            references::bare_message(p),
        ),
        e,
    );
}

/// Every path that the parser met in prose is mentioned, on its line: as one to
/// turn into a link where the file exists, and as stale where it does not.
pub proof fn law_prose_paths_are_mentioned(
    tree: Tree,
    scene: SceneView,
    k: int,
    lint: ExceptionLint,
    d: DiagView,
)
    requires
        0 <= k < tree.bare_paths@.len(),
        d.line == tree.bare_paths@[k].line,
        d.span is None,
        ({
            let p = text::utf8(tree.bare_paths@[k].path@);
            called_for(
                scene,
                p,
                p,
                Severity::Warning,
                text::utf8("bare path `"@) + p + text::utf8(
                    "`: would moving the target update this mention? if so it's a reference — convert to a markdown link; if not it's an example — except it (see `lattice help config`)"@,
                ),
                lint,
                d,
            )
        }),
    ensures
        structural::mentions_of(tree, scene).contains(
            Emission::Routed {
                lint,
                reference: text::utf8(tree.bare_paths@[k].path@),
                diag: d,
            },
        ),
{
    reveal(structural::mentions_of);
    let p = text::utf8(tree.bare_paths@[k].path@);
    let e = Emission::Routed { lint, reference: p, diag: d };
    lemma_called_for(scene, p, p, Severity::Warning, references::bare_message(p), lint, d);
    lemma_prose(scene, tree.bare_paths@, k, e);
    diagnostic::lemma_either(
        references::prose_mentions(scene, tree.bare_paths@),
        scanners::text_mentions(scene, tree, tree.nodes@),
        e,
    );
}

// Code spans.

proof fn lemma_codes(scene: SceneView, tree: Tree, children: Seq<usize>, k: int, e: Emission)
    requires
        0 <= k < children.len(),
        scanners::code_mention(scene, tree, tree.nodes@[children[k] as int]).contains(e),
    ensures
        scanners::code_mentions(scene, tree, children).contains(e),
    decreases children.len(),
{
    if k < children.len() - 1 {
        assert(children.drop_last()[k] == children[k]);
        lemma_codes(scene, tree, children.drop_last(), k, e);
    }
    diagnostic::lemma_either(
        scanners::code_mentions(scene, tree, children.drop_last()),
        scanners::code_mention(scene, tree, tree.nodes@[children.last() as int]),
        e,
    );
}

/// What stands between as many backticks at both ends is the content of a code span.
pub proof fn law_ticks_are_taken_off(inner: Seq<u8>, ticks: Seq<u8>)
    requires
        ticks.len() > 0,
        forall|k: int| 0 <= k < ticks.len() ==> #[trigger] ticks[k] == 96,
        inner.len() > 0,
        inner[0] != 96,
        !vstd::utf8::is_continuation_byte(inner[0]),
    ensures
        references::without_ticks(ticks + inner + ticks) == inner,
{
    let b = ticks + inner + ticks;
    let n = ticks.len() as int;
    assert forall|k: int| 0 <= k < n implies #[trigger] b[k] == 96 by {
        assert(b[k] == ticks[k]);
    }
    assert(b[n] == inner[0]);
    lemma_tick_run(b, 0, n);
    let end = b.len() - n;
    assert(b[end] == ticks[0]);
    let x = b[end];
    assert(!vstd::utf8::is_continuation_byte(x));
    assert(b.subrange(n, end) =~= inner);
}

proof fn lemma_tick_run(b: Seq<u8>, i: int, n: int)
    requires
        0 <= i <= n < b.len(),
        forall|k: int| i <= k < n ==> #[trigger] b[k] == 96,
        b[n] != 96,
    ensures
        references::tick_run(b, i) == n - i,
    decreases n - i,
{
    if i < n {
        assert(b[i] == 96);
        lemma_tick_run(b, i + 1, n);
    }
}

/// Every code span of a paragraph or a table cell that holds a path is mentioned,
/// with the span of the whole.
pub proof fn law_code_spans_are_mentioned(
    tree: Tree,
    scene: SceneView,
    i: int,
    k: int,
    ticks: Seq<u8>,
    inner: Seq<u8>,
    lint: ExceptionLint,
    d: DiagView,
)
    requires
        0 <= i < tree.nodes@.len(),
        tree.nodes@[i].kind is Paragraph || tree.nodes@[i].kind is TableCell,
        0 <= k < tree.nodes@[i].children@.len(),
        ({
            let child = tree.nodes@[tree.nodes@[i].children@[k] as int];
            &&& child.kind is InlineCode
            &&& tree.text_of(child) == ticks + inner + ticks
            &&& d.line == lines::line_of(tree.text(), child.span.start as int)
            &&& d.span == Some(child.span)
        }),
        ticks.len() > 0,
        forall|j: int| 0 <= j < ticks.len() ==> #[trigger] ticks[j] == 96,
        inner.len() > 0,
        inner[0] != 96,
        !vstd::utf8::is_continuation_byte(inner[0]),
        references::path_shaped(inner),
        called_for(
            scene,
            inner,
            references::path_part(inner),
            Severity::Hint,
            text::utf8("backticked path `"@) + inner + text::utf8(
                "` refers to an existing file: would moving it update this mention? if so it's a reference — make it a link; if not it's an example — drop the extension (a name) or except it with a reason (see `lattice help config`)"@,
            ),
            lint,
            d,
        ),
    ensures
        structural::mentions_of(tree, scene).contains(
            Emission::Routed { lint, reference: inner, diag: d },
        ),
{
    reveal(structural::mentions_of);
    let node = tree.nodes@[i];
    let child = tree.nodes@[node.children@[k] as int];
    let e = Emission::Routed { lint, reference: inner, diag: d };
    law_ticks_are_taken_off(inner, ticks);
    lemma_called_for(
        scene,
        inner,
        references::path_part(inner),
        Severity::Hint,
        scanners::backticked_message(inner),
        lint,
        d,
    );
    lemma_codes(scene, tree, node.children@, k, e);
    diagnostic::lemma_either(
        scanners::rows_mentions(
            scene,
            tree.text(),
            tree.text_of(node),
            node.span.start as int,
            lines::rows_from(tree.text_of(node), 0),
            scanners::child_spans(tree, node.children@),
        ),
        scanners::code_mentions(scene, tree, node.children@),
        e,
    );
    lemma_nodes_contain(scene, tree, tree.nodes@, i, e);
    diagnostic::lemma_either(
        references::prose_mentions(scene, tree.bare_paths@),
        scanners::text_mentions(scene, tree, tree.nodes@),
        e,
    );
}

// Quotations.

proof fn lemma_quoted(
    scene: SceneView,
    line: LineView,
    excluded: Seq<Span>,
    from: int,
    i: int,
    end: int,
    e: Emission,
)
    requires
        0 <= from <= i < end < line.bytes.len(),
        forall|k: int| from <= k < i ==> #[trigger] line.bytes[k] != 34 && line.bytes[k] != 39,
        line.bytes[i] == 34,
        forall|k: int| i < k < end ==> #[trigger] line.bytes[k] != 34,
        line.bytes[end] == 34,
        scanners::quoted_mention(scene, line, excluded, i, end).contains(e),
    ensures
        scanners::quoted_mentions(scene, line, excluded, from).contains(e),
    decreases i - from,
{
    let b = line.bytes;
    if from < i {
        assert(b[from] != 34 && b[from] != 39);
        lemma_quoted(scene, line, excluded, from + 1, i, end, e);
    } else {
        lemma_closing(b, i + 1, end);
        diagnostic::lemma_either(
            scanners::quoted_mention(scene, line, excluded, i, end),
            scanners::quoted_mentions(scene, line, excluded, end + 1),
            e,
        );
    }
}

proof fn lemma_closing(b: Seq<u8>, from: int, end: int)
    requires
        0 <= from <= end < b.len(),
        forall|k: int| from <= k < end ==> #[trigger] b[k] != 34,
        b[end] == 34,
    ensures
        scanners::closing_quote(b, from, 34) == Some(end),
    decreases end - from,
{
    if from < end {
        assert(b[from] != 34);
        lemma_closing(b, from + 1, end);
    }
}

/// A path between double quotes, the first quotation of its line, is mentioned
/// wherever a paragraph or a table cell has one outside its children's spans; the
/// span goes from quote to quote.
pub proof fn law_quoted_paths_are_mentioned(
    tree: Tree,
    scene: SceneView,
    i: int,
    start: int,
    at: int,
    end: int,
    inner: Seq<u8>,
    lint: ExceptionLint,
    d: DiagView,
)
    requires
        tree.wf(),
        0 <= i < tree.nodes@.len(),
        tree.nodes@[i].kind is Paragraph || tree.nodes@[i].kind is TableCell,
        ({
            let node = tree.nodes@[i];
            let t = tree.text().subrange(node.span.start as int, node.span.end as int);
            &&& 0 <= start <= at < end < t.len()
            &&& start == 0 || t[start - 1] == 10
            &&& forall|k: int| start <= k <= end ==> #[trigger] t[k] != 10
            &&& forall|k: int| start <= k < at ==> #[trigger] t[k] != 34 && t[k] != 39
            &&& t[at] == 34
            &&& forall|k: int| at < k < end ==> #[trigger] t[k] != 34
            &&& t[end] == 34
            &&& inner == t.subrange(at + 1, end)
            &&& d.line == lines::line_of(tree.text(), node.span.start + at)
            &&& d.span == Some(
                Span {
                    start: (node.span.start + at) as usize,
                    end: (node.span.start + end + 1) as usize,
                },
            )
        }),
        forall|k: int|
            0 <= k < tree.nodes@[i].children@.len() ==> !((
            tree.nodes@[#[trigger] tree.nodes@[i].children@[k] as int].span.start)
                <= tree.nodes@[i].span.start + at
                < tree.nodes@[tree.nodes@[i].children@[k] as int].span.end),
        references::path_shaped(inner),
        called_for(
            scene,
            inner,
            references::path_part(inner),
            Severity::Hint,
            text::utf8("quoted path `"@) + seq![34u8] + inner + seq![34u8] + text::utf8(
                "`: would moving the target update this mention? if so it's a reference — make it a markdown link; if not it's an example — except it (see `lattice help config`)"@,
            ),
            lint,
            d,
        ),
    ensures
        structural::mentions_of(tree, scene).contains(
            Emission::Routed { lint, reference: inner, diag: d },
        ),
{
    let node = tree.nodes@[i];
    let e = Emission::Routed { lint, reference: inner, diag: d };
    let b = tree.text();
    let base = node.span.start as int;
    assert(tree.node_wf(i, node));
    let t = tree.text_of(node);
    assert(t == b.subrange(base, node.span.end as int));
    vstd::utf8::encode_utf8_valid_utf8(tree.source@);
    let row = lemma_row_of(t, 0, at);
    assert(row.0 == start) by {
        if row.0 < start {
            assert(t[start - 1] != 10);
        }
        if row.0 > start {
            assert(t[row.0 - 1] != 10);
        }
    }
    assert(end < row.1) by {
        if row.1 <= end {
            assert(t[row.1] != 10);
        }
    }
    lemma_row_cut(b, base, t, row);
    let bytes = t.subrange(row.0, row.1);
    let line = LineView { bytes, start: base + row.0, number: lines::line_of(b, base + row.0) };
    let spans = scanners::child_spans(tree, node.children@);
    assert forall|k: int| base + row.0 <= k < base + at implies #[trigger] b[k] != 10 by {
        assert(t[k - base] != 10);
    }
    lemma_same_line(b, base + row.0, base + at);
    lemma_not_excluded(tree, node, at);
    let lo = row.0;
    assert(bytes[at - lo] == t[at] && bytes[end - lo] == t[end]);
    assert forall|k: int| 0 <= k < at - lo implies #[trigger] bytes[k] != 34 && bytes[k] != 39 by {
        assert(bytes[k] == t[lo + k]);
    }
    assert forall|k: int| at - lo < k < end - lo implies #[trigger] bytes[k] != 34 by {
        assert(bytes[k] == t[lo + k]);
    }
    assert(text::piece(bytes, at - lo + 1, end - lo) == inner) by {
        assert(bytes.subrange(at - lo + 1, end - lo) =~= inner);
        assert(b[base + at] == 34);
        text::lemma_after_ascii(b, base + at + 1);
        if at + 1 < end {
            assert(b[base + at + 1] == bytes[at - lo + 1]);
        }
        let x = bytes[end - lo];
        assert(!vstd::utf8::is_continuation_byte(x));
    }
    lemma_quote_text();
    let urge = scanners::quoted_message(34, inner);
    assert(urge =~= text::utf8("quoted path `"@) + seq![34u8] + inner + seq![34u8] + text::utf8(
        "`: would moving the target update this mention? if so it's a reference — make it a markdown link; if not it's an example — except it (see `lattice help config`)"@,
    ));
    lemma_called_for(
        scene,
        inner,
        references::path_part(inner),
        Severity::Hint,
        urge,
        lint,
        d,
    );
    lemma_quoted(scene, line, spans, 0, at - lo, end - lo, e);
    diagnostic::lemma_either(
        scanners::line_urls(scene, line, spans),
        scanners::quoted_mentions(scene, line, spans, 0),
        e,
    );
    let rows = lines::rows_from(t, 0);
    lemma_rows_contain(scene, b, t, base, rows, spans, row, e);
    diagnostic::lemma_either(
        scanners::rows_mentions(scene, b, t, base, rows, spans),
        scanners::code_mentions(scene, tree, node.children@),
        e,
    );
    lemma_nodes_contain(scene, tree, tree.nodes@, i, e);
    reveal(structural::mentions_of);
    diagnostic::lemma_either(
        references::prose_mentions(scene, tree.bare_paths@),
        scanners::text_mentions(scene, tree, tree.nodes@),
        e,
    );
}

proof fn lemma_quote_text()
    ensures
        text::utf8("\""@) == seq![34u8],
{
    reveal_strlit("\"");
    assert(vstd::utf8::is_ascii_chars("\""@));
    vstd::utf8::is_ascii_chars_encode_utf8("\""@);
    assert(text::utf8("\""@) =~= seq![34u8]);
}

proof fn lemma_row_cut(b: Seq<u8>, base: int, t: Seq<u8>, row: (int, int))
    requires
        vstd::utf8::valid_utf8(b),
        0 <= base,
        base + t.len() <= b.len(),
        t == b.subrange(base, base + t.len()),
        0 <= row.0 <= row.1 <= t.len(),
        row.0 == 0 || t[row.0 - 1] == 10,
        row.1 == t.len() || t[row.1] == 10,
    ensures
        text::piece(t, row.0, row.1) == t.subrange(row.0, row.1),
{
    if 0 < row.0 < t.len() {
        assert(b[base + row.0 - 1] == t[row.0 - 1]);
        text::lemma_after_ascii(b, base + row.0);
        assert(t[row.0] == b[base + row.0]);
    }
    if row.1 < t.len() {
        let x = t[row.1];
        assert(!vstd::utf8::is_continuation_byte(x));
    }
}

proof fn lemma_not_excluded(tree: Tree, node: Node, at: int)
    requires
        forall|k: int|
            0 <= k < node.children@.len() ==> !((tree.nodes@[#[trigger] node.children@[k] as int]
                .span.start) <= node.span.start + at < tree.nodes@[node.children@[k] as int]
                .span.end),
    ensures
        !scanners::excluded_at(
            node.span.start + at,
            scanners::child_spans(tree, node.children@),
        ),
{
    let spans = scanners::child_spans(tree, node.children@);
    assert forall|k: int| 0 <= k < spans.len() implies !((#[trigger] spans[k]).start
        <= node.span.start + at < spans[k].end) by {
        let c = node.children@[k];
        assert(spans[k] == tree.nodes@[c as int].span);
    }
}

// Exceptions.

/// Whether an emission is about a reference, for a lint, and not about an artifact.
pub open spec fn is_about(rules: Rules, e: Emission, lint: ExceptionLint, reference: Seq<u8>) -> bool {
    &&& e matches Emission::Routed { lint: l, reference: r, diag } && l == lint && r == reference
    &&& !rules.artifacts.contains_key(reference)
}

proof fn lemma_matched(
    rules: Rules,
    flow: Flow,
    list: Seq<Emission>,
    lint: ExceptionLint,
    i: int,
)
    requires
        rules.of(lint).active,
        0 <= i < rules.of(lint).entries.len(),
        flow.of(lint).matched.len() == rules.of(lint).entries.len(),
        !flow.of(lint).matched[i],
    ensures
        ({
            let st = ledger::emitted_all(rules, flow, list).of(lint);
            let reference = text::utf8(rules.of(lint).entries[i].reference@);
            &&& st.matched.len() == rules.of(lint).entries.len()
            &&& st.matched[i] == exists|k: int|
                0 <= k < list.len() && is_about(rules, #[trigger] list[k], lint, reference)
        }),
    decreases list.len(),
{
    if list.len() > 0 {
        let most = list.drop_last();
        let e = list.last();
        let reference = text::utf8(rules.of(lint).entries[i].reference@);
        lemma_matched(rules, flow, most, lint, i);
        let before = ledger::emitted_all(rules, flow, most);
        let after = ledger::emitted(rules, before, e);
        if is_about(rules, e, lint, reference) {
            assert(ledger::excepted(rules.of(lint).entries, reference));
            assert(after.of(lint).matched[i]);
            assert(is_about(rules, list[list.len() - 1], lint, reference));
        } else {
            assert(after.of(lint).matched[i] == before.of(lint).matched[i]);
        }
        if exists|k: int| 0 <= k < most.len() && is_about(rules, #[trigger] most[k], lint, reference) {
            let k = choose|k: int|
                0 <= k < most.len() && is_about(rules, #[trigger] most[k], lint, reference);
            assert(list[k] == most[k]);
        }
        if exists|k: int| 0 <= k < list.len() && is_about(rules, #[trigger] list[k], lint, reference) {
            let k = choose|k: int|
                0 <= k < list.len() && is_about(rules, #[trigger] list[k], lint, reference);
            if k < most.len() {
                assert(most[k] == list[k]);
            }
        }
    }
}

proof fn lemma_entries(
    entries: Seq<ExceptionEntry>,
    matched: Seq<bool>,
    lint: ExceptionLint,
    file: Seq<u8>,
    n: int,
    i: int,
    d: DiagView,
)
    requires
        0 <= i < n,
        ledger::entry_report(entries[i], matched[i], lint, file).contains(d),
    ensures
        ledger::entry_reports(entries, matched, lint, file, n).contains(d),
    decreases n,
{
    if i < n - 1 {
        lemma_entries(entries, matched, lint, file, n - 1, i, d);
    }
    diagnostic::lemma_either(
        ledger::entry_reports(entries, matched, lint, file, n - 1),
        ledger::entry_report(entries[n - 1], matched[n - 1], lint, file),
        d,
    );
}

/// Whether a lint is on.
pub open spec fn is_on(scene: SceneView, lint: ExceptionLint) -> bool {
    match lint {
        ExceptionLint::StaleReferences => scene.config.policy.stale_references
            != StaleReferencePolicy::Disabled,
        ExceptionLint::BarePaths => scene.config.policy.bare_paths != BarePathPolicy::Disabled,
    }
}

/// An exception for a lint that is on is reported at its key: without a reason, for
/// that; with one, as unused, where nothing is said of its reference.
pub proof fn law_idle_exceptions_are_reported(
    tree: Tree,
    scene: SceneView,
    exceptions: Exceptions,
    metadata: Seq<DiagView>,
    lint: ExceptionLint,
    i: int,
)
    requires
        is_on(scene, lint),
        0 <= i < exceptions.entries_of(lint).len(),
        ({
            let entry = exceptions.entries_of(lint)[i];
            ||| lines::trimmed(text::utf8(entry.reason@)).len() == 0
            ||| forall|k: int, d: DiagView|
                0 <= k < structural::mentions_of(tree, scene).len()
                    ==> #[trigger] structural::mentions_of(tree, scene)[k] != (
                #[trigger] routed_to(lint, text::utf8(entry.reference@), d))
        }),
    ensures
        ({
            let entry = exceptions.entries_of(lint)[i];
            let reference = text::utf8(entry.reference@);
            let key = match lint {
                ExceptionLint::StaleReferences => text::utf8("stale_references"@),
                ExceptionLint::BarePaths => text::utf8("bare_paths"@),
            };
            diagnostic::in_report_order(
                structural::flow_of(tree, scene, exceptions, metadata).out,
            ).contains(
                DiagView {
                    file: scene.file,
                    line: entry.line as nat,
                    severity: Severity::Warning,
                    message: if lines::trimmed(text::utf8(entry.reason@)).len() == 0 {
                        text::utf8("exception `"@) + reference + text::utf8(
                            "` under `exceptions."@,
                        ) + key + text::utf8(
                            "` has no reason — add one explaining why this is not a live reference (see `lattice help config`)"@,
                        )
                    } else {
                        text::utf8("unused exception: `"@) + reference + text::utf8(
                            "` (reason: \""@,
                        ) + text::utf8(entry.reason@) + text::utf8(
                            "\") — no longer in the document. Drop the exception if its removal was intended; restore the reference if it wasn't (see `lattice help config`)"@,
                        )
                    },
                    span: Some(entry.key_span),
                },
            )
        }),
{
    let file = scene.file;
    let config = scene.config;
    let rules = structural::rules_of(config, exceptions);
    let early = ledger::start(exceptions, structural::early_reports(tree, file, config));
    let list = structural::mentions_of(tree, scene);
    let mentioned = ledger::emitted_all(rules, early, list);
    let late = structural::late_reports(tree, file, config, metadata);
    let all = Flow { out: mentioned.out + late, ..mentioned };
    let settled = ledger::counts_settled(rules, file, all);
    let entry = exceptions.entries_of(lint)[i];
    let reference = text::utf8(entry.reference@);
    lemma_matched(rules, early, list, lint, i);
    let matched = mentioned.of(lint).matched;
    assert(settled.of(lint).matched == matched);
    if lines::trimmed(text::utf8(entry.reason@)).len() != 0 {
        assert forall|k: int| 0 <= k < list.len() implies !is_about(
            rules,
            #[trigger] list[k],
            lint,
            reference,
        ) by {
            if is_about(rules, list[k], lint, reference) {
                let d = list[k]->diag;
                assert(list[k] == routed_to(lint, reference, d));
            }
        }
        assert(!matched[i]);
    }
    let d = ledger::entry_report(entry, matched[i], lint, file)[0];
    assert(ledger::entry_report(entry, matched[i], lint, file).contains(d));
    lemma_entries(
        rules.of(lint).entries,
        matched,
        lint,
        file,
        rules.of(lint).entries.len() as int,
        i,
        d,
    );
    let a = ledger::bucket_reports(
        rules.stale,
        settled.stale,
        ExceptionLint::StaleReferences,
        file,
    );
    let b = ledger::bucket_reports(rules.bare, settled.bare, ExceptionLint::BarePaths, file);
    diagnostic::lemma_either(settled.out, a, d);
    diagnostic::lemma_either(settled.out + a, b, d);
    diagnostic::lemma_report_order_contains(
        structural::flow_of(tree, scene, exceptions, metadata).out,
        d,
    );
}

/// A finding about a reference, on its way.
pub open spec fn routed_to(lint: ExceptionLint, reference: Seq<u8>, diag: DiagView) -> Emission {
    Emission::Routed { lint, reference, diag }
}

// What is not found.

spec fn no_plain(list: Seq<Emission>) -> bool {
    forall|i: int| 0 <= i < list.len() ==> (#[trigger] list[i]) is Routed
}

proof fn lemma_no_plain_in_two(a: Seq<Emission>, b: Seq<Emission>)
    requires
        no_plain(a),
        no_plain(b),
    ensures
        no_plain(a + b),
{
    let all = a + b;
    assert forall|i: int| 0 <= i < all.len() implies (#[trigger] all[i]) is Routed by {
        if i < a.len() {
            assert(all[i] == a[i]);
        } else {
            assert(all[i] == b[i - a.len()]);
        }
    }
}

proof fn lemma_prose_not_plain(scene: SceneView, list: Seq<BarePath>)
    ensures
        no_plain(references::prose_mentions(scene, list)),
    decreases list.len(),
{
    if list.len() > 0 {
        let b = list.last();
        let p = text::utf8(b.path@);
        lemma_prose_not_plain(scene, list.drop_last());
        lemma_no_plain_in_two(
            references::prose_mentions(scene, list.drop_last()),
            references::mention(
                scene,
                b.line as nat,
                None,
                p,
                p,
                Severity::Warning,
                references::bare_message(p),
            ),
        );
    }
}

proof fn lemma_quoted_not_plain(scene: SceneView, line: LineView, excluded: Seq<Span>, i: int)
    ensures
        no_plain(scanners::quoted_mentions(scene, line, excluded, i)),
    decreases line.bytes.len() - i,
{
    let b = line.bytes;
    if 0 <= i < b.len() {
        if (b[i] == 34 || b[i] == 39) && scanners::delimits(b, i, b[i], true)
            && scanners::closing_quote(b, i + 1, b[i]) is Some {
            let end = scanners::closing_quote(b, i + 1, b[i])->0;
            scanners::lemma_closing_quote(b, i + 1, b[i]);
            lemma_quoted_not_plain(scene, line, excluded, end + 1);
            lemma_no_plain_in_two(
                scanners::quoted_mention(scene, line, excluded, i, end),
                scanners::quoted_mentions(scene, line, excluded, end + 1),
            );
        } else {
            lemma_quoted_not_plain(scene, line, excluded, i + 1);
        }
    }
}

proof fn lemma_codes_not_plain(scene: SceneView, tree: Tree, children: Seq<usize>)
    ensures
        no_plain(scanners::code_mentions(scene, tree, children)),
    decreases children.len(),
{
    if children.len() > 0 {
        lemma_codes_not_plain(scene, tree, children.drop_last());
        lemma_no_plain_in_two(
            scanners::code_mentions(scene, tree, children.drop_last()),
            scanners::code_mention(scene, tree, tree.nodes@[children.last() as int]),
        );
    }
}

/// The place that a mention of a URL comes from.
proof fn lemma_url_of(
    scene: SceneView,
    line: LineView,
    excluded: Seq<Span>,
    scheme: Seq<u8>,
    from: int,
    e: Emission,
) -> (at: int)
    requires
        scanners::url_mentions(scene, line, excluded, scheme, from).contains(e),
    ensures
        text::matches_at(line.bytes, at, scheme),
        scanners::url_mention(scene, line, excluded, scheme, at).contains(e),
    decreases line.bytes.len() - from,
{
    text::lemma_first_match(line.bytes, from, scheme);
    let at = text::first_match(line.bytes, from, scheme)->0;
    let here = scanners::url_mention(scene, line, excluded, scheme, at);
    let rest = scanners::url_mentions(scene, line, excluded, scheme, at + scheme.len());
    diagnostic::lemma_either(here, rest, e);
    if here.contains(e) {
        at
    } else {
        lemma_url_of(scene, line, excluded, scheme, at + scheme.len(), e)
    }
}

proof fn lemma_plain_row(
    scene: SceneView,
    source: Seq<u8>,
    part: Seq<u8>,
    base: int,
    rows: Seq<(int, int)>,
    excluded: Seq<Span>,
    e: Emission,
) -> (row: (int, int))
    requires
        scanners::rows_mentions(scene, source, part, base, rows, excluded).contains(e),
        e is Plain,
    ensures
        ({
            let line = LineView {
                bytes: text::piece(part, row.0, row.1),
                start: base + row.0,
                number: lines::line_of(source, base + row.0),
            };
            scanners::line_urls(scene, line, excluded).contains(e)
        }),
        scene.config.policy.bare_paths != BarePathPolicy::Disabled,
    decreases rows.len(),
{
    let most = rows.drop_last();
    let row = rows.last();
    let before = scanners::rows_mentions(scene, source, part, base, most, excluded);
    let one = scanners::row_mentions(scene, source, part, base, row, excluded);
    diagnostic::lemma_either(before, one, e);
    if before.contains(e) {
        lemma_plain_row(scene, source, part, base, most, excluded, e)
    } else {
        let line = LineView {
            bytes: text::piece(part, row.0, row.1),
            start: base + row.0,
            number: lines::line_of(source, base + row.0),
        };
        let quoted = scanners::quoted_mentions(scene, line, excluded, 0);
        lemma_quoted_not_plain(scene, line, excluded, 0);
        if quoted.contains(e) {
            let k = choose|k: int| 0 <= k < quoted.len() && quoted[k] == e;
            assert(quoted[k] is Routed);
        }
        diagnostic::lemma_either(scanners::line_urls(scene, line, excluded), quoted, e);
        row
    }
}

proof fn lemma_plain_node(scene: SceneView, tree: Tree, nodes: Seq<Node>, e: Emission) -> (i: int)
    requires
        scanners::text_mentions(scene, tree, nodes).contains(e),
    ensures
        0 <= i < nodes.len(),
        scanners::node_mentions(scene, tree, nodes[i]).contains(e),
    decreases nodes.len(),
{
    if nodes.len() == 0 {
        0
    } else {
        let most = nodes.drop_last();
        diagnostic::lemma_either(
            scanners::text_mentions(scene, tree, most),
            scanners::node_mentions(scene, tree, nodes.last()),
            e,
        );
        if scanners::text_mentions(scene, tree, most).contains(e) {
            let i = lemma_plain_node(scene, tree, most, e);
            assert(most[i] == nodes[i]);
            i
        } else {
            nodes.len() - 1
        }
    }
}

/// A bare URL is reported only where there is one: in a paragraph or a table cell, at
/// a scheme, outside the spans of the children, with the text of its span; and only
/// where the lint is on.
pub proof fn law_reported_urls_are_there(tree: Tree, scene: SceneView, d: DiagView) -> (found: (
    int,
    int,
    int,
))
    requires
        tree.wf(),
        structural::mentions_of(tree, scene).contains(Emission::Plain(d)),
    ensures
        scene.config.policy.bare_paths != BarePathPolicy::Disabled,
        0 <= found.0 < tree.nodes@.len(),
        ({
            let (i, at, n) = found;
            let node = tree.nodes@[i];
            let t = tree.text().subrange(node.span.start as int, node.span.end as int);
            &&& node.kind is Paragraph || node.kind is TableCell
            &&& scheme_at(t, at, n)
            &&& d.span is Some
            &&& d.span->0.start == node.span.start + at
            &&& d.span->0.start + n < d.span->0.end <= node.span.end
            &&& d.message == text::utf8("bare URL `"@) + tree.text().subrange(
                d.span->0.start as int,
                d.span->0.end as int,
            ) + text::utf8("`: wrap in angle brackets or make a markdown link"@)
            &&& forall|k: int|
                0 <= k < node.children@.len() ==> !((
                tree.nodes@[#[trigger] node.children@[k] as int].span.start) <= d.span->0.start
                    < tree.nodes@[node.children@[k] as int].span.end)
        }),
{
    reveal(structural::mentions_of);
    let e = Emission::Plain(d);
    let b = tree.text();
    lemma_prose_not_plain(scene, tree.bare_paths@);
    let prose = references::prose_mentions(scene, tree.bare_paths@);
    let said = scanners::text_mentions(scene, tree, tree.nodes@);
    diagnostic::lemma_either(prose, said, e);
    if prose.contains(e) {
        let k = choose|k: int| 0 <= k < prose.len() && prose[k] == e;
        assert(prose[k] is Routed);
    }
    let i = lemma_plain_node(scene, tree, tree.nodes@, e);
    let node = tree.nodes@[i];
    assert(tree.node_wf(i, node));
    let t = tree.text_of(node);
    let base = node.span.start as int;
    let rows = lines::rows_from(t, 0);
    let spans = scanners::child_spans(tree, node.children@);
    let codes = scanners::code_mentions(scene, tree, node.children@);
    lemma_codes_not_plain(scene, tree, node.children@);
    diagnostic::lemma_either(
        scanners::rows_mentions(scene, b, t, base, rows, spans),
        codes,
        e,
    );
    if codes.contains(e) {
        let k = choose|k: int| 0 <= k < codes.len() && codes[k] == e;
        assert(codes[k] is Routed);
    }
    let row = lemma_plain_row(scene, b, t, base, rows, spans, e);
    let line = LineView {
        bytes: text::piece(t, row.0, row.1),
        start: base + row.0,
        number: lines::line_of(b, base + row.0),
    };
    lemma_schemes();
    let https = text::utf8("https://"@);
    let http = text::utf8("http://"@);
    diagnostic::lemma_either(
        scanners::url_mentions(scene, line, spans, https, 0),
        scanners::url_mentions(scene, line, spans, http, 0),
        e,
    );
    let scheme = if scanners::url_mentions(scene, line, spans, https, 0).contains(e) {
        https
    } else {
        http
    };
    let at = lemma_url_of(scene, line, spans, scheme, 0, e);
    let n = scheme.len() as int;
    let end = scanners::url_end(line.bytes, at, scanners::url_stop(line.bytes, at));
    let url = text::piece(line.bytes, at, end);
    let one = scanners::url_mention(scene, line, spans, scheme, at);
    let x = choose|x: int| 0 <= x < one.len() && one[x] == e;
    assert(one[0] == e);
    let lo = row.0;
    assert(line.bytes.len() > 0);
    assert(line.bytes == t.subrange(row.0, row.1));
    assert(url == line.bytes.subrange(at, end));
    assert(t.subrange(lo + at, lo + at + n) =~= line.bytes.subrange(at, at + n));
    assert(b.subrange(base + lo + at, base + lo + end) =~= url);
    assert forall|k: int| 0 <= k < node.children@.len() implies !((
    tree.nodes@[#[trigger] node.children@[k] as int].span.start) <= d.span->0.start
        < tree.nodes@[node.children@[k] as int].span.end) by {
        let c = node.children@[k];
        assert(spans[k] == tree.nodes@[c as int].span);
    }
    (i, lo + at, n)
}

// All quotations of a line.

/// Whether a quotation of a line goes from one offset to another, the first one from
/// `from` on: between two equal quotes without a third one; single quotes only where
/// a space, a parenthesis or the start of the line stands before and no word behind.
pub open spec fn is_quotation(b: Seq<u8>, from: int, q: (int, int)) -> bool {
    &&& 0 <= from <= q.0 < q.1 < b.len()
    &&& forall|j: int| from <= j < q.0 ==> #[trigger] b[j] != 34 && b[j] != 39
    &&& b[q.0] == 34 || b[q.0] == 39 && (q.0 == 0 || b[q.0 - 1] == 32 || b[q.0 - 1] == 40)
    &&& forall|j: int| q.0 < j < q.1 ==> #[trigger] b[j] != b[q.0]
    &&& b[q.1] == b[q.0]
    &&& b[q.0] == 39 ==> q.1 + 1 == b.len() || !scanners::word_at(b, q.1 + 1)
}

/// Whether quotations of a line follow one another from its start on.
pub open spec fn are_quotations(b: Seq<u8>, list: Seq<(int, int)>) -> bool {
    &&& list.len() > 0 ==> is_quotation(b, 0, list[0])
    &&& forall|i: int, j: int|
        #![trigger list[i], list[j]]
        0 <= i && j == i + 1 && j < list.len() ==> is_quotation(b, list[i].1 + 1, list[j])
}

proof fn lemma_no_word_at_the_end(b: Seq<u8>)
    ensures
        !scanners::word_at(b, b.len() as int),
{
    let none = text::piece(b, b.len() as int, b.len() as int);
    assert(none =~= Seq::<u8>::empty());
    assert(vstd::utf8::decode_utf8(none).len() == 0);
}

proof fn lemma_closes_there(b: Seq<u8>, from: int, end: int, q: u8)
    requires
        0 <= from <= end < b.len(),
        forall|k: int| from <= k < end ==> #[trigger] b[k] != q,
        b[end] == q,
        q == 34 || q == 39,
        q == 39 ==> end + 1 == b.len() || !scanners::word_at(b, end + 1),
    ensures
        scanners::closing_quote(b, from, q) == Some(end),
    decreases end - from,
{
    lemma_no_word_at_the_end(b);
    if from < end {
        assert(b[from] != q);
        lemma_closes_there(b, from + 1, end, q);
    }
}

/// From offset `from` on, the next quotation is the first thing that counts.
proof fn lemma_next_quotation(
    scene: SceneView,
    line: LineView,
    excluded: Seq<Span>,
    from: int,
    q: (int, int),
)
    requires
        is_quotation(line.bytes, from, q),
    ensures
        scanners::quoted_mentions(scene, line, excluded, from) == scanners::quoted_mention(
            scene,
            line,
            excluded,
            q.0,
            q.1,
        ) + scanners::quoted_mentions(scene, line, excluded, q.1 + 1),
    decreases q.0 - from,
{
    let b = line.bytes;
    if from < q.0 {
        assert(b[from] != 34 && b[from] != 39);
        lemma_next_quotation(scene, line, excluded, from + 1, q);
    } else {
        lemma_closes_there(b, q.0 + 1, q.1, b[q.0]);
        assert(scanners::delimits(b, q.0, b[q.0], true)) by {
            if b[q.0] == 39 && q.0 > 0 && b[q.0 - 1] == 32 {
                lemma_space_before(b, q.0);
            }
        }
    }
}

proof fn lemma_space_before(b: Seq<u8>, i: int)
    requires
        0 < i <= b.len(),
        b[i - 1] == 32,
    ensures
        lines::space_len_before(b, i) > 0,
{
}

proof fn lemma_later_quotation(
    scene: SceneView,
    line: LineView,
    excluded: Seq<Span>,
    list: Seq<(int, int)>,
    from: int,
    k: int,
    e: Emission,
)
    requires
        are_quotations(line.bytes, list),
        0 <= from <= k < list.len(),
        scanners::quoted_mention(scene, line, excluded, list[k].0, list[k].1).contains(e),
    ensures
        scanners::quoted_mentions(
            scene,
            line,
            excluded,
            if from == 0 {
                0
            } else {
                list[from - 1].1 + 1
            },
        ).contains(e),
    decreases k - from,
{
    let at = if from == 0 {
        0
    } else {
        list[from - 1].1 + 1
    };
    assert(is_quotation(line.bytes, at, list[from])) by {
        if from > 0 {
            let p = list[from - 1];
        }
    }
    lemma_next_quotation(scene, line, excluded, at, list[from]);
    if from < k {
        lemma_later_quotation(scene, line, excluded, list, from + 1, k, e);
    }
    diagnostic::lemma_either(
        scanners::quoted_mention(scene, line, excluded, list[from].0, list[from].1),
        scanners::quoted_mentions(scene, line, excluded, list[from].1 + 1),
        e,
    );
}

proof fn lemma_apostrophe_text()
    ensures
        text::utf8("'"@) == seq![39u8],
{
    reveal_strlit("'");
    assert(vstd::utf8::is_ascii_chars("'"@));
    vstd::utf8::is_ascii_chars_encode_utf8("'"@);
    assert(text::utf8("'"@) =~= seq![39u8]);
}

/// Every quotation of a line is looked at, between double or single quotes, however
/// many stand before it: a path in one is mentioned wherever a paragraph or a table
/// cell has it outside its children's spans.
pub proof fn law_every_quotation_is_mentioned(
    tree: Tree,
    scene: SceneView,
    i: int,
    start: int,
    stop: int,
    list: Seq<(int, int)>,
    m: int,
    inner: Seq<u8>,
    lint: ExceptionLint,
    d: DiagView,
)
    requires
        tree.wf(),
        0 <= i < tree.nodes@.len(),
        tree.nodes@[i].kind is Paragraph || tree.nodes@[i].kind is TableCell,
        ({
            let node = tree.nodes@[i];
            let t = tree.text().subrange(node.span.start as int, node.span.end as int);
            let line = t.subrange(start, stop);
            &&& 0 <= start <= stop <= t.len()
            &&& start == 0 || t[start - 1] == 10
            &&& stop == t.len() || t[stop] == 10
            &&& forall|k: int| start <= k < stop ==> #[trigger] t[k] != 10
            &&& are_quotations(line, list)
            &&& 0 <= m < list.len()
            &&& inner == line.subrange(list[m].0 + 1, list[m].1)
            &&& d.line == lines::line_of(tree.text(), node.span.start + start + list[m].0)
            &&& d.span == Some(
                Span {
                    start: (node.span.start + start + list[m].0) as usize,
                    end: (node.span.start + start + list[m].1 + 1) as usize,
                },
            )
            &&& called_for(
                scene,
                inner,
                references::path_part(inner),
                Severity::Hint,
                text::utf8("quoted path `"@) + seq![line[list[m].0]] + inner + seq![
                    line[list[m].0],
                ] + text::utf8(
                    "`: would moving the target update this mention? if so it's a reference — make it a markdown link; if not it's an example — except it (see `lattice help config`)"@,
                ),
                lint,
                d,
            )
        }),
        forall|k: int|
            0 <= k < tree.nodes@[i].children@.len() ==> !((
            tree.nodes@[#[trigger] tree.nodes@[i].children@[k] as int].span.start)
                <= tree.nodes@[i].span.start + start + list[m].0
                < tree.nodes@[tree.nodes@[i].children@[k] as int].span.end),
        references::path_shaped(inner),
    ensures
        structural::mentions_of(tree, scene).contains(
            Emission::Routed { lint, reference: inner, diag: d },
        ),
{
    let node = tree.nodes@[i];
    let e = Emission::Routed { lint, reference: inner, diag: d };
    let b = tree.text();
    let base = node.span.start as int;
    assert(tree.node_wf(i, node));
    let t = tree.text_of(node);
    assert(t == b.subrange(base, node.span.end as int));
    vstd::utf8::encode_utf8_valid_utf8(tree.source@);
    let bytes = t.subrange(start, stop);
    lemma_quotations_lie_inside(bytes, list, m);
    let at = start + list[m].0;
    let end = start + list[m].1;
    let row = lemma_row_of(t, 0, at);
    assert(row.0 == start) by {
        if row.0 < start {
            assert(t[start - 1] != 10);
        }
        if row.0 > start {
            assert(t[row.0 - 1] != 10);
        }
    }
    assert(row.1 == stop) by {
        if row.1 < stop {
            assert(t[row.1] != 10);
        }
        if row.1 > stop {
            assert(t[stop] != 10);
        }
    }
    lemma_row_cut(b, base, t, row);
    let line = LineView { bytes, start: base + start, number: lines::line_of(b, base + start) };
    let spans = scanners::child_spans(tree, node.children@);
    assert forall|k: int| base + start <= k < base + at implies #[trigger] b[k] != 10 by {
        assert(t[k - base] != 10);
    }
    lemma_same_line(b, base + start, base + at);
    lemma_not_excluded(tree, node, at);
    let q = bytes[list[m].0];
    assert(q == 34 || q == 39);
    assert(text::piece(bytes, list[m].0 + 1, list[m].1) == inner) by {
        assert(b[base + at] == q);
        text::lemma_after_ascii(b, base + at + 1);
        assert(b[base + at + 1] == bytes[list[m].0 + 1]);
        let x = bytes[list[m].1];
        assert(!vstd::utf8::is_continuation_byte(x));
    }
    lemma_quote_text();
    lemma_apostrophe_text();
    let urge = scanners::quoted_message(q, inner);
    assert(urge =~= text::utf8("quoted path `"@) + seq![q] + inner + seq![q] + text::utf8(
        "`: would moving the target update this mention? if so it's a reference — make it a markdown link; if not it's an example — except it (see `lattice help config`)"@,
    ));
    lemma_called_for(
        scene,
        inner,
        references::path_part(inner),
        Severity::Hint,
        urge,
        lint,
        d,
    );
    lemma_later_quotation(scene, line, spans, list, 0, m, e);
    diagnostic::lemma_either(
        scanners::line_urls(scene, line, spans),
        scanners::quoted_mentions(scene, line, spans, 0),
        e,
    );
    let rows = lines::rows_from(t, 0);
    lemma_rows_contain(scene, b, t, base, rows, spans, row, e);
    diagnostic::lemma_either(
        scanners::rows_mentions(scene, b, t, base, rows, spans),
        scanners::code_mentions(scene, tree, node.children@),
        e,
    );
    lemma_nodes_contain(scene, tree, tree.nodes@, i, e);
    reveal(structural::mentions_of);
    diagnostic::lemma_either(
        references::prose_mentions(scene, tree.bare_paths@),
        scanners::text_mentions(scene, tree, tree.nodes@),
        e,
    );
}

proof fn lemma_quotations_lie_inside(b: Seq<u8>, list: Seq<(int, int)>, m: int)
    requires
        are_quotations(b, list),
        0 <= m < list.len(),
    ensures
        0 <= list[m].0 < list[m].1 < b.len(),
        b[list[m].0] == 34 || b[list[m].0] == 39,
        b[list[m].1] == b[list[m].0],
{
    if m > 0 {
        let p = list[m - 1];
        assert(is_quotation(b, list[m - 1].1 + 1, list[m]));
    }
}

} // verus!

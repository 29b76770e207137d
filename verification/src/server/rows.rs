//! What is sent of a document: its findings, and the form that a client gets.
use vstd::prelude::*;
use crate::diagnostic;
use crate::diagnostic::{DiagView, Diagnostic};
use crate::lines;
use crate::path;
use crate::pathmap::PathMap;
use crate::server::position;
use crate::server::position::{Position, Range};
use crate::server::workspaces;
use crate::server::workspaces::{SentDiagnostic, SentView};
use crate::span::Span;
use crate::text;
use crate::validation;
use crate::workspace::{Graph, WorkspaceView};

verus! {

/// The structural findings of the first `n` documents, as they are cached.
pub open spec fn cached_rows(g: Graph, n: int) -> Seq<DiagView>
    decreases n,
{
    if n <= 0 {
        Seq::empty()
    } else {
        cached_rows(g, n - 1) + g.files.values()[n - 1].structural
    }
}

/// All findings of a view: the structural ones, and those on the graph.
pub open spec fn live_rows(g: Graph, on_disk: Map<Seq<u8>, ()>) -> Seq<DiagView> {
    diagnostic::in_report_order(
        cached_rows(g, g.files.keys().len() as int) + diagnostic::in_report_order(
            validation::graph_findings(g, on_disk),
        ),
    )
}

/// The findings about one file.
pub open spec fn rows_for(rows: Seq<DiagView>, file: Seq<u8>) -> Seq<DiagView>
    decreases rows.len(),
{
    if rows.len() == 0 {
        rows
    } else if rows.last().file == file {
        rows_for(rows.drop_last(), file).push(rows.last())
    } else {
        rows_for(rows.drop_last(), file)
    }
}

fn append_copies(from: &Vec<Diagnostic>, out: &mut Vec<Diagnostic>)
    ensures
        diagnostic::views(final(out)@) == diagnostic::views(old(out)@) + diagnostic::views(from@),
{
    let ghost before = diagnostic::views(out@);
    let ghost all = diagnostic::views(from@);
    let mut i: usize = 0;
    assert(before + all.take(0) =~= before);
    while i < from.len()
        invariant
            i <= from@.len(),
            all == diagnostic::views(from@),
            diagnostic::views(out@) == before + all.take(i as int),
        decreases from@.len() - i,
    {
        let d = from[i].copied();
        proof {
            diagnostic::lemma_views_push(out@, d);
            assert(all.take(i + 1) =~= all.take(i as int).push(d@));
            assert((before + all.take(i as int)).push(d@) =~= before + all.take(i + 1));
        }
        out.push(d);
        i += 1;
    }
    assert(all.take(i as int) =~= all);
}

/// Collect all findings of a view.
pub fn collect_all_diagnostics(ws: &WorkspaceView<'_>, on_disk: &PathMap<()>) -> (r: Vec<
    Diagnostic,
>)
    ensures
        diagnostic::views(r@) == live_rows(ws@, on_disk@),
{
    let mut out: Vec<Diagnostic> = Vec::new();
    let n = ws.files.len();
    let mut i: usize = 0;
    assert(diagnostic::views(out@) =~= Seq::<DiagView>::empty());
    while i < n
        invariant
            i <= n,
            n == ws.files.keys().len(),
            diagnostic::views(out@) == cached_rows(ws@, i as int),
        decreases n - i,
    {
        let data = *ws.files.value_at(i);
        append_copies(&data.structural, &mut out);
        assert(ws@.files.values()[i as int] == data@);
        i += 1;
    }
    let mut graph = validation::collect_graph(ws, on_disk);
    let ghost a = out@;
    let ghost b = graph@;
    out.append(&mut graph);
    assert(diagnostic::views(out@) =~= diagnostic::views(a) + diagnostic::views(b));
    diagnostic::sort_diagnostics(out)
}

/// Keep the findings about one file.
pub fn keep_rows(rows: &Vec<Diagnostic>, file: &str) -> (r: Vec<Diagnostic>)
    ensures
        diagnostic::views(r@) == rows_for(diagnostic::views(rows@), path::named(file@)),
{
    let mut out: Vec<Diagnostic> = Vec::new();
    let ghost all = diagnostic::views(rows@);
    let mut i: usize = 0;
    proof {
        assert(all.take(0) =~= Seq::<DiagView>::empty());
        assert(diagnostic::views(out@) =~= Seq::<DiagView>::empty());
    }
    while i < rows.len()
        invariant
            i <= rows@.len(),
            all == diagnostic::views(rows@),
            diagnostic::views(out@) == rows_for(all.take(i as int), path::named(file@)),
        decreases rows@.len() - i,
    {
        proof {
            assert(all.take(i + 1).drop_last() =~= all.take(i as int));
            assert(all.take(i + 1).last() == rows@[i as int]@);
        }
        if path::same_path(rows[i].file.as_str(), file) {
            let d = rows[i].copied();
            proof {
                diagnostic::lemma_views_push(out@, d);
            }
            out.push(d);
        }
        i += 1;
    }
    assert(all.take(i as int) =~= all);
    out
}

// The form that is sent.

/// The position of an offset.
pub open spec fn position_at(b: Seq<u8>, at: int) -> Position {
    Position { line: position::row(b, at) as usize, character: position::column(b, at) as usize }
}

/// Where the line of a finding starts.
pub open spec fn finding_start(b: Seq<u8>, line: nat) -> int {
    position::nth_line(
        b,
        0,
        if line > 0 {
            (line - 1) as nat
        } else {
            0
        },
    )
}

/// The range of a finding: its span, else its line.
pub open spec fn range_of(d: DiagView, b: Seq<u8>) -> Range {
    match d.span {
        Some(span) => Range {
            start: position_at(b, span.start as int),
            end: position_at(b, span.end as int),
        },
        None => {
            let start = finding_start(b, d.line);
            Range { start: position_at(b, start), end: position_at(b, lines::line_text_end(b, start)) }
        },
    }
}

/// A finding as it is sent.
pub open spec fn sent(d: DiagView, b: Seq<u8>) -> SentView {
    SentView { range: range_of(d, b), severity: d.severity, message: d.message }
}

/// Findings as they are sent.
pub open spec fn all_sent(rows: Seq<DiagView>, b: Seq<u8>) -> Seq<SentView> {
    rows.map_values(|d: DiagView| sent(d, b))
}

fn start_of_line(source: &str, line: usize) -> (r: usize)
    ensures
        r == finding_start(text::utf8(source@), line as nat),
        r <= text::utf8(source@).len(),
{
    let b = source.as_bytes();
    let mut left: usize = if line > 0 {
        line - 1
    } else {
        0
    };
    let mut i: usize = 0;
    while left > 0
        invariant
            i <= b@.len(),
            b@ == text::utf8(source@),
            finding_start(b@, line as nat) == position::nth_line(b@, i as int, left as nat),
        decreases left,
    {
        let n = lines::find_line_feed(b, i);
        if n >= b.len() {
            return b.len();
        }
        i = n + 1;
        left -= 1;
    }
    i
}

/// Give a finding the form that is sent, against the text of its document.
pub fn to_lsp_diagnostic(d: &Diagnostic, source: &str) -> (r: SentDiagnostic)
    ensures
        r@ == sent(d@, text::utf8(source@)),
{
    let range = match d.span {
        Some(span) => position::span_to_range(source, span),
        None => {
            let b = source.as_bytes();
            let start = start_of_line(source, d.line);
            let n = lines::find_line_feed(b, start);
            let end: usize = if start < n && n < b.len() && b[n - 1] == lines::CR {
                n - 1
            } else {
                n
            };
            position::span_to_range(source, Span::new(start, end))
        },
    };
    SentDiagnostic { range, severity: d.severity, message: text::owned(d.message.as_str()) }
}

/// Give findings the form that is sent.
pub fn to_lsp_diagnostics(rows: &Vec<Diagnostic>, source: &str) -> (r: Vec<SentDiagnostic>)
    ensures
        workspaces::sent_views(r@) == all_sent(diagnostic::views(rows@), text::utf8(source@)),
{
    let mut r: Vec<SentDiagnostic> = Vec::new();
    let ghost b = text::utf8(source@);
    let ghost goal = all_sent(diagnostic::views(rows@), b);
    let mut i: usize = 0;
    while i < rows.len()
        invariant
            i <= rows@.len(),
            b == text::utf8(source@),
            goal == all_sent(diagnostic::views(rows@), b),
            workspaces::sent_views(r@) =~= goal.take(i as int),
        decreases rows@.len() - i,
    {
        let ghost so_far = workspaces::sent_views(r@);
        let d = to_lsp_diagnostic(&rows[i], source);
        r.push(d);
        proof {
            assert(goal[i as int] == d@);
            assert(workspaces::sent_views(r@) =~= so_far.push(d@));
            assert(goal.take(i + 1) =~= goal.take(i as int).push(goal[i as int]));
        }
        i += 1;
    }
    assert(goal.take(i as int) =~= goal);
    r
}

fn same_sent_one(a: &SentDiagnostic, b: &SentDiagnostic) -> (r: bool)
    ensures
        r == (a@ == b@),
{
    a.range == b.range && a.severity == b.severity && text::same(
        a.message.as_str(),
        b.message.as_str(),
    )
}

/// Compare two lists of sent diagnostics.
pub fn same_sent(a: &Vec<SentDiagnostic>, b: &Vec<SentDiagnostic>) -> (r: bool)
    ensures
        r == (workspaces::sent_views(a@) == workspaces::sent_views(b@)),
{
    let ghost x = workspaces::sent_views(a@);
    let ghost y = workspaces::sent_views(b@);
    if a.len() != b.len() {
        assert(x.len() != y.len());
        return false;
    }
    let mut i: usize = 0;
    while i < a.len()
        invariant
            i <= a@.len(),
            a@.len() == b@.len(),
            x == workspaces::sent_views(a@),
            y == workspaces::sent_views(b@),
            forall|j: int| 0 <= j < i ==> #[trigger] x[j] == y[j],
        decreases a@.len() - i,
    {
        assert(x[i as int] == a@[i as int]@ && y[i as int] == b@[i as int]@);
        if !same_sent_one(&a[i], &b[i]) {
            return false;
        }
        i += 1;
    }
    assert(x =~= y);
    true
}

fn same_span(a: Option<Span>, b: Option<Span>) -> (r: bool)
    ensures
        r == (a == b),
{
    match (a, b) {
        (Some(x), Some(y)) => x == y,
        (None, None) => true,
        _ => false,
    }
}

fn same_row(a: &Diagnostic, b: &Diagnostic) -> (r: bool)
    ensures
        r == (a@ == b@),
{
    path::same_path(a.file.as_str(), b.file.as_str()) && a.line == b.line && a.severity == b.severity
        && text::same(a.message.as_str(), b.message.as_str()) && same_span(a.span, b.span)
}

/// Compare two lists of findings.
pub fn same_rows(a: &Vec<Diagnostic>, b: &Vec<Diagnostic>) -> (r: bool)
    ensures
        r == (diagnostic::views(a@) == diagnostic::views(b@)),
{
    let ghost x = diagnostic::views(a@);
    let ghost y = diagnostic::views(b@);
    if a.len() != b.len() {
        assert(x.len() != y.len());
        return false;
    }
    let mut i: usize = 0;
    while i < a.len()
        invariant
            i <= a@.len(),
            a@.len() == b@.len(),
            x == diagnostic::views(a@),
            y == diagnostic::views(b@),
            forall|j: int| 0 <= j < i ==> #[trigger] x[j] == y[j],
        decreases a@.len() - i,
    {
        assert(x[i as int] == a@[i as int]@ && y[i as int] == b@[i as int]@);
        if !same_row(&a[i], &b[i]) {
            return false;
        }
        i += 1;
    }
    assert(x =~= y);
    true
}

/// A copy of a list of sent diagnostics.
pub(crate) fn copy_sent(list: &Vec<SentDiagnostic>) -> (r: Vec<SentDiagnostic>)
    ensures
        workspaces::sent_views(r@) == workspaces::sent_views(list@),
{
    let mut r: Vec<SentDiagnostic> = Vec::new();
    let ghost goal = workspaces::sent_views(list@);
    let mut i: usize = 0;
    while i < list.len()
        invariant
            i <= list@.len(),
            goal == workspaces::sent_views(list@),
            workspaces::sent_views(r@) =~= goal.take(i as int),
        decreases list@.len() - i,
    {
        let ghost so_far = workspaces::sent_views(r@);
        let d = SentDiagnostic {
            range: list[i].range,
            severity: list[i].severity,
            message: text::owned(list[i].message.as_str()),
        };
        r.push(d);
        proof {
            assert(goal[i as int] == d@);
            assert(workspaces::sent_views(r@) =~= so_far.push(d@));
            assert(goal.take(i + 1) =~= goal.take(i as int).push(goal[i as int]));
        }
        i += 1;
    }
    assert(goal.take(i as int) =~= goal);
    r
}

/// Each finding is sent as one diagnostic.
pub proof fn law_one_diagnostic_for_each_finding(rows: Seq<DiagView>, b: Seq<u8>)
    ensures
        all_sent(rows, b).len() == rows.len(),
{
}

/// A finding without a span in a text that is not there lies at its start.
pub proof fn law_no_text_no_place(d: DiagView)
    requires
        d.span is None,
    ensures
        range_of(d, Seq::empty()) == (Range {
            start: Position { line: 0, character: 0 },
            end: Position { line: 0, character: 0 },
        }),
{
    let b = Seq::<u8>::empty();
    assert(finding_start(b, d.line) == 0) by {
        reveal_with_fuel(position::nth_line, 2);
    }
}

proof fn lemma_cached(g: Graph, n: int, i: int, d: DiagView)
    requires
        0 <= i < n,
        g.files.values()[i].structural.contains(d),
    ensures
        cached_rows(g, n).contains(d),
    decreases n,
{
    diagnostic::lemma_either(cached_rows(g, n - 1), g.files.values()[n - 1].structural, d);
    if i < n - 1 {
        lemma_cached(g, n - 1, i, d);
    }
}

proof fn lemma_bare_rows(list: Seq<DiagView>, d: DiagView)
    requires
        validation::bare_rows(list).contains(d),
    ensures
        list.contains(d),
    decreases list.len(),
{
    if list.len() > 0 {
        let rest = validation::bare_rows(list.drop_last());
        let i = choose|i: int|
            0 <= i < validation::bare_rows(list).len() && validation::bare_rows(list)[i] == d;
        if i < rest.len() {
            assert(rest[i] == d);
            lemma_bare_rows(list.drop_last(), d);
            let k = choose|k: int| 0 <= k < list.drop_last().len() && list.drop_last()[k] == d;
            assert(list[k] == d);
        } else {
            assert(list[list.len() - 1] == d);
        }
    }
}

/// Among the findings of a view each of a document's own findings, and each of the
/// graph, occurs as often as it was found and no more: what is said of a document
/// by itself is not said again.
pub proof fn law_each_finding_occurs_once(g: Graph, on_disk: Map<Seq<u8>, ()>, d: DiagView)
    ensures
        live_rows(g, on_disk).to_multiset().count(d) == cached_rows(
            g,
            g.files.keys().len() as int,
        ).to_multiset().count(d) + validation::graph_findings(g, on_disk).to_multiset().count(d),
{
    let a = cached_rows(g, g.files.keys().len() as int);
    let b = validation::graph_findings(g, on_disk);
    let s = diagnostic::in_report_order(b);
    diagnostic::law_sorting_keeps_the_diagnostics(b);
    diagnostic::law_sorting_keeps_the_diagnostics(a + s);
    vstd::seq_lib::lemma_multiset_commutative(a, s);
}

/// All that is collected for a workspace is among the findings of its view, where
/// the documents' own findings are up to date with their frontmatter.
pub proof fn law_what_is_collected_is_shown(g: Graph, on_disk: Map<Seq<u8>, ()>, d: DiagView)
    requires
        forall|i: int, x: DiagView|
            0 <= i < g.files.keys().len() && (#[trigger] diagnostic::about(
                diagnostic::views(g.files.values()[i].metadata@),
                g.files.keys()[i],
            )).contains(x) ==> #[trigger] g.files.values()[i].structural.contains(x),
        validation::all_findings(g, on_disk).contains(d),
    ensures
        live_rows(g, on_disk).contains(d),
{
    let n = g.files.keys().len() as int;
    let a = cached_rows(g, n);
    let b = validation::graph_findings(g, on_disk);
    diagnostic::lemma_report_order_contains(b, d);
    diagnostic::lemma_either(a, diagnostic::in_report_order(b), d);
    diagnostic::lemma_report_order_contains(a + diagnostic::in_report_order(b), d);
    diagnostic::lemma_either(b, validation::all_documents(g, n), d);
    if !b.contains(d) {
        validation::lemma_documents(g, n, d);
        let i = choose|i: int|
            0 <= i < n && (#[trigger] validation::document_rows(
                g.files.keys()[i],
                g.files.values()[i],
            )).contains(d);
        let own = diagnostic::about(
            diagnostic::views(g.files.values()[i].metadata@),
            g.files.keys()[i],
        );
        diagnostic::lemma_either(own, validation::bare_rows(g.files.values()[i].structural), d);
        if !own.contains(d) {
            lemma_bare_rows(g.files.values()[i].structural, d);
        }
        lemma_cached(g, n, i, d);
    }
}

/// What is sent of a finding with a place covers exactly that place: the range
/// starts and ends at the offsets of the span, and nothing else is changed.
pub proof fn law_the_range_covers_the_span(d: DiagView, b: Seq<u8>, span: Span)
    requires
        d.span == Some(span),
        vstd::utf8::valid_utf8(b),
        b.len() <= usize::MAX,
        span.start <= span.end <= b.len(),
        text::boundary(b, span.start as int),
        text::boundary(b, span.end as int),
    ensures
        position::offset_at(b, sent(d, b).range.start) == span.start,
        position::offset_at(b, sent(d, b).range.end) == span.end,
        sent(d, b).severity == d.severity,
        sent(d, b).message == d.message,
{
    lemma_position_at(b, span.start as int);
    lemma_position_at(b, span.end as int);
    position::law_offset_position_round_trip(
        b,
        span.start as int,
        position_at(b, span.start as int),
    );
    position::law_offset_position_round_trip(b, span.end as int, position_at(b, span.end as int));
}

proof fn lemma_position_at(b: Seq<u8>, at: int)
    requires
        vstd::utf8::valid_utf8(b),
        b.len() <= usize::MAX,
        0 <= at <= b.len(),
        text::boundary(b, at),
    ensures
        position::is_at(position_at(b, at), b, at),
        at < b.len() ==> position::units(b[at]) > 0,
{
    position::lemma_line_start(b, at);
    position::lemma_width(b, position::line_start(b, at), at);
    lines::lemma_line_feeds_bound(b, at);
    if at == 0 && b.len() > 0 {
        reveal_with_fuel(vstd::utf8::valid_utf8, 2);
    }
}

/// The same in terms of characters: of a finding about the characters `mid`, the
/// range starts at the line and the column behind what stands before them, and
/// ends behind them.
pub proof fn law_the_range_is_in_lines_and_code_units(
    d: DiagView,
    before: Seq<char>,
    lead: Seq<char>,
    mid: Seq<char>,
    rest: Seq<char>,
)
    requires
        before.len() == 0 || before.last() == '\n',
        forall|k: int| 0 <= k < (lead + mid).len() ==> #[trigger] (lead + mid)[k] != '\n',
        text::utf8(before + lead + mid + rest).len() <= usize::MAX,
        d.span == Some(
            Span {
                start: text::utf8(before + lead).len() as usize,
                end: text::utf8(before + lead + mid).len() as usize,
            },
        ),
    ensures
        ({
            let range = sent(d, text::utf8(before + lead + mid + rest)).range;
            &&& range.start.line == position::feeds_in(before)
            &&& range.start.character == position::utf16_len(lead)
            &&& range.end.line == position::feeds_in(before)
            &&& range.end.character == position::utf16_len(lead + mid)
        }),
{
    let whole = before + lead + mid + rest;
    let b = text::utf8(whole);
    vstd::utf8::encode_utf8_valid_utf8(whole);
    text::lemma_utf8_concat(before + lead + mid, rest);
    text::lemma_utf8_concat(before + lead, mid);
    let span = d.span->0;
    assert(whole =~= before + lead + (mid + rest));
    assert(whole =~= before + (lead + mid) + rest);
    assert(before + (lead + mid) =~= before + lead + mid);
    assert forall|k: int| 0 <= k < lead.len() implies #[trigger] lead[k] != '\n' by {
        assert((lead + mid)[k] == lead[k]);
    }
    lemma_cut_between(before + lead, mid + rest);
    lemma_cut_between(before + lead + mid, rest);
    lemma_position_at(b, span.start as int);
    lemma_position_at(b, span.end as int);
    position::law_positions_count_lines_and_code_units(
        before,
        lead,
        mid + rest,
        position_at(b, span.start as int),
    );
    position::law_positions_count_lines_and_code_units(
        before,
        lead + mid,
        rest,
        position_at(b, span.end as int),
    );
}

/// A text can be cut between two of its characters.
proof fn lemma_cut_between(a: Seq<char>, c: Seq<char>)
    ensures
        text::boundary(text::utf8(a + c), text::utf8(a).len() as int),
{
    text::lemma_utf8_concat(a, c);
    text::lemma_utf8_empty(c);
    if c.len() > 0 {
        vstd::utf8::encode_utf8_first_scalar(c);
        assert(text::utf8(a + c)[text::utf8(a).len() as int] == text::utf8(c)[0]);
    }
}

/// What is sent of a finding without a place covers its line: the range starts
/// where the line starts and ends where its text ends.
pub proof fn law_the_range_covers_the_line(
    d: DiagView,
    before: Seq<char>,
    line: Seq<char>,
    rest: Seq<char>,
)
    requires
        d.span is None,
        d.line == position::feeds_in(before) + 1,
        before.len() == 0 || before.last() == '\n',
        forall|k: int| 0 <= k < line.len() ==> #[trigger] line[k] != '\n',
        line.len() == 0 || line.last() != '\r',
        rest.len() == 0 || rest[0] == '\n' || (rest.len() > 1 && rest[0] == '\r' && rest[1] == '\n'),
        text::utf8(before + line + rest).len() <= usize::MAX,
    ensures
        ({
            let range = sent(d, text::utf8(before + line + rest)).range;
            &&& range.start.line == position::feeds_in(before)
            &&& range.start.character == 0
            &&& range.end.line == position::feeds_in(before)
            &&& range.end.character == position::utf16_len(line)
        }),
{
    let whole = before + line + rest;
    let b = text::utf8(whole);
    let none = Seq::<char>::empty();
    vstd::utf8::encode_utf8_valid_utf8(whole);
    text::lemma_utf8_concat(before + line, rest);
    text::lemma_utf8_concat(before, line);
    let start = text::utf8(before).len() as int;
    let end = text::utf8(before + line).len() as int;
    assert(whole =~= before + none + (line + rest));
    assert(before + none =~= before);
    assert(whole =~= before + (line + rest));
    lemma_cut_between(before, line + rest);
    lemma_cut_between(before + line, rest);
    lemma_position_at(b, start);
    lemma_position_at(b, end);
    assert(is_line_start_of(d, b, start)) by {
        position::lemma_nth_of_feeds(before, line + rest);
    }
    assert(lines::line_text_end(b, start) == end) by {
        position::lemma_line_text(b, before, line, rest);
    }
    position::law_positions_count_lines_and_code_units(
        before,
        none,
        line + rest,
        position_at(b, start),
    );
    position::law_positions_count_lines_and_code_units(before, line, rest, position_at(b, end));
}

spec fn is_line_start_of(d: DiagView, b: Seq<u8>, start: int) -> bool {
    finding_start(b, d.line) == start
}

/// The findings of a file are all findings about it, in their order, and no other.
pub proof fn law_rows_of_a_file_are_kept(rows: Seq<DiagView>, file: Seq<u8>, d: DiagView)
    ensures
        rows_for(rows, file).contains(d) <==> rows.contains(d) && d.file == file,
        rows_for(rows, file).to_multiset().count(d) == if d.file == file {
            rows.to_multiset().count(d)
        } else {
            0
        },
    decreases rows.len(),
{
    rows.to_multiset_ensures();
    rows_for(rows, file).to_multiset_ensures();
    if rows.len() == 0 {
    } else {
        let rest = rows.drop_last();
        law_rows_of_a_file_are_kept(rest, file, d);
        assert(rows =~= rest.push(rows.last()));
        rest.to_multiset_ensures();
        rows_for(rest, file).to_multiset_ensures();
        assert(rows.to_multiset().count(d) > 0 <==> rows.contains(d));
        assert(rows_for(rows, file).to_multiset().count(d) > 0 <==> rows_for(rows, file).contains(d));
    }
}

} // verus!

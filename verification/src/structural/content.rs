//! Diagnostics on headings, code blocks, images and trailing white space, and
//! those that the parser hands over.
use vstd::prelude::*;
use crate::block::{DiagnosticLevel, ElementKind, HeadingText, Node, ParserDiagnostic, Syntax, Tree};
use crate::config::{CodeBlockLanguagePolicy, Config, FragmentAlgorithm};
use crate::diagnostic;
use crate::diagnostic::{DiagView, Diagnostic, Severity};
use crate::lines;
use crate::sorted::{KeyOrder, SortedMap};
use crate::path;
use crate::span::Span;
use crate::text;

verus! {

/// A finding about a node.
pub open spec fn at_node(
    tree: Tree,
    file: Seq<u8>,
    node: Node,
    severity: Severity,
    message: Seq<u8>,
) -> DiagView {
    DiagView {
        file,
        line: lines::line_of(tree.text(), node.span.start as int),
        severity,
        message,
        span: Some(node.span),
    }
}

pub(crate) fn node_diagnostic(
    tree: &Tree,
    rel_path: &str,
    node: &Node,
    severity: Severity,
    message: String,
) -> (d: Diagnostic)
    requires
        tree.wf(),
    ensures
        d@ == at_node(*tree, path::named(rel_path@), *node, severity, text::utf8(message@)),
{
    Diagnostic {
        file: text::owned(rel_path),
        line: lines::byte_offset_to_line(tree.source.as_str(), node.span.start),
        severity,
        message,
        span: Some(node.span),
    }
}

// What the parser found.

/// A finding of the parser.
pub open spec fn parser_report(tree: Tree, file: Seq<u8>, d: ParserDiagnostic) -> DiagView {
    DiagView {
        file,
        line: lines::line_of(tree.text(), d.span.start as int),
        severity: match d.level {
            DiagnosticLevel::Error => Severity::Error,
            DiagnosticLevel::Warning => Severity::Warning,
        },
        message: text::utf8(d.message@),
        span: Some(d.span),
    }
}

/// The findings of the parser.
pub open spec fn parser_reports(tree: Tree, file: Seq<u8>) -> Seq<DiagView> {
    tree.diagnostics@.map_values(|d: ParserDiagnostic| parser_report(tree, file, d))
}

/// Hand the findings of the parser over.
pub fn emit_parser_diagnostics(tree: &Tree, rel_path: &str, out: &mut Vec<Diagnostic>)
    requires
        tree.wf(),
    ensures
        diagnostic::views(final(out)@) == diagnostic::views(old(out)@) + parser_reports(
            *tree,
            path::named(rel_path@),
        ),
{
    broadcast use diagnostic::lemma_views_push;

    let ghost before = diagnostic::views(out@);
    let ghost goal = parser_reports(*tree, path::named(rel_path@));
    let mut i: usize = 0;
    assert(before + goal.take(0) =~= before);
    while i < tree.diagnostics.len()
        invariant
            i <= tree.diagnostics@.len(),
            tree.wf(),
            goal == parser_reports(*tree, path::named(rel_path@)),
            diagnostic::views(out@) == before + goal.take(i as int),
        decreases tree.diagnostics@.len() - i,
    {
        let d = &tree.diagnostics[i];
        let severity = match d.level {
            DiagnosticLevel::Error => Severity::Error,
            DiagnosticLevel::Warning => Severity::Warning,
        };
        let ghost o1 = out@;
        let found = Diagnostic {
            file: text::owned(rel_path),
            line: lines::byte_offset_to_line(tree.source.as_str(), d.span.start),
            severity,
            message: d.message.clone(),
            span: Some(d.span),
        };
        let ghost v = found@;
        out.push(found);
        proof {
            assert(goal[i as int] == parser_report(*tree, path::named(rel_path@), *d));
            assert(v == goal[i as int]);
            assert(diagnostic::views(out@) == diagnostic::views(o1).push(v));
            assert(goal.take(i + 1) =~= goal.take(i as int).push(goal[i as int]));
            assert(diagnostic::views(out@) =~= before + goal.take(i + 1));
        }
        i += 1;
    }
    assert(goal.take(i as int) =~= goal);
}

// Headings.

/// The first line of a text.
pub open spec fn first_line(b: Seq<u8>) -> Seq<u8> {
    if b.len() == 0 {
        Seq::empty()
    } else {
        text::piece(b, 0, lines::line_text_end(b, 0))
    }
}

pub(crate) fn first_line_of<'a>(s: &'a str) -> (r: &'a str)
    ensures
        text::utf8(r@) == first_line(text::utf8(s@)),
{
    let b = s.as_bytes();
    let n = lines::find_line_feed(b, 0);
    if 0 < n && n < b.len() && b[n - 1] == lines::CR {
        text::slice(s, 0, n - 1)
    } else {
        proof {
            assert(b@.subrange(0, 0) =~= Seq::<u8>::empty());
        }
        text::slice(s, 0, n)
    }
}

/// The text of a heading that starts with `#`: its first line without the
/// marks at both ends and without a trailing `{#id}`.
pub open spec fn atx_text(b: Seq<u8>) -> Seq<u8> {
    let line = first_line(b);
    let opened = lines::trimmed(
        text::piece(line, text::run_end(line, 0, 35), line.len() as int),
    );
    let closed = text::piece(opened, 0, text::run_start(opened, opened.len() as int, 35));
    let content = lines::trimmed_end(closed);
    match text::last_match(content, content.len() as int, text::utf8("{#"@)) {
        Some(brace) if content.len() > 0 && content.last() == 125 => lines::trimmed(
            text::piece(content, 0, brace),
        ),
        _ => content,
    }
}

/// Lines with single spaces between them.
pub open spec fn lines_joined(b: Seq<u8>, list: Seq<(int, int)>) -> Seq<u8>
    decreases list.len(),
{
    if list.len() == 0 {
        Seq::empty()
    } else if list.len() == 1 {
        text::piece(b, list[0].0, list[0].1)
    } else {
        lines_joined(b, list.drop_last()) + text::utf8(" "@) + text::piece(
            b,
            list.last().0,
            list.last().1,
        )
    }
}

/// The text of an underlined heading: all lines but the last.
pub open spec fn setext_text(b: Seq<u8>) -> Seq<u8> {
    let list = lines::lines_from(b, 0);
    if list.len() > 1 {
        lines::trimmed(lines_joined(b, list.drop_last()))
    } else {
        lines::trimmed(b)
    }
}

/// The text that a heading shows.
pub open spec fn heading_text(raw: Seq<u8>, syntax: Syntax, html: Seq<u8>) -> Seq<u8> {
    if syntax == Syntax::Html {
        html
    } else if text::has_prefix(lines::trimmed_start(raw), text::utf8("#"@)) {
        atx_text(raw)
    } else {
        setext_text(raw)
    }
}

fn atx_display_text(raw: &str) -> (r: String)
    ensures
        text::utf8(r@) == atx_text(text::utf8(raw@)),
{
    let line = first_line_of(raw);
    let lb = line.as_bytes();
    let opened = lines::trim(text::slice(line, text::skip_run(lb, 0, 35), lb.len()));
    let ob = opened.as_bytes();
    let content = lines::trim_end(text::slice(opened, 0, text::skip_run_back(ob, 35)));
    let cb = content.as_bytes();
    let brace = text::find_last(cb, "{#".as_bytes());
    let closed = cb.len() > 0 && cb[cb.len() - 1] == 125;
    if let Some(at) = brace {
        if closed {
            return text::owned(lines::trim(text::slice(content, 0, at)));
        }
    }
    text::owned(content)
}

fn setext_display_text(raw: &str) -> (r: String)
    ensures
        text::utf8(r@) == setext_text(text::utf8(raw@)),
{
    let b = raw.as_bytes();
    let list = lines::lines(b);
    let ghost all = lines::as_ranges(list@);
    if list.len() <= 1 {
        return text::owned(lines::trim(raw));
    }
    let mut joined = String::new();
    let mut i: usize = 0;
    let n = list.len() - 1;
    proof {
        assert(all.take(0) =~= Seq::<(int, int)>::empty());
    }
    while i < n
        invariant
            i <= n < list@.len(),
            b@ == text::utf8(raw@),
            all == lines::as_ranges(list@),
            text::utf8(joined@) == lines_joined(b@, all.take(i as int)),
        decreases n - i,
    {
        if i > 0 {
            text::push(&mut joined, " ");
        }
        text::push(&mut joined, text::slice(raw, list[i].start, list[i].end));
        proof {
            let t = all.take(i + 1);
            assert(t.drop_last() =~= all.take(i as int));
            assert(text::utf8(joined@) =~= lines_joined(b@, t));
        }
        i += 1;
    }
    assert(all.take(n as int) =~= all.drop_last());
    text::owned(lines::trim(joined.as_str()))
}

/// The text that a heading shows.
pub fn heading_display_text(raw: &str, syntax: Syntax, html: &str) -> (r: String)
    ensures
        text::utf8(r@) == heading_text(text::utf8(raw@), syntax, text::utf8(html@)),
{
    if syntax == Syntax::Html {
        return text::owned(html);
    }
    if text::starts_with(lines::trim_start(raw), "#") {
        atx_display_text(raw)
    } else {
        setext_display_text(raw)
    }
}

/// Whether a heading shows no text.
#[verifier::opaque]
pub open spec fn blank_heading(tree: Tree, node: Node, t: HeadingText) -> bool {
    lines::trimmed(heading_text(tree.text_of(node), node.syntax, text::utf8(t.html@))).len() == 0
}

/// The anchor of a heading under the configured algorithm; GitHub's where none is.
pub open spec fn anchor_of(config: Config, t: HeadingText) -> Seq<u8> {
    match config.policy.fragments {
        Some(FragmentAlgorithm::Gitlab) => text::utf8(t.gitlab@),
        Some(FragmentAlgorithm::Vscode) => text::utf8(t.vscode@),
        _ => text::utf8(t.github@),
    }
}

/// The level of the last heading among the first `n` nodes.
pub open spec fn level_before(nodes: Seq<Node>, n: int) -> Option<u8>
    decreases n,
{
    if n <= 0 {
        None
    } else {
        match nodes[n - 1].kind {
            ElementKind::Heading { level, .. } => Some(level),
            _ => level_before(nodes, n - 1),
        }
    }
}

/// The number of top-level headings with text among the first `n` nodes.
pub open spec fn h1_before(tree: Tree, n: int) -> nat
    decreases n,
{
    if n <= 0 {
        0
    } else {
        h1_before(tree, n - 1) + match tree.nodes@[n - 1].kind {
            ElementKind::Heading { level, text } => if level == 1 && !blank_heading(
                tree,
                tree.nodes@[n - 1],
                text,
            ) {
                1nat
            } else {
                0
            },
            _ => 0,
        }
    }
}

/// The line of the first heading with each anchor among the first `n` nodes.
pub open spec fn anchors_before(tree: Tree, config: Config, n: int) -> Map<Seq<u8>, usize>
    decreases n,
{
    if n <= 0 {
        Map::empty()
    } else {
        let seen = anchors_before(tree, config, n - 1);
        let node = tree.nodes@[n - 1];
        match node.kind {
            ElementKind::Heading { text, .. } => if !blank_heading(tree, node, text)
                && !seen.contains_key(anchor_of(config, text)) {
                seen.insert(
                    anchor_of(config, text),
                    lines::line_of(tree.text(), node.span.start as int) as usize,
                )
            } else {
                seen
            },
            _ => seen,
        }
    }
}

/// The message about a skipped level.
pub open spec fn skipped_message(prev: u8, level: u8) -> Seq<u8> {
    text::utf8("skipped heading level: H"@) + text::decimal(prev as nat) + text::utf8(" to H"@)
        + text::decimal(level as nat)
}

/// The message about an anchor that is taken.
pub open spec fn duplicate_message(slug: Seq<u8>, first: nat) -> Seq<u8> {
    text::utf8("duplicate heading slug `"@) + slug + text::utf8("` (first at line "@)
        + text::decimal(first) + text::utf8(") — `#"@) + slug + text::utf8(
        "` resolves only to the first"@,
    )
}

/// What is said of a heading with text, given whether it is the second
/// top-level one, the level of the heading before it, and the line of an earlier
/// heading with its anchor.
pub open spec fn heading_findings(
    tree: Tree,
    file: Seq<u8>,
    config: Config,
    node: Node,
    level: u8,
    second: bool,
    prev: Option<u8>,
    slug: Seq<u8>,
    first: Option<usize>,
) -> Seq<DiagView> {
    second_h1(tree, file, config, node, second) + skipped_level(
        tree,
        file,
        config,
        node,
        level,
        prev,
    ) + taken_anchor(tree, file, node, slug, first)
}

pub open spec fn second_h1(
    tree: Tree,
    file: Seq<u8>,
    config: Config,
    node: Node,
    second: bool,
) -> Seq<DiagView> {
    if config.policy.multiple_h1 && second {
        seq![at_node(tree, file, node, Severity::Warning, text::utf8("multiple H1 headings"@))]
    } else {
        Seq::empty()
    }
}

pub open spec fn skipped_level(
    tree: Tree,
    file: Seq<u8>,
    config: Config,
    node: Node,
    level: u8,
    prev: Option<u8>,
) -> Seq<DiagView> {
    match prev {
        Some(prev) if config.policy.skipped_heading_level && level > prev + 1 => seq![
            at_node(tree, file, node, Severity::Warning, skipped_message(prev, level)),
        ],
        _ => Seq::empty(),
    }
}

pub open spec fn taken_anchor(
    tree: Tree,
    file: Seq<u8>,
    node: Node,
    slug: Seq<u8>,
    first: Option<usize>,
) -> Seq<DiagView> {
    match first {
        Some(line) => seq![
            at_node(tree, file, node, Severity::Warning, duplicate_message(slug, line as nat)),
        ],
        None => Seq::empty(),
    }
}

/// What is said of the `i`th node as a heading: only that it is empty, if it
/// is; else, where the rules are on, that it is the second top-level heading and
/// that a level is skipped; and that its anchor is taken.
pub open spec fn heading_report(tree: Tree, file: Seq<u8>, config: Config, i: int) -> Seq<DiagView> {
    let node = tree.nodes@[i];
    match node.kind {
        ElementKind::Heading { level, text } => if blank_heading(tree, node, text) {
            seq![at_node(tree, file, node, Severity::Warning, text::utf8("empty heading"@))]
        } else {
            let slug = anchor_of(config, text);
            let seen = anchors_before(tree, config, i);
            heading_findings(
                tree,
                file,
                config,
                node,
                level,
                level == 1 && h1_before(tree, i) == 1,
                level_before(tree.nodes@, i),
                slug,
                if seen.contains_key(slug) {
                    Some(seen[slug])
                } else {
                    None
                },
            )
        },
        _ => Seq::empty(),
    }
}

/// What is said of the headings among the first `n` nodes.
pub open spec fn heading_reports(tree: Tree, file: Seq<u8>, config: Config, n: int) -> Seq<DiagView>
    decreases n,
{
    if n <= 0 {
        Seq::empty()
    } else {
        heading_reports(tree, file, config, n - 1) + heading_report(tree, file, config, n - 1)
    }
}

fn anchor<'a>(config: &Config, t: &'a HeadingText) -> (r: &'a str)
    ensures
        text::utf8(r@) == anchor_of(*config, *t),
{
    match config.policy.fragments {
        Some(FragmentAlgorithm::Gitlab) => t.gitlab.as_str(),
        Some(FragmentAlgorithm::Vscode) => t.vscode.as_str(),
        _ => t.github.as_str(),
    }
}

fn is_blank_heading(tree: &Tree, node: &Node, t: &HeadingText) -> (r: bool)
    ensures
        r == blank_heading(*tree, *node, *t),
{
    reveal(blank_heading);
    let shown = heading_display_text(tree.raw(node), node.syntax, t.html.as_str());
    lines::trim(shown.as_str()).as_bytes().len() == 0
}

fn report_heading(
    tree: &Tree,
    rel_path: &str,
    config: &Config,
    node: &Node,
    level: u8,
    second: bool,
    prev: Option<u8>,
    slug: &str,
    first: Option<usize>,
    out: &mut Vec<Diagnostic>,
)
    requires
        tree.wf(),
        level >= 1,
    ensures
        diagnostic::views(final(out)@) == diagnostic::views(old(out)@) + heading_findings(
            *tree,
            path::named(rel_path@),
            *config,
            *node,
            level,
            second,
            prev,
            text::utf8(slug@),
            first,
        ),
{
    broadcast use diagnostic::lemma_views_push;

    let ghost file = path::named(rel_path@);
    let ghost v0 = diagnostic::views(out@);
    if config.policy.multiple_h1 && second {
        out.push(
            node_diagnostic(
                tree,
                rel_path,
                node,
                Severity::Warning,
                text::owned("multiple H1 headings"),
            ),
        );
    }
    let ghost v1 = diagnostic::views(out@);
    assert(v1 =~= v0 + second_h1(*tree, file, *config, *node, second));
    if let Some(prev) = prev {
        if config.policy.skipped_heading_level && level - 1 > prev {
            let mut message = text::owned("skipped heading level: H");
            text::push_decimal(&mut message, prev as usize);
            text::push(&mut message, " to H");
            text::push_decimal(&mut message, level as usize);
            out.push(node_diagnostic(tree, rel_path, node, Severity::Warning, message));
        }
    }
    let ghost v2 = diagnostic::views(out@);
    assert(v2 =~= v1 + skipped_level(*tree, file, *config, *node, level, prev));
    if let Some(line) = first {
        let mut message = text::owned("duplicate heading slug `");
        text::push(&mut message, slug);
        text::push(&mut message, "` (first at line ");
        text::push_decimal(&mut message, line);
        text::push(&mut message, ") — `#");
        text::push(&mut message, slug);
        text::push(&mut message, "` resolves only to the first");
        out.push(node_diagnostic(tree, rel_path, node, Severity::Warning, message));
    }
    assert(diagnostic::views(out@) =~= v2 + taken_anchor(
        *tree,
        file,
        *node,
        text::utf8(slug@),
        first,
    ));
    assert(diagnostic::views(out@) =~= v0 + heading_findings(
        *tree,
        file,
        *config,
        *node,
        level,
        second,
        prev,
        text::utf8(slug@),
        first,
    ));
}

/// Report on headings.
pub fn emit_heading_diagnostics(
    tree: &Tree,
    rel_path: &str,
    config: &Config,
    out: &mut Vec<Diagnostic>,
)
    requires
        tree.wf(),
    ensures
        diagnostic::views(final(out)@) == diagnostic::views(old(out)@) + heading_reports(
            *tree,
            path::named(rel_path@),
            *config,
            tree.nodes@.len() as int,
        ),
{
    let ghost before = diagnostic::views(out@);
    let ghost file = path::named(rel_path@);
    let mut prev_level: Option<u8> = None;
    let mut h1_count: usize = 0;
    let mut seen: SortedMap<usize> = SortedMap::new(KeyOrder::Bytes);
    let mut i: usize = 0;
    assert(before + Seq::<DiagView>::empty() =~= before);
    while i < tree.nodes.len()
        invariant
            i <= tree.nodes@.len(),
            tree.wf(),
            file == path::named(rel_path@),
            prev_level == level_before(tree.nodes@, i as int),
            h1_count == h1_before(*tree, i as int),
            h1_count <= i,
            seen@ == anchors_before(*tree, *config, i as int),
            diagnostic::views(out@) == before + heading_reports(*tree, file, *config, i as int),
        decreases tree.nodes@.len() - i,
    {
        let node = &tree.nodes[i];
        let ghost so_far = diagnostic::views(out@);
        let ghost report = heading_report(*tree, file, *config, i as int);
        let ghost reports = heading_reports(*tree, file, *config, i as int);
        assert(tree.node_wf(i as int, tree.nodes@[i as int]));
        match &node.kind {
            ElementKind::Heading { level, text: t } => {
                let level: u8 = *level;
                if is_blank_heading(tree, node, t) {
                    let d = node_diagnostic(
                        tree,
                        rel_path,
                        node,
                        Severity::Warning,
                        text::owned("empty heading"),
                    );
                    proof {
                        diagnostic::lemma_views_push(out@, d);
                        assert(so_far.push(d@) =~= so_far + report);
                    }
                    out.push(d);
                } else {
                    let second = level == 1 && h1_count == 1;
                    if level == 1 {
                        h1_count += 1;
                    }
                    let slug = anchor(config, t);
                    let first: Option<usize> = match seen.get(slug) {
                        Some(line) => Some(*line),
                        None => None,
                    };
                    report_heading(
                        tree,
                        rel_path,
                        config,
                        node,
                        level,
                        second,
                        prev_level,
                        slug,
                        first,
                        out,
                    );
                    if first.is_none() {
                        let line = lines::byte_offset_to_line(
                            tree.source.as_str(),
                            node.span.start,
                        );
                        seen.insert(text::owned(slug), line);
                    }
                }
                prev_level = Some(level);
            },
            _ => {
                assert(so_far + Seq::<DiagView>::empty() =~= so_far);
            },
        }
        proof {
            assert(diagnostic::views(out@) == so_far + report);
            assert(before + (reports + report) =~= (before + reports) + report);
        }
        i += 1;
    }
}

// Code blocks.

/// The severity of a code block without a language; none where the rule is off.
pub open spec fn language_severity(policy: CodeBlockLanguagePolicy) -> Option<Severity> {
    match policy {
        CodeBlockLanguagePolicy::Disabled => None,
        CodeBlockLanguagePolicy::Hint => Some(Severity::Hint),
        CodeBlockLanguagePolicy::Warn => Some(Severity::Warning),
        CodeBlockLanguagePolicy::Deny => Some(Severity::Error),
    }
}

/// The end of the run of fence marks that starts at `i`.
pub open spec fn fence_end(b: Seq<u8>, i: int) -> int
    decreases b.len() - i,
{
    if 0 <= i < b.len() && (b[i] == 96 || b[i] == 126) {
        fence_end(b, i + 1)
    } else {
        i
    }
}

/// Whether a block is fenced and says nothing behind its opening fence.
#[verifier::opaque]
pub open spec fn bare_fence(b: Seq<u8>) -> bool {
    let line = lines::trimmed(first_line(b));
    &&& text::has_prefix(line, text::utf8("```"@)) || text::has_prefix(line, text::utf8("~~~"@))
    &&& lines::trimmed(text::piece(line, fence_end(line, 0), line.len() as int)).len() == 0
}

/// What is said of a node as a code block.
pub open spec fn code_report(tree: Tree, file: Seq<u8>, severity: Severity, node: Node) -> Seq<
    DiagView,
> {
    if node.kind is CodeBlock && node.syntax != Syntax::Html && bare_fence(tree.text_of(node)) {
        seq![
            at_node(
                tree,
                file,
                node,
                severity,
                text::utf8(
                    "code block without a language tag — add one (use `text` for non-code output)"@,
                ),
            ),
        ]
    } else {
        Seq::empty()
    }
}

/// What is said of the code blocks among a list of nodes.
pub open spec fn code_reports(
    tree: Tree,
    file: Seq<u8>,
    severity: Severity,
    nodes: Seq<Node>,
) -> Seq<DiagView>
    decreases nodes.len(),
{
    if nodes.len() == 0 {
        Seq::empty()
    } else {
        code_reports(tree, file, severity, nodes.drop_last()) + code_report(
            tree,
            file,
            severity,
            nodes.last(),
        )
    }
}

/// What is said of code blocks under a policy.
pub open spec fn language_reports(
    tree: Tree,
    file: Seq<u8>,
    policy: CodeBlockLanguagePolicy,
) -> Seq<DiagView> {
    match language_severity(policy) {
        Some(severity) => code_reports(tree, file, severity, tree.nodes@),
        None => Seq::empty(),
    }
}

fn is_bare_fence(raw: &str) -> (r: bool)
    ensures
        r == bare_fence(text::utf8(raw@)),
{
    reveal(bare_fence);
    let line = lines::trim(first_line_of(raw));
    if !text::starts_with(line, "```") && !text::starts_with(line, "~~~") {
        return false;
    }
    let b = line.as_bytes();
    let mut n: usize = 0;
    while n < b.len() && (b[n] == 96 || b[n] == 126)
        invariant
            n <= b@.len(),
            fence_end(b@, 0) == fence_end(b@, n as int),
        decreases b@.len() - n,
    {
        n += 1;
    }
    lines::trim(text::slice(line, n, b.len())).as_bytes().len() == 0
}

/// Report fenced code blocks without a language tag.
pub fn emit_code_block_diagnostics(
    tree: &Tree,
    rel_path: &str,
    config: &Config,
    out: &mut Vec<Diagnostic>,
)
    requires
        tree.wf(),
    ensures
        diagnostic::views(final(out)@) == diagnostic::views(old(out)@) + language_reports(
            *tree,
            path::named(rel_path@),
            config.policy.code_block_language,
        ),
{
    let ghost before = diagnostic::views(out@);
    let ghost file = path::named(rel_path@);
    assert(before + Seq::<DiagView>::empty() =~= before);
    let severity = match config.policy.code_block_language {
        CodeBlockLanguagePolicy::Disabled => {
            return;
        },
        CodeBlockLanguagePolicy::Hint => Severity::Hint,
        CodeBlockLanguagePolicy::Warn => Severity::Warning,
        CodeBlockLanguagePolicy::Deny => Severity::Error,
    };
    let mut i: usize = 0;
    assert(tree.nodes@.take(0) =~= Seq::<Node>::empty());
    while i < tree.nodes.len()
        invariant
            i <= tree.nodes@.len(),
            tree.wf(),
            file == path::named(rel_path@),
            diagnostic::views(out@) == before + code_reports(
                *tree,
                file,
                severity,
                tree.nodes@.take(i as int),
            ),
        decreases tree.nodes@.len() - i,
    {
        let node = &tree.nodes[i];
        let ghost so_far = code_reports(*tree, file, severity, tree.nodes@.take(i as int));
        let ghost one = code_report(*tree, file, severity, *node);
        let is_code = match node.kind {
            ElementKind::CodeBlock => true,
            _ => false,
        };
        if is_code && node.syntax != Syntax::Html && is_bare_fence(tree.raw(node)) {
            let d = node_diagnostic(
                tree,
                rel_path,
                node,
                severity,
                text::owned(
                    "code block without a language tag — add one (use `text` for non-code output)",
                ),
            );
            proof {
                diagnostic::lemma_views_push(out@, d);
                assert((before + so_far).push(d@) =~= before + (so_far + one));
            }
            out.push(d);
        } else {
            assert(so_far + one =~= so_far);
        }
        assert(tree.nodes@.take(i + 1).drop_last() =~= tree.nodes@.take(i as int));
        i += 1;
    }
    assert(tree.nodes@.take(i as int) =~= tree.nodes@);
}

// Images.

/// Whether a text is a markdown image whose alternative text is blank.
#[verifier::opaque]
pub open spec fn blank_image(b: Seq<u8>) -> bool {
    &&& text::has_prefix(b, text::utf8("!["@))
    &&& text::first_match(b, 0, text::utf8("]("@)) matches Some(close) && lines::trimmed(
        text::piece(b, 2, close),
    ).len() == 0
}

/// What is said of a node as an image.
pub open spec fn image_report(tree: Tree, file: Seq<u8>, node: Node) -> Seq<DiagView> {
    if (node.kind is Image || node.kind is Video || node.kind is Audio) && node.syntax
        == Syntax::Markdown && blank_image(tree.text_of(node)) {
        seq![
            at_node(
                tree,
                file,
                node,
                Severity::Warning,
                text::utf8("image with empty alt text"@),
            ),
        ]
    } else {
        Seq::empty()
    }
}

/// What is said of the images among a list of nodes.
pub open spec fn image_reports(tree: Tree, file: Seq<u8>, nodes: Seq<Node>) -> Seq<DiagView>
    decreases nodes.len(),
{
    if nodes.len() == 0 {
        Seq::empty()
    } else {
        image_reports(tree, file, nodes.drop_last()) + image_report(tree, file, nodes.last())
    }
}

fn is_blank_image(raw: &str) -> (r: bool)
    ensures
        r == blank_image(text::utf8(raw@)),
{
    reveal(blank_image);
    if !text::starts_with(raw, "![") {
        return false;
    }
    match text::find(raw.as_bytes(), 0, "](".as_bytes()) {
        Some(close) => lines::trim(text::slice(raw, 2, close)).as_bytes().len() == 0,
        None => false,
    }
}

/// Report images without alternative text, where that rule is on.
pub fn emit_image_diagnostics(
    tree: &Tree,
    rel_path: &str,
    config: &Config,
    out: &mut Vec<Diagnostic>,
)
    requires
        tree.wf(),
    ensures
        diagnostic::views(final(out)@) == diagnostic::views(old(out)@) + (
        if config.policy.image_empty_alt {
            image_reports(*tree, path::named(rel_path@), tree.nodes@)
        } else {
            Seq::empty()
        }),
{
    let ghost before = diagnostic::views(out@);
    let ghost file = path::named(rel_path@);
    assert(before + Seq::<DiagView>::empty() =~= before);
    if !config.policy.image_empty_alt {
        return;
    }
    let mut i: usize = 0;
    assert(tree.nodes@.take(0) =~= Seq::<Node>::empty());
    while i < tree.nodes.len()
        invariant
            i <= tree.nodes@.len(),
            tree.wf(),
            file == path::named(rel_path@),
            diagnostic::views(out@) == before + image_reports(
                *tree,
                file,
                tree.nodes@.take(i as int),
            ),
        decreases tree.nodes@.len() - i,
    {
        let node = &tree.nodes[i];
        let ghost so_far = image_reports(*tree, file, tree.nodes@.take(i as int));
        let ghost one = image_report(*tree, file, *node);
        let is_image = match node.kind {
            ElementKind::Image | ElementKind::Video | ElementKind::Audio => true,
            _ => false,
        };
        if is_image && node.syntax == Syntax::Markdown && is_blank_image(tree.raw(node)) {
            let d = node_diagnostic(
                tree,
                rel_path,
                node,
                Severity::Warning,
                text::owned("image with empty alt text"),
            );
            proof {
                diagnostic::lemma_views_push(out@, d);
                assert((before + so_far).push(d@) =~= before + (so_far + one));
            }
            out.push(d);
        } else {
            assert(so_far + one =~= so_far);
        }
        assert(tree.nodes@.take(i + 1).drop_last() =~= tree.nodes@.take(i as int));
        i += 1;
    }
    assert(tree.nodes@.take(i as int) =~= tree.nodes@);
}

// Trailing white space.

/// Whether an offset lies in a block whose text is not markdown.
pub open spec fn verbatim_at(nodes: Seq<Node>, at: int) -> bool {
    exists|k: int|
        0 <= k < nodes.len() && verbatim(#[trigger] nodes[k]) && nodes[k].span.start <= at
            < nodes[k].span.end
}

pub open spec fn verbatim(node: Node) -> bool {
    node.kind is CodeBlock || node.kind is HtmlBlock || node.kind is Math
}

/// The message about a number of trailing spaces.
pub open spec fn trailing_message(n: nat) -> Seq<u8> {
    text::utf8("invalid trailing whitespace ("@) + text::decimal(n) + text::utf8(
        " spaces): use 2 for hard break or 0"@,
    )
}

/// What is said of the line with index `k`: that one space or more than two
/// stand at its end, unless it starts in a verbatim block.
pub open spec fn trailing_report(
    tree: Tree,
    file: Seq<u8>,
    list: Seq<(int, int)>,
    k: int,
) -> Seq<DiagView> {
    let (start, end) = list[k];
    let line = tree.text().subrange(start, end);
    let from = start + text::run_start(line, line.len() as int, 32);
    let n = end - from;
    if !verbatim_at(tree.nodes@, start) && (n == 1 || n >= 3) {
        seq![
            DiagView {
                file,
                line: (k + 1) as nat,
                severity: Severity::Warning,
                message: trailing_message(n as nat),
                span: Some(Span { start: from as usize, end: end as usize }),
            },
        ]
    } else {
        Seq::empty()
    }
}

/// What is said of the first `n` lines.
pub open spec fn trailing_reports(
    tree: Tree,
    file: Seq<u8>,
    list: Seq<(int, int)>,
    n: int,
) -> Seq<DiagView>
    decreases n,
{
    if n <= 0 {
        Seq::empty()
    } else {
        trailing_reports(tree, file, list, n - 1) + trailing_report(tree, file, list, n - 1)
    }
}

fn is_verbatim_at(nodes: &Vec<Node>, at: usize) -> (r: bool)
    ensures
        r == verbatim_at(nodes@, at as int),
{
    let mut k: usize = 0;
    while k < nodes.len()
        invariant
            k <= nodes@.len(),
            forall|j: int|
                0 <= j < k ==> !(verbatim(#[trigger] nodes@[j]) && nodes@[j].span.start <= at
                    < nodes@[j].span.end),
        decreases nodes@.len() - k,
    {
        let node = &nodes[k];
        let skips = match node.kind {
            ElementKind::CodeBlock | ElementKind::HtmlBlock | ElementKind::Math => true,
            _ => false,
        };
        if skips && node.span.start <= at && at < node.span.end {
            assert(verbatim(nodes@[k as int]));
            return true;
        }
        k += 1;
    }
    false
}

/// Report lines with one trailing space or more than two.
pub fn emit_trailing_whitespace_diagnostics(
    tree: &Tree,
    rel_path: &str,
    out: &mut Vec<Diagnostic>,
)
    requires
        tree.wf(),
    ensures
        diagnostic::views(final(out)@) == diagnostic::views(old(out)@) + trailing_reports(
            *tree,
            path::named(rel_path@),
            lines::lines_from(tree.text(), 0),
            lines::lines_from(tree.text(), 0).len() as int,
        ),
{
    let ghost before = diagnostic::views(out@);
    let ghost file = path::named(rel_path@);
    let b = tree.source.as_str().as_bytes();
    let list = lines::lines(b);
    let ghost all = lines::as_ranges(list@);
    let mut k: usize = 0;
    assert(before + Seq::<DiagView>::empty() =~= before);
    while k < list.len()
        invariant
            k <= list@.len(),
            tree.wf(),
            b@ == tree.text(),
            file == path::named(rel_path@),
            all == lines::as_ranges(list@),
            forall|j: int|
                0 <= j < list@.len() ==> (#[trigger] list@[j]).start <= list@[j].end <= b@.len(),
            diagnostic::views(out@) == before + trailing_reports(*tree, file, all, k as int),
        decreases list@.len() - k,
    {
        let start = list[k].start;
        let end = list[k].end;
        let ghost so_far = trailing_reports(*tree, file, all, k as int);
        let ghost one = trailing_report(*tree, file, all, k as int);
        let ghost line = b@.subrange(start as int, end as int);
        let mut from: usize = end;
        while from > start && b[from - 1] == 32
            invariant
                start <= from <= end <= b@.len(),
                line == b@.subrange(start as int, end as int),
                text::run_start(line, line.len() as int, 32) == text::run_start(
                    line,
                    from - start,
                    32,
                ),
            decreases from,
        {
            assert(line[from - start - 1] == b@[from - 1]);
            from -= 1;
        }
        proof {
            if from > start {
                assert(line[from - start - 1] == b@[from - 1]);
            }
            assert(all[k as int] == (start as int, end as int));
        }
        let n = end - from;
        if !is_verbatim_at(&tree.nodes, start) && (n == 1 || n >= 3) {
            let mut message = text::owned("invalid trailing whitespace (");
            text::push_decimal(&mut message, n);
            text::push(&mut message, " spaces): use 2 for hard break or 0");
            let d = Diagnostic {
                file: text::owned(rel_path),
                line: k + 1,
                severity: Severity::Warning,
                message,
                span: Some(Span { start: from, end }),
            };
            proof {
                diagnostic::lemma_views_push(out@, d);
                assert((before + so_far).push(d@) =~= before + (so_far + one));
            }
            out.push(d);
        } else {
            assert(so_far + one =~= so_far);
        }
        k += 1;
    }
}

} // verus!

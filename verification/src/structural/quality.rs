//! What the checks on headings, code blocks, images and line ends find.
use vstd::prelude::*;
use crate::block::{ElementKind, HeadingText, Node, Syntax, Tree};
use crate::config::{CodeBlockLanguagePolicy, Config, FragmentAlgorithm};
use crate::diagnostic;
use crate::diagnostic::{DiagView, Severity};
use crate::fm::Exceptions;
use crate::lines;
use crate::span::Span;
use crate::structural;
use crate::structural::content;
use crate::structural::finds;
use crate::structural::html;
use crate::structural::references::SceneView;
use crate::text;

verus! {

/// Whether a report has a finding.
pub open spec fn is_reported(
    tree: Tree,
    scene: SceneView,
    exceptions: Exceptions,
    metadata: Seq<DiagView>,
    d: DiagView,
) -> bool {
    diagnostic::in_report_order(
        structural::flow_of(tree, scene, exceptions, metadata).out,
    ).contains(d)
}

/// A finding about the whole of a node, on the line that the node starts on.
pub open spec fn finding_at(
    tree: Tree,
    scene: SceneView,
    node: Node,
    severity: Severity,
    message: Seq<u8>,
) -> DiagView {
    DiagView {
        file: scene.file,
        line: lines::line_of(tree.text(), node.span.start as int),
        severity,
        message,
        span: Some(node.span),
    }
}

// From a check to the report.

proof fn lemma_early(
    tree: Tree,
    scene: SceneView,
    exceptions: Exceptions,
    metadata: Seq<DiagView>,
    d: DiagView,
)
    requires
        content::parser_reports(tree, scene.file).contains(d) || content::heading_reports(
            tree,
            scene.file,
            scene.config,
            tree.nodes@.len() as int,
        ).contains(d),
    ensures
        is_reported(tree, scene, exceptions, metadata, d),
{
    reveal(structural::early_reports);
    diagnostic::lemma_either(
        content::parser_reports(tree, scene.file),
        content::heading_reports(tree, scene.file, scene.config, tree.nodes@.len() as int),
        d,
    );
    finds::lemma_reported(tree, scene, exceptions, metadata, d);
}

pub(crate) proof fn lemma_late(
    tree: Tree,
    scene: SceneView,
    exceptions: Exceptions,
    metadata: Seq<DiagView>,
    d: DiagView,
)
    requires
        ({
            let file = scene.file;
            let config = scene.config;
            let list = lines::lines_from(tree.text(), 0);
            ||| html::element_reports(tree, file, tree.nodes@).contains(d)
            ||| html::opaque_reports(tree, file, tree.nodes@).contains(d)
            ||| content::language_reports(
                tree,
                file,
                config.policy.code_block_language,
            ).contains(d)
            ||| config.policy.image_empty_alt && content::image_reports(
                tree,
                file,
                tree.nodes@,
            ).contains(d)
            ||| content::trailing_reports(tree, file, list, list.len() as int).contains(d)
        }),
    ensures
        is_reported(tree, scene, exceptions, metadata, d),
{
    reveal(structural::late_reports);
    let file = scene.file;
    let config = scene.config;
    let list = lines::lines_from(tree.text(), 0);
    let a = html::element_reports(tree, file, tree.nodes@);
    let b = html::opaque_reports(tree, file, tree.nodes@);
    let m = diagnostic::about(metadata, file);
    let y = content::language_reports(tree, file, config.policy.code_block_language);
    let z = if config.policy.image_empty_alt {
        content::image_reports(tree, file, tree.nodes@)
    } else {
        Seq::empty()
    };
    let w = content::trailing_reports(tree, file, list, list.len() as int);
    diagnostic::lemma_either(a, b, d);
    diagnostic::lemma_either(a + b, m, d);
    diagnostic::lemma_either(a + b + m, y, d);
    diagnostic::lemma_either(a + b + m + y, z, d);
    diagnostic::lemma_either(a + b + m + y + z, w, d);
    assert(structural::late_reports(tree, file, config, metadata) == a + b + m + y + z + w);
    finds::lemma_reported(tree, scene, exceptions, metadata, d);
}

// Findings of the parser.

/// What the parser finds is reported, each finding with its words, its place and
/// its level.
pub proof fn law_parser_findings_are_reported(
    tree: Tree,
    scene: SceneView,
    exceptions: Exceptions,
    metadata: Seq<DiagView>,
    i: int,
    d: DiagView,
)
    requires
        0 <= i < tree.diagnostics@.len(),
        d.file == scene.file,
        d.line == lines::line_of(tree.text(), tree.diagnostics@[i].span.start as int),
        d.severity == Severity::Error <==> tree.diagnostics@[i].level
            == crate::block::DiagnosticLevel::Error,
        d.severity == Severity::Error || d.severity == Severity::Warning,
        d.message == text::utf8(tree.diagnostics@[i].message@),
        d.span == Some(tree.diagnostics@[i].span),
    ensures
        is_reported(tree, scene, exceptions, metadata, d),
{
    let list = content::parser_reports(tree, scene.file);
    assert(list[i] == d);
    lemma_early(tree, scene, exceptions, metadata, d);
}

// Headings.

/// Whether a node is a heading that shows text, of a level.
pub open spec fn is_heading(tree: Tree, i: int, level: int) -> bool {
    &&& 0 <= i < tree.nodes@.len()
    &&& tree.nodes@[i].kind matches ElementKind::Heading { level: l, text: t } && l == level
        && !content::blank_heading(tree, tree.nodes@[i], t)
}

/// Whether a node is a heading that shows text, with an anchor: the one that
/// GitLab gives, or that VS Code gives, where that is configured, and else the one
/// that GitHub gives.
pub open spec fn has_anchor(tree: Tree, config: Config, i: int, slug: Seq<u8>) -> bool {
    &&& 0 <= i < tree.nodes@.len()
    &&& tree.nodes@[i].kind matches ElementKind::Heading { level, text: t } && {
        &&& !content::blank_heading(tree, tree.nodes@[i], t)
        &&& config.policy.fragments == Some(FragmentAlgorithm::Gitlab) ==> slug == text::utf8(
            t.gitlab@,
        )
        &&& config.policy.fragments == Some(FragmentAlgorithm::Vscode) ==> slug == text::utf8(
            t.vscode@,
        )
        &&& config.policy.fragments is None || config.policy.fragments == Some(
            FragmentAlgorithm::Github,
        ) ==> slug == text::utf8(t.github@)
    }
}

proof fn lemma_headings(tree: Tree, file: Seq<u8>, config: Config, n: int, i: int, d: DiagView)
    requires
        0 <= i < n,
        content::heading_report(tree, file, config, i).contains(d),
    ensures
        content::heading_reports(tree, file, config, n).contains(d),
    decreases n,
{
    if i < n - 1 {
        lemma_headings(tree, file, config, n - 1, i, d);
    }
    diagnostic::lemma_either(
        content::heading_reports(tree, file, config, n - 1),
        content::heading_report(tree, file, config, n - 1),
        d,
    );
}

/// A heading that shows no text is reported.
pub proof fn law_empty_headings_are_reported(
    tree: Tree,
    scene: SceneView,
    exceptions: Exceptions,
    metadata: Seq<DiagView>,
    i: int,
)
    requires
        0 <= i < tree.nodes@.len(),
        tree.nodes@[i].kind matches ElementKind::Heading { level, text: t } && lines::trimmed(
            content::heading_text(
                tree.text_of(tree.nodes@[i]),
                tree.nodes@[i].syntax,
                text::utf8(t.html@),
            ),
        ).len() == 0,
    ensures
        is_reported(
            tree,
            scene,
            exceptions,
            metadata,
            finding_at(
                tree,
                scene,
                tree.nodes@[i],
                Severity::Warning,
                text::utf8("empty heading"@),
            ),
        ),
{
    reveal(content::blank_heading);
    let node = tree.nodes@[i];
    let d = finding_at(tree, scene, node, Severity::Warning, text::utf8("empty heading"@));
    let one = content::heading_report(tree, scene.file, scene.config, i);
    assert(one[0] == d);
    lemma_headings(tree, scene.file, scene.config, tree.nodes@.len() as int, i, d);
    lemma_early(tree, scene, exceptions, metadata, d);
}

proof fn lemma_one_h1(tree: Tree, n: int, j: int)
    requires
        0 <= n <= tree.nodes@.len(),
        is_heading(tree, j, 1),
        forall|k: int| 0 <= k < n && k != j ==> !#[trigger] is_heading(tree, k, 1),
    ensures
        content::h1_before(tree, n) == if j < n {
            1nat
        } else {
            0
        },
    decreases n,
{
    if n > 0 {
        lemma_one_h1(tree, n - 1, j);
        if n - 1 != j {
            assert(!is_heading(tree, n - 1, 1));
        }
    }
}

proof fn lemma_findings(
    tree: Tree,
    file: Seq<u8>,
    config: Config,
    i: int,
    level: u8,
    t: HeadingText,
    d: DiagView,
)
    requires
        0 <= i < tree.nodes@.len(),
        tree.nodes@[i].kind == (ElementKind::Heading { level, text: t }),
        !content::blank_heading(tree, tree.nodes@[i], t),
        ({
            let node = tree.nodes@[i];
            let slug = content::anchor_of(config, t);
            let seen = content::anchors_before(tree, config, i);
            ||| content::second_h1(
                tree,
                file,
                config,
                node,
                level == 1 && content::h1_before(tree, i) == 1,
            ).contains(d)
            ||| content::skipped_level(
                tree,
                file,
                config,
                node,
                level,
                content::level_before(tree.nodes@, i),
            ).contains(d)
            ||| seen.contains_key(slug) && content::taken_anchor(
                tree,
                file,
                node,
                slug,
                Some(seen[slug]),
            ).contains(d)
        }),
    ensures
        content::heading_reports(tree, file, config, tree.nodes@.len() as int).contains(d),
{
    let node = tree.nodes@[i];
    let slug = content::anchor_of(config, t);
    let seen = content::anchors_before(tree, config, i);
    let x = content::second_h1(
        tree,
        file,
        config,
        node,
        level == 1 && content::h1_before(tree, i) == 1,
    );
    let y = content::skipped_level(
        tree,
        file,
        config,
        node,
        level,
        content::level_before(tree.nodes@, i),
    );
    let z = content::taken_anchor(
        tree,
        file,
        node,
        slug,
        if seen.contains_key(slug) {
            Some(seen[slug])
        } else {
            None
        },
    );
    diagnostic::lemma_either(x, y, d);
    diagnostic::lemma_either(x + y, z, d);
    assert(content::heading_report(tree, file, config, i) == x + y + z);
    lemma_headings(tree, file, config, tree.nodes@.len() as int, i, d);
}

/// The second heading of the first level is reported where the rule is on.
pub proof fn law_second_h1_is_reported(
    tree: Tree,
    scene: SceneView,
    exceptions: Exceptions,
    metadata: Seq<DiagView>,
    j: int,
    i: int,
)
    requires
        is_heading(tree, j, 1),
        is_heading(tree, i, 1),
        j < i,
        forall|k: int| 0 <= k < i && k != j ==> !#[trigger] is_heading(tree, k, 1),
        scene.config.policy.multiple_h1,
    ensures
        is_reported(
            tree,
            scene,
            exceptions,
            metadata,
            finding_at(
                tree,
                scene,
                tree.nodes@[i],
                Severity::Warning,
                text::utf8("multiple H1 headings"@),
            ),
        ),
{
    let node = tree.nodes@[i];
    let d = finding_at(tree, scene, node, Severity::Warning, text::utf8("multiple H1 headings"@));
    lemma_one_h1(tree, i, j);
    let x = content::second_h1(tree, scene.file, scene.config, node, true);
    assert(x[0] == d);
    lemma_findings(
        tree,
        scene.file,
        scene.config,
        i,
        node.kind->Heading_level,
        node.kind->Heading_text,
        d,
    );
    lemma_early(tree, scene, exceptions, metadata, d);
}

proof fn lemma_level_before(nodes: Seq<Node>, n: int, p: int)
    requires
        0 <= p < n <= nodes.len(),
        nodes[p].kind is Heading,
        forall|k: int| p < k < n ==> !((#[trigger] nodes[k]).kind is Heading),
    ensures
        content::level_before(nodes, n) == Some(nodes[p].kind->Heading_level),
    decreases n,
{
    if p < n - 1 {
        assert(!(nodes[n - 1].kind is Heading));
        lemma_level_before(nodes, n - 1, p);
    }
}

/// A heading more than one level below the heading before it is reported where the
/// rule is on, with both levels.
pub proof fn law_skipped_levels_are_reported(
    tree: Tree,
    scene: SceneView,
    exceptions: Exceptions,
    metadata: Seq<DiagView>,
    p: int,
    i: int,
    level: int,
)
    requires
        is_heading(tree, i, level),
        0 <= p < i,
        tree.nodes@[p].kind is Heading,
        forall|k: int| p < k < i ==> !((#[trigger] tree.nodes@[k]).kind is Heading),
        level >= tree.nodes@[p].kind->Heading_level + 2,
        scene.config.policy.skipped_heading_level,
    ensures
        is_reported(
            tree,
            scene,
            exceptions,
            metadata,
            finding_at(
                tree,
                scene,
                tree.nodes@[i],
                Severity::Warning,
                text::utf8("skipped heading level: H"@) + text::decimal(
                    tree.nodes@[p].kind->Heading_level as nat,
                ) + text::utf8(" to H"@) + text::decimal(level as nat),
            ),
        ),
{
    let node = tree.nodes@[i];
    let d = finding_at(
        tree,
        scene,
        node,
        Severity::Warning,
        text::utf8("skipped heading level: H"@) + text::decimal(
            tree.nodes@[p].kind->Heading_level as nat,
        ) + text::utf8(" to H"@) + text::decimal(level as nat),
    );
    lemma_level_before(tree.nodes@, i, p);
    let y = content::skipped_level(
        tree,
        scene.file,
        scene.config,
        node,
        node.kind->Heading_level,
        Some(tree.nodes@[p].kind->Heading_level),
    );
    assert(y[0] == d);
    lemma_findings(
        tree,
        scene.file,
        scene.config,
        i,
        node.kind->Heading_level,
        node.kind->Heading_text,
        d,
    );
    lemma_early(tree, scene, exceptions, metadata, d);
}

proof fn lemma_anchors(tree: Tree, config: Config, n: int, j: int, slug: Seq<u8>)
    requires
        0 <= n <= tree.nodes@.len(),
        has_anchor(tree, config, j, slug),
        forall|k: int| 0 <= k < j ==> !#[trigger] has_anchor(tree, config, k, slug),
    ensures
        content::anchors_before(tree, config, n).contains_key(slug) == (j < n),
        j < n ==> content::anchors_before(tree, config, n)[slug] == lines::line_of(
            tree.text(),
            tree.nodes@[j].span.start as int,
        ) as usize,
    decreases n,
{
    if n > 0 {
        lemma_anchors(tree, config, n - 1, j, slug);
        if n - 1 < j {
            assert(!has_anchor(tree, config, n - 1, slug));
        }
    }
}

/// A heading whose anchor an earlier one has is reported, with the anchor and the
/// line of the first heading that has it.
pub proof fn law_taken_anchors_are_reported(
    tree: Tree,
    scene: SceneView,
    exceptions: Exceptions,
    metadata: Seq<DiagView>,
    j: int,
    i: int,
    slug: Seq<u8>,
)
    requires
        tree.wf(),
        has_anchor(tree, scene.config, j, slug),
        has_anchor(tree, scene.config, i, slug),
        j < i,
        forall|k: int| 0 <= k < j ==> !#[trigger] has_anchor(tree, scene.config, k, slug),
    ensures
        is_reported(
            tree,
            scene,
            exceptions,
            metadata,
            finding_at(
                tree,
                scene,
                tree.nodes@[i],
                Severity::Warning,
                text::utf8("duplicate heading slug `"@) + slug + text::utf8("` (first at line "@)
                    + text::decimal(
                    lines::line_of(tree.text(), tree.nodes@[j].span.start as int),
                ) + text::utf8(") — `#"@) + slug + text::utf8("` resolves only to the first"@),
            ),
        ),
{
    let node = tree.nodes@[i];
    let line = lines::line_of(tree.text(), tree.nodes@[j].span.start as int);
    let d = finding_at(
        tree,
        scene,
        node,
        Severity::Warning,
        text::utf8("duplicate heading slug `"@) + slug + text::utf8("` (first at line "@)
            + text::decimal(line) + text::utf8(") — `#"@) + slug + text::utf8(
            "` resolves only to the first"@,
        ),
    );
    assert(tree.node_wf(j, tree.nodes@[j]));
    lines::lemma_line_feeds_bound(tree.text(), tree.nodes@[j].span.start as int);
    lemma_anchors(tree, scene.config, i, j, slug);
    let z = content::taken_anchor(tree, scene.file, node, slug, Some(line as usize));
    assert(z[0] == d);
    lemma_findings(
        tree,
        scene.file,
        scene.config,
        i,
        node.kind->Heading_level,
        node.kind->Heading_text,
        d,
    );
    lemma_early(tree, scene, exceptions, metadata, d);
}

/// A heading is said to be one of four things and nothing else: empty; the second of
/// the first level; too far below the one before it; or with an anchor that an
/// earlier one has. Whatever is said of headings has the span of a heading, is a
/// warning, and in the last three cases is said of a heading that shows text.
pub proof fn law_heading_findings_say_why(
    tree: Tree,
    file: Seq<u8>,
    config: Config,
    n: int,
    d: DiagView,
) -> (i: int)
    requires
        0 <= n <= tree.nodes@.len(),
        content::heading_reports(tree, file, config, n).contains(d),
    ensures
        0 <= i < n,
        tree.nodes@[i].kind is Heading,
        d.span == Some(tree.nodes@[i].span),
        d.severity == Severity::Warning,
        d.file == file,
        ({
            let node = tree.nodes@[i];
            let level = node.kind->Heading_level;
            ||| content::blank_heading(tree, node, node.kind->Heading_text) && d.message
                == text::utf8("empty heading"@)
            ||| {
                &&& is_heading(tree, i, level as int)
                &&& {
                    ||| {
                        &&& d.message == text::utf8("multiple H1 headings"@)
                        &&& config.policy.multiple_h1
                        &&& level == 1
                        &&& exists|j: int| 0 <= j < i && #[trigger] is_heading(tree, j, 1)
                    }
                    ||| {
                        &&& config.policy.skipped_heading_level
                        &&& exists|p: int|
                            0 <= p < i && (#[trigger] tree.nodes@[p]).kind is Heading && level
                                >= tree.nodes@[p].kind->Heading_level + 2
                    }
                    ||| exists|j: int|
                        0 <= j < i && #[trigger] has_anchor(
                            tree,
                            config,
                            j,
                            content::anchor_of(config, node.kind->Heading_text),
                        )
                }
            }
        }),
    decreases n,
{
    let before = content::heading_reports(tree, file, config, n - 1);
    let one = content::heading_report(tree, file, config, n - 1);
    diagnostic::lemma_either(before, one, d);
    if before.contains(d) {
        law_heading_findings_say_why(tree, file, config, n - 1, d)
    } else {
        let i = n - 1;
        let node = tree.nodes@[i];
        match node.kind {
            ElementKind::Heading { level, text: t } => {
                if !content::blank_heading(tree, node, t) {
                    assert(is_heading(tree, i, level as int));
                    if content::h1_before(tree, i) == 1 {
                        let j = lemma_some_h1(tree, i);
                        assert(is_heading(tree, j, 1));
                    }
                    if content::level_before(tree.nodes@, i) is Some {
                        let p = lemma_some_level(tree.nodes@, i);
                        assert(tree.nodes@[p].kind is Heading);
                    }
                    let slug = content::anchor_of(config, t);
                    if content::anchors_before(tree, config, i).contains_key(slug) {
                        let j = lemma_some_anchor(tree, config, i, slug);
                        assert(has_anchor(tree, config, j, slug));
                    }
                }
            },
            _ => {},
        }
        i
    }
}

proof fn lemma_some_h1(tree: Tree, n: int) -> (j: int)
    requires
        0 <= n <= tree.nodes@.len(),
        content::h1_before(tree, n) > 0,
    ensures
        0 <= j < n,
        is_heading(tree, j, 1),
    decreases n,
{
    if is_heading(tree, n - 1, 1) {
        n - 1
    } else {
        lemma_some_h1(tree, n - 1)
    }
}

proof fn lemma_some_level(nodes: Seq<Node>, n: int) -> (p: int)
    requires
        0 <= n <= nodes.len(),
        content::level_before(nodes, n) is Some,
    ensures
        0 <= p < n,
        nodes[p].kind is Heading,
        content::level_before(nodes, n) == Some(nodes[p].kind->Heading_level),
    decreases n,
{
    if nodes[n - 1].kind is Heading {
        n - 1
    } else {
        lemma_some_level(nodes, n - 1)
    }
}

proof fn lemma_some_anchor(tree: Tree, config: Config, n: int, slug: Seq<u8>) -> (j: int)
    requires
        0 <= n <= tree.nodes@.len(),
        content::anchors_before(tree, config, n).contains_key(slug),
    ensures
        0 <= j < n,
        has_anchor(tree, config, j, slug),
    decreases n,
{
    if has_anchor(tree, config, n - 1, slug) {
        n - 1
    } else {
        lemma_some_anchor(tree, config, n - 1, slug)
    }
}

// The text of a heading.

proof fn lemma_run_end(b: Seq<u8>, i: int, j: int, c: u8)
    requires
        0 <= i <= j <= b.len(),
        forall|k: int| i <= k < j ==> #[trigger] b[k] == c,
        j < b.len() ==> b[j] != c,
    ensures
        text::run_end(b, i, c) == j,
    decreases j - i,
{
    if i < j {
        assert(b[i] == c);
        lemma_run_end(b, i + 1, j, c);
    }
}

proof fn lemma_run_start(b: Seq<u8>, i: int, j: int, c: u8)
    requires
        0 <= j <= i <= b.len(),
        forall|k: int| j <= k < i ==> #[trigger] b[k] == c,
        j > 0 ==> b[j - 1] != c,
    ensures
        text::run_start(b, i, c) == j,
    decreases i - j,
{
    if j < i {
        assert(b[i - 1] == c);
        lemma_run_start(b, i - 1, j, c);
    }
}

proof fn lemma_feed(b: Seq<u8>, i: int, n: int)
    requires
        0 <= i <= n <= b.len(),
        forall|k: int| i <= k < n ==> #[trigger] b[k] != 10,
        n < b.len() ==> b[n] == 10,
    ensures
        lines::line_feed(b, i) == n,
    decreases n - i,
{
    if i < n {
        assert(b[i] != 10);
        lemma_feed(b, i + 1, n);
    }
}

/// The first line of a text that goes up to `end`.
proof fn lemma_first_line(b: Seq<u8>, end: int)
    requires
        0 < end <= b.len(),
        forall|k: int| 0 <= k < end ==> #[trigger] b[k] != 10 && b[k] != 13,
        end == b.len() || b[end] == 10 || (b[end] == 13 && end + 1 < b.len() && b[end + 1] == 10),
    ensures
        content::first_line(b) == b.subrange(0, end),
{
    if end < b.len() && b[end] == 13 {
        assert forall|k: int| 0 <= k < end + 1 implies #[trigger] b[k] != 10 by {
            if k < end {
                assert(b[k] != 10);
            }
        }
        lemma_feed(b, 0, end + 1);
    } else {
        lemma_feed(b, 0, end);
        assert(b[end - 1] != 13);
    }
    if end < b.len() {
        let x = b[end];
        assert(!vstd::utf8::is_continuation_byte(x));
    }
}

/// Where blanks stand between two offsets.
pub open spec fn blanks(b: Seq<u8>, i: int, j: int) -> bool {
    i <= j && forall|k: int| i <= k < j ==> #[trigger] b[k] == 32 || b[k] == 9
}

/// Where number signs stand between two offsets.
pub open spec fn signs(b: Seq<u8>, i: int, j: int) -> bool {
    i <= j && forall|k: int| i <= k < j ==> #[trigger] b[k] == 35
}

/// Where the words of a heading that is marked with number signs stand: `opened`
/// behind the signs, `from` and `to` around the words, `closing` and `closed` around
/// the signs at the end, if there are any, and `end` at the end of the line.
pub struct HeadingPlaces {
    pub opened: int,
    pub from: int,
    pub to: int,
    pub closing: int,
    pub closed: int,
    pub end: int,
}

/// Whether a text starts with a line that has these places.
pub open spec fn is_marked_heading(b: Seq<u8>, p: HeadingPlaces) -> bool {
    &&& 0 < p.opened <= p.from < p.to <= p.closing <= p.closed <= p.end <= b.len()
    &&& signs(b, 0, p.opened)
    &&& blanks(b, p.opened, p.from)
    &&& 33 <= b[p.from] <= 126
    &&& b[p.from] != 35
    &&& forall|k: int| p.from <= k < p.to ==> #[trigger] b[k] != 10 && b[k] != 13
    &&& 33 <= b[p.to - 1] <= 126
    &&& b[p.to - 1] != 35
    &&& b[p.to - 1] != 125
    &&& blanks(b, p.to, p.closing)
    &&& signs(b, p.closing, p.closed)
    &&& blanks(b, p.closed, p.end)
    &&& p.end == b.len() || b[p.end] == 10 || (b[p.end] == 13 && p.end + 1 < b.len() && b[p.end
        + 1] == 10)
}

proof fn lemma_heading_line(b: Seq<u8>, p: HeadingPlaces)
    requires
        is_marked_heading(b, p),
    ensures
        content::first_line(b) == b.subrange(0, p.end),
        text::run_end(b.subrange(0, p.end), 0, 35) == p.opened,
{
    assert forall|k: int| 0 <= k < p.end implies #[trigger] b[k] != 10 && b[k] != 13 by {
        if k < p.opened {
            assert(b[k] == 35);
        } else if k < p.from {
            assert(b[k] == 32 || b[k] == 9);
        } else if k < p.to {
            assert(b[k] != 10);
        } else if k < p.closing {
            assert(b[k] == 32 || b[k] == 9);
        } else if k < p.closed {
            assert(b[k] == 35);
        } else {
            assert(b[k] == 32 || b[k] == 9);
        }
    }
    lemma_first_line(b, p.end);
    let line = b.subrange(0, p.end);
    assert(line[p.opened] == b[p.opened]);
    assert(b[p.opened] != 35) by {
        if p.opened < p.from {
            assert(b[p.opened] == 32 || b[p.opened] == 9);
        }
    }
    assert forall|k: int| 0 <= k < p.opened implies #[trigger] line[k] == 35 by {
        assert(b[k] == 35);
    }
    lemma_run_end(line, 0, p.opened, 35);
}

/// Behind the signs, without the blanks at the ends.
proof fn lemma_heading_opened(b: Seq<u8>, p: HeadingPlaces, last: int)
    requires
        is_marked_heading(b, p),
        last == if p.closing < p.closed {
            p.closed
        } else {
            p.to
        },
    ensures
        ({
            let line = b.subrange(0, p.end);
            lines::trimmed(text::piece(line, p.opened, p.end)) == b.subrange(p.from, last)
        }),
{
    let line = b.subrange(0, p.end);
    let rest = line.subrange(p.opened, p.end);
    assert(line[p.opened] == b[p.opened]);
    assert(b[p.opened] < 128) by {
        if p.opened < p.from {
            assert(b[p.opened] == 32 || b[p.opened] == 9);
        }
    }
    let x = line[p.opened];
    assert(!vstd::utf8::is_continuation_byte(x));
    assert(text::piece(line, p.opened, p.end) == rest);
    assert forall|k: int| 0 <= k < p.from - p.opened implies lines::is_white(#[trigger] rest[k]) by {
        assert(rest[k] == b[p.opened + k]);
    }
    assert forall|k: int| last - p.opened <= k < rest.len() implies lines::is_white(
        #[trigger] rest[k],
    ) by {
        let at = p.opened + k;
        assert(rest[k] == b[at]);
        if at < p.closing {
            assert(b[at] == 32 || b[at] == 9);
        } else {
            assert(b[at] == 32 || b[at] == 9);
        }
    }
    assert(rest[p.from - p.opened] == b[p.from]);
    assert(rest[last - p.opened - 1] == b[last - 1]);
    assert(33 <= b[last - 1] <= 126) by {
        if p.closing < p.closed {
            assert(b[p.closed - 1] == 35);
        }
    }
    lines::law_trimming_takes_the_ends(rest, p.from - p.opened, last - p.opened);
    assert(rest.subrange(p.from - p.opened, last - p.opened) =~= b.subrange(p.from, last));
}

/// Without the signs at the end and the blanks before them.
proof fn lemma_heading_closed(b: Seq<u8>, p: HeadingPlaces, last: int)
    requires
        is_marked_heading(b, p),
        last == if p.closing < p.closed {
            p.closed
        } else {
            p.to
        },
    ensures
        ({
            let inner = b.subrange(p.from, last);
            lines::trimmed_end(
                text::piece(inner, 0, text::run_start(inner, inner.len() as int, 35)),
            ) == b.subrange(p.from, p.to)
        }),
{
    let inner = b.subrange(p.from, last);
    let cut = if p.closing < p.closed {
        p.closing - p.from
    } else {
        p.to - p.from
    };
    assert forall|k: int| cut <= k < inner.len() implies #[trigger] inner[k] == 35 by {
        assert(inner[k] == b[p.from + k]);
    }
    assert(inner[cut - 1] == b[p.from + cut - 1]);
    assert(b[p.from + cut - 1] != 35) by {
        if p.closing < p.closed && p.to < p.closing {
            assert(b[p.closing - 1] == 32 || b[p.closing - 1] == 9);
        }
    }
    lemma_run_start(inner, inner.len() as int, cut, 35);
    let bare = inner.subrange(0, cut);
    assert(text::piece(inner, 0, cut) == bare) by {
        if cut < inner.len() {
            let x = inner[cut];
            assert(x == 35);
            assert(!vstd::utf8::is_continuation_byte(x));
        }
    }
    assert forall|k: int| p.to - p.from <= k < bare.len() implies lines::is_white(
        #[trigger] bare[k],
    ) by {
        assert(bare[k] == b[p.from + k]);
    }
    assert(bare[0] == b[p.from]);
    assert(bare[p.to - p.from - 1] == b[p.to - 1]);
    lines::law_trimming_takes_the_ends(bare, 0, p.to - p.from);
    assert(bare.subrange(0, p.to - p.from) =~= b.subrange(p.from, p.to));
}

/// A heading that is marked with number signs shows what stands between them: the
/// words without the signs at both ends and without the blanks around them.
pub proof fn law_headings_show_their_words(b: Seq<u8>, html: Seq<u8>, p: HeadingPlaces)
    requires
        is_marked_heading(b, p),
    ensures
        content::heading_text(b, Syntax::Markdown, html) == b.subrange(p.from, p.to),
{
    let last = if p.closing < p.closed {
        p.closed
    } else {
        p.to
    };
    assert(b[0] == 35);
    lemma_opens(b);
    lemma_heading_line(b, p);
    lemma_heading_opened(b, p, last);
    lemma_heading_closed(b, p, last);
    let words = b.subrange(p.from, p.to);
    assert(words.last() == b[p.to - 1]);
}

proof fn lemma_opens(b: Seq<u8>)
    requires
        b.len() > 0,
        b[0] == 35,
    ensures
        text::has_prefix(lines::trimmed_start(b), text::utf8("#"@)),
{
    reveal_strlit("#");
    assert(vstd::utf8::is_ascii_chars("#"@));
    vstd::utf8::is_ascii_chars_encode_utf8("#"@);
    assert(lines::skip_space(b, 0) == 0);
    assert(lines::trimmed_start(b) =~= b);
    assert(b.subrange(0, 1) =~= text::utf8("#"@));
}

/// A heading written as HTML shows the text between its tags.
pub proof fn law_html_headings_show_their_content(b: Seq<u8>, html: Seq<u8>)
    ensures
        content::heading_text(b, Syntax::Html, html) == html,
{
}

// Code blocks.

proof fn lemma_codes(
    tree: Tree,
    file: Seq<u8>,
    severity: Severity,
    nodes: Seq<Node>,
    i: int,
    d: DiagView,
)
    requires
        0 <= i < nodes.len(),
        content::code_report(tree, file, severity, nodes[i]).contains(d),
    ensures
        content::code_reports(tree, file, severity, nodes).contains(d),
    decreases nodes.len(),
{
    if i < nodes.len() - 1 {
        assert(nodes.drop_last()[i] == nodes[i]);
        lemma_codes(tree, file, severity, nodes.drop_last(), i, d);
    }
    diagnostic::lemma_either(
        content::code_reports(tree, file, severity, nodes.drop_last()),
        content::code_report(tree, file, severity, nodes.last()),
        d,
    );
}

/// Whether the first line of a text goes up to `end` and holds, behind blanks, a
/// fence of three or more backticks or tildes from `from` up to `to`.
pub open spec fn fence_in(b: Seq<u8>, from: int, to: int, end: int) -> bool {
    &&& 0 <= from
    &&& from + 3 <= to <= end <= b.len()
    &&& blanks(b, 0, from)
    &&& (forall|k: int| from <= k < to ==> #[trigger] b[k] == 96) || (forall|k: int|
        from <= k < to ==> #[trigger] b[k] == 126)
    &&& forall|k: int| to <= k < end ==> #[trigger] b[k] != 10 && b[k] != 13
    &&& end == b.len() || b[end] == 10 || (b[end] == 13 && end + 1 < b.len() && b[end + 1] == 10)
}

proof fn lemma_fence_end(b: Seq<u8>, i: int, j: int)
    requires
        0 <= i <= j <= b.len(),
        forall|k: int| i <= k < j ==> #[trigger] b[k] == 96 || b[k] == 126,
        j < b.len() ==> b[j] != 96 && b[j] != 126,
    ensures
        content::fence_end(b, i) == j,
    decreases j - i,
{
    if i < j {
        assert(b[i] == 96 || b[i] == 126);
        lemma_fence_end(b, i + 1, j);
    }
}

/// The first line of a fenced block without what surrounds it.
proof fn lemma_fence_line(b: Seq<u8>, from: int, to: int, end: int, last: int)
    requires
        fence_in(b, from, to, end),
        to <= last <= end,
        blanks(b, last, end),
        last > to ==> 33 <= b[last - 1] <= 126,
    ensures
        lines::trimmed(content::first_line(b)) == b.subrange(from, last),
        ({
            let line = b.subrange(from, last);
            text::has_prefix(line, text::utf8("```"@)) || text::has_prefix(
                line,
                text::utf8("~~~"@),
            )
        }),
{
    assert forall|k: int| 0 <= k < end implies #[trigger] b[k] != 10 && b[k] != 13 by {
        if k < from {
            assert(b[k] == 32 || b[k] == 9);
        } else if k < to {
            assert(b[k] == 96 || b[k] == 126);
        } else {
            assert(b[k] != 10);
        }
    }
    lemma_first_line(b, end);
    let line = b.subrange(0, end);
    assert(b[from] == 96 || b[from] == 126);
    assert(b[to - 1] == 96 || b[to - 1] == 126);
    assert(line[from] == b[from]);
    assert(line[last - 1] == b[last - 1]);
    assert(lines::white_between(line, 0, from)) by {
        assert forall|k: int| 0 <= k < from implies lines::is_white(#[trigger] line[k]) by {
            assert(line[k] == b[k]);
        }
    }
    assert(lines::white_between(line, last, end)) by {
        assert forall|k: int| last <= k < end implies lines::is_white(#[trigger] line[k]) by {
            assert(line[k] == b[k]);
        }
    }
    lines::law_trimming_takes_the_ends(line, from, last);
    let t = b.subrange(from, last);
    assert(line.subrange(from, last) =~= t);
    reveal_strlit("```");
    reveal_strlit("~~~");
    assert(vstd::utf8::is_ascii_chars("```"@));
    assert(vstd::utf8::is_ascii_chars("~~~"@));
    vstd::utf8::is_ascii_chars_encode_utf8("```"@);
    vstd::utf8::is_ascii_chars_encode_utf8("~~~"@);
    if b[from] == 96 {
        assert(b[from + 1] == 96 && b[from + 2] == 96);
        assert(t.subrange(0, 3) =~= text::utf8("```"@));
    } else {
        assert(b[from + 1] == 126 && b[from + 2] == 126);
        assert(t.subrange(0, 3) =~= text::utf8("~~~"@));
    }
}

/// A fenced code block of markdown with nothing but blanks behind its fence is
/// reported, as severely as the rule says.
pub proof fn law_code_without_language_is_reported(
    tree: Tree,
    scene: SceneView,
    exceptions: Exceptions,
    metadata: Seq<DiagView>,
    i: int,
    from: int,
    to: int,
    end: int,
    severity: Severity,
)
    requires
        0 <= i < tree.nodes@.len(),
        tree.nodes@[i].kind is CodeBlock,
        tree.nodes@[i].syntax == Syntax::Markdown,
        fence_in(tree.text_of(tree.nodes@[i]), from, to, end),
        blanks(tree.text_of(tree.nodes@[i]), to, end),
        match scene.config.policy.code_block_language {
            CodeBlockLanguagePolicy::Disabled => false,
            CodeBlockLanguagePolicy::Hint => severity == Severity::Hint,
            CodeBlockLanguagePolicy::Warn => severity == Severity::Warning,
            CodeBlockLanguagePolicy::Deny => severity == Severity::Error,
        },
    ensures
        is_reported(
            tree,
            scene,
            exceptions,
            metadata,
            finding_at(
                tree,
                scene,
                tree.nodes@[i],
                severity,
                text::utf8(
                    "code block without a language tag — add one (use `text` for non-code output)"@,
                ),
            ),
        ),
{
    reveal(content::bare_fence);
    let node = tree.nodes@[i];
    let b = tree.text_of(node);
    lemma_fence_line(b, from, to, end, to);
    let line = b.subrange(from, to);
    assert forall|k: int| 0 <= k < line.len() implies #[trigger] line[k] == 96 || line[k] == 126 by {
        assert(line[k] == b[from + k]);
    }
    lemma_fence_end(line, 0, line.len() as int);
    assert(lines::white_between(Seq::<u8>::empty(), 0, 0));
    lines::law_white_space_is_trimmed_away(Seq::<u8>::empty());
    assert(text::piece(line, line.len() as int, line.len() as int) =~= Seq::<u8>::empty());
    assert(content::bare_fence(b));
    let d = finding_at(
        tree,
        scene,
        node,
        severity,
        text::utf8(
            "code block without a language tag — add one (use `text` for non-code output)"@,
        ),
    );
    assert(content::code_report(tree, scene.file, severity, node)[0] == d);
    lemma_codes(tree, scene.file, severity, tree.nodes@, i, d);
    lemma_late(tree, scene, exceptions, metadata, d);
}

/// A fenced code block with a word behind its fence passes.
pub proof fn law_code_with_language_passes(
    tree: Tree,
    file: Seq<u8>,
    severity: Severity,
    node: Node,
    from: int,
    to: int,
    end: int,
    word: int,
    last: int,
)
    requires
        fence_in(tree.text_of(node), from, to, end),
        to <= word < last <= end,
        blanks(tree.text_of(node), to, word),
        33 <= tree.text_of(node)[word] <= 126,
        tree.text_of(node)[word] != 96,
        tree.text_of(node)[word] != 126,
        33 <= tree.text_of(node)[last - 1] <= 126,
        blanks(tree.text_of(node), last, end),
    ensures
        content::code_report(tree, file, severity, node).len() == 0,
{
    reveal(content::bare_fence);
    let b = tree.text_of(node);
    lemma_fence_line(b, from, to, end, last);
    let line = b.subrange(from, last);
    assert forall|k: int| 0 <= k < to - from implies #[trigger] line[k] == 96 || line[k] == 126 by {
        assert(line[k] == b[from + k]);
    }
    assert(line[to - from] == b[to]);
    assert(b[to] != 96 && b[to] != 126) by {
        if to < word {
            assert(b[to] == 32 || b[to] == 9);
        }
    }
    lemma_fence_end(line, 0, to - from);
    let rest = line.subrange(to - from, line.len() as int);
    assert(text::piece(line, to - from, line.len() as int) == rest) by {
        let x = b[to];
        assert(x < 128) by {
            if to < word {
                assert(b[to] == 32 || b[to] == 9);
            }
        }
        assert(!vstd::utf8::is_continuation_byte(x));
    }
    assert(lines::white_between(rest, 0, word - to)) by {
        assert forall|k: int| 0 <= k < word - to implies lines::is_white(#[trigger] rest[k]) by {
            assert(rest[k] == b[to + k]);
        }
    }
    assert(lines::white_between(rest, rest.len() as int, rest.len() as int));
    assert(rest[word - to] == b[word]);
    assert(rest[rest.len() - 1] == b[last - 1]);
    lines::law_trimming_takes_the_ends(rest, word - to, rest.len() as int);
}

// Images.

proof fn lemma_images(tree: Tree, file: Seq<u8>, nodes: Seq<Node>, i: int, d: DiagView)
    requires
        0 <= i < nodes.len(),
        content::image_report(tree, file, nodes[i]).contains(d),
    ensures
        content::image_reports(tree, file, nodes).contains(d),
    decreases nodes.len(),
{
    if i < nodes.len() - 1 {
        assert(nodes.drop_last()[i] == nodes[i]);
        lemma_images(tree, file, nodes.drop_last(), i, d);
    }
    diagnostic::lemma_either(
        content::image_reports(tree, file, nodes.drop_last()),
        content::image_report(tree, file, nodes.last()),
        d,
    );
}

proof fn lemma_marks()
    ensures
        text::utf8("!["@) == seq![33u8, 91u8],
        text::utf8("]("@) == seq![93u8, 40u8],
{
    reveal_strlit("![");
    reveal_strlit("](");
    assert(vstd::utf8::is_ascii_chars("!["@));
    assert(vstd::utf8::is_ascii_chars("]("@));
    vstd::utf8::is_ascii_chars_encode_utf8("!["@);
    vstd::utf8::is_ascii_chars_encode_utf8("]("@);
    assert(text::utf8("!["@) =~= seq![33u8, 91u8]);
    assert(text::utf8("]("@) =~= seq![93u8, 40u8]);
}

proof fn lemma_first_close(b: Seq<u8>, i: int, close: int)
    requires
        0 <= i <= close,
        close + 2 <= b.len(),
        b[close] == 93,
        b[close + 1] == 40,
        forall|k: int| i <= k < close ==> #[trigger] b[k] != 93 || b[k + 1] != 40,
    ensures
        text::first_match(b, i, seq![93u8, 40u8]) == Some(close),
    decreases close - i,
{
    let p = seq![93u8, 40u8];
    if i == close {
        assert(b.subrange(i, i + 2) =~= p);
    } else {
        assert(b[i] != 93 || b[i + 1] != 40);
        assert(!text::matches_at(b, i, p)) by {
            if b.subrange(i, i + 2) == p {
                assert(b.subrange(i, i + 2)[0] == b[i]);
                assert(b.subrange(i, i + 2)[1] == b[i + 1]);
            }
        }
        lemma_first_close(b, i + 1, close);
    }
}

/// An image, a video or a sound of markdown with nothing but white space between
/// the brackets is reported where the rule is on.
pub proof fn law_images_without_words_are_reported(
    tree: Tree,
    scene: SceneView,
    exceptions: Exceptions,
    metadata: Seq<DiagView>,
    i: int,
    close: int,
)
    requires
        0 <= i < tree.nodes@.len(),
        tree.nodes@[i].kind is Image || tree.nodes@[i].kind is Video || tree.nodes@[i].kind is Audio,
        tree.nodes@[i].syntax == Syntax::Markdown,
        ({
            let b = tree.text_of(tree.nodes@[i]);
            &&& 2 <= close
            &&& close + 2 <= b.len()
            &&& b[0] == 33 && b[1] == 91
            &&& lines::white_between(b, 2, close)
            &&& b[close] == 93 && b[close + 1] == 40
        }),
        scene.config.policy.image_empty_alt,
    ensures
        is_reported(
            tree,
            scene,
            exceptions,
            metadata,
            finding_at(
                tree,
                scene,
                tree.nodes@[i],
                Severity::Warning,
                text::utf8("image with empty alt text"@),
            ),
        ),
{
    reveal(content::blank_image);
    let node = tree.nodes@[i];
    let b = tree.text_of(node);
    lemma_marks();
    assert(b.subrange(0, 2) =~= seq![33u8, 91u8]);
    assert forall|k: int| 0 <= k < close implies #[trigger] b[k] != 93 || b[k + 1] != 40 by {
        if k >= 2 {
            assert(lines::is_white(b[k]));
        }
    }
    lemma_first_close(b, 0, close);
    let inner = text::piece(b, 2, close);
    assert(lines::white_between(inner, 0, inner.len() as int)) by {
        assert forall|k: int| 0 <= k < inner.len() implies lines::is_white(#[trigger] inner[k]) by {
            assert(inner[k] == b[2 + k]);
        }
    }
    lines::law_white_space_is_trimmed_away(inner);
    let d = finding_at(
        tree,
        scene,
        node,
        Severity::Warning,
        text::utf8("image with empty alt text"@),
    );
    assert(content::image_report(tree, scene.file, node)[0] == d);
    lemma_images(tree, scene.file, tree.nodes@, i, d);
    lemma_late(tree, scene, exceptions, metadata, d);
}

/// An image with a visible character at both ends of what stands between its
/// brackets passes.
pub proof fn law_images_with_words_pass(tree: Tree, file: Seq<u8>, node: Node, close: int)
    requires
        ({
            let b = tree.text_of(node);
            &&& 2 < close
            &&& close + 2 <= b.len()
            &&& b[0] == 33 && b[1] == 91
            &&& 33 <= b[2] <= 126
            &&& 33 <= b[close - 1] <= 126
            &&& forall|k: int| 2 <= k < close ==> #[trigger] b[k] != 93
            &&& b[close] == 93 && b[close + 1] == 40
        }),
    ensures
        content::image_report(tree, file, node).len() == 0,
{
    reveal(content::blank_image);
    let b = tree.text_of(node);
    lemma_marks();
    assert forall|k: int| 0 <= k < close implies #[trigger] b[k] != 93 || b[k + 1] != 40 by {
        if k >= 2 {
            assert(b[k] != 93);
        }
    }
    lemma_first_close(b, 0, close);
    let inner = b.subrange(2, close);
    assert(text::piece(b, 2, close) == inner) by {
        let x = b[2];
        let y = b[close];
        assert(!vstd::utf8::is_continuation_byte(x));
        assert(!vstd::utf8::is_continuation_byte(y));
    }
    assert(lines::white_between(inner, 0, 0));
    assert(lines::white_between(inner, inner.len() as int, inner.len() as int));
    assert(inner[0] == b[2]);
    assert(inner[inner.len() - 1] == b[close - 1]);
    lines::law_trimming_takes_the_ends(inner, 0, inner.len() as int);
}

// Line ends.

proof fn lemma_trailing(
    tree: Tree,
    file: Seq<u8>,
    list: Seq<(int, int)>,
    n: int,
    k: int,
    d: DiagView,
)
    requires
        0 <= k < n,
        content::trailing_report(tree, file, list, k).contains(d),
    ensures
        content::trailing_reports(tree, file, list, n).contains(d),
    decreases n,
{
    if k < n - 1 {
        lemma_trailing(tree, file, list, n - 1, k, d);
    }
    diagnostic::lemma_either(
        content::trailing_reports(tree, file, list, n - 1),
        content::trailing_report(tree, file, list, n - 1),
        d,
    );
}

/// Whether a line from `start` up to `end` has `n` spaces at its end, and no more.
pub open spec fn spaces_at_end(b: Seq<u8>, start: int, end: int, n: int) -> bool {
    &&& 0 <= n
    &&& 0 <= start <= end - n
    &&& end <= b.len()
    &&& start == 0 || b[start - 1] == 10
    &&& forall|k: int| start <= k < end ==> #[trigger] b[k] != 10
    &&& forall|k: int| end - n <= k < end ==> #[trigger] b[k] == 32
    &&& start < end - n ==> b[end - n - 1] != 32
    &&& end == b.len() || b[end] == 10 || (b[end] == 13 && end + 1 < b.len() && b[end + 1] == 10)
}

/// A line with one space at its end, or with more than two, is reported with their
/// number and their place, unless it starts inside a code block, an HTML block or
/// a formula.
pub proof fn law_trailing_spaces_are_reported(
    tree: Tree,
    scene: SceneView,
    exceptions: Exceptions,
    metadata: Seq<DiagView>,
    start: int,
    end: int,
    n: int,
)
    requires
        tree.wf(),
        spaces_at_end(tree.text(), start, end, n),
        n == 1 || n > 2,
        forall|k: int|
            0 <= k < tree.nodes@.len() && ((#[trigger] tree.nodes@[k]).kind is CodeBlock
                || tree.nodes@[k].kind is HtmlBlock || tree.nodes@[k].kind is Math) ==> !(
            tree.nodes@[k].span.start <= start < tree.nodes@[k].span.end),
    ensures
        is_reported(
            tree,
            scene,
            exceptions,
            metadata,
            DiagView {
                file: scene.file,
                line: lines::line_of(tree.text(), start),
                severity: Severity::Warning,
                message: text::utf8("invalid trailing whitespace ("@) + text::decimal(n as nat)
                    + text::utf8(" spaces): use 2 for hard break or 0"@),
                span: Some(Span { start: (end - n) as usize, end: end as usize }),
            },
        ),
{
    let b = tree.text();
    let next = if end < b.len() && b[end] == 13 {
        end + 1
    } else {
        end
    };
    assert(b[end - 1] == 32);
    assert forall|k: int| start <= k < next implies #[trigger] b[k] != 10 by {
        if k < end {
            assert(b[k] != 10);
        }
    }
    lines::law_every_line_is_listed(b, start, end, next);
    let list = lines::lines_from(b, 0);
    let k = lines::line_of(b, start) - 1;
    let line = b.subrange(start, end);
    assert forall|x: int| end - n - start <= x < line.len() implies #[trigger] line[x] == 32 by {
        assert(line[x] == b[start + x]);
    }
    if start < end - n {
        assert(line[end - n - start - 1] == b[end - n - 1]);
    }
    lemma_run_start(line, line.len() as int, end - n - start, 32);
    assert(!content::verbatim_at(tree.nodes@, start)) by {
        if content::verbatim_at(tree.nodes@, start) {
            let x = choose|x: int|
                0 <= x < tree.nodes@.len() && content::verbatim(#[trigger] tree.nodes@[x])
                    && tree.nodes@[x].span.start <= start < tree.nodes@[x].span.end;
            assert(tree.nodes@[x].kind is CodeBlock || tree.nodes@[x].kind is HtmlBlock
                || tree.nodes@[x].kind is Math);
        }
    }
    let d = DiagView {
        file: scene.file,
        line: lines::line_of(b, start),
        severity: Severity::Warning,
        message: text::utf8("invalid trailing whitespace ("@) + text::decimal(n as nat)
            + text::utf8(" spaces): use 2 for hard break or 0"@),
        span: Some(Span { start: (end - n) as usize, end: end as usize }),
    };
    assert(content::trailing_report(tree, scene.file, list, k)[0] == d);
    lemma_trailing(tree, scene.file, list, list.len() as int, k, d);
    lemma_late(tree, scene, exceptions, metadata, d);
}

/// A line without a space at its end, or with two, passes.
pub proof fn law_hard_breaks_pass(tree: Tree, file: Seq<u8>, start: int, end: int, n: int)
    requires
        spaces_at_end(tree.text(), start, end, n),
        start < end,
        n == 0 ==> tree.text()[end - 1] != 13,
        n == 0 || n == 2,
    ensures
        ({
            let b = tree.text();
            let list = lines::lines_from(b, 0);
            content::trailing_report(tree, file, list, lines::line_of(b, start) - 1).len() == 0
        }),
{
    let b = tree.text();
    let next = if end < b.len() && b[end] == 13 {
        end + 1
    } else {
        end
    };
    if n > 0 {
        assert(b[end - 1] == 32);
    }
    assert forall|k: int| start <= k < next implies #[trigger] b[k] != 10 by {
        if k < end {
            assert(b[k] != 10);
        }
    }
    lines::law_every_line_is_listed(b, start, end, next);
    let line = b.subrange(start, end);
    assert forall|x: int| end - n - start <= x < line.len() implies #[trigger] line[x] == 32 by {
        assert(line[x] == b[start + x]);
    }
    if start < end - n {
        assert(line[end - n - start - 1] == b[end - n - 1]);
    }
    lemma_run_start(line, line.len() as int, end - n - start, 32);
}

} // verus!

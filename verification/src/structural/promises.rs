//! What the structural checks promise.
use vstd::prelude::*;
use crate::block;
use crate::block::{BarePath, Node, Tree};
use crate::config::{BarePathPolicy, StaleReferencePolicy};
use crate::diagnostic;
use crate::diagnostic::{DiagView, Severity};
use crate::fm::{ExceptionLint, Exceptions};
use crate::lines;
use crate::span::Span;
use crate::structural;
use crate::structural::content;
use crate::structural::html;
use crate::structural::ledger;
use crate::structural::ledger::{BucketRules, Emission, Flow, Rules};
use crate::structural::references;
use crate::structural::references::SceneView;
use crate::structural::scanners;
use crate::structural::scanners::LineView;
use crate::text;

verus! {

// Exceptions.

/// The glossary goes first: a finding about an artifact is filtered, whatever else
/// is declared, and no exception is used up by it.
pub proof fn law_the_glossary_goes_first(
    rules: Rules,
    flow: Flow,
    lint: ExceptionLint,
    reference: Seq<u8>,
    diag: DiagView,
)
    requires
        rules.artifacts.contains_key(reference),
    ensures
        ledger::routed(rules, flow, lint, reference, diag) == (Flow {
            artifacts: flow.artifacts.push((reference, diag.severity)),
            ..flow
        }),
{
}

/// An exception goes before a count: what an exception claims never counts.
pub proof fn law_exceptions_go_before_counts(
    rules: Rules,
    flow: Flow,
    lint: ExceptionLint,
    reference: Seq<u8>,
    diag: DiagView,
)
    requires
        rules.of(lint).active,
        ledger::excepted(rules.of(lint).entries, reference),
    ensures
        ({
            let after = ledger::routed(rules, flow, lint, reference, diag);
            &&& after.of(lint).residual == flow.of(lint).residual
            &&& after.out == flow.out
        }),
{
}

/// An exception claims findings about its own reference and no other, and only
/// those of its lint.
pub proof fn law_exceptions_claim_one_reference(
    rules: Rules,
    flow: Flow,
    lint: ExceptionLint,
    reference: Seq<u8>,
    diag: DiagView,
)
    requires
        !ledger::excepted(rules.of(lint).entries, reference),
    ensures
        ({
            let after = ledger::routed(rules, flow, lint, reference, diag);
            &&& after.literal == flow.literal
            &&& after.stale.matched == flow.stale.matched
            &&& after.bare.matched == flow.bare.matched
        }),
{
}

/// What is declared for a lint that is off does nothing: findings come out unless
/// the glossary filters them, and nothing is reported of what is declared.
pub proof fn law_lints_that_are_off_claim_nothing(
    rules: Rules,
    flow: Flow,
    lint: ExceptionLint,
    reference: Seq<u8>,
    diag: DiagView,
    file: Seq<u8>,
)
    requires
        !rules.of(lint).active,
        !rules.artifacts.contains_key(reference),
    ensures
        ledger::routed(rules, flow, lint, reference, diag) == (Flow {
            out: flow.out.push(diag),
            ..flow
        }),
        ledger::count_settled(rules.of(lint), lint, file, flow) == flow,
        ledger::bucket_reports(rules.of(lint), flow.of(lint), lint, file) == Seq::<
            DiagView,
        >::empty(),
{
}

/// The number of findings that have come out, wait or were suppressed.
pub open spec fn accounted(flow: Flow) -> nat {
    flow.out.len() + flow.stale.residual.len() + flow.bare.residual.len()
        + flow.stale.counted.len() + flow.bare.counted.len() + flow.literal.len()
        + flow.artifacts.len()
}

/// Whether findings wait only where an active count-key decides on them.
spec fn waits_for_keys(rules: Rules, flow: Flow) -> bool {
    &&& flow.stale.residual.len() > 0 ==> rules.stale.active && rules.stale.count is Some
    &&& flow.bare.residual.len() > 0 ==> rules.bare.active && rules.bare.count is Some
    &&& flow.stale.counted.len() == 0
    &&& flow.bare.counted.len() == 0
}

proof fn lemma_emitted_accounted(rules: Rules, flow: Flow, list: Seq<Emission>)
    requires
        waits_for_keys(rules, flow),
    ensures
        accounted(ledger::emitted_all(rules, flow, list)) == accounted(flow) + list.len(),
        waits_for_keys(rules, ledger::emitted_all(rules, flow, list)),
    decreases list.len(),
{
    if list.len() > 0 {
        lemma_emitted_accounted(rules, flow, list.drop_last());
    }
}

/// No finding is lost: each one comes out, or stands in the ledger as filtered,
/// excepted or counted. The count-keys add no more than a warning each, and leave
/// nothing undecided.
pub proof fn law_no_finding_is_lost(
    rules: Rules,
    exceptions: Exceptions,
    early: Seq<DiagView>,
    list: Seq<Emission>,
    late: Seq<DiagView>,
    file: Seq<u8>,
)
    ensures
        ({
            let met = ledger::emitted_all(rules, ledger::start(exceptions, early), list);
            let end = ledger::counts_settled(rules, file, Flow { out: met.out + late, ..met });
            &&& accounted(end) - 2 <= early.len() + list.len() + late.len() <= accounted(end)
            &&& end.stale.residual.len() == 0
            &&& end.bare.residual.len() == 0
        }),
{
    let begin = ledger::start(exceptions, early);
    lemma_emitted_accounted(rules, begin, list);
}

/// A count-key with a reason and a number suppresses its findings if there are
/// exactly as many, and then says nothing; with one more or one less all of them
/// come out, with one warning at the key.
pub proof fn law_counts_are_exact(
    b: BucketRules,
    lint: ExceptionLint,
    file: Seq<u8>,
    flow: Flow,
)
    requires
        b.active,
        b.count is Some,
        lines::trimmed(text::utf8(b.count->0.reason@)).len() > 0,
        b.count->0.expected >= 1,
    ensures
        ({
            let st = flow.of(lint);
            let end = ledger::count_settled(b, lint, file, flow);
            if st.residual.len() == b.count->0.expected {
                end.out == flow.out && end.of(lint).counted == st.counted + ledger::severities(
                    st.residual,
                )
            } else {
                end.of(lint).counted == st.counted && end.out == flow.out + st.residual.push(
                    ledger::at_key(
                        file,
                        b.count->0.line,
                        b.count->0.key_span,
                        ledger::count_drifted(b.count->0, lint, st.residual.len()),
                    ),
                )
            }
        }),
{
}

// References.

/// A reference to a file that exists is never called stale: at most it is asked
/// to be a link.
pub proof fn law_live_references_are_not_stale(
    scene: SceneView,
    line: nat,
    span: Option<Span>,
    reference: Seq<u8>,
    target: Seq<u8>,
    base: Severity,
    nudge: Seq<u8>,
    i: int,
)
    requires
        block::namespace_of(references::path_part(reference)) is None,
        references::resolves(scene, target),
        0 <= i < references::mention(scene, line, span, reference, target, base, nudge).len(),
    ensures
        references::mention(scene, line, span, reference, target, base, nudge)[i]
            matches Emission::Routed { lint, .. } && lint == ExceptionLint::BarePaths,
{
}

/// An alias that nobody defined exempts what it stands in front of.
pub proof fn law_unknown_aliases_are_exempt(
    scene: SceneView,
    line: nat,
    span: Option<Span>,
    reference: Seq<u8>,
    target: Seq<u8>,
    base: Severity,
    nudge: Seq<u8>,
)
    requires
        block::namespace_of(references::path_part(reference)) matches Some(found)
            && !scene.config.external@.contains_key(found.0),
    ensures
        references::mention(scene, line, span, reference, target, base, nudge) == Seq::<
            Emission,
        >::empty(),
{
}

/// Whether an emission is in order: its lint is on, and its message starts with
/// words of its lint.
pub open spec fn in_order(scene: SceneView, e: Emission) -> bool {
    match e {
        Emission::Plain(diag) => {
            &&& scene.config.policy.bare_paths != BarePathPolicy::Disabled
            &&& ledger::lint_of(diag.message) == Some(ExceptionLint::BarePaths)
        },
        Emission::Routed { lint, reference, diag } => {
            &&& ledger::lint_of(diag.message) == Some(lint)
            &&& match lint {
                ExceptionLint::StaleReferences => scene.config.policy.stale_references
                    != StaleReferencePolicy::Disabled,
                ExceptionLint::BarePaths => scene.config.policy.bare_paths
                    != BarePathPolicy::Disabled,
            }
        },
    }
}

spec fn all_in_order(scene: SceneView, list: Seq<Emission>) -> bool {
    forall|i: int| 0 <= i < list.len() ==> in_order(scene, #[trigger] list[i])
}

proof fn lemma_in_order_concat(scene: SceneView, a: Seq<Emission>, b: Seq<Emission>)
    requires
        all_in_order(scene, a),
        all_in_order(scene, b),
    ensures
        all_in_order(scene, a + b),
{
    let list = a + b;
    assert forall|i: int| 0 <= i < list.len() implies in_order(scene, #[trigger] list[i]) by {
        if i < a.len() {
            assert(list[i] == a[i]);
        } else {
            assert(list[i] == b[i - a.len()]);
        }
    }
}

/// A text that starts with one starts with what that starts with.
proof fn lemma_starts(head: Seq<char>, more: Seq<char>, tail: Seq<u8>)
    ensures
        text::has_prefix(text::utf8(head + more) + tail, text::utf8(head)),
{
    text::lemma_utf8_concat(head, more);
    let m = text::utf8(head + more) + tail;
    assert(m.subrange(0, text::utf8(head).len() as int) =~= text::utf8(head));
}

proof fn lemma_stale_prefix(tail: Seq<u8>)
    ensures
        ledger::lint_of(text::utf8("stale reference: `"@) + tail) == Some(
            ExceptionLint::StaleReferences,
        ),
{
    reveal_strlit("stale reference: `");
    reveal_strlit("stale reference:");
    reveal_strlit(" `");
    assert("stale reference: `"@ =~= "stale reference:"@ + " `"@);
    lemma_starts("stale reference:"@, " `"@, tail);
}

/// A message that starts with another letter is not about a stale reference.
proof fn lemma_not_stale(head: Seq<char>, tail: Seq<u8>)
    requires
        vstd::utf8::is_ascii_chars(head),
        head.len() > 0,
        head[0] != 's',
    ensures
        !text::has_prefix(text::utf8(head) + tail, text::utf8("stale reference:"@)),
{
    let p = "stale reference:"@;
    reveal_strlit("stale reference:");
    assert(vstd::utf8::is_ascii_chars(p));
    vstd::utf8::is_ascii_chars_encode_utf8(p);
    vstd::utf8::is_ascii_chars_encode_utf8(head);
    let m = text::utf8(head) + tail;
    if text::has_prefix(m, text::utf8(p)) {
        assert(m.subrange(0, text::utf8(p).len() as int)[0] == m[0]);
        assert(text::utf8(p)[0] == p[0] as u8);
        assert(text::utf8(head)[0] == head[0] as u8);
        assert(head[0] as u32 as u8 == 's' as u32 as u8);
    }
}

proof fn lemma_bare_prefixes(tail: Seq<u8>)
    ensures
        ledger::lint_of(text::utf8("bare path `"@) + tail) == Some(ExceptionLint::BarePaths),
        ledger::lint_of(text::utf8("bare URL `"@) + tail) == Some(ExceptionLint::BarePaths),
        ledger::lint_of(text::utf8("quoted path `"@) + tail) == Some(ExceptionLint::BarePaths),
        ledger::lint_of(text::utf8("backticked path `"@) + tail) == Some(
            ExceptionLint::BarePaths,
        ),
{
    reveal_strlit("`");
    reveal_strlit("bare path `");
    reveal_strlit("bare path ");
    reveal_strlit("bare URL `");
    reveal_strlit("bare URL ");
    reveal_strlit("quoted path `");
    reveal_strlit("quoted path ");
    reveal_strlit("backticked path `");
    reveal_strlit("backticked path ");
    assert("bare path `"@ =~= "bare path "@ + "`"@);
    assert("bare URL `"@ =~= "bare URL "@ + "`"@);
    assert("quoted path `"@ =~= "quoted path "@ + "`"@);
    assert("backticked path `"@ =~= "backticked path "@ + "`"@);
    lemma_starts("bare path "@, "`"@, tail);
    lemma_starts("bare URL "@, "`"@, tail);
    lemma_starts("quoted path "@, "`"@, tail);
    lemma_starts("backticked path "@, "`"@, tail);
    lemma_not_stale("bare path `"@, tail);
    lemma_not_stale("bare URL `"@, tail);
    lemma_not_stale("quoted path `"@, tail);
    lemma_not_stale("backticked path `"@, tail);
}

proof fn lemma_messages(scene: SceneView, a: Seq<u8>, b: Seq<u8>, c: Seq<u8>, quote: u8)
    ensures
        ledger::lint_of(references::stale_message(a)) == Some(ExceptionLint::StaleReferences),
        ledger::lint_of(references::steer_message(a, b, c)) == Some(
            ExceptionLint::StaleReferences,
        ),
        ledger::lint_of(references::external_stale_message(scene.config, a, b)) == Some(
            ExceptionLint::StaleReferences,
        ),
        ledger::lint_of(references::external_unverifiable_message(scene.config, a, b)) == Some(
            ExceptionLint::StaleReferences,
        ),
        ledger::lint_of(references::bare_message(a)) == Some(ExceptionLint::BarePaths),
        ledger::lint_of(scanners::url_message(a)) == Some(ExceptionLint::BarePaths),
        ledger::lint_of(scanners::quoted_message(quote, a)) == Some(ExceptionLint::BarePaths),
        ledger::lint_of(scanners::backticked_message(a)) == Some(ExceptionLint::BarePaths),
{
    lemma_tail(references::stale_message(a), text::utf8("stale reference: `"@));
    lemma_tail(references::steer_message(a, b, c), text::utf8("stale reference: `"@));
    lemma_tail(
        references::external_stale_message(scene.config, a, b),
        text::utf8("stale reference: `"@),
    );
    lemma_tail(
        references::external_unverifiable_message(scene.config, a, b),
        text::utf8("stale reference: `"@),
    );
    lemma_tail(references::bare_message(a), text::utf8("bare path `"@));
    lemma_tail(scanners::url_message(a), text::utf8("bare URL `"@));
    lemma_tail(scanners::quoted_message(quote, a), text::utf8("quoted path `"@));
    lemma_tail(scanners::backticked_message(a), text::utf8("backticked path `"@));
    lemma_stale_prefix(rest_of(references::stale_message(a), text::utf8("stale reference: `"@)));
    lemma_stale_prefix(
        rest_of(references::steer_message(a, b, c), text::utf8("stale reference: `"@)),
    );
    lemma_stale_prefix(
        rest_of(
            references::external_stale_message(scene.config, a, b),
            text::utf8("stale reference: `"@),
        ),
    );
    lemma_stale_prefix(
        rest_of(
            references::external_unverifiable_message(scene.config, a, b),
            text::utf8("stale reference: `"@),
        ),
    );
    lemma_bare_prefixes(rest_of(references::bare_message(a), text::utf8("bare path `"@)));
    lemma_bare_prefixes(rest_of(scanners::url_message(a), text::utf8("bare URL `"@)));
    lemma_bare_prefixes(
        rest_of(scanners::quoted_message(quote, a), text::utf8("quoted path `"@)),
    );
    lemma_bare_prefixes(
        rest_of(scanners::backticked_message(a), text::utf8("backticked path `"@)),
    );
}

spec fn rest_of(message: Seq<u8>, head: Seq<u8>) -> Seq<u8> {
    message.subrange(head.len() as int, message.len() as int)
}

proof fn lemma_tail(message: Seq<u8>, head: Seq<u8>)
    requires
        head.len() <= message.len(),
        message.subrange(0, head.len() as int) =~= head,
    ensures
        message == head + rest_of(message, head),
{
    assert(message =~= head + rest_of(message, head));
}

proof fn lemma_mention_in_order(
    scene: SceneView,
    line: nat,
    span: Option<Span>,
    reference: Seq<u8>,
    target: Seq<u8>,
    base: Severity,
    nudge: Seq<u8>,
)
    requires
        ledger::lint_of(nudge) == Some(ExceptionLint::BarePaths),
    ensures
        all_in_order(
            scene,
            references::mention(scene, line, span, reference, target, base, nudge),
        ),
{
    match block::namespace_of(references::path_part(reference)) {
        Some((alias, rest)) => {
            lemma_messages(scene, reference, alias, rest, 0);
        },
        None => {
            match references::steered(scene, reference) {
                Some((alias, citation)) => {
                    lemma_messages(scene, reference, alias, citation, 0);
                },
                None => {
                    lemma_messages(scene, reference, reference, reference, 0);
                },
            }
        },
    }
}

proof fn lemma_prose_in_order(scene: SceneView, list: Seq<BarePath>)
    ensures
        all_in_order(scene, references::prose_mentions(scene, list)),
    decreases list.len(),
{
    if list.len() > 0 {
        let b = list.last();
        let p = text::utf8(b.path@);
        lemma_prose_in_order(scene, list.drop_last());
        lemma_messages(scene, p, p, p, 0);
        lemma_mention_in_order(
            scene,
            b.line as nat,
            None,
            p,
            p,
            Severity::Warning,
            references::bare_message(p),
        );
        lemma_in_order_concat(
            scene,
            references::prose_mentions(scene, list.drop_last()),
            references::mention(
                scene,
                b.line as nat,
                None,
                p,
                p,
                Severity::Warning,
                references::bare_message(p),
            ),
        );
    }
}

proof fn lemma_urls_in_order(
    scene: SceneView,
    line: LineView,
    excluded: Seq<Span>,
    scheme: Seq<u8>,
    from: int,
)
    requires
        scene.config.policy.bare_paths != BarePathPolicy::Disabled,
    ensures
        all_in_order(scene, scanners::url_mentions(scene, line, excluded, scheme, from)),
    decreases line.bytes.len() - from,
{
    match text::first_match(line.bytes, from, scheme) {
        None => {},
        Some(at) => {
            if scheme.len() > 0 {
                text::lemma_first_match(line.bytes, from, scheme);
                let next = at + scheme.len();
                lemma_urls_in_order(scene, line, excluded, scheme, next);
                let url = text::piece(
                    line.bytes,
                    at,
                    scanners::url_end(line.bytes, at, scanners::url_stop(line.bytes, at)),
                );
                lemma_messages(scene, url, url, url, 0);
                lemma_in_order_concat(
                    scene,
                    scanners::url_mention(scene, line, excluded, scheme, at),
                    scanners::url_mentions(scene, line, excluded, scheme, next),
                );
            }
        },
    }
}

proof fn lemma_quoted_in_order(scene: SceneView, line: LineView, excluded: Seq<Span>, i: int)
    ensures
        all_in_order(scene, scanners::quoted_mentions(scene, line, excluded, i)),
    decreases line.bytes.len() - i,
{
    let b = line.bytes;
    if 0 <= i < b.len() {
        if (b[i] == 34 || b[i] == 39) && scanners::delimits(b, i, b[i], true)
            && scanners::closing_quote(b, i + 1, b[i]) is Some {
            let end = scanners::closing_quote(b, i + 1, b[i])->0;
            scanners::lemma_closing_quote(b, i + 1, b[i]);
            lemma_quoted_in_order(scene, line, excluded, end + 1);
            let inner = text::piece(b, i + 1, end);
            lemma_messages(scene, inner, inner, inner, b[i]);
            let span = Span {
                start: (line.start + i) as usize,
                end: (line.start + end + 1) as usize,
            };
            lemma_mention_in_order(
                scene,
                line.number,
                Some(span),
                inner,
                references::path_part(inner),
                Severity::Hint,
                scanners::quoted_message(b[i], inner),
            );
            lemma_in_order_concat(
                scene,
                scanners::quoted_mention(scene, line, excluded, i, end),
                scanners::quoted_mentions(scene, line, excluded, end + 1),
            );
        } else {
            lemma_quoted_in_order(scene, line, excluded, i + 1);
        }
    }
}

proof fn lemma_rows_in_order(
    scene: SceneView,
    source: Seq<u8>,
    part: Seq<u8>,
    base: int,
    rows: Seq<(int, int)>,
    excluded: Seq<Span>,
)
    ensures
        all_in_order(scene, scanners::rows_mentions(scene, source, part, base, rows, excluded)),
    decreases rows.len(),
{
    if rows.len() > 0 {
        let row = rows.last();
        lemma_rows_in_order(scene, source, part, base, rows.drop_last(), excluded);
        let line = LineView {
            bytes: text::piece(part, row.0, row.1),
            start: base + row.0,
            number: lines::line_of(source, base + row.0),
        };
        lemma_quoted_in_order(scene, line, excluded, 0);
        if scene.config.policy.bare_paths != BarePathPolicy::Disabled {
            let a = text::utf8("https://"@);
            let b = text::utf8("http://"@);
            lemma_urls_in_order(scene, line, excluded, a, 0);
            lemma_urls_in_order(scene, line, excluded, b, 0);
            lemma_in_order_concat(
                scene,
                scanners::url_mentions(scene, line, excluded, a, 0),
                scanners::url_mentions(scene, line, excluded, b, 0),
            );
            lemma_in_order_concat(
                scene,
                scanners::line_urls(scene, line, excluded),
                scanners::quoted_mentions(scene, line, excluded, 0),
            );
        }
        lemma_in_order_concat(
            scene,
            scanners::rows_mentions(scene, source, part, base, rows.drop_last(), excluded),
            scanners::row_mentions(scene, source, part, base, row, excluded),
        );
    }
}

proof fn lemma_code_in_order(scene: SceneView, tree: Tree, children: Seq<usize>)
    ensures
        all_in_order(scene, scanners::code_mentions(scene, tree, children)),
    decreases children.len(),
{
    if children.len() > 0 {
        let child = tree.nodes@[children.last() as int];
        let inner = references::without_ticks(tree.text_of(child));
        lemma_code_in_order(scene, tree, children.drop_last());
        lemma_messages(scene, inner, inner, inner, 0);
        lemma_mention_in_order(
            scene,
            lines::line_of(tree.text(), child.span.start as int),
            Some(child.span),
            inner,
            references::path_part(inner),
            Severity::Hint,
            scanners::backticked_message(inner),
        );
        lemma_in_order_concat(
            scene,
            scanners::code_mentions(scene, tree, children.drop_last()),
            scanners::code_mention(scene, tree, child),
        );
    }
}

proof fn lemma_text_in_order(scene: SceneView, tree: Tree, nodes: Seq<Node>)
    ensures
        all_in_order(scene, scanners::text_mentions(scene, tree, nodes)),
    decreases nodes.len(),
{
    if nodes.len() > 0 {
        let node = nodes.last();
        lemma_text_in_order(scene, tree, nodes.drop_last());
        let rows = lines::rows_from(tree.text_of(node), 0);
        let spans = scanners::child_spans(tree, node.children@);
        lemma_rows_in_order(
            scene,
            tree.text(),
            tree.text_of(node),
            node.span.start as int,
            rows,
            spans,
        );
        lemma_code_in_order(scene, tree, node.children@);
        lemma_in_order_concat(
            scene,
            scanners::rows_mentions(
                scene,
                tree.text(),
                tree.text_of(node),
                node.span.start as int,
                rows,
                spans,
            ),
            scanners::code_mentions(scene, tree, node.children@),
        );
        lemma_in_order_concat(
            scene,
            scanners::text_mentions(scene, tree, nodes.drop_last()),
            scanners::node_mentions(scene, tree, node),
        );
    }
}

/// Everything that is said of references belongs to a lint that is on, and its
/// message can be told to be of that lint by the words it starts with.
pub proof fn law_mentions_are_classified(tree: Tree, scene: SceneView, i: int)
    requires
        0 <= i < structural::mentions_of(tree, scene).len(),
    ensures
        in_order(scene, structural::mentions_of(tree, scene)[i]),
{
    reveal(structural::mentions_of);
    let a = references::prose_mentions(scene, tree.bare_paths@);
    let b = scanners::text_mentions(scene, tree, tree.nodes@);
    lemma_prose_in_order(scene, tree.bare_paths@);
    lemma_text_in_order(scene, tree, tree.nodes@);
    lemma_in_order_concat(scene, a, b);
}

/// With both lints off, nothing is said of references.
pub proof fn law_lints_that_are_off_say_nothing(tree: Tree, scene: SceneView)
    requires
        scene.config.policy.stale_references == StaleReferencePolicy::Disabled,
        scene.config.policy.bare_paths == BarePathPolicy::Disabled,
    ensures
        structural::mentions_of(tree, scene).len() == 0,
{
    if structural::mentions_of(tree, scene).len() > 0 {
        law_mentions_are_classified(tree, scene, 0);
    }
}

// Frontmatter.

/// What is wrong with the frontmatter of a document is among its findings, as
/// something about that document; exceptions do not hold it back.
pub proof fn law_frontmatter_findings_are_reported(
    tree: Tree,
    scene: SceneView,
    exceptions: Exceptions,
    metadata: Seq<DiagView>,
    d: DiagView,
)
    requires
        diagnostic::about(metadata, scene.file).contains(d),
    ensures
        diagnostic::in_report_order(
            structural::flow_of(tree, scene, exceptions, metadata).out,
        ).contains(d),
{
    reveal(structural::late_reports);
    let file = scene.file;
    let config = scene.config;
    let rules = structural::rules_of(config, exceptions);
    let early = ledger::start(exceptions, structural::early_reports(tree, file, config));
    let mentioned = ledger::emitted_all(rules, early, structural::mentions_of(tree, scene));
    let late = structural::late_reports(tree, file, config, metadata);
    let all = Flow { out: mentioned.out + late, ..mentioned };
    let x = html::element_reports(tree, file, tree.nodes@) + html::opaque_reports(
        tree,
        file,
        tree.nodes@,
    );
    let m = diagnostic::about(metadata, file);
    let y = content::language_reports(tree, file, config.policy.code_block_language);
    let z = if config.policy.image_empty_alt {
        content::image_reports(tree, file, tree.nodes@)
    } else {
        Seq::empty()
    };
    let w = content::trailing_reports(
        tree,
        file,
        lines::lines_from(tree.text(), 0),
        lines::lines_from(tree.text(), 0).len() as int,
    );
    diagnostic::lemma_either(x, m, d);
    diagnostic::lemma_either(x + m, y, d);
    diagnostic::lemma_either(x + m + y, z, d);
    diagnostic::lemma_either(x + m + y + z, w, d);
    assert(late =~= x + m + y + z + w);
    diagnostic::lemma_either(mentioned.out, late, d);
    lemma_counts_keep(rules.stale, ExceptionLint::StaleReferences, file, all, d);
    let first = ledger::count_settled(rules.stale, ExceptionLint::StaleReferences, file, all);
    lemma_counts_keep(rules.bare, ExceptionLint::BarePaths, file, first, d);
    let settled = ledger::counts_settled(rules, file, all);
    let a = ledger::bucket_reports(
        rules.stale,
        settled.stale,
        ExceptionLint::StaleReferences,
        file,
    );
    let b = ledger::bucket_reports(rules.bare, settled.bare, ExceptionLint::BarePaths, file);
    diagnostic::lemma_either(settled.out, a, d);
    diagnostic::lemma_either(settled.out + a, b, d);
    diagnostic::lemma_report_order_contains(
        structural::flow_of(tree, scene, exceptions, metadata).out,
        d,
    );
}

proof fn lemma_counts_keep(
    b: BucketRules,
    lint: ExceptionLint,
    file: Seq<u8>,
    flow: Flow,
    d: DiagView,
)
    requires
        flow.out.contains(d),
    ensures
        ledger::count_settled(b, lint, file, flow).out.contains(d),
{
    let i = choose|i: int| 0 <= i < flow.out.len() && flow.out[i] == d;
    let end = ledger::count_settled(b, lint, file, flow);
    assert(end.out[i] == d);
}

} // verus!

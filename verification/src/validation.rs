//! Link graph validation: forward links, backlinks and connectivity.
use vstd::prelude::*;
use crate::backlinks;
use crate::config::{Config, FragmentAlgorithm, PredicatePolicy};
use crate::connectivity;
use crate::diagnostic;
use crate::diagnostic::DiagView;
use crate::fm::ExceptionLint;
use crate::path;
use crate::pathmap::PathMap;
use crate::sorted::SortedMap;
use crate::span::Span;
use crate::structural::ledger;
use crate::text;
use crate::workspace;
use crate::workspace::{
    BacklinkDiagnostic, FileData, FileView, Graph, Heading, HeadingId, Link, LinkKind, Unknown,
    WorkspaceView,
};

pub use crate::backlinks::{resolve_backlink_path, validate_backlinks};
pub use crate::connectivity::validate_connectivity;
pub use crate::diagnostic::{Diagnostic, Severity};

verus! {

/// A finding at a link.
pub open spec fn at_link(
    file: Seq<u8>,
    line: usize,
    severity: Severity,
    message: Seq<u8>,
    span: Span,
) -> DiagView {
    DiagView { file, line: line as nat, severity, message, span: Some(span) }
}

fn link_diagnostic(
    file: &str,
    line: usize,
    severity: Severity,
    message: String,
    span: Span,
) -> (d: Diagnostic)
    ensures
        d@ == at_link(path::named(file@), line, severity, text::utf8(message@), span),
{
    Diagnostic { file: text::owned(file), line, severity, message, span: Some(span) }
}

// Targets.

/// Whether a target exists: a markdown document in the workspace, any other
/// file on disk.
pub open spec fn target_exists(
    ws: Graph,
    on_disk: Map<Seq<u8>, ()>,
    target: Seq<u8>,
) -> bool {
    if path::names_markdown(target) {
        ws.files@.contains_key(path::normal_form(target))
    } else {
        on_disk.contains_key(path::child_of(ws.root, target))
    }
}

/// What is said of a link's target.
pub open spec fn target_report(
    ws: Graph,
    on_disk: Map<Seq<u8>, ()>,
    file: Seq<u8>,
    line: usize,
    span: Span,
    target: Seq<u8>,
) -> Seq<DiagView> {
    if target_exists(ws, on_disk, target) {
        Seq::empty()
    } else {
        seq![
            at_link(
                file,
                line,
                Severity::Error,
                text::utf8("link target does not exist: "@) + target,
                span,
            ),
        ]
    }
}

fn check_target_exists(
    ws: &WorkspaceView<'_>,
    on_disk: &PathMap<()>,
    file: &str,
    line: usize,
    span: Span,
    target: &str,
    out: &mut Vec<Diagnostic>,
)
    ensures
        diagnostic::views(final(out)@) == diagnostic::views(old(out)@) + target_report(
            ws@,
            on_disk@,
            path::named(file@),
            line,
            span,
            text::utf8(target@),
        ),
{
    let ghost before = diagnostic::views(out@);
    assert(before + Seq::<DiagView>::empty() =~= before);
    let exists = if path::is_markdown(target) {
        ws.files.contains_key(target)
    } else {
        on_disk.contains_key(path::child(ws.root.as_str(), target).as_str())
    };
    if !exists {
        let mut message = text::owned("link target does not exist: ");
        text::push(&mut message, target);
        let d = link_diagnostic(file, line, Severity::Error, message, span);
        proof {
            diagnostic::lemma_views_push(out@, d);
            assert(before.push(d@) =~= before + seq![d@]);
        }
        out.push(d);
    }
}

// Predicates.

/// Names with commas between them.
pub open spec fn comma_list(names: Seq<Seq<u8>>) -> Seq<u8>
    decreases names.len(),
{
    if names.len() == 0 {
        Seq::empty()
    } else if names.len() == 1 {
        names[0]
    } else {
        comma_list(names.drop_last()) + text::utf8(", "@) + names.last()
    }
}

fn push_keys(out: &mut String, map: &SortedMap<String>)
    ensures
        text::utf8(final(out)@) == text::utf8(old(out)@) + comma_list(map.keys()),
{
    let ghost start = text::utf8(out@);
    let ghost keys = map.keys();
    let n = map.len();
    let mut i: usize = 0;
    proof {
        assert(keys.take(0) =~= Seq::<Seq<u8>>::empty());
        assert(start + Seq::<u8>::empty() =~= start);
    }
    while i < n
        invariant
            i <= n,
            n == keys.len(),
            keys == map.keys(),
            text::utf8(out@) == start + comma_list(keys.take(i as int)),
        decreases n - i,
    {
        if i > 0 {
            text::push(out, ", ");
        }
        text::push(out, map.key_at(i));
        proof {
            let t = keys.take(i + 1);
            assert(t.drop_last() =~= keys.take(i as int));
            assert(t.last() == keys[i as int]);
            assert(text::utf8(out@) =~= start + comma_list(t));
        }
        i += 1;
    }
    assert(keys.take(i as int) =~= keys);
}

/// What is said of a link's predicate: that it is unknown in either direction,
/// or that it is missing, which is worse where the policy asks for one.
pub open spec fn predicate_report(
    config: Config,
    file: Seq<u8>,
    line: usize,
    span: Span,
    predicate: Seq<u8>,
    explicit: bool,
) -> Seq<DiagView> {
    if explicit {
        if config.opposite(predicate) is Some {
            Seq::empty()
        } else {
            seq![
                at_link(
                    file,
                    line,
                    Severity::Error,
                    text::utf8("unknown predicate '"@) + predicate + text::utf8(
                        "': choose from ["@,
                    ) + comma_list(config.predicates.keys()) + text::utf8("]"@),
                    span,
                ),
            ]
        }
    } else {
        match config.policy.predicates {
            PredicatePolicy::Optional => seq![
                at_link(
                    file,
                    line,
                    Severity::Info,
                    text::utf8(
                        "link has no explicit predicate (defaulting to 'references')"@,
                    ),
                    span,
                ),
            ],
            PredicatePolicy::Required => seq![
                at_link(
                    file,
                    line,
                    Severity::Error,
                    text::utf8("link missing predicate: choose from ["@) + comma_list(
                        config.predicates.keys(),
                    ) + text::utf8("]"@),
                    span,
                ),
            ],
        }
    }
}

fn check_predicate(
    config: &Config,
    file: &str,
    line: usize,
    span: Span,
    predicate: &str,
    explicit: bool,
    out: &mut Vec<Diagnostic>,
)
    ensures
        diagnostic::views(final(out)@) == diagnostic::views(old(out)@) + predicate_report(
            *config,
            path::named(file@),
            line,
            span,
            text::utf8(predicate@),
            explicit,
        ),
{
    let ghost before = diagnostic::views(out@);
    assert(before + Seq::<DiagView>::empty() =~= before);
    let d = if explicit {
        if config.is_known_predicate(predicate) {
            return;
        }
        let mut message = text::owned("unknown predicate '");
        text::push(&mut message, predicate);
        text::push(&mut message, "': choose from [");
        push_keys(&mut message, &config.predicates);
        text::push(&mut message, "]");
        link_diagnostic(file, line, Severity::Error, message, span)
    } else {
        match config.policy.predicates {
            PredicatePolicy::Optional => link_diagnostic(
                file,
                line,
                Severity::Info,
                text::owned("link has no explicit predicate (defaulting to 'references')"),
                span,
            ),
            PredicatePolicy::Required => {
                let mut message = text::owned("link missing predicate: choose from [");
                push_keys(&mut message, &config.predicates);
                text::push(&mut message, "]");
                link_diagnostic(file, line, Severity::Error, message, span)
            },
        }
    };
    proof {
        diagnostic::lemma_views_push(out@, d);
        assert(before.push(d@) =~= before + seq![d@]);
    }
    out.push(d);
}

// Fragments.

/// A byte in lower case.
pub open spec fn lower(c: u8) -> u8 {
    if 65 <= c <= 90 {
        (c + 32) as u8
    } else {
        c
    }
}

/// Whether a fragment means the top of the document: nothing, or `top` in any case.
pub open spec fn means_top(fragment: Seq<u8>) -> bool {
    fragment.len() == 0 || (fragment.len() == 3 && lower(fragment[0]) == 116 && lower(fragment[1])
        == 111 && lower(fragment[2]) == 112)
}

/// Whether a heading has an anchor, under the configured algorithm; under any
/// of them where none is.
pub open spec fn heading_has(
    heading: Heading,
    algorithm: Option<FragmentAlgorithm>,
    fragment: Seq<u8>,
) -> bool {
    match heading.id {
        HeadingId::Explicit(id) => text::utf8(id@) == fragment,
        HeadingId::Computed { github, gitlab, vscode } => match algorithm {
            Some(FragmentAlgorithm::Github) => text::utf8(github@) == fragment,
            Some(FragmentAlgorithm::Gitlab) => text::utf8(gitlab@) == fragment,
            Some(FragmentAlgorithm::Vscode) => text::utf8(vscode@) == fragment,
            None => text::utf8(github@) == fragment || text::utf8(gitlab@) == fragment
                || text::utf8(vscode@) == fragment,
        },
    }
}

/// Whether a document has an anchor: at a heading or in raw HTML.
pub open spec fn fragment_found(
    data: FileView,
    algorithm: Option<FragmentAlgorithm>,
    fragment: Seq<u8>,
) -> bool {
    ||| exists|k: int|
        0 <= k < data.headings@.len() && heading_has(
            #[trigger] data.headings@[k],
            algorithm,
            fragment,
        )
    ||| exists|k: int|
        0 <= k < data.anchors@.len() && text::utf8((#[trigger] data.anchors@[k])@) == fragment
}

/// What is said of a fragment into `target`; nothing where the target does not exist.
pub open spec fn fragment_report(
    ws: Graph,
    file: Seq<u8>,
    line: usize,
    span: Span,
    target: Seq<u8>,
    fragment: Seq<u8>,
) -> Seq<DiagView> {
    if !ws.files@.contains_key(path::normal_form(target)) || means_top(fragment) || fragment_found(
        ws.files@[path::normal_form(target)],
        ws.config.policy.fragments,
        fragment,
    ) {
        Seq::empty()
    } else {
        seq![
            at_link(
                file,
                line,
                Severity::Error,
                text::utf8("fragment `#"@) + fragment + text::utf8("` not found in `"@) + target
                    + text::utf8("`"@),
                span,
            ),
        ]
    }
}

fn is_heading_of(heading: &Heading, algorithm: Option<FragmentAlgorithm>, fragment: &str) -> (r:
    bool)
    ensures
        r == heading_has(*heading, algorithm, text::utf8(fragment@)),
{
    match &heading.id {
        HeadingId::Explicit(id) => text::same(id.as_str(), fragment),
        HeadingId::Computed { github, gitlab, vscode } => match algorithm {
            Some(FragmentAlgorithm::Github) => text::same(github.as_str(), fragment),
            Some(FragmentAlgorithm::Gitlab) => text::same(gitlab.as_str(), fragment),
            Some(FragmentAlgorithm::Vscode) => text::same(vscode.as_str(), fragment),
            None => text::same(github.as_str(), fragment) || text::same(gitlab.as_str(), fragment)
                || text::same(vscode.as_str(), fragment),
        },
    }
}

fn has_fragment(data: &FileData, algorithm: Option<FragmentAlgorithm>, fragment: &str) -> (r: bool)
    ensures
        r == fragment_found(data@, algorithm, text::utf8(fragment@)),
{
    let ghost f = text::utf8(fragment@);
    let mut k: usize = 0;
    while k < data.headings.len()
        invariant
            k <= data.headings@.len(),
            f == text::utf8(fragment@),
            forall|j: int| 0 <= j < k ==> !heading_has(#[trigger] data.headings@[j], algorithm, f),
        decreases data.headings@.len() - k,
    {
        if is_heading_of(&data.headings[k], algorithm, fragment) {
            assert(heading_has(data@.headings@[k as int], algorithm, f));
            return true;
        }
        k += 1;
    }
    let mut a: usize = 0;
    while a < data.anchors.len()
        invariant
            a <= data.anchors@.len(),
            f == text::utf8(fragment@),
            forall|j: int|
                0 <= j < data.headings@.len() ==> !heading_has(
                    #[trigger] data.headings@[j],
                    algorithm,
                    f,
                ),
            forall|j: int| 0 <= j < a ==> text::utf8((#[trigger] data.anchors@[j])@) != f,
        decreases data.anchors@.len() - a,
    {
        if text::same(data.anchors[a].as_str(), fragment) {
            assert(text::utf8(data@.anchors@[a as int]@) == f);
            return true;
        }
        a += 1;
    }
    false
}

fn lower_byte(c: u8) -> (r: u8)
    ensures
        r == lower(c),
{
    if 65 <= c && c <= 90 {
        c + 32
    } else {
        c
    }
}

fn is_top(fragment: &str) -> (r: bool)
    ensures
        r == means_top(text::utf8(fragment@)),
{
    let b = fragment.as_bytes();
    b.len() == 0 || (b.len() == 3 && lower_byte(b[0]) == 116 && lower_byte(b[1]) == 111
        && lower_byte(b[2]) == 112)
}

fn check_fragment(
    ws: &WorkspaceView<'_>,
    file: &str,
    line: usize,
    span: Span,
    target: &str,
    fragment: &str,
    out: &mut Vec<Diagnostic>,
)
    ensures
        diagnostic::views(final(out)@) == diagnostic::views(old(out)@) + fragment_report(
            ws@,
            path::named(file@),
            line,
            span,
            text::utf8(target@),
            text::utf8(fragment@),
        ),
{
    let ghost before = diagnostic::views(out@);
    assert(before + Seq::<DiagView>::empty() =~= before);
    let Some(data) = ws.file(target) else {
        return;
    };
    if is_top(fragment) || has_fragment(data, ws.config.policy.fragments, fragment) {
        return;
    }
    let mut message = text::owned("fragment `#");
    text::push(&mut message, fragment);
    text::push(&mut message, "` not found in `");
    text::push(&mut message, target);
    text::push(&mut message, "`");
    let d = link_diagnostic(file, line, Severity::Error, message, span);
    proof {
        diagnostic::lemma_views_push(out@, d);
        assert(before.push(d@) =~= before + seq![d@]);
    }
    out.push(d);
}

// Forward links.

/// What is said of a link.
pub open spec fn link_report(
    ws: Graph,
    on_disk: Map<Seq<u8>, ()>,
    file: Seq<u8>,
    link: Link,
) -> Seq<DiagView> {
    match link.kind {
        LinkKind::External => Seq::empty(),
        LinkKind::IntraDocument { anchor } => fragment_report(
            ws,
            file,
            link.line,
            link.span,
            file,
            text::utf8(anchor@),
        ),
        LinkKind::NonMarkdown { target } => target_report(
            ws,
            on_disk,
            file,
            link.line,
            link.span,
            text::utf8(target@),
        ),
        LinkKind::IntraProject { target, fragment, predicate, explicit_predicate } => target_report(
            ws,
            on_disk,
            file,
            link.line,
            link.span,
            text::utf8(target@),
        ) + predicate_report(
            ws.config,
            file,
            link.line,
            link.span,
            text::utf8(predicate@),
            explicit_predicate,
        ) + match fragment {
            Some(f) => fragment_report(
                ws,
                file,
                link.line,
                link.span,
                text::utf8(target@),
                text::utf8(f@),
            ),
            None => Seq::empty(),
        },
    }
}

/// What is said of a list of links.
pub open spec fn link_reports(
    ws: Graph,
    on_disk: Map<Seq<u8>, ()>,
    file: Seq<u8>,
    links: Seq<Link>,
) -> Seq<DiagView>
    decreases links.len(),
{
    if links.len() == 0 {
        Seq::empty()
    } else {
        link_reports(ws, on_disk, file, links.drop_last()) + link_report(
            ws,
            on_disk,
            file,
            links.last(),
        )
    }
}

/// What is said of the links of the first `n` documents.
pub open spec fn forward_reports(
    ws: Graph,
    on_disk: Map<Seq<u8>, ()>,
    n: int,
) -> Seq<DiagView>
    decreases n,
{
    if n <= 0 {
        Seq::empty()
    } else {
        forward_reports(ws, on_disk, n - 1) + link_reports(
            ws,
            on_disk,
            ws.files.keys()[n - 1],
            ws.files.values()[n - 1].links@,
        )
    }
}

fn check_link(
    ws: &WorkspaceView<'_>,
    on_disk: &PathMap<()>,
    file: &str,
    link: &Link,
    out: &mut Vec<Diagnostic>,
)
    requires
        path::named(file@) == text::utf8(file@),
    ensures
        diagnostic::views(final(out)@) == diagnostic::views(old(out)@) + link_report(
            ws@,
            on_disk@,
            path::named(file@),
            *link,
        ),
{
    let ghost before = diagnostic::views(out@);
    match &link.kind {
        LinkKind::External => {
            assert(before + Seq::<DiagView>::empty() =~= before);
        },
        LinkKind::IntraDocument { anchor } => {
            check_fragment(ws, file, link.line, link.span, file, anchor.as_str(), out);
        },
        LinkKind::NonMarkdown { target } => {
            check_target_exists(
                ws,
                on_disk,
                file,
                link.line,
                link.span,
                target.as_str(),
                out,
            );
        },
        LinkKind::IntraProject { target, fragment, predicate, explicit_predicate } => {
            check_target_exists(
                ws,
                on_disk,
                file,
                link.line,
                link.span,
                target.as_str(),
                out,
            );
            check_predicate(
                ws.config,
                file,
                link.line,
                link.span,
                predicate.as_str(),
                *explicit_predicate,
                out,
            );
            if let Some(f) = fragment {
                check_fragment(
                    ws,
                    file,
                    link.line,
                    link.span,
                    target.as_str(),
                    f.as_str(),
                    out,
                );
            }
            assert(diagnostic::views(out@) =~= before + link_report(
                ws@,
                on_disk@,
                path::named(file@),
                *link,
            ));
        },
    }
}

fn check_links(
    ws: &WorkspaceView<'_>,
    on_disk: &PathMap<()>,
    file: &str,
    links: &Vec<Link>,
    out: &mut Vec<Diagnostic>,
)
    requires
        path::named(file@) == text::utf8(file@),
    ensures
        diagnostic::views(final(out)@) == diagnostic::views(old(out)@) + link_reports(
            ws@,
            on_disk@,
            path::named(file@),
            links@,
        ),
{
    let ghost before = diagnostic::views(out@);
    let ghost f = path::named(file@);
    let mut k: usize = 0;
    proof {
        assert(links@.take(0) =~= Seq::<Link>::empty());
        assert(before + Seq::<DiagView>::empty() =~= before);
    }
    while k < links.len()
        invariant
            k <= links@.len(),
            f == path::named(file@),
            f == text::utf8(file@),
            diagnostic::views(out@) == before + link_reports(
                ws@,
                on_disk@,
                f,
                links@.take(k as int),
            ),
        decreases links@.len() - k,
    {
        check_link(ws, on_disk, file, &links[k], out);
        proof {
            assert(links@.take(k + 1).drop_last() =~= links@.take(k as int));
            let a = link_reports(ws@, on_disk@, f, links@.take(k as int));
            let b = link_report(ws@, on_disk@, f, links@[k as int]);
            assert((before + a) + b =~= before + (a + b));
        }
        k += 1;
    }
    assert(links@.take(k as int) =~= links@);
}

/// All findings about forward links, before they are sorted.
pub open spec fn all_forward(ws: Graph, on_disk: Map<Seq<u8>, ()>) -> Seq<DiagView> {
    forward_reports(ws, on_disk, ws.files.keys().len() as int)
}

/// Validate forward links: that targets exist, that predicates are known and
/// given where the policy asks for them, and that fragments are found.
///
/// `on_disk` lists the absolute paths of files that are no documents.
pub fn validate_forward_links(ws: &WorkspaceView<'_>, on_disk: &PathMap<()>) -> (r: Vec<
    Diagnostic,
>)
    ensures
        diagnostic::views(r@) == diagnostic::in_report_order(all_forward(ws@, on_disk@)),
{
    let mut out: Vec<Diagnostic> = Vec::new();
    let n = ws.files.len();
    let mut i: usize = 0;
    assert(diagnostic::views(out@) =~= Seq::<DiagView>::empty());
    while i < n
        invariant
            i <= n,
            n == ws.files.keys().len(),
            diagnostic::views(out@) == forward_reports(ws@, on_disk@, i as int),
        decreases n - i,
    {
        check_links(ws, on_disk, ws.files.key_at(i), &ws.files.value_at(i).links, &mut out);
        i += 1;
    }
    diagnostic::sort_diagnostics(out)
}

// Everything together.

/// What is said of the first `n` predicates of a document that the project does
/// not know.
pub open spec fn unknown_reports(
    file: Seq<u8>,
    list: Seq<Unknown>,
    n: int,
) -> Seq<DiagView>
    decreases n,
{
    if n <= 0 {
        Seq::empty()
    } else {
        unknown_reports(file, list, n - 1).push(
            DiagView {
                file,
                line: list[n - 1].line,
                severity: Severity::Error,
                message: text::utf8("unknown backlink predicate `"@) + list[n - 1].predicate
                    + text::utf8("`"@),
                span: None,
            },
        )
    }
}

/// What is said of the unknown predicates of the first `n` documents.
pub open spec fn all_unknown(ws: Graph, n: int) -> Seq<DiagView>
    decreases n,
{
    if n <= 0 {
        Seq::empty()
    } else {
        let list = ws.files.values()[n - 1].unknown;
        all_unknown(ws, n - 1) + unknown_reports(
            ws.files.keys()[n - 1],
            list,
            list.len() as int,
        )
    }
}

/// What is said of the graph of a workspace: nothing without a configuration, else
/// the findings about links, backlinks, connectivity and predicates.
pub open spec fn graph_findings(ws: Graph, on_disk: Map<Seq<u8>, ()>) -> Seq<DiagView> {
    if ws.has_config {
        diagnostic::in_report_order(all_forward(ws, on_disk)) + diagnostic::in_report_order(
            backlinks::all_backlinks(ws),
        ) + diagnostic::in_report_order(connectivity::all_isolated(ws)) + all_unknown(
            ws,
            ws.files.keys().len() as int,
        )
    } else {
        Seq::empty()
    }
}

/// The findings of the bare-path lint.
pub open spec fn bare_rows(list: Seq<DiagView>) -> Seq<DiagView>
    decreases list.len(),
{
    if list.len() == 0 {
        list
    } else if ledger::lint_of(list.last().message) == Some(ExceptionLint::BarePaths) {
        bare_rows(list.drop_last()).push(list.last())
    } else {
        bare_rows(list.drop_last())
    }
}

/// What is said of a document by itself: what is wrong with its frontmatter, and
/// its bare paths.
pub open spec fn document_rows(file: Seq<u8>, data: FileView) -> Seq<DiagView> {
    diagnostic::about(diagnostic::views(data.metadata@), file) + bare_rows(data.structural)
}

/// What is said of the first `n` documents by themselves.
pub open spec fn all_documents(ws: Graph, n: int) -> Seq<DiagView>
    decreases n,
{
    if n <= 0 {
        Seq::empty()
    } else {
        all_documents(ws, n - 1) + document_rows(
            ws.files.keys()[n - 1],
            ws.files.values()[n - 1],
        )
    }
}

/// Everything that is said of a workspace: nothing without a configuration, else
/// the findings about its graph, what is wrong with frontmatter, and bare paths.
pub open spec fn all_findings(ws: Graph, on_disk: Map<Seq<u8>, ()>) -> Seq<DiagView> {
    if ws.has_config {
        graph_findings(ws, on_disk) + all_documents(ws, ws.files.keys().len() as int)
    } else {
        Seq::empty()
    }
}

fn append(out: &mut Vec<Diagnostic>, list: Vec<Diagnostic>)
    ensures
        diagnostic::views(final(out)@) == diagnostic::views(old(out)@) + diagnostic::views(list@),
{
    let mut list = list;
    let ghost added = list@;
    out.append(&mut list);
    assert(diagnostic::views(out@) =~= diagnostic::views(old(out)@) + diagnostic::views(added));
}

fn report_unknown(file: &str, list: &Vec<BacklinkDiagnostic>, out: &mut Vec<Diagnostic>)
    ensures
        diagnostic::views(final(out)@) == diagnostic::views(old(out)@) + unknown_reports(
            path::named(file@),
            workspace::unknowns(list@),
            list@.len() as int,
        ),
{
    let ghost before = diagnostic::views(out@);
    let ghost name = path::named(file@);
    let ghost all = workspace::unknowns(list@);
    let mut i: usize = 0;
    assert(before + Seq::<DiagView>::empty() =~= before);
    while i < list.len()
        invariant
            i <= list@.len(),
            name == path::named(file@),
            all == workspace::unknowns(list@),
            diagnostic::views(out@) == before + unknown_reports(name, all, i as int),
        decreases list@.len() - i,
    {
        let mut message = text::owned("unknown backlink predicate `");
        text::push(&mut message, list[i].predicate.as_str());
        text::push(&mut message, "`");
        let d = Diagnostic {
            file: text::owned(file),
            line: list[i].line,
            severity: Severity::Error,
            message,
            span: None,
        };
        proof {
            diagnostic::lemma_views_push(out@, d);
            let so_far = unknown_reports(name, all, i as int);
            assert(all[i as int].predicate == text::utf8(list@[i as int].predicate@));
            assert((before + so_far).push(d@) =~= before + so_far.push(d@));
        }
        out.push(d);
        i += 1;
    }
}

fn gather_graph(ws: &WorkspaceView<'_>, on_disk: &PathMap<()>) -> (r: Vec<Diagnostic>)
    ensures
        diagnostic::views(r@) == graph_findings(ws@, on_disk@),
{
    let mut out: Vec<Diagnostic> = Vec::new();
    assert(diagnostic::views(out@) =~= Seq::<DiagView>::empty());
    if !ws.has_config {
        return out;
    }
    append(&mut out, validate_forward_links(ws, on_disk));
    append(&mut out, backlinks::validate_backlinks(ws));
    append(&mut out, connectivity::validate_connectivity(ws));
    let ghost graph = diagnostic::views(out@);
    let n = ws.files.len();
    let mut i: usize = 0;
    assert(graph + Seq::<DiagView>::empty() =~= graph);
    while i < n
        invariant
            i <= n,
            n == ws.files.keys().len(),
            diagnostic::views(out@) == graph + all_unknown(ws@, i as int),
        decreases n - i,
    {
        let list = &ws.files.value_at(i).backlink_diagnostics;
        report_unknown(ws.files.key_at(i), list, &mut out);
        proof {
            let one = unknown_reports(
                ws.files.keys()[i as int],
                workspace::unknowns(list@),
                list@.len() as int,
            );
            assert(graph + all_unknown(ws@, i as int) + one =~= graph + (all_unknown(
                ws@,
                i as int,
            ) + one));
        }
        i += 1;
    }
    assert(diagnostic::views(out@) =~= graph_findings(ws@, on_disk@));
    out
}

/// Collect the diagnostics on the graph of a workspace: forward links, backlinks,
/// connectivity and unknown predicates of backlinks, sorted by file and line. What
/// is said of each document by itself is not among them.
///
/// `on_disk` holds the absolute paths of the files that exist among the targets
/// that are no markdown documents.
pub fn collect_graph(ws: &WorkspaceView<'_>, on_disk: &PathMap<()>) -> (r: Vec<Diagnostic>)
    ensures
        diagnostic::views(r@) == diagnostic::in_report_order(graph_findings(ws@, on_disk@)),
{
    diagnostic::sort_diagnostics(gather_graph(ws, on_disk))
}

fn append_bare(list: &Vec<Diagnostic>, out: &mut Vec<Diagnostic>)
    ensures
        diagnostic::views(final(out)@) == diagnostic::views(old(out)@) + bare_rows(
            diagnostic::views(list@),
        ),
{
    let ghost before = diagnostic::views(out@);
    let ghost all = diagnostic::views(list@);
    let mut i: usize = 0;
    proof {
        assert(all.take(0) =~= Seq::<DiagView>::empty());
        assert(before + bare_rows(all.take(0)) =~= before);
    }
    while i < list.len()
        invariant
            i <= list@.len(),
            all == diagnostic::views(list@),
            diagnostic::views(out@) == before + bare_rows(all.take(i as int)),
        decreases list@.len() - i,
    {
        let ghost so_far = bare_rows(all.take(i as int));
        proof {
            assert(all.take(i + 1).drop_last() =~= all.take(i as int));
            assert(all.take(i + 1).last() == list@[i as int]@);
        }
        if ledger::classify_028_lint(list[i].message.as_str()) == Some(ExceptionLint::BarePaths) {
            let d = list[i].copied();
            proof {
                diagnostic::lemma_views_push(out@, d);
                assert((before + so_far).push(d@) =~= before + so_far.push(d@));
            }
            out.push(d);
        }
        i += 1;
    }
    assert(all.take(i as int) =~= all);
}

/// Collect all diagnostics for the workspace: forward links, backlinks,
/// connectivity, bare paths, unknown predicates of backlinks and what is wrong
/// with frontmatter, sorted by file and line. The bare paths are those that were
/// last found in each document.
///
/// `on_disk` holds the absolute paths of the files that exist among the targets
/// that are no markdown documents.
pub fn collect_all(ws: &WorkspaceView<'_>, on_disk: &PathMap<()>) -> (r: Vec<Diagnostic>)
    ensures
        diagnostic::views(r@) == diagnostic::in_report_order(all_findings(ws@, on_disk@)),
        !ws.has_config ==> r@.len() == 0,
{
    let mut out = gather_graph(ws, on_disk);
    if !ws.has_config {
        assert(diagnostic::views(out@).len() == out@.len());
        return out;
    }
    let ghost graph = diagnostic::views(out@);
    let n = ws.files.len();
    let mut i: usize = 0;
    assert(graph + Seq::<DiagView>::empty() =~= graph);
    while i < n
        invariant
            i <= n,
            n == ws.files.keys().len(),
            diagnostic::views(out@) == graph + all_documents(ws@, i as int),
        decreases n - i,
    {
        let data = *ws.files.value_at(i);
        assert(ws@.files.values()[i as int] == data@);
        let ghost so_far = all_documents(ws@, i as int);
        let ghost one = document_rows(ws.files.keys()[i as int], data@);
        diagnostic::append_about(&data.metadata, ws.files.key_at(i), &mut out);
        append_bare(&data.structural, &mut out);
        assert(diagnostic::views(out@) =~= graph + (so_far + one));
        i += 1;
    }
    diagnostic::sort_diagnostics(out)
}

// Laws.

/// What is said of documents by themselves is said of one of them.
pub proof fn lemma_documents(ws: Graph, n: int, d: DiagView)
    requires
        0 <= n,
    ensures
        all_documents(ws, n).contains(d) == exists|i: int|
            0 <= i < n && (#[trigger] document_rows(
                ws.files.keys()[i],
                ws.files.values()[i],
            )).contains(d),
    decreases n,
{
    if n > 0 {
        lemma_documents(ws, n - 1, d);
        diagnostic::lemma_either(
            all_documents(ws, n - 1),
            document_rows(ws.files.keys()[n - 1], ws.files.values()[n - 1]),
            d,
        );
    }
}

proof fn lemma_unknown(ws: Graph, n: int, d: DiagView)
    requires
        0 <= n,
    ensures
        all_unknown(ws, n).contains(d) == exists|i: int|
            0 <= i < n && (#[trigger] unknown_reports(
                ws.files.keys()[i],
                ws.files.values()[i].unknown,
                ws.files.values()[i].unknown.len() as int,
            )).contains(d),
    decreases n,
{
    if n > 0 {
        lemma_unknown(ws, n - 1, d);
        diagnostic::lemma_either(
            all_unknown(ws, n - 1),
            unknown_reports(
                ws.files.keys()[n - 1],
                ws.files.values()[n - 1].unknown,
                ws.files.values()[n - 1].unknown.len() as int,
            ),
            d,
        );
    }
}

/// With a configuration everything is collected, and nothing else: what is said of
/// forward links, backlinks and connectivity, the unknown predicates of each
/// document, and its frontmatter errors and bare paths; in the order of files and
/// lines.
pub proof fn law_everything_is_collected(ws: Graph, on_disk: Map<Seq<u8>, ()>, d: DiagView)
    requires
        ws.has_config,
    ensures
        diagnostic::is_in_report_order(diagnostic::in_report_order(all_findings(ws, on_disk))),
        diagnostic::in_report_order(all_findings(ws, on_disk)).contains(d) <==> {
            ||| all_forward(ws, on_disk).contains(d)
            ||| backlinks::all_backlinks(ws).contains(d)
            ||| connectivity::all_isolated(ws).contains(d)
            ||| exists|i: int|
                0 <= i < ws.files.keys().len() && (#[trigger] unknown_reports(
                    ws.files.keys()[i],
                    ws.files.values()[i].unknown,
                    ws.files.values()[i].unknown.len() as int,
                )).contains(d)
            ||| exists|i: int|
                0 <= i < ws.files.keys().len() && (#[trigger] document_rows(
                    ws.files.keys()[i],
                    ws.files.values()[i],
                )).contains(d)
        },
{
    let n = ws.files.keys().len() as int;
    let a = diagnostic::in_report_order(all_forward(ws, on_disk));
    let b = diagnostic::in_report_order(backlinks::all_backlinks(ws));
    let c = diagnostic::in_report_order(connectivity::all_isolated(ws));
    let u = all_unknown(ws, n);
    let all = all_findings(ws, on_disk);
    diagnostic::law_sorting_keeps_the_diagnostics(all);
    diagnostic::lemma_report_order_contains(all, d);
    diagnostic::lemma_either(graph_findings(ws, on_disk), all_documents(ws, n), d);
    diagnostic::lemma_either(a + b + c, u, d);
    diagnostic::lemma_either(a + b, c, d);
    diagnostic::lemma_either(a, b, d);
    diagnostic::lemma_report_order_contains(all_forward(ws, on_disk), d);
    diagnostic::lemma_report_order_contains(backlinks::all_backlinks(ws), d);
    diagnostic::lemma_report_order_contains(connectivity::all_isolated(ws), d);
    lemma_documents(ws, n, d);
    lemma_unknown(ws, n, d);
}

/// Each frontmatter error of a document is collected, at its line of that document.
pub proof fn law_frontmatter_errors_are_collected(
    ws: Graph,
    on_disk: Map<Seq<u8>, ()>,
    i: int,
    k: int,
)
    requires
        ws.has_config,
        0 <= i < ws.files.keys().len(),
        0 <= k < ws.files.values()[i].metadata@.len(),
    ensures
        diagnostic::in_report_order(all_findings(ws, on_disk)).contains(
            (DiagView { file: ws.files.keys()[i], ..ws.files.values()[i].metadata@[k]@ }),
        ),
{
    let file = ws.files.keys()[i];
    let data = ws.files.values()[i];
    let d = DiagView { file, ..data.metadata@[k]@ };
    let own = diagnostic::about(diagnostic::views(data.metadata@), file);
    assert(own[k] == d);
    diagnostic::lemma_either(own, bare_rows(data.structural), d);
    assert(document_rows(file, data).contains(d));
    law_everything_is_collected(ws, on_disk, d);
}

} // verus!

//! What is found about the links and backlinks of a workspace.
use vstd::prelude::*;
use crate::backlinks;
use crate::config::{Config, FragmentAlgorithm, PredicatePolicy};
use crate::diagnostic;
use crate::diagnostic::{DiagView, Severity};
use crate::fm::ExceptionLint;
use crate::path;
use crate::reciprocity;
use crate::server::shown;
use crate::sorted;
use crate::span::Span;
use crate::text;
use crate::validation;
use crate::workspace::{
    Backlinks, FileView, Graph, Heading, HeadingId, Link, LinkKind, Unknown,
};

verus! {

/// Whether the report on a workspace has a finding.
pub open spec fn is_reported(ws: Graph, on_disk: Map<Seq<u8>, ()>, d: DiagView) -> bool {
    diagnostic::in_report_order(validation::all_findings(ws, on_disk)).contains(d)
}

/// Whether a workspace has a document, under a name.
pub open spec fn has_document(ws: Graph, name: Seq<u8>) -> bool {
    exists|j: int| 0 <= j < ws.files.names.len() && #[trigger] ws.files.names[j] == name
}

/// A finding at a link of a document.
pub open spec fn at_link(
    ws: Graph,
    i: int,
    k: int,
    severity: Severity,
    message: Seq<u8>,
) -> DiagView {
    let link = ws.files.data[i].links@[k];
    DiagView {
        file: ws.files.names[i],
        line: link.line as nat,
        severity,
        message,
        span: Some(link.span),
    }
}

/// Whether a document has a link at an index.
pub open spec fn has_link(ws: Graph, i: int, k: int) -> bool {
    &&& 0 <= i < ws.files.names.len()
    &&& 0 <= k < ws.files.data[i].links@.len()
}

proof fn lemma_links(
    ws: Graph,
    on_disk: Map<Seq<u8>, ()>,
    file: Seq<u8>,
    links: Seq<Link>,
    k: int,
    d: DiagView,
)
    requires
        0 <= k < links.len(),
        validation::link_report(ws, on_disk, file, links[k]).contains(d),
    ensures
        validation::link_reports(ws, on_disk, file, links).contains(d),
    decreases links.len(),
{
    if k < links.len() - 1 {
        assert(links.drop_last()[k] == links[k]);
        lemma_links(ws, on_disk, file, links.drop_last(), k, d);
    }
    diagnostic::lemma_either(
        validation::link_reports(ws, on_disk, file, links.drop_last()),
        validation::link_report(ws, on_disk, file, links.last()),
        d,
    );
}

proof fn lemma_forward(ws: Graph, on_disk: Map<Seq<u8>, ()>, n: int, i: int, d: DiagView)
    requires
        0 <= i < n,
        validation::link_reports(
            ws,
            on_disk,
            ws.files.names[i],
            ws.files.data[i].links@,
        ).contains(d),
    ensures
        validation::forward_reports(ws, on_disk, n).contains(d),
    decreases n,
{
    if i < n - 1 {
        lemma_forward(ws, on_disk, n - 1, i, d);
    }
    diagnostic::lemma_either(
        validation::forward_reports(ws, on_disk, n - 1),
        validation::link_reports(
            ws,
            on_disk,
            ws.files.keys()[n - 1],
            ws.files.values()[n - 1].links@,
        ),
        d,
    );
}

proof fn lemma_link(ws: Graph, on_disk: Map<Seq<u8>, ()>, i: int, k: int, d: DiagView)
    requires
        ws.has_config,
        has_link(ws, i, k),
        validation::link_report(
            ws,
            on_disk,
            ws.files.names[i],
            ws.files.data[i].links@[k],
        ).contains(d),
    ensures
        is_reported(ws, on_disk, d),
{
    lemma_links(ws, on_disk, ws.files.names[i], ws.files.data[i].links@, k, d);
    lemma_forward(ws, on_disk, ws.files.keys().len() as int, i, d);
    validation::law_everything_is_collected(ws, on_disk, d);
}

proof fn lemma_has_document(ws: Graph, name: Seq<u8>)
    ensures
        ws.files@.contains_key(name) == has_document(ws, name),
{
    if ws.files@.contains_key(name) {
        let j = choose|j: int| 0 <= j < ws.files.names.len() && ws.files.names[j] == name;
        assert(ws.files.names[j] == name);
    }
}

// Targets.

/// Whether a link leads to a file of the project, under a path.
pub open spec fn leads_to(link: Link, target: Seq<u8>) -> bool {
    match link.kind {
        LinkKind::NonMarkdown { target: t } => text::utf8(t@) == target,
        LinkKind::IntraProject { target: t, .. } => text::utf8(t@) == target,
        _ => false,
    }
}

/// A link whose target is not there is reported: a markdown file that is no document
/// of the workspace, and another file that is not on disk under the root.
pub proof fn law_broken_links_are_reported(
    ws: Graph,
    on_disk: Map<Seq<u8>, ()>,
    i: int,
    k: int,
    target: Seq<u8>,
)
    requires
        ws.has_config,
        has_link(ws, i, k),
        leads_to(ws.files.data[i].links@[k], target),
        path::names_markdown(target) ==> !has_document(ws, path::normal_form(target)),
        !path::names_markdown(target) ==> !on_disk.contains_key(path::child_of(ws.root, target)),
    ensures
        is_reported(
            ws,
            on_disk,
            at_link(
                ws,
                i,
                k,
                Severity::Error,
                text::utf8("link target does not exist: "@) + target,
            ),
        ),
{
    let link = ws.files.data[i].links@[k];
    let file = ws.files.names[i];
    let d = at_link(
        ws,
        i,
        k,
        Severity::Error,
        text::utf8("link target does not exist: "@) + target,
    );
    lemma_has_document(ws, path::normal_form(target));
    let x = validation::target_report(ws, on_disk, file, link.line, link.span, target);
    assert(x[0] == d);
    assert(x.contains(d));
    lemma_parts_of(ws, on_disk, i, k, d);
    lemma_link(ws, on_disk, i, k, d);
}

/// What is said of a link between documents, part by part.
proof fn lemma_parts_of(ws: Graph, on_disk: Map<Seq<u8>, ()>, i: int, k: int, d: DiagView)
    requires
        has_link(ws, i, k),
    ensures
        ({
            let link = ws.files.data[i].links@[k];
            let file = ws.files.names[i];
            link.kind matches LinkKind::IntraProject {
                target,
                fragment,
                predicate,
                explicit_predicate,
            } ==> {
                let x = validation::target_report(
                    ws,
                    on_disk,
                    file,
                    link.line,
                    link.span,
                    text::utf8(target@),
                );
                let y = validation::predicate_report(
                    ws.config,
                    file,
                    link.line,
                    link.span,
                    text::utf8(predicate@),
                    explicit_predicate,
                );
                let z = match fragment {
                    Some(f) => validation::fragment_report(
                        ws,
                        file,
                        link.line,
                        link.span,
                        text::utf8(target@),
                        text::utf8(f@),
                    ),
                    None => Seq::empty(),
                };
                validation::link_report(ws, on_disk, file, link).contains(d) == (x.contains(d)
                    || y.contains(d) || z.contains(d))
            }
        }),
{
    let link = ws.files.data[i].links@[k];
    let file = ws.files.names[i];
    if let LinkKind::IntraProject { target, fragment, predicate, explicit_predicate } = link.kind {
        let x = validation::target_report(
            ws,
            on_disk,
            file,
            link.line,
            link.span,
            text::utf8(target@),
        );
        let y = validation::predicate_report(
            ws.config,
            file,
            link.line,
            link.span,
            text::utf8(predicate@),
            explicit_predicate,
        );
        let z = match fragment {
            Some(f) => validation::fragment_report(
                ws,
                file,
                link.line,
                link.span,
                text::utf8(target@),
                text::utf8(f@),
            ),
            None => Seq::empty(),
        };
        diagnostic::lemma_either(x, y, d);
        diagnostic::lemma_either(x + y, z, d);
        assert(validation::link_report(ws, on_disk, file, link) == x + y + z);
    }
}

/// A link whose target is there is not reported for its target.
pub proof fn law_whole_links_pass(
    ws: Graph,
    on_disk: Map<Seq<u8>, ()>,
    file: Seq<u8>,
    line: usize,
    span: Span,
    target: Seq<u8>,
)
    requires
        path::names_markdown(target) ==> has_document(ws, path::normal_form(target)),
        !path::names_markdown(target) ==> on_disk.contains_key(path::child_of(ws.root, target)),
    ensures
        validation::target_report(ws, on_disk, file, line, span, target).len() == 0,
{
    lemma_has_document(ws, path::normal_form(target));
}

// Fragments.

/// Whether a heading can be linked to under a fragment: by the identifier written
/// behind it; else by the anchor of the renderer that is configured, and where none
/// is, of any of them.
pub open spec fn answers_to(h: Heading, rule: Option<FragmentAlgorithm>, f: Seq<u8>) -> bool {
    match h.id {
        HeadingId::Explicit(id) => text::utf8(id@) == f,
        HeadingId::Computed { github, gitlab, vscode } => {
            ||| text::utf8(github@) == f && (rule is None || rule == Some(FragmentAlgorithm::Github))
            ||| text::utf8(gitlab@) == f && (rule is None || rule == Some(FragmentAlgorithm::Gitlab))
            ||| text::utf8(vscode@) == f && (rule is None || rule == Some(FragmentAlgorithm::Vscode))
        },
    }
}

/// Whether a fragment means the top of a document: it is empty, or `top`, in capitals
/// or not.
pub open spec fn is_top(f: Seq<u8>) -> bool {
    ||| f.len() == 0
    ||| f.len() == 3 && (f[0] == 116 || f[0] == 84) && (f[1] == 111 || f[1] == 79) && (f[2] == 112
        || f[2] == 80)
}

/// Whether a document can be linked to under a fragment.
pub open spec fn has_place(data: FileView, rule: Option<FragmentAlgorithm>, f: Seq<u8>) -> bool {
    ||| is_top(f)
    ||| exists|k: int|
        0 <= k < data.headings@.len() && answers_to(#[trigger] data.headings@[k], rule, f)
    ||| exists|k: int|
        0 <= k < data.anchors@.len() && text::utf8((#[trigger] data.anchors@[k])@) == f
}

proof fn lemma_place(data: FileView, rule: Option<FragmentAlgorithm>, f: Seq<u8>)
    ensures
        (validation::means_top(f) || validation::fragment_found(data, rule, f)) == has_place(
            data,
            rule,
            f,
        ),
{
    assert forall|k: int| 0 <= k < data.headings@.len() implies validation::heading_has(
        #[trigger] data.headings@[k],
        rule,
        f,
    ) == answers_to(data.headings@[k], rule, f) by {}
    if validation::fragment_found(data, rule, f) && !has_place(data, rule, f) {
        if exists|k: int|
            0 <= k < data.headings@.len() && validation::heading_has(
                #[trigger] data.headings@[k],
                rule,
                f,
            ) {
            let k = choose|k: int|
                0 <= k < data.headings@.len() && validation::heading_has(
                    #[trigger] data.headings@[k],
                    rule,
                    f,
                );
            assert(answers_to(data.headings@[k], rule, f));
        }
    }
}

/// Whether a link leads to a place in a document.
pub open spec fn leads_into(ws: Graph, i: int, k: int, target: Seq<u8>, f: Seq<u8>) -> bool {
    match ws.files.data[i].links@[k].kind {
        LinkKind::IntraDocument { anchor } => target == ws.files.names[i] && f == text::utf8(
            anchor@,
        ),
        LinkKind::IntraProject { target: t, fragment: Some(x), .. } => text::utf8(t@) == target
            && text::utf8(x@) == f,
        _ => false,
    }
}

/// A link to a place that its target does not have is reported.
pub proof fn law_broken_fragments_are_reported(
    ws: Graph,
    on_disk: Map<Seq<u8>, ()>,
    i: int,
    k: int,
    j: int,
    target: Seq<u8>,
    f: Seq<u8>,
)
    requires
        ws.has_config,
        has_link(ws, i, k),
        leads_into(ws, i, k, target, f),
        0 <= j < ws.files.names.len(),
        ws.files.names[j] == path::normal_form(target),
        ws.files.names.no_duplicates(),
        !has_place(ws.files.data[j], ws.config.policy.fragments, f),
    ensures
        is_reported(
            ws,
            on_disk,
            at_link(
                ws,
                i,
                k,
                Severity::Error,
                text::utf8("fragment `#"@) + f + text::utf8("` not found in `"@) + target
                    + text::utf8("`"@),
            ),
        ),
{
    let link = ws.files.data[i].links@[k];
    let file = ws.files.names[i];
    let d = at_link(
        ws,
        i,
        k,
        Severity::Error,
        text::utf8("fragment `#"@) + f + text::utf8("` not found in `"@) + target + text::utf8(
            "`"@,
        ),
    );
    lemma_at(ws, j);
    lemma_place(ws.files.data[j], ws.config.policy.fragments, f);
    let z = validation::fragment_report(ws, file, link.line, link.span, target, f);
    assert(z[0] == d);
    assert(z.contains(d));
    lemma_parts_of(ws, on_disk, i, k, d);
    lemma_link(ws, on_disk, i, k, d);
}

proof fn lemma_at(ws: Graph, j: int)
    requires
        0 <= j < ws.files.names.len(),
        ws.files.names.no_duplicates(),
    ensures
        ws.files@.contains_key(ws.files.names[j]),
        ws.files@[ws.files.names[j]] == ws.files.data[j],
{
    let name = ws.files.names[j];
    assert(ws.files.names.contains(name));
    let x = ws.files.names.index_of(name);
    assert(ws.files.names[x] == name);
}

/// A link to a place that its target has is not reported for that.
pub proof fn law_found_fragments_pass(
    ws: Graph,
    file: Seq<u8>,
    line: usize,
    span: Span,
    j: int,
    target: Seq<u8>,
    f: Seq<u8>,
)
    requires
        0 <= j < ws.files.names.len(),
        ws.files.names[j] == path::normal_form(target),
        ws.files.names.no_duplicates(),
        has_place(ws.files.data[j], ws.config.policy.fragments, f),
    ensures
        validation::fragment_report(ws, file, line, span, target, f).len() == 0,
{
    lemma_at(ws, j);
    lemma_place(ws.files.data[j], ws.config.policy.fragments, f);
}

// Predicates.

/// Whether a vocabulary has a pair: a forward predicate and its inverse.
pub open spec fn has_pair(config: Config, n: int, forward: Seq<u8>, inverse: Seq<u8>) -> bool {
    &&& 0 <= n < config.predicates.keys().len()
    &&& config.predicates.keys()[n] == forward
    &&& text::utf8(config.predicates.values()[n]@) == inverse
}

proof fn lemma_forward_of(keys: Seq<Seq<u8>>, values: Seq<String>, p: Seq<u8>)
    requires
        keys.len() == values.len(),
    ensures
        match crate::config::forward_of(keys, values, p) {
            Some(f) => exists|n: int|
                0 <= n < keys.len() && #[trigger] keys[n] == f && text::utf8(values[n]@) == p
                    && forall|m: int| 0 <= m < n ==> text::utf8((#[trigger] values[m])@) != p,
            None => forall|n: int| 0 <= n < keys.len() ==> text::utf8((#[trigger] values[n])@) != p,
        },
    decreases keys.len(),
{
    if keys.len() > 0 {
        if text::utf8(values[0]@) == p {
            assert(keys[0] == keys[0]);
        } else {
            let k2 = keys.drop_first();
            let v2 = values.drop_first();
            lemma_forward_of(k2, v2, p);
            match crate::config::forward_of(k2, v2, p) {
                Some(f) => {
                    let n = choose|n: int|
                        0 <= n < k2.len() && #[trigger] k2[n] == f && text::utf8(v2[n]@) == p
                            && forall|m: int| 0 <= m < n ==> text::utf8((#[trigger] v2[m])@) != p;
                    assert(keys[n + 1] == k2[n]);
                    assert forall|m: int| 0 <= m < n + 1 implies text::utf8(
                        (#[trigger] values[m])@,
                    ) != p by {
                        if m > 0 {
                            assert(values[m] == v2[m - 1]);
                        }
                    }
                },
                None => {
                    assert forall|n: int| 0 <= n < keys.len() implies text::utf8(
                        (#[trigger] values[n])@,
                    ) != p by {
                        if n > 0 {
                            assert(values[n] == v2[n - 1]);
                        }
                    }
                },
            }
        }
    }
}

/// The opposite of a forward predicate is its inverse; the opposite of an inverse
/// that is no forward predicate is the first forward predicate with that inverse; and
/// what is neither has no opposite.
pub proof fn law_opposites_go_both_ways(config: Config, p: Seq<u8>)
    requires
        config.predicates.keys().no_duplicates(),
    ensures
        forall|n: int, q: Seq<u8>| #[trigger]
            has_pair(config, n, p, q) ==> config.opposite(p) == Some(q),
        !config.predicates.keys().contains(p) ==> match config.opposite(p) {
            Some(f) => exists|n: int| #[trigger]
                has_pair(config, n, f, p) && forall|m: int, g: Seq<u8>|
                    0 <= m < n ==> !#[trigger] has_pair(config, m, g, p),
            None => forall|n: int, g: Seq<u8>| !#[trigger] has_pair(config, n, g, p),
        },
{
    broadcast use sorted::lemma_values_len;

    let keys = config.predicates.keys();
    let values = config.predicates.values();
    assert forall|n: int, q: Seq<u8>| #[trigger]
        has_pair(config, n, p, q) implies config.opposite(p) == Some(q) by {
        assert(keys.contains(keys[n]));
        let x = keys.index_of(p);
        assert(keys[x] == p);
    }
    lemma_forward_of(keys, values, p);
    if !keys.contains(p) {
        match crate::config::forward_of(keys, values, p) {
            Some(f) => {
                let n = choose|n: int|
                    0 <= n < keys.len() && #[trigger] keys[n] == f && text::utf8(values[n]@) == p
                        && forall|m: int| 0 <= m < n ==> text::utf8((#[trigger] values[m])@) != p;
                assert(has_pair(config, n, f, p));
                assert forall|m: int, g: Seq<u8>| 0 <= m < n implies !#[trigger] has_pair(
                    config,
                    m,
                    g,
                    p,
                ) by {
                    assert(text::utf8(values[m]@) != p);
                }
            },
            None => {
                assert forall|n: int, g: Seq<u8>| !#[trigger] has_pair(config, n, g, p) by {
                    if has_pair(config, n, g, p) {
                        assert(text::utf8(values[n]@) != p);
                    }
                }
            },
        }
    }
}

/// A predicate that is written at a link and is in no pair of the vocabulary, on
/// neither side, is reported; and so is a link without one, as an error where
/// predicates are required and as information where they are not.
pub proof fn law_predicates_are_checked(
    ws: Graph,
    on_disk: Map<Seq<u8>, ()>,
    i: int,
    k: int,
    target: Seq<u8>,
    predicate: Seq<u8>,
    explicit: bool,
)
    requires
        ws.has_config,
        has_link(ws, i, k),
        ws.files.data[i].links@[k].kind matches LinkKind::IntraProject {
            target: t,
            fragment,
            predicate: p,
            explicit_predicate: e,
        } && text::utf8(t@) == target && text::utf8(p@) == predicate && e == explicit,
        ws.config.predicates.keys().no_duplicates(),
        explicit ==> forall|n: int, other: Seq<u8>|
            !#[trigger] has_pair(ws.config, n, predicate, other) && !has_pair(
                ws.config,
                n,
                other,
                predicate,
            ),
        explicit ==> !ws.config.predicates.keys().contains(predicate),
    ensures
        ({
            let names = validation::comma_list(ws.config.predicates.keys());
            let required = ws.config.policy.predicates == PredicatePolicy::Required;
            is_reported(
                ws,
                on_disk,
                at_link(
                    ws,
                    i,
                    k,
                    if explicit || required {
                        Severity::Error
                    } else {
                        Severity::Info
                    },
                    if explicit {
                        text::utf8("unknown predicate '"@) + predicate + text::utf8(
                            "': choose from ["@,
                        ) + names + text::utf8("]"@)
                    } else if required {
                        text::utf8("link missing predicate: choose from ["@) + names + text::utf8(
                            "]"@,
                        )
                    } else {
                        text::utf8("link has no explicit predicate (defaulting to 'references')"@)
                    },
                ),
            )
        }),
{
    let link = ws.files.data[i].links@[k];
    let file = ws.files.names[i];
    let y = validation::predicate_report(
        ws.config,
        file,
        link.line,
        link.span,
        predicate,
        explicit,
    );
    if explicit {
        law_opposites_go_both_ways(ws.config, predicate);
        if let Some(f) = ws.config.opposite(predicate) {
            let n = choose|n: int| #[trigger]
                has_pair(ws.config, n, f, predicate) && forall|m: int, g: Seq<u8>|
                    0 <= m < n ==> !#[trigger] has_pair(ws.config, m, g, predicate);
            assert(!has_pair(ws.config, n, predicate, f));
        }
    }
    let d = y[0];
    assert(y.contains(d));
    lemma_parts_of(ws, on_disk, i, k, d);
    lemma_link(ws, on_disk, i, k, d);
}

/// Names in a list have `, ` between them.
pub proof fn law_names_are_listed_with_commas(names: Seq<Seq<u8>>, name: Seq<u8>)
    ensures
        validation::comma_list(seq![name]) == name,
        names.len() > 0 ==> validation::comma_list(names.push(name)) == validation::comma_list(
            names,
        ) + seq![44u8, 32u8] + name,
{
    reveal_strlit(", ");
    assert(vstd::utf8::is_ascii_chars(", "@));
    vstd::utf8::is_ascii_chars_encode_utf8(", "@);
    assert(text::utf8(", "@) =~= seq![44u8, 32u8]);
    assert(names.push(name).drop_last() =~= names);
}

// Backlinks.

/// Whether a link of a document leads to another document under a predicate.
pub open spec fn points_at(
    ws: Graph,
    i: int,
    k: int,
    target: Seq<u8>,
    predicate: Seq<u8>,
) -> bool {
    &&& has_link(ws, i, k)
    &&& ws.files.data[i].links@[k].kind matches LinkKind::IntraProject {
        target: t,
        fragment,
        predicate: p,
        explicit_predicate,
    } && path::normal_form(text::utf8(t@)) == target && text::utf8(p@) == predicate
}

/// Whether the frontmatter of a document names another one under a label.
pub open spec fn names_back(data: FileView, at: Seq<u8>, label: Seq<u8>, source: Seq<u8>) -> bool {
    data.frontmatter matches Some(fm) && exists|n: int, m: int|
        #![trigger fm.backlinks@[n].sources@[m]]
        0 <= n < fm.backlinks@.len() && 0 <= m < fm.backlinks@[n].sources@.len() && text::utf8(
            fm.backlinks@[n].predicate@,
        ) == label && backlinks::backlink_target(
            at,
            text::utf8(fm.backlinks@[n].sources@[m]@),
        ) == source
}

proof fn lemma_names_back(data: FileView, at: Seq<u8>, label: Seq<u8>, source: Seq<u8>)
    ensures
        backlinks::declares(data, at, label, source) == names_back(data, at, label, source),
{
    if let Some(fm) = data.frontmatter {
        if backlinks::declares(data, at, label, source) {
            let n = choose|n: int|
                0 <= n < fm.backlinks@.len() && backlinks::declared_by(
                    #[trigger] fm.backlinks@[n],
                    at,
                    label,
                    source,
                );
            let b = fm.backlinks@[n];
            let m = choose|m: int|
                0 <= m < b.sources@.len() && backlinks::backlink_target(
                    at,
                    text::utf8((#[trigger] b.sources@[m])@),
                ) == source;
            assert(fm.backlinks@[n].sources@[m] == b.sources@[m]);
        }
        if names_back(data, at, label, source) {
            let (n, m) = choose|n: int, m: int|
                #![trigger fm.backlinks@[n].sources@[m]]
                0 <= n < fm.backlinks@.len() && 0 <= m < fm.backlinks@[n].sources@.len()
                    && text::utf8(fm.backlinks@[n].predicate@) == label
                    && backlinks::backlink_target(
                    at,
                    text::utf8(fm.backlinks@[n].sources@[m]@),
                ) == source;
            let b = fm.backlinks@[n];
            assert(backlinks::backlink_target(at, text::utf8(b.sources@[m]@)) == source);
            assert(backlinks::declared_by(b, at, label, source));
        }
    }
}

proof fn lemma_calls(
    ws: Graph,
    i: int,
    k: int,
    target: Seq<u8>,
    label: Seq<u8>,
    source: Seq<u8>,
)
    ensures
        reciprocity::calls_for(ws, i, k, target, label, source) == (has_document(ws, target)
            && source == ws.files.names[i] && has_link(ws, i, k) && exists|p: Seq<u8>|
            ws.config.opposite(p) == Some(label) && #[trigger] points_at(ws, i, k, target, p)),
{
    lemma_has_document(ws, target);
    if has_link(ws, i, k) {
        let link = ws.files.data[i].links@[k];
        if let LinkKind::IntraProject { target: t, fragment, predicate: p, explicit_predicate } =
            link.kind {
            assert(points_at(ws, i, k, path::named(t@), text::utf8(p@)));
        }
    }
}

/// A backlink is expected in a document, under a label and from a source, exactly if
/// some link of the source leads to the document under the opposite of the label.
pub proof fn law_links_call_for_backlinks(
    ws: Graph,
    target: Seq<u8>,
    label: Seq<u8>,
    source: Seq<u8>,
)
    ensures
        reciprocity::is_owed(ws, target, label, source) == (has_document(ws, target) && exists|
            i: int,
            k: int,
            p: Seq<u8>,
        |
            #![trigger points_at(ws, i, k, target, p)]
            points_at(ws, i, k, target, p) && ws.files.names[i] == source && ws.config.opposite(p)
                == Some(label)),
{
    if reciprocity::is_owed(ws, target, label, source) {
        let (i, k) = choose|i: int, k: int| #[trigger]
            reciprocity::calls_for(ws, i, k, target, label, source);
        lemma_calls(ws, i, k, target, label, source);
        let p = choose|p: Seq<u8>|
            ws.config.opposite(p) == Some(label) && #[trigger] points_at(ws, i, k, target, p);
        assert(points_at(ws, i, k, target, p));
    }
    if has_document(ws, target) && exists|i: int, k: int, p: Seq<u8>|
        #![trigger points_at(ws, i, k, target, p)]
        points_at(ws, i, k, target, p) && ws.files.names[i] == source && ws.config.opposite(p)
            == Some(label) {
        let (i, k, p) = choose|i: int, k: int, p: Seq<u8>|
            #![trigger points_at(ws, i, k, target, p)]
            points_at(ws, i, k, target, p) && ws.files.names[i] == source && ws.config.opposite(p)
                == Some(label);
        lemma_calls(ws, i, k, target, label, source);
        assert(reciprocity::calls_for(ws, i, k, target, label, source));
    }
}

proof fn lemma_missing(ws: Graph, list: Seq<backlinks::ExpectedView>, x: int, d: DiagView)
    requires
        0 <= x < list.len(),
        backlinks::missing_report(ws, list[x]).contains(d),
    ensures
        backlinks::missing_reports(ws, list).contains(d),
    decreases list.len(),
{
    if x < list.len() - 1 {
        assert(list.drop_last()[x] == list[x]);
        lemma_missing(ws, list.drop_last(), x, d);
    }
    diagnostic::lemma_either(
        backlinks::missing_reports(ws, list.drop_last()),
        backlinks::missing_report(ws, list.last()),
        d,
    );
}

/// A link to a document that neither names the source in its frontmatter, under the
/// opposite of the link's predicate, nor links back under it, is reported, with what
/// is missing and where; at the link itself, where no other link of the source calls
/// for the same.
pub proof fn law_missing_backlinks_are_reported(
    ws: Graph,
    on_disk: Map<Seq<u8>, ()>,
    i: int,
    k: int,
    j: int,
    predicate: Seq<u8>,
    label: Seq<u8>,
)
    requires
        ws.has_config,
        ws.config.policy.backlinks,
        ws.files.names.no_duplicates(),
        0 <= j < ws.files.names.len(),
        points_at(ws, i, k, ws.files.names[j], predicate),
        ws.config.opposite(predicate) == Some(label),
        !names_back(ws.files.data[j], ws.files.names[j], label, ws.files.names[i]),
        forall|m: int| !#[trigger] points_at(ws, j, m, ws.files.names[i], label),
        forall|m: int, p: Seq<u8>|
            m != k && ws.config.opposite(p) == Some(label) ==> !#[trigger] points_at(
                ws,
                i,
                m,
                ws.files.names[j],
                p,
            ),
    ensures
        is_reported(
            ws,
            on_disk,
            at_link(
                ws,
                i,
                k,
                Severity::Warning,
                text::utf8("expected backlink `"@) + label + text::utf8("` in `"@)
                    + backlinks::relative_path(ws.files.names[i], ws.files.names[j]) + text::utf8(
                    "`"@,
                ),
            ),
        ),
{
    let target = ws.files.names[j];
    let source = ws.files.names[i];
    let list = backlinks::all_expected(ws);
    let n = ws.files.keys().len() as int;
    lemma_at(ws, j);
    lemma_has_document(ws, target);
    lemma_calls(ws, i, k, target, label, source);
    assert(reciprocity::calls_for(ws, i, k, target, label, source));
    reciprocity::law_a_backlink_is_asked_for_once(ws);
    let e = reciprocity::owed_by(ws, i, k)->0;
    assert(reciprocity::earlier(i, k, n, 0));
    assert(reciprocity::covered(list, e));
    let x = choose|x: int|
        0 <= x < list.len() && backlinks::same_backlink(
            #[trigger] list[x],
            e.target,
            e.label,
            e.source,
        ) && list[x].line <= e.line;
    assert(reciprocity::called_before(ws, list[x], n, 0));
    let (a, b) = choose|a: int, b: int|
        reciprocity::earlier(a, b, n, 0) && #[trigger] reciprocity::owed_by(ws, a, b) == Some(
            list[x],
        );
    assert(reciprocity::calls_for(ws, a, b, target, label, source));
    lemma_calls(ws, a, b, target, label, source);
    let p = choose|p: Seq<u8>|
        ws.config.opposite(p) == Some(label) && #[trigger] points_at(ws, a, b, target, p);
    assert(a == i);
    assert(b == k);
    assert(list[x] == e);
    lemma_names_back(ws.files.data[j], target, label, source);
    assert(!backlinks::links_to(ws.files.data[j], source, label)) by {
        let data = ws.files.data[j];
        if backlinks::links_to(data, source, label) {
            let m = choose|m: int|
                0 <= m < data.links@.len() && backlinks::is_link_to(
                    #[trigger] data.links@[m],
                    source,
                    label,
                );
            assert(points_at(ws, j, m, source, label));
        }
    }
    assert(!backlinks::satisfied(ws, e));
    let d = at_link(
        ws,
        i,
        k,
        Severity::Warning,
        text::utf8("expected backlink `"@) + label + text::utf8("` in `"@)
            + backlinks::relative_path(source, target) + text::utf8("`"@),
    );
    assert(backlinks::missing_report(ws, list[x])[0] == d);
    lemma_missing(ws, list, x, d);
    diagnostic::lemma_either(
        backlinks::missing_reports(ws, list),
        backlinks::stale_reports(ws, list, n),
        d,
    );
    validation::law_everything_is_collected(ws, on_disk, d);
}

proof fn lemma_stale_sources(
    expected: Seq<backlinks::ExpectedView>,
    file: Seq<u8>,
    line: usize,
    label: Seq<u8>,
    sources: Seq<String>,
    m: int,
    d: DiagView,
)
    requires
        0 <= m < sources.len(),
        backlinks::stale_report(
            expected,
            file,
            line,
            label,
            text::utf8(sources[m]@),
        ).contains(d),
    ensures
        backlinks::stale_by_sources(expected, file, line, label, sources).contains(d),
    decreases sources.len(),
{
    let most = sources.drop_last();
    if m < sources.len() - 1 {
        assert(most[m] == sources[m]);
        lemma_stale_sources(expected, file, line, label, most, m, d);
    }
    diagnostic::lemma_either(
        backlinks::stale_by_sources(expected, file, line, label, most),
        backlinks::stale_report(expected, file, line, label, text::utf8(sources.last()@)),
        d,
    );
}

proof fn lemma_stale_labels(
    expected: Seq<backlinks::ExpectedView>,
    file: Seq<u8>,
    line: usize,
    list: Seq<Backlinks>,
    n: int,
    d: DiagView,
)
    requires
        0 <= n < list.len(),
        backlinks::stale_by_sources(
            expected,
            file,
            line,
            text::utf8(list[n].predicate@),
            list[n].sources@,
        ).contains(d),
    ensures
        backlinks::stale_by_labels(expected, file, line, list).contains(d),
    decreases list.len(),
{
    let most = list.drop_last();
    if n < list.len() - 1 {
        assert(most[n] == list[n]);
        lemma_stale_labels(expected, file, line, most, n, d);
    }
    diagnostic::lemma_either(
        backlinks::stale_by_labels(expected, file, line, most),
        backlinks::stale_by_sources(
            expected,
            file,
            line,
            text::utf8(list.last().predicate@),
            list.last().sources@,
        ),
        d,
    );
}

proof fn lemma_stale_files(
    ws: Graph,
    expected: Seq<backlinks::ExpectedView>,
    n: int,
    j: int,
    d: DiagView,
)
    requires
        0 <= j < n,
        ws.files.data[j].frontmatter matches Some(fm) && backlinks::stale_by_labels(
            expected,
            ws.files.names[j],
            fm.start_line,
            fm.backlinks@,
        ).contains(d),
    ensures
        backlinks::stale_reports(ws, expected, n).contains(d),
    decreases n,
{
    if j < n - 1 {
        lemma_stale_files(ws, expected, n - 1, j, d);
    }
    diagnostic::lemma_either(
        backlinks::stale_reports(ws, expected, n - 1),
        match ws.files.values()[n - 1].frontmatter {
            Some(fm) => backlinks::stale_by_labels(
                expected,
                ws.files.keys()[n - 1],
                fm.start_line,
                fm.backlinks@,
            ),
            None => Seq::empty(),
        },
        d,
    );
}

/// What frontmatter names under a label is reported where no link of that document
/// leads here under the opposite of the label.
pub proof fn law_stale_backlinks_are_reported(
    ws: Graph,
    on_disk: Map<Seq<u8>, ()>,
    j: int,
    n: int,
    m: int,
    label: Seq<u8>,
    written: Seq<u8>,
)
    requires
        ws.has_config,
        ws.config.policy.backlinks,
        0 <= j < ws.files.names.len(),
        ws.files.data[j].frontmatter matches Some(fm) && 0 <= n < fm.backlinks@.len() && 0 <= m
            < fm.backlinks@[n].sources@.len() && text::utf8(fm.backlinks@[n].predicate@) == label
            && text::utf8(fm.backlinks@[n].sources@[m]@) == written,
        forall|i: int, k: int, p: Seq<u8>|
            #![trigger points_at(ws, i, k, ws.files.names[j], p)]
            points_at(ws, i, k, ws.files.names[j], p) && ws.config.opposite(p) == Some(label)
                ==> ws.files.names[i] != backlinks::backlink_target(ws.files.names[j], written),
    ensures
        is_reported(
            ws,
            on_disk,
            DiagView {
                file: ws.files.names[j],
                line: ws.files.data[j].frontmatter->0.start_line as nat,
                severity: Severity::Warning,
                message: text::utf8("backlink `"@) + label + text::utf8("` from `"@) + written
                    + text::utf8("` has no corresponding forward link"@),
                span: None,
            },
        ),
{
    let file = ws.files.names[j];
    let fm = ws.files.data[j].frontmatter->0;
    let source = backlinks::backlink_target(file, written);
    let expected = backlinks::all_expected(ws);
    law_links_call_for_backlinks(ws, file, label, source);
    reciprocity::law_backlinks_are_owed_to_links(ws, file, label, source);
    let d = DiagView {
        file,
        line: fm.start_line as nat,
        severity: Severity::Warning,
        message: text::utf8("backlink `"@) + label + text::utf8("` from `"@) + written
            + text::utf8("` has no corresponding forward link"@),
        span: None,
    };
    assert(backlinks::stale_report(expected, file, fm.start_line, label, written)[0] == d);
    lemma_stale_sources(expected, file, fm.start_line, label, fm.backlinks@[n].sources@, m, d);
    lemma_stale_labels(expected, file, fm.start_line, fm.backlinks@, n, d);
    lemma_stale_files(ws, expected, ws.files.keys().len() as int, j, d);
    diagnostic::lemma_either(
        backlinks::missing_reports(ws, expected),
        backlinks::stale_reports(ws, expected, ws.files.keys().len() as int),
        d,
    );
    validation::law_everything_is_collected(ws, on_disk, d);
}

/// A predicate of a document's frontmatter that the vocabulary lacks is reported on
/// its line.
pub proof fn law_unknown_backlink_predicates_are_reported(
    ws: Graph,
    on_disk: Map<Seq<u8>, ()>,
    i: int,
    k: int,
)
    requires
        ws.has_config,
        0 <= i < ws.files.names.len(),
        0 <= k < ws.files.data[i].unknown.len(),
    ensures
        is_reported(
            ws,
            on_disk,
            DiagView {
                file: ws.files.names[i],
                line: ws.files.data[i].unknown[k].line,
                severity: Severity::Error,
                message: text::utf8("unknown backlink predicate `"@)
                    + ws.files.data[i].unknown[k].predicate + text::utf8("`"@),
                span: None,
            },
        ),
{
    let file = ws.files.names[i];
    let list = ws.files.data[i].unknown;
    let d = DiagView {
        file,
        line: list[k].line,
        severity: Severity::Error,
        message: text::utf8("unknown backlink predicate `"@) + list[k].predicate + text::utf8("`"@),
        span: None,
    };
    lemma_unknown(file, list, list.len() as int, k);
    let rows = validation::unknown_reports(file, list, list.len() as int);
    assert(rows[k] == d);
    assert(validation::unknown_reports(
        ws.files.keys()[i],
        ws.files.values()[i].unknown,
        ws.files.values()[i].unknown.len() as int,
    ).contains(d));
    validation::law_everything_is_collected(ws, on_disk, d);
}

proof fn lemma_unknown(file: Seq<u8>, list: Seq<Unknown>, n: int, k: int)
    requires
        0 <= k < n <= list.len(),
    ensures
        validation::unknown_reports(file, list, n).len() == n,
        validation::unknown_reports(file, list, n)[k] == (DiagView {
            file,
            line: list[k].line,
            severity: Severity::Error,
            message: text::utf8("unknown backlink predicate `"@) + list[k].predicate + text::utf8(
                "`"@,
            ),
            span: None,
        }),
    decreases n,
{
    lemma_unknown_len(file, list, n - 1);
    if k < n - 1 {
        lemma_unknown(file, list, n - 1, k);
    }
}

proof fn lemma_unknown_len(file: Seq<u8>, list: Seq<Unknown>, n: int)
    requires
        0 <= n,
    ensures
        validation::unknown_reports(file, list, n).len() == n,
    decreases n,
{
    if n > 0 {
        lemma_unknown_len(file, list, n - 1);
    }
}

// Bare paths.

proof fn lemma_bare_rows(list: Seq<DiagView>, d: DiagView)
    ensures
        validation::bare_rows(list).contains(d) <==> list.contains(d) && shown::is_of(
            d.message,
            ExceptionLint::BarePaths,
        ),
    decreases list.len(),
{
    if list.len() > 0 {
        let rest = list.drop_last();
        let before = validation::bare_rows(rest);
        let after = validation::bare_rows(list);
        lemma_bare_rows(rest, d);
        shown::law_lints_are_told_by_their_words(list.last().message, ExceptionLint::BarePaths);
        assert(rest.push(list.last()) =~= list);
        diagnostic::lemma_either(rest, seq![list.last()], d);
        assert(rest + seq![list.last()] =~= list);
        if shown::is_of(list.last().message, ExceptionLint::BarePaths) {
            diagnostic::lemma_either(before, seq![list.last()], d);
            assert(before + seq![list.last()] =~= after);
        }
        assert(seq![list.last()].contains(d) <==> d == list.last()) by {
            assert(seq![list.last()][0] == list.last());
        }
    }
}

/// What was found in a document about paths and URLs that should be links is reported
/// with the project, all of it; of its other findings about its text none is among
/// these.
pub proof fn law_bare_paths_are_collected(
    ws: Graph,
    on_disk: Map<Seq<u8>, ()>,
    i: int,
    d: DiagView,
)
    requires
        ws.has_config,
        0 <= i < ws.files.keys().len(),
        ws.files.values()[i].structural.contains(d),
    ensures
        shown::is_of(d.message, ExceptionLint::BarePaths) ==> diagnostic::in_report_order(
            validation::all_findings(ws, on_disk),
        ).contains(d),
        validation::bare_rows(ws.files.values()[i].structural).contains(d) == shown::is_of(
            d.message,
            ExceptionLint::BarePaths,
        ),
{
    let data = ws.files.values()[i];
    let file = ws.files.keys()[i];
    lemma_bare_rows(data.structural, d);
    diagnostic::lemma_either(
        diagnostic::about(diagnostic::views(data.metadata@), file),
        validation::bare_rows(data.structural),
        d,
    );
    validation::law_everything_is_collected(ws, on_disk, d);
    if shown::is_of(d.message, ExceptionLint::BarePaths) {
        assert(validation::document_rows(file, data).contains(d));
    }
}

} // verus!

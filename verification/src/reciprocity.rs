//! What holds of links and backlinks over a whole workspace.
use vstd::prelude::*;
use crate::backlinks;
use crate::backlinks::ExpectedView;
use crate::config::Config;
use crate::diagnostic;
use crate::diagnostic::DiagView;
use crate::path;
use crate::span::Span;
use crate::text;
use crate::validation;
use crate::workspace::{Graph, Link, LinkKind};

verus! {

// What is owed.

/// The links of the document at index `i`.
pub open spec fn links_of(ws: Graph, i: int) -> Seq<Link> {
    ws.files.values()[i].links@
}

/// The backlink that link `k` of document `i` calls for.
pub open spec fn owed_by(ws: Graph, i: int, k: int) -> Option<ExpectedView> {
    if 0 <= i < ws.files.keys().len() && 0 <= k < links_of(ws, i).len() {
        backlinks::called_for(ws, ws.files.keys()[i], links_of(ws, i)[k])
    } else {
        None
    }
}

/// Whether link `k` of document `i` calls for a backlink.
pub open spec fn calls_for(
    ws: Graph,
    i: int,
    k: int,
    target: Seq<u8>,
    label: Seq<u8>,
    source: Seq<u8>,
) -> bool {
    owed_by(ws, i, k) matches Some(e) && backlinks::same_backlink(e, target, label, source)
}

/// Whether some link of a workspace calls for a backlink.
pub open spec fn is_owed(ws: Graph, target: Seq<u8>, label: Seq<u8>, source: Seq<u8>) -> bool {
    exists|i: int, k: int| #[trigger] calls_for(ws, i, k, target, label, source)
}

/// Whether link `k` of document `i` comes before link `m` of document `n`.
pub open spec fn earlier(i: int, k: int, n: int, m: int) -> bool {
    i < n || (i == n && k < m)
}

/// Whether a link before link `m` of document `n` calls for a backlink.
pub open spec fn called_before(ws: Graph, e: ExpectedView, n: int, m: int) -> bool {
    exists|i: int, k: int| earlier(i, k, n, m) && #[trigger] owed_by(ws, i, k) == Some(e)
}

/// Whether a list has, of every backlink that the links before link `m` of
/// document `n` call for, one expectation: that of the earliest line.
pub open spec fn settled(ws: Graph, list: Seq<ExpectedView>, n: int, m: int) -> bool {
    &&& forall|x: int, y: int|
        0 <= x < y < list.len() ==> !backlinks::same_backlink(
            #[trigger] list[x],
            (#[trigger] list[y]).target,
            list[y].label,
            list[y].source,
        )
    &&& forall|x: int|
        0 <= x < list.len() ==> called_before(ws, #[trigger] list[x], n, m)
    &&& forall|i: int, k: int|
        earlier(i, k, n, m) && (#[trigger] owed_by(ws, i, k)) is Some ==> covered(
            list,
            owed_by(ws, i, k)->0,
        )
}

/// Whether a list expects a backlink, on a line no later.
pub open spec fn covered(list: Seq<ExpectedView>, e: ExpectedView) -> bool {
    exists|x: int|
        0 <= x < list.len() && backlinks::same_backlink(
            #[trigger] list[x],
            e.target,
            e.label,
            e.source,
        ) && list[x].line <= e.line
}

proof fn lemma_expectation_of(
    list: Seq<ExpectedView>,
    target: Seq<u8>,
    label: Seq<u8>,
    source: Seq<u8>,
    k: int,
)
    requires
        0 <= k <= list.len(),
    ensures
        match backlinks::expectation_of(list, target, label, source, k) {
            Some(x) => k <= x < list.len() && backlinks::same_backlink(
                list[x],
                target,
                label,
                source,
            ),
            None => forall|x: int|
                k <= x < list.len() ==> !backlinks::same_backlink(
                    #[trigger] list[x],
                    target,
                    label,
                    source,
                ),
        },
    decreases list.len() - k,
{
    if k < list.len() && !backlinks::same_backlink(list[k], target, label, source) {
        lemma_expectation_of(list, target, label, source, k + 1);
    }
}

proof fn lemma_step(ws: Graph, list: Seq<ExpectedView>, n: int, m: int)
    requires
        settled(ws, list, n, m),
        0 <= n < ws.files.keys().len(),
        0 <= m < links_of(ws, n).len(),
    ensures
        settled(
            ws,
            match owed_by(ws, n, m) {
                Some(e) => backlinks::expecting(list, e),
                None => list,
            },
            n,
            m + 1,
        ),
{
    let next = match owed_by(ws, n, m) {
        Some(e) => backlinks::expecting(list, e),
        None => list,
    };
    if let Some(e) = owed_by(ws, n, m) {
        lemma_expectation_of(list, e.target, e.label, e.source, 0);
        let found = backlinks::expectation_of(list, e.target, e.label, e.source, 0);
        assert forall|x: int| 0 <= x < next.len() implies called_before(
            ws,
            #[trigger] next[x],
            n,
            m + 1,
        ) by {
            if next[x] == e {
                assert(earlier(n, m, n, m + 1));
            } else {
                assert(next[x] == list[x]);
                assert(called_before(ws, list[x], n, m));
                let (i, k) = choose|i: int, k: int|
                    earlier(i, k, n, m) && #[trigger] owed_by(ws, i, k) == Some(list[x]);
                assert(earlier(i, k, n, m + 1));
            }
        }
        assert forall|i: int, k: int|
            earlier(i, k, n, m + 1) && (#[trigger] owed_by(ws, i, k)) is Some implies covered(
            next,
            owed_by(ws, i, k)->0,
        ) by {
            let o = owed_by(ws, i, k)->0;
            if i == n && k == m {
                match found {
                    Some(x) => {
                        assert(backlinks::same_backlink(next[x], e.target, e.label, e.source));
                    },
                    None => {
                        assert(next[list.len() as int] == e);
                    },
                }
            } else {
                assert(earlier(i, k, n, m));
                assert(covered(list, o));
                let x = choose|x: int|
                    0 <= x < list.len() && backlinks::same_backlink(
                        #[trigger] list[x],
                        o.target,
                        o.label,
                        o.source,
                    ) && list[x].line <= o.line;
                assert(backlinks::same_backlink(next[x], o.target, o.label, o.source));
            }
        }
    } else {
        assert forall|x: int| 0 <= x < next.len() implies called_before(
            ws,
            #[trigger] next[x],
            n,
            m + 1,
        ) by {
            assert(called_before(ws, list[x], n, m));
            let (i, k) = choose|i: int, k: int|
                earlier(i, k, n, m) && #[trigger] owed_by(ws, i, k) == Some(list[x]);
            assert(earlier(i, k, n, m + 1));
        }
        assert forall|i: int, k: int|
            earlier(i, k, n, m + 1) && (#[trigger] owed_by(ws, i, k)) is Some implies covered(
            next,
            owed_by(ws, i, k)->0,
        ) by {
            assert(earlier(i, k, n, m));
        }
    }
}

proof fn lemma_by_links(ws: Graph, n: int, m: int)
    requires
        0 <= n < ws.files.keys().len(),
        0 <= m <= links_of(ws, n).len(),
    ensures
        settled(
            ws,
            backlinks::expected_by_links(
                ws,
                ws.files.keys()[n],
                links_of(ws, n).take(m),
                backlinks::expected_by_files(ws, n),
            ),
            n,
            m,
        ),
    decreases n, m + 1,
{
    let links = links_of(ws, n);
    if m == 0 {
        lemma_by_files(ws, n);
    } else {
        lemma_by_links(ws, n, m - 1);
        assert(links.take(m).drop_last() =~= links.take(m - 1));
        assert(links.take(m).last() == links[m - 1]);
        lemma_step(
            ws,
            backlinks::expected_by_links(
                ws,
                ws.files.keys()[n],
                links.take(m - 1),
                backlinks::expected_by_files(ws, n),
            ),
            n,
            m - 1,
        );
    }
}

proof fn lemma_by_files(ws: Graph, n: int)
    requires
        0 <= n <= ws.files.keys().len(),
    ensures
        settled(ws, backlinks::expected_by_files(ws, n), n, 0),
    decreases n, 0int,
{
    let list = backlinks::expected_by_files(ws, n);
    if n == 0 {
        assert forall|i: int, k: int|
            earlier(i, k, 0, 0) && (#[trigger] owed_by(ws, i, k)) is Some implies covered(
            list,
            owed_by(ws, i, k)->0,
        ) by {}
    } else {
        let last = links_of(ws, n - 1);
        lemma_by_links(ws, n - 1, last.len() as int);
        assert(last.take(last.len() as int) =~= last);
        assert(settled(ws, list, n - 1, last.len() as int));
        assert forall|x: int| 0 <= x < list.len() implies called_before(
            ws,
            #[trigger] list[x],
            n,
            0,
        ) by {
            assert(called_before(ws, list[x], n - 1, last.len() as int));
            let (i, k) = choose|i: int, k: int|
                earlier(i, k, n - 1, last.len() as int) && #[trigger] owed_by(ws, i, k) == Some(
                    list[x],
                );
            assert(earlier(i, k, n, 0));
        }
        assert forall|i: int, k: int|
            earlier(i, k, n, 0) && (#[trigger] owed_by(ws, i, k)) is Some implies covered(
            list,
            owed_by(ws, i, k)->0,
        ) by {
            assert(earlier(i, k, n - 1, last.len() as int));
        }
    }
}

/// A backlink is expected exactly where a link calls for it.
pub proof fn law_backlinks_are_owed_to_links(
    ws: Graph,
    target: Seq<u8>,
    label: Seq<u8>,
    source: Seq<u8>,
)
    ensures
        backlinks::is_expected(backlinks::all_expected(ws), target, label, source) == is_owed(
            ws,
            target,
            label,
            source,
        ),
{
    let n = ws.files.keys().len() as int;
    let list = backlinks::all_expected(ws);
    lemma_by_files(ws, n);
    lemma_expectation_of(list, target, label, source, 0);
    if let Some(x) = backlinks::expectation_of(list, target, label, source, 0) {
        assert(called_before(ws, list[x], n, 0));
        let (i, k) = choose|i: int, k: int|
            earlier(i, k, n, 0) && #[trigger] owed_by(ws, i, k) == Some(list[x]);
        assert(calls_for(ws, i, k, target, label, source));
    } else if is_owed(ws, target, label, source) {
        let (i, k) = choose|i: int, k: int| #[trigger] calls_for(ws, i, k, target, label, source);
        let e = owed_by(ws, i, k)->0;
        assert(earlier(i, k, n, 0));
        assert(covered(list, e));
        let x = choose|x: int|
            0 <= x < list.len() && backlinks::same_backlink(
                #[trigger] list[x],
                e.target,
                e.label,
                e.source,
            ) && list[x].line <= e.line;
        assert(backlinks::same_backlink(list[x], target, label, source));
    }
}

/// Links that call for the same backlink call for it once, at the earliest of
/// their lines, and what is expected at a line is what a link there calls for.
pub proof fn law_a_backlink_is_asked_for_once(ws: Graph)
    ensures
        settled(ws, backlinks::all_expected(ws), ws.files.keys().len() as int, 0),
{
    lemma_by_files(ws, ws.files.keys().len() as int);
}

// Missing backlinks.

proof fn lemma_missing(ws: Graph, list: Seq<ExpectedView>, d: DiagView)
    ensures
        backlinks::missing_reports(ws, list).contains(d) == exists|x: int|
            0 <= x < list.len() && backlinks::missing_report(ws, #[trigger] list[x]).contains(d),
    decreases list.len(),
{
    if list.len() > 0 {
        let most = list.drop_last();
        lemma_missing(ws, most, d);
        let a = backlinks::missing_reports(ws, most);
        let b = backlinks::missing_report(ws, list.last());
        diagnostic::lemma_either(a, b, d);
        if exists|x: int|
            0 <= x < list.len() && backlinks::missing_report(ws, #[trigger] list[x]).contains(d) {
            let x = choose|x: int|
                0 <= x < list.len() && backlinks::missing_report(ws, #[trigger] list[x]).contains(d);
            if x < most.len() {
                assert(most[x] == list[x]);
            }
        }
        if a.contains(d) {
            let x = choose|x: int|
                0 <= x < most.len() && backlinks::missing_report(ws, #[trigger] most[x]).contains(d);
            assert(most[x] == list[x]);
        }
    }
}

/// A backlink is missed exactly where it is expected and its target neither
/// names the source in its frontmatter nor links back to it.
pub proof fn law_missing_backlinks_are_reported(ws: Graph, d: DiagView)
    ensures
        backlinks::missing_reports(ws, backlinks::all_expected(ws)).contains(d) == exists|x: int|
            0 <= x < backlinks::all_expected(ws).len() && !backlinks::satisfied(
                ws,
                #[trigger] backlinks::all_expected(ws)[x],
            ) && backlinks::missing_report(ws, backlinks::all_expected(ws)[x]) == seq![d],
{
    let list = backlinks::all_expected(ws);
    lemma_missing(ws, list, d);
    assert forall|x: int| 0 <= x < list.len() implies backlinks::missing_report(
        ws,
        #[trigger] list[x],
    ).contains(d) == (!backlinks::satisfied(ws, list[x]) && backlinks::missing_report(ws, list[x])
        == seq![d]) by {
        let r = backlinks::missing_report(ws, list[x]);
        if !backlinks::satisfied(ws, list[x]) {
            assert(r.len() == 1);
            if r.contains(d) {
                assert(r =~= seq![d]);
            }
            if r == seq![d] {
                assert(r[0] == d);
            }
        }
    }
}

// Stale backlinks.

/// A source under a label is called stale exactly where no link calls for the
/// backlink, so one that answers a link never is.
pub proof fn law_answers_are_not_stale(
    ws: Graph,
    file: Seq<u8>,
    start_line: usize,
    label: Seq<u8>,
    written: Seq<u8>,
)
    ensures
        backlinks::stale_report(backlinks::all_expected(ws), file, start_line, label, written)
            == Seq::<DiagView>::empty() <==> is_owed(
            ws,
            file,
            label,
            backlinks::backlink_target(file, written),
        ),
{
    let source = backlinks::backlink_target(file, written);
    law_backlinks_are_owed_to_links(ws, file, label, source);
    if !backlinks::is_expected(backlinks::all_expected(ws), file, label, source) {
        let r = backlinks::stale_report(
            backlinks::all_expected(ws),
            file,
            start_line,
            label,
            written,
        );
        assert(r.len() == 1);
    }
}

/// A link whose predicate is unknown, or whose target is no document, calls for
/// no backlink; nor does any but a link between documents.
pub proof fn law_broken_links_call_for_nothing(ws: Graph, source: Seq<u8>, link: Link)
    ensures
        match link.kind {
            LinkKind::IntraProject { target, predicate, .. } => backlinks::called_for(
                ws,
                source,
                link,
            ) is Some <==> ws.config.opposite(text::utf8(predicate@)) is Some
                && ws.files@.contains_key(path::named(target@)),
            _ => backlinks::called_for(ws, source, link) is None,
        },
{
}

/// Two documents that link to each other under the two predicates of a pair owe
/// each other nothing more.
pub proof fn law_links_back_answer(
    ws: Graph,
    source: Seq<u8>,
    link: Link,
    back: Link,
    at: int,
)
    requires
        backlinks::called_for(ws, source, link) matches Some(e) && 0 <= at
            < ws.files@[e.target].links@.len() && ws.files@[e.target].links@[at] == back
            && backlinks::is_link_to(back, source, e.label),
    ensures
        backlinks::missing_report(ws, backlinks::called_for(ws, source, link)->0) == Seq::<
            DiagView,
        >::empty(),
{
    let e = backlinks::called_for(ws, source, link)->0;
    assert(backlinks::is_link_to(ws.files@[e.target].links@[at], source, e.label));
    assert(backlinks::links_to(ws.files@[e.target], e.source, e.label));
}

/// Without the policy nothing is said of backlinks.
pub proof fn law_backlinks_can_be_off(ws: Graph)
    requires
        !ws.config.policy.backlinks,
    ensures
        backlinks::all_backlinks(ws) == Seq::<DiagView>::empty(),
{
}

// Forward links.

/// A predicate that the vocabulary knows, as a forward predicate or as an
/// inverse, is not reported where it is written out.
pub proof fn law_either_direction_is_known(
    config: Config,
    file: Seq<u8>,
    line: usize,
    span: Span,
    predicate: Seq<u8>,
)
    ensures
        validation::predicate_report(config, file, line, span, predicate, true) == Seq::<
            DiagView,
        >::empty() <==> config.opposite(predicate) is Some,
{
    if config.opposite(predicate) is None {
        let r = validation::predicate_report(config, file, line, span, predicate, true);
        assert(r.len() == 1);
    }
}

/// Links out of the project are never reported.
pub proof fn law_external_links_pass(
    ws: Graph,
    on_disk: Map<Seq<u8>, ()>,
    file: Seq<u8>,
    link: Link,
)
    requires
        link.kind is External,
    ensures
        validation::link_report(ws, on_disk, file, link) == Seq::<DiagView>::empty(),
{
}

/// The top of a document is always found.
pub proof fn law_the_top_is_found(
    ws: Graph,
    file: Seq<u8>,
    line: usize,
    span: Span,
    target: Seq<u8>,
    fragment: Seq<u8>,
)
    requires
        validation::means_top(fragment),
    ensures
        validation::fragment_report(ws, file, line, span, target, fragment) == Seq::<
            DiagView,
        >::empty(),
{
}

/// A link whose target is missing is reported for that, and not for a fragment
/// of what is not there.
pub proof fn law_missing_targets_have_no_fragments(
    ws: Graph,
    file: Seq<u8>,
    line: usize,
    span: Span,
    target: Seq<u8>,
    fragment: Seq<u8>,
)
    requires
        !ws.files@.contains_key(path::normal_form(target)),
    ensures
        validation::fragment_report(ws, file, line, span, target, fragment) == Seq::<
            DiagView,
        >::empty(),
{
}

/// Without a configuration nothing is said of a workspace.
pub proof fn law_no_configuration_no_findings(ws: Graph, on_disk: Map<Seq<u8>, ()>)
    requires
        !ws.has_config,
    ensures
        validation::all_findings(ws, on_disk) == Seq::<DiagView>::empty(),
{
}

} // verus!

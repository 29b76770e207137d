//! Backlinks: every link between documents is owed one in return.
use vstd::prelude::*;
use crate::components;
use crate::diagnostic;
use crate::diagnostic::{DiagView, Diagnostic, Severity};
use crate::path;
use crate::sorted::SEP;
use crate::span::Span;
use crate::text;
use crate::workspace::{Backlinks, FileData, FileView, Graph, Link, LinkKind, WorkspaceView};

verus! {

/// The path that a backlink names: relative to the document it stands in.
pub open spec fn backlink_target(containing: Seq<u8>, written: Seq<u8>) -> Seq<u8> {
    path::normalized(path::join(path::parent(containing), written))
}

/// Resolve a backlink to a workspace-relative path.
pub fn resolve_backlink_path(containing_file: &str, backlink_path: &str) -> (r: String)
    ensures
        text::utf8(r@) == backlink_target(text::utf8(containing_file@), text::utf8(backlink_path@)),
        text::utf8(r@) == backlink_target(path::named(containing_file@), text::utf8(backlink_path@)),
{
    let joined = path::join_paths(path::parent_dir(containing_file).as_str(), backlink_path);
    path::normalize_path(joined.as_str()).0
}

// Relative paths.

/// The number of leading names that two paths share.
pub open spec fn shared(a: Seq<Seq<u8>>, b: Seq<Seq<u8>>, k: int) -> int
    decreases a.len() - k,
{
    if 0 <= k < a.len() && k < b.len() && a[k] == b[k] {
        shared(a, b, k + 1)
    } else {
        k
    }
}

/// How `to` is written in a document in the directory with the names `from_dir`.
pub open spec fn relative_names(from_dir: Seq<Seq<u8>>, to: Seq<Seq<u8>>) -> Seq<Seq<u8>> {
    let n = shared(from_dir, to, 0);
    Seq::new((from_dir.len() - n) as nat, |i: int| text::utf8(".."@)) + to.skip(n)
}

/// How one file is referred to from another.
pub open spec fn relative_path(from: Seq<u8>, to: Seq<u8>) -> Seq<u8> {
    path::joined(
        relative_names(
            path::segments(path::parent(from)),
            path::segments(to),
        ),
    )
}

fn file_relative(from: &str, to: &str) -> (r: String)
    ensures
        text::utf8(r@) == relative_path(text::utf8(from@), text::utf8(to@)),
{
    let a = path::split_segments(path::parent_dir(from).as_str());
    let b = path::split_segments(to);
    let ghost av = path::texts(a@);
    let ghost bv = path::texts(b@);
    let mut n: usize = 0;
    while n < a.len() && n < b.len() && text::same(a[n].as_str(), b[n].as_str())
        invariant
            n <= a@.len(),
            n <= b@.len(),
            av == path::texts(a@),
            bv == path::texts(b@),
            shared(av, bv, 0) == shared(av, bv, n as int),
        decreases a@.len() - n,
    {
        assert(av[n as int] == text::utf8(a@[n as int]@));
        assert(bv[n as int] == text::utf8(b@[n as int]@));
        n += 1;
    }
    proof {
        if n < a@.len() && n < b@.len() {
            assert(av[n as int] == text::utf8(a@[n as int]@));
            assert(bv[n as int] == text::utf8(b@[n as int]@));
        }
    }
    let mut out: Vec<String> = Vec::new();
    let mut i: usize = n;
    while i < a.len()
        invariant
            n <= i <= a@.len(),
            path::texts(out@) =~= Seq::new((i - n) as nat, |k: int| text::utf8(".."@)),
        decreases a@.len() - i,
    {
        let up = text::owned("..");
        let ghost before = path::texts(out@);
        let ghost v = text::utf8(up@);
        out.push(up);
        assert(path::texts(out@) =~= before.push(v));
        i += 1;
    }
    let ghost ups = path::texts(out@);
    let mut j: usize = n;
    assert(ups + bv.subrange(n as int, n as int) =~= ups);
    while j < b.len()
        invariant
            n <= j <= b@.len(),
            bv == path::texts(b@),
            path::texts(out@) =~= ups + bv.subrange(n as int, j as int),
        decreases b@.len() - j,
    {
        let name = text::owned(b[j].as_str());
        let ghost before = path::texts(out@);
        let ghost v = text::utf8(name@);
        out.push(name);
        proof {
            assert(path::texts(out@) =~= before.push(v));
            assert(bv[j as int] == v);
        }
        j += 1;
    }
    proof {
        assert(path::texts(out@) =~= relative_names(av, bv));
    }
    path::join_parts(&out)
}

// Expected backlinks.

/// A backlink that a link calls for: in `target`, under `label`, from `source`.
#[derive(Debug)]
pub struct Expected {
    pub target: String,
    pub label: String,
    pub source: String,
    /// The line and the place of the link.
    pub line: usize,
    pub span: Span,
}

/// What an expected backlink says.
#[verifier::ext_equal]
pub struct ExpectedView {
    pub target: Seq<u8>,
    pub label: Seq<u8>,
    pub source: Seq<u8>,
    pub line: nat,
    pub span: Span,
}

pub open spec fn expected_view(e: Expected) -> ExpectedView {
    ExpectedView {
        target: path::named(e.target@),
        label: text::utf8(e.label@),
        source: text::utf8(e.source@),
        line: e.line as nat,
        span: e.span,
    }
}

pub open spec fn expected_views(list: Seq<Expected>) -> Seq<ExpectedView> {
    list.map_values(|e: Expected| expected_view(e))
}

/// Whether an expectation is for the same backlink.
pub open spec fn same_backlink(
    e: ExpectedView,
    target: Seq<u8>,
    label: Seq<u8>,
    source: Seq<u8>,
) -> bool {
    e.target == target && e.label == label && e.source == source
}

/// The first expectation for a backlink, from index `k` on.
pub open spec fn expectation_of(
    list: Seq<ExpectedView>,
    target: Seq<u8>,
    label: Seq<u8>,
    source: Seq<u8>,
    k: int,
) -> Option<int>
    decreases list.len() - k,
{
    if k < 0 || k >= list.len() {
        None
    } else if same_backlink(list[k], target, label, source) {
        Some(k)
    } else {
        expectation_of(list, target, label, source, k + 1)
    }
}

/// The expectations after one more: of two links that call for the same
/// backlink the one on the earlier line counts.
pub open spec fn expecting(list: Seq<ExpectedView>, e: ExpectedView) -> Seq<ExpectedView> {
    match expectation_of(list, e.target, e.label, e.source, 0) {
        None => list.push(e),
        Some(k) => if e.line < list[k].line {
            list.update(k, e)
        } else {
            list
        },
    }
}

/// The backlink that a link calls for: none where its target does not exist or
/// its predicate is unknown. The label is the opposite of the predicate.
pub open spec fn called_for(ws: Graph, source: Seq<u8>, link: Link) -> Option<
    ExpectedView,
> {
    match link.kind {
        LinkKind::IntraProject { target, predicate, .. } => match ws.config.opposite(
            text::utf8(predicate@),
        ) {
            Some(label) if ws.files@.contains_key(path::named(target@)) => Some(
                ExpectedView {
                    target: path::named(target@),
                    label,
                    source,
                    line: link.line as nat,
                    span: link.span,
                },
            ),
            _ => None,
        },
        _ => None,
    }
}

/// The expectations after a list of links.
pub open spec fn expected_by_links(
    ws: Graph,
    source: Seq<u8>,
    links: Seq<Link>,
    start: Seq<ExpectedView>,
) -> Seq<ExpectedView>
    decreases links.len(),
{
    if links.len() == 0 {
        start
    } else {
        let so_far = expected_by_links(ws, source, links.drop_last(), start);
        match called_for(ws, source, links.last()) {
            Some(e) => expecting(so_far, e),
            None => so_far,
        }
    }
}

/// The expectations after the first `n` documents.
pub open spec fn expected_by_files(ws: Graph, n: int) -> Seq<ExpectedView>
    decreases n,
{
    if n <= 0 {
        Seq::empty()
    } else {
        expected_by_links(
            ws,
            ws.files.keys()[n - 1],
            ws.files.values()[n - 1].links@,
            expected_by_files(ws, n - 1),
        )
    }
}

/// The backlinks that the links of a workspace call for.
pub open spec fn all_expected(ws: Graph) -> Seq<ExpectedView> {
    expected_by_files(ws, ws.files.keys().len() as int)
}

fn find_expected(list: &Vec<Expected>, target: &str, label: &str, source: &str) -> (r: Option<
    usize,
>)
    ensures
        match r {
            Some(k) => expectation_of(
                expected_views(list@),
                text::utf8(target@),
                text::utf8(label@),
                text::utf8(source@),
                0,
            ) == Some(k as int) && k < list@.len(),
            None => expectation_of(
                expected_views(list@),
                text::utf8(target@),
                text::utf8(label@),
                text::utf8(source@),
                0,
            ) is None,
        },
{
    let ghost views = expected_views(list@);
    let ghost t = text::utf8(target@);
    let ghost l = text::utf8(label@);
    let ghost s = text::utf8(source@);
    let mut k: usize = 0;
    while k < list.len()
        invariant
            k <= list@.len(),
            views == expected_views(list@),
            t == text::utf8(target@),
            l == text::utf8(label@),
            s == text::utf8(source@),
            expectation_of(views, t, l, s, 0) == expectation_of(views, t, l, s, k as int),
        decreases list@.len() - k,
    {
        assert(views[k as int] == expected_view(list@[k as int]));
        let there = path::normal(list[k].target.as_str());
        if text::same(there.as_str(), target) && text::same(list[k].label.as_str(), label)
            && text::same(list[k].source.as_str(), source) {
            return Some(k);
        }
        k += 1;
    }
    None
}

/// Whether the documents that call for backlinks are named by normal paths.
spec fn sources_normal(list: Seq<Expected>) -> bool {
    forall|k: int|
        0 <= k < list.len() ==> path::named((#[trigger] list[k]).source@) == text::utf8(
            list[k].source@,
        )
}

fn expect_backlink(list: &mut Vec<Expected>, e: Expected)
    requires
        sources_normal(old(list)@),
        path::named(e.source@) == text::utf8(e.source@),
    ensures
        sources_normal(final(list)@),
        expected_views(final(list)@) == expecting(expected_views(old(list)@), expected_view(e)),
{
    let ghost before = expected_views(list@);
    let ghost v = expected_view(e);
    let target = path::normal(e.target.as_str());
    match find_expected(list, target.as_str(), e.label.as_str(), e.source.as_str()) {
        Some(k) => {
            assert(before[k as int] == expected_view(list@[k as int]));
            if e.line < list[k].line {
                list.set(k, e);
                assert(expected_views(list@) =~= before.update(k as int, v));
            }
        },
        None => {
            list.push(e);
            assert(expected_views(list@) =~= before.push(v));
        },
    }
}

fn expect_from_links(
    ws: &WorkspaceView<'_>,
    source: &str,
    links: &Vec<Link>,
    list: &mut Vec<Expected>,
)
    requires
        sources_normal(old(list)@),
        path::named(source@) == text::utf8(source@),
    ensures
        sources_normal(final(list)@),
        expected_views(final(list)@) == expected_by_links(
            ws@,
            text::utf8(source@),
            links@,
            expected_views(old(list)@),
        ),
{
    let ghost start = expected_views(list@);
    let ghost s = text::utf8(source@);
    let mut k: usize = 0;
    assert(links@.take(0) =~= Seq::<Link>::empty());
    while k < links.len()
        invariant
            k <= links@.len(),
            s == text::utf8(source@),
            s == path::named(source@),
            sources_normal(list@),
            expected_views(list@) == expected_by_links(ws@, s, links@.take(k as int), start),
        decreases links@.len() - k,
    {
        let link = &links[k];
        assert(links@.take(k + 1).drop_last() =~= links@.take(k as int));
        if let LinkKind::IntraProject { target, predicate, .. } = &link.kind {
            if ws.files.contains_key(target.as_str()) {
                if let Some(label) = ws.config.opposite_of(predicate.as_str()) {
                    expect_backlink(
                        list,
                        Expected {
                            target: target.clone(),
                            label: text::owned(label),
                            source: text::owned(source),
                            line: link.line,
                            span: link.span,
                        },
                    );
                }
            }
        }
        k += 1;
    }
    assert(links@.take(k as int) =~= links@);
}

fn build_expected_backlinks(ws: &WorkspaceView<'_>) -> (r: Vec<Expected>)
    ensures
        expected_views(r@) == all_expected(ws@),
        sources_normal(r@),
{
    let mut list: Vec<Expected> = Vec::new();
    let n = ws.files.len();
    let mut i: usize = 0;
    assert(expected_views(list@) =~= Seq::<ExpectedView>::empty());
    while i < n
        invariant
            i <= n,
            n == ws.files.keys().len(),
            sources_normal(list@),
            expected_views(list@) == expected_by_files(ws@, i as int),
        decreases n - i,
    {
        expect_from_links(ws, ws.files.key_at(i), &ws.files.value_at(i).links, &mut list);
        i += 1;
    }
    list
}

// Missing backlinks.

/// Whether backlinks are under `label` and name `source`.
pub open spec fn declared_by(b: Backlinks, at: Seq<u8>, label: Seq<u8>, source: Seq<u8>) -> bool {
    text::utf8(b.predicate@) == label && exists|j: int|
        0 <= j < b.sources@.len() && backlink_target(
            at,
            text::utf8((#[trigger] b.sources@[j])@),
        ) == source
}

/// Whether a document's frontmatter names `source` under `label`.
pub open spec fn declares(data: FileView, at: Seq<u8>, label: Seq<u8>, source: Seq<u8>) -> bool {
    match data.frontmatter {
        Some(fm) => exists|k: int|
            0 <= k < fm.backlinks@.len() && declared_by(
                #[trigger] fm.backlinks@[k],
                at,
                label,
                source,
            ),
        None => false,
    }
}

/// Whether a document links to `source` under a predicate.
pub open spec fn links_to(data: FileView, source: Seq<u8>, predicate: Seq<u8>) -> bool {
    exists|k: int| 0 <= k < data.links@.len() && is_link_to(#[trigger] data.links@[k], source, predicate)
}

pub open spec fn is_link_to(link: Link, source: Seq<u8>, predicate: Seq<u8>) -> bool {
    match link.kind {
        LinkKind::IntraProject { target, predicate: p, .. } => path::named(target@) == source
            && text::utf8(p@) == predicate,
        _ => false,
    }
}

/// Whether an expected backlink is there: in the target's frontmatter, or as a
/// link from the target back to the source under the same label.
pub open spec fn satisfied(ws: Graph, e: ExpectedView) -> bool {
    ws.files@.contains_key(e.target) && (declares(
        ws.files@[e.target],
        e.target,
        e.label,
        e.source,
    ) || links_to(ws.files@[e.target], e.source, e.label))
}

/// What is said of an expected backlink: at the link that calls for it.
pub open spec fn missing_report(ws: Graph, e: ExpectedView) -> Seq<DiagView> {
    if satisfied(ws, e) {
        Seq::empty()
    } else {
        seq![
            DiagView {
                file: e.source,
                line: e.line,
                severity: Severity::Warning,
                message: text::utf8("expected backlink `"@) + e.label + text::utf8("` in `"@)
                    + relative_path(e.source, e.target) + text::utf8("`"@),
                span: Some(e.span),
            },
        ]
    }
}

/// What is said of a list of expected backlinks.
pub open spec fn missing_reports(ws: Graph, list: Seq<ExpectedView>) -> Seq<DiagView>
    decreases list.len(),
{
    if list.len() == 0 {
        Seq::empty()
    } else {
        missing_reports(ws, list.drop_last()) + missing_report(ws, list.last())
    }
}

fn names_source(at: &str, sources: &Vec<String>, source: &str) -> (r: bool)
    ensures
        r == exists|j: int|
            0 <= j < sources@.len() && backlink_target(
                text::utf8(at@),
                text::utf8((#[trigger] sources@[j])@),
            ) == text::utf8(source@),
{
    let mut j: usize = 0;
    while j < sources.len()
        invariant
            j <= sources@.len(),
            forall|x: int|
                0 <= x < j ==> backlink_target(
                    text::utf8(at@),
                    text::utf8((#[trigger] sources@[x])@),
                ) != text::utf8(source@),
        decreases sources@.len() - j,
    {
        let resolved = resolve_backlink_path(at, sources[j].as_str());
        if text::same(resolved.as_str(), source) {
            return true;
        }
        j += 1;
    }
    false
}

fn declares_backlink(data: &FileData, at: &str, label: &str, source: &str) -> (r: bool)
    ensures
        r == declares(data@, text::utf8(at@), text::utf8(label@), text::utf8(source@)),
{
    let Some(fm) = &data.frontmatter else {
        return false;
    };
    let ghost a = text::utf8(at@);
    let ghost l = text::utf8(label@);
    let ghost s = text::utf8(source@);
    let mut k: usize = 0;
    while k < fm.backlinks.len()
        invariant
            k <= fm.backlinks@.len(),
            data.frontmatter == Some(*fm),
            a == text::utf8(at@),
            l == text::utf8(label@),
            s == text::utf8(source@),
            forall|x: int| 0 <= x < k ==> !declared_by(#[trigger] fm.backlinks@[x], a, l, s),
        decreases fm.backlinks@.len() - k,
    {
        let b = &fm.backlinks[k];
        if text::same(b.predicate.as_str(), label) && names_source(at, &b.sources, source) {
            proof {
                let list = data.frontmatter.unwrap().backlinks@;
                assert(list == fm.backlinks@);
                assert(declared_by(list[k as int], a, l, s));
                assert(declares(data@, a, l, s));
            }
            return true;
        }
        k += 1;
    }
    false
}

fn has_reciprocal_forward_link(data: &FileData, source: &str, predicate: &str) -> (r: bool)
    ensures
        r == links_to(data@, text::utf8(source@), text::utf8(predicate@)),
{
    let ghost s = text::utf8(source@);
    let ghost p = text::utf8(predicate@);
    let mut k: usize = 0;
    while k < data.links.len()
        invariant
            k <= data.links@.len(),
            s == text::utf8(source@),
            p == text::utf8(predicate@),
            forall|j: int| 0 <= j < k ==> !is_link_to(#[trigger] data.links@[j], s, p),
        decreases data.links@.len() - k,
    {
        if let LinkKind::IntraProject { target, predicate: q, .. } = &data.links[k].kind {
            let there = path::normal(target.as_str());
            if text::same(there.as_str(), source) && text::same(q.as_str(), predicate) {
                assert(is_link_to(data@.links@[k as int], s, p));
                return true;
            }
        }
        k += 1;
    }
    false
}

fn check_missing_backlinks(
    ws: &WorkspaceView<'_>,
    expected: &Vec<Expected>,
    out: &mut Vec<Diagnostic>,
)
    requires
        sources_normal(expected@),
    ensures
        diagnostic::views(final(out)@) == diagnostic::views(old(out)@) + missing_reports(
            ws@,
            expected_views(expected@),
        ),
{
    let ghost before = diagnostic::views(out@);
    let ghost views = expected_views(expected@);
    let mut k: usize = 0;
    proof {
        assert(views.take(0) =~= Seq::<ExpectedView>::empty());
        assert(before + Seq::<DiagView>::empty() =~= before);
    }
    while k < expected.len()
        invariant
            k <= expected@.len(),
            views == expected_views(expected@),
            sources_normal(expected@),
            diagnostic::views(out@) == before + missing_reports(ws@, views.take(k as int)),
        decreases expected@.len() - k,
    {
        let e = &expected[k];
        let ghost so_far = missing_reports(ws@, views.take(k as int));
        let ghost one = missing_report(ws@, views[k as int]);
        proof {
            assert(views[k as int] == expected_view(*e));
            assert(views.take(k + 1).drop_last() =~= views.take(k as int));
        }
        let target = path::normal(e.target.as_str());
        let there = match ws.file(target.as_str()) {
            Some(data) => declares_backlink(
                data,
                target.as_str(),
                e.label.as_str(),
                e.source.as_str(),
            ) || has_reciprocal_forward_link(data, e.source.as_str(), e.label.as_str()),
            None => false,
        };
        if !there {
            let mut message = text::owned("expected backlink `");
            text::push(&mut message, e.label.as_str());
            text::push(&mut message, "` in `");
            text::push(
                &mut message,
                file_relative(e.source.as_str(), target.as_str()).as_str(),
            );
            text::push(&mut message, "`");
            let d = Diagnostic {
                file: e.source.clone(),
                line: e.line,
                severity: Severity::Warning,
                message,
                span: Some(e.span),
            };
            proof {
                diagnostic::lemma_views_push(out@, d);
                assert((before + so_far).push(d@) =~= before + (so_far + one));
            }
            out.push(d);
        } else {
            assert(so_far + one =~= so_far);
        }
        k += 1;
    }
    assert(views.take(k as int) =~= views);
}

// Stale backlinks.

/// Whether a backlink is expected.
pub open spec fn is_expected(
    list: Seq<ExpectedView>,
    target: Seq<u8>,
    label: Seq<u8>,
    source: Seq<u8>,
) -> bool {
    expectation_of(list, target, label, source, 0) is Some
}

/// What is said of one source of a backlink.
pub open spec fn stale_report(
    expected: Seq<ExpectedView>,
    file: Seq<u8>,
    start_line: usize,
    label: Seq<u8>,
    written: Seq<u8>,
) -> Seq<DiagView> {
    if is_expected(expected, file, label, backlink_target(file, written)) {
        Seq::empty()
    } else {
        seq![
            DiagView {
                file,
                line: start_line as nat,
                severity: Severity::Warning,
                message: text::utf8("backlink `"@) + label + text::utf8("` from `"@) + written
                    + text::utf8("` has no corresponding forward link"@),
                span: None,
            },
        ]
    }
}

/// What is said of a list of sources.
pub open spec fn stale_by_sources(
    expected: Seq<ExpectedView>,
    file: Seq<u8>,
    start_line: usize,
    label: Seq<u8>,
    sources: Seq<String>,
) -> Seq<DiagView>
    decreases sources.len(),
{
    if sources.len() == 0 {
        Seq::empty()
    } else {
        stale_by_sources(expected, file, start_line, label, sources.drop_last()) + stale_report(
            expected,
            file,
            start_line,
            label,
            text::utf8(sources.last()@),
        )
    }
}

/// What is said of the backlinks of one document.
pub open spec fn stale_by_labels(
    expected: Seq<ExpectedView>,
    file: Seq<u8>,
    start_line: usize,
    list: Seq<Backlinks>,
) -> Seq<DiagView>
    decreases list.len(),
{
    if list.len() == 0 {
        Seq::empty()
    } else {
        stale_by_labels(expected, file, start_line, list.drop_last()) + stale_by_sources(
            expected,
            file,
            start_line,
            text::utf8(list.last().predicate@),
            list.last().sources@,
        )
    }
}

/// What is said of the backlinks of the first `n` documents.
pub open spec fn stale_reports(
    ws: Graph,
    expected: Seq<ExpectedView>,
    n: int,
) -> Seq<DiagView>
    decreases n,
{
    if n <= 0 {
        Seq::empty()
    } else {
        stale_reports(ws, expected, n - 1) + match ws.files.values()[n - 1].frontmatter {
            Some(fm) => stale_by_labels(
                expected,
                ws.files.keys()[n - 1],
                fm.start_line,
                fm.backlinks@,
            ),
            None => Seq::empty(),
        }
    }
}

fn check_sources(
    expected: &Vec<Expected>,
    file: &str,
    start_line: usize,
    label: &str,
    sources: &Vec<String>,
    out: &mut Vec<Diagnostic>,
)
    requires
        path::named(file@) == text::utf8(file@),
    ensures
        diagnostic::views(final(out)@) == diagnostic::views(old(out)@) + stale_by_sources(
            expected_views(expected@),
            path::named(file@),
            start_line,
            text::utf8(label@),
            sources@,
        ),
{
    let ghost before = diagnostic::views(out@);
    let ghost ev = expected_views(expected@);
    let ghost f = path::named(file@);
    let ghost l = text::utf8(label@);
    let mut k: usize = 0;
    proof {
        assert(sources@.take(0) =~= Seq::<String>::empty());
        assert(before + Seq::<DiagView>::empty() =~= before);
    }
    while k < sources.len()
        invariant
            k <= sources@.len(),
            ev == expected_views(expected@),
            f == path::named(file@),
            f == text::utf8(file@),
            l == text::utf8(label@),
            diagnostic::views(out@) == before + stale_by_sources(
                ev,
                f,
                start_line,
                l,
                sources@.take(k as int),
            ),
        decreases sources@.len() - k,
    {
        let written = sources[k].as_str();
        let ghost so_far = stale_by_sources(ev, f, start_line, l, sources@.take(k as int));
        let ghost one = stale_report(ev, f, start_line, l, text::utf8(written@));
        assert(sources@.take(k + 1).drop_last() =~= sources@.take(k as int));
        let resolved = resolve_backlink_path(file, written);
        if find_expected(expected, file, label, resolved.as_str()).is_none() {
            let mut message = text::owned("backlink `");
            text::push(&mut message, label);
            text::push(&mut message, "` from `");
            text::push(&mut message, written);
            text::push(&mut message, "` has no corresponding forward link");
            let d = Diagnostic {
                file: text::owned(file),
                line: start_line,
                severity: Severity::Warning,
                message,
                span: None,
            };
            proof {
                diagnostic::lemma_views_push(out@, d);
                assert((before + so_far).push(d@) =~= before + (so_far + one));
            }
            out.push(d);
        } else {
            assert(so_far + one =~= so_far);
        }
        k += 1;
    }
    assert(sources@.take(k as int) =~= sources@);
}

fn check_labels(
    expected: &Vec<Expected>,
    file: &str,
    start_line: usize,
    list: &Vec<Backlinks>,
    out: &mut Vec<Diagnostic>,
)
    requires
        path::named(file@) == text::utf8(file@),
    ensures
        diagnostic::views(final(out)@) == diagnostic::views(old(out)@) + stale_by_labels(
            expected_views(expected@),
            path::named(file@),
            start_line,
            list@,
        ),
{
    let ghost before = diagnostic::views(out@);
    let ghost ev = expected_views(expected@);
    let ghost f = path::named(file@);
    let mut k: usize = 0;
    proof {
        assert(list@.take(0) =~= Seq::<Backlinks>::empty());
        assert(before + Seq::<DiagView>::empty() =~= before);
    }
    while k < list.len()
        invariant
            k <= list@.len(),
            ev == expected_views(expected@),
            f == path::named(file@),
            f == text::utf8(file@),
            diagnostic::views(out@) == before + stale_by_labels(
                ev,
                f,
                start_line,
                list@.take(k as int),
            ),
        decreases list@.len() - k,
    {
        let b = &list[k];
        check_sources(expected, file, start_line, b.predicate.as_str(), &b.sources, out);
        proof {
            let so_far = stale_by_labels(ev, f, start_line, list@.take(k as int));
            let one = stale_by_sources(ev, f, start_line, text::utf8(b.predicate@), b.sources@);
            assert(list@.take(k + 1).drop_last() =~= list@.take(k as int));
            assert((before + so_far) + one =~= before + (so_far + one));
        }
        k += 1;
    }
    assert(list@.take(k as int) =~= list@);
}

fn check_stale_backlinks(
    ws: &WorkspaceView<'_>,
    expected: &Vec<Expected>,
    out: &mut Vec<Diagnostic>,
)
    ensures
        diagnostic::views(final(out)@) == diagnostic::views(old(out)@) + stale_reports(
            ws@,
            expected_views(expected@),
            ws.files.keys().len() as int,
        ),
{
    let ghost before = diagnostic::views(out@);
    let ghost ev = expected_views(expected@);
    let n = ws.files.len();
    let mut i: usize = 0;
    assert(before + Seq::<DiagView>::empty() =~= before);
    while i < n
        invariant
            i <= n,
            n == ws.files.keys().len(),
            ev == expected_views(expected@),
            diagnostic::views(out@) == before + stale_reports(ws@, ev, i as int),
        decreases n - i,
    {
        let ghost so_far = stale_reports(ws@, ev, i as int);
        let data = *ws.files.value_at(i);
        match &data.frontmatter {
            Some(fm) => {
                check_labels(expected, ws.files.key_at(i), fm.start_line, &fm.backlinks, out);
                proof {
                    let one = stale_by_labels(
                        ev,
                        ws.files.keys()[i as int],
                        fm.start_line,
                        fm.backlinks@,
                    );
                    assert((before + so_far) + one =~= before + (so_far + one));
                }
            },
            None => {
                assert(so_far + Seq::<DiagView>::empty() =~= so_far);
            },
        }
        i += 1;
    }
}

/// All findings about backlinks, before they are sorted.
pub open spec fn all_backlinks(ws: Graph) -> Seq<DiagView> {
    if ws.config.policy.backlinks {
        missing_reports(ws, all_expected(ws)) + stale_reports(
            ws,
            all_expected(ws),
            ws.files.keys().len() as int,
        )
    } else {
        Seq::empty()
    }
}

/// Validate backlinks, where the policy asks for them: that those which links
/// call for are there, and that those which are there are called for.
pub fn validate_backlinks(ws: &WorkspaceView<'_>) -> (r: Vec<Diagnostic>)
    ensures
        diagnostic::views(r@) == diagnostic::in_report_order(all_backlinks(ws@)),
{
    let mut out: Vec<Diagnostic> = Vec::new();
    assert(diagnostic::views(out@) =~= Seq::<DiagView>::empty());
    if !ws.config.policy.backlinks {
        assert(diagnostic::in_report_order(Seq::empty()) =~= Seq::<DiagView>::empty());
        return out;
    }
    let expected = build_expected_backlinks(ws);
    check_missing_backlinks(ws, &expected, &mut out);
    check_stale_backlinks(ws, &expected, &mut out);
    assert(diagnostic::views(out@) =~= all_backlinks(ws@));
    diagnostic::sort_diagnostics(out)
}

// Relative paths lead back.

/// Whether a path is relative and made of names alone, and of one at least.
pub open spec fn plain(b: Seq<u8>) -> bool {
    &&& !path::rooted(b)
    &&& path::segments(b).len() > 0
    &&& names_only(path::segments(b))
}

/// Whether none of some components is `.` or `..`.
pub open spec fn names_only(list: Seq<Seq<u8>>) -> bool {
    forall|k: int|
        0 <= k < list.len() ==> #[trigger] list[k] != text::utf8("."@) && list[k] != text::utf8(
            ".."@,
        ) && list[k].len() > 0
}

proof fn lemma_shared(a: Seq<Seq<u8>>, b: Seq<Seq<u8>>, k: int)
    requires
        0 <= k <= a.len(),
        k <= b.len(),
    ensures
        k <= shared(a, b, k) <= a.len(),
        shared(a, b, k) <= b.len(),
        forall|j: int| k <= j < shared(a, b, k) ==> a[j] == #[trigger] b[j],
    decreases a.len() - k,
{
    if k < a.len() && k < b.len() && a[k] == b[k] {
        lemma_shared(a, b, k + 1);
    }
}

/// Names are put behind what is there.
proof fn lemma_down(a: Seq<Seq<u8>>, names: Seq<Seq<u8>>)
    requires
        names_only(names),
    ensures
        path::collapsed(a + names, false) == path::collapsed(a, false) + names,
    decreases names.len(),
{
    if names.len() == 0 {
        assert(a + names =~= a);
        assert(path::collapsed(a, false) + names =~= path::collapsed(a, false));
    } else {
        let rest = names.drop_last();
        lemma_down(a, rest);
        assert((a + names).drop_last() =~= a + rest);
        assert((a + names).last() == names[names.len() - 1]);
        assert(path::collapsed(a, false) + names =~= (path::collapsed(a, false) + rest).push(
            names.last(),
        ));
    }
}

/// Steps up.
spec fn ups(n: int) -> Seq<Seq<u8>> {
    Seq::new(n as nat, |i: int| text::utf8(".."@))
}

/// Each step up takes one name away.
proof fn lemma_up(names: Seq<Seq<u8>>, n: int)
    requires
        names_only(names),
        0 <= n <= names.len(),
    ensures
        path::collapsed(names + ups(n), false) == names.take(names.len() - n),
    decreases n,
{
    path::lemma_dots();
    if n == 0 {
        assert(names + ups(0) =~= Seq::<Seq<u8>>::empty() + names);
        lemma_down(Seq::empty(), names);
        assert(Seq::<Seq<u8>>::empty() + names =~= names.take(names.len() as int));
    } else {
        lemma_up(names, n - 1);
        let before = names.take(names.len() - (n - 1));
        assert((names + ups(n)).drop_last() =~= names + ups(n - 1));
        assert((names + ups(n)).last() == text::utf8(".."@));
        assert(before.last() == names[names.len() - n]);
        assert(before.drop_last() =~= names.take(names.len() - n));
    }
}

/// What a relative path comes down to behind the directory it was made for.
proof fn lemma_back(dir: Seq<Seq<u8>>, to: Seq<Seq<u8>>)
    requires
        names_only(dir),
        names_only(to),
    ensures
        path::collapsed(dir + relative_names(dir, to), false) == to,
{
    lemma_shared(dir, to, 0);
    let n = shared(dir, to, 0);
    let rest = to.skip(n);
    assert(names_only(rest)) by {
        assert forall|k: int| 0 <= k < rest.len() implies #[trigger] rest[k] != text::utf8("."@)
            && rest[k] != text::utf8(".."@) && rest[k].len() > 0 by {
            assert(rest[k] == to[k + n]);
        }
    }
    assert(relative_names(dir, to) =~= ups(dir.len() - n) + rest);
    assert(dir + relative_names(dir, to) =~= dir + ups(dir.len() - n) + rest);
    lemma_up(dir, dir.len() - n);
    lemma_down(dir + ups(dir.len() - n), rest);
    assert(dir.take(n) + rest =~= to);
}

/// How one file is referred to from another is resolved, in that other, to the
/// file: for all paths that are relative and made of names.
pub proof fn law_a_relative_path_leads_back(from: Seq<u8>, to: Seq<u8>)
    requires
        plain(from),
        plain(to),
    ensures
        backlink_target(from, relative_path(from, to)) == path::normal_form(to),
{
    let all = path::segments(from);
    let dir = all.drop_last();
    let t = path::segments(to);
    components::lemma_segments_clean(from);
    components::lemma_segments_clean(to);
    assert(names_only(dir)) by {
        assert forall|k: int| 0 <= k < dir.len() implies #[trigger] dir[k] != text::utf8("."@)
            && dir[k] != text::utf8(".."@) && dir[k].len() > 0 by {
            assert(dir[k] == all[k]);
        }
    }
    assert forall|k: int| 0 <= k < dir.len() implies components::unbroken(#[trigger] dir[k]) by {
        assert(dir[k] == all[k]);
    }
    assert(components::clean(dir, false));
    components::lemma_written(dir, false);
    let parent = path::parent(from);
    assert(parent == path::joined(dir));
    assert(path::segments(parent) == dir);
    lemma_shared(dir, t, 0);
    let n = shared(dir, t, 0);
    let names = relative_names(dir, t);
    path::lemma_dots();
    assert forall|k: int| 0 <= k < names.len() implies components::unbroken(#[trigger] names[k])
        && names[k].len() > 0 by {
        if k >= dir.len() - n {
            assert(names[k] == t[k - (dir.len() - n) + n]);
        } else {
            assert(names[k] == text::utf8(".."@));
        }
    }
    let rel = path::joined(names);
    assert(relative_path(from, to) == rel);
    lemma_back(dir, t);
    if names.len() > 0 {
        components::lemma_parts_of_joined(names);
        components::lemma_joined_start(names);
        assert(components::unbroken(names[0]));
        assert(names[0][0] != SEP);
    }
    assert(!path::rooted(rel));
    let whole = path::join(parent, rel);
    if dir.len() == 0 {
        assert(names =~= t);
        assert(dir + names =~= names);
        assert(whole == rel);
    } else {
        components::lemma_last_byte(dir);
        components::lemma_parts_of_joined(dir);
        components::lemma_joined_start(dir);
        assert(components::unbroken(dir[0]));
        path::lemma_slash();
        assert(whole =~= parent.push(SEP) + rel);
        components::lemma_parts_of_two(parent, rel, 0);
        assert(whole[0] == parent[0]);
        assert(!path::rooted(whole));
        if names.len() == 0 {
            let last = seq![Seq::<u8>::empty()];
            assert(rel.len() == 0);
            assert(path::sep_from(rel, 0) == 0);
            assert(rel.subrange(0, 0) =~= Seq::<u8>::empty());
            assert(path::parts_from(rel, 0) =~= last);
            assert((dir + last).drop_last() =~= dir);
            assert(dir + names =~= dir);
            assert(path::collapsed(dir + last, false) == path::collapsed(dir, false));
        }
    }
}

} // verus!

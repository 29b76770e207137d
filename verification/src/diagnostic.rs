//! Diagnostics and the order they are reported in.
use vstd::prelude::*;
use crate::order;
use crate::path;
use crate::sorted;
use crate::sorted::KeyOrder;
use crate::span::Span;
use crate::text;

verus! {

/// Diagnostic severity level.
#[derive(Clone, Copy, Debug, PartialEq, Eq, Structural)]
pub enum Severity {
    /// Fatal issue that must be fixed.
    Error,
    /// Non-fatal issue worth addressing.
    Warning,
    /// Informational note.
    Info,
    /// Suggestion, the lowest severity.
    Hint,
}

/// A diagnostic about one line of one file.
#[derive(Clone, Debug, PartialEq, Eq)]
pub struct Diagnostic {
    /// Workspace-relative path of the file containing the issue.
    pub file: String,
    /// Line number, from 1.
    pub line: usize,
    /// Severity of the diagnostic.
    pub severity: Severity,
    /// Description of the issue.
    pub message: String,
    /// Byte span of the offending text, where a precise location is known.
    pub span: Option<Span>,
}

/// What a diagnostic says; the file is a path in normal form.
#[verifier::ext_equal]
pub struct DiagView {
    pub file: Seq<u8>,
    pub line: nat,
    pub severity: Severity,
    pub message: Seq<u8>,
    pub span: Option<Span>,
}

impl View for Diagnostic {
    type V = DiagView;

    open spec fn view(&self) -> DiagView {
        DiagView {
            file: path::named(self.file@),
            line: self.line as nat,
            severity: self.severity,
            message: text::utf8(self.message@),
            span: self.span,
        }
    }
}

/// What the diagnostics of a list say.
pub open spec fn views(list: Seq<Diagnostic>) -> Seq<DiagView> {
    list.map_values(|d: Diagnostic| d@)
}

/// One more diagnostic is one more view.
pub broadcast proof fn lemma_views_push(list: Seq<Diagnostic>, d: Diagnostic)
    ensures
        #[trigger] views(list.push(d)) == views(list).push(d@),
{
    assert(views(list.push(d)) =~= views(list).push(d@));
}

impl Diagnostic {
    /// A diagnostic that says the same.
    pub fn copied(&self) -> (r: Diagnostic)
        ensures
            r@ == self@,
    {
        Diagnostic {
            file: self.file.clone(),
            line: self.line,
            severity: self.severity,
            message: self.message.clone(),
            span: self.span,
        }
    }
}

/// The diagnostics as ones about a file.
pub open spec fn about(list: Seq<DiagView>, file: Seq<u8>) -> Seq<DiagView> {
    list.map_values(|d: DiagView| DiagView { file, ..d })
}

/// Add copies of diagnostics, as ones about a file.
pub fn append_about(list: &Vec<Diagnostic>, file: &str, out: &mut Vec<Diagnostic>)
    ensures
        views(final(out)@) == views(old(out)@) + about(views(list@), path::named(file@)),
{
    let ghost before = views(out@);
    let ghost all = about(views(list@), path::named(file@));
    let mut i: usize = 0;
    assert(before + all.take(0) =~= before);
    while i < list.len()
        invariant
            i <= list@.len(),
            all == about(views(list@), path::named(file@)),
            views(out@) == before + all.take(i as int),
        decreases list@.len() - i,
    {
        let d = Diagnostic {
            file: text::owned(file),
            line: list[i].line,
            severity: list[i].severity,
            message: list[i].message.clone(),
            span: list[i].span,
        };
        proof {
            lemma_views_push(out@, d);
            assert(all[i as int] == d@);
            assert(all.take(i + 1) =~= all.take(i as int).push(d@));
            assert((before + all.take(i as int)).push(d@) =~= before + all.take(i + 1));
        }
        out.push(d);
        i += 1;
    }
    assert(all.take(i as int) =~= all);
}

/// Whether `a` is reported before `b`: by file, then by line.
pub open spec fn reported_before(a: DiagView, b: DiagView) -> bool {
    sorted::before(KeyOrder::Path, a.file, b.file) || (a.file == b.file && a.line < b.line)
}

fn is_reported_before(a: &Diagnostic, b: &Diagnostic) -> (r: bool)
    ensures
        r == reported_before(a@, b@),
{
    if text::same(a.file.as_str(), b.file.as_str()) {
        proof {
            text::lemma_utf8_injective(a.file@, b.file@);
            sorted::lemma_before_irreflexive(KeyOrder::Path, a@.file);
        }
        return a.line < b.line;
    }
    let x = path::normal(a.file.as_str());
    let y = path::normal(b.file.as_str());
    sorted::is_before(KeyOrder::Path, x.as_str(), y.as_str()) || (text::same(
        x.as_str(),
        y.as_str(),
    ) && a.line < b.line)
}

/// The number of leading diagnostics in `list` up to the last one that `d` is
/// not reported before.
pub open spec fn place_of(list: Seq<DiagView>, d: DiagView) -> nat
    decreases list.len(),
{
    if list.len() == 0 || !reported_before(d, list.last()) {
        list.len()
    } else {
        place_of(list.drop_last(), d)
    }
}

/// The diagnostics in reporting order; those of one line keep their order.
pub open spec fn in_report_order(list: Seq<DiagView>) -> Seq<DiagView>
    decreases list.len(),
{
    if list.len() == 0 {
        list
    } else {
        let rest = in_report_order(list.drop_last());
        rest.insert(place_of(rest, list.last()) as int, list.last())
    }
}

/// Whether no diagnostic stands after one that it is reported before.
pub open spec fn is_in_report_order(list: Seq<DiagView>) -> bool {
    forall|i: int, j: int|
        0 <= i < j < list.len() ==> !reported_before(#[trigger] list[j], #[trigger] list[i])
}

proof fn lemma_reported_before_transitive(a: DiagView, b: DiagView, c: DiagView)
    ensures
        !reported_before(b, a) && !reported_before(c, b) ==> !reported_before(c, a),
        !(reported_before(a, b) && reported_before(b, a)),
{
    let o = KeyOrder::Path;
    sorted::lemma_before_total(o, a.file, b.file);
    sorted::lemma_before_total(o, b.file, c.file);
    sorted::lemma_before_total(o, a.file, c.file);
    sorted::lemma_before_irreflexive(o, a.file);
    if !reported_before(b, a) && !reported_before(c, b) && reported_before(c, a) {
        if sorted::before(o, a.file, b.file) && sorted::before(o, b.file, c.file) {
            sorted::lemma_before_transitive(o, a.file, b.file, c.file);
        }
        if sorted::before(o, c.file, a.file) && sorted::before(o, a.file, b.file) {
            sorted::lemma_before_transitive(o, c.file, a.file, b.file);
        }
        if sorted::before(o, b.file, c.file) && sorted::before(o, c.file, a.file) {
            sorted::lemma_before_transitive(o, b.file, c.file, a.file);
        }
    }
}

proof fn lemma_place(list: Seq<DiagView>, d: DiagView)
    requires
        is_in_report_order(list),
    ensures
        place_of(list, d) <= list.len(),
        forall|i: int|
            place_of(list, d) <= i < list.len() ==> reported_before(d, #[trigger] list[i]),
        forall|i: int| 0 <= i < place_of(list, d) ==> !reported_before(d, #[trigger] list[i]),
    decreases list.len(),
{
    if list.len() == 0 {
    } else if !reported_before(d, list.last()) {
        assert forall|i: int| 0 <= i < list.len() implies !reported_before(d, #[trigger] list[i]) by {
            if i < list.len() - 1 {
                lemma_reported_before_transitive(list[i], list.last(), d);
                assert(!reported_before(list[list.len() - 1], list[i]));
            }
        }
    } else {
        assert(is_in_report_order(list.drop_last()));
        lemma_place(list.drop_last(), d);
        assert forall|i: int|
            place_of(list, d) <= i < list.len() implies reported_before(d, #[trigger] list[i]) by {
            if i < list.len() - 1 {
                assert(list.drop_last()[i] == list[i]);
            }
        }
        assert forall|i: int| 0 <= i < place_of(list, d) implies !reported_before(
            d,
            #[trigger] list[i],
        ) by {
            assert(list.drop_last()[i] == list[i]);
        }
    }
}

/// Sorting gives the same diagnostics, and none stands after one that it is
/// reported before.
pub proof fn law_sorting_keeps_the_diagnostics(list: Seq<DiagView>)
    ensures
        is_in_report_order(in_report_order(list)),
        in_report_order(list).len() == list.len(),
        in_report_order(list).to_multiset() == list.to_multiset(),
    decreases list.len(),
{
    if list.len() > 0 {
        let d = list.last();
        let rest = in_report_order(list.drop_last());
        law_sorting_keeps_the_diagnostics(list.drop_last());
        lemma_place(rest, d);
        let p = place_of(rest, d) as int;
        let r = rest.insert(p, d);
        assert forall|i: int, j: int| 0 <= i < j < r.len() implies !reported_before(
            #[trigger] r[j],
            #[trigger] r[i],
        ) by {
            if i == p {
                assert(r[j] == rest[j - 1]);
                lemma_reported_before_transitive(d, rest[j - 1], d);
            } else if j == p {
                assert(r[i] == rest[i]);
            } else {
                let x = if i < p {
                    i
                } else {
                    i - 1
                };
                let y = if j < p {
                    j
                } else {
                    j - 1
                };
                assert(r[i] == rest[x]);
                assert(r[j] == rest[y]);
            }
        }
        vstd::seq_lib::to_multiset_insert(rest, p, d);
        assert(list =~= list.drop_last().push(d));
        list.drop_last().to_multiset_ensures();
        assert(r.to_multiset() =~= list.to_multiset());
    } else {
        assert(in_report_order(list) =~= list);
    }
}

/// Sort diagnostics by file, then by line.
pub fn sort_diagnostics(list: Vec<Diagnostic>) -> (r: Vec<Diagnostic>)
    ensures
        views(r@) == in_report_order(views(list@)),
{
    let mut r: Vec<Diagnostic> = Vec::new();
    let ghost all = views(list@);
    let mut i: usize = 0;
    proof {
        assert(all.take(0) =~= Seq::<DiagView>::empty());
        assert(views(r@) =~= Seq::<DiagView>::empty());
    }
    while i < list.len()
        invariant
            i <= list@.len(),
            all == views(list@),
            views(r@) == in_report_order(all.take(i as int)),
            r@.len() == i,
        decreases list@.len() - i,
    {
        let d = list[i].copied();
        let ghost sorted_so_far = views(r@);
        let mut p: usize = r.len();
        assert(sorted_so_far.take(p as int) =~= sorted_so_far);
        while p > 0 && is_reported_before(&d, &r[p - 1])
            invariant
                p <= r@.len(),
                sorted_so_far == views(r@),
                place_of(sorted_so_far, d@) == place_of(sorted_so_far.take(p as int), d@),
            decreases p,
        {
            assert(sorted_so_far.take(p as int).last() == r@[p - 1]@);
            assert(sorted_so_far.take(p as int).drop_last() =~= sorted_so_far.take(p - 1));
            p -= 1;
        }
        proof {
            if p > 0 {
                assert(sorted_so_far.take(p as int).last() == r@[p - 1]@);
            }
            assert(place_of(sorted_so_far, d@) == p);
            let t = all.take(i + 1);
            assert(t.drop_last() =~= all.take(i as int));
            assert(t.last() == list@[i as int]@);
        }
        r.insert(p, d);
        assert(views(r@) =~= sorted_so_far.insert(p as int, d@));
        i += 1;
    }
    assert(all.take(i as int) =~= all);
    r
}

/// Sorting keeps what is in a list.
pub proof fn lemma_report_order_contains(list: Seq<DiagView>, d: DiagView)
    ensures
        in_report_order(list).contains(d) == list.contains(d),
{
    law_sorting_keeps_the_diagnostics(list);
    in_report_order(list).to_multiset_ensures();
    list.to_multiset_ensures();
    assert(list.to_multiset().contains(d) == list.contains(d));
    assert(in_report_order(list).to_multiset().contains(d) == in_report_order(list).contains(d));
}

/// What is in two lists together is in one of them.
pub proof fn lemma_either<T>(a: Seq<T>, b: Seq<T>, d: T)
    ensures
        (a + b).contains(d) == (a.contains(d) || b.contains(d)),
{
    if a.contains(d) {
        let i = choose|i: int| 0 <= i < a.len() && a[i] == d;
        assert((a + b)[i] == d);
    }
    if b.contains(d) {
        let i = choose|i: int| 0 <= i < b.len() && b[i] == d;
        assert((a + b)[a.len() + i] == d);
    }
    if (a + b).contains(d) {
        let i = choose|i: int| 0 <= i < (a + b).len() && (a + b)[i] == d;
        if i >= a.len() {
            assert(b[i - a.len()] == d);
        } else {
            assert(a[i] == d);
        }
    }
}

/// A report goes by files, in the order of their paths, and in a file by lines.
pub proof fn law_reports_go_by_file_and_line(list: Seq<DiagView>, i: int, j: int)
    requires
        0 <= i < j < list.len(),
    ensures
        ({
            let a = in_report_order(list)[i];
            let b = in_report_order(list)[j];
            if a.file == b.file {
                a.line <= b.line
            } else {
                order::path_before(a.file, b.file)
            }
        }),
{
    law_sorting_keeps_the_diagnostics(list);
    let r = in_report_order(list);
    assert(!reported_before(r[j], r[i]));
    sorted::lemma_before_total(KeyOrder::Path, r[i].file, r[j].file);
}

/// The findings of one line stay in the order in which they were made.
pub proof fn law_findings_of_a_line_keep_their_order(list: Seq<DiagView>, file: Seq<u8>, line: nat)
    ensures
        in_report_order(list).filter(|d: DiagView| d.file == file && d.line == line)
            == list.filter(|d: DiagView| d.file == file && d.line == line),
    decreases list.len(),
{
    let f = |d: DiagView| d.file == file && d.line == line;
    if list.len() == 0 {
        assert(in_report_order(list) =~= list);
    } else {
        let most = list.drop_last();
        let d = list.last();
        let rest = in_report_order(most);
        law_findings_of_a_line_keep_their_order(most, file, line);
        law_sorting_keeps_the_diagnostics(most);
        lemma_place(rest, d);
        let p = place_of(rest, d) as int;
        let a = rest.take(p);
        let b = rest.skip(p);
        let one = seq![d];
        assert(rest =~= a + b);
        assert(rest.insert(p, d) =~= a + one + b);
        assert(list =~= most + one);
        Seq::filter_distributes_over_add(a, b, f);
        Seq::filter_distributes_over_add(a + one, b, f);
        Seq::filter_distributes_over_add(a, one, f);
        Seq::filter_distributes_over_add(most, one, f);
        if f(d) {
            assert(b.filter(f).len() == 0) by {
                assert forall|i: int| 0 <= i < b.len() implies !f(#[trigger] b[i]) by {
                    assert(b[i] == rest[p + i]);
                    assert(reported_before(d, rest[p + i]));
                    sorted::lemma_before_irreflexive(KeyOrder::Path, d.file);
                }
                lemma_none_kept(b, f);
            }
            assert(b.filter(f) =~= Seq::<DiagView>::empty());
            assert(rest.filter(f) =~= a.filter(f));
        } else {
            assert(one.filter(f).len() == 0) by {
                assert forall|i: int| 0 <= i < one.len() implies !f(#[trigger] one[i]) by {}
                lemma_none_kept(one, f);
            }
            assert(one.filter(f) =~= Seq::<DiagView>::empty());
        }
        assert(in_report_order(list).filter(f) =~= list.filter(f));
    }
}

proof fn lemma_none_kept(list: Seq<DiagView>, f: spec_fn(DiagView) -> bool)
    requires
        forall|i: int| 0 <= i < list.len() ==> !f(#[trigger] list[i]),
    ensures
        list.filter(f).len() == 0,
    decreases list.len(),
{
    reveal(Seq::filter);
    if list.len() > 0 {
        let most = list.drop_last();
        assert forall|i: int| 0 <= i < most.len() implies !f(#[trigger] most[i]) by {
            assert(most[i] == list[i]);
        }
        lemma_none_kept(most, f);
        assert(!f(list[list.len() - 1]));
    }
}

} // verus!

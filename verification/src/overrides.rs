//! Verdicts on the overrides of a configuration: which findings an override
//! with a count holds back, and which overrides no longer fit.
use vstd::prelude::*;
use crate::diagnostic;
use crate::diagnostic::{DiagView, Diagnostic};
use crate::fm::ExceptionLint;
use crate::path;
use crate::structural::ledger;
use crate::text;

verus! {

/// What became of an override's count for one lint.
#[derive(Debug)]
pub enum VerdictKind {
    /// The findings are as many as the override expects.
    Matched,
    /// They are not, and this is said of it.
    Drifted { message: String },
}

/// The verdict on one override for one lint.
#[derive(Debug)]
pub struct Verdict {
    pub lint: ExceptionLint,
    /// The documents that the override is for.
    pub members: Vec<String>,
    pub kind: VerdictKind,
}

/// The verdicts on a configuration's overrides.
#[derive(Debug)]
pub struct OverrideVerdicts {
    pub entries: Vec<Verdict>,
    /// What is said of the overrides that are for no document.
    pub unused: Vec<String>,
}

/// A verdict, as text.
#[verifier::ext_equal]
pub struct VerdictView {
    pub lint: ExceptionLint,
    pub members: Seq<Seq<u8>>,
    /// What is said, where the count has drifted.
    pub drift: Option<Seq<u8>>,
}

impl View for Verdict {
    type V = VerdictView;

    open spec fn view(&self) -> VerdictView {
        VerdictView {
            lint: self.lint,
            members: path::all_named(self.members@),
            drift: match self.kind {
                VerdictKind::Matched => None,
                VerdictKind::Drifted { message } => Some(text::utf8(message@)),
            },
        }
    }
}

/// Verdicts, as text.
#[verifier::ext_equal]
pub struct VerdictsView {
    pub entries: Seq<VerdictView>,
    pub unused: Seq<Seq<u8>>,
}

impl View for OverrideVerdicts {
    type V = VerdictsView;

    open spec fn view(&self) -> VerdictsView {
        VerdictsView {
            entries: self.entries@.map_values(|v: Verdict| v@),
            unused: path::texts(self.unused@),
        }
    }
}

/// The verdicts of a configuration without overrides.
pub open spec fn no_verdicts() -> VerdictsView {
    VerdictsView { entries: Seq::empty(), unused: Seq::empty() }
}

impl Default for OverrideVerdicts {
    fn default() -> (r: OverrideVerdicts)
        ensures
            r@ == no_verdicts(),
    {
        let r = OverrideVerdicts { entries: Vec::new(), unused: Vec::new() };
        assert(r@.entries =~= Seq::empty());
        assert(r@.unused =~= Seq::empty());
        r
    }
}

/// Whether a verdict holds a finding back: its count matched, the finding is of
/// its lint and about one of its documents.
pub open spec fn holds_back(v: VerdictView, d: DiagView) -> bool {
    &&& v.drift is None
    &&& ledger::lint_of(d.message) == Some(v.lint)
    &&& v.members.contains(d.file)
}

/// Whether some verdict holds a finding back.
pub open spec fn held_back(verdicts: VerdictsView, d: DiagView) -> bool {
    exists|i: int|
        0 <= i < verdicts.entries.len() && holds_back(#[trigger] verdicts.entries[i], d)
}

/// What is left of some findings when those that verdicts hold back are dropped.
pub open spec fn let_through(verdicts: VerdictsView, rows: Seq<DiagView>) -> Seq<DiagView>
    decreases rows.len(),
{
    if rows.len() == 0 {
        rows
    } else {
        let rest = let_through(verdicts, rows.drop_last());
        if held_back(verdicts, rows.last()) {
            rest
        } else {
            rest.push(rows.last())
        }
    }
}

fn has_member(members: &Vec<String>, file: &str) -> (r: bool)
    ensures
        r == path::all_named(members@).contains(path::named(file@)),
{
    let mut i: usize = 0;
    let ghost all = path::all_named(members@);
    while i < members.len()
        invariant
            i <= members@.len(),
            all == path::all_named(members@),
            forall|j: int| 0 <= j < i ==> #[trigger] all[j] != path::named(file@),
        decreases members@.len() - i,
    {
        assert(all[i as int] == path::named(members@[i as int]@));
        if path::same_path(members[i].as_str(), file) {
            return true;
        }
        i += 1;
    }
    false
}

fn is_held_back(verdicts: &OverrideVerdicts, d: &Diagnostic) -> (r: bool)
    ensures
        r == held_back(verdicts@, d@),
{
    let lint = ledger::classify_028_lint(d.message.as_str());
    let mut i: usize = 0;
    while i < verdicts.entries.len()
        invariant
            i <= verdicts.entries@.len(),
            lint == ledger::lint_of(d@.message),
            forall|j: int| 0 <= j < i ==> !holds_back(#[trigger] verdicts@.entries[j], d@),
        decreases verdicts.entries@.len() - i,
    {
        let v = &verdicts.entries[i];
        assert(verdicts@.entries[i as int] == v@);
        let matched = match v.kind {
            VerdictKind::Matched => true,
            VerdictKind::Drifted { .. } => false,
        };
        let of_lint = match lint {
            Some(l) => l == v.lint,
            None => false,
        };
        if matched && of_lint && has_member(&v.members, d.file.as_str()) {
            return true;
        }
        i += 1;
    }
    false
}

/// The findings that no verdict holds back.
pub fn suppress_matched(verdicts: &OverrideVerdicts, rows: &Vec<Diagnostic>) -> (r: Vec<Diagnostic>)
    ensures
        diagnostic::views(r@) == let_through(verdicts@, diagnostic::views(rows@)),
{
    let mut out: Vec<Diagnostic> = Vec::new();
    let mut i: usize = 0;
    let ghost all = diagnostic::views(rows@);
    proof {
        assert(all.take(0) =~= Seq::<DiagView>::empty());
        assert(diagnostic::views(out@) =~= Seq::<DiagView>::empty());
    }
    while i < rows.len()
        invariant
            i <= rows@.len(),
            all == diagnostic::views(rows@),
            diagnostic::views(out@) == let_through(verdicts@, all.take(i as int)),
        decreases rows@.len() - i,
    {
        proof {
            assert(all.take(i + 1).drop_last() =~= all.take(i as int));
            assert(all.take(i + 1).last() == rows@[i as int]@);
        }
        if !is_held_back(verdicts, &rows[i]) {
            let d = rows[i].copied();
            proof {
                diagnostic::lemma_views_push(out@, d);
            }
            out.push(d);
        }
        i += 1;
    }
    assert(all.take(i as int) =~= all);
    out
}

/// Without verdicts every finding is let through.
pub proof fn law_no_verdicts_hold_nothing_back(rows: Seq<DiagView>)
    ensures
        let_through(no_verdicts(), rows) == rows,
    decreases rows.len(),
{
    if rows.len() > 0 {
        law_no_verdicts_hold_nothing_back(rows.drop_last());
        assert(rows.drop_last().push(rows.last()) =~= rows);
    }
}

} // verus!

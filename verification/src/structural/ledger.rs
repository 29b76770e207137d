//! Exception routing and the suppression ledger.
//!
//! Routing decides which finding each declared exception claims, and reports
//! the exceptions that claimed nothing. The ledger records what the routing hid.
use vstd::prelude::*;
use crate::diagnostic;
use crate::diagnostic::{DiagView, Diagnostic, Severity};
use crate::fm::{CountKey, ExceptionEntry, ExceptionLint, Exceptions};
use crate::lines;
use crate::path;
use crate::sorted::{KeyOrder, SortedMap};
use crate::span::Span;
use crate::text;

verus! {

/// How often `x` occurs in a list.
pub open spec fn occurrences<T>(list: Seq<T>, x: T) -> nat
    decreases list.len(),
{
    if list.len() == 0 {
        0
    } else {
        occurrences(list.drop_last(), x) + if list.last() == x {
            1nat
        } else {
            0
        }
    }
}

proof fn lemma_occurrences_bound<T>(list: Seq<T>, x: T)
    ensures
        occurrences(list, x) <= list.len(),
    decreases list.len(),
{
    if list.len() > 0 {
        lemma_occurrences_bound(list.drop_last(), x);
    }
}

/// A tally of suppressed diagnostics by severity.
#[derive(Clone, Copy, Debug, PartialEq, Eq, Structural)]
pub struct SeverityCounts {
    pub errors: usize,
    pub warnings: usize,
    pub info: usize,
    pub hints: usize,
}

impl Default for SeverityCounts {
    fn default() -> (r: SeverityCounts)
        ensures
            r == (SeverityCounts { errors: 0, warnings: 0, info: 0, hints: 0 }),
    {
        SeverityCounts { errors: 0, warnings: 0, info: 0, hints: 0 }
    }
}

impl SeverityCounts {
    /// The count of one severity.
    pub open spec fn of(self, severity: Severity) -> usize {
        match severity {
            Severity::Error => self.errors,
            Severity::Warning => self.warnings,
            Severity::Info => self.info,
            Severity::Hint => self.hints,
        }
    }

    /// Whether the counts are those of a list of severities.
    pub open spec fn tallies(self, list: Seq<Severity>) -> bool {
        forall|s: Severity| #[trigger] self.of(s) == occurrences(list, s)
    }

    /// Record one suppressed diagnostic.
    pub fn record(&mut self, severity: Severity)
        requires
            old(self).of(severity) < usize::MAX,
        ensures
            forall|s: Severity| #[trigger]
                final(self).of(s) == old(self).of(s) + if s == severity {
                    1int
                } else {
                    0
                },
    {
        match severity {
            Severity::Error => {
                self.errors = self.errors + 1;
            },
            Severity::Warning => {
                self.warnings = self.warnings + 1;
            },
            Severity::Info => {
                self.info = self.info + 1;
            },
            Severity::Hint => {
                self.hints = self.hints + 1;
            },
        }
    }

    /// Fold another tally into this one.
    pub fn add(&mut self, other: SeverityCounts)
        requires
            forall|s: Severity| #[trigger] old(self).of(s) + other.of(s) <= usize::MAX,
        ensures
            forall|s: Severity| #[trigger]
                final(self).of(s) == old(self).of(s) + other.of(s),
    {
        proof {
            assert(self.of(Severity::Error) + other.of(Severity::Error) <= usize::MAX);
            assert(self.of(Severity::Warning) + other.of(Severity::Warning) <= usize::MAX);
            assert(self.of(Severity::Info) + other.of(Severity::Info) <= usize::MAX);
            assert(self.of(Severity::Hint) + other.of(Severity::Hint) <= usize::MAX);
        }
        self.errors = self.errors + other.errors;
        self.warnings = self.warnings + other.warnings;
        self.info = self.info + other.info;
        self.hints = self.hints + other.hints;
    }

    /// Whether nothing was suppressed.
    pub fn is_empty(&self) -> (r: bool)
        ensures
            r == (forall|s: Severity| #[trigger] self.of(s) == 0),
    {
        let r = self.errors == 0 && self.warnings == 0 && self.info == 0 && self.hints == 0;
        proof {
            assert(self.of(Severity::Error) == self.errors);
            assert(self.of(Severity::Warning) == self.warnings);
            assert(self.of(Severity::Info) == self.info);
            assert(self.of(Severity::Hint) == self.hints);
        }
        r
    }
}

/// A tally of an empty list is empty, and of no other list.
pub proof fn lemma_tally_empty(c: SeverityCounts, list: Seq<Severity>)
    requires
        c.tallies(list),
    ensures
        (forall|s: Severity| #[trigger] c.of(s) == 0) <==> list.len() == 0,
{
    if list.len() > 0 {
        assert(c.of(list.last()) == occurrences(list, list.last()));
    } else {
        assert forall|s: Severity| #[trigger] c.of(s) == 0 by {
            assert(c.of(s) == occurrences(list, s));
        }
    }
}

/// Count a list of severities.
fn tally(list: &Vec<Severity>) -> (c: SeverityCounts)
    ensures
        c.tallies(list@),
{
    let mut c = SeverityCounts::default();
    let mut i: usize = 0;
    while i < list.len()
        invariant
            i <= list@.len(),
            c.tallies(list@.take(i as int)),
        decreases list@.len() - i,
    {
        let s = list[i];
        let ghost seen = list@.take(i as int);
        proof {
            lemma_occurrences_bound(seen, s);
            assert(c.of(s) == occurrences(seen, s));
            assert(list@.take(i + 1).drop_last() =~= seen);
        }
        let ghost before = c;
        c.record(s);
        proof {
            assert forall|x: Severity| #[trigger] c.of(x) == occurrences(list@.take(i + 1), x) by {
                assert(before.of(x) == occurrences(seen, x));
            }
        }
        i += 1;
    }
    assert(list@.take(i as int) =~= list@);
    c
}

/// A count-key that suppressed its residual.
#[derive(Clone, Debug, PartialEq, Eq)]
pub struct CountKeySuppression {
    pub reason: String,
    /// The count-key as written.
    pub raw: String,
    pub counts: SeverityCounts,
}

/// What the literal exceptions of a file suppressed.
#[derive(Clone, Copy, Debug, PartialEq, Eq, Structural)]
pub struct ExceptionSuppression {
    pub counts: SeverityCounts,
    /// The number of entries that matched a live diagnostic.
    pub matched_entries: usize,
}

/// What each source suppressed in one file.
#[derive(Clone, Debug, PartialEq, Eq)]
pub struct FileSuppressions {
    pub file: String,
    pub exceptions: Option<ExceptionSuppression>,
    pub count_keys: Vec<CountKeySuppression>,
    /// The glossary names that were filtered, and what they hid.
    pub artifacts: SortedMap<SeverityCounts>,
}

impl Default for FileSuppressions {
    fn default() -> (r: FileSuppressions)
        ensures
            r.file@ == Seq::<char>::empty(),
            r.exceptions is None,
            r.count_keys@ == Seq::<CountKeySuppression>::empty(),
            r.artifacts.order() == KeyOrder::Bytes,
            r.artifacts@ == Map::<Seq<u8>, SeverityCounts>::empty(),
    {
        FileSuppressions {
            file: String::new(),
            exceptions: None,
            count_keys: Vec::new(),
            artifacts: SortedMap::new(KeyOrder::Bytes),
        }
    }
}

impl FileSuppressions {
    /// Whether this file suppressed nothing.
    pub fn is_empty(&self) -> (r: bool)
        ensures
            r == (self.exceptions is None && self.count_keys@.len() == 0
                && self.artifacts.keys().len() == 0),
    {
        self.exceptions.is_none() && self.count_keys.len() == 0 && self.artifacts.is_empty()
    }
}

/// The lint that a message belongs to, by the words it starts with.
pub open spec fn lint_of(message: Seq<u8>) -> Option<ExceptionLint> {
    if text::has_prefix(message, text::utf8("stale reference:"@)) {
        Some(ExceptionLint::StaleReferences)
    } else if text::has_prefix(message, text::utf8("bare path "@)) || text::has_prefix(
        message,
        text::utf8("bare URL "@),
    ) || text::has_prefix(message, text::utf8("quoted path "@)) || text::has_prefix(
        message,
        text::utf8("backticked path "@),
    ) {
        Some(ExceptionLint::BarePaths)
    } else {
        None
    }
}

/// Classify a message as one of the reference lints.
pub fn classify_028_lint(message: &str) -> (r: Option<ExceptionLint>)
    ensures
        r == lint_of(text::utf8(message@)),
{
    if text::starts_with(message, "stale reference:") {
        Some(ExceptionLint::StaleReferences)
    } else if text::starts_with(message, "bare path ") || text::starts_with(message, "bare URL ")
        || text::starts_with(message, "quoted path ") || text::starts_with(
        message,
        "backticked path ",
    ) {
        Some(ExceptionLint::BarePaths)
    } else {
        None
    }
}

/// What is declared for one lint.
pub struct BucketRules {
    /// Whether the lint is on; a bucket of a lint that is off does nothing.
    pub active: bool,
    pub entries: Seq<ExceptionEntry>,
    pub count: Option<CountKey>,
}

/// What is declared for a file.
pub struct Rules {
    pub stale: BucketRules,
    pub bare: BucketRules,
    pub artifacts: Map<Seq<u8>, ()>,
}

/// What has happened to the findings of one lint.
#[verifier::ext_equal]
pub struct BucketState {
    /// Which entries have matched a live finding.
    pub matched: Seq<bool>,
    /// Findings that wait for the count-key's decision.
    pub residual: Seq<DiagView>,
    /// What the count-key suppressed.
    pub counted: Seq<Severity>,
}

/// What has happened to the findings of a file.
#[verifier::ext_equal]
pub struct Flow {
    pub out: Seq<DiagView>,
    pub stale: BucketState,
    pub bare: BucketState,
    /// What literal exceptions suppressed.
    pub literal: Seq<Severity>,
    /// What the artifact glossary filtered.
    pub artifacts: Seq<(Seq<u8>, Severity)>,
}

impl Rules {
    pub open spec fn of(self, lint: ExceptionLint) -> BucketRules {
        match lint {
            ExceptionLint::StaleReferences => self.stale,
            ExceptionLint::BarePaths => self.bare,
        }
    }
}

impl Flow {
    pub open spec fn of(self, lint: ExceptionLint) -> BucketState {
        match lint {
            ExceptionLint::StaleReferences => self.stale,
            ExceptionLint::BarePaths => self.bare,
        }
    }

    pub open spec fn with(self, lint: ExceptionLint, state: BucketState) -> Flow {
        match lint {
            ExceptionLint::StaleReferences => Flow { stale: state, ..self },
            ExceptionLint::BarePaths => Flow { bare: state, ..self },
        }
    }
}

/// Whether an entry is declared for a reference, letter for letter.
pub open spec fn excepted(entries: Seq<ExceptionEntry>, reference: Seq<u8>) -> bool {
    exists|i: int|
        0 <= i < entries.len() && text::utf8((#[trigger] entries[i]).reference@) == reference
}

/// The flags after a reference has been met.
pub open spec fn marked(
    entries: Seq<ExceptionEntry>,
    matched: Seq<bool>,
    reference: Seq<u8>,
) -> Seq<bool> {
    Seq::new(
        matched.len(),
        |i: int| matched[i] || text::utf8(entries[i].reference@) == reference,
    )
}

/// A finding on its way: a plain one, or one about a reference that exceptions
/// can claim.
pub enum Emission {
    Plain(DiagView),
    Routed { lint: ExceptionLint, reference: Seq<u8>, diag: DiagView },
}

/// A finding about `reference` goes, in this order, to the glossary if it names
/// an artifact, to the exception that is declared for it, to the residual of an
/// active count-key, and else to the output.
pub open spec fn routed(
    rules: Rules,
    flow: Flow,
    lint: ExceptionLint,
    reference: Seq<u8>,
    diag: DiagView,
) -> Flow {
    let b = rules.of(lint);
    let st = flow.of(lint);
    if rules.artifacts.contains_key(reference) {
        Flow { artifacts: flow.artifacts.push((reference, diag.severity)), ..flow }
    } else if b.active && excepted(b.entries, reference) {
        Flow { literal: flow.literal.push(diag.severity), ..flow }.with(
            lint,
            BucketState { matched: marked(b.entries, st.matched, reference), ..st },
        )
    } else if b.active && b.count is Some {
        flow.with(lint, BucketState { residual: st.residual.push(diag), ..st })
    } else {
        Flow { out: flow.out.push(diag), ..flow }
    }
}

/// The flow after one finding.
pub open spec fn emitted(rules: Rules, flow: Flow, e: Emission) -> Flow {
    match e {
        Emission::Plain(diag) => Flow { out: flow.out.push(diag), ..flow },
        Emission::Routed { lint, reference, diag } => routed(rules, flow, lint, reference, diag),
    }
}

/// The flow after a list of findings.
pub open spec fn emitted_all(rules: Rules, flow: Flow, list: Seq<Emission>) -> Flow
    decreases list.len(),
{
    if list.len() == 0 {
        flow
    } else {
        emitted(rules, emitted_all(rules, flow, list.drop_last()), list.last())
    }
}

/// Two lists one after the other are one list.
pub proof fn lemma_emitted_concat(rules: Rules, flow: Flow, a: Seq<Emission>, b: Seq<Emission>)
    ensures
        emitted_all(rules, flow, a + b) == emitted_all(rules, emitted_all(rules, flow, a), b),
    decreases b.len(),
{
    if b.len() == 0 {
        assert(a + b =~= a);
    } else {
        lemma_emitted_concat(rules, flow, a, b.drop_last());
        assert((a + b).drop_last() =~= a + b.drop_last());
        assert((a + b).last() == b.last());
    }
}

/// One finding is a list of one.
pub proof fn lemma_emitted_one(rules: Rules, flow: Flow, e: Emission)
    ensures
        emitted_all(rules, flow, seq![e]) == emitted(rules, flow, e),
        emitted_all(rules, flow, Seq::<Emission>::empty()) == flow,
{
    assert(seq![e].drop_last() =~= Seq::<Emission>::empty());
    reveal_with_fuel(emitted_all, 2);
}

/// Whether a list of findings has gone through a lookup and an output, from one
/// state of the two to another.
pub open spec fn stepped(
    l0: ExceptionLookup<'_>,
    o0: Seq<Diagnostic>,
    l1: ExceptionLookup<'_>,
    o1: Seq<Diagnostic>,
    list: Seq<Emission>,
) -> bool {
    &&& l1.wf()
    &&& l1.rules() == l0.rules()
    &&& l1.flow(o1) == emitted_all(l0.rules(), l0.flow(o0), list)
}

/// No finding changes nothing.
pub proof fn lemma_stepped_nothing(l: ExceptionLookup<'_>, o: Seq<Diagnostic>)
    requires
        l.wf(),
    ensures
        stepped(l, o, l, o, Seq::empty()),
{
}

/// Two lists of findings one after the other.
pub proof fn lemma_stepped_concat(
    l0: ExceptionLookup<'_>,
    o0: Seq<Diagnostic>,
    l1: ExceptionLookup<'_>,
    o1: Seq<Diagnostic>,
    l2: ExceptionLookup<'_>,
    o2: Seq<Diagnostic>,
    a: Seq<Emission>,
    b: Seq<Emission>,
)
    requires
        stepped(l0, o0, l1, o1, a),
        stepped(l1, o1, l2, o2, b),
    ensures
        stepped(l0, o0, l2, o2, a + b),
{
    lemma_emitted_concat(l0.rules(), l0.flow(o0), a, b);
}

/// One finding about a reference.
pub proof fn lemma_stepped_routed(
    l0: ExceptionLookup<'_>,
    o0: Seq<Diagnostic>,
    l1: ExceptionLookup<'_>,
    o1: Seq<Diagnostic>,
    lint: ExceptionLint,
    reference: Seq<u8>,
    diag: DiagView,
)
    requires
        l1.wf(),
        l1.rules() == l0.rules(),
        l1.flow(o1) == routed(l0.rules(), l0.flow(o0), lint, reference, diag),
    ensures
        stepped(l0, o0, l1, o1, seq![Emission::Routed { lint, reference, diag }]),
{
    lemma_emitted_one(l0.rules(), l0.flow(o0), Emission::Routed { lint, reference, diag });
}

/// One plain finding.
pub proof fn lemma_stepped_plain(l: ExceptionLookup<'_>, o: Seq<Diagnostic>, d: Diagnostic)
    requires
        l.wf(),
    ensures
        stepped(l, o, l, o.push(d), seq![Emission::Plain(d@)]),
{
    diagnostic::lemma_views_push(o, d);
    lemma_emitted_one(l.rules(), l.flow(o), Emission::Plain(d@));
    assert(l.flow(o.push(d)) =~= emitted(l.rules(), l.flow(o), Emission::Plain(d@)));
}

/// What is declared for one lint, and what has happened to its findings.
struct LintBucket<'a> {
    active: bool,
    entries: &'a Vec<ExceptionEntry>,
    matched: Vec<bool>,
    count_key: &'a Option<CountKey>,
    residual: Vec<Diagnostic>,
    counted: Vec<Severity>,
}

impl<'a> LintBucket<'a> {
    spec fn rules(self) -> BucketRules {
        BucketRules { active: self.active, entries: self.entries@, count: *self.count_key }
    }

    spec fn state(self) -> BucketState {
        BucketState {
            matched: self.matched@,
            residual: diagnostic::views(self.residual@),
            counted: self.counted@,
        }
    }

    spec fn wf(self) -> bool {
        self.matched@.len() == self.entries@.len()
    }

    fn new(
        entries: &'a Vec<ExceptionEntry>,
        count_key: &'a Option<CountKey>,
        active: bool,
    ) -> (b: LintBucket<'a>)
        ensures
            b.wf(),
            b.rules() == (BucketRules { active, entries: entries@, count: *count_key }),
            b.state() == fresh(entries@.len()),
    {
        let mut matched: Vec<bool> = Vec::new();
        let mut i: usize = 0;
        while i < entries.len()
            invariant
                i <= entries@.len(),
                matched@ =~= Seq::new(i as nat, |k: int| false),
            decreases entries@.len() - i,
        {
            matched.push(false);
            i += 1;
        }
        let b = LintBucket {
            active,
            entries,
            matched,
            count_key,
            residual: Vec::new(),
            counted: Vec::new(),
        };
        assert(b.state() =~= fresh(entries@.len()));
        b
    }

    fn count_key_active(&self) -> (r: bool)
        ensures
            r == (self.rules().active && self.rules().count is Some),
    {
        self.active && self.count_key.is_some()
    }

    /// Whether an active entry claims the reference; if so it is marked.
    fn suppress_literal(&mut self, reference: &str) -> (r: bool)
        requires
            old(self).wf(),
        ensures
            final(self).wf(),
            final(self).rules() == old(self).rules(),
            r == (old(self).rules().active && excepted(
                old(self).rules().entries,
                text::utf8(reference@),
            )),
            !r ==> final(self).state() == old(self).state(),
            r ==> final(self).state() == (BucketState {
                matched: marked(
                    old(self).rules().entries,
                    old(self).state().matched,
                    text::utf8(reference@),
                ),
                ..old(self).state()
            }),
    {
        if !self.active {
            return false;
        }
        let ghost k = text::utf8(reference@);
        let ghost m0 = self.matched@;
        let mut found = false;
        let mut i: usize = 0;
        while i < self.entries.len()
            invariant
                i <= self.entries@.len(),
                self.matched@.len() == self.entries@.len(),
                self.matched@.len() == m0.len(),
                k == text::utf8(reference@),
                self.rules() == old(self).rules(),
                self.residual == old(self).residual,
                self.counted == old(self).counted,
                found == (exists|j: int|
                    0 <= j < i && text::utf8((#[trigger] self.entries@[j]).reference@) == k),
                forall|j: int|
                    0 <= j < m0.len() ==> #[trigger] self.matched@[j] == (m0[j] || (j < i
                        && text::utf8(self.entries@[j].reference@) == k)),
            decreases self.entries@.len() - i,
        {
            if text::same(self.entries[i].reference.as_str(), reference) {
                self.matched.set(i, true);
                found = true;
            }
            i += 1;
        }
        proof {
            if found {
                assert(self.state().matched =~= marked(self.entries@, m0, k));
            } else {
                assert(self.matched@ =~= m0);
            }
        }
        found
    }
}

/// The state of a lint of which nothing has been found yet.
pub open spec fn fresh(entries: nat) -> BucketState {
    BucketState {
        matched: Seq::new(entries, |k: int| false),
        residual: Seq::empty(),
        counted: Seq::empty(),
    }
}

/// The exceptions of a file, and what has happened to its findings.
pub struct ExceptionLookup<'a> {
    stale_references: LintBucket<'a>,
    bare_paths: LintBucket<'a>,
    artifacts: &'a SortedMap<()>,
    literal_suppressed: Vec<Severity>,
    artifact_suppressed: Vec<(String, Severity)>,
}

/// The names and severities in a log of filtered artifacts.
pub open spec fn log_views(log: Seq<(String, Severity)>) -> Seq<(Seq<u8>, Severity)> {
    log.map_values(|e: (String, Severity)| (text::utf8(e.0@), e.1))
}

impl<'a> ExceptionLookup<'a> {
    /// What is declared.
    pub closed spec fn rules(self) -> Rules {
        Rules {
            stale: self.stale_references.rules(),
            bare: self.bare_paths.rules(),
            artifacts: self.artifacts@,
        }
    }

    /// What has happened, with the diagnostics that have come out.
    pub closed spec fn flow(self, out: Seq<Diagnostic>) -> Flow {
        Flow {
            out: diagnostic::views(out),
            stale: self.stale_references.state(),
            bare: self.bare_paths.state(),
            literal: self.literal_suppressed@,
            artifacts: log_views(self.artifact_suppressed@),
        }
    }

    /// Each entry has its flag.
    pub closed spec fn wf(self) -> bool {
        self.stale_references.wf() && self.bare_paths.wf()
    }

    /// A lookup before the first finding.
    pub fn new(
        exceptions: &'a Exceptions,
        artifacts: &'a SortedMap<()>,
        stale_active: bool,
        bare_active: bool,
    ) -> (r: ExceptionLookup<'a>)
        ensures
            r.wf(),
            r.rules() == declared(*exceptions, artifacts@, stale_active, bare_active),
            forall|out: Seq<Diagnostic>| #[trigger]
                r.flow(out) == start(*exceptions, diagnostic::views(out)),
    {
        let r = ExceptionLookup {
            stale_references: LintBucket::new(
                exceptions.entries(ExceptionLint::StaleReferences),
                exceptions.count_key(ExceptionLint::StaleReferences),
                stale_active,
            ),
            bare_paths: LintBucket::new(
                exceptions.entries(ExceptionLint::BarePaths),
                exceptions.count_key(ExceptionLint::BarePaths),
                bare_active,
            ),
            artifacts,
            literal_suppressed: Vec::new(),
            artifact_suppressed: Vec::new(),
        };
        assert(log_views(r.artifact_suppressed@) =~= Seq::<(Seq<u8>, Severity)>::empty());
        assert forall|out: Seq<Diagnostic>| #[trigger] r.flow(out) == start(
            *exceptions,
            diagnostic::views(out),
        ) by {
            assert(r.flow(out) =~= start(*exceptions, diagnostic::views(out)));
        }
        r
    }

    /// Send a finding about a reference where it belongs.
    pub fn route(
        &mut self,
        lint: ExceptionLint,
        reference: &str,
        diag: Diagnostic,
        out: &mut Vec<Diagnostic>,
    )
        requires
            old(self).wf(),
        ensures
            final(self).wf(),
            final(self).rules() == old(self).rules(),
            final(self).flow(final(out)@) == routed(
                old(self).rules(),
                old(self).flow(old(out)@),
                lint,
                text::utf8(reference@),
                diag@,
            ),
    {
        broadcast use diagnostic::lemma_views_push;

        let ghost f0 = self.flow(out@);
        let ghost target = routed(self.rules(), f0, lint, text::utf8(reference@), diag@);
        if self.artifacts.contains_key(reference) {
            let ghost log0 = self.artifact_suppressed@;
            self.artifact_suppressed.push((text::owned(reference), diag.severity));
            proof {
                assert(log_views(self.artifact_suppressed@) =~= log_views(log0).push(
                    (text::utf8(reference@), diag.severity),
                ));
                assert(self.flow(out@) =~= target);
            }
            return;
        }
        match lint {
            ExceptionLint::StaleReferences => {
                if self.stale_references.suppress_literal(reference) {
                    self.literal_suppressed.push(diag.severity);
                } else if self.stale_references.count_key_active() {
                    self.stale_references.residual.push(diag);
                } else {
                    out.push(diag);
                }
            },
            ExceptionLint::BarePaths => {
                if self.bare_paths.suppress_literal(reference) {
                    self.literal_suppressed.push(diag.severity);
                } else if self.bare_paths.count_key_active() {
                    self.bare_paths.residual.push(diag);
                } else {
                    out.push(diag);
                }
            },
        }
        assert(self.flow(out@) =~= target);
    }
}

/// The output is the only part of the flow that lies outside the lookup.
pub proof fn lemma_flow_out(l: ExceptionLookup<'_>, a: Seq<Diagnostic>, b: Seq<Diagnostic>)
    ensures
        l.flow(b) == (Flow { out: diagnostic::views(b), ..l.flow(a) }),
        l.flow(b).out == diagnostic::views(b),
{
}

/// What a file declares.
pub open spec fn declared(
    exceptions: Exceptions,
    artifacts: Map<Seq<u8>, ()>,
    stale_active: bool,
    bare_active: bool,
) -> Rules {
    Rules {
        stale: BucketRules {
            active: stale_active,
            entries: exceptions.stale_references@,
            count: exceptions.stale_references_count,
        },
        bare: BucketRules {
            active: bare_active,
            entries: exceptions.bare_paths@,
            count: exceptions.bare_paths_count,
        },
        artifacts,
    }
}

/// The flow before the first finding.
pub open spec fn start(exceptions: Exceptions, out: Seq<DiagView>) -> Flow {
    Flow {
        out,
        stale: fresh(exceptions.stale_references@.len()),
        bare: fresh(exceptions.bare_paths@.len()),
        literal: Seq::empty(),
        artifacts: Seq::empty(),
    }
}

/// A warning at a place in frontmatter.
pub open spec fn at_key(file: Seq<u8>, line: usize, span: Span, message: Seq<u8>) -> DiagView {
    DiagView { file, line: line as nat, severity: Severity::Warning, message, span: Some(span) }
}

/// A count-key without a reason.
pub open spec fn count_without_reason(key: CountKey, lint: ExceptionLint) -> Seq<u8> {
    text::utf8("count-key `"@) + text::utf8(key.raw@) + text::utf8("` under `exceptions."@)
        + lint.key_text() + text::utf8(
        "` has no reason — add one explaining why these are not live references (see `lattice help config`)"@,
    )
}

/// A count-key of zero.
pub open spec fn count_of_zero(key: CountKey, lint: ExceptionLint) -> Seq<u8> {
    text::utf8("count-key `"@) + text::utf8(key.raw@) + text::utf8("` under `exceptions."@)
        + lint.key_text() + text::utf8("` must be at least 1 (see `lattice help config`)"@)
}

/// A count-key that does not match what was found.
pub open spec fn count_drifted(key: CountKey, lint: ExceptionLint, found: nat) -> Seq<u8> {
    text::utf8("expected "@) + text::decimal(key.expected as nat) + text::utf8(" "@)
        + lint.noun_text() + text::utf8(" here, found "@) + text::decimal(found) + text::utf8(
        " — update the count (and revisit the reason) or fix the drift (see `lattice help config`)"@,
    )
}

/// The severities of a list of findings.
pub open spec fn severities(list: Seq<DiagView>) -> Seq<Severity> {
    list.map_values(|d: DiagView| d.severity)
}

/// The decision of one lint's count-key. With a reason and an expected number
/// of at least one, it suppresses its residual if that has exactly the expected
/// size; in every other case the residual comes out, with one warning at the key.
pub open spec fn count_settled(
    b: BucketRules,
    lint: ExceptionLint,
    file: Seq<u8>,
    flow: Flow,
) -> Flow {
    let st = flow.of(lint);
    match b.count {
        None => flow,
        Some(key) => if !b.active {
            flow
        } else {
            let done = flow.with(lint, BucketState { residual: Seq::empty(), ..st });
            if lines::trimmed(text::utf8(key.reason@)).len() == 0 {
                Flow {
                    out: flow.out.push(
                        at_key(file, key.line, key.key_span, count_without_reason(key, lint)),
                    ) + st.residual,
                    ..done
                }
            } else if key.expected == 0 {
                Flow {
                    out: flow.out.push(
                        at_key(file, key.line, key.key_span, count_of_zero(key, lint)),
                    ) + st.residual,
                    ..done
                }
            } else if st.residual.len() == key.expected {
                flow.with(
                    lint,
                    BucketState {
                        residual: Seq::empty(),
                        counted: st.counted + severities(st.residual),
                        ..st
                    },
                )
            } else {
                Flow {
                    out: (flow.out + st.residual).push(
                        at_key(
                            file,
                            key.line,
                            key.key_span,
                            count_drifted(key, lint, st.residual.len()),
                        ),
                    ),
                    ..done
                }
            }
        },
    }
}

/// The decisions of both count-keys.
pub open spec fn counts_settled(rules: Rules, file: Seq<u8>, flow: Flow) -> Flow {
    let first = count_settled(rules.stale, ExceptionLint::StaleReferences, file, flow);
    count_settled(rules.bare, ExceptionLint::BarePaths, file, first)
}

/// An exception without a reason.
pub open spec fn entry_without_reason(entry: ExceptionEntry, lint: ExceptionLint) -> Seq<u8> {
    text::utf8("exception `"@) + text::utf8(entry.reference@) + text::utf8(
        "` under `exceptions."@,
    ) + lint.key_text() + text::utf8(
        "` has no reason — add one explaining why this is not a live reference (see `lattice help config`)"@,
    )
}

/// An exception that matched nothing.
pub open spec fn entry_unused(entry: ExceptionEntry) -> Seq<u8> {
    text::utf8("unused exception: `"@) + text::utf8(entry.reference@) + text::utf8(
        "` (reason: \""@,
    ) + text::utf8(entry.reason@) + text::utf8(
        "\") — no longer in the document. Drop the exception if its removal was intended; restore the reference if it wasn't (see `lattice help config`)"@,
    )
}

/// What is reported of one entry: that it has no reason, or else that it
/// matched nothing.
pub open spec fn entry_report(
    entry: ExceptionEntry,
    matched: bool,
    lint: ExceptionLint,
    file: Seq<u8>,
) -> Seq<DiagView> {
    if lines::trimmed(text::utf8(entry.reason@)).len() == 0 {
        seq![at_key(file, entry.line, entry.key_span, entry_without_reason(entry, lint))]
    } else if !matched {
        seq![at_key(file, entry.line, entry.key_span, entry_unused(entry))]
    } else {
        Seq::empty()
    }
}

/// What is reported of the first `n` entries.
pub open spec fn entry_reports(
    entries: Seq<ExceptionEntry>,
    matched: Seq<bool>,
    lint: ExceptionLint,
    file: Seq<u8>,
    n: int,
) -> Seq<DiagView>
    decreases n,
{
    if n <= 0 {
        Seq::empty()
    } else {
        entry_reports(entries, matched, lint, file, n - 1) + entry_report(
            entries[n - 1],
            matched[n - 1],
            lint,
            file,
        )
    }
}

/// What is reported of a lint's entries: nothing where the lint is off.
pub open spec fn bucket_reports(
    b: BucketRules,
    st: BucketState,
    lint: ExceptionLint,
    file: Seq<u8>,
) -> Seq<DiagView> {
    if b.active {
        entry_reports(b.entries, st.matched, lint, file, b.entries.len() as int)
    } else {
        Seq::empty()
    }
}

/// The flow after the entries of both lints have been reported on.
pub open spec fn entries_reported(rules: Rules, file: Seq<u8>, flow: Flow) -> Flow {
    Flow {
        out: flow.out + bucket_reports(
            rules.stale,
            flow.stale,
            ExceptionLint::StaleReferences,
            file,
        ) + bucket_reports(rules.bare, flow.bare, ExceptionLint::BarePaths, file),
        ..flow
    }
}

fn key_warning(file: &str, line: usize, span: Span, message: String) -> (d: Diagnostic)
    ensures
        d@ == at_key(path::named(file@), line, span, text::utf8(message@)),
{
    Diagnostic {
        file: text::owned(file),
        line,
        severity: Severity::Warning,
        message,
        span: Some(span),
    }
}

/// Move all diagnostics of one list to the end of another.
fn move_all(from: &mut Vec<Diagnostic>, to: &mut Vec<Diagnostic>)
    ensures
        final(from)@ == Seq::<Diagnostic>::empty(),
        diagnostic::views(final(to)@) == diagnostic::views(old(to)@) + diagnostic::views(
            old(from)@,
        ),
{
    let ghost a = to@;
    let ghost b = from@;
    to.append(from);
    assert(diagnostic::views(to@) =~= diagnostic::views(a) + diagnostic::views(b));
}

impl<'a> LintBucket<'a> {
    fn resolve(
        &mut self,
        lint: ExceptionLint,
        rel_path: &str,
        out: &mut Vec<Diagnostic>,
        Ghost(f0): Ghost<Flow>,
    )
        requires
            old(self).wf(),
            f0.of(lint) == old(self).state(),
            f0.out == diagnostic::views(old(out)@),
        ensures
            final(self).wf(),
            final(self).rules() == old(self).rules(),
            final(self).state() == count_settled(
                old(self).rules(),
                lint,
                path::named(rel_path@),
                f0,
            ).of(lint),
            diagnostic::views(final(out)@) == count_settled(
                old(self).rules(),
                lint,
                path::named(rel_path@),
                f0,
            ).out,
    {
        broadcast use diagnostic::lemma_views_push;

        let ghost file = path::named(rel_path@);
        let ghost target = count_settled(self.rules(), lint, file, f0);
        let Some(key) = self.count_key else {
            return;
        };
        if !self.active {
            return;
        }
        let found = self.residual.len();
        if lines::trim(key.reason.as_str()).as_bytes().len() == 0 {
            let mut message = text::owned("count-key `");
            text::push(&mut message, key.raw.as_str());
            text::push(&mut message, "` under `exceptions.");
            text::push(&mut message, lint.key());
            text::push(
                &mut message,
                "` has no reason — add one explaining why these are not live references (see `lattice help config`)",
            );
            out.push(key_warning(rel_path, key.line, key.key_span, message));
            move_all(&mut self.residual, out);
            assert(diagnostic::views(out@) =~= target.out);
            assert(self.state() =~= target.of(lint));
            return;
        }
        if key.expected == 0 {
            let mut message = text::owned("count-key `");
            text::push(&mut message, key.raw.as_str());
            text::push(&mut message, "` under `exceptions.");
            text::push(&mut message, lint.key());
            text::push(&mut message, "` must be at least 1 (see `lattice help config`)");
            out.push(key_warning(rel_path, key.line, key.key_span, message));
            move_all(&mut self.residual, out);
            assert(diagnostic::views(out@) =~= target.out);
            assert(self.state() =~= target.of(lint));
            return;
        }
        if found == key.expected {
            let ghost before = *self;
            let mut i: usize = 0;
            while i < self.residual.len()
                invariant
                    i <= self.residual@.len(),
                    *self == (LintBucket { counted: self.counted, ..before }),
                    self.counted@ =~= before.counted@ + severities(
                        diagnostic::views(self.residual@).take(i as int),
                    ),
                decreases self.residual@.len() - i,
            {
                self.counted.push(self.residual[i].severity);
                i += 1;
            }
            proof {
                assert(diagnostic::views(self.residual@).take(i as int) =~= diagnostic::views(
                    self.residual@,
                ));
            }
            self.residual = Vec::new();
            assert(self.state() =~= target.of(lint));
            assert(diagnostic::views(out@) =~= target.out);
        } else {
            move_all(&mut self.residual, out);
            let mut message = text::owned("expected ");
            text::push_decimal(&mut message, key.expected);
            text::push(&mut message, " ");
            text::push(&mut message, lint.noun());
            text::push(&mut message, " here, found ");
            text::push_decimal(&mut message, found);
            text::push(
                &mut message,
                " — update the count (and revisit the reason) or fix the drift (see `lattice help config`)",
            );
            out.push(key_warning(rel_path, key.line, key.key_span, message));
            assert(diagnostic::views(out@) =~= target.out);
            assert(self.state() =~= target.of(lint));
        }
    }

    fn report_entries(&self, lint: ExceptionLint, rel_path: &str, out: &mut Vec<Diagnostic>)
        requires
            self.wf(),
        ensures
            diagnostic::views(final(out)@) == diagnostic::views(old(out)@) + bucket_reports(
                self.rules(),
                self.state(),
                lint,
                path::named(rel_path@),
            ),
    {
        broadcast use diagnostic::lemma_views_push;

        let ghost file = path::named(rel_path@);
        let ghost before = diagnostic::views(out@);
        if !self.active {
            assert(before + Seq::<DiagView>::empty() =~= before);
            return;
        }
        let mut i: usize = 0;
        assert(before + Seq::<DiagView>::empty() =~= before);
        while i < self.entries.len()
            invariant
                i <= self.entries@.len(),
                self.wf(),
                file == path::named(rel_path@),
                diagnostic::views(out@) == before + entry_reports(
                    self.entries@,
                    self.matched@,
                    lint,
                    file,
                    i as int,
                ),
            decreases self.entries@.len() - i,
        {
            let entry = &self.entries[i];
            let ghost so_far = diagnostic::views(out@);
            if lines::trim(entry.reason.as_str()).as_bytes().len() == 0 {
                let mut message = text::owned("exception `");
                text::push(&mut message, entry.reference.as_str());
                text::push(&mut message, "` under `exceptions.");
                text::push(&mut message, lint.key());
                text::push(
                    &mut message,
                    "` has no reason — add one explaining why this is not a live reference (see `lattice help config`)",
                );
                out.push(key_warning(rel_path, entry.line, entry.key_span, message));
            } else if !self.matched[i] {
                let mut message = text::owned("unused exception: `");
                text::push(&mut message, entry.reference.as_str());
                text::push(&mut message, "` (reason: \"");
                text::push(&mut message, entry.reason.as_str());
                text::push(
                    &mut message,
                    "\") — no longer in the document. Drop the exception if its removal was intended; restore the reference if it wasn't (see `lattice help config`)",
                );
                out.push(key_warning(rel_path, entry.line, entry.key_span, message));
            }
            proof {
                assert(diagnostic::views(out@) =~= so_far + entry_report(
                    *entry,
                    self.matched@[i as int],
                    lint,
                    file,
                ));
                assert(diagnostic::views(out@) =~= before + entry_reports(
                    self.entries@,
                    self.matched@,
                    lint,
                    file,
                    i + 1,
                ));
            }
            i += 1;
        }
    }

    fn matched_count(&self) -> (n: usize)
        ensures
            n == occurrences(self.state().matched, true),
            n <= self.matched@.len(),
    {
        let mut n: usize = 0;
        let mut i: usize = 0;
        while i < self.matched.len()
            invariant
                i <= self.matched@.len(),
                n <= i,
                n == occurrences(self.matched@.take(i as int), true),
            decreases self.matched@.len() - i,
        {
            assert(self.matched@.take(i + 1).drop_last() =~= self.matched@.take(i as int));
            if self.matched[i] {
                n += 1;
            }
            i += 1;
        }
        assert(self.matched@.take(i as int) =~= self.matched@);
        n
    }

    /// The ledger row of the count-key, if it suppressed anything.
    fn count_row(&self, rows: &mut Vec<CountKeySuppression>)
        ensures
            count_rows(old(rows)@, self.rules(), self.state(), final(rows)@),
    {
        let counts = tally(&self.counted);
        let empty = counts.is_empty();
        proof {
            lemma_tally_empty(counts, self.counted@);
        }
        if let Some(key) = self.count_key {
            if !empty {
                rows.push(
                    CountKeySuppression {
                        reason: key.reason.clone(),
                        raw: key.raw.clone(),
                        counts,
                    },
                );
                assert(rows@.drop_last() =~= old(rows)@);
            }
        }
    }
}

/// Whether `after` is `before` with the row of a count-key that suppressed
/// something behind it.
spec fn count_rows(
    before: Seq<CountKeySuppression>,
    b: BucketRules,
    st: BucketState,
    after: Seq<CountKeySuppression>,
) -> bool {
    match b.count {
        Some(key) if st.counted.len() > 0 => {
            &&& after.len() == before.len() + 1
            &&& after.drop_last() == before
            &&& after.last().reason@ == key.reason@
            &&& after.last().raw@ == key.raw@
            &&& after.last().counts.tallies(st.counted)
        },
        _ => after == before,
    }
}

/// Whether a map holds, for each name in a log, what was filtered under it.
spec fn artifact_rows(
    map: Map<Seq<u8>, SeverityCounts>,
    log: Seq<(Seq<u8>, Severity)>,
) -> bool {
    &&& forall|name: Seq<u8>| #[trigger]
        map.contains_key(name) <==> exists|i: int| 0 <= i < log.len() && (#[trigger] log[i]).0 == name
    &&& forall|name: Seq<u8>, s: Severity|
        map.contains_key(name) ==> #[trigger] map[name].of(s) == occurrences(log, (name, s))
}

/// Whether `r` is the ledger of a file.
spec fn ledger_of(rules: Rules, flow: Flow, file: Seq<u8>, r: FileSuppressions) -> bool {
    &&& path::named(r.file@) == file
    &&& r.exceptions is Some <==> flow.literal.len() > 0
    &&& r.exceptions matches Some(row) ==> row.counts.tallies(flow.literal) && row.matched_entries
        == occurrences(flow.stale.matched, true) + occurrences(flow.bare.matched, true)
    &&& exists|mid: Seq<CountKeySuppression>|
        {
            &&& #[trigger] count_rows(Seq::empty(), rules.stale, flow.stale, mid)
            &&& count_rows(mid, rules.bare, flow.bare, r.count_keys@)
        }
    &&& artifact_rows(r.artifacts@, flow.artifacts)
}

/// The row of a count-key, as text.
#[verifier::ext_equal]
pub struct CountRow {
    pub reason: Seq<u8>,
    pub raw: Seq<u8>,
    pub counts: SeverityCounts,
}

/// A file's suppressions, as text.
#[verifier::ext_equal]
pub struct SuppressionView {
    pub file: Seq<u8>,
    pub exceptions: Option<ExceptionSuppression>,
    pub count_keys: Seq<CountRow>,
    pub artifacts: Map<Seq<u8>, SeverityCounts>,
}

impl View for FileSuppressions {
    type V = SuppressionView;

    open spec fn view(&self) -> SuppressionView {
        SuppressionView {
            file: path::named(self.file@),
            exceptions: self.exceptions,
            count_keys: self.count_keys@.map_values(
                |row: CountKeySuppression|
                    CountRow {
                        reason: text::utf8(row.reason@),
                        raw: text::utf8(row.raw@),
                        counts: row.counts,
                    },
            ),
            artifacts: self.artifacts@,
        }
    }
}

/// The tally of a list of severities.
pub open spec fn counts_of(list: Seq<Severity>) -> SeverityCounts {
    SeverityCounts {
        errors: occurrences(list, Severity::Error) as usize,
        warnings: occurrences(list, Severity::Warning) as usize,
        info: occurrences(list, Severity::Info) as usize,
        hints: occurrences(list, Severity::Hint) as usize,
    }
}

/// The row of a lint's count-key, if it suppressed anything.
pub open spec fn count_row(b: BucketRules, st: BucketState) -> Seq<CountRow> {
    match b.count {
        Some(key) if st.counted.len() > 0 => seq![
            CountRow {
                reason: text::utf8(key.reason@),
                raw: text::utf8(key.raw@),
                counts: counts_of(st.counted),
            },
        ],
        _ => Seq::empty(),
    }
}

/// The severities that were filtered under a name.
pub open spec fn filtered_under(log: Seq<(Seq<u8>, Severity)>, name: Seq<u8>) -> SeverityCounts {
    SeverityCounts {
        errors: occurrences(log, (name, Severity::Error)) as usize,
        warnings: occurrences(log, (name, Severity::Warning)) as usize,
        info: occurrences(log, (name, Severity::Info)) as usize,
        hints: occurrences(log, (name, Severity::Hint)) as usize,
    }
}

/// The ledger of a file: one row for its literal exceptions if they suppressed
/// anything, one for each count-key that did, and one for each filtered name.
pub open spec fn ledger_view(rules: Rules, flow: Flow, file: Seq<u8>) -> SuppressionView {
    SuppressionView {
        file,
        exceptions: if flow.literal.len() > 0 {
            Some(
                ExceptionSuppression {
                    counts: counts_of(flow.literal),
                    matched_entries: (occurrences(flow.stale.matched, true) + occurrences(
                        flow.bare.matched,
                        true,
                    )) as usize,
                },
            )
        } else {
            None
        },
        count_keys: count_row(rules.stale, flow.stale) + count_row(rules.bare, flow.bare),
        artifacts: Map::new(
            |name: Seq<u8>|
                exists|i: int| 0 <= i < flow.artifacts.len() && (#[trigger] flow.artifacts[i]).0
                    == name,
            |name: Seq<u8>| filtered_under(flow.artifacts, name),
        ),
    }
}

proof fn lemma_counts_of(c: SeverityCounts, list: Seq<Severity>)
    requires
        c.tallies(list),
    ensures
        c == counts_of(list),
{
    assert(c.of(Severity::Error) == occurrences(list, Severity::Error));
    assert(c.of(Severity::Warning) == occurrences(list, Severity::Warning));
    assert(c.of(Severity::Info) == occurrences(list, Severity::Info));
    assert(c.of(Severity::Hint) == occurrences(list, Severity::Hint));
}

proof fn lemma_filtered_under(
    map: Map<Seq<u8>, SeverityCounts>,
    log: Seq<(Seq<u8>, Severity)>,
    name: Seq<u8>,
)
    requires
        artifact_rows(map, log),
        map.contains_key(name),
    ensures
        map[name] == filtered_under(log, name),
{
    assert(map[name].of(Severity::Error) == occurrences(log, (name, Severity::Error)));
    assert(map[name].of(Severity::Warning) == occurrences(log, (name, Severity::Warning)));
    assert(map[name].of(Severity::Info) == occurrences(log, (name, Severity::Info)));
    assert(map[name].of(Severity::Hint) == occurrences(log, (name, Severity::Hint)));
}

proof fn lemma_ledger_view(rules: Rules, flow: Flow, file: Seq<u8>, r: FileSuppressions)
    requires
        ledger_of(rules, flow, file, r),
    ensures
        r@ == ledger_view(rules, flow, file),
{
    let v = r@;
    let goal = ledger_view(rules, flow, file);
    if let Some(row) = r.exceptions {
        lemma_counts_of(row.counts, flow.literal);
    }
    let mid = choose|mid: Seq<CountKeySuppression>|
        {
            &&& #[trigger] count_rows(Seq::empty(), rules.stale, flow.stale, mid)
            &&& count_rows(mid, rules.bare, flow.bare, r.count_keys@)
        };
    if rules.stale.count is Some && flow.stale.counted.len() > 0 {
        lemma_counts_of(mid.last().counts, flow.stale.counted);
        assert(mid =~= seq![mid.last()]);
    } else {
        assert(mid =~= Seq::empty());
    }
    if rules.bare.count is Some && flow.bare.counted.len() > 0 {
        lemma_counts_of(r.count_keys@.last().counts, flow.bare.counted);
        assert(r.count_keys@ =~= mid.push(r.count_keys@.last()));
    } else {
        assert(r.count_keys@ =~= mid);
    }
    assert(v.count_keys =~= goal.count_keys);
    assert forall|name: Seq<u8>| #[trigger] v.artifacts.contains_key(name) implies v.artifacts[name]
        == goal.artifacts[name] by {
        lemma_filtered_under(r.artifacts@, flow.artifacts, name);
    }
    assert(v.artifacts =~= goal.artifacts);
}

impl<'a> ExceptionLookup<'a> {
    /// Let the count-keys decide on what waits for them.
    pub fn resolve_count_keys(&mut self, rel_path: &str, out: &mut Vec<Diagnostic>)
        requires
            old(self).wf(),
        ensures
            final(self).wf(),
            final(self).rules() == old(self).rules(),
            final(self).flow(final(out)@) == counts_settled(
                old(self).rules(),
                path::named(rel_path@),
                old(self).flow(old(out)@),
            ),
    {
        let ghost f0 = self.flow(out@);
        let ghost rules = self.rules();
        let ghost file = path::named(rel_path@);
        self.stale_references.resolve(ExceptionLint::StaleReferences, rel_path, out, Ghost(f0));
        let ghost f1 = self.flow(out@);
        proof {
            assert(f1 =~= count_settled(rules.stale, ExceptionLint::StaleReferences, file, f0));
        }
        self.bare_paths.resolve(ExceptionLint::BarePaths, rel_path, out, Ghost(f1));
        assert(self.flow(out@) =~= counts_settled(rules, file, f0));
    }

    /// Report the entries that have no reason or matched nothing.
    pub fn emit_unmatched(&self, rel_path: &str, out: &mut Vec<Diagnostic>)
        requires
            self.wf(),
        ensures
            self.flow(final(out)@) == entries_reported(
                self.rules(),
                path::named(rel_path@),
                self.flow(old(out)@),
            ),
    {
        let ghost f0 = self.flow(out@);
        self.stale_references.report_entries(ExceptionLint::StaleReferences, rel_path, out);
        self.bare_paths.report_entries(ExceptionLint::BarePaths, rel_path, out);
        assert(self.flow(out@) =~= entries_reported(self.rules(), path::named(rel_path@), f0));
    }

    /// The ledger of the file.
    pub fn into_suppressions(self, rel_path: &str) -> (r: FileSuppressions)
        requires
            self.wf(),
            self.rules().stale.entries.len() + self.rules().bare.entries.len() <= usize::MAX,
        ensures
            forall|out: Seq<Diagnostic>|
                r@ == ledger_view(self.rules(), #[trigger] self.flow(out), path::named(rel_path@)),
    {
        let counts = tally(&self.literal_suppressed);
        let empty = counts.is_empty();
        proof {
            lemma_tally_empty(counts, self.literal_suppressed@);
        }
        let matched_entries = self.stale_references.matched_count()
            + self.bare_paths.matched_count();
        let mut count_keys: Vec<CountKeySuppression> = Vec::new();
        self.stale_references.count_row(&mut count_keys);
        let ghost mid = count_keys@;
        self.bare_paths.count_row(&mut count_keys);
        let artifacts = tally_names(&self.artifact_suppressed);
        let exceptions = if empty {
            None
        } else {
            Some(ExceptionSuppression { counts, matched_entries })
        };
        let r = FileSuppressions { file: text::owned(rel_path), exceptions, count_keys, artifacts };
        proof {
            let file = path::named(rel_path@);
            assert forall|out: Seq<Diagnostic>|
                r@ == ledger_view(self.rules(), #[trigger] self.flow(out), file) by {
                assert(count_rows(
                    Seq::empty(),
                    self.rules().stale,
                    self.flow(out).stale,
                    mid,
                ));
                lemma_ledger_view(self.rules(), self.flow(out), file, r);
            }
        }
        r
    }
}

/// Count a log of filtered names.
fn tally_names(log: &Vec<(String, Severity)>) -> (m: SortedMap<SeverityCounts>)
    ensures
        artifact_rows(m@, log_views(log@)),
{
    let mut m: SortedMap<SeverityCounts> = SortedMap::new(KeyOrder::Bytes);
    let ghost all = log_views(log@);
    let mut i: usize = 0;
    while i < log.len()
        invariant
            i <= log@.len(),
            all == log_views(log@),
            artifact_rows(m@, all.take(i as int)),
        decreases log@.len() - i,
    {
        let name = log[i].0.as_str();
        let severity = log[i].1;
        let ghost k = text::utf8(name@);
        let ghost seen = all.take(i as int);
        let ghost next = all.take(i + 1);
        let ghost m0 = m@;
        let mut counts = match m.get(name) {
            Some(c) => *c,
            None => SeverityCounts::default(),
        };
        proof {
            assert(next.drop_last() =~= seen);
            assert(next.last() == (k, severity));
            lemma_occurrences_bound(seen, (k, severity));
            assert forall|s: Severity| #[trigger] counts.of(s) == occurrences(seen, (k, s)) by {
                if !m0.contains_key(k) {
                    lemma_no_occurrence(seen, (k, s));
                }
            }
            assert(counts.of(severity) == occurrences(seen, (k, severity)));
        }
        counts.record(severity);
        m.insert(text::owned(name), counts);
        proof {
            assert forall|x: Seq<u8>| #[trigger] m@.contains_key(x) <==> exists|j: int|
                0 <= j < next.len() && (#[trigger] next[j]).0 == x by {
                if m0.contains_key(x) {
                    let j = choose|j: int| 0 <= j < seen.len() && (#[trigger] seen[j]).0 == x;
                    assert(next[j].0 == x);
                }
                if x == k {
                    assert(next[i as int].0 == x);
                }
                if exists|j: int| 0 <= j < next.len() && (#[trigger] next[j]).0 == x {
                    let j = choose|j: int| 0 <= j < next.len() && (#[trigger] next[j]).0 == x;
                    if j < i {
                        assert(seen[j].0 == x);
                    }
                }
            }
            assert forall|x: Seq<u8>, s: Severity|
                m@.contains_key(x) implies #[trigger] m@[x].of(s) == occurrences(next, (x, s)) by {
                if x != k {
                    assert(m0[x].of(s) == occurrences(seen, (x, s)));
                } else {
                    assert(counts.of(s) == occurrences(next, (k, s)));
                }
            }
        }
        i += 1;
    }
    assert(all.take(i as int) =~= all);
    m
}

proof fn lemma_no_occurrence(log: Seq<(Seq<u8>, Severity)>, x: (Seq<u8>, Severity))
    requires
        forall|i: int| 0 <= i < log.len() ==> (#[trigger] log[i]).0 != x.0,
    ensures
        occurrences(log, x) == 0,
    decreases log.len(),
{
    if log.len() > 0 {
        lemma_no_occurrence(log.drop_last(), x);
        assert(log[log.len() - 1].0 != x.0);
    }
}

} // verus!

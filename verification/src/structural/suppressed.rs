//! What the ledger says of suppressed findings.
use vstd::prelude::*;
use crate::diagnostic::{DiagView, Severity};
use crate::fm::ExceptionLint;
use crate::lines;
use crate::structural::ledger;
use crate::structural::ledger::{BucketRules, CountRow, Flow, Rules, SeverityCounts};
use crate::text;

verus! {

// Tallies.

/// How many findings of a severity a tally has.
pub open spec fn tally(c: SeverityCounts, s: Severity) -> int {
    match s {
        Severity::Error => c.errors as int,
        Severity::Warning => c.warnings as int,
        Severity::Info => c.info as int,
        Severity::Hint => c.hints as int,
    }
}

proof fn lemma_bound<T>(list: Seq<T>, x: T)
    ensures
        ledger::occurrences(list, x) <= list.len(),
    decreases list.len(),
{
    if list.len() > 0 {
        lemma_bound(list.drop_last(), x);
    }
}

/// A tally starts at zero, and one more finding adds one to its severity and nothing
/// to the others.
pub proof fn law_each_severity_is_tallied(list: Seq<Severity>, s: Severity, t: Severity)
    requires
        list.len() < usize::MAX,
    ensures
        tally(ledger::counts_of(Seq::empty()), t) == 0,
        tally(ledger::counts_of(list.push(s)), t) == tally(ledger::counts_of(list), t) + if s == t {
            1int
        } else {
            0
        },
{
    assert(list.push(s).drop_last() =~= list);
    lemma_bound(list, Severity::Error);
    lemma_bound(list, Severity::Warning);
    lemma_bound(list, Severity::Info);
    lemma_bound(list, Severity::Hint);
}

/// The findings of all severities are as many as were tallied.
pub proof fn law_all_severities_are_tallied(list: Seq<Severity>)
    requires
        list.len() <= usize::MAX,
    ensures
        ({
            let c = ledger::counts_of(list);
            c.errors + c.warnings + c.info + c.hints == list.len()
        }),
    decreases list.len(),
{
    if list.len() > 0 {
        let s = list.last();
        let rest = list.drop_last();
        law_all_severities_are_tallied(rest);
        assert(rest.push(s) =~= list);
        law_each_severity_is_tallied(rest, s, Severity::Error);
        law_each_severity_is_tallied(rest, s, Severity::Warning);
        law_each_severity_is_tallied(rest, s, Severity::Info);
        law_each_severity_is_tallied(rest, s, Severity::Hint);
    }
}

// Rows.

/// A finding about a name of the glossary is filed under the name, one more of its
/// severity than before; no other row changes.
pub proof fn law_filtered_findings_are_on_the_ledger(
    rules: Rules,
    flow: Flow,
    file: Seq<u8>,
    lint: ExceptionLint,
    reference: Seq<u8>,
    diag: DiagView,
)
    requires
        rules.artifacts.contains_key(reference),
        flow.artifacts.len() < usize::MAX,
    ensures
        ({
            let before = ledger::ledger_view(rules, flow, file);
            let after = ledger::ledger_view(
                rules,
                ledger::routed(rules, flow, lint, reference, diag),
                file,
            );
            &&& after.file == file
            &&& after.artifacts.contains_key(reference)
            &&& tally(after.artifacts[reference], diag.severity) == 1 + if before.artifacts.contains_key(
                reference,
            ) {
                tally(before.artifacts[reference], diag.severity)
            } else {
                0
            }
            &&& forall|name: Seq<u8>|
                name != reference ==> #[trigger] after.artifacts.contains_key(name)
                    == before.artifacts.contains_key(name)
            &&& after.exceptions == before.exceptions
            &&& after.count_keys == before.count_keys
        }),
{
    let log = flow.artifacts;
    let more = log.push((reference, diag.severity));
    let before = ledger::ledger_view(rules, flow, file);
    let after = ledger::ledger_view(
        rules,
        ledger::routed(rules, flow, lint, reference, diag),
        file,
    );
    assert(more.drop_last() =~= log);
    assert(more[log.len() as int].0 == reference);
    lemma_bound(log, (reference, diag.severity));
    if !before.artifacts.contains_key(reference) {
        lemma_none(log, reference, diag.severity);
    }
    assert forall|name: Seq<u8>| name != reference implies #[trigger] after.artifacts.contains_key(
        name,
    ) == before.artifacts.contains_key(name) by {
        if before.artifacts.contains_key(name) {
            let i = choose|i: int| 0 <= i < log.len() && (#[trigger] log[i]).0 == name;
            assert(more[i].0 == name);
        }
        if after.artifacts.contains_key(name) {
            let i = choose|i: int| 0 <= i < more.len() && (#[trigger] more[i]).0 == name;
            assert(log[i].0 == name);
        }
    }
}

proof fn lemma_none(log: Seq<(Seq<u8>, Severity)>, name: Seq<u8>, s: Severity)
    requires
        forall|i: int| 0 <= i < log.len() ==> (#[trigger] log[i]).0 != name,
    ensures
        ledger::occurrences(log, (name, s)) == 0,
    decreases log.len(),
{
    if log.len() > 0 {
        let rest = log.drop_last();
        assert forall|i: int| 0 <= i < rest.len() implies (#[trigger] rest[i]).0 != name by {
            assert(rest[i] == log[i]);
        }
        lemma_none(rest, name, s);
        assert(log[log.len() - 1].0 != name);
    }
}

proof fn lemma_flip(flags: Seq<bool>, k: int)
    requires
        0 <= k < flags.len(),
        !flags[k],
    ensures
        ledger::occurrences(flags.update(k, true), true) == ledger::occurrences(flags, true) + 1,
    decreases flags.len(),
{
    let more = flags.update(k, true);
    if k == flags.len() - 1 {
        assert(more.drop_last() =~= flags.drop_last());
    } else {
        assert(more.drop_last() =~= flags.drop_last().update(k, true));
        lemma_flip(flags.drop_last(), k);
    }
}

/// A finding that an exception claims is on the row of the exceptions, one more of
/// its severity than before; the first one that an exception claims makes it count as
/// matched.
pub proof fn law_excepted_findings_are_on_the_ledger(
    rules: Rules,
    flow: Flow,
    file: Seq<u8>,
    lint: ExceptionLint,
    reference: Seq<u8>,
    diag: DiagView,
    k: int,
)
    requires
        !rules.artifacts.contains_key(reference),
        rules.of(lint).active,
        0 <= k < rules.of(lint).entries.len(),
        text::utf8(rules.of(lint).entries[k].reference@) == reference,
        forall|i: int|
            0 <= i < rules.of(lint).entries.len() && i != k ==> text::utf8(
                (#[trigger] rules.of(lint).entries[i]).reference@,
            ) != reference,
        flow.of(lint).matched.len() == rules.of(lint).entries.len(),
        flow.literal.len() < usize::MAX,
        flow.stale.matched.len() + flow.bare.matched.len() <= usize::MAX,
    ensures
        ({
            let before = ledger::ledger_view(rules, flow, file);
            let after = ledger::ledger_view(
                rules,
                ledger::routed(rules, flow, lint, reference, diag),
                file,
            );
            &&& after.exceptions is Some
            &&& before.exceptions is Some ==> tally(after.exceptions->0.counts, diag.severity)
                == tally(before.exceptions->0.counts, diag.severity) + 1
            &&& before.exceptions is None ==> tally(after.exceptions->0.counts, diag.severity) == 1
            &&& before.exceptions is Some ==> after.exceptions->0.matched_entries
                == before.exceptions->0.matched_entries + if flow.of(lint).matched[k] {
                0int
            } else {
                1
            }
            &&& after.artifacts == before.artifacts
        }),
{
    let b = rules.of(lint);
    let flags = flow.of(lint).matched;
    let s = diag.severity;
    law_each_severity_is_tallied(flow.literal, s, s);
    if flow.literal.len() == 0 {
        assert(flow.literal =~= Seq::empty());
    }
    assert(ledger::excepted(b.entries, reference));
    let more = ledger::marked(b.entries, flags, reference);
    if flags[k] {
        assert(more =~= flags);
    } else {
        assert(more =~= flags.update(k, true));
        lemma_flip(flags, k);
    }
    lemma_bound(flow.stale.matched, true);
    lemma_bound(flow.bare.matched, true);
    lemma_bound(more, true);
    let before = ledger::ledger_view(rules, flow, file);
    let after = ledger::ledger_view(
        rules,
        ledger::routed(rules, flow, lint, reference, diag),
        file,
    );
    assert(after.artifacts =~= before.artifacts);
}

// Count-keys.

/// A count-key without a reason, of zero, or of another number than was found holds
/// nothing back: all of its findings come out, and one warning at the key besides.
pub proof fn law_idle_counts_hold_nothing_back(
    b: BucketRules,
    lint: ExceptionLint,
    file: Seq<u8>,
    flow: Flow,
)
    requires
        b.active,
        b.count is Some,
        ({
            let reason = text::utf8(b.count->0.reason@);
            ||| forall|i: int| 0 <= i < reason.len() ==> lines::is_white(#[trigger] reason[i])
            ||| b.count->0.expected == 0
            ||| b.count->0.expected != flow.of(lint).residual.len()
        }),
    ensures
        ({
            let held = flow.of(lint).residual;
            let end = ledger::count_settled(b, lint, file, flow);
            &&& end.out.len() == flow.out.len() + held.len() + 1
            &&& forall|i: int| 0 <= i < flow.out.len() ==> #[trigger] end.out[i] == flow.out[i]
            &&& forall|d: DiagView| held.contains(d) ==> #[trigger] end.out.contains(d)
            &&& exists|d: DiagView| #[trigger]
                end.out.contains(d) && d.file == file && d.line == b.count->0.line
                    && d.severity == Severity::Warning && d.span == Some(b.count->0.key_span)
            &&& end.of(lint).counted == flow.of(lint).counted
        }),
{
    let key = b.count->0;
    let reason = text::utf8(key.reason@);
    let held = flow.of(lint).residual;
    let end = ledger::count_settled(b, lint, file, flow);
    if forall|i: int| 0 <= i < reason.len() ==> lines::is_white(#[trigger] reason[i]) {
        lines::law_white_space_is_trimmed_away(reason);
    }
    let blank = lines::trimmed(reason).len() == 0;
    let message = if blank {
        ledger::count_without_reason(key, lint)
    } else if key.expected == 0 {
        ledger::count_of_zero(key, lint)
    } else {
        ledger::count_drifted(key, lint, held.len())
    };
    let d = ledger::at_key(file, key.line, key.key_span, message);
    let n = flow.out.len() as int;
    if blank || key.expected == 0 {
        assert(end.out == flow.out.push(d) + held);
        assert(end.out[n] == d);
        assert forall|x: DiagView| held.contains(x) implies #[trigger] end.out.contains(x) by {
            let i = choose|i: int| 0 <= i < held.len() && held[i] == x;
            assert(end.out[n + 1 + i] == x);
        }
    } else {
        assert(end.out == (flow.out + held).push(d));
        assert(end.out[n + held.len()] == d);
        assert forall|x: DiagView| held.contains(x) implies #[trigger] end.out.contains(x) by {
            let i = choose|i: int| 0 <= i < held.len() && held[i] == x;
            assert(end.out[n + i] == x);
        }
    }
    assert(end.out.contains(d));
}

/// A count-key that held its findings back has a row on the ledger, with its words and
/// as many findings as it expected.
pub proof fn law_counted_findings_are_on_the_ledger(
    rules: Rules,
    lint: ExceptionLint,
    file: Seq<u8>,
    flow: Flow,
)
    requires
        rules.of(lint).active,
        rules.of(lint).count is Some,
        lines::trimmed(text::utf8(rules.of(lint).count->0.reason@)).len() > 0,
        rules.of(lint).count->0.expected >= 1,
        flow.of(lint).residual.len() == rules.of(lint).count->0.expected,
        flow.of(lint).counted.len() == 0,
    ensures
        ({
            let key = rules.of(lint).count->0;
            let end = ledger::count_settled(rules.of(lint), lint, file, flow);
            let rows = ledger::ledger_view(rules, end, file).count_keys;
            exists|i: int|
                0 <= i < rows.len() && {
                    let row: CountRow = #[trigger] rows[i];
                    &&& row.raw == text::utf8(key.raw@)
                    &&& row.reason == text::utf8(key.reason@)
                    &&& row.counts.errors + row.counts.warnings + row.counts.info + row.counts.hints
                        == key.expected
                }
        }),
{
    let b = rules.of(lint);
    let held = ledger::severities(flow.of(lint).residual);
    let end = ledger::count_settled(b, lint, file, flow);
    assert(flow.of(lint).counted + held =~= held);
    law_all_severities_are_tallied(held);
    let rows = ledger::ledger_view(rules, end, file).count_keys;
    let first = ledger::count_row(rules.stale, end.stale);
    match lint {
        ExceptionLint::StaleReferences => {
            assert(rows[0] == first[0]);
        },
        ExceptionLint::BarePaths => {
            assert(rows[first.len() as int] == ledger::count_row(rules.bare, end.bare)[0]);
        },
    }
}

} // verus!

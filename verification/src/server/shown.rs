//! What the documents of a root show: of each one the findings about it, from its
//! buffer where it has one, without those that verdicts hold back.
use vstd::prelude::*;
use crate::diagnostic;
use crate::diagnostic::{DiagView, Severity};
use crate::fm::ExceptionLint;
use crate::overrides;
use crate::overrides::VerdictsView;
use crate::order;
use crate::path;
use crate::server::markers;
use crate::server::publish;
use crate::server::publish::Adjudication;
use crate::server::rows;
use crate::server::workspaces;
use crate::server::workspaces::{MetaView, State};
use crate::sorted;
use crate::sorted::KeyOrder;
use crate::store;
use crate::structural::ledger;
use crate::text;
use crate::validation;
use crate::workspace::{FileView, Graph};

verus! {

// Verdicts.

/// Whether a message starts with the words of a lint.
pub open spec fn is_of(message: Seq<u8>, lint: ExceptionLint) -> bool {
    match lint {
        ExceptionLint::StaleReferences => starts(message, text::utf8("stale reference:"@)),
        ExceptionLint::BarePaths => !starts(message, text::utf8("stale reference:"@)) && (starts(
            message,
            text::utf8("bare path "@),
        ) || starts(message, text::utf8("bare URL "@)) || starts(
            message,
            text::utf8("quoted path "@),
        ) || starts(message, text::utf8("backticked path "@))),
    }
}

/// Whether a text starts with another.
pub open spec fn starts(b: Seq<u8>, head: Seq<u8>) -> bool {
    exists|tail: Seq<u8>| b == #[trigger] (head + tail)
}

proof fn lemma_starts(b: Seq<u8>, head: Seq<u8>)
    ensures
        text::has_prefix(b, head) == starts(b, head),
{
    if text::has_prefix(b, head) {
        let tail = b.subrange(head.len() as int, b.len() as int);
        assert(b =~= head + tail);
    }
    if starts(b, head) {
        let tail = choose|tail: Seq<u8>| b == #[trigger] (head + tail);
        assert(b.subrange(0, head.len() as int) =~= head);
    }
}

/// The lint of a finding is told by the words that its message starts with.
pub proof fn law_lints_are_told_by_their_words(message: Seq<u8>, lint: ExceptionLint)
    ensures
        (ledger::lint_of(message) == Some(lint)) == is_of(message, lint),
{
    lemma_starts(message, text::utf8("stale reference:"@));
    lemma_starts(message, text::utf8("bare path "@));
    lemma_starts(message, text::utf8("bare URL "@));
    lemma_starts(message, text::utf8("quoted path "@));
    lemma_starts(message, text::utf8("backticked path "@));
}

/// Whether a verdict whose count matched is for a finding.
pub open spec fn is_covered(verdicts: VerdictsView, d: DiagView) -> bool {
    exists|i: int, m: int|
        #![trigger verdicts.entries[i].members[m]]
        0 <= i < verdicts.entries.len() && 0 <= m < verdicts.entries[i].members.len()
            && verdicts.entries[i].drift is None && verdicts.entries[i].members[m] == d.file
            && is_of(d.message, verdicts.entries[i].lint)
}

proof fn lemma_covered(verdicts: VerdictsView, d: DiagView)
    ensures
        overrides::held_back(verdicts, d) == is_covered(verdicts, d),
{
    if overrides::held_back(verdicts, d) {
        let i = choose|i: int|
            0 <= i < verdicts.entries.len() && overrides::holds_back(
                #[trigger] verdicts.entries[i],
                d,
            );
        let v = verdicts.entries[i];
        law_lints_are_told_by_their_words(d.message, v.lint);
        let m = choose|m: int| 0 <= m < v.members.len() && v.members[m] == d.file;
        assert(verdicts.entries[i].members[m] == d.file);
    }
    if is_covered(verdicts, d) {
        let (i, m) = choose|i: int, m: int|
            #![trigger verdicts.entries[i].members[m]]
            0 <= i < verdicts.entries.len() && 0 <= m < verdicts.entries[i].members.len()
                && verdicts.entries[i].drift is None && verdicts.entries[i].members[m] == d.file
                && is_of(d.message, verdicts.entries[i].lint);
        law_lints_are_told_by_their_words(d.message, verdicts.entries[i].lint);
        assert(verdicts.entries[i].members.contains(d.file));
        assert(overrides::holds_back(verdicts.entries[i], d));
    }
}

/// Verdicts hold back the findings that they are for, and no other.
pub proof fn law_verdicts_hold_back_what_they_are_for(
    verdicts: VerdictsView,
    list: Seq<DiagView>,
    d: DiagView,
)
    ensures
        overrides::let_through(verdicts, list).contains(d) == (list.contains(d) && !is_covered(
            verdicts,
            d,
        )),
    decreases list.len(),
{
    if list.len() > 0 {
        let most = list.drop_last();
        let rest = overrides::let_through(verdicts, most);
        law_verdicts_hold_back_what_they_are_for(verdicts, most, d);
        lemma_covered(verdicts, list.last());
        lemma_covered(verdicts, d);
        assert(list =~= most + seq![list.last()]);
        diagnostic::lemma_either(most, seq![list.last()], d);
        assert(seq![list.last()].contains(d) == (list.last() == d)) by {
            if list.last() == d {
                assert(seq![list.last()][0] == d);
            }
        }
        if !overrides::held_back(verdicts, list.last()) {
            assert(rest.push(list.last()) =~= rest + seq![list.last()]);
            diagnostic::lemma_either(rest, seq![list.last()], d);
        }
    }
}

// Files.

/// Findings are grouped by the file that they are about, in their order.
pub proof fn law_findings_are_grouped_by_file(list: Seq<DiagView>, file: Seq<u8>, d: DiagView)
    ensures
        publish::rows_at(publish::grouped(list), file).contains(d) == (list.contains(d) && d.file
            == file),
        publish::rows_at(publish::grouped(list), file).to_multiset().count(d) == if d.file
            == file {
            list.to_multiset().count(d)
        } else {
            0
        },
{
    lemma_grouped(list, file);
    rows::law_rows_of_a_file_are_kept(list, file, d);
}

proof fn lemma_grouped(list: Seq<DiagView>, file: Seq<u8>)
    ensures
        publish::rows_at(publish::grouped(list), file) == rows::rows_for(list, file),
    decreases list.len(),
{
    if list.len() > 0 {
        lemma_grouped(list.drop_last(), file);
        lemma_grouped(list.drop_last(), list.last().file);
    }
}

// Roots.

/// Whether a document of a root has a buffer, by its path in the root.
pub open spec fn has_buffer(s: State, root: Seq<u8>, rel: Seq<u8>) -> bool {
    let abs = path::absolute(root, rel);
    s.store.overlay.contains_key(abs) && s.store.overlay[abs].root == Some(root)
}

/// The documents that a document of a root is judged among: the saved ones, and its
/// own buffer in the place of its saved copy where it has one.
pub open spec fn judged_among(s: State, root: Seq<u8>, rel: Seq<u8>) -> Graph {
    let saved = store::files_of(s.store.saved, root);
    workspaces::graph_over(
        s,
        root,
        if has_buffer(s, root, rel) {
            saved.insert(rel, s.store.overlay[path::absolute(root, rel)].data)
        } else {
            saved
        },
    )
}

proof fn lemma_merged(
    s: State,
    root: Seq<u8>,
    keys: Seq<Seq<u8>>,
    live: Seq<DiagView>,
    on_disk: Map<Seq<u8>, ()>,
    rel: Seq<u8>,
)
    ensures
        ({
            let abs = path::absolute(root, rel);
            let all = publish::merged(live, publish::perspectives_of(s, root, keys), on_disk);
            publish::rows_at(all, rel) == if keys.contains(abs) && s.store.overlay.contains_key(
                abs,
            ) {
                rows::rows_for(
                    rows::live_rows(
                        workspaces::graph_over(s, root, store::perspective(s.store, root, abs)),
                        on_disk,
                    ),
                    rel,
                )
            } else {
                rows::rows_for(live, rel)
            }
        }),
    decreases keys.len(),
{
    let abs = path::absolute(root, rel);
    if keys.len() == 0 {
        lemma_grouped(live, rel);
    } else {
        let most = keys.drop_last();
        let k = keys.last();
        lemma_merged(s, root, most, live, on_disk, rel);
        let rest = publish::perspectives_of(s, root, most);
        let all = publish::perspectives_of(s, root, keys);
        assert(keys =~= most + seq![k]);
        diagnostic::lemma_either(most, seq![k], abs);
        assert(seq![k].contains(abs) == (k == abs)) by {
            if k == abs {
                assert(seq![k][0] == abs);
            }
        }
        path::lemma_absolute(root, rel);
        if s.store.overlay.contains_key(k) && path::under(k, root) {
            path::lemma_relative(k, root);
            assert(all.drop_last() =~= rest);
            if path::relative(k, root) == rel {
                assert(k == abs);
            }
        }
    }
}

/// What a root with a written configuration should show of a document, when all are
/// looked at: the findings about it among the documents that it is judged among,
/// but for those that the verdicts are for; the verdicts just found at a commitment,
/// and the ones held since the last one between commitments.
pub proof fn law_documents_show_their_findings(
    s: State,
    root: Seq<u8>,
    meta: MetaView,
    adjudication: Adjudication,
    fresh: VerdictsView,
    on_disk: Map<Seq<u8>, ()>,
    rel: Seq<u8>,
    d: DiagView,
)
    requires
        meta.committed,
        s.store.overlay.dom().finite(),
        rel != publish::marker_name(),
    ensures
        ({
            let shown = publish::desired_rows(s, root, meta, adjudication, fresh, None, on_disk);
            let verdicts = match adjudication {
                Adjudication::Commit => fresh,
                Adjudication::Held => meta.verdicts,
            };
            publish::rows_at(shown, rel).contains(d) == (rows::live_rows(
                judged_among(s, root, rel),
                on_disk,
            ).contains(d) && d.file == rel && !is_covered(verdicts, d))
        }),
{
    let abs = path::absolute(root, rel);
    let owned = store::docs_owned(s.store.overlay, root);
    let keys = sorted::keys_of(KeyOrder::Path, owned);
    let live = publish::saved_rows(s, root, on_disk);
    let all = publish::merged(live, publish::perspectives_of(s, root, keys), on_disk);
    let verdicts = match adjudication {
        Adjudication::Commit => fresh,
        Adjudication::Held => meta.verdicts,
    };
    vstd::set_lib::lemma_set_subset_finite(s.store.overlay.dom(), owned.dom());
    sorted::lemma_keys_listed(KeyOrder::Path, owned);
    path::lemma_absolute(root, rel);
    assert(keys.contains(abs) == owned.contains_key(abs));
    assert(keys.contains(abs) == has_buffer(s, root, rel));
    lemma_merged(s, root, keys, live, on_disk, rel);
    let graph = judged_among(s, root, rel);
    assert(publish::rows_at(all, rel) == rows::rows_for(rows::live_rows(graph, on_disk), rel));
    rows::law_rows_of_a_file_are_kept(rows::live_rows(graph, on_disk), rel, d);
    let list = publish::rows_at(all, rel);
    law_verdicts_hold_back_what_they_are_for(verdicts, list, d);
    let shown = publish::desired_rows(s, root, meta, adjudication, fresh, None, on_disk);
    if all.contains_key(rel) {
        assert(publish::rows_at(shown, rel) == overrides::let_through(verdicts, list));
    } else {
        assert(publish::rows_at(shown, rel).len() == 0);
        assert(list.len() == 0);
    }
}

/// The configuration of a root shows why it could not be loaded, and, where somebody
/// wrote it, the overrides that are for no document and those whose count drifted;
/// each as a warning on its first line, the failure as an error.
pub proof fn law_configurations_show_what_is_wrong(
    meta: MetaView,
    verdicts: VerdictsView,
    d: DiagView,
)
    ensures
        publish::channel_rows(meta, verdicts).contains(d) == {
            &&& d.file == text::utf8(".lattice.toml"@)
            &&& d.line == 1
            &&& d.span is None
            &&& {
                ||| d.severity == Severity::Error && meta.error == Some(d.message)
                ||| {
                    &&& d.severity == Severity::Warning
                    &&& meta.committed
                    &&& verdicts.unused.contains(d.message) || exists|i: int|
                        0 <= i < verdicts.entries.len() && (#[trigger] verdicts.entries[i]).drift
                            == Some(d.message)
                }
            }
        },
{
    let a = match meta.error {
        Some(message) => seq![publish::about_config(Severity::Error, message)],
        None => Seq::empty(),
    };
    let u = publish::unused_rows(verdicts.unused);
    let w = publish::drift_rows(verdicts.entries);
    let b = if meta.committed {
        u + w
    } else {
        Seq::empty()
    };
    diagnostic::lemma_either(a, b, d);
    diagnostic::lemma_either(u, w, d);
    lemma_drifted(verdicts.entries, d);
    if u.contains(d) {
        let i = choose|i: int| 0 <= i < u.len() && u[i] == d;
        assert(verdicts.unused[i] == d.message);
    }
    if verdicts.unused.contains(d.message) {
        let i = choose|i: int| 0 <= i < verdicts.unused.len() && verdicts.unused[i] == d.message;
        assert(u[i] == publish::about_config(Severity::Warning, d.message));
    }
    if a.contains(d) {
        let i = choose|i: int| 0 <= i < a.len() && a[i] == d;
        assert(i == 0);
    }
    if meta.error == Some(d.message) {
        assert(a[0] == publish::about_config(Severity::Error, d.message));
    }
}

proof fn lemma_drifted(entries: Seq<overrides::VerdictView>, d: DiagView)
    ensures
        publish::drift_rows(entries).contains(d) == (d == publish::about_config(
            Severity::Warning,
            d.message,
        ) && exists|i: int|
            0 <= i < entries.len() && (#[trigger] entries[i]).drift == Some(d.message)),
    decreases entries.len(),
{
    if entries.len() > 0 {
        let most = entries.drop_last();
        let rest = publish::drift_rows(most);
        lemma_drifted(most, d);
        if exists|i: int| 0 <= i < most.len() && (#[trigger] most[i]).drift == Some(d.message) {
            let i = choose|i: int| 0 <= i < most.len() && (#[trigger] most[i]).drift == Some(
                d.message,
            );
            assert(entries[i] == most[i]);
        }
        if exists|i: int| 0 <= i < entries.len() && (#[trigger] entries[i]).drift == Some(d.message) {
            let i = choose|i: int| 0 <= i < entries.len() && (#[trigger] entries[i]).drift == Some(
                d.message,
            );
            if i < most.len() {
                assert(most[i] == entries[i]);
            }
        }
        if let Some(message) = entries.last().drift {
            let one = publish::about_config(Severity::Warning, message);
            assert(rest.push(one) =~= rest + seq![one]);
            diagnostic::lemma_either(rest, seq![one], d);
            assert(seq![one].contains(d) == (one == d)) by {
                if one == d {
                    assert(seq![one][0] == d);
                }
            }
            assert(entries[entries.len() - 1].drift == Some(message));
        }
    }
}

/// All findings of a view are the documents' own and those on the graph, and no
/// other.
pub proof fn law_a_view_has_all_findings(g: Graph, on_disk: Map<Seq<u8>, ()>, d: DiagView)
    ensures
        rows::live_rows(g, on_disk).contains(d) == {
            ||| exists|i: int|
                0 <= i < g.files.names.len() && (#[trigger] g.files.data[i]).structural.contains(d)
            ||| validation::graph_findings(g, on_disk).contains(d)
        },
{
    let n = g.files.keys().len() as int;
    let a = rows::cached_rows(g, n);
    let b = validation::graph_findings(g, on_disk);
    diagnostic::lemma_report_order_contains(b, d);
    diagnostic::lemma_either(a, diagnostic::in_report_order(b), d);
    diagnostic::lemma_report_order_contains(a + diagnostic::in_report_order(b), d);
    lemma_cached(g, n, d);
}

proof fn lemma_cached(g: Graph, n: int, d: DiagView)
    requires
        0 <= n,
    ensures
        rows::cached_rows(g, n).contains(d) == exists|i: int|
            0 <= i < n && (#[trigger] g.files.data[i]).structural.contains(d),
    decreases n,
{
    if n > 0 {
        lemma_cached(g, n - 1, d);
        diagnostic::lemma_either(
            rows::cached_rows(g, n - 1),
            g.files.values()[n - 1].structural,
            d,
        );
    }
}

/// A view of a root has every document that it is made of, under its name, and no
/// other; in the order of the names.
pub proof fn law_a_view_has_every_document(
    s: State,
    root: Seq<u8>,
    files: Map<Seq<u8>, FileView>,
    rel: Seq<u8>,
)
    requires
        files.dom().finite(),
    ensures
        ({
            let g = workspaces::graph_over(s, root, files);
            &&& g.root == root
            &&& g.files.names.len() == g.files.data.len()
            &&& files.contains_key(rel) <==> exists|i: int|
                0 <= i < g.files.names.len() && #[trigger] g.files.names[i] == rel
            &&& forall|i: int|
                0 <= i < g.files.names.len() && #[trigger] g.files.names[i] == rel
                    ==> g.files.data[i] == files[rel]
            &&& forall|i: int, j: int|
                0 <= i < j < g.files.names.len() ==> order::path_before(
                    #[trigger] g.files.names[i],
                    #[trigger] g.files.names[j],
                )
        }),
{
    sorted::lemma_keys_listed(KeyOrder::Path, files);
    let g = workspaces::graph_over(s, root, files);
    let names = sorted::keys_of(KeyOrder::Path, files);
    assert(names.contains(rel) == files.contains_key(rel));
    assert forall|i: int, j: int| 0 <= i < j < names.len() implies order::path_before(
        #[trigger] names[i],
        #[trigger] names[j],
    ) by {
        assert(sorted::before(KeyOrder::Path, names[i], names[j]));
    }
    if files.contains_key(rel) {
        let i = choose|i: int| 0 <= i < names.len() && names[i] == rel;
        assert(g.files.names[i] == rel);
    }
}

/// A directory has the scope that is registered there, by its own name or with
/// symbolic links resolved; none only where none is.
pub proof fn law_scopes_are_found_at_their_directory(s: State, dir: Seq<u8>)
    requires
        s.roots.dom().finite(),
    ensures
        markers::registered_at(s, dir) is None <==> forall|root: Seq<u8>| #[trigger]
            s.roots.contains_key(root) ==> root != dir && s.roots[root].canonical != dir,
        markers::registered_at(s, dir) matches Some(root) ==> s.roots.contains_key(root) && (root
            == dir || s.roots[root].canonical == dir),
{
    let keys = sorted::keys_of(KeyOrder::Path, s.roots);
    sorted::lemma_keys_listed(KeyOrder::Path, s.roots);
    lemma_root_at(keys, s.roots, dir);
    assert forall|root: Seq<u8>| #[trigger] s.roots.contains_key(root) implies keys.contains(
        root,
    ) by {}
    match markers::root_at(keys, s.roots, dir) {
        Some(root) => {
            assert(keys.contains(root));
        },
        None => {
            assert forall|root: Seq<u8>| #[trigger] s.roots.contains_key(root) implies root != dir
                && s.roots[root].canonical != dir by {
                assert(keys.contains(root));
                let i = choose|i: int| 0 <= i < keys.len() && keys[i] == root;
                assert(keys[i] == root);
            }
        },
    }
}

proof fn lemma_root_at(keys: Seq<Seq<u8>>, roots: Map<Seq<u8>, MetaView>, dir: Seq<u8>)
    ensures
        match markers::root_at(keys, roots, dir) {
            Some(root) => keys.contains(root) && (root == dir || roots[root].canonical == dir),
            None => forall|i: int|
                0 <= i < keys.len() ==> #[trigger] keys[i] != dir && roots[keys[i]].canonical != dir,
        },
    decreases keys.len(),
{
    if keys.len() > 0 {
        let rest = keys.drop_first();
        if keys[0] == dir || roots[keys[0]].canonical == dir {
            assert(keys.contains(keys[0]));
        } else {
            lemma_root_at(rest, roots, dir);
            match markers::root_at(rest, roots, dir) {
                Some(root) => {
                    let i = choose|i: int| 0 <= i < rest.len() && rest[i] == root;
                    assert(keys[i + 1] == root);
                },
                None => {
                    assert forall|i: int| 0 <= i < keys.len() implies #[trigger] keys[i] != dir
                        && roots[keys[i]].canonical != dir by {
                        if i > 0 {
                            assert(rest[i - 1] == keys[i]);
                        }
                    }
                },
            }
        }
    }
}

// Passes about one document.

/// What a root with a written configuration should show when one document of it is
/// looked at, which has a buffer or was just saved: the same findings about that
/// document as when all are looked at, and nothing about any other document.
pub proof fn law_one_document_shows_its_findings(
    s: State,
    root: Seq<u8>,
    meta: MetaView,
    adjudication: Adjudication,
    fresh: VerdictsView,
    on_disk: Map<Seq<u8>, ()>,
    rel: Seq<u8>,
    other: Seq<u8>,
    d: DiagView,
)
    requires
        meta.committed,
        rel != publish::marker_name(),
        other != publish::marker_name(),
        s.store.current().contains_key(path::absolute(root, rel)),
        s.store.current()[path::absolute(root, rel)].root == Some(root),
        has_buffer(s, root, rel) || adjudication == Adjudication::Commit,
    ensures
        ({
            let shown = publish::desired_rows(
                s,
                root,
                meta,
                adjudication,
                fresh,
                Some(path::absolute(root, rel)),
                on_disk,
            );
            let verdicts = match adjudication {
                Adjudication::Commit => fresh,
                Adjudication::Held => meta.verdicts,
            };
            &&& shown.contains_key(rel)
            &&& shown[rel].contains(d) == (rows::live_rows(
                judged_among(s, root, rel),
                on_disk,
            ).contains(d) && d.file == rel && !is_covered(verdicts, d))
            &&& other != rel ==> !shown.contains_key(other)
        }),
{
    let abs = path::absolute(root, rel);
    path::lemma_absolute(root, rel);
    let keys = seq![abs];
    assert(keys[0] == abs);
    assert(keys.contains(abs));
    let live = if adjudication == Adjudication::Held {
        Seq::empty()
    } else {
        publish::saved_rows(s, root, on_disk)
    };
    let all = publish::merged(live, publish::perspectives_of(s, root, keys), on_disk);
    let verdicts = match adjudication {
        Adjudication::Commit => fresh,
        Adjudication::Held => meta.verdicts,
    };
    lemma_merged(s, root, keys, live, on_disk, rel);
    let graph = judged_among(s, root, rel);
    assert(s.store.overlay.contains_key(abs) == has_buffer(s, root, rel));
    assert(publish::rows_at(all, rel) == rows::rows_for(rows::live_rows(graph, on_disk), rel));
    rows::law_rows_of_a_file_are_kept(rows::live_rows(graph, on_disk), rel, d);
    let list = publish::rows_at(all, rel);
    law_verdicts_hold_back_what_they_are_for(verdicts, list, d);
    assert(publish::concerns(s, root, Some(abs)));
    let computed = publish::computed_rows(s, root, adjudication, Some(abs), on_disk);
    assert(computed == Map::<Seq<u8>, Seq<DiagView>>::empty().insert(rel, list));
}

} // verus!

//! When diagnostics are sent, for which documents, and against what they are
//! judged.
//!
//! Publication is a difference: what should be shown is computed for each root,
//! filtered through the verdicts on its overrides, brought into the form that is
//! sent only where it moved, and compared with what the client holds.
use vstd::prelude::*;
use crate::diagnostic;
use crate::diagnostic::{DiagView, Diagnostic, Severity};
use crate::overrides;
use crate::overrides::{OverrideVerdicts, VerdictKind, VerdictView, VerdictsView};
use crate::path;
use crate::pathmap::PathMap;
use crate::server::rows;
use crate::server::upkeep;
use crate::server::workspaces;
use crate::server::workspaces::{ConfigError, MetaView, RootMeta, State, Workspaces};
use crate::sorted;
use crate::sorted::{KeyOrder, SortedMap};
use crate::store;
use crate::text;
use crate::workspace::{Graph, WorkspaceView};

verus! {

/// Whether a pass is a commitment or a draft.
#[derive(Clone, Copy, Debug, PartialEq, Eq, Structural)]
pub enum Adjudication {
    /// The verdicts on overrides are found anew, and held.
    Commit,
    /// The verdicts held since the last commitment count.
    Held,
}

/// Which documents a pass is about.
#[derive(Clone, Debug, PartialEq, Eq)]
pub enum PublishScope {
    /// Every document under every root.
    Full,
    /// One document, by its path.
    Only(String),
}

impl PublishScope {
    /// The one document that a pass is about.
    pub open spec fn focus(self) -> Option<Seq<u8>> {
        match self {
            PublishScope::Full => None,
            PublishScope::Only(abs) => Some(path::named(abs@)),
        }
    }
}

/// What a pass makes of the verdicts of a root.
#[derive(Clone, Copy, Debug, PartialEq, Eq, Structural)]
pub enum Committed {
    /// They stay.
    Nothing,
    /// There are none, for nobody wrote the configuration.
    Cleared,
    /// They are the ones just found.
    Adjudicated,
}

/// A set with one URI.
pub fn one_uri(uri: &str) -> (r: SortedMap<()>)
    ensures
        r@ == Map::<Seq<u8>, ()>::empty().insert(text::utf8(uri@), ()),
{
    let mut set: SortedMap<()> = SortedMap::new(KeyOrder::Bytes);
    set.insert(text::owned(uri), ());
    set
}

// Rows by file.

/// Findings by file, as text.
pub open spec fn row_views(map: Map<Seq<u8>, Vec<Diagnostic>>) -> Map<Seq<u8>, Seq<DiagView>> {
    Map::new(|k: Seq<u8>| map.contains_key(k), |k: Seq<u8>| diagnostic::views(map[k]@))
}

/// The findings of a file in a map; none where it has no entry.
pub open spec fn rows_at(map: Map<Seq<u8>, Seq<DiagView>>, file: Seq<u8>) -> Seq<DiagView> {
    if map.contains_key(file) {
        map[file]
    } else {
        Seq::empty()
    }
}

/// Findings, by the file that they are about.
pub open spec fn grouped(list: Seq<DiagView>) -> Map<Seq<u8>, Seq<DiagView>>
    decreases list.len(),
{
    if list.len() == 0 {
        Map::empty()
    } else {
        let rest = grouped(list.drop_last());
        rest.insert(list.last().file, rows_at(rest, list.last().file).push(list.last()))
    }
}

/// The views that documents with buffers are judged in, with the path of each.
pub open spec fn perspective_views(list: Seq<(String, WorkspaceView<'_>)>) -> Seq<(Seq<u8>, Graph)> {
    list.map_values(|p: (String, WorkspaceView<'_>)| (path::named(p.0@), p.1@))
}

/// The saved findings by file, where each document with a buffer has those of
/// its own view in their place.
pub open spec fn merged(
    saved_live: Seq<DiagView>,
    perspectives: Seq<(Seq<u8>, Graph)>,
    on_disk: Map<Seq<u8>, ()>,
) -> Map<Seq<u8>, Seq<DiagView>>
    decreases perspectives.len(),
{
    if perspectives.len() == 0 {
        grouped(saved_live)
    } else {
        let (rel, graph) = perspectives.last();
        merged(saved_live, perspectives.drop_last(), on_disk).insert(
            rel,
            rows::rows_for(rows::live_rows(graph, on_disk), rel),
        )
    }
}

fn insert_rows(map: &mut PathMap<Vec<Diagnostic>>, file: &str, list: Vec<Diagnostic>)
    ensures
        row_views(final(map)@) == row_views(old(map)@).insert(
            path::named(file@),
            diagnostic::views(list@),
        ),
{
    let ghost before = row_views(map@);
    let ghost v = diagnostic::views(list@);
    map.insert(text::owned(file), list);
    assert(row_views(map@) =~= before.insert(path::named(file@), v));
}

fn take_rows(map: &mut PathMap<Vec<Diagnostic>>, file: &str) -> (r: Vec<Diagnostic>)
    ensures
        row_views(final(map)@) == row_views(old(map)@).remove(path::named(file@)),
        diagnostic::views(r@) == rows_at(row_views(old(map)@), path::named(file@)),
{
    let ghost before = row_views(map@);
    let found = map.remove(file);
    assert(row_views(map@) =~= before.remove(path::named(file@)));
    match found {
        Some(list) => list,
        None => {
            let none: Vec<Diagnostic> = Vec::new();
            assert(diagnostic::views(none@) =~= Seq::<DiagView>::empty());
            none
        },
    }
}

fn group_rows(list: &Vec<Diagnostic>) -> (r: PathMap<Vec<Diagnostic>>)
    ensures
        row_views(r@) == grouped(diagnostic::views(list@)),
{
    let mut map: PathMap<Vec<Diagnostic>> = PathMap::new();
    let ghost all = diagnostic::views(list@);
    let mut i: usize = 0;
    proof {
        assert(all.take(0) =~= Seq::<DiagView>::empty());
        assert(row_views(map@) =~= Map::<Seq<u8>, Seq<DiagView>>::empty());
    }
    while i < list.len()
        invariant
            i <= list@.len(),
            all == diagnostic::views(list@),
            row_views(map@) == grouped(all.take(i as int)),
        decreases list@.len() - i,
    {
        let d = list[i].copied();
        let file = list[i].file.as_str();
        let ghost before = row_views(map@);
        let ghost f = path::named(file@);
        proof {
            assert(all.take(i + 1).drop_last() =~= all.take(i as int));
            assert(all.take(i + 1).last() == d@);
        }
        let mut own = take_rows(&mut map, file);
        proof {
            diagnostic::lemma_views_push(own@, d);
        }
        own.push(d);
        insert_rows(&mut map, file, own);
        assert(before.remove(f).insert(f, rows_at(before, f).push(d@)) =~= before.insert(
            f,
            rows_at(before, f).push(d@),
        ));
        i += 1;
    }
    assert(all.take(i as int) =~= all);
    map
}

/// Put together the saved findings and those of documents with buffers: of each
/// perspective only the rows of its own document count.
pub fn merge_perspectives(
    saved_live: &Vec<Diagnostic>,
    perspectives: &Vec<(String, WorkspaceView<'_>)>,
    on_disk: &PathMap<()>,
) -> (r: PathMap<Vec<Diagnostic>>)
    ensures
        row_views(r@) == merged(
            diagnostic::views(saved_live@),
            perspective_views(perspectives@),
            on_disk@,
        ),
{
    let mut map = group_rows(saved_live);
    let ghost all = perspective_views(perspectives@);
    let ghost base = diagnostic::views(saved_live@);
    let mut i: usize = 0;
    assert(all.take(0) =~= Seq::<(Seq<u8>, Graph)>::empty());
    while i < perspectives.len()
        invariant
            i <= perspectives@.len(),
            all == perspective_views(perspectives@),
            row_views(map@) == merged(base, all.take(i as int), on_disk@),
        decreases perspectives@.len() - i,
    {
        let rel = perspectives[i].0.as_str();
        let live = rows::collect_all_diagnostics(&perspectives[i].1, on_disk);
        let own = rows::keep_rows(&live, rel);
        proof {
            assert(all.take(i + 1).drop_last() =~= all.take(i as int));
            assert(all.take(i + 1).last() == (
                path::named(perspectives@[i as int].0@),
                perspectives@[i as int].1@,
            ));
        }
        insert_rows(&mut map, rel, own);
        i += 1;
    }
    assert(all.take(i as int) =~= all);
    map
}

// The configuration's own rows.

/// The path under which a configuration is reported on.
pub open spec fn marker_name() -> Seq<u8> {
    text::utf8(".lattice.toml"@)
}

/// The name of a configuration file is a path of one component.
pub proof fn lemma_marker()
    ensures
        path::named(".lattice.toml"@) == marker_name(),
{
    reveal_strlit(".lattice.toml");
    vstd::utf8::is_ascii_chars_encode_utf8(".lattice.toml"@);
    path::lemma_one_component(marker_name());
}

/// A finding about a configuration as a whole.
pub open spec fn about_config(severity: Severity, message: Seq<u8>) -> DiagView {
    DiagView { file: marker_name(), line: 1, severity, message, span: None }
}

/// What is said of overrides that are for no document.
pub open spec fn unused_rows(unused: Seq<Seq<u8>>) -> Seq<DiagView> {
    unused.map_values(|message: Seq<u8>| about_config(Severity::Warning, message))
}

/// What is said of overrides whose count has drifted.
pub open spec fn drift_rows(entries: Seq<VerdictView>) -> Seq<DiagView>
    decreases entries.len(),
{
    if entries.len() == 0 {
        Seq::empty()
    } else {
        let rest = drift_rows(entries.drop_last());
        match entries.last().drift {
            Some(message) => rest.push(about_config(Severity::Warning, message)),
            None => rest,
        }
    }
}

/// What is said of a configuration: why it could not be loaded, and, where
/// somebody wrote it, which overrides no longer fit.
pub open spec fn channel_rows(meta: MetaView, verdicts: VerdictsView) -> Seq<DiagView> {
    (match meta.error {
        Some(message) => seq![about_config(Severity::Error, message)],
        None => Seq::empty(),
    }) + (if meta.committed {
        unused_rows(verdicts.unused) + drift_rows(verdicts.entries)
    } else {
        Seq::empty()
    })
}

/// Say why a configuration could not be loaded, with all causes.
pub fn config_error_message(error: &ConfigError) -> (r: String)
    ensures
        text::utf8(r@) == error@,
{
    let mut message = text::owned(error.message.as_str());
    let ghost start = text::utf8(error.message@);
    let ghost causes = path::texts(error.causes@);
    let mut i: usize = 0;
    assert(causes.take(0) =~= Seq::<Seq<u8>>::empty());
    while i < error.causes.len()
        invariant
            i <= error.causes@.len(),
            causes == path::texts(error.causes@),
            text::utf8(message@) == workspaces::with_causes(start, causes.take(i as int)),
        decreases error.causes@.len() - i,
    {
        proof {
            assert(causes.take(i + 1).drop_last() =~= causes.take(i as int));
            assert(causes.take(i + 1).last() == text::utf8(error.causes@[i as int]@));
        }
        text::push(&mut message, ": ");
        text::push(&mut message, error.causes[i].as_str());
        i += 1;
    }
    assert(causes.take(i as int) =~= causes);
    message
}

fn config_row(severity: Severity, message: String) -> (d: Diagnostic)
    ensures
        d@ == about_config(severity, text::utf8(message@)),
{
    proof {
        lemma_marker();
    }
    Diagnostic { file: text::owned(".lattice.toml"), line: 1, severity, message, span: None }
}

fn push_row(out: &mut Vec<Diagnostic>, d: Diagnostic)
    ensures
        diagnostic::views(final(out)@) == diagnostic::views(old(out)@).push(d@),
{
    proof {
        diagnostic::lemma_views_push(out@, d);
    }
    out.push(d);
}

/// The rows of a configuration.
pub fn config_channel_diagnostics(meta: &RootMeta, verdicts: &OverrideVerdicts) -> (r: Vec<
    Diagnostic,
>)
    ensures
        diagnostic::views(r@) == channel_rows(meta@, verdicts@),
{
    let mut out: Vec<Diagnostic> = Vec::new();
    assert(diagnostic::views(out@) =~= Seq::<DiagView>::empty());
    if let Some(error) = &meta.config_error {
        push_row(&mut out, config_row(Severity::Error, config_error_message(error)));
    }
    let ghost head = diagnostic::views(out@);
    if !meta.config_committed {
        assert(head =~= channel_rows(meta@, verdicts@));
        return out;
    }
    let ghost unused = path::texts(verdicts.unused@);
    let mut i: usize = 0;
    assert(head + unused_rows(unused.take(0)) =~= head);
    while i < verdicts.unused.len()
        invariant
            i <= verdicts.unused@.len(),
            unused == path::texts(verdicts.unused@),
            diagnostic::views(out@) == head + unused_rows(unused.take(i as int)),
        decreases verdicts.unused@.len() - i,
    {
        let d = config_row(Severity::Warning, text::owned(verdicts.unused[i].as_str()));
        push_row(&mut out, d);
        proof {
            assert(unused[i as int] == text::utf8(verdicts.unused@[i as int]@));
            assert((head + unused_rows(unused.take(i as int))).push(d@) =~= head + unused_rows(
                unused.take(i + 1),
            ));
        }
        i += 1;
    }
    assert(unused.take(i as int) =~= unused);
    let ghost body = diagnostic::views(out@);
    let ghost entries = verdicts@.entries;
    let mut k: usize = 0;
    proof {
        assert(entries.take(0) =~= Seq::<VerdictView>::empty());
        assert(body + Seq::<DiagView>::empty() =~= body);
    }
    while k < verdicts.entries.len()
        invariant
            k <= verdicts.entries@.len(),
            entries == verdicts@.entries,
            diagnostic::views(out@) == body + drift_rows(entries.take(k as int)),
        decreases verdicts.entries@.len() - k,
    {
        let ghost so_far = drift_rows(entries.take(k as int));
        proof {
            assert(entries.take(k + 1).drop_last() =~= entries.take(k as int));
            assert(entries.take(k + 1).last() == verdicts.entries@[k as int]@);
        }
        if let VerdictKind::Drifted { message } = &verdicts.entries[k].kind {
            let d = config_row(Severity::Warning, text::owned(message.as_str()));
            push_row(&mut out, d);
            assert((body + so_far).push(d@) =~= body + so_far.push(d@));
        }
        k += 1;
    }
    proof {
        assert(entries.take(k as int) =~= entries);
        assert(diagnostic::views(out@) =~= channel_rows(meta@, verdicts@));
    }
    out
}

// What should be shown.

/// Whether a pass is about a root: about all of them, or about a document that
/// the root owns.
pub open spec fn concerns(s: State, root: Seq<u8>, focus: Option<Seq<u8>>) -> bool {
    match focus {
        None => true,
        Some(abs) => path::under(abs, root) && upkeep::recorded_root(s, abs) == Some(root),
    }
}

/// The findings on the saved documents of a root.
pub open spec fn saved_rows(s: State, root: Seq<u8>, on_disk: Map<Seq<u8>, ()>) -> Seq<DiagView> {
    rows::live_rows(
        workspaces::graph_over(s, root, store::files_of(s.store.saved, root)),
        on_disk,
    )
}

/// The views of the documents among `keys` that have a buffer.
pub open spec fn perspectives_of(s: State, root: Seq<u8>, keys: Seq<Seq<u8>>) -> Seq<
    (Seq<u8>, Graph),
>
    decreases keys.len(),
{
    if keys.len() == 0 {
        Seq::empty()
    } else {
        let rest = perspectives_of(s, root, keys.drop_last());
        let abs = keys.last();
        if s.store.overlay.contains_key(abs) && path::under(abs, root) {
            rest.push(
                (
                    path::relative(abs, root),
                    workspaces::graph_over(s, root, store::perspective(s.store, root, abs)),
                ),
            )
        } else {
            rest
        }
    }
}

/// The documents whose buffers a pass looks at.
pub open spec fn looked_at(s: State, root: Seq<u8>, focus: Option<Seq<u8>>) -> Seq<Seq<u8>> {
    match focus {
        None => sorted::keys_of(KeyOrder::Path, store::docs_owned(s.store.overlay, root)),
        Some(abs) => seq![abs],
    }
}

/// Findings by file, without those that verdicts hold back.
pub open spec fn filtered(map: Map<Seq<u8>, Seq<DiagView>>, verdicts: VerdictsView) -> Map<
    Seq<u8>,
    Seq<DiagView>,
> {
    Map::new(
        |k: Seq<u8>| map.contains_key(k),
        |k: Seq<u8>| overrides::let_through(verdicts, map[k]),
    )
}

/// Findings by file, with those on the configuration.
pub open spec fn with_channel(map: Map<Seq<u8>, Seq<DiagView>>, channel: Seq<DiagView>) -> Map<
    Seq<u8>,
    Seq<DiagView>,
> {
    if channel.len() > 0 {
        map.insert(marker_name(), channel)
    } else {
        map
    }
}

/// The findings by file that a pass computes under a written configuration,
/// before verdicts.
pub open spec fn computed_rows(
    s: State,
    root: Seq<u8>,
    adjudication: Adjudication,
    focus: Option<Seq<u8>>,
    on_disk: Map<Seq<u8>, ()>,
) -> Map<Seq<u8>, Seq<DiagView>> {
    let live = if focus is Some && adjudication == Adjudication::Held {
        Seq::empty()
    } else {
        saved_rows(s, root, on_disk)
    };
    let all = merged(live, perspectives_of(s, root, looked_at(s, root, focus)), on_disk);
    match focus {
        None => all,
        Some(abs) => {
            let rel = path::relative(abs, root);
            Map::empty().insert(rel, rows_at(all, rel))
        },
    }
}

/// The findings by file that should be shown for a root.
pub open spec fn desired_rows(
    s: State,
    root: Seq<u8>,
    meta: MetaView,
    adjudication: Adjudication,
    fresh: VerdictsView,
    focus: Option<Seq<u8>>,
    on_disk: Map<Seq<u8>, ()>,
) -> Map<Seq<u8>, Seq<DiagView>> {
    if !concerns(s, root, focus) {
        Map::empty()
    } else if !meta.committed {
        with_channel(Map::empty(), channel_rows(meta, meta.verdicts))
    } else {
        let verdicts = if adjudication == Adjudication::Commit {
            fresh
        } else {
            meta.verdicts
        };
        let shown = filtered(computed_rows(s, root, adjudication, focus, on_disk), verdicts);
        if focus is None || adjudication == Adjudication::Commit {
            with_channel(shown, channel_rows(meta, verdicts))
        } else {
            shown
        }
    }
}

/// What a pass makes of the verdicts of a root.
pub open spec fn commitment(
    s: State,
    root: Seq<u8>,
    meta: MetaView,
    adjudication: Adjudication,
    focus: Option<Seq<u8>>,
) -> Committed {
    if !concerns(s, root, focus) || adjudication == Adjudication::Held {
        Committed::Nothing
    } else if meta.committed {
        Committed::Adjudicated
    } else {
        Committed::Cleared
    }
}

fn filter_rows(map: &PathMap<Vec<Diagnostic>>, verdicts: &OverrideVerdicts) -> (r: PathMap<
    Vec<Diagnostic>,
>)
    ensures
        row_views(r@) == filtered(row_views(map@), verdicts@),
{
    let mut out: PathMap<Vec<Diagnostic>> = PathMap::new();
    let n = map.len();
    let ghost keys = map.keys();
    let ghost goal = filtered(row_views(map@), verdicts@);
    let mut i: usize = 0;
    map.keys_ascend();
    assert(keys.take(0) =~= Seq::<Seq<u8>>::empty());
    while i < n
        invariant
            i <= n,
            n == keys.len(),
            keys == map.keys(),
            goal == filtered(row_views(map@), verdicts@),
            forall|k: Seq<u8>| #[trigger]
                row_views(out@).contains_key(k) <==> keys.take(i as int).contains(k),
            forall|k: Seq<u8>| #[trigger]
                row_views(out@).contains_key(k) ==> row_views(out@)[k] == goal[k],
        decreases n - i,
    {
        let file = map.key_at(i);
        proof {
            assert forall|k: Seq<u8>| #[trigger] keys.take(i + 1).contains(k) <==> (keys.take(
                i as int,
            ).contains(k) || k == keys[i as int]) by {
                store::lemma_take_contains(keys, i as int, k);
            }
        }
        let kept = overrides::suppress_matched(verdicts, map.value_at(i));
        insert_rows(&mut out, file, kept);
        i += 1;
    }
    assert(keys.take(i as int) =~= keys);
    assert(row_views(out@) =~= goal);
    out
}

fn add_channel(
    map: &mut PathMap<Vec<Diagnostic>>,
    meta: &RootMeta,
    verdicts: &OverrideVerdicts,
)
    ensures
        row_views(final(map)@) == with_channel(
            row_views(old(map)@),
            channel_rows(meta@, verdicts@),
        ),
{
    let channel = config_channel_diagnostics(meta, verdicts);
    assert(diagnostic::views(channel@).len() == channel@.len());
    proof {
        lemma_marker();
    }
    if channel.len() > 0 {
        insert_rows(map, ".lattice.toml", channel);
    }
}

/// The documents whose buffers a pass looks at.
fn look_at(workspaces: &Workspaces, root: &str, scope: &PublishScope) -> (r: Vec<String>)
    ensures
        path::all_named(r@) == looked_at(workspaces@, path::named(root@), scope.focus()),
{
    match scope {
        PublishScope::Full => workspaces.store.overlay_keys_of_root(root),
        PublishScope::Only(abs) => {
            let mut r: Vec<String> = Vec::new();
            r.push(text::owned(abs.as_str()));
            assert(path::all_named(r@) =~= seq![path::named(abs@)]);
            r
        },
    }
}

fn build_perspectives<'a>(workspaces: &'a Workspaces, root: &str, keys: &Vec<String>) -> (r: Vec<
    (String, WorkspaceView<'a>),
>)
    requires
        workspaces.wf(),
    ensures
        perspective_views(r@) == perspectives_of(
            workspaces@,
            path::named(root@),
            path::all_named(keys@),
        ),
{
    let mut r: Vec<(String, WorkspaceView<'a>)> = Vec::new();
    let ghost all = path::all_named(keys@);
    let ghost rt = path::named(root@);
    let mut i: usize = 0;
    proof {
        assert(all.take(0) =~= Seq::<Seq<u8>>::empty());
        assert(perspective_views(r@) =~= Seq::<(Seq<u8>, Graph)>::empty());
    }
    while i < keys.len()
        invariant
            i <= keys@.len(),
            workspaces.wf(),
            all == path::all_named(keys@),
            rt == path::named(root@),
            perspective_views(r@) == perspectives_of(workspaces@, rt, all.take(i as int)),
        decreases keys@.len() - i,
    {
        let abs = keys[i].as_str();
        let ghost so_far = perspective_views(r@);
        proof {
            assert(all.take(i + 1).drop_last() =~= all.take(i as int));
            assert(all.take(i + 1).last() == path::named(abs@));
        }
        if workspaces.store.has_overlay(abs) {
            if let Some(rel) = path::strip_root(abs, root) {
                let view = workspaces.perspective_view(root, abs);
                let ghost one = (path::named(rel@), view@);
                r.push((rel, view));
                assert(perspective_views(r@) =~= so_far.push(one));
            }
        }
        i += 1;
    }
    assert(all.take(i as int) =~= all);
    r
}

fn compute_rows(
    workspaces: &Workspaces,
    root: &str,
    adjudication: Adjudication,
    scope: &PublishScope,
    on_disk: &PathMap<()>,
) -> (r: PathMap<Vec<Diagnostic>>)
    requires
        workspaces.wf(),
        concerns(workspaces@, path::named(root@), scope.focus()),
    ensures
        row_views(r@) == computed_rows(
            workspaces@,
            path::named(root@),
            adjudication,
            scope.focus(),
            on_disk@,
        ),
{
    let scoped = match scope {
        PublishScope::Full => false,
        PublishScope::Only(_) => true,
    };
    let live: Vec<Diagnostic> = if scoped && adjudication == Adjudication::Held {
        let none: Vec<Diagnostic> = Vec::new();
        assert(diagnostic::views(none@) =~= Seq::<DiagView>::empty());
        none
    } else {
        collect_saved_rows(workspaces, root, on_disk)
    };
    let keys = look_at(workspaces, root, scope);
    let perspectives = build_perspectives(workspaces, root, &keys);
    let mut by_file = merge_perspectives(&live, &perspectives, on_disk);
    match scope {
        PublishScope::Full => by_file,
        PublishScope::Only(abs) => {
            let rel = match path::strip_root(abs.as_str(), root) {
                Some(rel) => rel,
                None => text::owned(abs.as_str()),
            };
            let own = take_rows(&mut by_file, rel.as_str());
            let mut one: PathMap<Vec<Diagnostic>> = PathMap::new();
            assert(row_views(one@) =~= Map::<Seq<u8>, Seq<DiagView>>::empty());
            insert_rows(&mut one, rel.as_str(), own);
            one
        },
    }
}

/// The findings on the saved documents of a root: what overrides are
/// adjudicated over.
pub fn collect_saved_rows(workspaces: &Workspaces, root: &str, on_disk: &PathMap<()>) -> (r: Vec<
    Diagnostic,
>)
    requires
        workspaces.wf(),
    ensures
        diagnostic::views(r@) == saved_rows(workspaces@, path::named(root@), on_disk@),
{
    let view = workspaces.saved_view(root);
    rows::collect_all_diagnostics(&view, on_disk)
}

/// Whether a pass is about a root.
fn is_concerned(workspaces: &Workspaces, root: &str, scope: &PublishScope) -> (r: bool)
    ensures
        r == concerns(workspaces@, path::named(root@), scope.focus()),
{
    match scope {
        PublishScope::Full => true,
        PublishScope::Only(abs) => {
            path::is_under(abs.as_str(), root) && match workspaces.store.primary_root(
                abs.as_str(),
            ) {
                Some(own) => path::same_path(own.as_str(), root),
                None => false,
            }
        },
    }
}

/// The findings by file that should be shown for a root, and what becomes of its
/// verdicts. `fresh` holds the verdicts on the saved findings, for a commitment.
pub fn root_desired_rows(
    workspaces: &Workspaces,
    root: &str,
    meta: &RootMeta,
    adjudication: Adjudication,
    fresh: &OverrideVerdicts,
    scope: &PublishScope,
    on_disk: &PathMap<()>,
) -> (r: (PathMap<Vec<Diagnostic>>, Committed))
    requires
        workspaces.wf(),
    ensures
        row_views(r.0@) == desired_rows(
            workspaces@,
            path::named(root@),
            meta@,
            adjudication,
            fresh@,
            scope.focus(),
            on_disk@,
        ),
        r.1 == commitment(workspaces@, path::named(root@), meta@, adjudication, scope.focus()),
{
    let mut by_file: PathMap<Vec<Diagnostic>> = PathMap::new();
    assert(row_views(by_file@) =~= Map::<Seq<u8>, Seq<DiagView>>::empty());
    if !is_concerned(workspaces, root, scope) {
        return (by_file, Committed::Nothing);
    }
    let commits = adjudication == Adjudication::Commit;
    if !meta.config_committed {
        add_channel(&mut by_file, meta, &meta.verdicts);
        let committed = if commits {
            Committed::Cleared
        } else {
            Committed::Nothing
        };
        return (by_file, committed);
    }
    let verdicts = if commits {
        fresh
    } else {
        &meta.verdicts
    };
    let computed = compute_rows(workspaces, root, adjudication, scope, on_disk);
    let mut shown = filter_rows(&computed, verdicts);
    let full = match scope {
        PublishScope::Full => true,
        PublishScope::Only(_) => false,
    };
    if full || commits {
        add_channel(&mut shown, meta, verdicts);
    }
    let committed = if commits {
        Committed::Adjudicated
    } else {
        Committed::Nothing
    };
    (shown, committed)
}

} // verus!

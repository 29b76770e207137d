//! Which documents a pass over everything meets, and with what findings.
use vstd::prelude::*;
use crate::diagnostic::DiagView;
use crate::path;
use crate::server::diff;
use crate::server::diff::Order;
use crate::server::outbox;
use crate::server::promises;
use crate::server::publish;
use crate::server::rows;
use crate::server::workspaces;
use crate::server::workspaces::{SentView, State};
use crate::sorted;
use crate::sorted::KeyOrder;
use crate::store;
use crate::text;

verus! {

/// Whether there is something to look at under a name of a root: a document with a
/// copy on disk or in an editor that belongs to the root, or its configuration.
pub open spec fn is_there(s: State, root: Seq<u8>, rel: Seq<u8>) -> bool {
    let abs = path::absolute(root, rel);
    ||| s.store.saved.contains_key(abs) && s.store.saved[abs].root == Some(root)
    ||| s.store.overlay.contains_key(abs) && s.store.overlay[abs].root == Some(root)
    ||| rel == text::utf8(".lattice.toml"@) && (s.roots[root].has_config
        || s.roots[root].error is Some)
}

/// Whether a state is finite.
pub open spec fn is_finite(s: State) -> bool {
    &&& s.roots.dom().finite()
    &&& s.store.saved.dom().finite()
    &&& s.store.overlay.dom().finite()
}

proof fn lemma_to_visit(
    s: State,
    root: Seq<u8>,
    by_file: Map<Seq<u8>, Seq<DiagView>>,
    rel: Seq<u8>,
)
    requires
        is_finite(s),
    ensures
        diff::to_visit(s, root, s.roots[root], None, by_file).contains(rel) <==> is_there(
            s,
            root,
            rel,
        ),
{
    let docs = store::current_of(s.store, root);
    let names = sorted::keys_of(KeyOrder::Path, docs);
    let all = diff::to_visit(s, root, s.roots[root], None, by_file);
    workspaces::lemma_files_finite(s.store.saved, root);
    workspaces::lemma_files_finite(s.store.overlay, root);
    assert(docs.dom() =~= store::files_of(s.store.saved, root).dom().union(
        store::files_of(s.store.overlay, root).dom(),
    ));
    sorted::lemma_keys_listed(KeyOrder::Path, docs);
    assert(names.contains(rel) == docs.contains_key(rel));
    if names.contains(rel) {
        let i = choose|i: int| 0 <= i < names.len() && names[i] == rel;
        assert(all[i] == rel);
    }
    if s.roots[root].has_config || s.roots[root].error is Some {
        assert(all[names.len() as int] == publish::marker_name());
    }
    if all.contains(rel) {
        let i = choose|i: int| 0 <= i < all.len() && all[i] == rel;
        if i < names.len() {
            assert(names[i] == rel);
        }
    }
}

// The pass.

proof fn lemma_claims(
    root: Seq<u8>,
    by_file: Map<Seq<u8>, Seq<DiagView>>,
    c: Map<Seq<u8>, Seq<DiagView>>,
    rels: Seq<Seq<u8>>,
    u: Seq<u8>,
)
    ensures
        ({
            let all = promises::claimed_all(root, by_file, c, rels);
            &&& c.contains_key(u) ==> all.contains_key(u) && all[u] == c[u]
            &&& all.contains_key(u) && !c.contains_key(u) ==> exists|i: int|
                0 <= i < rels.len() && diff::uri_under(root, #[trigger] rels[i]) == u && all[u]
                    == publish::rows_at(by_file, rels[i])
            &&& forall|i: int|
                0 <= i < rels.len() && diff::uri_under(root, #[trigger] rels[i]) == u
                    ==> all.contains_key(u)
        }),
    decreases rels.len(),
{
    if rels.len() > 0 {
        let rest = rels.drop_last();
        let some = promises::claimed_all(root, by_file, c, rest);
        let all = promises::claimed_all(root, by_file, c, rels);
        lemma_claims(root, by_file, c, rest, u);
        let n = rels.len() - 1;
        if all.contains_key(u) && !c.contains_key(u) {
            if some.contains_key(u) {
                let i = choose|i: int|
                    0 <= i < rest.len() && diff::uri_under(root, #[trigger] rest[i]) == u && some[u]
                        == publish::rows_at(by_file, rest[i]);
                assert(rels[i] == rest[i]);
                assert(all[u] == some[u]);
            } else {
                assert(diff::uri_under(root, rels[n]) == u);
            }
        }
        assert forall|i: int|
            0 <= i < rels.len() && diff::uri_under(root, #[trigger] rels[i]) == u implies
            all.contains_key(u) by {
            if i < n {
                assert(rest[i] == rels[i]);
            }
        }
    }
}

/// Whether nothing else that is there is published under a URI.
pub open spec fn is_alone(s: State, root: Seq<u8>, rel: Seq<u8>) -> bool {
    forall|r: Seq<u8>, n: Seq<u8>|
        s.roots.contains_key(r) && is_there(s, r, n) && #[trigger] diff::uri_under(r, n)
            == diff::uri_under(root, rel) ==> r == root && n == rel
}

proof fn lemma_claimed(s: State, o: Order, roots: Seq<Seq<u8>>, root: Seq<u8>, rel: Seq<u8>)
    requires
        is_finite(s),
        o.focus is None,
        roots.contains(root),
        is_there(s, root, rel),
        forall|i: int| 0 <= i < roots.len() ==> s.roots.contains_key(#[trigger] roots[i]),
    ensures
        ({
            let c = promises::claimed(s, o, roots);
            let u = diff::uri_under(root, rel);
            &&& c.contains_key(u)
            &&& is_alone(s, root, rel) ==> c[u] == publish::rows_at(
                diff::rows_of_root(s, o, root),
                rel,
            )
        }),
    decreases roots.len(),
{
    let u = diff::uri_under(root, rel);
    let first = roots[0];
    let rest = roots.drop_first();
    let by_file = diff::rows_of_root(s, o, first);
    let c = promises::claimed(s, o, rest);
    let rels = diff::to_visit(s, first, s.roots[first], o.focus, by_file);
    assert(s.roots.contains_key(first));
    lemma_claims(first, by_file, c, rels, u);
    let all = promises::claimed(s, o, roots);
    assert forall|i: int| 0 <= i < rest.len() implies s.roots.contains_key(#[trigger] rest[i]) by {
        assert(rest[i] == roots[i + 1]);
    }
    if rest.contains(root) {
        lemma_claimed(s, o, rest, root, rel);
    } else {
        let i = choose|i: int| 0 <= i < roots.len() && roots[i] == root;
        if i > 0 {
            assert(rest[i - 1] == root);
        }
        assert(first == root);
        lemma_to_visit(s, root, by_file, rel);
        let j = choose|j: int| 0 <= j < rels.len() && rels[j] == rel;
        assert(diff::uri_under(first, rels[j]) == u);
        assert(all.contains_key(u));
        if is_alone(s, root, rel) {
            if c.contains_key(u) {
                lemma_claimants(s, o, rest, u);
                let (r, n) = choose|r: Seq<u8>, n: Seq<u8>|
                    rest.contains(r) && is_there(s, r, n) && #[trigger] diff::uri_under(r, n) == u;
                let k = choose|k: int| 0 <= k < rest.len() && rest[k] == r;
                assert(s.roots.contains_key(rest[k]));
                assert(false);
            }
            let k = choose|k: int|
                0 <= k < rels.len() && diff::uri_under(first, #[trigger] rels[k]) == u && all[u]
                    == publish::rows_at(by_file, rels[k]);
            lemma_to_visit(s, root, by_file, rels[k]);
            assert(rels.contains(rels[k]));
        }
    }
}

/// What is met is there under some root.
proof fn lemma_claimants(s: State, o: Order, roots: Seq<Seq<u8>>, u: Seq<u8>)
    requires
        is_finite(s),
        o.focus is None,
        promises::claimed(s, o, roots).contains_key(u),
    ensures
        exists|r: Seq<u8>, n: Seq<u8>|
            roots.contains(r) && is_there(s, r, n) && #[trigger] diff::uri_under(r, n) == u,
    decreases roots.len(),
{
    let first = roots[0];
    let rest = roots.drop_first();
    let by_file = diff::rows_of_root(s, o, first);
    let c = promises::claimed(s, o, rest);
    let rels = diff::to_visit(s, first, s.roots[first], o.focus, by_file);
    lemma_claims(first, by_file, c, rels, u);
    if c.contains_key(u) {
        lemma_claimants(s, o, rest, u);
        let (r, n) = choose|r: Seq<u8>, n: Seq<u8>|
            rest.contains(r) && is_there(s, r, n) && #[trigger] diff::uri_under(r, n) == u;
        let k = choose|k: int| 0 <= k < rest.len() && rest[k] == r;
        assert(roots[k + 1] == r);
        assert(roots.contains(r));
    } else {
        let k = choose|k: int|
            0 <= k < rels.len() && diff::uri_under(first, #[trigger] rels[k]) == u
                && promises::claimed(s, o, roots)[u] == publish::rows_at(by_file, rels[k]);
        assert(rels.contains(rels[k]));
        lemma_to_visit(s, first, by_file, rels[k]);
        assert(roots.contains(first));
    }
}

/// After a pass over everything, the client holds for a document of a root what the
/// root should show of it: its findings where there are any, and nothing where there
/// are none. So it is for every document and configuration that is there.
pub proof fn law_everything_is_shown(s: State, o: Order, root: Seq<u8>, rel: Seq<u8>)
    requires
        is_finite(s),
        o.focus is None,
        s.roots.contains_key(root),
        is_there(s, root, rel),
        is_alone(s, root, rel),
    ensures
        ({
            let list = publish::rows_at(diff::rows_of_root(s, o, root), rel);
            let held = diff::published_after(s, o);
            let u = diff::uri_under(root, rel);
            &&& list.len() > 0 ==> held.contains_key(u) && held[u].lattice == list
            &&& list.len() == 0 ==> held.contains_key(u) ==> held[u].lattice.len() == 0
        }),
{
    let roots = sorted::keys_of(KeyOrder::Path, s.roots);
    sorted::lemma_keys_listed(KeyOrder::Path, s.roots);
    assert(roots.contains(root));
    assert forall|i: int| 0 <= i < roots.len() implies s.roots.contains_key(#[trigger] roots[i]) by {
        assert(roots.contains(roots[i]));
    }
    lemma_claimed(s, o, roots, root, rel);
    promises::law_a_pass_shows_what_it_should(s, o, diff::uri_under(root, rel));
}

/// After a pass over everything, the client holds diagnostics for nothing else than
/// what is there under some root.
pub proof fn law_nothing_else_is_shown(s: State, o: Order, u: Seq<u8>)
    requires
        is_finite(s),
        o.focus is None,
        diff::published_after(s, o).contains_key(u),
    ensures
        exists|r: Seq<u8>, n: Seq<u8>|
            s.roots.contains_key(r) && is_there(s, r, n) && #[trigger] diff::uri_under(r, n) == u,
{
    let roots = sorted::keys_of(KeyOrder::Path, s.roots);
    sorted::lemma_keys_listed(KeyOrder::Path, s.roots);
    promises::law_a_full_pass_leaves_no_strays(s, o, u);
    lemma_claimants(s, o, roots, u);
    let (r, n) = choose|r: Seq<u8>, n: Seq<u8>|
        roots.contains(r) && is_there(s, r, n) && #[trigger] diff::uri_under(r, n) == u;
    assert(s.roots.contains_key(r));
}

// What should be held.

proof fn lemma_shown_of(
    s: State,
    root: Seq<u8>,
    by_file: Map<Seq<u8>, Seq<DiagView>>,
    rels: Seq<Seq<u8>>,
    start: Map<Seq<u8>, Seq<SentView>>,
    u: Seq<u8>,
)
    ensures
        ({
            let all = outbox::shown_of(s, root, by_file, rels, start);
            &&& all.contains_key(u) <==> start.contains_key(u) || exists|i: int|
                0 <= i < rels.len() && diff::uri_under(root, #[trigger] rels[i]) == u
            &&& (forall|i: int| 0 <= i < rels.len() ==> diff::uri_under(root, #[trigger] rels[i])
                != u) ==> all.contains_key(u) == start.contains_key(u) && all[u] == start[u]
            &&& all.contains_key(u) && (exists|i: int|
                0 <= i < rels.len() && diff::uri_under(root, #[trigger] rels[i]) == u) ==> exists|
                i: int,
            |
                0 <= i < rels.len() && diff::uri_under(root, #[trigger] rels[i]) == u && all[u]
                    == rows::all_sent(
                    publish::rows_at(by_file, rels[i]),
                    diff::text_at(s, root, rels[i]),
                )
        }),
    decreases rels.len(),
{
    if rels.len() > 0 {
        let rest = rels.drop_last();
        let n = rels.len() - 1;
        lemma_shown_of(s, root, by_file, rest, start, u);
        assert forall|i: int| 0 <= i < n implies #[trigger] rels[i] == rest[i] by {}
        if diff::uri_under(root, rels[n]) != u {
            if exists|i: int| 0 <= i < rels.len() && diff::uri_under(root, #[trigger] rels[i]) == u {
                let i = choose|i: int|
                    0 <= i < rels.len() && diff::uri_under(root, #[trigger] rels[i]) == u;
                assert(rest[i] == rels[i]);
                let some = outbox::shown_of(s, root, by_file, rest, start);
                let k = choose|k: int|
                    0 <= k < rest.len() && diff::uri_under(root, #[trigger] rest[k]) == u && some[u]
                        == rows::all_sent(
                        publish::rows_at(by_file, rest[k]),
                        diff::text_at(s, root, rest[k]),
                    );
                assert(rels[k] == rest[k]);
            } else {
                assert forall|i: int| 0 <= i < rest.len() implies diff::uri_under(
                    root,
                    #[trigger] rest[i],
                ) != u by {
                    assert(rels[i] == rest[i]);
                }
            }
        }
    }
}

proof fn lemma_shown_by(
    s: State,
    roots: Seq<Seq<u8>>,
    on_disk: Map<Seq<u8>, ()>,
    root: Seq<u8>,
    rel: Seq<u8>,
)
    requires
        is_finite(s),
        roots.contains(root),
        roots.no_duplicates(),
        is_there(s, root, rel),
        is_alone(s, root, rel),
        forall|i: int| 0 <= i < roots.len() ==> s.roots.contains_key(#[trigger] roots[i]),
    ensures
        ({
            let all = outbox::shown_by(s, roots, on_disk);
            let u = diff::uri_under(root, rel);
            &&& all.contains_key(u)
            &&& all[u] == rows::all_sent(
                publish::rows_at(outbox::held_rows(s, root, on_disk), rel),
                diff::text_at(s, root, rel),
            )
        }),
    decreases roots.len(),
{
    let u = diff::uri_under(root, rel);
    let n = roots.len() - 1;
    let last = roots[n];
    let rest = roots.drop_last();
    let by_file = outbox::held_rows(s, last, on_disk);
    let rels = diff::to_visit(s, last, s.roots[last], None, by_file);
    let start = outbox::shown_by(s, rest, on_disk);
    assert(s.roots.contains_key(last));
    lemma_shown_of(s, last, by_file, rels, start, u);
    if last == root {
        lemma_to_visit(s, root, by_file, rel);
        let j = choose|j: int| 0 <= j < rels.len() && rels[j] == rel;
        assert(diff::uri_under(last, rels[j]) == u);
        let all = outbox::shown_by(s, roots, on_disk);
        let k = choose|k: int|
            0 <= k < rels.len() && diff::uri_under(last, #[trigger] rels[k]) == u && all[u]
                == rows::all_sent(
                publish::rows_at(by_file, rels[k]),
                diff::text_at(s, last, rels[k]),
            );
        assert(rels.contains(rels[k]));
        lemma_to_visit(s, root, by_file, rels[k]);
    } else {
        assert forall|i: int| 0 <= i < rels.len() implies diff::uri_under(last, #[trigger] rels[i])
            != u by {
            assert(rels.contains(rels[i]));
            lemma_to_visit(s, last, by_file, rels[i]);
        }
        let i = choose|i: int| 0 <= i < roots.len() && roots[i] == root;
        assert(rest[i] == root);
        assert forall|i: int| 0 <= i < rest.len() implies s.roots.contains_key(
            #[trigger] rest[i],
        ) by {
            assert(rest[i] == roots[i]);
        }
        assert(rest.no_duplicates());
        lemma_shown_by(s, rest, on_disk, root, rel);
    }
}

/// What the client should hold for a document of a root is what the root should show
/// of it, with its places in the current text of the document; for each that is there.
pub proof fn law_everything_should_be_held(
    s: State,
    on_disk: Map<Seq<u8>, ()>,
    root: Seq<u8>,
    rel: Seq<u8>,
)
    requires
        is_finite(s),
        s.roots.contains_key(root),
        is_there(s, root, rel),
        is_alone(s, root, rel),
    ensures
        ({
            let all = outbox::shown_by(s, sorted::keys_of(KeyOrder::Path, s.roots), on_disk);
            let u = diff::uri_under(root, rel);
            let list = publish::rows_at(outbox::held_rows(s, root, on_disk), rel);
            let abs = path::child_of(root, rel);
            let b = if s.store.overlay.contains_key(abs) {
                s.store.overlay[abs].data.tree.text()
            } else if s.store.saved.contains_key(abs) {
                s.store.saved[abs].data.tree.text()
            } else {
                Seq::empty()
            };
            &&& all.contains_key(u)
            &&& all[u].len() == list.len()
            &&& forall|i: int| 0 <= i < list.len() ==> #[trigger] all[u][i] == rows::sent(list[i], b)
        }),
{
    let roots = sorted::keys_of(KeyOrder::Path, s.roots);
    sorted::lemma_keys_listed(KeyOrder::Path, s.roots);
    assert(roots.contains(root));
    assert forall|i: int| 0 <= i < roots.len() implies s.roots.contains_key(#[trigger] roots[i]) by {
        assert(roots.contains(roots[i]));
    }
    sorted::lemma_ascending_distinct(KeyOrder::Path, roots);
    lemma_shown_by(s, roots, on_disk, root, rel);
}

} // verus!

//! What publication promises.
use vstd::prelude::*;
use crate::diagnostic::DiagView;
use crate::overrides;
use crate::path;
use crate::server::diff;
use crate::server::diff::{MaterializedView, Order, Pass};
use crate::server::outbox;
use crate::server::publish;
use crate::server::publish::Adjudication;
use crate::server::rows;
use crate::server::upkeep;
use crate::server::workspaces;
use crate::server::workspaces::{MetaView, PublishedView, SentView, State};
use crate::sorted;
use crate::sorted::KeyOrder;
use crate::store;

verus! {

// What each document should show.

/// The findings of the documents that a pass has met, with those of one more: the
/// first root that meets a document decides.
pub open spec fn claimed_one(
    root: Seq<u8>,
    by_file: Map<Seq<u8>, Seq<DiagView>>,
    c: Map<Seq<u8>, Seq<DiagView>>,
    rel: Seq<u8>,
) -> Map<Seq<u8>, Seq<DiagView>> {
    let uri = diff::uri_under(root, rel);
    if c.contains_key(uri) {
        c
    } else {
        c.insert(uri, publish::rows_at(by_file, rel))
    }
}

/// The findings of the documents that a pass has met, with those of a root.
pub open spec fn claimed_all(
    root: Seq<u8>,
    by_file: Map<Seq<u8>, Seq<DiagView>>,
    c: Map<Seq<u8>, Seq<DiagView>>,
    rels: Seq<Seq<u8>>,
) -> Map<Seq<u8>, Seq<DiagView>>
    decreases rels.len(),
{
    if rels.len() == 0 {
        c
    } else {
        claimed_one(root, by_file, claimed_all(root, by_file, c, rels.drop_last()), rels.last())
    }
}

/// The findings of all documents that a pass over some roots meets, by URI.
pub open spec fn claimed(s: State, o: Order, roots: Seq<Seq<u8>>) -> Map<Seq<u8>, Seq<DiagView>>
    decreases roots.len(),
{
    if roots.len() == 0 {
        Map::empty()
    } else {
        let by_file = diff::rows_of_root(s, o, roots[0]);
        claimed_all(
            roots[0],
            by_file,
            claimed(s, o, roots.drop_first()),
            diff::to_visit(s, roots[0], s.roots[roots[0]], o.focus, by_file),
        )
    }
}

/// The findings of all documents that a pass meets, by URI.
pub open spec fn should_show(s: State, o: Order) -> Map<Seq<u8>, Seq<DiagView>> {
    claimed(s, o, sorted::keys_of(KeyOrder::Path, s.roots))
}

/// Whether a pass agrees with the findings of the documents that it has met:
/// what it lists as moved has these findings, and what it does not list is held.
spec fn agrees(
    published: Map<Seq<u8>, PublishedView>,
    p: Pass,
    c: Map<Seq<u8>, Seq<DiagView>>,
) -> bool {
    &&& forall|u: Seq<u8>| #[trigger] p.present.contains_key(u) <==> c.contains_key(u)
    &&& forall|i: int|
        0 <= i < p.moved.len() ==> c.contains_key((#[trigger] p.moved[i]).uri)
            && p.moved[i].lattice == c[p.moved[i].uri] && p.moved[i].lsp.len()
            == p.moved[i].lattice.len() && p.moved[i].send == !diff::is_shown(
            published,
            p.moved[i].uri,
            p.moved[i].lsp,
        )
    &&& forall|i: int, j: int|
        0 <= i < j < p.moved.len() ==> (#[trigger] p.moved[i]).uri != (#[trigger] p.moved[j]).uri
    &&& forall|u: Seq<u8>| #[trigger]
        c.contains_key(u) ==> diff::is_held(published, u, c[u]) || exists|i: int|
            0 <= i < p.moved.len() && (#[trigger] p.moved[i]).uri == u
}

proof fn lemma_visited_agrees(
    s: State,
    root: Seq<u8>,
    canonical: Seq<u8>,
    by_file: Map<Seq<u8>, Seq<DiagView>>,
    changed: Map<Seq<u8>, ()>,
    p: Pass,
    c: Map<Seq<u8>, Seq<DiagView>>,
    rel: Seq<u8>,
)
    requires
        agrees(s.published, p, c),
    ensures
        agrees(
            s.published,
            diff::visited(s, root, canonical, by_file, changed, p, rel),
            claimed_one(root, by_file, c, rel),
        ),
{
    let uri = diff::uri_under(root, rel);
    if !p.present.contains_key(uri) {
        let q = diff::visited(s, root, canonical, by_file, changed, p, rel);
        let d = claimed_one(root, by_file, c, rel);
        let list = publish::rows_at(by_file, rel);
        assert(!c.contains_key(uri));
        assert(q.present == p.present.insert(uri, ()));
        assert(d == c.insert(uri, list));
        if q.moved.len() > p.moved.len() {
            let e = diff::entry_of(s, root, rel, list);
            assert(q.moved == p.moved.push(e));
            rows::law_one_diagnostic_for_each_finding(list, diff::text_at(s, root, rel));
            assert forall|i: int| 0 <= i < q.moved.len() implies d.contains_key(
                (#[trigger] q.moved[i]).uri,
            ) && q.moved[i].lattice == d[q.moved[i].uri] && q.moved[i].lsp.len()
                == q.moved[i].lattice.len() && q.moved[i].send == !diff::is_shown(
                s.published,
                q.moved[i].uri,
                q.moved[i].lsp,
            ) by {
                if i < p.moved.len() {
                    assert(q.moved[i] == p.moved[i]);
                }
            }
            assert forall|i: int, j: int| 0 <= i < j < q.moved.len() implies (
            #[trigger] q.moved[i]).uri != (#[trigger] q.moved[j]).uri by {
                assert(q.moved[i] == p.moved[i]);
                if j < p.moved.len() {
                    assert(q.moved[j] == p.moved[j]);
                }
            }
            assert forall|u: Seq<u8>| #[trigger] d.contains_key(u) implies diff::is_held(
                s.published,
                u,
                d[u],
            ) || exists|i: int| 0 <= i < q.moved.len() && (#[trigger] q.moved[i]).uri == u by {
                if u == uri {
                    assert(q.moved[p.moved.len() as int].uri == u);
                } else {
                    assert(c.contains_key(u));
                    if !diff::is_held(s.published, u, c[u]) {
                        let i = choose|i: int|
                            0 <= i < p.moved.len() && (#[trigger] p.moved[i]).uri == u;
                        assert(q.moved[i].uri == u);
                    }
                }
            }
        } else {
            assert(q.moved == p.moved);
            assert forall|u: Seq<u8>| #[trigger] d.contains_key(u) implies diff::is_held(
                s.published,
                u,
                d[u],
            ) || exists|i: int| 0 <= i < q.moved.len() && (#[trigger] q.moved[i]).uri == u by {
                if u != uri {
                    assert(c.contains_key(u));
                }
            }
        }
    }
}

proof fn lemma_all_visited_agrees(
    s: State,
    root: Seq<u8>,
    canonical: Seq<u8>,
    by_file: Map<Seq<u8>, Seq<DiagView>>,
    changed: Map<Seq<u8>, ()>,
    p: Pass,
    c: Map<Seq<u8>, Seq<DiagView>>,
    rels: Seq<Seq<u8>>,
)
    requires
        agrees(s.published, p, c),
    ensures
        agrees(
            s.published,
            diff::all_visited(s, root, canonical, by_file, changed, p, rels),
            claimed_all(root, by_file, c, rels),
        ),
    decreases rels.len(),
{
    if rels.len() > 0 {
        lemma_all_visited_agrees(s, root, canonical, by_file, changed, p, c, rels.drop_last());
        lemma_visited_agrees(
            s,
            root,
            canonical,
            by_file,
            changed,
            diff::all_visited(s, root, canonical, by_file, changed, p, rels.drop_last()),
            claimed_all(root, by_file, c, rels.drop_last()),
            rels.last(),
        );
    }
}

proof fn lemma_detected_agrees(s: State, o: Order, roots: Seq<Seq<u8>>)
    ensures
        agrees(s.published, diff::detected(s, o, roots), claimed(s, o, roots)),
    decreases roots.len(),
{
    if roots.len() > 0 {
        let rest = roots.drop_first();
        lemma_detected_agrees(s, o, rest);
        let root = roots[0];
        let by_file = diff::rows_of_root(s, o, root);
        lemma_all_visited_agrees(
            s,
            root,
            s.roots[root].canonical,
            by_file,
            diff::canonical_uris(s, o.changed),
            diff::detected(s, o, rest),
            claimed(s, o, rest),
            diff::to_visit(s, root, s.roots[root], o.focus, by_file),
        );
    }
}

/// What the client holds of a document after documents that moved were sent.
proof fn lemma_held_after(
    published: Map<Seq<u8>, PublishedView>,
    moved: Seq<MaterializedView>,
    u: Seq<u8>,
)
    requires
        forall|i: int, j: int|
            0 <= i < j < moved.len() ==> (#[trigger] moved[i]).uri != (#[trigger] moved[j]).uri,
    ensures
        (forall|i: int| 0 <= i < moved.len() ==> (#[trigger] moved[i]).uri != u) ==> {
            let h = diff::held_after(published, moved);
            &&& h.contains_key(u) <==> published.contains_key(u)
            &&& published.contains_key(u) ==> h[u] == published[u]
        },
        forall|i: int|
            0 <= i < moved.len() && (#[trigger] moved[i]).uri == u ==> {
                let h = diff::held_after(published, moved);
                &&& h.contains_key(u) <==> moved[i].lsp.len() > 0
                &&& moved[i].lsp.len() > 0 ==> h[u] == (PublishedView {
                    lattice: moved[i].lattice,
                    lsp: moved[i].lsp,
                })
            },
    decreases moved.len(),
{
    if moved.len() > 0 {
        let rest = moved.drop_last();
        assert forall|i: int, j: int| 0 <= i < j < rest.len() implies (#[trigger] rest[i]).uri != (
        #[trigger] rest[j]).uri by {
            assert(rest[i] == moved[i] && rest[j] == moved[j]);
        }
        lemma_held_after(published, rest, u);
        let last = moved.len() - 1;
        if moved[last].uri == u {
            assert forall|i: int| 0 <= i < rest.len() implies (#[trigger] rest[i]).uri != u by {
                assert(rest[i] == moved[i]);
                assert(moved[i].uri != moved[last].uri);
            }
        }
        assert forall|i: int| 0 <= i < moved.len() && (#[trigger] moved[i]).uri == u implies {
            let h = diff::held_after(published, moved);
            &&& h.contains_key(u) <==> moved[i].lsp.len() > 0
            &&& moved[i].lsp.len() > 0 ==> h[u] == (PublishedView {
                lattice: moved[i].lattice,
                lsp: moved[i].lsp,
            })
        } by {
            if i < last {
                assert(rest[i] == moved[i]);
            }
        }
        if forall|i: int| 0 <= i < moved.len() ==> (#[trigger] moved[i]).uri != u {
            assert forall|i: int| 0 <= i < rest.len() implies (#[trigger] rest[i]).uri != u by {
                assert(rest[i] == moved[i]);
            }
        }
    }
}

/// After a pass the client holds what should be shown: of each document that the
/// pass met, the diagnostics that it holds come from the findings of that
/// document, and it holds none where there are no findings.
pub proof fn law_a_pass_shows_what_it_should(s: State, o: Order, u: Seq<u8>)
    requires
        should_show(s, o).contains_key(u),
    ensures
        diff::is_held(diff::published_after(s, o), u, should_show(s, o)[u]),
{
    let roots = sorted::keys_of(KeyOrder::Path, s.roots);
    let p = diff::whole_pass(s, o);
    let c = should_show(s, o);
    lemma_detected_agrees(s, o, roots);
    lemma_held_after(s.published, p.moved, u);
    assert(p.present.contains_key(u));
    if exists|i: int| 0 <= i < p.moved.len() && (#[trigger] p.moved[i]).uri == u {
        let i = choose|i: int| 0 <= i < p.moved.len() && (#[trigger] p.moved[i]).uri == u;
        assert(p.moved[i].lattice == c[u]);
    } else {
        assert(diff::is_held(s.published, u, c[u]));
    }
}

/// After a full pass the client holds diagnostics only for documents that are
/// still there.
pub proof fn law_a_full_pass_leaves_no_strays(s: State, o: Order, u: Seq<u8>)
    requires
        o.focus is None,
        diff::published_after(s, o).contains_key(u),
    ensures
        should_show(s, o).contains_key(u),
{
    lemma_detected_agrees(s, o, sorted::keys_of(KeyOrder::Path, s.roots));
}

// What reaches the client.

/// The diagnostics that a client has, where the records say what it was told.
pub open spec fn client_of(published: Map<Seq<u8>, PublishedView>) -> Map<
    Seq<u8>,
    Seq<SentView>,
> {
    Map::new(
        |u: Seq<u8>| published.contains_key(u) && published[u].lsp.len() > 0,
        |u: Seq<u8>| published[u].lsp,
    )
}

/// The diagnostics that a client has after it was told of some documents, one
/// after another: what it is told of a document replaces what it had for it.
pub open spec fn told(
    client: Map<Seq<u8>, Seq<SentView>>,
    sends: Seq<(Seq<u8>, Seq<SentView>)>,
) -> Map<Seq<u8>, Seq<SentView>>
    decreases sends.len(),
{
    if sends.len() == 0 {
        client
    } else {
        let rest = told(client, sends.drop_last());
        let (uri, list) = sends.last();
        if list.len() == 0 {
            rest.remove(uri)
        } else {
            rest.insert(uri, list)
        }
    }
}

/// Whether a client has the same diagnostics for a document in two states.
pub open spec fn alike(
    a: Map<Seq<u8>, Seq<SentView>>,
    b: Map<Seq<u8>, Seq<SentView>>,
    u: Seq<u8>,
) -> bool {
    a.contains_key(u) == b.contains_key(u) && (a.contains_key(u) ==> a[u] == b[u])
}

/// Whether only documents with diagnostics are on record.
pub open spec fn records_are_full(published: Map<Seq<u8>, PublishedView>) -> bool {
    forall|u: Seq<u8>| #[trigger] published.contains_key(u) ==> published[u].lsp.len() > 0
}

/// What is sent of a document that moved.
proof fn lemma_sends_of(moved: Seq<MaterializedView>, u: Seq<u8>)
    requires
        forall|i: int, j: int|
            0 <= i < j < moved.len() ==> (#[trigger] moved[i]).uri != (#[trigger] moved[j]).uri,
    ensures
        (forall|i: int| 0 <= i < moved.len() ==> (#[trigger] moved[i]).uri != u)
            ==> !diff::sends_of(moved).contains_key(u),
        forall|i: int|
            0 <= i < moved.len() && (#[trigger] moved[i]).uri == u ==> {
                &&& diff::sends_of(moved).contains_key(u) == moved[i].send
                &&& moved[i].send ==> diff::sends_of(moved)[u] == moved[i].lsp
            },
    decreases moved.len(),
{
    if moved.len() > 0 {
        let rest = moved.drop_last();
        let last = moved.len() - 1;
        assert forall|i: int, j: int| 0 <= i < j < rest.len() implies (#[trigger] rest[i]).uri != (
        #[trigger] rest[j]).uri by {
            assert(rest[i] == moved[i] && rest[j] == moved[j]);
        }
        lemma_sends_of(rest, u);
        if moved[last].uri == u {
            assert forall|i: int| 0 <= i < rest.len() implies (#[trigger] rest[i]).uri != u by {
                assert(rest[i] == moved[i]);
                assert(moved[i].uri != moved[last].uri);
            }
        }
        assert forall|i: int| 0 <= i < moved.len() && (#[trigger] moved[i]).uri == u implies {
            &&& diff::sends_of(moved).contains_key(u) == moved[i].send
            &&& moved[i].send ==> diff::sends_of(moved)[u] == moved[i].lsp
        } by {
            if i < last {
                assert(rest[i] == moved[i]);
                assert(moved[i].uri != moved[last].uri);
            }
        }
        if forall|i: int| 0 <= i < moved.len() ==> (#[trigger] moved[i]).uri != u {
            assert(moved[last].uri != u);
            assert forall|i: int| 0 <= i < rest.len() implies (#[trigger] rest[i]).uri != u by {
                assert(rest[i] == moved[i]);
            }
        }
    }
}

/// What a pass sends of a document is what is on record for it then; where it
/// sends nothing, the client has what is on record already.
proof fn lemma_sent_or_alike(s: State, o: Order, u: Seq<u8>)
    ensures
        ({
            let sends = diff::sends_after(s, o);
            let after = client_of(diff::published_after(s, o));
            if sends.contains_key(u) {
                after.contains_key(u) == (sends[u].len() > 0) && (after.contains_key(u)
                    ==> after[u] == sends[u])
            } else {
                alike(client_of(s.published), after, u)
            }
        }),
        records_are_full(s.published) || !s.published.contains_key(u) ==> (
        diff::published_after(s, o).contains_key(u) ==> diff::published_after(s, o)[u].lsp.len()
            > 0),
        records_are_full(s.published) && diff::sends_after(s, o).contains_key(u) ==> !alike(
            client_of(s.published),
            client_of(diff::published_after(s, o)),
            u,
        ),
{
    let p = diff::whole_pass(s, o);
    let c = should_show(s, o);
    lemma_detected_agrees(s, o, sorted::keys_of(KeyOrder::Path, s.roots));
    lemma_held_after(s.published, p.moved, u);
    lemma_sends_of(p.moved, u);
    if exists|i: int| 0 <= i < p.moved.len() && (#[trigger] p.moved[i]).uri == u {
        let i = choose|i: int| 0 <= i < p.moved.len() && (#[trigger] p.moved[i]).uri == u;
        assert(c.contains_key(p.moved[i].uri));
        assert(p.present.contains_key(u));
    }
}

proof fn lemma_told(
    client: Map<Seq<u8>, Seq<SentView>>,
    sends: Map<Seq<u8>, Seq<SentView>>,
    keys: Seq<Seq<u8>>,
    list: Seq<(Seq<u8>, Seq<SentView>)>,
    u: Seq<u8>,
)
    requires
        list.len() == keys.len(),
        forall|i: int| 0 <= i < list.len() ==> #[trigger] list[i] == (keys[i], sends[keys[i]]),
    ensures
        ({
            let t = told(client, list);
            if keys.contains(u) {
                t.contains_key(u) == (sends[u].len() > 0) && (t.contains_key(u) ==> t[u]
                    == sends[u])
            } else {
                alike(client, t, u)
            }
        }),
    decreases list.len(),
{
    if list.len() > 0 {
        let front = keys.drop_last();
        let n = list.len() - 1;
        lemma_told(client, sends, front, list.drop_last(), u);
        assert(list.last() == (keys[n], sends[keys[n]]));
        if keys.contains(u) && keys[n] != u {
            let i = keys.index_of(u);
            assert(front[i] == u);
        }
        if front.contains(u) {
            let i = front.index_of(u);
            assert(keys[i] == u);
        }
    }
}

proof fn lemma_finite_after(s: State, moved: Seq<MaterializedView>)
    requires
        s.published.dom().finite(),
    ensures
        diff::held_after(s.published, moved).dom().finite(),
        diff::sends_of(moved).dom().finite(),
    decreases moved.len(),
{
    if moved.len() > 0 {
        lemma_finite_after(s, moved.drop_last());
    }
}

/// What a pass sends can be listed.
proof fn lemma_sends_listed(s: State, o: Order)
    requires
        s.published.dom().finite(),
    ensures
        ({
            let sends = diff::sends_after(s, o);
            sorted::is_key_list(KeyOrder::Bytes, sorted::keys_of(KeyOrder::Bytes, sends), sends)
        }),
{
    let p = diff::whole_pass(s, o);
    let sends = diff::sends_after(s, o);
    lemma_finite_after(s, p.moved);
    let all = diff::sends_of(p.moved).dom().union(diff::held_after(s.published, p.moved).dom());
    vstd::set_lib::lemma_set_subset_finite(all, sends.dom());
    sorted::lemma_keys_listed(KeyOrder::Bytes, sends);
}

/// What a pass sends, told to a client that has what was on record, gives it what
/// is on record after the pass.
pub proof fn law_what_is_sent_brings_the_client_up_to_date(s: State, o: Order)
    requires
        s.published.dom().finite(),
    ensures
        told(client_of(s.published), diff::in_uri_order(diff::sends_after(s, o))) == client_of(
            diff::published_after(s, o),
        ),
{
    let sends = diff::sends_after(s, o);
    let keys = sorted::keys_of(KeyOrder::Bytes, sends);
    let list = diff::in_uri_order(sends);
    let client = client_of(s.published);
    let after = client_of(diff::published_after(s, o));
    lemma_sends_listed(s, o);
    assert forall|u: Seq<u8>| #[trigger] alike(told(client, list), after, u) by {
        lemma_told(client, sends, keys, list, u);
        lemma_sent_or_alike(s, o, u);
        assert(keys.contains(u) <==> sends.contains_key(u));
    }
    assert forall|u: Seq<u8>| #[trigger]
        told(client, list).contains_key(u) <==> after.contains_key(u) by {
        assert(alike(told(client, list), after, u));
    }
    assert forall|u: Seq<u8>| #[trigger] told(client, list).contains_key(u) implies told(
        client,
        list,
    )[u] == after[u] by {
        assert(alike(told(client, list), after, u));
    }
    assert(told(client, list) =~= after);
}

/// A pass sends of a document exactly if what the client has for it changes:
/// from none to some, from some to others, or to none.
pub proof fn law_only_what_changes_is_sent(s: State, o: Order, u: Seq<u8>)
    requires
        records_are_full(s.published),
    ensures
        diff::sends_after(s, o).contains_key(u) <==> !alike(
            client_of(s.published),
            client_of(diff::published_after(s, o)),
            u,
        ),
{
    lemma_sent_or_alike(s, o, u);
}

/// A pass leaves only documents with diagnostics on record: of what is not on
/// record the client has none.
pub proof fn law_records_stay_full(s: State, o: Order)
    requires
        records_are_full(s.published),
    ensures
        records_are_full(diff::published_after(s, o)),
{
    assert forall|u: Seq<u8>| #[trigger]
        diff::published_after(s, o).contains_key(u) implies diff::published_after(s, o)[u].lsp.len()
        > 0 by {
        lemma_sent_or_alike(s, o, u);
    }
}

/// A document that is answered whatever was sent before brings the client up to
/// date too: its record is forgotten, and where the pass leaves none, the client
/// is told that there is nothing.
pub proof fn law_a_forced_answer_brings_the_client_up_to_date(
    s: State,
    o: Order,
    uri: Option<Seq<u8>>,
)
    requires
        s.published.dom().finite(),
    ensures
        ({
            let f = outbox::forgotten(s, uri);
            let sends = outbox::answered(
                diff::in_uri_order(diff::sends_after(f, o)),
                diff::after_pass(f, o),
                uri,
            );
            told(client_of(s.published), sends) == client_of(diff::published_after(f, o))
        }),
{
    let f = outbox::forgotten(s, uri);
    let sends = diff::sends_after(f, o);
    let keys = sorted::keys_of(KeyOrder::Bytes, sends);
    let list = diff::in_uri_order(sends);
    let client = client_of(s.published);
    let after = client_of(diff::published_after(f, o));
    let answer = outbox::answered(list, diff::after_pass(f, o), uri);
    let t = told(client, answer);
    lemma_sends_listed(f, o);
    if answer.len() > list.len() {
        assert(answer.drop_last() =~= list);
    }
    assert forall|u: Seq<u8>| #[trigger] alike(told(client, answer), after, u) by {
        lemma_told(client, sends, keys, list, u);
        lemma_sent_or_alike(f, o, u);
        assert(keys.contains(u) <==> sends.contains_key(u));
    }
    assert forall|u: Seq<u8>| #[trigger] t.contains_key(u) <==> after.contains_key(u) by {
        assert(alike(told(client, answer), after, u));
    }
    assert forall|u: Seq<u8>| #[trigger] t.contains_key(u) implies t[u] == after[u] by {
        assert(alike(told(client, answer), after, u));
    }
    assert(t =~= after);
}

/// A document that is published alone brings the client up to date for it and
/// leaves the others as they are.
pub proof fn law_one_sent_document_brings_the_client_up_to_date(
    published: Map<Seq<u8>, PublishedView>,
    uri: Seq<u8>,
    lattice: Seq<DiagView>,
    lsp: Seq<SentView>,
)
    ensures
        told(client_of(published), seq![(uri, lsp)]) == client_of(
            diff::held_after_one(published, uri, lattice, lsp),
        ),
        diff::is_shown(published, uri, lsp) ==> alike(
            client_of(published),
            client_of(diff::held_after_one(published, uri, lattice, lsp)),
            uri,
        ),
{
    let sends = seq![(uri, lsp)];
    let client = client_of(published);
    let after = client_of(diff::held_after_one(published, uri, lattice, lsp));
    assert(sends.drop_last() =~= Seq::<(Seq<u8>, Seq<SentView>)>::empty());
    assert(told(client, sends.drop_last()) == client);
    assert(told(client, sends) =~= after);
}

// A second pass.

/// A pass changes nothing that findings depend on.
proof fn lemma_same_rows(s: State, o: Order, root: Seq<u8>)
    requires
        s.roots.contains_key(root),
        s.roots.dom().finite(),
    ensures
        ({
            let t = diff::after_pass(s, o);
            let q = Order { changed: Map::empty(), ..o };
            &&& diff::rows_of_root(t, q, root) == diff::rows_of_root(s, o, root)
            &&& forall|by_file: Map<Seq<u8>, Seq<DiagView>>|
                diff::to_visit(t, root, t.roots[root], o.focus, by_file) == #[trigger] diff::to_visit(
                    s,
                    root,
                    s.roots[root],
                    o.focus,
                    by_file,
                )
        }),
{
    let t = diff::after_pass(s, o);
    let a = s.roots[root];
    let b = t.roots[root];
    assert(t.store == s.store);
    assert(b.config == a.config && b.error == a.error && b.committed == a.committed
        && b.has_config == a.has_config && b.canonical == a.canonical);
    assert(o.adjudication == Adjudication::Held ==> b.verdicts == a.verdicts);
    assert(publish::concerns(t, root, o.focus) == publish::concerns(s, root, o.focus));
    let fresh = diff::fresh_for(o.fresh, root);
    assert(publish::channel_rows(a, fresh) == publish::channel_rows(b, fresh));
    assert(!a.committed ==> publish::channel_rows(a, a.verdicts) == publish::channel_rows(
        b,
        b.verdicts,
    ));
    let roots = sorted::keys_of(KeyOrder::Path, s.roots);
    sorted::lemma_keys_listed(KeyOrder::Path, s.roots);
    assert(sorted::is_key_list(KeyOrder::Path, roots, t.roots));
    sorted::lemma_keys_of(KeyOrder::Path, roots, t.roots);
    assert forall|files: Map<Seq<u8>, crate::workspace::FileView>|
        workspaces::graph_over(t, root, files) == #[trigger] workspaces::graph_over(s, root, files) by {
        assert(workspaces::config_at(t, Some(root)) == workspaces::config_at(s, Some(root)));
        assert(workspaces::boundaries_of(t, root) == workspaces::boundaries_of(s, root));
    }
    lemma_same_perspectives(s, t, root, publish::looked_at(s, root, o.focus));
    assert(publish::looked_at(t, root, o.focus) == publish::looked_at(s, root, o.focus));
    assert(publish::saved_rows(t, root, o.on_disk) == publish::saved_rows(s, root, o.on_disk));
    assert(publish::computed_rows(t, root, o.adjudication, o.focus, o.on_disk)
        == publish::computed_rows(s, root, o.adjudication, o.focus, o.on_disk));
}

proof fn lemma_same_perspectives(s: State, t: State, root: Seq<u8>, keys: Seq<Seq<u8>>)
    requires
        t.store == s.store,
        forall|files: Map<Seq<u8>, crate::workspace::FileView>|
            workspaces::graph_over(t, root, files) == #[trigger] workspaces::graph_over(
                s,
                root,
                files,
            ),
    ensures
        publish::perspectives_of(t, root, keys) == publish::perspectives_of(s, root, keys),
    decreases keys.len(),
{
    if keys.len() > 0 {
        lemma_same_perspectives(s, t, root, keys.drop_last());
        let abs = keys.last();
        assert(workspaces::graph_over(t, root, store::perspective(t.store, root, abs))
            == workspaces::graph_over(s, root, store::perspective(s.store, root, abs)));
    }
}

/// Where everything that is claimed is held and nothing is forced, a visit finds
/// nothing that moved.
proof fn lemma_silent_visits(
    s: State,
    root: Seq<u8>,
    canonical: Seq<u8>,
    by_file: Map<Seq<u8>, Seq<DiagView>>,
    p: Pass,
    c: Map<Seq<u8>, Seq<DiagView>>,
    all: Map<Seq<u8>, Seq<DiagView>>,
    rels: Seq<Seq<u8>>,
)
    requires
        p.moved.len() == 0,
        forall|u: Seq<u8>| #[trigger] p.present.contains_key(u) <==> c.contains_key(u),
        forall|u: Seq<u8>| #[trigger]
            claimed_all(root, by_file, c, rels).contains_key(u) ==> all.contains_key(u)
                && claimed_all(root, by_file, c, rels)[u] == all[u],
        forall|u: Seq<u8>| #[trigger]
            all.contains_key(u) ==> diff::is_held(s.published, u, all[u]),
    ensures
        ({
            let q = diff::all_visited(s, root, canonical, by_file, Map::empty(), p, rels);
            &&& q.moved.len() == 0
            &&& forall|u: Seq<u8>| #[trigger]
                q.present.contains_key(u) <==> claimed_all(root, by_file, c, rels).contains_key(u)
        }),
    decreases rels.len(),
{
    if rels.len() > 0 {
        let rest = rels.drop_last();
        let rel = rels.last();
        let d = claimed_all(root, by_file, c, rest);
        let e = claimed_all(root, by_file, c, rels);
        assert forall|u: Seq<u8>| #[trigger] d.contains_key(u) implies all.contains_key(u) && d[u]
            == all[u] by {
            assert(e.contains_key(u));
        }
        lemma_silent_visits(s, root, canonical, by_file, p, c, all, rest);
        let uri = diff::uri_under(root, rel);
        if !d.contains_key(uri) {
            assert(e.contains_key(uri));
            assert(all.contains_key(uri));
        }
    }
}

proof fn lemma_claims_grow(
    root: Seq<u8>,
    by_file: Map<Seq<u8>, Seq<DiagView>>,
    c: Map<Seq<u8>, Seq<DiagView>>,
    rels: Seq<Seq<u8>>,
    u: Seq<u8>,
)
    requires
        c.contains_key(u),
    ensures
        claimed_all(root, by_file, c, rels).contains_key(u),
        claimed_all(root, by_file, c, rels)[u] == c[u],
    decreases rels.len(),
{
    if rels.len() > 0 {
        lemma_claims_grow(root, by_file, c, rels.drop_last(), u);
    }
}

proof fn lemma_silent_pass(
    s: State,
    o: Order,
    t: State,
    q: Order,
    roots: Seq<Seq<u8>>,
    all: Map<Seq<u8>, Seq<DiagView>>,
)
    requires
        s.roots.dom().finite(),
        t == diff::after_pass(s, o),
        q == (Order { changed: Map::empty(), ..o }),
        forall|i: int| 0 <= i < roots.len() ==> s.roots.contains_key(#[trigger] roots[i]),
        forall|u: Seq<u8>| #[trigger]
            claimed(s, o, roots).contains_key(u) ==> all.contains_key(u) && claimed(s, o, roots)[u]
                == all[u],
        forall|u: Seq<u8>| #[trigger]
            all.contains_key(u) ==> diff::is_held(t.published, u, all[u]),
    ensures
        diff::detected(t, q, roots).moved.len() == 0,
        forall|u: Seq<u8>| #[trigger]
            diff::detected(t, q, roots).present.contains_key(u) <==> claimed(
                s,
                o,
                roots,
            ).contains_key(u),
    decreases roots.len(),
{
    if roots.len() > 0 {
        let rest = roots.drop_first();
        let root = roots[0];
        let by_file = diff::rows_of_root(s, o, root);
        let rels = diff::to_visit(s, root, s.roots[root], o.focus, by_file);
        let c = claimed(s, o, rest);
        assert forall|i: int| 0 <= i < rest.len() implies s.roots.contains_key(#[trigger] rest[i]) by {
            assert(rest[i] == roots[i + 1]);
        }
        assert forall|u: Seq<u8>| #[trigger] c.contains_key(u) implies all.contains_key(u) && c[u]
            == all[u] by {
            lemma_claims_grow(root, by_file, c, rels, u);
            assert(claimed(s, o, roots).contains_key(u));
        }
        lemma_silent_pass(s, o, t, q, rest, all);
        lemma_same_rows(s, o, root);
        assert(diff::canonical_uris(t, q.changed) =~= Map::<Seq<u8>, ()>::empty());
        assert(claimed(s, o, roots) == claimed_all(root, by_file, c, rels));
        assert(diff::to_visit(t, root, t.roots[root], q.focus, by_file) == rels);
        lemma_silent_visits(
            t,
            root,
            t.roots[root].canonical,
            by_file,
            diff::detected(t, q, rest),
            c,
            all,
            rels,
        );
    }
}

/// Publication is a difference: a pass right after another one, with the same
/// verdicts and no text changed in between, sends nothing and changes nothing.
pub proof fn law_a_second_pass_is_silent(s: State, o: Order)
    requires
        s.roots.dom().finite(),
    ensures
        ({
            let t = diff::after_pass(s, o);
            let q = Order { changed: Map::empty(), ..o };
            &&& diff::sends_after(t, q) == Map::<Seq<u8>, Seq<SentView>>::empty()
            &&& diff::published_after(t, q) == t.published
        }),
{
    let t = diff::after_pass(s, o);
    let q = Order { changed: Map::empty(), ..o };
    let roots = sorted::keys_of(KeyOrder::Path, s.roots);
    sorted::lemma_keys_listed(KeyOrder::Path, s.roots);
    assert(sorted::is_key_list(KeyOrder::Path, roots, t.roots));
    sorted::lemma_keys_of(KeyOrder::Path, roots, t.roots);
    let all = should_show(s, o);
    assert forall|i: int| 0 <= i < roots.len() implies s.roots.contains_key(#[trigger] roots[i]) by {
        assert(roots.contains(roots[i]));
    }
    assert forall|u: Seq<u8>| #[trigger] all.contains_key(u) implies diff::is_held(
        t.published,
        u,
        all[u],
    ) by {
        law_a_pass_shows_what_it_should(s, o, u);
    }
    lemma_silent_pass(s, o, t, q, roots, all);
    let p = diff::whole_pass(t, q);
    assert(p.moved =~= Seq::<MaterializedView>::empty());
    let held = diff::held_after(t.published, p.moved);
    assert(held == t.published);
    assert forall|u: Seq<u8>| !#[trigger] diff::has_left(held, p.present, o.focus, u) by {
        if o.focus is None && held.contains_key(u) {
            law_a_full_pass_leaves_no_strays(s, o, u);
            assert(all.contains_key(u));
        }
    }
    assert(diff::sends_after(t, q) =~= Map::<Seq<u8>, Seq<SentView>>::empty());
    assert(diff::published_after(t, q) =~= t.published);
}

// Passes about one document.

/// The URIs that a pass about one document can touch: that of the document and
/// that of the configuration of its root.
pub open spec fn in_focus(s: State, abs: Seq<u8>, u: Seq<u8>) -> bool {
    upkeep::recorded_root(s, abs) matches Some(root) && (u == diff::uri_under(
        root,
        path::relative(abs, root),
    ) || u == diff::uri_under(root, publish::marker_name()))
}

proof fn lemma_claimed_among(
    root: Seq<u8>,
    by_file: Map<Seq<u8>, Seq<DiagView>>,
    c: Map<Seq<u8>, Seq<DiagView>>,
    rels: Seq<Seq<u8>>,
    u: Seq<u8>,
)
    requires
        claimed_all(root, by_file, c, rels).contains_key(u),
    ensures
        c.contains_key(u) || exists|i: int|
            0 <= i < rels.len() && u == diff::uri_under(root, #[trigger] rels[i]),
    decreases rels.len(),
{
    if rels.len() > 0 {
        let rest = rels.drop_last();
        if claimed_all(root, by_file, c, rest).contains_key(u) {
            lemma_claimed_among(root, by_file, c, rest, u);
            if !c.contains_key(u) {
                let i = choose|i: int|
                    0 <= i < rest.len() && u == diff::uri_under(root, #[trigger] rest[i]);
                assert(rels[i] == rest[i]);
            }
        } else {
            assert(u == diff::uri_under(root, rels[rels.len() - 1]));
        }
    }
}

proof fn lemma_claimed_in_focus(s: State, o: Order, abs: Seq<u8>, roots: Seq<Seq<u8>>, u: Seq<u8>)
    requires
        o.focus == Some(abs),
        claimed(s, o, roots).contains_key(u),
    ensures
        in_focus(s, abs, u),
        o.adjudication == Adjudication::Held && s.roots[upkeep::recorded_root(
            s,
            abs,
        )->0].committed ==> u == diff::uri_under(
            upkeep::recorded_root(s, abs)->0,
            path::relative(abs, upkeep::recorded_root(s, abs)->0),
        ),
    decreases roots.len(),
{
    if roots.len() > 0 {
        let root = roots[0];
        let by_file = diff::rows_of_root(s, o, root);
        let rels = diff::to_visit(s, root, s.roots[root], o.focus, by_file);
        let c = claimed(s, o, roots.drop_first());
        lemma_claimed_among(root, by_file, c, rels, u);
        if c.contains_key(u) {
            lemma_claimed_in_focus(s, o, abs, roots.drop_first(), u);
        } else {
            let i = choose|i: int|
                0 <= i < rels.len() && u == diff::uri_under(root, #[trigger] rels[i]);
            let keys = if publish::concerns(s, root, o.focus) {
                set![path::relative(abs, root), publish::marker_name()]
            } else {
                Set::empty()
            };
            assert(by_file.dom().subset_of(keys));
            vstd::set_lib::lemma_set_subset_finite(keys, by_file.dom());
            sorted::lemma_keys_listed(KeyOrder::Path, by_file);
            assert(rels.contains(rels[i]));
            assert(by_file.contains_key(rels[i]));
        }
    }
}

/// What is not listed as moved is not sent.
proof fn lemma_not_sent(moved: Seq<MaterializedView>, u: Seq<u8>)
    requires
        forall|i: int| 0 <= i < moved.len() ==> (#[trigger] moved[i]).uri != u,
    ensures
        !diff::sends_of(moved).contains_key(u),
    decreases moved.len(),
{
    if moved.len() > 0 {
        let rest = moved.drop_last();
        assert forall|i: int| 0 <= i < rest.len() implies (#[trigger] rest[i]).uri != u by {
            assert(rest[i] == moved[i]);
        }
        lemma_not_sent(rest, u);
        assert(moved[moved.len() - 1].uri != u);
    }
}

/// A pass about one document touches nothing else: it sends nothing for any other
/// URI than that document's and its configuration's, and the client goes on
/// holding there what it held. A draft under a written configuration does not
/// touch the configuration either.
pub proof fn law_a_scoped_pass_touches_one_document(s: State, o: Order, abs: Seq<u8>, u: Seq<u8>)
    requires
        o.focus == Some(abs),
        !in_focus(s, abs, u) || (o.adjudication == Adjudication::Held && s.roots[upkeep::recorded_root(
            s,
            abs,
        )->0].committed && u != diff::uri_under(
            upkeep::recorded_root(s, abs)->0,
            path::relative(abs, upkeep::recorded_root(s, abs)->0),
        )),
    ensures
        !diff::sends_after(s, o).contains_key(u),
        diff::published_after(s, o).contains_key(u) <==> s.published.contains_key(u),
        s.published.contains_key(u) ==> diff::published_after(s, o)[u] == s.published[u],
{
    let roots = sorted::keys_of(KeyOrder::Path, s.roots);
    let p = diff::whole_pass(s, o);
    lemma_detected_agrees(s, o, roots);
    if should_show(s, o).contains_key(u) {
        lemma_claimed_in_focus(s, o, abs, roots, u);
    }
    assert forall|i: int| 0 <= i < p.moved.len() implies (#[trigger] p.moved[i]).uri != u by {
        assert(should_show(s, o).contains_key(p.moved[i].uri));
    }
    lemma_held_after(s.published, p.moved, u);
    lemma_not_sent(p.moved, u);
}

// Drafts and commitments.

/// A draft never adjudicates: the verdicts stay as the last commitment left them.
pub proof fn law_drafts_keep_verdicts(s: State, o: Order)
    requires
        o.adjudication == Adjudication::Held,
    ensures
        diff::roots_after(s, o) == s.roots,
{
    assert(diff::roots_after(s, o) =~= s.roots);
}

/// Under a configuration that nobody wrote, nothing is shown but why there is
/// none.
pub proof fn law_nothing_is_shown_under_a_made_up_config(
    s: State,
    root: Seq<u8>,
    meta: MetaView,
    adjudication: Adjudication,
    fresh: overrides::VerdictsView,
    focus: Option<Seq<u8>>,
    on_disk: Map<Seq<u8>, ()>,
    file: Seq<u8>,
)
    requires
        !meta.committed,
    ensures
        ({
            let shown = publish::desired_rows(s, root, meta, adjudication, fresh, focus, on_disk);
            &&& shown.contains_key(file) ==> file == publish::marker_name()
            &&& shown.contains_key(file) ==> meta.error is Some && shown[file] =~= seq![
                publish::about_config(
                    crate::diagnostic::Severity::Error,
                    meta.error->0,
                ),
            ]
        }),
{
}

// Buffer locality.

/// Whether two states differ at most in the buffers of documents other than one.
pub open spec fn same_but_for_other_buffers(s: State, t: State, abs: Seq<u8>) -> bool {
    &&& s.store.saved == t.store.saved
    &&& s.roots == t.roots
    &&& s.git == t.git
    &&& s.default_config == t.default_config
    &&& s.store.overlay.contains_key(abs) <==> t.store.overlay.contains_key(abs)
    &&& s.store.overlay.contains_key(abs) ==> s.store.overlay[abs] == t.store.overlay[abs]
}

/// A pass about one document computes the same rows whatever is in the buffers of
/// others.
pub proof fn law_a_scoped_pass_sees_one_buffer(
    s: State,
    t: State,
    root: Seq<u8>,
    meta: MetaView,
    adjudication: Adjudication,
    fresh: overrides::VerdictsView,
    abs: Seq<u8>,
    on_disk: Map<Seq<u8>, ()>,
)
    requires
        same_but_for_other_buffers(s, t, abs),
    ensures
        publish::desired_rows(s, root, meta, adjudication, fresh, Some(abs), on_disk)
            == publish::desired_rows(t, root, meta, adjudication, fresh, Some(abs), on_disk),
{
    assert(upkeep::recorded_root(s, abs) == upkeep::recorded_root(t, abs));
    store::law_buffers_are_local(s.store, t.store, root, abs);
    let keys = seq![abs];
    assert(keys.drop_last() =~= Seq::<Seq<u8>>::empty());
    assert(publish::perspectives_of(s, root, keys.drop_last()) == publish::perspectives_of(
        t,
        root,
        keys.drop_last(),
    ));
    assert(publish::perspectives_of(s, root, keys) == publish::perspectives_of(t, root, keys));
}

/// The rows of a document after the rows of some perspectives were put in.
proof fn lemma_merged_at(
    live: Seq<DiagView>,
    s: State,
    root: Seq<u8>,
    keys: Seq<Seq<u8>>,
    on_disk: Map<Seq<u8>, ()>,
    rel: Seq<u8>,
)
    requires
        forall|i: int|
            0 <= i < keys.len() ==> path::under(#[trigger] keys[i], root)
                && s.store.overlay.contains_key(keys[i]),
    ensures
        ({
            let abs = path::absolute(root, rel);
            let rows = publish::rows_at(
                publish::merged(live, publish::perspectives_of(s, root, keys), on_disk),
                rel,
            );
            if keys.contains(abs) {
                rows == rows::rows_for(
                    rows::live_rows(
                        workspaces::graph_over(s, root, store::perspective(s.store, root, abs)),
                        on_disk,
                    ),
                    rel,
                )
            } else {
                rows == publish::rows_at(publish::grouped(live), rel)
            }
        }),
    decreases keys.len(),
{
    let abs = path::absolute(root, rel);
    path::lemma_absolute(root, rel);
    if keys.len() > 0 {
        let rest = keys.drop_last();
        let last = keys.last();
        assert(keys[keys.len() - 1] == last);
        path::lemma_relative(last, root);
        assert forall|i: int| 0 <= i < rest.len() implies path::under(#[trigger] rest[i], root)
            && s.store.overlay.contains_key(rest[i]) by {
            assert(rest[i] == keys[i]);
        }
        lemma_merged_at(live, s, root, rest, on_disk, rel);
        let list = publish::perspectives_of(s, root, keys);
        assert(list.drop_last() =~= publish::perspectives_of(s, root, rest));
        assert(keys.contains(abs) <==> rest.contains(abs) || abs == last) by {
            if rest.contains(abs) {
                assert(keys[rest.index_of(abs)] == abs);
            }
            if keys.contains(abs) && abs != last {
                let i = keys.index_of(abs);
                assert(rest[i] == abs);
            }
        }
        if path::relative(last, root) == rel {
            assert(last == abs);
        }
    }
}

/// Buffers are local: in a full pass the rows of a document, before verdicts, are
/// the same whatever is in the buffers of other documents.
pub proof fn law_a_full_pass_keeps_buffers_apart(
    s: State,
    t: State,
    root: Seq<u8>,
    adjudication: Adjudication,
    on_disk: Map<Seq<u8>, ()>,
    rel: Seq<u8>,
)
    requires
        same_but_for_other_buffers(s, t, path::absolute(root, rel)),
        s.store.overlay.dom().finite(),
        t.store.overlay.dom().finite(),
    ensures
        publish::rows_at(publish::computed_rows(s, root, adjudication, None, on_disk), rel)
            == publish::rows_at(
            publish::computed_rows(t, root, adjudication, None, on_disk),
            rel,
        ),
{
    let abs = path::absolute(root, rel);
    path::lemma_absolute(root, rel);
    lemma_looked_at(s, root);
    lemma_looked_at(t, root);
    let a = publish::looked_at(s, root, None);
    let b = publish::looked_at(t, root, None);
    let live = publish::saved_rows(s, root, on_disk);
    assert(live == publish::saved_rows(t, root, on_disk));
    lemma_merged_at(live, s, root, a, on_disk, rel);
    lemma_merged_at(live, t, root, b, on_disk, rel);
    assert(a.contains(abs) <==> b.contains(abs));
    store::law_buffers_are_local(s.store, t.store, root, abs);
}

proof fn lemma_looked_at(s: State, root: Seq<u8>)
    requires
        s.store.overlay.dom().finite(),
    ensures
        ({
            let keys = publish::looked_at(s, root, None);
            let owned = store::docs_owned(s.store.overlay, root);
            &&& forall|k: Seq<u8>| #[trigger] keys.contains(k) <==> owned.contains_key(k)
            &&& forall|i: int|
                0 <= i < keys.len() ==> path::under(#[trigger] keys[i], root)
                    && s.store.overlay.contains_key(keys[i])
        }),
{
    let keys = publish::looked_at(s, root, None);
    let owned = store::docs_owned(s.store.overlay, root);
    assert(owned.dom().subset_of(s.store.overlay.dom()));
    vstd::set_lib::lemma_set_subset_finite(s.store.overlay.dom(), owned.dom());
    sorted::lemma_keys_listed(KeyOrder::Path, owned);
    assert forall|i: int| 0 <= i < keys.len() implies path::under(#[trigger] keys[i], root)
        && s.store.overlay.contains_key(keys[i]) by {
        assert(keys.contains(keys[i]));
    }
}

/// Verdicts are found on the saved documents alone: buffers do not move them.
pub proof fn law_buffers_do_not_move_verdicts(
    s: State,
    t: State,
    root: Seq<u8>,
    on_disk: Map<Seq<u8>, ()>,
)
    requires
        s.store.saved == t.store.saved,
        s.roots == t.roots,
        s.git == t.git,
        s.default_config == t.default_config,
    ensures
        publish::saved_rows(s, root, on_disk) == publish::saved_rows(t, root, on_disk),
{
}

} // verus!

//! Connectivity: which documents the graph of links leaves out.
use vstd::prelude::*;
use crate::components;
use crate::config::ConnectivityPolicy;
use crate::diagnostic;
use crate::diagnostic::{DiagView, Diagnostic, Severity};
use crate::path;
use crate::text;
use crate::workspace::{Graph, Link, LinkKind, WorkspaceView};

verus! {

/// Whether a link leads to a document of the project.
pub open spec fn leads_to(link: Link, target: Seq<u8>) -> bool {
    match link.kind {
        LinkKind::IntraProject { target: t, .. } => path::named(t@) == target,
        _ => false,
    }
}

/// Whether the `i`th document links to the `j`th, another one.
pub open spec fn links_between(ws: Graph, i: int, j: int) -> bool {
    i != j && exists|k: int|
        0 <= k < ws.files.values()[i].links@.len() && leads_to(
            #[trigger] ws.files.values()[i].links@[k],
            ws.files.keys()[j],
        )
}

/// Whether a step leads from one document to another: along a link, and where
/// direction does not count also against one.
pub open spec fn connected(ws: Graph, directed: bool, i: int, j: int) -> bool {
    links_between(ws, i, j) || (!directed && links_between(ws, j, i))
}

/// Whether a document is one of the configured roots.
pub open spec fn is_root(ws: Graph, i: int) -> bool {
    exists|k: int|
        0 <= k < ws.config.policy.roots@.len() && path::normalized(
            text::utf8((#[trigger] ws.config.policy.roots@[k])@),
        ) == ws.files.keys()[i]
}

/// Whether at most `k` steps lead from a root to a document.
pub open spec fn reached_in(ws: Graph, directed: bool, k: nat, i: int) -> bool
    decreases k,
{
    if k == 0 {
        is_root(ws, i)
    } else {
        reached_in(ws, directed, (k - 1) as nat, i) || exists|j: int|
            0 <= j < ws.files.keys().len() && reached_in(ws, directed, (k - 1) as nat, j)
                && #[trigger] connected(ws, directed, j, i)
    }
}

/// Whether steps lead from a root to a document.
pub open spec fn reachable(ws: Graph, directed: bool, i: int) -> bool {
    exists|k: nat| #[trigger] reached_in(ws, directed, k, i)
}

/// Whether a document has a link to or from another.
pub open spec fn has_neighbour(ws: Graph, i: int) -> bool {
    exists|j: int| 0 <= j < ws.files.keys().len() && #[trigger] connected(ws, false, i, j)
}

/// Whether some configured root is a document.
pub open spec fn has_root(ws: Graph) -> bool {
    exists|i: int| 0 <= i < ws.files.keys().len() && #[trigger] is_root(ws, i)
}

/// The message about a document, if the policy does not let it stand.
pub open spec fn isolation(ws: Graph, i: int) -> Option<Seq<u8>> {
    match ws.config.policy.connectivity {
        ConnectivityPolicy::Off => None,
        ConnectivityPolicy::NoOrphans => if is_root(ws, i) || has_neighbour(ws, i) {
            None
        } else {
            Some(text::utf8("orphaned document: no links to or from any other document"@))
        },
        ConnectivityPolicy::NoIslands => if !has_root(ws) || is_root(ws, i) || reachable(
            ws,
            false,
            i,
        ) {
            None
        } else {
            Some(text::utf8("isolated document: not connected to the project graph"@))
        },
        ConnectivityPolicy::Reachable => if !has_root(ws) || is_root(ws, i) || reachable(
            ws,
            true,
            i,
        ) {
            None
        } else {
            Some(
                text::utf8(
                    "unreachable document: not reachable from any root by forward links"@,
                ),
            )
        },
    }
}

/// What is said of the first `n` documents.
pub open spec fn isolation_reports(ws: Graph, n: int) -> Seq<DiagView>
    decreases n,
{
    if n <= 0 {
        Seq::empty()
    } else {
        isolation_reports(ws, n - 1) + match isolation(ws, n - 1) {
            Some(message) => seq![
                DiagView {
                    file: ws.files.keys()[n - 1],
                    line: 1,
                    severity: Severity::Warning,
                    message,
                    span: None,
                },
            ],
            None => Seq::empty(),
        }
    }
}

/// All findings about connectivity, before they are sorted.
pub open spec fn all_isolated(ws: Graph) -> Seq<DiagView> {
    isolation_reports(ws, ws.files.keys().len() as int)
}

// The graph.

/// Whether an adjacency list is that of the links of a workspace.
spec fn is_adjacency(ws: Graph, directed: bool, adj: Seq<Vec<usize>>) -> bool {
    &&& adj.len() == ws.files.keys().len()
    &&& forall|i: int, k: int|
        0 <= i < adj.len() && 0 <= k < adj[i]@.len() ==> 0 <= #[trigger] adj[i]@[k] < adj.len()
            && connected(ws, directed, i, adj[i]@[k] as int)
    &&& forall|i: int, j: int|
        0 <= i < adj.len() && 0 <= j < adj.len() && #[trigger] connected(ws, directed, i, j)
            ==> adj[i]@.contains(j as usize)
}

/// Whether the flags mark the configured roots.
spec fn marks_roots(ws: Graph, flags: Seq<bool>) -> bool {
    &&& flags.len() == ws.files.keys().len()
    &&& forall|i: int| 0 <= i < flags.len() ==> #[trigger] flags[i] == is_root(ws, i)
}

fn find_roots(ws: &WorkspaceView<'_>) -> (r: Vec<bool>)
    ensures
        marks_roots(ws@, r@),
{
    let n = ws.files.len();
    let mut r: Vec<bool> = Vec::new();
    let mut i: usize = 0;
    while i < n
        invariant
            i <= n,
            n == ws.files.keys().len(),
            r@.len() == i,
            forall|j: int| 0 <= j < i ==> !#[trigger] r@[j],
        decreases n - i,
    {
        r.push(false);
        i += 1;
    }
    let roots = &ws.config.policy.roots;
    let mut k: usize = 0;
    ws.files.keys_ascend();
    while k < roots.len()
        invariant
            k <= roots@.len(),
            roots@ == ws.config.policy.roots@,
            n == ws.files.keys().len(),
            r@.len() == n,
            ws.files.keys().no_duplicates(),
            forall|j: int|
                0 <= j < n ==> #[trigger] r@[j] == exists|x: int|
                    0 <= x < k && path::normalized(text::utf8((#[trigger] roots@[x])@))
                        == ws.files.keys()[j],
        decreases roots@.len() - k,
    {
        let (normalized, _) = path::normalize_path(roots[k].as_str());
        let ghost r0 = r@;
        let ghost target = path::normalized(text::utf8(roots@[k as int]@));
        proof {
            components::lemma_normalized_normal(text::utf8(roots@[k as int]@));
        }
        match ws.files.position(normalized.as_str()) {
            Some(at) => {
                r.set(at, true);
                assert(ws.files.keys()[at as int] == target);
            },
            None => {},
        }
        proof {
            assert forall|j: int| 0 <= j < n implies #[trigger] r@[j] == exists|x: int|
                0 <= x < k + 1 && path::normalized(text::utf8((#[trigger] roots@[x])@))
                    == ws.files.keys()[j] by {
                let key = ws.files.keys()[j];
                if key == target {
                    assert(path::normalized(text::utf8(roots@[k as int]@)) == key);
                    assert(ws.files.keys().contains(target));
                } else {
                    if r0[j] {
                        let x = choose|x: int|
                            0 <= x < k && path::normalized(text::utf8((#[trigger] roots@[x])@))
                                == key;
                        assert(path::normalized(text::utf8(roots@[x]@)) == key);
                    }
                    if exists|x: int|
                        0 <= x < k + 1 && path::normalized(text::utf8((#[trigger] roots@[x])@))
                            == key {
                        let x = choose|x: int|
                            0 <= x < k + 1 && path::normalized(
                                text::utf8((#[trigger] roots@[x])@),
                            ) == key;
                        assert(x < k);
                        assert(path::normalized(text::utf8(roots@[x]@)) == key);
                    }
                }
            }
        }
        k += 1;
    }
    r
}

fn has_link_to(links: &Vec<Link>, target: &str) -> (r: bool)
    ensures
        r == exists|k: int|
            0 <= k < links@.len() && leads_to(#[trigger] links@[k], text::utf8(target@)),
{
    let mut k: usize = 0;
    while k < links.len()
        invariant
            k <= links@.len(),
            forall|j: int| 0 <= j < k ==> !leads_to(#[trigger] links@[j], text::utf8(target@)),
        decreases links@.len() - k,
    {
        if let LinkKind::IntraProject { target: t, .. } = &links[k].kind {
            let there = path::normal(t.as_str());
            if text::same(there.as_str(), target) {
                assert(leads_to(links@[k as int], text::utf8(target@)));
                return true;
            }
        }
        k += 1;
    }
    false
}

fn is_link(ws: &WorkspaceView<'_>, i: usize, j: usize) -> (r: bool)
    requires
        i < ws.files.keys().len(),
        j < ws.files.keys().len(),
    ensures
        r == links_between(ws@, i as int, j as int),
{
    i != j && has_link_to(&ws.files.value_at(i).links, ws.files.key_at(j))
}

fn is_connected(ws: &WorkspaceView<'_>, directed: bool, i: usize, j: usize) -> (r: bool)
    requires
        i < ws.files.keys().len(),
        j < ws.files.keys().len(),
    ensures
        r == connected(ws@, directed, i as int, j as int),
{
    is_link(ws, i, j) || (!directed && is_link(ws, j, i))
}

fn neighbours(ws: &WorkspaceView<'_>, directed: bool, i: usize) -> (r: Vec<usize>)
    requires
        i < ws.files.keys().len(),
    ensures
        forall|k: int|
            0 <= k < r@.len() ==> 0 <= #[trigger] r@[k] < ws.files.keys().len() && connected(
                ws@,
                directed,
                i as int,
                r@[k] as int,
            ),
        forall|j: int|
            0 <= j < ws.files.keys().len() && #[trigger] connected(ws@, directed, i as int, j)
                ==> r@.contains(j as usize),
{
    let n = ws.files.len();
    let mut r: Vec<usize> = Vec::new();
    let mut j: usize = 0;
    while j < n
        invariant
            j <= n,
            n == ws.files.keys().len(),
            i < n,
            forall|k: int|
                0 <= k < r@.len() ==> 0 <= #[trigger] r@[k] < n && connected(
                    ws@,
                    directed,
                    i as int,
                    r@[k] as int,
                ),
            forall|x: int|
                0 <= x < j && #[trigger] connected(ws@, directed, i as int, x) ==> r@.contains(
                    x as usize,
                ),
        decreases n - j,
    {
        let ghost r0 = r@;
        if is_connected(ws, directed, i, j) {
            r.push(j);
            assert(r@[r@.len() - 1] == j);
        }
        proof {
            assert forall|x: int|
                0 <= x < j + 1 && #[trigger] connected(ws@, directed, i as int, x) implies r@.contains(
                x as usize,
            ) by {
                if x < j {
                    let at = r0.index_of(x as usize);
                    assert(r@[at] == x as usize);
                }
            }
        }
        j += 1;
    }
    r
}

fn adjacency(ws: &WorkspaceView<'_>, directed: bool) -> (r: Vec<Vec<usize>>)
    ensures
        is_adjacency(ws@, directed, r@),
{
    let n = ws.files.len();
    let mut r: Vec<Vec<usize>> = Vec::new();
    let mut i: usize = 0;
    while i < n
        invariant
            i <= n,
            n == ws.files.keys().len(),
            r@.len() == i,
            forall|x: int, k: int|
                0 <= x < i && 0 <= k < r@[x]@.len() ==> 0 <= #[trigger] r@[x]@[k] < n && connected(
                    ws@,
                    directed,
                    x,
                    r@[x]@[k] as int,
                ),
            forall|x: int, j: int|
                0 <= x < i && 0 <= j < n && #[trigger] connected(ws@, directed, x, j)
                    ==> r@[x]@.contains(j as usize),
        decreases n - i,
    {
        let list = neighbours(ws, directed, i);
        r.push(list);
        i += 1;
    }
    r
}

/// The number of documents that have not been visited.
spec fn unvisited(flags: Seq<bool>) -> nat
    decreases flags.len(),
{
    if flags.len() == 0 {
        0
    } else {
        unvisited(flags.drop_last()) + if flags.last() {
            0nat
        } else {
            1
        }
    }
}

proof fn lemma_unvisited(flags: Seq<bool>, i: int)
    requires
        0 <= i < flags.len(),
        !flags[i],
    ensures
        unvisited(flags.update(i, true)) < unvisited(flags),
    decreases flags.len(),
{
    if i == flags.len() - 1 {
        assert(flags.update(i, true).drop_last() =~= flags.drop_last());
    } else {
        lemma_unvisited(flags.drop_last(), i);
        assert(flags.update(i, true).drop_last() =~= flags.drop_last().update(i, true));
    }
}

/// Each step keeps what was reached.
proof fn lemma_reached_more(ws: Graph, directed: bool, k: nat, i: int, j: int)
    requires
        0 <= j < ws.files.keys().len(),
        reached_in(ws, directed, k, j),
        connected(ws, directed, j, i),
    ensures
        reachable(ws, directed, i),
{
    assert(reached_in(ws, directed, k + 1, i));
}

/// What is closed under steps and holds the roots holds what is reached.
proof fn lemma_closed(ws: Graph, directed: bool, flags: Seq<bool>, k: nat, i: int)
    requires
        flags.len() == ws.files.keys().len(),
        0 <= i < flags.len(),
        forall|x: int| 0 <= x < flags.len() && is_root(ws, x) ==> #[trigger] flags[x],
        forall|x: int, y: int|
            0 <= x < flags.len() && 0 <= y < flags.len() && flags[x] && #[trigger] connected(
                ws,
                directed,
                x,
                y,
            ) ==> flags[y],
        reached_in(ws, directed, k, i),
    ensures
        flags[i],
    decreases k,
{
    if k == 0 {
        assert(is_root(ws, i));
    } else if reached_in(ws, directed, (k - 1) as nat, i) {
        lemma_closed(ws, directed, flags, (k - 1) as nat, i);
    } else {
        let j = choose|j: int|
            0 <= j < ws.files.keys().len() && reached_in(ws, directed, (k - 1) as nat, j)
                && #[trigger] connected(ws, directed, j, i);
        lemma_closed(ws, directed, flags, (k - 1) as nat, j);
    }
}

/// The documents that steps lead to from the roots.
fn flood(ws: &WorkspaceView<'_>, directed: bool, roots: &Vec<bool>, adj: &Vec<Vec<usize>>) -> (r:
    Vec<bool>)
    requires
        marks_roots(ws@, roots@),
        is_adjacency(ws@, directed, adj@),
    ensures
        r@.len() == ws.files.keys().len(),
        forall|i: int| 0 <= i < r@.len() ==> #[trigger] r@[i] == reachable(ws@, directed, i),
{
    let n = roots.len();
    let mut visited: Vec<bool> = Vec::new();
    let mut stack: Vec<usize> = Vec::new();
    let mut i: usize = 0;
    while i < n
        invariant
            i <= n,
            n == roots@.len(),
            n == ws.files.keys().len(),
            marks_roots(ws@, roots@),
            visited@.len() == i,
            forall|x: int| 0 <= x < i ==> !#[trigger] visited@[x],
            forall|x: int|
                0 <= x < stack@.len() ==> 0 <= #[trigger] stack@[x] < n && is_root(
                    ws@,
                    stack@[x] as int,
                ),
            forall|x: int|
                0 <= x < i && #[trigger] is_root(ws@, x) ==> stack@.contains(x as usize),
        decreases n - i,
    {
        let ghost s0 = stack@;
        visited.push(false);
        if roots[i] {
            stack.push(i);
            assert(stack@[stack@.len() - 1] == i);
        }
        proof {
            assert forall|x: int| 0 <= x < i + 1 && #[trigger] is_root(ws@, x) implies stack@.contains(
                x as usize,
            ) by {
                if x < i {
                    let at = s0.index_of(x as usize);
                    assert(stack@[at] == x as usize);
                } else {
                    assert(roots@[x]);
                }
            }
        }
        i += 1;
    }
    proof {
        assert forall|x: int| 0 <= x < stack@.len() implies reachable(
            ws@,
            directed,
            #[trigger] stack@[x] as int,
        ) by {
            assert(reached_in(ws@, directed, 0, stack@[x] as int));
        }
    }
    while stack.len() > 0
        invariant
            n == ws.files.keys().len(),
            visited@.len() == n,
            is_adjacency(ws@, directed, adj@),
            forall|x: int|
                0 <= x < stack@.len() ==> 0 <= #[trigger] stack@[x] < n && reachable(
                    ws@,
                    directed,
                    stack@[x] as int,
                ),
            forall|x: int| 0 <= x < n && #[trigger] visited@[x] ==> reachable(ws@, directed, x),
            forall|x: int|
                0 <= x < n && #[trigger] is_root(ws@, x) ==> visited@[x] || stack@.contains(
                    x as usize,
                ),
            forall|x: int, y: int|
                0 <= x < n && 0 <= y < n && visited@[x] && #[trigger] connected(
                    ws@,
                    directed,
                    x,
                    y,
                ) ==> visited@[y] || stack@.contains(y as usize),
        decreases unvisited(visited@), stack@.len(),
    {
        let ghost s0 = stack@;
        let ghost v0 = visited@;
        let Some(node) = stack.pop() else {
            return visited;
        };
        assert(s0[s0.len() - 1] == node);
        if visited[node] {
            proof {
                assert forall|y: usize| s0.contains(y) && y != node implies stack@.contains(y) by {
                    let at = s0.index_of(y);
                    assert(stack@[at] == y);
                }
            }
            continue ;
        }
        visited.set(node, true);
        proof {
            lemma_unvisited(v0, node as int);
        }
        let next = &adj[node];
        let ghost s1 = stack@;
        let mut k: usize = 0;
        while k < next.len()
            invariant
                k <= next@.len(),
                n == ws.files.keys().len(),
                node < n,
                next@ == adj@[node as int]@,
                is_adjacency(ws@, directed, adj@),
                reachable(ws@, directed, node as int),
                visited@.len() == n,
                forall|x: int|
                    0 <= x < stack@.len() ==> 0 <= #[trigger] stack@[x] < n && reachable(
                        ws@,
                        directed,
                        stack@[x] as int,
                    ),
                forall|y: usize| s1.contains(y) ==> stack@.contains(y),
                forall|x: int|
                    0 <= x < k ==> visited@[#[trigger] next@[x] as int] || stack@.contains(
                        next@[x],
                    ),
            decreases next@.len() - k,
        {
            let j = next[k];
            let ghost s2 = stack@;
            assert(adj@[node as int]@[k as int] == j);
            proof {
                let steps = choose|steps: nat| #[trigger]
                    reached_in(ws@, directed, steps, node as int);
                lemma_reached_more(ws@, directed, steps, j as int, node as int);
            }
            if !visited[j] {
                stack.push(j);
                assert(stack@[stack@.len() - 1] == j);
            }
            proof {
                assert forall|y: usize| s2.contains(y) implies stack@.contains(y) by {
                    let at = s2.index_of(y);
                    assert(stack@[at] == y);
                }
            }
            k += 1;
        }
        proof {
            assert forall|y: usize| s0.contains(y) && y != node implies stack@.contains(y) by {
                let at = s0.index_of(y);
                assert(s1[at] == y);
                assert(s1.contains(y));
            }
            assert forall|x: int, y: int|
                0 <= x < n && 0 <= y < n && visited@[x] && #[trigger] connected(
                    ws@,
                    directed,
                    x,
                    y,
                ) implies visited@[y] || stack@.contains(y as usize) by {
                if x == node {
                    assert(adj@[x]@.contains(y as usize));
                    let at = adj@[x]@.index_of(y as usize);
                    assert(next@[at] == y as usize);
                } else {
                    assert(v0[x]);
                }
            }
        }
    }
    proof {
        assert forall|x: int| 0 <= x < n implies #[trigger] visited@[x] == reachable(
            ws@,
            directed,
            x,
        ) by {
            if reachable(ws@, directed, x) {
                let k = choose|k: nat| #[trigger] reached_in(ws@, directed, k, x);
                lemma_closed(ws@, directed, visited@, k, x);
            }
        }
    }
    visited
}

fn any_marked(flags: &Vec<bool>) -> (r: bool)
    ensures
        r == exists|i: int| 0 <= i < flags@.len() && #[trigger] flags@[i],
{
    let mut i: usize = 0;
    while i < flags.len()
        invariant
            i <= flags@.len(),
            forall|j: int| 0 <= j < i ==> !#[trigger] flags@[j],
        decreases flags@.len() - i,
    {
        if flags[i] {
            return true;
        }
        i += 1;
    }
    false
}

/// The documents that the policy lets stand.
fn standing(ws: &WorkspaceView<'_>) -> (r: Vec<bool>)
    requires
        ws.config.policy.connectivity != ConnectivityPolicy::Off,
    ensures
        r@.len() == ws.files.keys().len(),
        forall|i: int| 0 <= i < r@.len() ==> #[trigger] r@[i] == isolation(ws@, i) is None,
{
    let roots = find_roots(ws);
    let n = ws.files.len();
    let directed = ws.config.policy.connectivity == ConnectivityPolicy::Reachable;
    let adj = adjacency(ws, directed);
    let mut r: Vec<bool> = Vec::new();
    let orphans = ws.config.policy.connectivity == ConnectivityPolicy::NoOrphans;
    if orphans {
        let mut i: usize = 0;
        while i < n
            invariant
                i <= n,
                n == ws.files.keys().len(),
                ws.config.policy.connectivity == ConnectivityPolicy::NoOrphans,
                marks_roots(ws@, roots@),
                is_adjacency(ws@, false, adj@),
                r@.len() == i,
                forall|x: int| 0 <= x < i ==> #[trigger] r@[x] == isolation(ws@, x) is None,
            decreases n - i,
        {
            let ok = roots[i] || adj[i].len() > 0;
            proof {
                if adj@[i as int]@.len() > 0 {
                    assert(connected(ws@, false, i as int, adj@[i as int]@[0] as int));
                }
                if has_neighbour(ws@, i as int) {
                    let j = choose|j: int|
                        0 <= j < ws.files.keys().len() && #[trigger] connected(
                            ws@,
                            false,
                            i as int,
                            j,
                        );
                    assert(adj@[i as int]@.contains(j as usize));
                }
            }
            r.push(ok);
            i += 1;
        }
        return r;
    }
    let anchored = any_marked(&roots);
    assert(anchored == has_root(ws@)) by {
        if anchored {
            let i = choose|i: int| 0 <= i < roots@.len() && #[trigger] roots@[i];
            assert(is_root(ws@, i));
        }
        if has_root(ws@) {
            let i = choose|i: int| 0 <= i < ws.files.keys().len() && #[trigger] is_root(ws@, i);
            assert(roots@[i]);
        }
    }
    let visited = flood(ws, directed, &roots, &adj);
    let mut i: usize = 0;
    while i < n
        invariant
            i <= n,
            n == ws.files.keys().len(),
            ws.config.policy.connectivity == ConnectivityPolicy::NoIslands
                || ws.config.policy.connectivity == ConnectivityPolicy::Reachable,
            directed == (ws.config.policy.connectivity == ConnectivityPolicy::Reachable),
            marks_roots(ws@, roots@),
            visited@.len() == n,
            forall|x: int| 0 <= x < n ==> #[trigger] visited@[x] == reachable(ws@, directed, x),
            anchored == has_root(ws@),
            r@.len() == i,
            forall|x: int| 0 <= x < i ==> #[trigger] r@[x] == isolation(ws@, x) is None,
        decreases n - i,
    {
        r.push(!anchored || roots[i] || visited[i]);
        i += 1;
    }
    r
}

/// Validate connectivity: report the documents that the policy does not let
/// stand outside the graph.
pub fn validate_connectivity(ws: &WorkspaceView<'_>) -> (r: Vec<Diagnostic>)
    ensures
        diagnostic::views(r@) == diagnostic::in_report_order(all_isolated(ws@)),
{
    let mut out: Vec<Diagnostic> = Vec::new();
    let n = ws.files.len();
    assert(diagnostic::views(out@) =~= Seq::<DiagView>::empty());
    let message: &str = match ws.config.policy.connectivity {
        ConnectivityPolicy::Off => {
            proof {
                lemma_off(ws@, n as int);
                assert(diagnostic::in_report_order(Seq::empty()) =~= Seq::<DiagView>::empty());
            }
            return out;
        },
        ConnectivityPolicy::NoOrphans => "orphaned document: no links to or from any other document",
        ConnectivityPolicy::NoIslands => "isolated document: not connected to the project graph",
        ConnectivityPolicy::Reachable => "unreachable document: not reachable from any root by forward links",
    };
    let ok = standing(ws);
    let mut i: usize = 0;
    while i < n
        invariant
            i <= n,
            n == ws.files.keys().len(),
            ok@.len() == n,
            forall|x: int| 0 <= x < n ==> #[trigger] ok@[x] == isolation(ws@, x) is None,
            forall|x: int|
                0 <= x < n && isolation(ws@, x) is Some ==> #[trigger] isolation(ws@, x) == Some(
                    text::utf8(message@),
                ),
            diagnostic::views(out@) == isolation_reports(ws@, i as int),
        decreases n - i,
    {
        let ghost so_far = isolation_reports(ws@, i as int);
        let ghost next = isolation_reports(ws@, i + 1);
        if !ok[i] {
            let d = Diagnostic {
                file: text::owned(ws.files.key_at(i)),
                line: 1,
                severity: Severity::Warning,
                message: text::owned(message),
                span: None,
            };
            proof {
                diagnostic::lemma_views_push(out@, d);
                assert(isolation(ws@, i as int) == Some(text::utf8(message@)));
                assert(so_far.push(d@) =~= next);
            }
            out.push(d);
        } else {
            assert(next =~= so_far);
        }
        i += 1;
    }
    diagnostic::sort_diagnostics(out)
}

proof fn lemma_off(ws: Graph, n: int)
    requires
        ws.config.policy.connectivity == ConnectivityPolicy::Off,
    ensures
        isolation_reports(ws, n) == Seq::<DiagView>::empty(),
    decreases n,
{
    if n > 0 {
        lemma_off(ws, n - 1);
        assert(isolation_reports(ws, n) =~= Seq::<DiagView>::empty());
    }
}

// Laws.

/// A document that forward links lead to from a root is connected to it too.
pub proof fn law_reachable_is_connected(ws: Graph, i: int)
    requires
        reachable(ws, true, i),
    ensures
        reachable(ws, false, i),
{
    let k = choose|k: nat| #[trigger] reached_in(ws, true, k, i);
    lemma_weaker(ws, k, i);
}

proof fn lemma_weaker(ws: Graph, k: nat, i: int)
    requires
        reached_in(ws, true, k, i),
    ensures
        reached_in(ws, false, k, i),
    decreases k,
{
    if k > 0 {
        if reached_in(ws, true, (k - 1) as nat, i) {
            lemma_weaker(ws, (k - 1) as nat, i);
        } else {
            let j = choose|j: int|
                0 <= j < ws.files.keys().len() && reached_in(ws, true, (k - 1) as nat, j)
                    && #[trigger] connected(ws, true, j, i);
            lemma_weaker(ws, (k - 1) as nat, j);
            assert(connected(ws, false, j, i));
        }
    }
}

/// Roots are exempt at every level, and without a root that is a document only
/// orphans are reported.
pub proof fn law_roots_are_exempt(ws: Graph, i: int)
    ensures
        is_root(ws, i) ==> isolation(ws, i) is None,
        !has_root(ws) && ws.config.policy.connectivity != ConnectivityPolicy::NoOrphans
            ==> isolation(ws, i) is None,
{
}

// Which documents are reported.

/// Whether some link of the `i`th document names the `j`th, another one.
pub open spec fn names_the_other(ws: Graph, i: int, j: int) -> bool {
    i != j && exists|k: int|
        0 <= k < ws.files.values()[i].links@.len() && match (
        #[trigger] ws.files.values()[i].links@[k]).kind {
            LinkKind::IntraProject { target, .. } => path::named(target@) == ws.files.keys()[j],
            _ => false,
        }
}

/// Whether each of some documents links to the next; where direction does not
/// count, one of each two neighbours to the other.
pub open spec fn is_trail(ws: Graph, directed: bool, trail: Seq<int>) -> bool {
    &&& trail.len() > 0
    &&& forall|k: int| 0 <= k < trail.len() ==> 0 <= #[trigger] trail[k] < ws.files.keys().len()
    &&& forall|k: int|
        #![trigger trail[k]]
        0 < k < trail.len() ==> names_the_other(ws, trail[k - 1], trail[k]) || (!directed
            && names_the_other(ws, trail[k], trail[k - 1]))
}

/// Whether the configuration names a document as a root.
pub open spec fn is_named_root(ws: Graph, i: int) -> bool {
    exists|k: int|
        0 <= k < ws.config.policy.roots@.len() && path::normalized(
            text::utf8((#[trigger] ws.config.policy.roots@[k])@),
        ) == ws.files.keys()[i]
}

/// Whether a trail leads from a root to a document.
pub open spec fn is_on_a_trail(ws: Graph, directed: bool, i: int) -> bool {
    exists|trail: Seq<int>| #[trigger]
        is_trail(ws, directed, trail) && is_named_root(ws, trail[0]) && trail.last() == i
}

/// Whether a document is reported.
pub open spec fn is_reported(ws: Graph, i: int) -> bool {
    exists|d: DiagView| #[trigger]
        diagnostic::in_report_order(all_isolated(ws)).contains(d) && d.file == ws.files.keys()[i]
}

proof fn lemma_names_the_other(ws: Graph, i: int, j: int)
    ensures
        names_the_other(ws, i, j) == links_between(ws, i, j),
{
    if links_between(ws, i, j) {
        let k = choose|k: int|
            0 <= k < ws.files.values()[i].links@.len() && leads_to(
                #[trigger] ws.files.values()[i].links@[k],
                ws.files.keys()[j],
            );
        assert(leads_to(ws.files.values()[i].links@[k], ws.files.keys()[j]));
    }
    if names_the_other(ws, i, j) {
        let k = choose|k: int|
            0 <= k < ws.files.values()[i].links@.len() && match (
            #[trigger] ws.files.values()[i].links@[k]).kind {
                LinkKind::IntraProject { target, .. } => path::named(target@) == ws.files.keys()[j],
                _ => false,
            };
        assert(leads_to(ws.files.values()[i].links@[k], ws.files.keys()[j]));
    }
}

/// What some steps reach lies on a trail.
proof fn lemma_steps_make_a_trail(ws: Graph, directed: bool, k: nat, i: int)
    requires
        0 <= i < ws.files.keys().len(),
        reached_in(ws, directed, k, i),
    ensures
        is_on_a_trail(ws, directed, i),
    decreases k,
{
    if k == 0 {
        let trail = seq![i];
        assert(is_trail(ws, directed, trail));
        assert(is_named_root(ws, trail[0]));
    } else if reached_in(ws, directed, (k - 1) as nat, i) {
        lemma_steps_make_a_trail(ws, directed, (k - 1) as nat, i);
    } else {
        let j = choose|j: int|
            0 <= j < ws.files.keys().len() && reached_in(ws, directed, (k - 1) as nat, j)
                && #[trigger] connected(ws, directed, j, i);
        lemma_steps_make_a_trail(ws, directed, (k - 1) as nat, j);
        let before = choose|trail: Seq<int>| #[trigger]
            is_trail(ws, directed, trail) && is_named_root(ws, trail[0]) && trail.last() == j;
        let trail = before.push(i);
        lemma_names_the_other(ws, j, i);
        lemma_names_the_other(ws, i, j);
        assert forall|n: int|
            #![trigger trail[n]]
            0 < n < trail.len() implies names_the_other(ws, trail[n - 1], trail[n]) || (!directed
            && names_the_other(ws, trail[n], trail[n - 1])) by {
            if n < before.len() {
                assert(trail[n] == before[n] && trail[n - 1] == before[n - 1]);
            }
        }
        assert(is_trail(ws, directed, trail));
    }
}

/// What lies on a trail is reached.
proof fn lemma_trails_are_walked(ws: Graph, directed: bool, trail: Seq<int>)
    requires
        is_trail(ws, directed, trail),
        is_named_root(ws, trail[0]),
    ensures
        reachable(ws, directed, trail.last()),
    decreases trail.len(),
{
    if trail.len() == 1 {
        assert(is_root(ws, trail[0]));
        assert(reached_in(ws, directed, 0, trail[0]));
    } else {
        let before = trail.drop_last();
        assert forall|k: int| 0 <= k < before.len() implies #[trigger] before[k] == trail[k] by {}
        assert(is_trail(ws, directed, before));
        lemma_trails_are_walked(ws, directed, before);
        let j = before.last();
        let i = trail.last();
        assert(trail[trail.len() - 2] == j);
        lemma_names_the_other(ws, j, i);
        lemma_names_the_other(ws, i, j);
        let k = choose|k: nat| #[trigger] reached_in(ws, directed, k, j);
        assert(connected(ws, directed, j, i));
        lemma_reached_more(ws, directed, k, i, j);
    }
}

proof fn lemma_reports(ws: Graph, n: int, d: DiagView)
    requires
        0 <= n <= ws.files.keys().len(),
    ensures
        isolation_reports(ws, n).contains(d) <==> exists|i: int|
            0 <= i < n && (#[trigger] isolation(ws, i)) == Some(d.message) && d == (DiagView {
                file: ws.files.keys()[i],
                line: 1,
                severity: Severity::Warning,
                message: d.message,
                span: None,
            }),
    decreases n,
{
    if n > 0 {
        lemma_reports(ws, n - 1, d);
        let last = match isolation(ws, n - 1) {
            Some(message) => seq![
                DiagView {
                    file: ws.files.keys()[n - 1],
                    line: 1,
                    severity: Severity::Warning,
                    message,
                    span: None,
                },
            ],
            None => Seq::empty(),
        };
        diagnostic::lemma_either(isolation_reports(ws, n - 1), last, d);
        assert(last.contains(d) ==> last[0] == d);
        if isolation(ws, n - 1) is Some {
            assert(last[0] == last[0]);
        }
    }
}

proof fn lemma_is_reported(ws: Graph, i: int)
    requires
        0 <= i < ws.files.keys().len(),
        ws.files.keys().no_duplicates(),
    ensures
        is_reported(ws, i) <==> isolation(ws, i) is Some,
{
    let n = ws.files.keys().len() as int;
    if isolation(ws, i) is Some {
        let d = DiagView {
            file: ws.files.keys()[i],
            line: 1,
            severity: Severity::Warning,
            message: isolation(ws, i)->0,
            span: None,
        };
        lemma_reports(ws, n, d);
        diagnostic::lemma_report_order_contains(all_isolated(ws), d);
        assert(diagnostic::in_report_order(all_isolated(ws)).contains(d));
    }
    if is_reported(ws, i) {
        let d = choose|d: DiagView| #[trigger]
            diagnostic::in_report_order(all_isolated(ws)).contains(d) && d.file
                == ws.files.keys()[i];
        lemma_reports(ws, n, d);
        diagnostic::lemma_report_order_contains(all_isolated(ws), d);
        let j = choose|j: int|
            0 <= j < n && (#[trigger] isolation(ws, j)) == Some(d.message) && d == (DiagView {
                file: ws.files.keys()[j],
                line: 1,
                severity: Severity::Warning,
                message: d.message,
                span: None,
            });
        assert(ws.files.keys()[j] == ws.files.keys()[i]);
    }
}

proof fn lemma_root_somewhere(ws: Graph)
    ensures
        has_root(ws) <==> exists|j: int|
            0 <= j < ws.files.keys().len() && #[trigger] is_named_root(ws, j),
{
    if has_root(ws) {
        let j = choose|j: int| 0 <= j < ws.files.keys().len() && #[trigger] is_root(ws, j);
        assert(is_named_root(ws, j));
    }
    if exists|j: int| 0 <= j < ws.files.keys().len() && #[trigger] is_named_root(ws, j) {
        let j = choose|j: int| 0 <= j < ws.files.keys().len() && #[trigger] is_named_root(ws, j);
        assert(is_root(ws, j));
    }
}

proof fn lemma_on_a_trail(ws: Graph, directed: bool, i: int)
    requires
        0 <= i < ws.files.keys().len(),
    ensures
        is_on_a_trail(ws, directed, i) <==> is_root(ws, i) || reachable(ws, directed, i),
{
    if is_root(ws, i) {
        assert(reached_in(ws, directed, 0, i));
    }
    if reachable(ws, directed, i) {
        let k = choose|k: nat| #[trigger] reached_in(ws, directed, k, i);
        lemma_steps_make_a_trail(ws, directed, k, i);
    }
    if is_on_a_trail(ws, directed, i) {
        let trail = choose|trail: Seq<int>| #[trigger]
            is_trail(ws, directed, trail) && is_named_root(ws, trail[0]) && trail.last() == i;
        lemma_trails_are_walked(ws, directed, trail);
    }
}

/// Where documents have to be reachable, a document is reported exactly if no
/// trail of links, of any length, leads to it from a root, and some root is a
/// document.
pub proof fn law_unreachable_documents_are_reported(ws: Graph, i: int)
    requires
        0 <= i < ws.files.keys().len(),
        ws.files.keys().no_duplicates(),
        ws.config.policy.connectivity == ConnectivityPolicy::Reachable,
    ensures
        is_reported(ws, i) <==> !is_on_a_trail(ws, true, i) && exists|j: int|
            0 <= j < ws.files.keys().len() && #[trigger] is_named_root(ws, j),
{
    lemma_is_reported(ws, i);
    lemma_root_somewhere(ws);
    lemma_on_a_trail(ws, true, i);
}

/// Where islands are not allowed, a document is reported exactly if no trail of
/// links in either direction connects it to a root, and some root is a document.
pub proof fn law_islands_are_reported(ws: Graph, i: int)
    requires
        0 <= i < ws.files.keys().len(),
        ws.files.keys().no_duplicates(),
        ws.config.policy.connectivity == ConnectivityPolicy::NoIslands,
    ensures
        is_reported(ws, i) <==> !is_on_a_trail(ws, false, i) && exists|j: int|
            0 <= j < ws.files.keys().len() && #[trigger] is_named_root(ws, j),
{
    lemma_is_reported(ws, i);
    lemma_root_somewhere(ws);
    lemma_on_a_trail(ws, false, i);
}

/// Where orphans are not allowed, a document is reported exactly if it is no root
/// and no link leads from it to another document or from another to it.
pub proof fn law_orphans_are_reported(ws: Graph, i: int)
    requires
        0 <= i < ws.files.keys().len(),
        ws.files.keys().no_duplicates(),
        ws.config.policy.connectivity == ConnectivityPolicy::NoOrphans,
    ensures
        is_reported(ws, i) <==> !is_named_root(ws, i) && forall|j: int|
            0 <= j < ws.files.keys().len() ==> !#[trigger] names_the_other(ws, i, j)
                && !names_the_other(ws, j, i),
{
    lemma_is_reported(ws, i);
    if has_neighbour(ws, i) {
        let j = choose|j: int|
            0 <= j < ws.files.keys().len() && #[trigger] connected(ws, false, i, j);
        lemma_names_the_other(ws, i, j);
        lemma_names_the_other(ws, j, i);
        assert(names_the_other(ws, i, j) || names_the_other(ws, j, i));
    } else {
        assert forall|j: int| 0 <= j < ws.files.keys().len() implies !#[trigger] names_the_other(
            ws,
            i,
            j,
        ) && !names_the_other(ws, j, i) by {
            lemma_names_the_other(ws, i, j);
            lemma_names_the_other(ws, j, i);
            assert(!connected(ws, false, i, j));
        }
    }
}

/// Where nothing is asked of connectivity, nothing is reported.
pub proof fn law_connectivity_can_be_off(ws: Graph, i: int)
    requires
        0 <= i < ws.files.keys().len(),
        ws.files.keys().no_duplicates(),
        ws.config.policy.connectivity == ConnectivityPolicy::Off,
    ensures
        !is_reported(ws, i),
{
    lemma_is_reported(ws, i);
}

/// What is reached passes it on: where a document is not reported and links to
/// another, the other is not reported either.
pub proof fn law_links_pass_on_being_reached(ws: Graph, i: int, j: int)
    requires
        0 <= i < ws.files.keys().len(),
        0 <= j < ws.files.keys().len(),
        ws.files.keys().no_duplicates(),
        ws.config.policy.connectivity == ConnectivityPolicy::Reachable
            || ws.config.policy.connectivity == ConnectivityPolicy::NoIslands,
        !is_reported(ws, i),
        names_the_other(ws, i, j) || (ws.config.policy.connectivity
            == ConnectivityPolicy::NoIslands && names_the_other(ws, j, i)),
    ensures
        !is_reported(ws, j),
{
    let directed = ws.config.policy.connectivity == ConnectivityPolicy::Reachable;
    lemma_is_reported(ws, i);
    lemma_is_reported(ws, j);
    lemma_names_the_other(ws, i, j);
    lemma_names_the_other(ws, j, i);
    if has_root(ws) {
        lemma_on_a_trail(ws, directed, i);
        assert(reachable(ws, directed, i)) by {
            if is_root(ws, i) {
                assert(reached_in(ws, directed, 0, i));
            }
        }
        let k = choose|k: nat| #[trigger] reached_in(ws, directed, k, i);
        assert(connected(ws, directed, i, j));
        lemma_reached_more(ws, directed, k, j, i);
    }
}

/// A report of connectivity is a warning at the first line of its document, with
/// the words of the policy.
pub proof fn law_reports_of_connectivity_say_why(ws: Graph, d: DiagView)
    requires
        diagnostic::in_report_order(all_isolated(ws)).contains(d),
    ensures
        d.line == 1,
        d.severity == Severity::Warning,
        d.span is None,
        ws.files.keys().contains(d.file),
        d.message == match ws.config.policy.connectivity {
            ConnectivityPolicy::NoOrphans => text::utf8(
                "orphaned document: no links to or from any other document"@,
            ),
            ConnectivityPolicy::NoIslands => text::utf8(
                "isolated document: not connected to the project graph"@,
            ),
            _ => text::utf8("unreachable document: not reachable from any root by forward links"@),
        },
{
    let n = ws.files.keys().len() as int;
    diagnostic::lemma_report_order_contains(all_isolated(ws), d);
    lemma_reports(ws, n, d);
    let i = choose|i: int|
        0 <= i < n && (#[trigger] isolation(ws, i)) == Some(d.message) && d == (DiagView {
            file: ws.files.keys()[i],
            line: 1,
            severity: Severity::Warning,
            message: d.message,
            span: None,
        });
    assert(ws.files.keys()[i] == d.file);
}

} // verus!

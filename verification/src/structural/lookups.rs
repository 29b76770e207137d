//! The paths outside the workspace that a document asks about.
use vstd::prelude::*;
use crate::block;
use crate::block::{BarePath, ElementKind, Node, Tree};
use crate::components;
use crate::config::Config;
use crate::diagnostic::{DiagView, Severity};
use crate::fm::Exceptions;
use crate::lines;
use crate::path;
use crate::pathmap::PathMap;
use crate::span::Span;
use crate::structural;
use crate::structural::references;
use crate::structural::references::SceneView;
use crate::structural::scanners;
use crate::structural::scanners::LineView;
use crate::text;

verus! {

// What is asked of one reference.

/// Whether a reference asks about a path: the directory of its alias and the rest
/// of it there; or, where it names no alias, every alias directory and the
/// reference under it.
pub open spec fn asks_for(config: Config, reference: Seq<u8>, p: Seq<u8>) -> bool {
    match block::namespace_of(references::path_part(reference)) {
        Some((alias, rest)) => config.external@.contains_key(alias) && at_alias(
            config,
            alias,
            rest,
            p,
        ),
        None => match references::citation_candidate(references::path_part(reference)) {
            Some(candidate) => exists|alias: Seq<u8>| #[trigger]
                config.external@.contains_key(alias) && at_alias(config, alias, candidate, p),
            None => false,
        },
    }
}

/// Whether a path is the directory of an alias, or `rest` in it.
pub open spec fn at_alias(config: Config, alias: Seq<u8>, rest: Seq<u8>, p: Seq<u8>) -> bool {
    let dir = text::utf8(config.external@[alias]@);
    p == path::normal_form(dir) || p == path::normal_form(path::join(dir, rest))
}

/// Whether one of some references asks about a path.
pub open spec fn asked(config: Config, refs: Seq<Seq<u8>>, p: Seq<u8>) -> bool {
    exists|i: int| 0 <= i < refs.len() && asks_for(config, #[trigger] refs[i], p)
}

proof fn lemma_asked_concat(config: Config, a: Seq<Seq<u8>>, b: Seq<Seq<u8>>, p: Seq<u8>)
    ensures
        asked(config, a + b, p) == (asked(config, a, p) || asked(config, b, p)),
{
    let all = a + b;
    if asked(config, all, p) {
        let i = choose|i: int| 0 <= i < all.len() && asks_for(config, #[trigger] all[i], p);
        if i < a.len() {
            assert(all[i] == a[i]);
        } else {
            assert(all[i] == b[i - a.len()]);
        }
    }
    if asked(config, a, p) {
        let i = choose|i: int| 0 <= i < a.len() && asks_for(config, #[trigger] a[i], p);
        assert(all[i] == a[i]);
    }
    if asked(config, b, p) {
        let i = choose|i: int| 0 <= i < b.len() && asks_for(config, #[trigger] b[i], p);
        assert(all[a.len() + i] == b[i]);
    }
}

/// Whether a set holds what another one held and what references ask about.
pub open spec fn grew(
    config: Config,
    before: Map<Seq<u8>, ()>,
    after: Map<Seq<u8>, ()>,
    refs: Seq<Seq<u8>>,
) -> bool {
    forall|p: Seq<u8>| #[trigger]
        after.contains_key(p) <==> (before.contains_key(p) || asked(config, refs, p))
}

proof fn lemma_grew_nothing(config: Config, set: Map<Seq<u8>, ()>)
    ensures
        grew(config, set, set, Seq::empty()),
{
}

proof fn lemma_grew_concat(
    config: Config,
    m0: Map<Seq<u8>, ()>,
    m1: Map<Seq<u8>, ()>,
    m2: Map<Seq<u8>, ()>,
    a: Seq<Seq<u8>>,
    b: Seq<Seq<u8>>,
)
    requires
        grew(config, m0, m1, a),
        grew(config, m1, m2, b),
    ensures
        grew(config, m0, m2, a + b),
{
    assert forall|p: Seq<u8>| #[trigger]
        m2.contains_key(p) <==> (m0.contains_key(p) || asked(config, a + b, p)) by {
        lemma_asked_concat(config, a, b, p);
        assert(m1.contains_key(p) <==> (m0.contains_key(p) || asked(config, a, p)));
    }
}

fn note_alias(config: &Config, alias: &str, rest: &str, found: &mut PathMap<()>)
    ensures
        forall|p: Seq<u8>| #[trigger]
            final(found)@.contains_key(p) <==> (old(found)@.contains_key(p) || (
            config.external@.contains_key(text::utf8(alias@)) && at_alias(
                *config,
                text::utf8(alias@),
                text::utf8(rest@),
                p,
            ))),
{
    match config.external.get(alias) {
        None => {},
        Some(dir) => {
            let target = path::join_paths(dir.as_str(), rest);
            found.insert(text::owned(dir.as_str()), ());
            found.insert(target, ());
        },
    }
}

/// Note what a reference asks about.
fn note(config: &Config, reference: &str, found: &mut PathMap<()>)
    ensures
        grew(*config, old(found)@, final(found)@, seq![text::utf8(reference@)]),
{
    let ghost r = text::utf8(reference@);
    let ghost m0 = found@;
    let part = references::split_path_fragment(reference).0;
    proof {
        assert forall|p: Seq<u8>| #[trigger] asked(*config, seq![r], p) == asks_for(
            *config,
            r,
            p,
        ) by {
            assert(seq![r][0] == r);
        }
    }
    match block::external_namespace(part) {
        Some((alias, rest)) => {
            note_alias(config, alias, rest, found);
        },
        None => {
            let candidate = match references::external_citation_candidate(part) {
                Some(candidate) => candidate,
                None => {
                    return ;
                },
            };
            let ghost c = text::utf8(candidate@);
            let n = config.external.len();
            let ghost names = config.external.keys();
            config.external.keys_ascend();
            let mut i: usize = 0;
            while i < n
                invariant
                    i <= n,
                    n == names.len(),
                    names == config.external.keys(),
                    c == text::utf8(candidate@),
                    forall|k: Seq<u8>| #[trigger]
                        names.contains(k) <==> config.external@.contains_key(k),
                    forall|p: Seq<u8>| #[trigger]
                        found@.contains_key(p) <==> (m0.contains_key(p) || exists|j: int|
                            0 <= j < i && at_alias(*config, #[trigger] names[j], c, p)),
                decreases n - i,
            {
                let ghost m1 = found@;
                let alias = config.external.key_at(i);
                assert(names.contains(names[i as int]));
                note_alias(config, alias, candidate.as_str(), found);
                proof {
                    assert forall|p: Seq<u8>| #[trigger]
                        found@.contains_key(p) <==> (m0.contains_key(p) || exists|j: int|
                            0 <= j < i + 1 && at_alias(*config, #[trigger] names[j], c, p)) by {
                        assert(m1.contains_key(p) <==> (m0.contains_key(p) || exists|j: int|
                            0 <= j < i && at_alias(*config, #[trigger] names[j], c, p)));
                        if at_alias(*config, names[i as int], c, p) {
                            assert(0 <= i < i + 1);
                        }
                    }
                }
                i += 1;
            }
            proof {
                assert forall|p: Seq<u8>| #[trigger]
                    found@.contains_key(p) <==> (m0.contains_key(p) || asks_for(*config, r, p)) by {
                    if asks_for(*config, r, p) {
                        let alias = choose|alias: Seq<u8>| #[trigger]
                            config.external@.contains_key(alias) && at_alias(
                                *config,
                                alias,
                                c,
                                p,
                            );
                        assert(names.contains(alias));
                        let j = names.index_of(alias);
                        assert(names[j] == alias);
                    }
                    if exists|j: int| 0 <= j < n && at_alias(*config, #[trigger] names[j], c, p) {
                        let j = choose|j: int|
                            0 <= j < n && at_alias(*config, #[trigger] names[j], c, p);
                        assert(names.contains(names[j]));
                        assert(config.external@.contains_key(names[j]));
                    }
                }
            }
        },
    }
    assert forall|p: Seq<u8>| #[trigger]
        found@.contains_key(p) <==> (m0.contains_key(p) || asked(*config, seq![r], p)) by {
        assert(asked(*config, seq![r], p) == asks_for(*config, r, p));
    }
}

// The references of a document.

/// The reference in a quotation, if it can be one.
pub open spec fn quoted_ref(line: LineView, excluded: Seq<Span>, i: int, end: int) -> Seq<Seq<u8>> {
    let inner = text::piece(line.bytes, i + 1, end);
    if scanners::excluded_at(line.start + i, excluded) || !references::path_shaped(inner) {
        Seq::empty()
    } else {
        seq![inner]
    }
}

/// The references in the quotations of a line from offset `i` on.
pub open spec fn quoted_refs(line: LineView, excluded: Seq<Span>, i: int) -> Seq<Seq<u8>>
    decreases line.bytes.len() - i,
{
    let b = line.bytes;
    if i < 0 || i >= b.len() {
        Seq::empty()
    } else if (b[i] == 34 || b[i] == 39) && scanners::delimits(b, i, b[i], true) {
        match scanners::closing_quote(b, i + 1, b[i]) {
            Some(end) => {
                proof {
                    scanners::lemma_closing_quote(b, i + 1, b[i]);
                }
                quoted_ref(line, excluded, i, end) + quoted_refs(line, excluded, end + 1)
            },
            None => quoted_refs(line, excluded, i + 1),
        }
    } else {
        quoted_refs(line, excluded, i + 1)
    }
}

/// One row of a text as a line of the source.
pub open spec fn row_line(source: Seq<u8>, part: Seq<u8>, base: int, row: (int, int)) -> LineView {
    LineView {
        bytes: text::piece(part, row.0, row.1),
        start: base + row.0,
        number: lines::line_of(source, base + row.0),
    }
}

/// The references in the quotations of some rows of a text.
pub open spec fn row_refs(
    source: Seq<u8>,
    part: Seq<u8>,
    base: int,
    rows: Seq<(int, int)>,
    excluded: Seq<Span>,
) -> Seq<Seq<u8>>
    decreases rows.len(),
{
    if rows.len() == 0 {
        Seq::empty()
    } else {
        row_refs(source, part, base, rows.drop_last(), excluded) + quoted_refs(
            row_line(source, part, base, rows.last()),
            excluded,
            0,
        )
    }
}

/// The reference in a code span, if it can be one.
pub open spec fn code_ref(tree: Tree, child: Node) -> Seq<Seq<u8>> {
    let inner = references::without_ticks(tree.text_of(child));
    if child.kind is InlineCode && references::path_shaped(inner) {
        seq![inner]
    } else {
        Seq::empty()
    }
}

/// The references in the code spans among the children.
pub open spec fn code_refs(tree: Tree, children: Seq<usize>) -> Seq<Seq<u8>>
    decreases children.len(),
{
    if children.len() == 0 {
        Seq::empty()
    } else {
        code_refs(tree, children.drop_last()) + code_ref(tree, tree.nodes@[children.last() as int])
    }
}

/// The references in a paragraph or a table cell.
pub open spec fn node_refs(tree: Tree, node: Node) -> Seq<Seq<u8>> {
    if node.kind is Paragraph || node.kind is TableCell {
        row_refs(
            tree.text(),
            tree.text_of(node),
            node.span.start as int,
            lines::rows_from(tree.text_of(node), 0),
            scanners::child_spans(tree, node.children@),
        ) + code_refs(tree, node.children@)
    } else {
        Seq::empty()
    }
}

/// The references in some nodes.
pub open spec fn text_refs(tree: Tree, nodes: Seq<Node>) -> Seq<Seq<u8>>
    decreases nodes.len(),
{
    if nodes.len() == 0 {
        Seq::empty()
    } else {
        text_refs(tree, nodes.drop_last()) + node_refs(tree, nodes.last())
    }
}

/// The paths that the parser met in prose.
pub open spec fn prose_refs(list: Seq<BarePath>) -> Seq<Seq<u8>> {
    list.map_values(|b: BarePath| text::utf8(b.path@))
}

/// The references of a document.
pub open spec fn references_of(tree: Tree) -> Seq<Seq<u8>> {
    prose_refs(tree.bare_paths@) + text_refs(tree, tree.nodes@)
}

fn note_quoted(
    config: &Config,
    line: &str,
    start: usize,
    excluded: &Vec<Span>,
    found: &mut PathMap<()>,
    Ghost(v): Ghost<LineView>,
)
    requires
        v.bytes == text::utf8(line@),
        v.start == start,
        start + v.bytes.len() <= usize::MAX,
    ensures
        grew(*config, old(found)@, final(found)@, quoted_refs(v, excluded@, 0)),
{
    let b = line.as_bytes();
    let ghost m0 = found@;
    let ghost goal = quoted_refs(v, excluded@, 0);
    let ghost mut done: Seq<Seq<u8>> = Seq::empty();
    let mut i: usize = 0;
    proof {
        lemma_grew_nothing(*config, m0);
        assert(done + goal =~= goal);
    }
    while i < b.len()
        invariant
            i <= b@.len(),
            b@ == text::utf8(line@),
            v.bytes == b@,
            v.start == start,
            start + b@.len() <= usize::MAX,
            grew(*config, m0, found@, done),
            done + quoted_refs(v, excluded@, i as int) == goal,
        decreases b@.len() - i,
    {
        let quote = b[i];
        if (quote == 34 || quote == 39) && scanners::is_quote_delimiter(line, i, quote, true) {
            match scanners::find_closing_quote(line, i + 1, quote) {
                Some(end) => {
                    let ghost m1 = found@;
                    let ghost one = quoted_ref(v, excluded@, i as int, end as int);
                    let inner = text::slice(line, i + 1, end);
                    if scanners::is_excluded(start + i, excluded) || !references::looks_like_path(
                        inner,
                    ) {
                        proof {
                            lemma_grew_nothing(*config, m1);
                        }
                    } else {
                        note(config, inner, found);
                    }
                    proof {
                        lemma_grew_concat(*config, m0, m1, found@, done, one);
                        let rest = quoted_refs(v, excluded@, end + 1);
                        assert((done + one) + rest =~= done + (one + rest));
                        done = done + one;
                    }
                    i = end + 1;
                },
                None => {
                    i += 1;
                },
            }
        } else {
            i += 1;
        }
    }
    assert(done + Seq::<Seq<u8>>::empty() =~= done);
}

fn note_rows(
    config: &Config,
    source: &str,
    part: &str,
    base: usize,
    excluded: &Vec<Span>,
    found: &mut PathMap<()>,
)
    requires
        base + text::utf8(part@).len() <= text::utf8(source@).len() < usize::MAX,
    ensures
        grew(
            *config,
            old(found)@,
            final(found)@,
            row_refs(
                text::utf8(source@),
                text::utf8(part@),
                base as int,
                lines::rows_from(text::utf8(part@), 0),
                excluded@,
            ),
        ),
{
    let rows = lines::rows(part.as_bytes());
    let ghost all = lines::as_ranges(rows@);
    let ghost src = text::utf8(source@);
    let ghost b = text::utf8(part@);
    let ghost m0 = found@;
    let mut k: usize = 0;
    proof {
        lemma_grew_nothing(*config, m0);
        assert(all.take(0) =~= Seq::<(int, int)>::empty());
    }
    while k < rows.len()
        invariant
            k <= rows@.len(),
            src == text::utf8(source@),
            b == text::utf8(part@),
            base + b.len() <= src.len() < usize::MAX,
            all == lines::as_ranges(rows@),
            forall|j: int|
                0 <= j < rows@.len() ==> (#[trigger] rows@[j]).start <= rows@[j].end <= b.len(),
            grew(
                *config,
                m0,
                found@,
                row_refs(src, b, base as int, all.take(k as int), excluded@),
            ),
        decreases rows@.len() - k,
    {
        let row = rows[k];
        let ghost m1 = found@;
        let ghost v = row_line(src, b, base as int, (row.start as int, row.end as int));
        let line = text::slice(part, row.start, row.end);
        note_quoted(config, line, base + row.start, excluded, found, Ghost(v));
        proof {
            assert(all.take(k + 1).drop_last() =~= all.take(k as int));
            assert(all.take(k + 1).last() == (row.start as int, row.end as int));
            lemma_grew_concat(
                *config,
                m0,
                m1,
                found@,
                row_refs(src, b, base as int, all.take(k as int), excluded@),
                quoted_refs(v, excluded@, 0),
            );
        }
        k += 1;
    }
    assert(all.take(k as int) =~= all);
}

fn note_code(config: &Config, tree: &Tree, child: &Node, found: &mut PathMap<()>)
    requires
        tree.wf(),
    ensures
        grew(*config, old(found)@, final(found)@, code_ref(*tree, *child)),
{
    let is_code = match child.kind {
        ElementKind::InlineCode => true,
        _ => false,
    };
    if is_code {
        let inner = references::strip_backtick_delimiters(tree.raw(child));
        if references::looks_like_path(inner) {
            note(config, inner, found);
        }
    }
}

fn note_node(
    config: &Config,
    tree: &Tree,
    node: &Node,
    found: &mut PathMap<()>,
    Ghost(index): Ghost<int>,
)
    requires
        tree.wf(),
        0 <= index < tree.nodes@.len(),
        *node == tree.nodes@[index],
        node.kind is Paragraph || node.kind is TableCell,
    ensures
        grew(*config, old(found)@, final(found)@, node_refs(*tree, *node)),
{
    let ghost m0 = found@;
    proof {
        assert(tree.node_wf(index, tree.nodes@[index]));
    }
    let mut excluded: Vec<Span> = Vec::new();
    let mut k: usize = 0;
    while k < node.children.len()
        invariant
            k <= node.children@.len(),
            forall|j: int|
                0 <= j < node.children@.len() ==> #[trigger] node.children@[j] < tree.nodes@.len(),
            excluded@ =~= scanners::child_spans(*tree, node.children@).take(k as int),
        decreases node.children@.len() - k,
    {
        excluded.push(tree.nodes[node.children[k]].span);
        k += 1;
    }
    assert(excluded@ =~= scanners::child_spans(*tree, node.children@));
    let part = tree.raw(node);
    note_rows(config, tree.source.as_str(), part, node.span.start, &excluded, found);
    let ghost m1 = found@;
    let ghost first = row_refs(
        tree.text(),
        tree.text_of(*node),
        node.span.start as int,
        lines::rows_from(tree.text_of(*node), 0),
        excluded@,
    );
    proof {
        lemma_grew_nothing(*config, m1);
        assert(node.children@.take(0) =~= Seq::<usize>::empty());
    }
    let mut c: usize = 0;
    while c < node.children.len()
        invariant
            c <= node.children@.len(),
            tree.wf(),
            forall|j: int|
                0 <= j < node.children@.len() ==> #[trigger] node.children@[j] < tree.nodes@.len(),
            grew(*config, m1, found@, code_refs(*tree, node.children@.take(c as int))),
        decreases node.children@.len() - c,
    {
        let child = &tree.nodes[node.children[c]];
        let ghost m2 = found@;
        note_code(config, tree, child, found);
        proof {
            assert(node.children@.take(c + 1).drop_last() =~= node.children@.take(c as int));
            lemma_grew_concat(
                *config,
                m1,
                m2,
                found@,
                code_refs(*tree, node.children@.take(c as int)),
                code_ref(*tree, *child),
            );
        }
        c += 1;
    }
    proof {
        assert(node.children@.take(c as int) =~= node.children@);
        lemma_grew_concat(
            *config,
            m0,
            m1,
            found@,
            first,
            code_refs(*tree, node.children@),
        );
    }
}

/// The paths outside the workspace that a document asks about.
pub fn external_paths(tree: &Tree, config: &Config) -> (r: PathMap<()>)
    requires
        tree.wf(),
    ensures
        forall|p: Seq<u8>| #[trigger]
            r@.contains_key(p) <==> asked(*config, references_of(*tree), p),
{
    let mut found: PathMap<()> = PathMap::new();
    let ghost none = found@;
    let ghost prose = prose_refs(tree.bare_paths@);
    let mut k: usize = 0;
    proof {
        lemma_grew_nothing(*config, none);
        assert(prose.take(0) =~= Seq::<Seq<u8>>::empty());
    }
    while k < tree.bare_paths.len()
        invariant
            k <= tree.bare_paths@.len(),
            prose == prose_refs(tree.bare_paths@),
            grew(*config, none, found@, prose.take(k as int)),
        decreases tree.bare_paths@.len() - k,
    {
        let ghost m1 = found@;
        note(config, tree.bare_paths[k].path.as_str(), &mut found);
        proof {
            let one = seq![text::utf8(tree.bare_paths@[k as int].path@)];
            assert(prose.take(k + 1) =~= prose.take(k as int) + one);
            lemma_grew_concat(*config, none, m1, found@, prose.take(k as int), one);
        }
        k += 1;
    }
    let ghost m2 = found@;
    proof {
        assert(prose.take(k as int) =~= prose);
        lemma_grew_nothing(*config, m2);
        assert(tree.nodes@.take(0) =~= Seq::<Node>::empty());
    }
    let mut i: usize = 0;
    while i < tree.nodes.len()
        invariant
            i <= tree.nodes@.len(),
            tree.wf(),
            grew(*config, m2, found@, text_refs(*tree, tree.nodes@.take(i as int))),
        decreases tree.nodes@.len() - i,
    {
        let node = &tree.nodes[i];
        let hosts_text = match node.kind {
            ElementKind::Paragraph | ElementKind::TableCell => true,
            _ => false,
        };
        let ghost m3 = found@;
        if hosts_text {
            note_node(config, tree, node, &mut found, Ghost(i as int));
        }
        proof {
            assert(tree.nodes@.take(i + 1).drop_last() =~= tree.nodes@.take(i as int));
            lemma_grew_concat(
                *config,
                m2,
                m3,
                found@,
                text_refs(*tree, tree.nodes@.take(i as int)),
                node_refs(*tree, *node),
            );
        }
        i += 1;
    }
    proof {
        assert(tree.nodes@.take(i as int) =~= tree.nodes@);
        lemma_grew_concat(
            *config,
            none,
            m2,
            found@,
            prose,
            text_refs(*tree, tree.nodes@),
        );
    }
    found
}

// Nothing else matters.

/// Whether two scenes differ at most in what is known of paths that some
/// references do not ask about.
pub open spec fn same_answers(s: SceneView, t: SceneView, refs: Seq<Seq<u8>>) -> bool {
    &&& s.file == t.file
    &&& s.config == t.config
    &&& s.files == t.files
    &&& forall|p: Seq<u8>|
        asked(s.config, refs, p) ==> #[trigger] s.external_state(p) == t.external_state(p)
}

proof fn lemma_same_parts(s: SceneView, t: SceneView, a: Seq<Seq<u8>>, b: Seq<Seq<u8>>)
    requires
        same_answers(s, t, a + b),
    ensures
        same_answers(s, t, a),
        same_answers(s, t, b),
{
    assert forall|p: Seq<u8>| asked(s.config, a, p) || asked(s.config, b, p) implies
        #[trigger] s.external_state(p) == t.external_state(p) by {
        lemma_asked_concat(s.config, a, b, p);
    }
}

proof fn lemma_same_holder(
    s: SceneView,
    t: SceneView,
    names: Seq<Seq<u8>>,
    candidate: Seq<u8>,
)
    requires
        s.config == t.config,
        forall|alias: Seq<u8>, p: Seq<u8>| #[trigger]
            s.config.external@.contains_key(alias) && at_alias(s.config, alias, candidate, p)
                ==> #[trigger] s.external_state(p) == t.external_state(p),
    ensures
        references::holding_alias(s, names, candidate) == references::holding_alias(
            t,
            names,
            candidate,
        ),
    decreases names.len(),
{
    if names.len() > 0 {
        let alias = names[0];
        let dir = text::utf8(s.config.external@[alias]@);
        if s.config.external@.contains_key(alias) {
            let there = path::join(dir, candidate);
            components::lemma_normal_form(dir);
            components::lemma_normal_form(there);
            let d = path::normal_form(dir);
            let x = path::normal_form(there);
            assert(at_alias(s.config, alias, candidate, d));
            assert(at_alias(s.config, alias, candidate, x));
            assert(s.external_state(d) == t.external_state(d));
            assert(s.external_state(x) == t.external_state(x));
            assert(s.external_state(dir) == t.external_state(dir));
            assert(s.external_state(path::join(dir, candidate)) == t.external_state(
                path::join(dir, candidate),
            ));
        }
        lemma_same_holder(s, t, names.drop_first(), candidate);
    }
}

proof fn lemma_same_mention(
    s: SceneView,
    t: SceneView,
    line: nat,
    span: Option<Span>,
    reference: Seq<u8>,
    target: Seq<u8>,
    base: Severity,
    nudge: Seq<u8>,
)
    requires
        same_answers(s, t, seq![reference]),
    ensures
        references::mention(s, line, span, reference, target, base, nudge) == references::mention(
            t,
            line,
            span,
            reference,
            target,
            base,
            nudge,
        ),
{
    assert(seq![reference][0] == reference);
    assert forall|p: Seq<u8>| asks_for(s.config, reference, p) implies #[trigger] s.external_state(
        p,
    ) == t.external_state(p) by {
        assert(asked(s.config, seq![reference], p));
    }
    match block::namespace_of(references::path_part(reference)) {
        Some((alias, rest)) => {
            if s.config.external@.contains_key(alias) {
                let dir = text::utf8(s.config.external@[alias]@);
                let there = path::join(dir, rest);
                components::lemma_normal_form(dir);
                components::lemma_normal_form(there);
                let d = path::normal_form(dir);
                let x = path::normal_form(there);
                assert(asks_for(s.config, reference, d));
                assert(asks_for(s.config, reference, x));
                assert(s.external_state(d) == t.external_state(d));
                assert(s.external_state(x) == t.external_state(x));
                assert(s.external_state(dir) == t.external_state(dir));
                assert(s.external_state(path::join(dir, rest)) == t.external_state(
                    path::join(dir, rest),
                ));
            }
        },
        None => {
            match references::citation_candidate(references::path_part(reference)) {
                None => {},
                Some(candidate) => {
                    assert forall|alias: Seq<u8>, p: Seq<u8>| #[trigger]
                        s.config.external@.contains_key(alias) && at_alias(
                            s.config,
                            alias,
                            candidate,
                            p,
                        ) implies #[trigger] s.external_state(p) == t.external_state(p) by {
                        assert(asks_for(s.config, reference, p));
                    }
                    lemma_same_holder(s, t, s.config.external.keys(), candidate);
                },
            }
        },
    }
}

proof fn lemma_same_prose(s: SceneView, t: SceneView, list: Seq<BarePath>)
    requires
        same_answers(s, t, prose_refs(list)),
    ensures
        references::prose_mentions(s, list) == references::prose_mentions(t, list),
    decreases list.len(),
{
    if list.len() > 0 {
        let p = text::utf8(list.last().path@);
        assert(prose_refs(list) =~= prose_refs(list.drop_last()) + seq![p]);
        lemma_same_parts(s, t, prose_refs(list.drop_last()), seq![p]);
        lemma_same_prose(s, t, list.drop_last());
        lemma_same_mention(
            s,
            t,
            list.last().line as nat,
            None,
            p,
            p,
            Severity::Warning,
            references::bare_message(p),
        );
    }
}

proof fn lemma_same_quoted(
    s: SceneView,
    t: SceneView,
    line: LineView,
    excluded: Seq<Span>,
    i: int,
)
    requires
        same_answers(s, t, quoted_refs(line, excluded, i)),
    ensures
        scanners::quoted_mentions(s, line, excluded, i) == scanners::quoted_mentions(
            t,
            line,
            excluded,
            i,
        ),
    decreases line.bytes.len() - i,
{
    let b = line.bytes;
    if 0 <= i < b.len() {
        if (b[i] == 34 || b[i] == 39) && scanners::delimits(b, i, b[i], true)
            && scanners::closing_quote(b, i + 1, b[i]) is Some {
            let end = scanners::closing_quote(b, i + 1, b[i])->0;
            scanners::lemma_closing_quote(b, i + 1, b[i]);
            let one = quoted_ref(line, excluded, i, end);
            lemma_same_parts(s, t, one, quoted_refs(line, excluded, end + 1));
            lemma_same_quoted(s, t, line, excluded, end + 1);
            let inner = text::piece(b, i + 1, end);
            if one.len() > 0 {
                lemma_same_mention(
                    s,
                    t,
                    line.number,
                    Some(
                        Span {
                            start: (line.start + i) as usize,
                            end: (line.start + end + 1) as usize,
                        },
                    ),
                    inner,
                    references::path_part(inner),
                    Severity::Hint,
                    scanners::quoted_message(b[i], inner),
                );
            }
            assert(scanners::quoted_mention(s, line, excluded, i, end) == scanners::quoted_mention(
                t,
                line,
                excluded,
                i,
                end,
            ));
        } else {
            lemma_same_quoted(s, t, line, excluded, i + 1);
        }
    }
}

proof fn lemma_same_urls(
    s: SceneView,
    t: SceneView,
    line: LineView,
    excluded: Seq<Span>,
    scheme: Seq<u8>,
    from: int,
)
    requires
        s.file == t.file,
        s.config == t.config,
    ensures
        scanners::url_mentions(s, line, excluded, scheme, from) == scanners::url_mentions(
            t,
            line,
            excluded,
            scheme,
            from,
        ),
    decreases line.bytes.len() - from,
{
    match text::first_match(line.bytes, from, scheme) {
        None => {},
        Some(at) => {
            if scheme.len() > 0 {
                text::lemma_first_match(line.bytes, from, scheme);
                lemma_same_urls(s, t, line, excluded, scheme, at + scheme.len());
            }
        },
    }
}

proof fn lemma_same_rows(
    s: SceneView,
    t: SceneView,
    source: Seq<u8>,
    part: Seq<u8>,
    base: int,
    rows: Seq<(int, int)>,
    excluded: Seq<Span>,
)
    requires
        same_answers(s, t, row_refs(source, part, base, rows, excluded)),
    ensures
        scanners::rows_mentions(s, source, part, base, rows, excluded) == scanners::rows_mentions(
            t,
            source,
            part,
            base,
            rows,
            excluded,
        ),
    decreases rows.len(),
{
    if rows.len() > 0 {
        let line = row_line(source, part, base, rows.last());
        lemma_same_parts(
            s,
            t,
            row_refs(source, part, base, rows.drop_last(), excluded),
            quoted_refs(line, excluded, 0),
        );
        lemma_same_rows(s, t, source, part, base, rows.drop_last(), excluded);
        lemma_same_quoted(s, t, line, excluded, 0);
        lemma_same_urls(s, t, line, excluded, text::utf8("https://"@), 0);
        lemma_same_urls(s, t, line, excluded, text::utf8("http://"@), 0);
    }
}

proof fn lemma_same_code(s: SceneView, t: SceneView, tree: Tree, children: Seq<usize>)
    requires
        same_answers(s, t, code_refs(tree, children)),
    ensures
        scanners::code_mentions(s, tree, children) == scanners::code_mentions(t, tree, children),
    decreases children.len(),
{
    if children.len() > 0 {
        let child = tree.nodes@[children.last() as int];
        let one = code_ref(tree, child);
        lemma_same_parts(s, t, code_refs(tree, children.drop_last()), one);
        lemma_same_code(s, t, tree, children.drop_last());
        let inner = references::without_ticks(tree.text_of(child));
        if one.len() > 0 {
            lemma_same_mention(
                s,
                t,
                lines::line_of(tree.text(), child.span.start as int),
                Some(child.span),
                inner,
                references::path_part(inner),
                Severity::Hint,
                scanners::backticked_message(inner),
            );
        }
        assert(scanners::code_mention(s, tree, child) == scanners::code_mention(t, tree, child));
    }
}

proof fn lemma_same_text(s: SceneView, t: SceneView, tree: Tree, nodes: Seq<Node>)
    requires
        same_answers(s, t, text_refs(tree, nodes)),
    ensures
        scanners::text_mentions(s, tree, nodes) == scanners::text_mentions(t, tree, nodes),
    decreases nodes.len(),
{
    if nodes.len() > 0 {
        let node = nodes.last();
        lemma_same_parts(s, t, text_refs(tree, nodes.drop_last()), node_refs(tree, node));
        lemma_same_text(s, t, tree, nodes.drop_last());
        if node.kind is Paragraph || node.kind is TableCell {
            let rows = lines::rows_from(tree.text_of(node), 0);
            let spans = scanners::child_spans(tree, node.children@);
            let first = row_refs(
                tree.text(),
                tree.text_of(node),
                node.span.start as int,
                rows,
                spans,
            );
            lemma_same_parts(s, t, first, code_refs(tree, node.children@));
            lemma_same_rows(
                s,
                t,
                tree.text(),
                tree.text_of(node),
                node.span.start as int,
                rows,
                spans,
            );
            lemma_same_code(s, t, tree, node.children@);
        }
    }
}

/// Only what a document asks about matters: two scenes that agree there give the
/// same findings, whatever they know of other paths.
pub proof fn law_other_paths_do_not_matter(
    tree: Tree,
    s: SceneView,
    t: SceneView,
    exceptions: Exceptions,
    metadata: Seq<DiagView>,
)
    requires
        same_answers(s, t, references_of(tree)),
    ensures
        structural::flow_of(tree, s, exceptions, metadata) == structural::flow_of(
            tree,
            t,
            exceptions,
            metadata,
        ),
{
    reveal(structural::mentions_of);
    lemma_same_parts(s, t, prose_refs(tree.bare_paths@), text_refs(tree, tree.nodes@));
    lemma_same_prose(s, t, tree.bare_paths@);
    lemma_same_text(s, t, tree, tree.nodes@);
}

} // verus!

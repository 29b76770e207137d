//! Diagnostics on HTML elements.
use vstd::prelude::*;
use crate::block::{Attribute, ElementKind, Node, OpenTag, Syntax, Tree};
use crate::diagnostic;
use crate::diagnostic::{DiagView, Diagnostic, Severity};
use crate::lines;
use crate::sorted::{KeyOrder, SortedMap};
use crate::path;
use crate::structural::content;
use crate::text;

verus! {

/// Whether a node is looked at as HTML.
pub open spec fn is_html(node: Node) -> bool {
    node.syntax == Syntax::Html || node.kind is HtmlBlock
}

/// The line of a node.
pub open spec fn node_line(tree: Tree, node: Node) -> usize {
    lines::line_of(tree.text(), node.span.start as int) as usize
}

// Identifiers.

/// The identifier that an attribute gives.
pub open spec fn id_of(attr: Attribute) -> Option<Seq<u8>> {
    match attr.value {
        Some(value) if text::utf8(attr.name@) == text::utf8("id"@) && value@.len() > 0 => Some(
            text::utf8(value@),
        ),
        _ => None,
    }
}

/// The line of the first element with each identifier, after a list of attributes.
pub open spec fn ids_after(
    seen: Map<Seq<u8>, usize>,
    line: usize,
    attrs: Seq<Attribute>,
) -> Map<Seq<u8>, usize>
    decreases attrs.len(),
{
    if attrs.len() == 0 {
        seen
    } else {
        let so_far = ids_after(seen, line, attrs.drop_last());
        match id_of(attrs.last()) {
            Some(id) if !so_far.contains_key(id) => so_far.insert(id, line),
            _ => so_far,
        }
    }
}

/// The tag by which a node is judged: of an HTML block only the first line counts.
pub open spec fn own_tag(node: Node) -> Option<OpenTag> {
    if node.kind is HtmlBlock {
        node.line_tag
    } else {
        node.tag
    }
}

/// The line of the first element with each identifier among a list of nodes.
pub open spec fn ids_of(tree: Tree, nodes: Seq<Node>) -> Map<Seq<u8>, usize>
    decreases nodes.len(),
{
    if nodes.len() == 0 {
        Map::empty()
    } else {
        let so_far = ids_of(tree, nodes.drop_last());
        match own_tag(nodes.last()) {
            Some(tag) if is_html(nodes.last()) => ids_after(
                so_far,
                node_line(tree, nodes.last()),
                tag.attrs@,
            ),
            _ => so_far,
        }
    }
}

/// The message about an identifier that is taken.
pub open spec fn duplicate_id_message(id: Seq<u8>, first: nat) -> Seq<u8> {
    text::utf8("duplicate `id` attribute `"@) + id + text::utf8("` (first at line "@)
        + text::decimal(first) + text::utf8(")"@)
}

/// What is said of the identifiers in a list of attributes.
pub open spec fn id_reports(
    tree: Tree,
    file: Seq<u8>,
    node: Node,
    seen: Map<Seq<u8>, usize>,
    attrs: Seq<Attribute>,
) -> Seq<DiagView>
    decreases attrs.len(),
{
    if attrs.len() == 0 {
        Seq::empty()
    } else {
        let so_far = ids_after(seen, node_line(tree, node), attrs.drop_last());
        id_reports(tree, file, node, seen, attrs.drop_last()) + match id_of(attrs.last()) {
            Some(id) if so_far.contains_key(id) => seq![
                content::at_node(
                    tree,
                    file,
                    node,
                    Severity::Error,
                    duplicate_id_message(id, so_far[id] as nat),
                ),
            ],
            _ => Seq::empty(),
        }
    }
}

fn check_ids(
    tree: &Tree,
    rel_path: &str,
    node: &Node,
    attrs: &Vec<Attribute>,
    seen: &mut SortedMap<usize>,
    out: &mut Vec<Diagnostic>,
)
    requires
        tree.wf(),
    ensures
        final(seen)@ == ids_after(old(seen)@, node_line(*tree, *node), attrs@),
        diagnostic::views(final(out)@) == diagnostic::views(old(out)@) + id_reports(
            *tree,
            path::named(rel_path@),
            *node,
            old(seen)@,
            attrs@,
        ),
{
    let ghost file = path::named(rel_path@);
    let ghost seen0 = seen@;
    let ghost before = diagnostic::views(out@);
    let line = lines::byte_offset_to_line(tree.source.as_str(), node.span.start);
    let mut k: usize = 0;
    proof {
        assert(attrs@.take(0) =~= Seq::<Attribute>::empty());
        assert(before + Seq::<DiagView>::empty() =~= before);
    }
    while k < attrs.len()
        invariant
            k <= attrs@.len(),
            tree.wf(),
            file == path::named(rel_path@),
            line == node_line(*tree, *node),
            seen@ == ids_after(seen0, line, attrs@.take(k as int)),
            diagnostic::views(out@) == before + id_reports(
                *tree,
                file,
                *node,
                seen0,
                attrs@.take(k as int),
            ),
        decreases attrs@.len() - k,
    {
        let attr = &attrs[k];
        let ghost so_far = id_reports(*tree, file, *node, seen0, attrs@.take(k as int));
        let ghost next = id_reports(*tree, file, *node, seen0, attrs@.take(k + 1));
        proof {
            assert(attrs@.take(k + 1).drop_last() =~= attrs@.take(k as int));
            assert(attrs@.take(k + 1).last() == *attr);
        }
        let mut id: Option<&str> = None;
        if let Some(value) = &attr.value {
            let v = value.as_str();
            if text::same(attr.name.as_str(), "id") && !v.is_empty() {
                id = Some(v);
            }
        }
        assert(match id {
            Some(v) => id_of(*attr) == Some(text::utf8(v@)),
            None => id_of(*attr) is None,
        });
        if let Some(v) = id {
            let first: Option<usize> = match seen.get(v) {
                Some(f) => Some(*f),
                None => None,
            };
            match first {
                Some(f) => {
                    let mut message = text::owned("duplicate `id` attribute `");
                    text::push(&mut message, v);
                    text::push(&mut message, "` (first at line ");
                    text::push_decimal(&mut message, f);
                    text::push(&mut message, ")");
                    let d = content::node_diagnostic(
                        tree,
                        rel_path,
                        node,
                        Severity::Error,
                        message,
                    );
                    proof {
                        diagnostic::lemma_views_push(out@, d);
                        assert((before + so_far).push(d@) =~= before + next);
                    }
                    out.push(d);
                },
                None => {
                    seen.insert(text::owned(v), line);
                    assert(next =~= so_far);
                },
            }
        } else {
            assert(next =~= so_far);
        }
        k += 1;
    }
    assert(attrs@.take(k as int) =~= attrs@);
}

// Required attributes.

/// Whether an attribute of that name is among those given.
pub open spec fn has_attr(attrs: Seq<Attribute>, name: Seq<u8>) -> bool {
    exists|k: int| 0 <= k < attrs.len() && text::utf8((#[trigger] attrs[k]).name@) == name
}

fn has_attribute(attrs: &Vec<Attribute>, name: &str) -> (r: bool)
    ensures
        r == has_attr(attrs@, text::utf8(name@)),
{
    let mut k: usize = 0;
    while k < attrs.len()
        invariant
            k <= attrs@.len(),
            forall|j: int|
                0 <= j < k ==> text::utf8((#[trigger] attrs@[j]).name@) != text::utf8(name@),
        decreases attrs@.len() - k,
    {
        if text::same(attrs[k].name.as_str(), name) {
            return true;
        }
        k += 1;
    }
    false
}

/// The attribute that an element has to have: `alt` on an image, and `href` on
/// an anchor that is no link target.
pub open spec fn required_attr(tag: OpenTag) -> Option<Seq<u8>> {
    let name = text::utf8(tag.name@);
    if name == text::utf8("img"@) {
        Some(text::utf8("alt"@))
    } else if name == text::utf8("a"@) && !has_attr(tag.attrs@, text::utf8("id"@)) && !has_attr(
        tag.attrs@,
        text::utf8("name"@),
    ) {
        Some(text::utf8("href"@))
    } else {
        None
    }
}

/// What is said of an element's attributes.
pub open spec fn attr_report(tree: Tree, file: Seq<u8>, node: Node, tag: OpenTag) -> Seq<DiagView> {
    match required_attr(tag) {
        Some(attr) if !has_attr(tag.attrs@, attr) => seq![
            DiagView {
                file,
                line: lines::line_of(tree.text(), node.span.start as int),
                severity: Severity::Warning,
                message: text::utf8("`<"@) + text::utf8(tag.name@) + text::utf8(
                    ">` missing required attribute `"@,
                ) + attr + text::utf8("`"@),
                span: None,
            },
        ],
        _ => Seq::empty(),
    }
}

fn check_required_attrs(
    tree: &Tree,
    rel_path: &str,
    node: &Node,
    tag: &OpenTag,
    out: &mut Vec<Diagnostic>,
)
    requires
        tree.wf(),
    ensures
        diagnostic::views(final(out)@) == diagnostic::views(old(out)@) + attr_report(
            *tree,
            path::named(rel_path@),
            *node,
            *tag,
        ),
{
    let ghost before = diagnostic::views(out@);
    assert(before + Seq::<DiagView>::empty() =~= before);
    let name = tag.name.as_str();
    let attr: &str = if text::same(name, "img") {
        "alt"
    } else if text::same(name, "a") && !has_attribute(&tag.attrs, "id") && !has_attribute(
        &tag.attrs,
        "name",
    ) {
        "href"
    } else {
        return;
    };
    if !has_attribute(&tag.attrs, attr) {
        let mut message = text::owned("`<");
        text::push(&mut message, name);
        text::push(&mut message, ">` missing required attribute `");
        text::push(&mut message, attr);
        text::push(&mut message, "`");
        let d = Diagnostic {
            file: text::owned(rel_path),
            line: lines::byte_offset_to_line(tree.source.as_str(), node.span.start),
            severity: Severity::Warning,
            message,
            span: None,
        };
        proof {
            diagnostic::lemma_views_push(out@, d);
            assert(before.push(d@) =~= before + attr_report(
                *tree,
                path::named(rel_path@),
                *node,
                *tag,
            ));
        }
        out.push(d);
    }
}

// Nesting.

/// How far from the top a step upward starts.
pub open spec fn height(current: Option<usize>) -> int {
    match current {
        Some(p) => p + 1,
        None => 0,
    }
}

/// The name of a node's element, if that is inline.
pub open spec fn inline_name(node: Node) -> Option<Seq<u8>> {
    match node.tag {
        Some(tag) if node.syntax == Syntax::Html && !tag.is_block && !tag.is_void => Some(
            text::utf8(tag.name@),
        ),
        _ => None,
    }
}

/// The name of the nearest inline element from `current` upward.
pub open spec fn inline_around(tree: Tree, current: Option<usize>) -> Option<Seq<u8>>
    decreases height(current),
{
    match current {
        Some(p) if p < tree.nodes@.len() => {
            let node = tree.nodes@[p as int];
            if inline_name(node) is Some {
                inline_name(node)
            } else if height(node.parent) <= p {
                inline_around(tree, node.parent)
            } else {
                None
            }
        },
        _ => None,
    }
}

/// What is said of a block element inside an inline one.
pub open spec fn block_report(tree: Tree, file: Seq<u8>, node: Node, tag: OpenTag) -> Seq<DiagView> {
    match inline_around(tree, node.parent) {
        Some(name) if tag.is_block => seq![
            content::at_node(
                tree,
                file,
                node,
                Severity::Error,
                text::utf8("block element `<"@) + text::utf8(tag.name@) + text::utf8(
                    ">` inside inline element `<"@,
                ) + name + text::utf8(">`"@),
            ),
        ],
        _ => Seq::empty(),
    }
}

fn check_block_in_inline(
    tree: &Tree,
    rel_path: &str,
    node: &Node,
    tag: &OpenTag,
    out: &mut Vec<Diagnostic>,
)
    requires
        tree.wf(),
        node.parent matches Some(p) ==> p < tree.nodes@.len(),
    ensures
        diagnostic::views(final(out)@) == diagnostic::views(old(out)@) + block_report(
            *tree,
            path::named(rel_path@),
            *node,
            *tag,
        ),
{
    let ghost before = diagnostic::views(out@);
    assert(before + Seq::<DiagView>::empty() =~= before);
    if !tag.is_block {
        return;
    }
    let mut current = node.parent;
    loop
        invariant
            tree.wf(),
            tag.is_block,
            before == diagnostic::views(out@),
            before == diagnostic::views(old(out)@),
            before + Seq::<DiagView>::empty() == before,
            current matches Some(p) ==> p < tree.nodes@.len(),
            inline_around(*tree, node.parent) == inline_around(*tree, current),
        decreases height(current),
    {
        let Some(p) = current else {
            return;
        };
        let parent = &tree.nodes[p];
        assert(tree.node_wf(p as int, tree.nodes@[p as int]));
        if parent.syntax == Syntax::Html {
            if let Some(t) = &parent.tag {
                if !t.is_block && !t.is_void {
                    let mut message = text::owned("block element `<");
                    text::push(&mut message, tag.name.as_str());
                    text::push(&mut message, ">` inside inline element `<");
                    text::push(&mut message, t.name.as_str());
                    text::push(&mut message, ">`");
                    let d = content::node_diagnostic(
                        tree,
                        rel_path,
                        node,
                        Severity::Error,
                        message,
                    );
                    proof {
                        diagnostic::lemma_views_push(out@, d);
                        assert(before.push(d@) =~= before + block_report(
                            *tree,
                            path::named(rel_path@),
                            *node,
                            *tag,
                        ));
                    }
                    out.push(d);
                    return;
                }
            }
        }
        current = parent.parent;
    }
}

/// The elements one of which has to stand around an element.
pub open spec fn required_parents(name: Seq<u8>) -> Seq<Seq<u8>> {
    if name == text::utf8("tr"@) || name == text::utf8("thead"@) || name == text::utf8("tbody"@)
        || name == text::utf8("tfoot"@) || name == text::utf8("caption"@) || name == text::utf8(
        "colgroup"@,
    ) || name == text::utf8("col"@) {
        seq![text::utf8("table"@)]
    } else if name == text::utf8("td"@) || name == text::utf8("th"@) {
        seq![text::utf8("table"@), text::utf8("tr"@)]
    } else if name == text::utf8("li"@) {
        seq![text::utf8("ul"@), text::utf8("ol"@), text::utf8("menu"@)]
    } else if name == text::utf8("summary"@) {
        seq![text::utf8("details"@)]
    } else if name == text::utf8("option"@) || name == text::utf8("optgroup"@) {
        seq![text::utf8("select"@), text::utf8("datalist"@)]
    } else {
        Seq::empty()
    }
}

/// The bytes of a list of names.
pub open spec fn names(list: Seq<&'static str>) -> Seq<Seq<u8>> {
    list.map_values(|s: &'static str| text::utf8(s@))
}

fn parents_for(name: &str) -> (r: Vec<&'static str>)
    ensures
        names(r@) == required_parents(text::utf8(name@)),
{
    let mut r: Vec<&'static str> = Vec::new();
    if text::same(name, "tr") || text::same(name, "thead") || text::same(name, "tbody")
        || text::same(name, "tfoot") || text::same(name, "caption") || text::same(name, "colgroup")
        || text::same(name, "col") {
        r.push("table");
    } else if text::same(name, "td") || text::same(name, "th") {
        r.push("table");
        r.push("tr");
    } else if text::same(name, "li") {
        r.push("ul");
        r.push("ol");
        r.push("menu");
    } else if text::same(name, "summary") {
        r.push("details");
    } else if text::same(name, "option") || text::same(name, "optgroup") {
        r.push("select");
        r.push("datalist");
    }
    assert(names(r@) =~= required_parents(text::utf8(name@)));
    r
}

/// The element that a node stands for: its tag's in HTML, and the one that its
/// kind is rendered as.
pub open spec fn stands_for(node: Node, name: Seq<u8>) -> bool {
    ||| node.syntax == Syntax::Html && (node.tag matches Some(tag) && text::utf8(tag.name@) == name)
    ||| node.kind is Table && name == text::utf8("table"@)
    ||| node.kind == (ElementKind::List { ordered: true }) && name == text::utf8("ol"@)
    ||| node.kind == (ElementKind::List { ordered: false }) && name == text::utf8("ul"@)
    ||| node.kind is Details && name == text::utf8("details"@)
}

/// Whether a node stands for one of the elements listed.
pub open spec fn stands_for_any(node: Node, list: Seq<Seq<u8>>) -> bool {
    exists|k: int| 0 <= k < list.len() && stands_for(node, #[trigger] list[k])
}

/// Whether one of the elements listed stands from `current` upward.
pub open spec fn parent_found(tree: Tree, current: Option<usize>, list: Seq<Seq<u8>>) -> bool
    decreases height(current),
{
    match current {
        Some(p) if p < tree.nodes@.len() => {
            let node = tree.nodes@[p as int];
            stands_for_any(node, list) || (height(node.parent) <= p && parent_found(
                tree,
                node.parent,
                list,
            ))
        },
        _ => false,
    }
}

/// The elements listed, as tags with `or` between them.
pub open spec fn alternatives(list: Seq<Seq<u8>>) -> Seq<u8>
    decreases list.len(),
{
    if list.len() == 0 {
        Seq::empty()
    } else {
        let last = text::utf8("`<"@) + list.last() + text::utf8(">`"@);
        if list.len() == 1 {
            last
        } else {
            alternatives(list.drop_last()) + text::utf8(" or "@) + last
        }
    }
}

/// What is said of an element that stands outside those it belongs in.
pub open spec fn parent_report(tree: Tree, file: Seq<u8>, node: Node, tag: OpenTag) -> Seq<DiagView> {
    let list = required_parents(text::utf8(tag.name@));
    if list.len() > 0 && !parent_found(tree, node.parent, list) {
        seq![
            content::at_node(
                tree,
                file,
                node,
                Severity::Error,
                text::utf8("`<"@) + text::utf8(tag.name@) + text::utf8(">` requires parent "@)
                    + alternatives(list),
            ),
        ]
    } else {
        Seq::empty()
    }
}

fn matches_element(node: &Node, name: &str) -> (r: bool)
    ensures
        r == stands_for(*node, text::utf8(name@)),
{
    if node.syntax == Syntax::Html {
        if let Some(tag) = &node.tag {
            if text::same(tag.name.as_str(), name) {
                return true;
            }
        }
    }
    match &node.kind {
        ElementKind::Table => text::same(name, "table"),
        ElementKind::List { ordered } => if *ordered {
            text::same(name, "ol")
        } else {
            text::same(name, "ul")
        },
        ElementKind::Details => text::same(name, "details"),
        _ => false,
    }
}

fn matches_any(node: &Node, list: &Vec<&'static str>) -> (r: bool)
    ensures
        r == stands_for_any(*node, names(list@)),
{
    let ghost all = names(list@);
    let mut k: usize = 0;
    while k < list.len()
        invariant
            k <= list@.len(),
            all == names(list@),
            forall|j: int| 0 <= j < k ==> !stands_for(*node, #[trigger] all[j]),
        decreases list@.len() - k,
    {
        assert(all[k as int] == text::utf8(list@[k as int]@));
        if matches_element(node, list[k]) {
            return true;
        }
        k += 1;
    }
    false
}

fn push_alternatives(message: &mut String, list: &Vec<&'static str>)
    ensures
        text::utf8(final(message)@) == text::utf8(old(message)@) + alternatives(names(list@)),
{
    let ghost start = text::utf8(message@);
    let ghost all = names(list@);
    let mut k: usize = 0;
    proof {
        assert(all.take(0) =~= Seq::<Seq<u8>>::empty());
        assert(start + Seq::<u8>::empty() =~= start);
    }
    while k < list.len()
        invariant
            k <= list@.len(),
            all == names(list@),
            text::utf8(message@) == start + alternatives(all.take(k as int)),
        decreases list@.len() - k,
    {
        if k > 0 {
            text::push(message, " or ");
        }
        text::push(message, "`<");
        text::push(message, list[k]);
        text::push(message, ">`");
        proof {
            let t = all.take(k + 1);
            assert(t.drop_last() =~= all.take(k as int));
            assert(t.last() == text::utf8(list@[k as int]@));
            assert(text::utf8(message@) =~= start + alternatives(t));
        }
        k += 1;
    }
    assert(all.take(k as int) =~= all);
}

fn has_required_parent(tree: &Tree, from: Option<usize>, list: &Vec<&'static str>) -> (r: bool)
    requires
        tree.wf(),
        from matches Some(p) ==> p < tree.nodes@.len(),
    ensures
        r == parent_found(*tree, from, names(list@)),
{
    let mut current = from;
    loop
        invariant
            tree.wf(),
            current matches Some(p) ==> p < tree.nodes@.len(),
            parent_found(*tree, from, names(list@)) == parent_found(
                *tree,
                current,
                names(list@),
            ),
        decreases height(current),
    {
        let Some(p) = current else {
            return false;
        };
        let parent = &tree.nodes[p];
        assert(tree.node_wf(p as int, tree.nodes@[p as int]));
        if matches_any(parent, list) {
            return true;
        }
        current = parent.parent;
    }
}

fn check_invalid_parent(
    tree: &Tree,
    rel_path: &str,
    node: &Node,
    tag: &OpenTag,
    out: &mut Vec<Diagnostic>,
)
    requires
        tree.wf(),
        node.parent matches Some(p) ==> p < tree.nodes@.len(),
    ensures
        diagnostic::views(final(out)@) == diagnostic::views(old(out)@) + parent_report(
            *tree,
            path::named(rel_path@),
            *node,
            *tag,
        ),
{
    let ghost before = diagnostic::views(out@);
    assert(before + Seq::<DiagView>::empty() =~= before);
    let list = parents_for(tag.name.as_str());
    assert(names(list@).len() == list@.len());
    if list.len() == 0 || has_required_parent(tree, node.parent, &list) {
        return;
    }
    let mut message = text::owned("`<");
    text::push(&mut message, tag.name.as_str());
    text::push(&mut message, ">` requires parent ");
    push_alternatives(&mut message, &list);
    let d = content::node_diagnostic(tree, rel_path, node, Severity::Error, message);
    proof {
        diagnostic::lemma_views_push(out@, d);
        assert(before.push(d@) =~= before + parent_report(
            *tree,
            path::named(rel_path@),
            *node,
            *tag,
        ));
    }
    out.push(d);
}

// Elements.

/// What is said of a tag by itself: that a tag closes itself though its element
/// has content, and that the element is unknown.
pub open spec fn tag_report(tree: Tree, file: Seq<u8>, node: Node, tag: OpenTag) -> Seq<DiagView> {
    (if tag.self_closing && !tag.is_void {
        seq![
            content::at_node(
                tree,
                file,
                node,
                Severity::Warning,
                text::utf8("self-closing non-void tag `<"@) + text::utf8(tag.name@) + text::utf8(
                    "/>`"@,
                ),
            ),
        ]
    } else {
        Seq::empty()
    }) + (if !tag.is_known {
        seq![
            content::at_node(
                tree,
                file,
                node,
                Severity::Info,
                text::utf8("unknown HTML element `<"@) + text::utf8(tag.name@) + text::utf8(
                    ">`"@,
                ),
            ),
        ]
    } else {
        Seq::empty()
    })
}

/// What is said of a node as an HTML element, given the identifiers seen before.
#[verifier::opaque]
pub open spec fn element_report(
    tree: Tree,
    file: Seq<u8>,
    node: Node,
    seen: Map<Seq<u8>, usize>,
) -> Seq<DiagView> {
    match own_tag(node) {
        Some(tag) if is_html(node) => tag_report(tree, file, node, tag) + id_reports(
            tree,
            file,
            node,
            seen,
            tag.attrs@,
        ) + attr_report(tree, file, node, tag) + block_report(tree, file, node, tag)
            + parent_report(tree, file, node, tag),
        _ => Seq::empty(),
    }
}

/// What is said of the HTML elements among a list of nodes.
pub open spec fn element_reports(tree: Tree, file: Seq<u8>, nodes: Seq<Node>) -> Seq<DiagView>
    decreases nodes.len(),
{
    if nodes.len() == 0 {
        Seq::empty()
    } else {
        element_reports(tree, file, nodes.drop_last()) + element_report(
            tree,
            file,
            nodes.last(),
            ids_of(tree, nodes.drop_last()),
        )
    }
}

fn check_tag(
    tree: &Tree,
    rel_path: &str,
    node: &Node,
    tag: &OpenTag,
    out: &mut Vec<Diagnostic>,
)
    requires
        tree.wf(),
    ensures
        diagnostic::views(final(out)@) == diagnostic::views(old(out)@) + tag_report(
            *tree,
            path::named(rel_path@),
            *node,
            *tag,
        ),
{
    broadcast use diagnostic::lemma_views_push;

    let ghost before = diagnostic::views(out@);
    if tag.self_closing && !tag.is_void {
        let mut message = text::owned("self-closing non-void tag `<");
        text::push(&mut message, tag.name.as_str());
        text::push(&mut message, "/>`");
        out.push(content::node_diagnostic(tree, rel_path, node, Severity::Warning, message));
    }
    if !tag.is_known {
        let mut message = text::owned("unknown HTML element `<");
        text::push(&mut message, tag.name.as_str());
        text::push(&mut message, ">`");
        out.push(content::node_diagnostic(tree, rel_path, node, Severity::Info, message));
    }
    assert(diagnostic::views(out@) =~= before + tag_report(
        *tree,
        path::named(rel_path@),
        *node,
        *tag,
    ));
}

#[verifier::spinoff_prover]
#[verifier::rlimit(60)]
fn check_element(
    tree: &Tree,
    rel_path: &str,
    node: &Node,
    seen: &mut SortedMap<usize>,
    out: &mut Vec<Diagnostic>,
)
    requires
        tree.wf(),
        node.parent matches Some(p) ==> p < tree.nodes@.len(),
    ensures
        final(seen)@ == (match own_tag(*node) {
            Some(tag) if is_html(*node) => ids_after(
                old(seen)@,
                node_line(*tree, *node),
                tag.attrs@,
            ),
            _ => old(seen)@,
        }),
        diagnostic::views(final(out)@) == diagnostic::views(old(out)@) + element_report(
            *tree,
            path::named(rel_path@),
            *node,
            old(seen)@,
        ),
{
    reveal(element_report);
    let ghost file = path::named(rel_path@);
    let ghost v0 = diagnostic::views(out@);
    let ghost seen0 = seen@;
    let is_block = match node.kind {
        ElementKind::HtmlBlock => true,
        _ => false,
    };
    assert(v0 + Seq::<DiagView>::empty() =~= v0);
    if node.syntax != Syntax::Html && !is_block {
        return;
    }
    let own = if is_block {
        &node.line_tag
    } else {
        &node.tag
    };
    if let Some(tag) = own {
        check_tag(tree, rel_path, node, tag, out);
        check_ids(tree, rel_path, node, &tag.attrs, seen, out);
        check_required_attrs(tree, rel_path, node, tag, out);
        check_block_in_inline(tree, rel_path, node, tag, out);
        check_invalid_parent(tree, rel_path, node, tag, out);
        proof {
            let a = tag_report(*tree, file, *node, *tag);
            let b = id_reports(*tree, file, *node, seen0, tag.attrs@);
            let c = attr_report(*tree, file, *node, *tag);
            let d = block_report(*tree, file, *node, *tag);
            let e = parent_report(*tree, file, *node, *tag);
            assert(v0 + a + b + c + d + e =~= v0 + (a + b + c + d + e));
        }
    }
}

/// Report on HTML elements.
pub fn emit_html_diagnostics(tree: &Tree, rel_path: &str, out: &mut Vec<Diagnostic>)
    requires
        tree.wf(),
    ensures
        diagnostic::views(final(out)@) == diagnostic::views(old(out)@) + element_reports(
            *tree,
            path::named(rel_path@),
            tree.nodes@,
        ),
{
    let ghost before = diagnostic::views(out@);
    let ghost file = path::named(rel_path@);
    let mut seen: SortedMap<usize> = SortedMap::new(KeyOrder::Bytes);
    let mut i: usize = 0;
    proof {
        assert(before + Seq::<DiagView>::empty() =~= before);
        assert(tree.nodes@.take(0) =~= Seq::<Node>::empty());
    }
    while i < tree.nodes.len()
        invariant
            i <= tree.nodes@.len(),
            tree.wf(),
            file == path::named(rel_path@),
            seen@ == ids_of(*tree, tree.nodes@.take(i as int)),
            diagnostic::views(out@) == before + element_reports(
                *tree,
                file,
                tree.nodes@.take(i as int),
            ),
        decreases tree.nodes@.len() - i,
    {
        let node = &tree.nodes[i];
        let ghost so_far = element_reports(*tree, file, tree.nodes@.take(i as int));
        let ghost one = element_report(*tree, file, *node, seen@);
        proof {
            assert(tree.nodes@.take(i + 1).drop_last() =~= tree.nodes@.take(i as int));
            assert(tree.node_wf(i as int, tree.nodes@[i as int]));
        }
        check_element(tree, rel_path, node, &mut seen, out);
        assert((before + so_far) + one =~= before + (so_far + one));
        i += 1;
    }
    assert(tree.nodes@.take(i as int) =~= tree.nodes@);
}

// Markdown inside HTML.

/// Whether a line has the marks of a heading, a list item or a link.
pub open spec fn looks_like_markdown(line: Seq<u8>) -> bool {
    let t = lines::trimmed(line);
    text::has_prefix(t, text::utf8("#"@)) || text::has_prefix(t, text::utf8("- "@))
        || text::has_prefix(t, text::utf8("* "@)) || text::has_match(t, text::utf8("]("@))
}

/// The line of a list, by index.
pub open spec fn line_at(b: Seq<u8>, list: Seq<(int, int)>, k: int) -> Seq<u8> {
    text::piece(b, list[k].0, list[k].1)
}

/// Whether one of the lines is blank.
pub open spec fn has_blank_line(b: Seq<u8>, list: Seq<(int, int)>) -> bool {
    exists|k: int|
        0 <= k < list.len() && lines::trimmed(#[trigger] line_at(b, list, k)).len() == 0
}

/// The first line from index `k` on that looks like markdown; a closing tag on
/// the last line does not count.
pub open spec fn markdown_line(b: Seq<u8>, list: Seq<(int, int)>, k: int) -> Option<int>
    decreases list.len() - k,
{
    if k < 0 || k >= list.len() {
        None
    } else if !(k == list.len() - 1 && text::has_prefix(
        lines::trimmed(line_at(b, list, k)),
        text::utf8("</"@),
    )) && looks_like_markdown(line_at(b, list, k)) {
        Some(k)
    } else {
        markdown_line(b, list, k + 1)
    }
}

/// What is said of a node as an HTML block: that markdown stands in it, behind
/// its first line, where no blank line would have it parsed.
#[verifier::opaque]
pub open spec fn opaque_report(tree: Tree, file: Seq<u8>, node: Node) -> Seq<DiagView> {
    let b = tree.text_of(node);
    let list = lines::lines_from(b, 0);
    match markdown_line(b, list, 1) {
        Some(k) if node.kind is HtmlBlock && !has_blank_line(b, list) => seq![
            DiagView {
                file,
                line: lines::line_of(tree.text(), node.span.start + list[k].0),
                severity: Severity::Warning,
                message: text::utf8(
                    "markdown syntax inside HTML block without blank lines will not be parsed"@,
                ),
                span: None,
            },
        ],
        _ => Seq::empty(),
    }
}

/// What is said of the HTML blocks among a list of nodes.
pub open spec fn opaque_reports(tree: Tree, file: Seq<u8>, nodes: Seq<Node>) -> Seq<DiagView>
    decreases nodes.len(),
{
    if nodes.len() == 0 {
        Seq::empty()
    } else {
        opaque_reports(tree, file, nodes.drop_last()) + opaque_report(tree, file, nodes.last())
    }
}

fn is_markdown_line(line: &str) -> (r: bool)
    ensures
        r == looks_like_markdown(text::utf8(line@)),
{
    let t = lines::trim(line);
    text::starts_with(t, "#") || text::starts_with(t, "- ") || text::starts_with(t, "* ")
        || text::contains(t, "](")
}

fn any_blank_line(raw: &str, list: &Vec<crate::span::Span>) -> (r: bool)
    ensures
        r == has_blank_line(text::utf8(raw@), lines::as_ranges(list@)),
{
    let ghost b = text::utf8(raw@);
    let ghost all = lines::as_ranges(list@);
    let mut k: usize = 0;
    while k < list.len()
        invariant
            k <= list@.len(),
            b == text::utf8(raw@),
            all == lines::as_ranges(list@),
            forall|j: int|
                0 <= j < k ==> lines::trimmed(#[trigger] line_at(b, all, j)).len() != 0,
        decreases list@.len() - k,
    {
        let line = text::slice(raw, list[k].start, list[k].end);
        assert(text::utf8(line@) == line_at(b, all, k as int));
        if lines::trim(line).as_bytes().len() == 0 {
            return true;
        }
        k += 1;
    }
    false
}

fn find_markdown_line(raw: &str, list: &Vec<crate::span::Span>) -> (r: Option<usize>)
    ensures
        match r {
            Some(k) => markdown_line(text::utf8(raw@), lines::as_ranges(list@), 1) == Some(
                k as int,
            ) && k < list@.len(),
            None => markdown_line(text::utf8(raw@), lines::as_ranges(list@), 1) is None,
        },
{
    let ghost b = text::utf8(raw@);
    let ghost all = lines::as_ranges(list@);
    let mut k: usize = 1;
    while k < list.len()
        invariant
            1 <= k,
            b == text::utf8(raw@),
            all == lines::as_ranges(list@),
            markdown_line(b, all, 1) == markdown_line(b, all, k as int),
        decreases list@.len() - k,
    {
        let line = text::slice(raw, list[k].start, list[k].end);
        assert(text::utf8(line@) == line_at(b, all, k as int));
        let closes = k == list.len() - 1 && text::starts_with(lines::trim(line), "</");
        if !closes && is_markdown_line(line) {
            return Some(k);
        }
        k += 1;
    }
    None
}

fn report_opaque(tree: &Tree, rel_path: &str, node: &Node, out: &mut Vec<Diagnostic>)
    requires
        tree.wf(),
        node.span.start <= node.span.end <= tree.text().len(),
    ensures
        diagnostic::views(final(out)@) == diagnostic::views(old(out)@) + opaque_report(
            *tree,
            path::named(rel_path@),
            *node,
        ),
{
    reveal(opaque_report);
    let ghost before = diagnostic::views(out@);
    assert(before + Seq::<DiagView>::empty() =~= before);
    let is_block = match node.kind {
        ElementKind::HtmlBlock => true,
        _ => false,
    };
    if !is_block {
        return;
    }
    let raw = tree.raw(node);
    let list = lines::lines(raw.as_bytes());
    if any_blank_line(raw, &list) {
        return;
    }
    if let Some(k) = find_markdown_line(raw, &list) {
        let start = node.span.start + list[k].start;
        assert(lines::as_ranges(list@)[k as int].0 == list@[k as int].start);
        let d = Diagnostic {
            file: text::owned(rel_path),
            line: lines::byte_offset_to_line(tree.source.as_str(), start),
            severity: Severity::Warning,
            message: text::owned(
                "markdown syntax inside HTML block without blank lines will not be parsed",
            ),
            span: None,
        };
        proof {
            diagnostic::lemma_views_push(out@, d);
            assert(before.push(d@) =~= before + opaque_report(
                *tree,
                path::named(rel_path@),
                *node,
            ));
        }
        out.push(d);
    }
}

/// Report markdown that stands inside HTML blocks.
pub fn check_markdown_in_opaque_html(tree: &Tree, rel_path: &str, out: &mut Vec<Diagnostic>)
    requires
        tree.wf(),
    ensures
        diagnostic::views(final(out)@) == diagnostic::views(old(out)@) + opaque_reports(
            *tree,
            path::named(rel_path@),
            tree.nodes@,
        ),
{
    let ghost before = diagnostic::views(out@);
    let ghost file = path::named(rel_path@);
    let mut i: usize = 0;
    proof {
        assert(before + Seq::<DiagView>::empty() =~= before);
        assert(tree.nodes@.take(0) =~= Seq::<Node>::empty());
    }
    while i < tree.nodes.len()
        invariant
            i <= tree.nodes@.len(),
            tree.wf(),
            file == path::named(rel_path@),
            diagnostic::views(out@) == before + opaque_reports(
                *tree,
                file,
                tree.nodes@.take(i as int),
            ),
        decreases tree.nodes@.len() - i,
    {
        let node = &tree.nodes[i];
        let ghost so_far = opaque_reports(*tree, file, tree.nodes@.take(i as int));
        let ghost one = opaque_report(*tree, file, *node);
        proof {
            assert(tree.nodes@.take(i + 1).drop_last() =~= tree.nodes@.take(i as int));
            assert(tree.node_wf(i as int, tree.nodes@[i as int]));
        }
        report_opaque(tree, rel_path, node, out);
        assert((before + so_far) + one =~= before + (so_far + one));
        i += 1;
    }
    assert(tree.nodes@.take(i as int) =~= tree.nodes@);
}

} // verus!

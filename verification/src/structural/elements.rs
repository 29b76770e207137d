//! What the checks on HTML find.
use vstd::prelude::*;
use crate::block::{Attribute, ElementKind, Node, OpenTag, Syntax, Tree};
use crate::diagnostic;
use crate::diagnostic::{DiagView, Severity};
use crate::fm::Exceptions;
use crate::lines;
use crate::structural::html;
use crate::structural::quality;
use crate::structural::references::SceneView;
use crate::text;

verus! {

/// Whether a node is an HTML element with a tag: the tag on the first line of an
/// HTML block, and the tag of the element else.
pub open spec fn has_tag(tree: Tree, i: int, tag: OpenTag) -> bool {
    &&& 0 <= i < tree.nodes@.len()
    &&& if tree.nodes@[i].kind is HtmlBlock {
        tree.nodes@[i].line_tag == Some(tag)
    } else {
        tree.nodes@[i].syntax == Syntax::Html && tree.nodes@[i].tag == Some(tag)
    }
}

proof fn lemma_elements(tree: Tree, file: Seq<u8>, nodes: Seq<Node>, i: int, d: DiagView)
    requires
        0 <= i < nodes.len(),
        html::element_report(tree, file, nodes[i], html::ids_of(tree, nodes.take(i))).contains(d),
    ensures
        html::element_reports(tree, file, nodes).contains(d),
    decreases nodes.len(),
{
    let most = nodes.drop_last();
    if i < nodes.len() - 1 {
        assert(most[i] == nodes[i]);
        assert(most.take(i) =~= nodes.take(i));
        lemma_elements(tree, file, most, i, d);
    } else {
        assert(nodes.take(i) =~= most);
    }
    diagnostic::lemma_either(
        html::element_reports(tree, file, most),
        html::element_report(tree, file, nodes.last(), html::ids_of(tree, most)),
        d,
    );
}

proof fn lemma_element(
    tree: Tree,
    scene: SceneView,
    exceptions: Exceptions,
    metadata: Seq<DiagView>,
    i: int,
    tag: OpenTag,
    d: DiagView,
)
    requires
        has_tag(tree, i, tag),
        ({
            let file = scene.file;
            let node = tree.nodes@[i];
            let seen = html::ids_of(tree, tree.nodes@.take(i));
            ||| html::tag_report(tree, file, node, tag).contains(d)
            ||| html::id_reports(tree, file, node, seen, tag.attrs@).contains(d)
            ||| html::attr_report(tree, file, node, tag).contains(d)
            ||| html::block_report(tree, file, node, tag).contains(d)
            ||| html::parent_report(tree, file, node, tag).contains(d)
        }),
    ensures
        quality::is_reported(tree, scene, exceptions, metadata, d),
{
    reveal(html::element_report);
    let file = scene.file;
    let node = tree.nodes@[i];
    let seen = html::ids_of(tree, tree.nodes@.take(i));
    let a = html::tag_report(tree, file, node, tag);
    let b = html::id_reports(tree, file, node, seen, tag.attrs@);
    let c = html::attr_report(tree, file, node, tag);
    let e = html::block_report(tree, file, node, tag);
    let f = html::parent_report(tree, file, node, tag);
    diagnostic::lemma_either(a, b, d);
    diagnostic::lemma_either(a + b, c, d);
    diagnostic::lemma_either(a + b + c, e, d);
    diagnostic::lemma_either(a + b + c + e, f, d);
    assert(html::element_report(tree, file, node, seen) == a + b + c + e + f);
    lemma_elements(tree, file, tree.nodes@, i, d);
    quality::lemma_late(tree, scene, exceptions, metadata, d);
}

// Tags.

/// A tag that closes itself though its element has content is reported.
pub proof fn law_self_closing_tags_are_reported(
    tree: Tree,
    scene: SceneView,
    exceptions: Exceptions,
    metadata: Seq<DiagView>,
    i: int,
    tag: OpenTag,
)
    requires
        has_tag(tree, i, tag),
        tag.self_closing,
        !tag.is_void,
    ensures
        quality::is_reported(
            tree,
            scene,
            exceptions,
            metadata,
            quality::finding_at(
                tree,
                scene,
                tree.nodes@[i],
                Severity::Warning,
                text::utf8("self-closing non-void tag `<"@) + text::utf8(tag.name@) + text::utf8(
                    "/>`"@,
                ),
            ),
        ),
{
    let d = quality::finding_at(
        tree,
        scene,
        tree.nodes@[i],
        Severity::Warning,
        text::utf8("self-closing non-void tag `<"@) + text::utf8(tag.name@) + text::utf8("/>`"@),
    );
    assert(html::tag_report(tree, scene.file, tree.nodes@[i], tag)[0] == d);
    lemma_element(tree, scene, exceptions, metadata, i, tag, d);
}

/// An element that HTML does not know is reported.
pub proof fn law_unknown_elements_are_reported(
    tree: Tree,
    scene: SceneView,
    exceptions: Exceptions,
    metadata: Seq<DiagView>,
    i: int,
    tag: OpenTag,
)
    requires
        has_tag(tree, i, tag),
        !tag.is_known,
    ensures
        quality::is_reported(
            tree,
            scene,
            exceptions,
            metadata,
            quality::finding_at(
                tree,
                scene,
                tree.nodes@[i],
                Severity::Info,
                text::utf8("unknown HTML element `<"@) + text::utf8(tag.name@) + text::utf8(">`"@),
            ),
        ),
{
    let d = quality::finding_at(
        tree,
        scene,
        tree.nodes@[i],
        Severity::Info,
        text::utf8("unknown HTML element `<"@) + text::utf8(tag.name@) + text::utf8(">`"@),
    );
    let list = html::tag_report(tree, scene.file, tree.nodes@[i], tag);
    assert(list[list.len() - 1] == d);
    lemma_element(tree, scene, exceptions, metadata, i, tag, d);
}

/// A tag that neither closes itself without reason nor is unknown gives rise to
/// nothing by itself.
pub proof fn law_plain_tags_pass(tree: Tree, file: Seq<u8>, node: Node, tag: OpenTag)
    requires
        tag.is_known,
        !tag.self_closing || tag.is_void,
    ensures
        html::tag_report(tree, file, node, tag).len() == 0,
{
}

// Attributes.

/// Whether a tag has an attribute of a name.
pub open spec fn has_attribute(tag: OpenTag, name: Seq<char>) -> bool {
    exists|k: int| 0 <= k < tag.attrs@.len() && (#[trigger] tag.attrs@[k]).name@ == name
}

proof fn lemma_attribute(tag: OpenTag, name: Seq<char>)
    ensures
        html::has_attr(tag.attrs@, text::utf8(name)) == has_attribute(tag, name),
{
    if html::has_attr(tag.attrs@, text::utf8(name)) {
        let k = choose|k: int|
            0 <= k < tag.attrs@.len() && text::utf8((#[trigger] tag.attrs@[k]).name@) == text::utf8(
                name,
            );
        text::lemma_utf8_injective(tag.attrs@[k].name@, name);
    }
    if has_attribute(tag, name) {
        let k = choose|k: int| 0 <= k < tag.attrs@.len() && (#[trigger] tag.attrs@[k]).name@ == name;
        assert(text::utf8(tag.attrs@[k].name@) == text::utf8(name));
    }
}

/// Whether an element lacks an attribute that it has to have: an image a text in its
/// place, and an anchor that is no target of links itself, the target of its link.
pub open spec fn lacks(tag: OpenTag, name: Seq<char>) -> bool {
    &&& !has_attribute(tag, name)
    &&& {
        ||| tag.name@ == "img"@ && name == "alt"@
        ||| tag.name@ == "a"@ && name == "href"@ && !has_attribute(tag, "id"@) && !has_attribute(
            tag,
            "name"@,
        )
    }
}

/// What an element lacks is reported, on its line.
pub proof fn law_missing_attributes_are_reported(
    tree: Tree,
    scene: SceneView,
    exceptions: Exceptions,
    metadata: Seq<DiagView>,
    i: int,
    tag: OpenTag,
    name: Seq<char>,
)
    requires
        has_tag(tree, i, tag),
        lacks(tag, name),
    ensures
        quality::is_reported(
            tree,
            scene,
            exceptions,
            metadata,
            DiagView {
                file: scene.file,
                line: lines::line_of(tree.text(), tree.nodes@[i].span.start as int),
                severity: Severity::Warning,
                message: text::utf8("`<"@) + text::utf8(tag.name@) + text::utf8(
                    ">` missing required attribute `"@,
                ) + text::utf8(name) + text::utf8("`"@),
                span: None,
            },
        ),
{
    let d = DiagView {
        file: scene.file,
        line: lines::line_of(tree.text(), tree.nodes@[i].span.start as int),
        severity: Severity::Warning,
        message: text::utf8("`<"@) + text::utf8(tag.name@) + text::utf8(
            ">` missing required attribute `"@,
        ) + text::utf8(name) + text::utf8("`"@),
        span: None,
    };
    reveal_strlit("img");
    reveal_strlit("a");
    lemma_attribute(tag, name);
    lemma_attribute(tag, "id"@);
    lemma_attribute(tag, "name"@);
    if tag.name@ == "a"@ && text::utf8("a"@) == text::utf8("img"@) {
        text::lemma_utf8_injective("a"@, "img"@);
    }
    assert(html::attr_report(tree, scene.file, tree.nodes@[i], tag)[0] == d);
    lemma_element(tree, scene, exceptions, metadata, i, tag, d);
}

/// An element that lacks nothing passes.
pub proof fn law_complete_elements_pass(tree: Tree, file: Seq<u8>, node: Node, tag: OpenTag)
    requires
        !lacks(tag, "alt"@),
        !lacks(tag, "href"@),
    ensures
        html::attr_report(tree, file, node, tag).len() == 0,
{
    lemma_attribute(tag, "alt"@);
    lemma_attribute(tag, "href"@);
    lemma_attribute(tag, "id"@);
    lemma_attribute(tag, "name"@);
    if text::utf8(tag.name@) == text::utf8("img"@) {
        text::lemma_utf8_injective(tag.name@, "img"@);
    }
    if text::utf8(tag.name@) == text::utf8("a"@) {
        text::lemma_utf8_injective(tag.name@, "a"@);
    }
}

// Identifiers.

/// Whether an attribute gives an identifier.
pub open spec fn gives_id(attr: Attribute, id: Seq<char>) -> bool {
    &&& attr.name@ == "id"@
    &&& attr.value matches Some(v) && v@ == id
    &&& id.len() > 0
}

/// Whether a node is an HTML element with an identifier.
pub open spec fn has_id(tree: Tree, i: int, id: Seq<char>) -> bool {
    exists|tag: OpenTag, k: int|
        #![trigger has_tag(tree, i, tag), tag.attrs@[k]]
        has_tag(tree, i, tag) && 0 <= k < tag.attrs@.len() && gives_id(tag.attrs@[k], id)
}

proof fn lemma_gives(attr: Attribute, id: Seq<char>)
    ensures
        (html::id_of(attr) == Some(text::utf8(id))) == gives_id(attr, id),
{
    if html::id_of(attr) == Some(text::utf8(id)) {
        text::lemma_utf8_injective(attr.name@, "id"@);
        text::lemma_utf8_injective(attr.value->0@, id);
    }
}

proof fn lemma_ids_after(
    seen: Map<Seq<u8>, usize>,
    line: usize,
    attrs: Seq<Attribute>,
    id: Seq<char>,
)
    ensures
        ({
            let key = text::utf8(id);
            let after = html::ids_after(seen, line, attrs);
            &&& after.contains_key(key) == (seen.contains_key(key) || exists|k: int|
                0 <= k < attrs.len() && gives_id(#[trigger] attrs[k], id))
            &&& seen.contains_key(key) ==> after[key] == seen[key]
            &&& !seen.contains_key(key) && after.contains_key(key) ==> after[key] == line
        }),
    decreases attrs.len(),
{
    if attrs.len() > 0 {
        let most = attrs.drop_last();
        lemma_ids_after(seen, line, most, id);
        lemma_gives(attrs.last(), id);
        if exists|k: int| 0 <= k < most.len() && gives_id(#[trigger] most[k], id) {
            let k = choose|k: int| 0 <= k < most.len() && gives_id(#[trigger] most[k], id);
            assert(attrs[k] == most[k]);
        }
        if exists|k: int| 0 <= k < attrs.len() && gives_id(#[trigger] attrs[k], id) {
            let k = choose|k: int| 0 <= k < attrs.len() && gives_id(#[trigger] attrs[k], id);
            if k < most.len() {
                assert(most[k] == attrs[k]);
            }
        }
        if gives_id(attrs.last(), id) {
            assert(gives_id(attrs[attrs.len() - 1], id));
        }
    }
}

proof fn lemma_ids_of(tree: Tree, n: int, j: int, id: Seq<char>)
    requires
        0 <= n <= tree.nodes@.len(),
        has_id(tree, j, id),
        forall|k: int| 0 <= k < j ==> !#[trigger] has_id(tree, k, id),
    ensures
        ({
            let key = text::utf8(id);
            let ids = html::ids_of(tree, tree.nodes@.take(n));
            &&& ids.contains_key(key) == (j < n)
            &&& j < n ==> ids[key] == html::node_line(tree, tree.nodes@[j])
        }),
    decreases n,
{
    if n > 0 {
        let nodes = tree.nodes@.take(n);
        let most = nodes.drop_last();
        assert(most =~= tree.nodes@.take(n - 1));
        assert(nodes.last() == tree.nodes@[n - 1]);
        lemma_ids_of(tree, n - 1, j, id);
        let so_far = html::ids_of(tree, most);
        match html::own_tag(nodes.last()) {
            Some(tag) if html::is_html(nodes.last()) => {
                lemma_ids_after(so_far, html::node_line(tree, nodes.last()), tag.attrs@, id);
                assert(has_tag(tree, n - 1, tag));
                assert(has_id(tree, n - 1, id) == exists|k: int|
                    0 <= k < tag.attrs@.len() && gives_id(#[trigger] tag.attrs@[k], id)) by {
                    if exists|k: int|
                        0 <= k < tag.attrs@.len() && gives_id(#[trigger] tag.attrs@[k], id) {
                        let k = choose|k: int|
                            0 <= k < tag.attrs@.len() && gives_id(#[trigger] tag.attrs@[k], id);
                        let x = tag.attrs@[k];
                        assert(has_id(tree, n - 1, id));
                    }
                }
                if n - 1 < j {
                    assert(!has_id(tree, n - 1, id));
                }
            },
            _ => {
                assert(!has_id(tree, n - 1, id));
            },
        }
    }
}

proof fn lemma_id_report(
    tree: Tree,
    file: Seq<u8>,
    node: Node,
    seen: Map<Seq<u8>, usize>,
    attrs: Seq<Attribute>,
    k: int,
    id: Seq<char>,
    d: DiagView,
)
    requires
        0 <= k < attrs.len(),
        gives_id(attrs[k], id),
        seen.contains_key(text::utf8(id)),
        d == (DiagView {
            file,
            line: lines::line_of(tree.text(), node.span.start as int),
            severity: Severity::Error,
            message: text::utf8("duplicate `id` attribute `"@) + text::utf8(id) + text::utf8(
                "` (first at line "@,
            ) + text::decimal(seen[text::utf8(id)] as nat) + text::utf8(")"@),
            span: Some(node.span),
        }),
    ensures
        html::id_reports(tree, file, node, seen, attrs).contains(d),
    decreases attrs.len(),
{
    let most = attrs.drop_last();
    let before = html::id_reports(tree, file, node, seen, most);
    let so_far = html::ids_after(seen, html::node_line(tree, node), most);
    let one = match html::id_of(attrs.last()) {
        Some(id) if so_far.contains_key(id) => seq![
            crate::structural::content::at_node(
                tree,
                file,
                node,
                Severity::Error,
                html::duplicate_id_message(id, so_far[id] as nat),
            ),
        ],
        _ => Seq::empty(),
    };
    if k < attrs.len() - 1 {
        assert(most[k] == attrs[k]);
        lemma_id_report(tree, file, node, seen, most, k, id, d);
    } else {
        lemma_gives(attrs[k], id);
        lemma_ids_after(seen, html::node_line(tree, node), most, id);
        assert(one[0] == d);
    }
    diagnostic::lemma_either(before, one, d);
    assert(html::id_reports(tree, file, node, seen, attrs) == before + one);
}

/// An identifier that an earlier element has is reported, with the line of the first
/// element that has it.
pub proof fn law_taken_identifiers_are_reported(
    tree: Tree,
    scene: SceneView,
    exceptions: Exceptions,
    metadata: Seq<DiagView>,
    j: int,
    i: int,
    id: Seq<char>,
)
    requires
        tree.wf(),
        has_id(tree, j, id),
        has_id(tree, i, id),
        0 <= j < i,
        forall|k: int| 0 <= k < j ==> !#[trigger] has_id(tree, k, id),
    ensures
        quality::is_reported(
            tree,
            scene,
            exceptions,
            metadata,
            quality::finding_at(
                tree,
                scene,
                tree.nodes@[i],
                Severity::Error,
                text::utf8("duplicate `id` attribute `"@) + text::utf8(id) + text::utf8(
                    "` (first at line "@,
                ) + text::decimal(
                    lines::line_of(tree.text(), tree.nodes@[j].span.start as int),
                ) + text::utf8(")"@),
            ),
        ),
{
    let (tag, k) = choose|tag: OpenTag, k: int|
        #![trigger has_tag(tree, i, tag), tag.attrs@[k]]
        has_tag(tree, i, tag) && 0 <= k < tag.attrs@.len() && gives_id(tag.attrs@[k], id);
    let line = lines::line_of(tree.text(), tree.nodes@[j].span.start as int);
    let d = quality::finding_at(
        tree,
        scene,
        tree.nodes@[i],
        Severity::Error,
        text::utf8("duplicate `id` attribute `"@) + text::utf8(id) + text::utf8(
            "` (first at line "@,
        ) + text::decimal(line) + text::utf8(")"@),
    );
    let seen = html::ids_of(tree, tree.nodes@.take(i));
    lemma_ids_of(tree, i, j, id);
    assert(tree.node_wf(j, tree.nodes@[j]));
    lines::lemma_line_feeds_bound(tree.text(), tree.nodes@[j].span.start as int);
    lemma_id_report(
        tree,
        scene.file,
        tree.nodes@[i],
        seen,
        tag.attrs@,
        k,
        id,
        d,
    );
    lemma_element(tree, scene, exceptions, metadata, i, tag, d);
}

// Elements around elements.

/// Whether a list of nodes leads upward from a node: first its parent, then the
/// parent of that, and so on.
pub open spec fn leads_up(tree: Tree, i: int, chain: Seq<int>) -> bool {
    &&& forall|k: int| 0 <= k < chain.len() ==> 0 <= #[trigger] chain[k] < tree.nodes@.len()
    &&& chain.len() > 0 ==> tree.nodes@[i].parent == Some(chain[0] as usize)
    &&& forall|j: int, k: int|
        #![trigger chain[j], chain[k]]
        0 <= j && k == j + 1 && k < chain.len() ==> tree.nodes@[chain[j]].parent == Some(
            chain[k] as usize,
        )
}

/// Whether a node is an inline element of HTML that has content, of a name.
pub open spec fn is_inline(node: Node, name: Seq<char>) -> bool {
    &&& node.syntax == Syntax::Html
    &&& node.tag matches Some(tag) && !tag.is_block && !tag.is_void && tag.name@ == name
}

/// Whether a node is an inline element of HTML that has content.
pub open spec fn is_some_inline(node: Node) -> bool {
    node.syntax == Syntax::Html && (node.tag matches Some(tag) && !tag.is_block && !tag.is_void)
}

proof fn lemma_up(tree: Tree, i: int, chain: Seq<int>)
    requires
        leads_up(tree, i, chain),
        chain.len() > 0,
    ensures
        0 <= chain[0] < tree.nodes@.len(),
        tree.nodes@[i].parent == Some(chain[0] as usize),
        chain[0] as usize == chain[0],
        leads_up(tree, chain[0], chain.drop_first()),
{
    let rest = chain.drop_first();
    assert(tree.nodes.len() == tree.nodes@.len());
    assert forall|k: int| 0 <= k < rest.len() implies 0 <= #[trigger] rest[k]
        < tree.nodes@.len() by {
        assert(rest[k] == chain[k + 1]);
    }
    if rest.len() > 0 {
        assert(rest[0] == chain[1]);
        assert(tree.nodes@[chain[0]].parent == Some(chain[1] as usize));
    }
    assert forall|j: int, k: int|
        #![trigger rest[j], rest[k]]
        0 <= j && k == j + 1 && k < rest.len() implies tree.nodes@[rest[j]].parent == Some(
        rest[k] as usize,
    ) by {
        assert(rest[j] == chain[j + 1] && rest[k] == chain[k + 1]);
    }
}

proof fn lemma_inline_around(tree: Tree, i: int, chain: Seq<int>, name: Seq<char>)
    requires
        tree.wf(),
        0 <= i < tree.nodes@.len(),
        leads_up(tree, i, chain),
        chain.len() > 0,
        is_inline(tree.nodes@[chain.last()], name),
        forall|k: int|
            0 <= k < chain.len() - 1 ==> !is_some_inline(tree.nodes@[#[trigger] chain[k]]),
    ensures
        html::inline_around(tree, tree.nodes@[i].parent) == Some(text::utf8(name)),
    decreases chain.len(),
{
    lemma_up(tree, i, chain);
    let p = chain[0];
    assert(tree.node_wf(p, tree.nodes@[p]));
    if chain.len() > 1 {
        let rest = chain.drop_first();
        assert(!is_some_inline(tree.nodes@[chain[0]]));
        assert(rest.last() == chain.last());
        assert forall|k: int| 0 <= k < rest.len() - 1 implies !is_some_inline(
            tree.nodes@[#[trigger] rest[k]],
        ) by {
            assert(rest[k] == chain[k + 1]);
        }
        lemma_inline_around(tree, p, rest, name);
        assert(rest[0] == chain[1]);
        lemma_up(tree, p, rest);
    }
}

/// A block element inside an inline one, at whatever depth, is reported, with the
/// nearest inline element around it.
pub proof fn law_blocks_inside_inline_elements_are_reported(
    tree: Tree,
    scene: SceneView,
    exceptions: Exceptions,
    metadata: Seq<DiagView>,
    i: int,
    tag: OpenTag,
    chain: Seq<int>,
    name: Seq<char>,
)
    requires
        tree.wf(),
        has_tag(tree, i, tag),
        tag.is_block,
        leads_up(tree, i, chain),
        chain.len() > 0,
        is_inline(tree.nodes@[chain.last()], name),
        forall|k: int|
            0 <= k < chain.len() - 1 ==> !is_some_inline(tree.nodes@[#[trigger] chain[k]]),
    ensures
        quality::is_reported(
            tree,
            scene,
            exceptions,
            metadata,
            quality::finding_at(
                tree,
                scene,
                tree.nodes@[i],
                Severity::Error,
                text::utf8("block element `<"@) + text::utf8(tag.name@) + text::utf8(
                    ">` inside inline element `<"@,
                ) + text::utf8(name) + text::utf8(">`"@),
            ),
        ),
{
    let d = quality::finding_at(
        tree,
        scene,
        tree.nodes@[i],
        Severity::Error,
        text::utf8("block element `<"@) + text::utf8(tag.name@) + text::utf8(
            ">` inside inline element `<"@,
        ) + text::utf8(name) + text::utf8(">`"@),
    );
    lemma_inline_around(tree, i, chain, name);
    assert(html::block_report(tree, scene.file, tree.nodes@[i], tag)[0] == d);
    lemma_element(tree, scene, exceptions, metadata, i, tag, d);
}

/// Whether a node is an element of a name: by its tag where it is HTML, and tables,
/// lists and disclosures of markdown by what they are rendered as.
pub open spec fn is_element(node: Node, name: Seq<char>) -> bool {
    ||| node.syntax == Syntax::Html && (node.tag matches Some(tag) && tag.name@ == name)
    ||| node.kind is Table && name == "table"@
    ||| node.kind == (ElementKind::List { ordered: true }) && name == "ol"@
    ||| node.kind == (ElementKind::List { ordered: false }) && name == "ul"@
    ||| node.kind is Details && name == "details"@
}

/// Whether an element belongs inside one of a name.
pub open spec fn belongs_in(name: Seq<char>, outer: Seq<char>) -> bool {
    ||| outer == "table"@ && (name == "tr"@ || name == "thead"@ || name == "tbody"@ || name
        == "tfoot"@ || name == "caption"@ || name == "colgroup"@ || name == "col"@ || name == "td"@
        || name == "th"@)
    ||| outer == "tr"@ && (name == "td"@ || name == "th"@)
    ||| (outer == "ul"@ || outer == "ol"@ || outer == "menu"@) && name == "li"@
    ||| outer == "details"@ && name == "summary"@
    ||| (outer == "select"@ || outer == "datalist"@) && (name == "option"@ || name == "optgroup"@)
}

proof fn lemma_is_element(node: Node, name: Seq<char>)
    ensures
        html::stands_for(node, text::utf8(name)) == is_element(node, name),
{
    if html::stands_for(node, text::utf8(name)) {
        if node.tag is Some && text::utf8(node.tag->0.name@) == text::utf8(name) {
            text::lemma_utf8_injective(node.tag->0.name@, name);
        }
        if text::utf8(name) == text::utf8("table"@) {
            text::lemma_utf8_injective(name, "table"@);
        }
        if text::utf8(name) == text::utf8("ol"@) {
            text::lemma_utf8_injective(name, "ol"@);
        }
        if text::utf8(name) == text::utf8("ul"@) {
            text::lemma_utf8_injective(name, "ul"@);
        }
        if text::utf8(name) == text::utf8("details"@) {
            text::lemma_utf8_injective(name, "details"@);
        }
    }
}

proof fn lemma_parent_found(
    tree: Tree,
    i: int,
    chain: Seq<int>,
    list: Seq<Seq<u8>>,
)
    requires
        tree.wf(),
        0 <= i < tree.nodes@.len(),
        leads_up(tree, i, chain),
        chain.len() > 0,
        html::stands_for_any(tree.nodes@[chain.last()], list),
    ensures
        html::parent_found(tree, tree.nodes@[i].parent, list),
    decreases chain.len(),
{
    lemma_up(tree, i, chain);
    let p = chain[0];
    assert(tree.node_wf(p, tree.nodes@[p]));
    if chain.len() > 1 {
        let rest = chain.drop_first();
        assert(rest.last() == chain.last());
        lemma_parent_found(tree, p, rest, list);
        lemma_up(tree, p, rest);
    }
}

proof fn lemma_no_parent(tree: Tree, i: int, chain: Seq<int>, list: Seq<Seq<u8>>)
    requires
        tree.wf(),
        0 <= i < tree.nodes@.len(),
        leads_up(tree, i, chain),
        (if chain.len() == 0 {
            tree.nodes@[i]
        } else {
            tree.nodes@[chain.last()]
        }).parent is None,
        forall|k: int|
            0 <= k < chain.len() ==> !html::stands_for_any(tree.nodes@[#[trigger] chain[k]], list),
    ensures
        !html::parent_found(tree, tree.nodes@[i].parent, list),
    decreases chain.len(),
{
    if chain.len() > 0 {
        lemma_up(tree, i, chain);
        let p = chain[0];
        let rest = chain.drop_first();
        assert(tree.node_wf(p, tree.nodes@[p]));
        assert(!html::stands_for_any(tree.nodes@[chain[0]], list));
        if rest.len() > 0 {
            assert(rest.last() == chain.last());
        }
        assert forall|k: int| 0 <= k < rest.len() implies !html::stands_for_any(
            tree.nodes@[#[trigger] rest[k]],
            list,
        ) by {
            assert(rest[k] == chain[k + 1]);
        }
        lemma_no_parent(tree, p, rest, list);
    }
}

/// Which elements are asked for.
proof fn lemma_required(name: Seq<char>, outer: Seq<char>)
    ensures
        html::required_parents(text::utf8(name)).contains(text::utf8(outer)) == belongs_in(
            name,
            outer,
        ),
{
    let list = html::required_parents(text::utf8(name));
    lemma_names_told_apart(name);
    lemma_names_told_apart(outer);
    let o = text::utf8(outer);
    if list.len() == 1 {
        assert(list.contains(o) == (list[0] == o)) by {
            if list.contains(o) {
                let k = choose|k: int| 0 <= k < list.len() && list[k] == o;
            }
        }
    } else if list.len() == 2 {
        assert(list.contains(o) == (list[0] == o || list[1] == o)) by {
            if list.contains(o) {
                let k = choose|k: int| 0 <= k < list.len() && list[k] == o;
            }
        }
    } else if list.len() == 3 {
        assert(list.contains(o) == (list[0] == o || list[1] == o || list[2] == o)) by {
            if list.contains(o) {
                let k = choose|k: int| 0 <= k < list.len() && list[k] == o;
            }
        }
    }
    lemma_inner_names();
}

proof fn lemma_told_apart(a: Seq<char>, b: Seq<char>)
    ensures
        (text::utf8(a) == text::utf8(b)) == (a == b),
{
    if text::utf8(a) == text::utf8(b) {
        text::lemma_utf8_injective(a, b);
    }
}

proof fn lemma_names_told_apart(name: Seq<char>)
    ensures
        (text::utf8(name) == text::utf8("tr"@)) == (name == "tr"@),
        (text::utf8(name) == text::utf8("thead"@)) == (name == "thead"@),
        (text::utf8(name) == text::utf8("tbody"@)) == (name == "tbody"@),
        (text::utf8(name) == text::utf8("tfoot"@)) == (name == "tfoot"@),
        (text::utf8(name) == text::utf8("caption"@)) == (name == "caption"@),
        (text::utf8(name) == text::utf8("colgroup"@)) == (name == "colgroup"@),
        (text::utf8(name) == text::utf8("col"@)) == (name == "col"@),
        (text::utf8(name) == text::utf8("td"@)) == (name == "td"@),
        (text::utf8(name) == text::utf8("th"@)) == (name == "th"@),
        (text::utf8(name) == text::utf8("li"@)) == (name == "li"@),
        (text::utf8(name) == text::utf8("summary"@)) == (name == "summary"@),
        (text::utf8(name) == text::utf8("option"@)) == (name == "option"@),
        (text::utf8(name) == text::utf8("optgroup"@)) == (name == "optgroup"@),
        (text::utf8(name) == text::utf8("table"@)) == (name == "table"@),
        (text::utf8(name) == text::utf8("ul"@)) == (name == "ul"@),
        (text::utf8(name) == text::utf8("ol"@)) == (name == "ol"@),
        (text::utf8(name) == text::utf8("menu"@)) == (name == "menu"@),
        (text::utf8(name) == text::utf8("details"@)) == (name == "details"@),
        (text::utf8(name) == text::utf8("select"@)) == (name == "select"@),
        (text::utf8(name) == text::utf8("datalist"@)) == (name == "datalist"@),
{
    lemma_told_apart(name, "tr"@);
    lemma_told_apart(name, "thead"@);
    lemma_told_apart(name, "tbody"@);
    lemma_told_apart(name, "tfoot"@);
    lemma_told_apart(name, "caption"@);
    lemma_told_apart(name, "colgroup"@);
    lemma_told_apart(name, "col"@);
    lemma_told_apart(name, "td"@);
    lemma_told_apart(name, "th"@);
    lemma_told_apart(name, "li"@);
    lemma_told_apart(name, "summary"@);
    lemma_told_apart(name, "option"@);
    lemma_told_apart(name, "optgroup"@);
    lemma_told_apart(name, "table"@);
    lemma_told_apart(name, "ul"@);
    lemma_told_apart(name, "ol"@);
    lemma_told_apart(name, "menu"@);
    lemma_told_apart(name, "details"@);
    lemma_told_apart(name, "select"@);
    lemma_told_apart(name, "datalist"@);
}

/// The names of elements that belong somewhere differ in their first letters or in
/// their lengths.
proof fn lemma_inner_names()
    ensures
        "td"@ != "tr"@ && "th"@ != "tr"@ && "td"@ != "thead"@ && "th"@ != "thead"@,
        "td"@ != "tbody"@ && "th"@ != "tbody"@ && "td"@ != "tfoot"@ && "th"@ != "tfoot"@,
        "li"@[0] == 'l' && "summary"@[0] == 's' && "option"@[0] == 'o' && "optgroup"@[0] == 'o',
        "tr"@[0] == 't' && "td"@[0] == 't' && "th"@[0] == 't' && "thead"@[0] == 't',
        "tbody"@[0] == 't' && "tfoot"@[0] == 't',
        "caption"@[0] == 'c' && "colgroup"@[0] == 'c' && "col"@[0] == 'c',
{
    reveal_strlit("td");
    reveal_strlit("th");
    reveal_strlit("tr");
    reveal_strlit("thead");
    reveal_strlit("tbody");
    reveal_strlit("tfoot");
    reveal_strlit("caption");
    reveal_strlit("colgroup");
    reveal_strlit("col");
    reveal_strlit("li");
    reveal_strlit("summary");
    reveal_strlit("option");
    reveal_strlit("optgroup");
    assert("td"@[1] == 'd' && "th"@[1] == 'h' && "tr"@[1] == 'r');
    assert("td"@.len() == 2 && "th"@.len() == 2);
    assert("thead"@.len() == 5 && "tbody"@.len() == 5 && "tfoot"@.len() == 5);
}

/// An element that belongs inside others is reported where no node above it, up to
/// the top, is one of those.
pub proof fn law_misplaced_elements_are_reported(
    tree: Tree,
    scene: SceneView,
    exceptions: Exceptions,
    metadata: Seq<DiagView>,
    i: int,
    tag: OpenTag,
    chain: Seq<int>,
    outer: Seq<char>,
) -> (d: DiagView)
    requires
        tree.wf(),
        has_tag(tree, i, tag),
        belongs_in(tag.name@, outer),
        leads_up(tree, i, chain),
        (if chain.len() == 0 {
            tree.nodes@[i]
        } else {
            tree.nodes@[chain.last()]
        }).parent is None,
        forall|k: int, other: Seq<char>|
            #![trigger chain[k], belongs_in(tag.name@, other)]
            0 <= k < chain.len() && belongs_in(tag.name@, other) ==> !is_element(
                tree.nodes@[chain[k]],
                other,
            ),
    ensures
        quality::is_reported(tree, scene, exceptions, metadata, d),
        d.file == scene.file,
        d.line == lines::line_of(tree.text(), tree.nodes@[i].span.start as int),
        d.severity == Severity::Error,
        d.span == Some(tree.nodes@[i].span),
        text::has_prefix(
            d.message,
            text::utf8("`<"@) + text::utf8(tag.name@) + text::utf8(">` requires parent "@),
        ),
{
    let node = tree.nodes@[i];
    let list = html::required_parents(text::utf8(tag.name@));
    lemma_required(tag.name@, outer);
    assert forall|k: int| 0 <= k < chain.len() implies !html::stands_for_any(
        tree.nodes@[#[trigger] chain[k]],
        list,
    ) by {
        let above = tree.nodes@[chain[k]];
        if html::stands_for_any(above, list) {
            let x = choose|x: int| 0 <= x < list.len() && html::stands_for(above, #[trigger] list[x]);
            let other = lemma_some_name(tag.name@, x);
            assert(list.contains(list[x]));
            lemma_required(tag.name@, other);
            lemma_is_element(above, other);
        }
    }
    lemma_no_parent(tree, i, chain, list);
    let head = text::utf8("`<"@) + text::utf8(tag.name@) + text::utf8(">` requires parent "@);
    let d = quality::finding_at(
        tree,
        scene,
        node,
        Severity::Error,
        head + html::alternatives(list),
    );
    assert(html::parent_report(tree, scene.file, node, tag)[0] == d);
    lemma_element(tree, scene, exceptions, metadata, i, tag, d);
    assert(d.message.subrange(0, head.len() as int) =~= head);
    d
}

proof fn lemma_some_name(name: Seq<char>, x: int) -> (other: Seq<char>)
    requires
        0 <= x < html::required_parents(text::utf8(name)).len(),
    ensures
        html::required_parents(text::utf8(name))[x] == text::utf8(other),
{
    let o = html::required_parents(text::utf8(name))[x];
    if o == text::utf8("table"@) {
        "table"@
    } else if o == text::utf8("tr"@) {
        "tr"@
    } else if o == text::utf8("ul"@) {
        "ul"@
    } else if o == text::utf8("ol"@) {
        "ol"@
    } else if o == text::utf8("menu"@) {
        "menu"@
    } else if o == text::utf8("details"@) {
        "details"@
    } else if o == text::utf8("select"@) {
        "select"@
    } else {
        "datalist"@
    }
}

/// An element with one of those above it, at whatever height, passes.
pub proof fn law_placed_elements_pass(
    tree: Tree,
    file: Seq<u8>,
    i: int,
    tag: OpenTag,
    chain: Seq<int>,
    outer: Seq<char>,
)
    requires
        tree.wf(),
        0 <= i < tree.nodes@.len(),
        belongs_in(tag.name@, outer),
        leads_up(tree, i, chain),
        chain.len() > 0,
        is_element(tree.nodes@[chain.last()], outer),
    ensures
        html::parent_report(tree, file, tree.nodes@[i], tag).len() == 0,
{
    let list = html::required_parents(text::utf8(tag.name@));
    lemma_required(tag.name@, outer);
    lemma_is_element(tree.nodes@[chain.last()], outer);
    let k = choose|k: int| 0 <= k < list.len() && list[k] == text::utf8(outer);
    assert(html::stands_for(tree.nodes@[chain.last()], list[k]));
    lemma_parent_found(tree, i, chain, list);
}

// Markdown in HTML.

/// Whether a text is made of white space and visible ASCII characters.
pub open spec fn is_printed(b: Seq<u8>) -> bool {
    forall|i: int| 0 <= i < b.len() ==> lines::is_white(#[trigger] b[i]) || 33 <= b[i] <= 126
}

/// Whether the first visible character of a stretch stands at an offset.
pub open spec fn first_visible(b: Seq<u8>, from: int, to: int, at: int) -> bool {
    &&& 0 <= from <= at < to <= b.len()
    &&& lines::white_between(b, from, at)
    &&& 33 <= b[at] <= 126
}

/// Whether `](` stands somewhere in a stretch.
pub open spec fn has_link_mark(b: Seq<u8>, from: int, to: int) -> bool {
    exists|k: int| from <= k && k + 1 < to && #[trigger] b[k] == 93 && b[k + 1] == 40
}

/// Whether a stretch with its first visible character at an offset has the marks of
/// a heading, of a list item or of a link.
pub open spec fn has_marks(b: Seq<u8>, from: int, to: int, at: int) -> bool {
    ||| b[at] == 35
    ||| (b[at] == 45 || b[at] == 42) && at + 1 < to && b[at + 1] == 32 && exists|k: int|
        at + 1 < k < to && 33 <= #[trigger] b[k] <= 126
    ||| has_link_mark(b, from, to)
}

/// The last visible character of a stretch.
proof fn lemma_last_visible(b: Seq<u8>, from: int, to: int, at: int) -> (last: int)
    requires
        is_printed(b),
        0 <= from <= at < to <= b.len(),
        33 <= b[at] <= 126,
    ensures
        at <= last < to,
        33 <= b[last] <= 126,
        lines::white_between(b, last + 1, to),
    decreases to,
{
    if 33 <= b[to - 1] <= 126 {
        to - 1
    } else {
        assert(lines::is_white(b[to - 1]));
        let last = lemma_last_visible(b, from, to - 1, at);
        assert forall|k: int| last + 1 <= k < to implies lines::is_white(#[trigger] b[k]) by {}
        last
    }
}

/// A line without its white space.
proof fn lemma_trimmed_line(b: Seq<u8>, from: int, to: int, at: int) -> (last: int)
    requires
        is_printed(b),
        first_visible(b, from, to, at),
    ensures
        at <= last < to,
        33 <= b[last] <= 126,
        lines::white_between(b, last + 1, to),
        lines::trimmed(b.subrange(from, to)) == b.subrange(at, last + 1),
{
    let last = lemma_last_visible(b, from, to, at);
    let line = b.subrange(from, to);
    assert forall|k: int| 0 <= k < at - from implies lines::is_white(#[trigger] line[k]) by {
        assert(line[k] == b[from + k]);
    }
    assert forall|k: int| last + 1 - from <= k < line.len() implies lines::is_white(
        #[trigger] line[k],
    ) by {
        assert(line[k] == b[from + k]);
    }
    assert(line[at - from] == b[at]);
    assert(line[last - from] == b[last]);
    lines::law_trimming_takes_the_ends(line, at - from, last + 1 - from);
    assert(line.subrange(at - from, last + 1 - from) =~= b.subrange(at, last + 1));
    last
}

proof fn lemma_mark_texts()
    ensures
        text::utf8("#"@) == seq![35u8],
        text::utf8("- "@) == seq![45u8, 32u8],
        text::utf8("* "@) == seq![42u8, 32u8],
        text::utf8("]("@) == seq![93u8, 40u8],
        text::utf8("</"@) == seq![60u8, 47u8],
{
    reveal_strlit("#");
    reveal_strlit("- ");
    reveal_strlit("* ");
    reveal_strlit("](");
    reveal_strlit("</");
    assert(vstd::utf8::is_ascii_chars("#"@));
    assert(vstd::utf8::is_ascii_chars("- "@));
    assert(vstd::utf8::is_ascii_chars("* "@));
    assert(vstd::utf8::is_ascii_chars("]("@));
    assert(vstd::utf8::is_ascii_chars("</"@));
    vstd::utf8::is_ascii_chars_encode_utf8("#"@);
    vstd::utf8::is_ascii_chars_encode_utf8("- "@);
    vstd::utf8::is_ascii_chars_encode_utf8("* "@);
    vstd::utf8::is_ascii_chars_encode_utf8("]("@);
    vstd::utf8::is_ascii_chars_encode_utf8("</"@);
    assert(text::utf8("#"@) =~= seq![35u8]);
    assert(text::utf8("- "@) =~= seq![45u8, 32u8]);
    assert(text::utf8("* "@) =~= seq![42u8, 32u8]);
    assert(text::utf8("]("@) =~= seq![93u8, 40u8]);
    assert(text::utf8("</"@) =~= seq![60u8, 47u8]);
}

proof fn lemma_match_from(b: Seq<u8>, from: int, pattern: Seq<u8>, at: int)
    requires
        0 <= from <= at,
        text::matches_at(b, at, pattern),
    ensures
        text::first_match(b, from, pattern) is Some,
    decreases at - from,
{
    if !text::matches_at(b, from, pattern) {
        lemma_match_from(b, from + 1, pattern, at);
    }
}

proof fn lemma_starts_with_one(t: Seq<u8>, c: u8)
    requires
        t.len() > 0,
    ensures
        text::has_prefix(t, seq![c]) == (t[0] == c),
{
    assert(t.subrange(0, 1)[0] == t[0]);
    if t[0] == c {
        assert(t.subrange(0, 1) =~= seq![c]);
    }
}

proof fn lemma_starts_with_two(t: Seq<u8>, c: u8, e: u8)
    ensures
        text::has_prefix(t, seq![c, e]) == (t.len() > 1 && t[0] == c && t[1] == e),
{
    if t.len() > 1 {
        let s = t.subrange(0, 2);
        assert(s[0] == t[0] && s[1] == t[1]);
        if t[0] == c && t[1] == e {
            assert(s =~= seq![c, e]);
        }
    }
}

proof fn lemma_looks(b: Seq<u8>, from: int, to: int, at: int)
    requires
        is_printed(b),
        first_visible(b, from, to, at),
    ensures
        html::looks_like_markdown(b.subrange(from, to)) == has_marks(b, from, to, at),
        text::has_prefix(lines::trimmed(b.subrange(from, to)), text::utf8("</"@)) == (at + 1 < to
            && b[at] == 60 && b[at + 1] == 47),
        lines::trimmed(b.subrange(from, to)).len() > 0,
{
    let last = lemma_trimmed_line(b, from, to, at);
    let t = b.subrange(at, last + 1);
    lemma_mark_texts();
    lemma_starts_with_one(t, 35);
    lemma_starts_with_two(t, 45, 32);
    lemma_starts_with_two(t, 42, 32);
    lemma_starts_with_two(t, 60, 47);
    let mark = seq![93u8, 40u8];
    assert(t[0] == b[at]);
    if t.len() > 1 {
        assert(t[1] == b[at + 1]);
    } else if at + 1 < to {
        assert(lines::is_white(b[at + 1]));
    }
    assert(text::has_match(t, mark) == has_link_mark(b, from, to)) by {
        if text::has_match(t, mark) {
            text::lemma_first_match(t, 0, mark);
            let k = text::first_match(t, 0, mark)->0;
            let s = t.subrange(k, k + 2);
            assert(s[0] == t[k] && s[1] == t[k + 1]);
            assert(b[at + k] == 93 && b[at + k + 1] == 40);
        }
        if has_link_mark(b, from, to) {
            let k = choose|k: int|
                from <= k && k + 1 < to && #[trigger] b[k] == 93 && b[k + 1] == 40;
            assert(at <= k) by {
                if k < at {
                    assert(lines::is_white(b[k]));
                }
            }
            assert(k + 1 <= last) by {
                if last < k + 1 {
                    assert(lines::is_white(b[k + 1]));
                }
            }
            assert(t[k - at] == b[k] && t[k - at + 1] == b[k + 1]);
            assert(t.subrange(k - at, k - at + 2) =~= mark);
            lemma_match_from(t, 0, mark, k - at);
        }
    }
    if (b[at] == 45 || b[at] == 42) && at + 1 < to && b[at + 1] == 32 {
        if exists|k: int| at + 1 < k < to && 33 <= #[trigger] b[k] <= 126 {
            let k = choose|k: int| at + 1 < k < to && 33 <= #[trigger] b[k] <= 126;
            assert(k <= last) by {
                if last < k {
                    assert(lines::is_white(b[k]));
                }
            }
        }
        if t.len() > 1 {
            assert(last > at + 1);
            assert(33 <= b[last] <= 126);
        }
    }
}

/// Markdown inside an HTML block, behind its first line, is reported on the first
/// line that has marks of it, where no line of the block is blank; a closing tag on
/// the last line has none.
pub proof fn law_markdown_in_html_is_reported(
    tree: Tree,
    scene: SceneView,
    exceptions: Exceptions,
    metadata: Seq<DiagView>,
    i: int,
    k: int,
    starts: Seq<int>,
)
    requires
        0 <= i < tree.nodes@.len(),
        tree.nodes@[i].kind is HtmlBlock,
        ({
            let b = tree.text_of(tree.nodes@[i]);
            let list = lines::lines_from(b, 0);
            &&& is_printed(b)
            &&& starts.len() == list.len()
            &&& forall|m: int|
                0 <= m < list.len() ==> first_visible(
                    b,
                    list[m].0,
                    list[m].1,
                    #[trigger] starts[m],
                )
            &&& 1 <= k < list.len()
            &&& has_marks(b, list[k].0, list[k].1, starts[k])
            &&& !(k == list.len() - 1 && starts[k] + 1 < list[k].1 && b[starts[k]] == 60
                && b[starts[k] + 1] == 47)
            &&& forall|m: int|
                1 <= m < k ==> !has_marks(b, list[m].0, list[m].1, #[trigger] starts[m])
        }),
    ensures
        ({
            let node = tree.nodes@[i];
            let list = lines::lines_from(tree.text_of(node), 0);
            quality::is_reported(
                tree,
                scene,
                exceptions,
                metadata,
                DiagView {
                    file: scene.file,
                    line: lines::line_of(tree.text(), node.span.start + list[k].0),
                    severity: Severity::Warning,
                    message: text::utf8(
                        "markdown syntax inside HTML block without blank lines will not be parsed"@,
                    ),
                    span: None,
                },
            )
        }),
{
    reveal(html::opaque_report);
    let node = tree.nodes@[i];
    let b = tree.text_of(node);
    let list = lines::lines_from(b, 0);
    assert forall|m: int| 0 <= m < list.len() implies {
        &&& #[trigger] html::line_at(b, list, m) == b.subrange(list[m].0, list[m].1)
        &&& lines::trimmed(html::line_at(b, list, m)).len() > 0
        &&& html::looks_like_markdown(html::line_at(b, list, m)) == has_marks(
            b,
            list[m].0,
            list[m].1,
            starts[m],
        )
    } by {
        assert(first_visible(b, list[m].0, list[m].1, starts[m]));
        lemma_printed_cut(b, list[m].0, list[m].1);
        lemma_looks(b, list[m].0, list[m].1, starts[m]);
    }
    assert(!html::has_blank_line(b, list)) by {
        if html::has_blank_line(b, list) {
            let m = choose|m: int|
                0 <= m < list.len() && lines::trimmed(#[trigger] html::line_at(b, list, m)).len()
                    == 0;
            assert(lines::trimmed(html::line_at(b, list, m)).len() > 0);
        }
    }
    lemma_first_marked(b, list, starts, 1, k);
    let d = DiagView {
        file: scene.file,
        line: lines::line_of(tree.text(), node.span.start + list[k].0),
        severity: Severity::Warning,
        message: text::utf8(
            "markdown syntax inside HTML block without blank lines will not be parsed"@,
        ),
        span: None,
    };
    assert(html::opaque_report(tree, scene.file, node)[0] == d);
    lemma_opaque(tree, scene.file, tree.nodes@, i, d);
    quality::lemma_late(tree, scene, exceptions, metadata, d);
}

proof fn lemma_printed_cut(b: Seq<u8>, from: int, to: int)
    requires
        is_printed(b),
        0 <= from <= to <= b.len(),
    ensures
        text::piece(b, from, to) == b.subrange(from, to),
{
    if from < b.len() {
        let x = b[from];
        assert(lines::is_white(x) || 33 <= x <= 126);
        assert(!vstd::utf8::is_continuation_byte(x));
    }
    if to < b.len() {
        let x = b[to];
        assert(lines::is_white(x) || 33 <= x <= 126);
        assert(!vstd::utf8::is_continuation_byte(x));
    }
}

proof fn lemma_first_marked(
    b: Seq<u8>,
    list: Seq<(int, int)>,
    starts: Seq<int>,
    from: int,
    k: int,
)
    requires
        is_printed(b),
        starts.len() == list.len(),
        1 <= from <= k < list.len(),
        forall|m: int|
            0 <= m < list.len() ==> first_visible(b, list[m].0, list[m].1, #[trigger] starts[m]),
        has_marks(b, list[k].0, list[k].1, starts[k]),
        !(k == list.len() - 1 && starts[k] + 1 < list[k].1 && b[starts[k]] == 60 && b[starts[k] + 1]
            == 47),
        forall|m: int| from <= m < k ==> !has_marks(b, list[m].0, list[m].1, #[trigger] starts[m]),
    ensures
        html::markdown_line(b, list, from) == Some(k),
    decreases k - from,
{
    assert(first_visible(b, list[from].0, list[from].1, starts[from]));
    lemma_printed_cut(b, list[from].0, list[from].1);
    lemma_looks(b, list[from].0, list[from].1, starts[from]);
    if from < k {
        assert(!has_marks(b, list[from].0, list[from].1, starts[from]));
        lemma_first_marked(b, list, starts, from + 1, k);
    }
}

proof fn lemma_opaque(tree: Tree, file: Seq<u8>, nodes: Seq<Node>, i: int, d: DiagView)
    requires
        0 <= i < nodes.len(),
        html::opaque_report(tree, file, nodes[i]).contains(d),
    ensures
        html::opaque_reports(tree, file, nodes).contains(d),
    decreases nodes.len(),
{
    if i < nodes.len() - 1 {
        assert(nodes.drop_last()[i] == nodes[i]);
        lemma_opaque(tree, file, nodes.drop_last(), i, d);
    }
    diagnostic::lemma_either(
        html::opaque_reports(tree, file, nodes.drop_last()),
        html::opaque_report(tree, file, nodes.last()),
        d,
    );
}

} // verus!

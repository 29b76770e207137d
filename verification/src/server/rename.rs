//! The two renames: of a heading, and of files. Both hand their edits to one
//! mapping from spans to what a client applies to its buffers.
use vstd::prelude::*;
use crate::path;
use crate::pathmap::PathMap;
use crate::server::position;
use crate::server::position::{Position, Range};
use crate::server::rows;
use crate::server::workspaces;
use crate::server::workspaces::{State, Workspaces};
use crate::sorted::{KeyOrder, SortedMap};
use crate::span::Span;
use crate::text;
use crate::uri;
use crate::workspace::Heading;

verus! {

/// The first heading on a line, counted from 0.
pub open spec fn heading_on(list: Seq<Heading>, line: nat) -> Option<Heading>
    decreases list.len(),
{
    if list.len() == 0 {
        None
    } else if list[0].line == line + 1 {
        Some(list[0])
    } else {
        heading_on(list.drop_first(), line)
    }
}

fn heading_at_line(headings: &Vec<Heading>, line: usize) -> (r: Option<&Heading>)
    ensures
        match r {
            Some(h) => heading_on(headings@, line as nat) == Some(*h),
            None => heading_on(headings@, line as nat) is None,
        },
        r is None <==> forall|i: int|
            0 <= i < headings@.len() ==> (#[trigger] headings@[i]).line != line + 1,
        r matches Some(h) ==> h.line == line + 1 && headings@.contains(*h),
{
    proof {
        law_headings_are_found_by_line(headings@, line as nat);
    }
    let mut i: usize = 0;
    assert(headings@.skip(0) =~= headings@);
    while i < headings.len()
        invariant
            i <= headings@.len(),
            heading_on(headings@, line as nat) == heading_on(headings@.skip(i as int), line as nat),
        decreases headings@.len() - i,
    {
        proof {
            assert(headings@.skip(i as int)[0] == headings@[i as int]);
            assert(headings@.skip(i as int).drop_first() =~= headings@.skip(i + 1));
        }
        let h = &headings[i];
        if h.line > 0 && h.line - 1 == line {
            return Some(h);
        }
        i += 1;
    }
    None
}

/// The heading that a request is about.
pub open spec fn heading_of(s: State, uri: Seq<u8>, line: nat) -> Option<Heading> {
    match workspaces::document_of(s, uri) {
        Some(data) => heading_on(data.headings@, line),
        None => None,
    }
}

/// The range of the text of the heading at a position.
pub fn prepare_rename(workspaces: &Workspaces, uri: &str, at: Position) -> (r: Option<Range>)
    requires
        workspaces.wf(),
    ensures
        match heading_of(workspaces@, text::utf8(uri@), at.line as nat) {
            Some(h) => r matches Some(range) && position::is_range_of(
                range,
                workspaces::document_of(workspaces@, text::utf8(uri@))->0.tree.text(),
                h.text_span,
            ),
            None => r is None,
        },
{
    let Some((view, rel)) = workspaces.resolve_document(uri) else {
        return None;
    };
    let Some(data) = view.file(rel.as_str()) else {
        return None;
    };
    let Some(heading) = heading_at_line(&data.headings, at.line) else {
        return None;
    };
    Some(position::span_to_range(data.tree.source.as_str(), heading.text_span))
}

// Edits.

/// A piece of a text, and what comes in its place.
#[derive(Clone, Debug, PartialEq, Eq)]
pub struct MoveTextEdit {
    pub span: Span,
    pub new_text: String,
}

/// An edit, as text.
#[verifier::ext_equal]
pub struct MoveView {
    pub span: Span,
    pub new_text: Seq<u8>,
}

impl View for MoveTextEdit {
    type V = MoveView;

    open spec fn view(&self) -> MoveView {
        MoveView { span: self.span, new_text: text::utf8(self.new_text@) }
    }
}

/// A range of a buffer, and what comes in its place.
#[derive(Clone, Debug, PartialEq, Eq)]
pub struct TextEdit {
    pub range: Range,
    pub new_text: String,
}

/// An edit of a buffer, as text.
#[verifier::ext_equal]
pub struct EditView {
    pub range: Range,
    pub new_text: Seq<u8>,
}

impl View for TextEdit {
    type V = EditView;

    open spec fn view(&self) -> EditView {
        EditView { range: self.range, new_text: text::utf8(self.new_text@) }
    }
}

/// Edits of a buffer, as text.
pub open spec fn edit_views(list: Seq<TextEdit>) -> Seq<EditView> {
    list.map_values(|e: TextEdit| e@)
}

/// Edits of a text, as text.
pub open spec fn move_views(list: Seq<MoveTextEdit>) -> Seq<MoveView> {
    list.map_values(|e: MoveTextEdit| e@)
}

/// Edits by document, as text.
pub open spec fn change_views(map: Map<Seq<u8>, Vec<TextEdit>>) -> Map<Seq<u8>, Seq<EditView>> {
    Map::new(|k: Seq<u8>| map.contains_key(k), |k: Seq<u8>| edit_views(map[k]@))
}

/// Whether one edit starts in front of another.
pub open spec fn starts_before(a: EditView, b: EditView) -> bool {
    a.range.start.line < b.range.start.line || (a.range.start.line == b.range.start.line
        && a.range.start.character < b.range.start.character)
}

/// The number of leading edits up to the last one that `e` does not start in
/// front of.
pub open spec fn slot_of(list: Seq<EditView>, e: EditView) -> nat
    decreases list.len(),
{
    if list.len() == 0 || !starts_before(e, list.last()) {
        list.len()
    } else {
        slot_of(list.drop_last(), e)
    }
}

/// Edits by their start; those of one place keep their order.
pub open spec fn by_start(list: Seq<EditView>) -> Seq<EditView>
    decreases list.len(),
{
    if list.len() == 0 {
        list
    } else {
        let rest = by_start(list.drop_last());
        rest.insert(slot_of(rest, list.last()) as int, list.last())
    }
}

/// An edit of a text as an edit of the buffer that holds it.
pub open spec fn as_edit(b: Seq<u8>, e: MoveView) -> EditView {
    EditView {
        range: Range {
            start: rows::position_at(b, e.span.start as int),
            end: rows::position_at(b, e.span.end as int),
        },
        new_text: e.new_text,
    }
}

/// The edits of a buffer with more edits among them.
pub open spec fn with_edits(list: Seq<EditView>, b: Seq<u8>, more: Seq<MoveView>) -> Seq<EditView> {
    by_start(list + more.map_values(|e: MoveView| as_edit(b, e)))
}

/// Edits by the path of their document, in the order of the paths.
pub open spec fn edit_list(edits: PathMap<Vec<MoveTextEdit>>) -> Seq<(Seq<u8>, Seq<MoveView>)> {
    Seq::new(
        edits.keys().len(),
        |i: int| (edits.keys()[i], move_views(edits.values()[i]@)),
    )
}

/// The edits by URI with those of some documents among them, each document at
/// its current text; an unknown document is passed over.
pub open spec fn with_changes(
    s: State,
    changes: Map<Seq<u8>, Seq<EditView>>,
    list: Seq<(Seq<u8>, Seq<MoveView>)>,
) -> Map<Seq<u8>, Seq<EditView>>
    decreases list.len(),
{
    if list.len() == 0 {
        changes
    } else {
        let rest = with_changes(s, changes, list.drop_last());
        let (abs, more) = list.last();
        if s.store.current().contains_key(abs) {
            let uri = uri::uri_of(abs);
            let old = if rest.contains_key(uri) {
                rest[uri]
            } else {
                Seq::empty()
            };
            rest.insert(uri, with_edits(old, s.store.current()[abs].data.tree.text(), more))
        } else {
            rest
        }
    }
}

fn is_before(a: &TextEdit, b: &TextEdit) -> (r: bool)
    ensures
        r == starts_before(a@, b@),
{
    a.range.start.line < b.range.start.line || (a.range.start.line == b.range.start.line
        && a.range.start.character < b.range.start.character)
}

fn sort_edits(list: Vec<TextEdit>) -> (r: Vec<TextEdit>)
    ensures
        edit_views(r@) == by_start(edit_views(list@)),
{
    let mut r: Vec<TextEdit> = Vec::new();
    let ghost start = list@;
    let ghost all = edit_views(start);
    let ghost mut done: int = 0;
    let mut rest = list;
    proof {
        assert(all.take(0) =~= Seq::<EditView>::empty());
        assert(edit_views(r@) =~= Seq::<EditView>::empty());
        assert(start.skip(0) =~= start);
    }
    while rest.len() > 0
        invariant
            0 <= done <= start.len(),
            all == edit_views(start),
            rest@ == start.skip(done),
            edit_views(r@) == by_start(all.take(done)),
        decreases rest@.len(),
    {
        proof {
            assert(rest@[0] == start[done]);
            assert(start.skip(done).remove(0) =~= start.skip(done + 1));
        }
        let e = rest.remove(0);
        let ghost so_far = edit_views(r@);
        let mut p: usize = r.len();
        assert(so_far.take(p as int) =~= so_far);
        while p > 0 && is_before(&e, &r[p - 1])
            invariant
                p <= r@.len(),
                so_far == edit_views(r@),
                slot_of(so_far, e@) == slot_of(so_far.take(p as int), e@),
            decreases p,
        {
            assert(so_far.take(p as int).last() == r@[p - 1]@);
            assert(so_far.take(p as int).drop_last() =~= so_far.take(p - 1));
            p -= 1;
        }
        proof {
            if p > 0 {
                assert(so_far.take(p as int).last() == r@[p - 1]@);
            }
            assert(slot_of(so_far, e@) == p);
            assert(all.take(done + 1).drop_last() =~= all.take(done));
            assert(all.take(done + 1).last() == start[done]@);
        }
        let ghost v = e@;
        r.insert(p, e);
        assert(edit_views(r@) =~= so_far.insert(p as int, v));
        proof {
            done = done + 1;
        }
    }
    assert(all.take(done) =~= all);
    r
}

fn push_edits(source: &str, more: &Vec<MoveTextEdit>, out: &mut Vec<TextEdit>)
    ensures
        edit_views(final(out)@) == edit_views(old(out)@) + move_views(more@).map_values(
            |e: MoveView| as_edit(text::utf8(source@), e),
        ),
{
    let ghost before = edit_views(out@);
    let ghost b = text::utf8(source@);
    let ghost added = move_views(more@).map_values(|e: MoveView| as_edit(b, e));
    let mut i: usize = 0;
    assert(before + added.take(0) =~= before);
    while i < more.len()
        invariant
            i <= more@.len(),
            b == text::utf8(source@),
            added == move_views(more@).map_values(|e: MoveView| as_edit(b, e)),
            edit_views(out@) == before + added.take(i as int),
        decreases more@.len() - i,
    {
        let e = TextEdit {
            range: position::span_to_range(source, more[i].span),
            new_text: text::owned(more[i].new_text.as_str()),
        };
        let ghost so_far = edit_views(out@);
        let ghost v = e@;
        out.push(e);
        proof {
            assert(added[i as int] == as_edit(b, more@[i as int]@));
            assert(v == added[i as int]);
            assert(edit_views(out@) =~= so_far.push(v));
            assert(so_far.push(v) =~= before + added.take(i + 1));
        }
        i += 1;
    }
    assert(added.take(i as int) =~= added);
}

fn take_edits(map: &mut SortedMap<Vec<TextEdit>>, uri: &str) -> (r: Vec<TextEdit>)
    ensures
        change_views(final(map)@) == change_views(old(map)@).remove(text::utf8(uri@)),
        edit_views(r@) == (if change_views(old(map)@).contains_key(text::utf8(uri@)) {
            change_views(old(map)@)[text::utf8(uri@)]
        } else {
            Seq::empty()
        }),
{
    let ghost before = change_views(map@);
    let found = map.remove(uri);
    assert(change_views(map@) =~= before.remove(text::utf8(uri@)));
    match found {
        Some(list) => list,
        None => {
            let none: Vec<TextEdit> = Vec::new();
            assert(edit_views(none@) =~= Seq::<EditView>::empty());
            none
        },
    }
}

/// Add the edits of some documents to those of a client's buffers, each document
/// at its current text. The edits of a buffer stay in the order of their starts.
pub fn merge_span_edits(
    workspaces: &Workspaces,
    edits: &PathMap<Vec<MoveTextEdit>>,
    changes: &mut SortedMap<Vec<TextEdit>>,
)
    ensures
        change_views(final(changes)@) == with_changes(
            workspaces@,
            change_views(old(changes)@),
            edit_list(*edits),
        ),
{
    let n = edits.len();
    let ghost s = workspaces@;
    let ghost start = change_views(changes@);
    let ghost all = edit_list(*edits);
    let mut i: usize = 0;
    assert(all.take(0) =~= Seq::<(Seq<u8>, Seq<MoveView>)>::empty());
    while i < n
        invariant
            i <= n,
            n == edits.keys().len(),
            s == workspaces@,
            all == edit_list(*edits),
            change_views(changes@) == with_changes(s, start, all.take(i as int)),
        decreases n - i,
    {
        let abs = edits.key_at(i);
        let more = edits.value_at(i);
        let ghost before = change_views(changes@);
        proof {
            assert(all.take(i + 1).drop_last() =~= all.take(i as int));
            assert(all.take(i + 1).last() == (text::utf8(abs@), move_views(more@)));
        }
        if let Some(doc) = workspaces.store.current(abs) {
            let uri = uri::path_to_uri(abs);
            let ghost u = text::utf8(uri@);
            let mut own = take_edits(changes, uri.as_str());
            push_edits(doc.data.tree.source.as_str(), more, &mut own);
            let sorted = sort_edits(own);
            let ghost v = edit_views(sorted@);
            let ghost left = change_views(changes@);
            changes.insert(uri, sorted);
            proof {
                assert(change_views(changes@) =~= left.insert(u, v));
                assert(left.insert(u, v) =~= before.insert(u, v));
            }
        }
        i += 1;
    }
    assert(all.take(i as int) =~= all);
}

/// The edits that rename a heading: none where there is no heading or it cannot
/// be renamed. `edits` holds what renaming the heading of that line takes.
pub fn do_rename(
    workspaces: &Workspaces,
    uri: &str,
    at: Position,
    edits: &Option<PathMap<Vec<MoveTextEdit>>>,
) -> (r: Option<SortedMap<Vec<TextEdit>>>)
    requires
        workspaces.wf(),
    ensures
        match (heading_of(workspaces@, text::utf8(uri@), at.line as nat), *edits) {
            (Some(_), Some(list)) => r matches Some(changes) && change_views(changes@)
                == with_changes(workspaces@, Map::empty(), edit_list(list)),
            _ => r is None,
        },
{
    let Some((view, rel)) = workspaces.resolve_document(uri) else {
        return None;
    };
    let Some(data) = view.file(rel.as_str()) else {
        return None;
    };
    let Some(_) = heading_at_line(&data.headings, at.line) else {
        return None;
    };
    let Some(list) = edits else {
        return None;
    };
    let mut changes: SortedMap<Vec<TextEdit>> = SortedMap::new(KeyOrder::Bytes);
    assert(change_views(changes@) =~= Map::<Seq<u8>, Seq<EditView>>::empty());
    merge_span_edits(workspaces, list, &mut changes);
    Some(changes)
}

/// A file that a client is about to rename, and what moving it takes: edits, or
/// why it must not be moved.
pub struct FileRename {
    pub old_uri: String,
    pub new_uri: String,
    pub verdict: Result<PathMap<Vec<MoveTextEdit>>, String>,
}

/// The edits that some renames take, or why one of them must not be done. What
/// lies outside every scope takes none and is never refused.
pub open spec fn rename_edits(s: State, renames: Seq<FileRename>) -> Result<
    Map<Seq<u8>, Seq<EditView>>,
    Seq<u8>,
>
    decreases renames.len(),
{
    if renames.len() == 0 {
        Ok(Map::empty())
    } else {
        match rename_edits(s, renames.drop_last()) {
            Err(message) => Err(message),
            Ok(changes) => {
                let rename = renames.last();
                if workspaces::placement(s, uri::path_of(text::utf8(rename.old_uri@))) is None {
                    Ok(changes)
                } else {
                    match rename.verdict {
                        Ok(list) => Ok(with_changes(s, changes, edit_list(list))),
                        Err(message) => Err(text::utf8(message@)),
                    }
                }
            },
        }
    }
}

/// Answer a client that is about to rename files: with all edits, or with the
/// first refusal.
pub fn will_rename_files(workspaces: &Workspaces, renames: &Vec<FileRename>) -> (r: Result<
    SortedMap<Vec<TextEdit>>,
    String,
>)
    ensures
        match rename_edits(workspaces@, renames@) {
            Ok(changes) => r matches Ok(map) && change_views(map@) == changes,
            Err(message) => r matches Err(m) && text::utf8(m@) == message,
        },
{
    let mut changes: SortedMap<Vec<TextEdit>> = SortedMap::new(KeyOrder::Bytes);
    let ghost s = workspaces@;
    let mut i: usize = 0;
    proof {
        assert(renames@.take(0) =~= Seq::<FileRename>::empty());
        assert(change_views(changes@) =~= Map::<Seq<u8>, Seq<EditView>>::empty());
    }
    while i < renames.len()
        invariant
            i <= renames@.len(),
            s == workspaces@,
            rename_edits(s, renames@.take(i as int)) == Ok::<Map<Seq<u8>, Seq<EditView>>, Seq<u8>>(
                change_views(changes@),
            ),
        decreases renames@.len() - i,
    {
        let rename = &renames[i];
        proof {
            assert(renames@.take(i + 1).drop_last() =~= renames@.take(i as int));
            assert(renames@.take(i + 1).last() == *rename);
        }
        let old_abs = uri::uri_to_path(rename.old_uri.as_str());
        if workspaces.deepest_root_for(old_abs.as_str()).is_some() {
            match &rename.verdict {
                Ok(list) => merge_span_edits(workspaces, list, &mut changes),
                Err(message) => {
                    proof {
                        lemma_refused(s, renames@, i + 1);
                    }
                    return Err(text::owned(message.as_str()));
                },
            }
        }
        i += 1;
    }
    assert(renames@.take(i as int) =~= renames@);
    Ok(changes)
}

/// A refusal stays, whatever comes behind it.
proof fn lemma_refused(s: State, renames: Seq<FileRename>, n: int)
    requires
        0 <= n <= renames.len(),
        rename_edits(s, renames.take(n)) is Err,
    ensures
        rename_edits(s, renames) == rename_edits(s, renames.take(n)),
    decreases renames.len() - n,
{
    if n == renames.len() {
        assert(renames.take(n) =~= renames);
    } else {
        assert(renames.take(n + 1).drop_last() =~= renames.take(n));
        lemma_refused(s, renames, n + 1);
    }
}

// Laws.

/// One refusal refuses the whole batch: whatever is renamed besides, the answer
/// is the first refusal.
pub proof fn law_the_first_refusal_decides(s: State, renames: Seq<FileRename>, n: int)
    requires
        0 <= n <= renames.len(),
        rename_edits(s, renames.take(n)) is Err,
    ensures
        rename_edits(s, renames) == rename_edits(s, renames.take(n)),
{
    lemma_refused(s, renames, n);
}

/// Whether edits stand in the order of their starts.
pub open spec fn starts_ascend(list: Seq<EditView>) -> bool {
    forall|i: int, j: int|
        0 <= i < j < list.len() ==> !starts_before(#[trigger] list[j], #[trigger] list[i])
}

proof fn lemma_slot(list: Seq<EditView>, e: EditView)
    requires
        starts_ascend(list),
    ensures
        slot_of(list, e) <= list.len(),
        forall|i: int| 0 <= i < slot_of(list, e) ==> !starts_before(e, #[trigger] list[i]),
        forall|i: int| slot_of(list, e) <= i < list.len() ==> starts_before(e, #[trigger] list[i]),
    decreases list.len(),
{
    if list.len() > 0 && starts_before(e, list.last()) {
        let rest = list.drop_last();
        assert(starts_ascend(rest));
        lemma_slot(rest, e);
        assert forall|i: int| slot_of(list, e) <= i < list.len() implies starts_before(
            e,
            #[trigger] list[i],
        ) by {
            if i < rest.len() {
                assert(rest[i] == list[i]);
            }
        }
        assert forall|i: int| 0 <= i < slot_of(list, e) implies !starts_before(
            e,
            #[trigger] list[i],
        ) by {
            assert(rest[i] == list[i]);
        }
    }
}

/// The edits of a buffer are the same edits, in the order of their starts.
pub proof fn law_edits_are_in_order(list: Seq<EditView>)
    ensures
        starts_ascend(by_start(list)),
        by_start(list).to_multiset() == list.to_multiset(),
    decreases list.len(),
{
    if list.len() > 0 {
        let e = list.last();
        let rest = by_start(list.drop_last());
        law_edits_are_in_order(list.drop_last());
        lemma_slot(rest, e);
        let p = slot_of(rest, e) as int;
        let r = rest.insert(p, e);
        assert forall|i: int, j: int| 0 <= i < j < r.len() implies !starts_before(
            #[trigger] r[j],
            #[trigger] r[i],
        ) by {
            let x = if i < p {
                i
            } else {
                i - 1
            };
            let y = if j < p {
                j
            } else {
                j - 1
            };
            if i != p {
                assert(r[i] == rest[x]);
            }
            if j != p {
                assert(r[j] == rest[y]);
            }
        }
        vstd::seq_lib::to_multiset_insert(rest, p, e);
        assert(list =~= list.drop_last().push(e));
        list.drop_last().to_multiset_ensures();
        assert(r.to_multiset() =~= list.to_multiset());
    } else {
        assert(by_start(list) =~= list);
    }
}

/// The heading of a line is found wherever it stands in the document: the first
/// one on that line; and none is found only where none is on it.
pub proof fn law_headings_are_found_by_line(list: Seq<Heading>, line: nat)
    ensures
        heading_on(list, line) is None <==> forall|i: int|
            0 <= i < list.len() ==> (#[trigger] list[i]).line != line + 1,
        heading_on(list, line) matches Some(h) ==> exists|i: int|
            0 <= i < list.len() && #[trigger] list[i] == h && h.line == line + 1 && forall|j: int|
                0 <= j < i ==> (#[trigger] list[j]).line != line + 1,
    decreases list.len(),
{
    if list.len() > 0 && list[0].line != line + 1 {
        let rest = list.drop_first();
        law_headings_are_found_by_line(rest, line);
        assert forall|i: int| 0 <= i < rest.len() implies #[trigger] rest[i] == list[i + 1] by {}
        match heading_on(rest, line) {
            Some(h) => {
                let i = choose|i: int|
                    0 <= i < rest.len() && #[trigger] rest[i] == h && h.line == line + 1
                        && forall|j: int| 0 <= j < i ==> (#[trigger] rest[j]).line != line + 1;
                assert(list[i + 1] == h);
                assert forall|j: int| 0 <= j < i + 1 implies (#[trigger] list[j]).line != line
                    + 1 by {
                    if j > 0 {
                        assert(rest[j - 1] == list[j]);
                    }
                }
            },
            None => {
                assert forall|i: int| 0 <= i < list.len() implies (#[trigger] list[i]).line != line
                    + 1 by {
                    if i > 0 {
                        assert(rest[i - 1] == list[i]);
                    }
                }
            },
        }
    } else if list.len() > 0 {
        assert(list[0].line == line + 1);
    }
}

/// A request about a heading is about the current text of the document that its
/// URI names: it finds a heading exactly where that text has one on the line.
pub proof fn law_headings_of_open_documents_are_found(s: State, uri: Seq<u8>, line: nat)
    requires
        s.store.saved.dom().finite(),
        s.store.overlay.dom().finite(),
        s.store.current().contains_key(uri::path_of(uri)),
        s.store.current()[uri::path_of(uri)].root matches Some(root) ==> path::under(
            uri::path_of(uri),
            root,
        ),
    ensures
        ({
            let list = s.store.current()[uri::path_of(uri)].data.headings@;
            &&& heading_of(s, uri, line) is Some <==> exists|i: int|
                0 <= i < list.len() && (#[trigger] list[i]).line == line + 1
            &&& heading_of(s, uri, line) matches Some(h) ==> list.contains(h) && h.line == line + 1
        }),
{
    workspaces::law_requests_read_the_current_text(s, uri);
    let list = s.store.current()[uri::path_of(uri)].data.headings@;
    law_headings_are_found_by_line(list, line);
}

/// The edits of a document are added to those of its buffer, each at the range of
/// its span in the current text and with its own text; none is lost, none is made
/// up, and other buffers are left alone.
pub proof fn law_every_edit_is_made(
    s: State,
    changes: Map<Seq<u8>, Seq<EditView>>,
    abs: Seq<u8>,
    more: Seq<MoveView>,
    e: EditView,
    other: Seq<u8>,
)
    requires
        s.store.current().contains_key(abs),
        !changes.contains_key(uri::uri_of(abs)),
    ensures
        ({
            let after = with_changes(s, changes, seq![(abs, more)]);
            let b = s.store.current()[abs].data.tree.text();
            &&& after.contains_key(uri::uri_of(abs))
            &&& after[uri::uri_of(abs)].len() == more.len()
            &&& starts_ascend(after[uri::uri_of(abs)])
            &&& after[uri::uri_of(abs)].contains(e) <==> exists|i: int|
                0 <= i < more.len() && e.new_text == (#[trigger] more[i]).new_text && e.range
                    == (Range {
                    start: rows::position_at(b, more[i].span.start as int),
                    end: rows::position_at(b, more[i].span.end as int),
                })
            &&& other != uri::uri_of(abs) ==> after.contains_key(other) == changes.contains_key(
                other,
            ) && after[other] == changes[other]
        }),
{
    let list = seq![(abs, more)];
    let b = s.store.current()[abs].data.tree.text();
    assert(list.drop_last() =~= Seq::<(Seq<u8>, Seq<MoveView>)>::empty());
    assert(with_changes(s, changes, list.drop_last()) == changes);
    let added = more.map_values(|m: MoveView| as_edit(b, m));
    let none = Seq::<EditView>::empty();
    assert(none + added =~= added);
    law_edits_are_in_order(added);
    added.to_multiset_ensures();
    by_start(added).to_multiset_ensures();
    assert(added.to_multiset().count(e) > 0 <==> added.contains(e));
    assert(by_start(added).to_multiset().count(e) > 0 <==> by_start(added).contains(e));
    if added.contains(e) {
        let i = added.index_of(e);
        assert(e.new_text == more[i].new_text);
    }
    if exists|i: int|
        0 <= i < more.len() && e.new_text == (#[trigger] more[i]).new_text && e.range == (Range {
            start: rows::position_at(b, more[i].span.start as int),
            end: rows::position_at(b, more[i].span.end as int),
        }) {
        let i = choose|i: int|
            0 <= i < more.len() && e.new_text == (#[trigger] more[i]).new_text && e.range
                == (Range {
                start: rows::position_at(b, more[i].span.start as int),
                end: rows::position_at(b, more[i].span.end as int),
            });
        assert(added[i] == e);
    }
}

/// Whether a rename is of a file in some scope.
pub open spec fn is_placed(s: State, rename: FileRename) -> bool {
    workspaces::placement(s, uri::path_of(text::utf8(rename.old_uri@))) is Some
}

/// Whether a rename is refused.
pub open spec fn is_refused(s: State, rename: FileRename) -> bool {
    is_placed(s, rename) && rename.verdict is Err
}

/// A batch of renames is refused exactly if one of them is: one of a file in some
/// scope that must not be moved; and the answer is why the first of these must not.
pub proof fn law_batches_are_refused_for_a_refusal(s: State, renames: Seq<FileRename>)
    ensures
        rename_edits(s, renames) is Ok <==> forall|i: int|
            0 <= i < renames.len() ==> !is_refused(s, #[trigger] renames[i]),
        rename_edits(s, renames) matches Err(message) ==> exists|i: int|
            0 <= i < renames.len() && is_refused(s, #[trigger] renames[i]) && text::utf8(
                renames[i].verdict->Err_0@,
            ) == message && forall|j: int| 0 <= j < i ==> !is_refused(s, #[trigger] renames[j]),
    decreases renames.len(),
{
    if renames.len() > 0 {
        let most = renames.drop_last();
        law_batches_are_refused_for_a_refusal(s, most);
        assert forall|i: int| 0 <= i < most.len() implies #[trigger] most[i] == renames[i] by {}
        match rename_edits(s, most) {
            Err(message) => {
                let i = choose|i: int|
                    0 <= i < most.len() && is_refused(s, #[trigger] most[i]) && text::utf8(
                        most[i].verdict->Err_0@,
                    ) == message && forall|j: int|
                        0 <= j < i ==> !is_refused(s, #[trigger] most[j]);
                assert(renames[i] == most[i]);
                assert forall|j: int| 0 <= j < i implies !is_refused(s, #[trigger] renames[j]) by {
                    assert(most[j] == renames[j]);
                }
            },
            Ok(changes) => {
                assert forall|j: int| 0 <= j < most.len() implies !is_refused(
                    s,
                    #[trigger] renames[j],
                ) by {
                    assert(most[j] == renames[j]);
                }
                let last = renames[renames.len() - 1];
                assert(last == renames.last());
                if !is_refused(s, last) {
                    assert forall|j: int| 0 <= j < renames.len() implies !is_refused(
                        s,
                        #[trigger] renames[j],
                    ) by {}
                }
            },
        }
    }
}

proof fn lemma_edits_stay(list: Seq<EditView>, b: Seq<u8>, more: Seq<MoveView>, e: EditView)
    requires
        list.contains(e) || exists|i: int| 0 <= i < more.len() && e == as_edit(b, #[trigger] more[i]),
    ensures
        with_edits(list, b, more).contains(e),
{
    let added = more.map_values(|m: MoveView| as_edit(b, m));
    let all = list + added;
    assert(all.contains(e)) by {
        if list.contains(e) {
            let k = choose|k: int| 0 <= k < list.len() && list[k] == e;
            assert(all[k] == e);
        } else {
            let i = choose|i: int| 0 <= i < more.len() && e == as_edit(b, #[trigger] more[i]);
            assert(added[i] == e);
            assert(all[list.len() + i] == e);
        }
    }
    law_edits_are_in_order(all);
    all.to_multiset_ensures();
    by_start(all).to_multiset_ensures();
    assert(all.to_multiset().count(e) > 0 <==> all.contains(e));
    assert(by_start(all).to_multiset().count(e) > 0 <==> by_start(all).contains(e));
}

proof fn lemma_changes_stay(
    s: State,
    changes: Map<Seq<u8>, Seq<EditView>>,
    list: Seq<(Seq<u8>, Seq<MoveView>)>,
    uri: Seq<u8>,
    e: EditView,
)
    requires
        changes.contains_key(uri) && changes[uri].contains(e),
    ensures
        with_changes(s, changes, list).contains_key(uri),
        with_changes(s, changes, list)[uri].contains(e),
    decreases list.len(),
{
    if list.len() > 0 {
        lemma_changes_stay(s, changes, list.drop_last(), uri, e);
        let rest = with_changes(s, changes, list.drop_last());
        let (abs, more) = list.last();
        if s.store.current().contains_key(abs) && uri::uri_of(abs) == uri {
            lemma_edits_stay(rest[uri], s.store.current()[abs].data.tree.text(), more, e);
        }
    }
}

/// Every edit of every known document comes in, whatever others there are: at the
/// range of its span in the current text, and with its own text.
pub proof fn law_edits_of_all_documents_are_made(
    s: State,
    changes: Map<Seq<u8>, Seq<EditView>>,
    list: Seq<(Seq<u8>, Seq<MoveView>)>,
    i: int,
    k: int,
)
    requires
        0 <= i < list.len(),
        0 <= k < list[i].1.len(),
        s.store.current().contains_key(list[i].0),
    ensures
        ({
            let after = with_changes(s, changes, list);
            let uri = uri::uri_of(list[i].0);
            let b = s.store.current()[list[i].0].data.tree.text();
            let m = list[i].1[k];
            after.contains_key(uri) && after[uri].contains(
                EditView {
                    range: Range {
                        start: rows::position_at(b, m.span.start as int),
                        end: rows::position_at(b, m.span.end as int),
                    },
                    new_text: m.new_text,
                },
            )
        }),
    decreases list.len(),
{
    let most = list.drop_last();
    let rest = with_changes(s, changes, most);
    let uri = uri::uri_of(list[i].0);
    let b = s.store.current()[list[i].0].data.tree.text();
    let m = list[i].1[k];
    let e = as_edit(b, m);
    if i < list.len() - 1 {
        assert(most[i] == list[i]);
        law_edits_of_all_documents_are_made(s, changes, most, i, k);
        let (abs, more) = list.last();
        if s.store.current().contains_key(abs) && uri::uri_of(abs) == uri {
            lemma_edits_stay(rest[uri], s.store.current()[abs].data.tree.text(), more, e);
        }
    } else {
        let old = if rest.contains_key(uri) {
            rest[uri]
        } else {
            Seq::empty()
        };
        assert(e == as_edit(b, list[i].1[k]));
        lemma_edits_stay(old, b, list[i].1, e);
    }
}

/// The answer to a batch of renames that none refuses has the edits of every rename
/// of a file in some scope.
pub proof fn law_batches_have_all_edits(
    s: State,
    renames: Seq<FileRename>,
    n: int,
    i: int,
    k: int,
)
    requires
        rename_edits(s, renames) is Ok,
        0 <= n < renames.len(),
        is_placed(s, renames[n]),
        renames[n].verdict is Ok,
        ({
            let list = edit_list(renames[n].verdict->Ok_0);
            &&& 0 <= i < list.len()
            &&& 0 <= k < list[i].1.len()
            &&& s.store.current().contains_key(list[i].0)
        }),
    ensures
        ({
            let after = rename_edits(s, renames)->Ok_0;
            let list = edit_list(renames[n].verdict->Ok_0);
            let uri = uri::uri_of(list[i].0);
            let b = s.store.current()[list[i].0].data.tree.text();
            let m = list[i].1[k];
            after.contains_key(uri) && after[uri].contains(
                EditView {
                    range: Range {
                        start: rows::position_at(b, m.span.start as int),
                        end: rows::position_at(b, m.span.end as int),
                    },
                    new_text: m.new_text,
                },
            )
        }),
    decreases renames.len(),
{
    let most = renames.drop_last();
    let last = renames.last();
    let list = edit_list(renames[n].verdict->Ok_0);
    let uri = uri::uri_of(list[i].0);
    let b = s.store.current()[list[i].0].data.tree.text();
    let e = as_edit(b, list[i].1[k]);
    let before = rename_edits(s, most)->Ok_0;
    if n < renames.len() - 1 {
        assert(most[n] == renames[n]);
        law_batches_have_all_edits(s, most, n, i, k);
        if let Ok(more) = last.verdict {
            lemma_changes_stay(s, before, edit_list(more), uri, e);
        }
    } else {
        law_edits_of_all_documents_are_made(s, before, list, i, k);
    }
}

} // verus!

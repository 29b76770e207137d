//! The files on disk that links ask about.
use vstd::prelude::*;
use crate::path;
use crate::pathmap::PathMap;
use crate::text;
use crate::validation;
use crate::workspace::{Graph, Link, LinkKind};

verus! {

/// Whether a link in a project asks about a path: its target, if that is no
/// markdown document.
pub open spec fn link_asks(root: Seq<u8>, link: Link, p: Seq<u8>) -> bool {
    match link.kind {
        LinkKind::NonMarkdown { target } => target_asks(root, text::utf8(target@), p),
        LinkKind::IntraProject { target, .. } => target_asks(root, text::utf8(target@), p),
        _ => false,
    }
}

pub open spec fn target_asks(root: Seq<u8>, target: Seq<u8>, p: Seq<u8>) -> bool {
    !path::names_markdown(target) && p == path::child_of(root, target)
}

/// Whether one of some links asks about a path.
pub open spec fn asked_on_disk(root: Seq<u8>, links: Seq<Link>, p: Seq<u8>) -> bool {
    exists|i: int| 0 <= i < links.len() && link_asks(root, #[trigger] links[i], p)
}

/// Whether a document of a project asks about a path.
pub open spec fn project_asks(ws: Graph, p: Seq<u8>) -> bool {
    exists|n: int|
        0 <= n < ws.files.values().len() && asked_on_disk(
            ws.root,
            (#[trigger] ws.files.values()[n]).links@,
            p,
        )
}

fn note_target(root: &str, target: &str, found: &mut PathMap<()>)
    ensures
        forall|p: Seq<u8>| #[trigger]
            final(found)@.contains_key(p) <==> (old(found)@.contains_key(p) || target_asks(
                path::named(root@),
                text::utf8(target@),
                p,
            )),
{
    if !path::is_markdown(target) {
        found.insert(path::child(root, target), ());
    }
}

/// Note the files that the links of a document ask about.
pub fn link_targets(root: &str, links: &Vec<Link>, found: &mut PathMap<()>)
    ensures
        forall|p: Seq<u8>| #[trigger]
            final(found)@.contains_key(p) <==> (old(found)@.contains_key(p) || asked_on_disk(
                path::named(root@),
                links@,
                p,
            )),
{
    let ghost m0 = found@;
    let ghost r = path::named(root@);
    let mut i: usize = 0;
    while i < links.len()
        invariant
            i <= links@.len(),
            r == path::named(root@),
            forall|p: Seq<u8>| #[trigger]
                found@.contains_key(p) <==> (m0.contains_key(p) || exists|j: int|
                    0 <= j < i && link_asks(r, #[trigger] links@[j], p)),
        decreases links@.len() - i,
    {
        let ghost m1 = found@;
        match &links[i].kind {
            LinkKind::NonMarkdown { target } => {
                note_target(root, target.as_str(), found);
            },
            LinkKind::IntraProject { target, .. } => {
                note_target(root, target.as_str(), found);
            },
            _ => {},
        }
        proof {
            assert forall|p: Seq<u8>| #[trigger]
                found@.contains_key(p) <==> (m0.contains_key(p) || exists|j: int|
                    0 <= j < i + 1 && link_asks(r, #[trigger] links@[j], p)) by {
                assert(m1.contains_key(p) <==> (m0.contains_key(p) || exists|j: int|
                    0 <= j < i && link_asks(r, #[trigger] links@[j], p)));
                assert(found@.contains_key(p) <==> (m1.contains_key(p) || link_asks(
                    r,
                    links@[i as int],
                    p,
                )));
            }
        }
        i += 1;
    }
}

proof fn lemma_same_links(
    ws: Graph,
    a: Map<Seq<u8>, ()>,
    b: Map<Seq<u8>, ()>,
    file: Seq<u8>,
    links: Seq<Link>,
)
    requires
        forall|p: Seq<u8>|
            asked_on_disk(ws.root, links, p) ==> (#[trigger] a.contains_key(p) <==> b.contains_key(
                p,
            )),
    ensures
        validation::link_reports(ws, a, file, links) == validation::link_reports(
            ws,
            b,
            file,
            links,
        ),
    decreases links.len(),
{
    if links.len() > 0 {
        let rest = links.drop_last();
        let last = links.last();
        assert forall|p: Seq<u8>| asked_on_disk(ws.root, rest, p) implies (
        #[trigger] a.contains_key(p) <==> b.contains_key(p)) by {
            let i = choose|i: int| 0 <= i < rest.len() && link_asks(ws.root, #[trigger] rest[i], p);
            assert(links[i] == rest[i]);
            assert(asked_on_disk(ws.root, links, p));
        }
        lemma_same_links(ws, a, b, file, rest);
        assert forall|p: Seq<u8>| link_asks(ws.root, last, p) implies (#[trigger] a.contains_key(p)
            <==> b.contains_key(p)) by {
            assert(link_asks(ws.root, links[links.len() - 1], p));
            assert(asked_on_disk(ws.root, links, p));
        }
        match last.kind {
            LinkKind::NonMarkdown { target } => {
                let p = path::child_of(ws.root, text::utf8(target@));
                assert(a.contains_key(p) || !a.contains_key(p));
            },
            LinkKind::IntraProject { target, .. } => {
                let p = path::child_of(ws.root, text::utf8(target@));
                assert(a.contains_key(p) || !a.contains_key(p));
            },
            _ => {},
        }
        assert(validation::link_report(ws, a, file, last) == validation::link_report(
            ws,
            b,
            file,
            last,
        ));
    }
}

proof fn lemma_same_documents(ws: Graph, a: Map<Seq<u8>, ()>, b: Map<Seq<u8>, ()>, n: int)
    requires
        0 <= n <= ws.files.values().len(),
        forall|p: Seq<u8>|
            project_asks(ws, p) ==> (#[trigger] a.contains_key(p) <==> b.contains_key(p)),
    ensures
        validation::forward_reports(ws, a, n) == validation::forward_reports(ws, b, n),
    decreases n,
{
    if n > 0 {
        lemma_same_documents(ws, a, b, n - 1);
        let links = ws.files.values()[n - 1].links@;
        assert forall|p: Seq<u8>| asked_on_disk(ws.root, links, p) implies (
        #[trigger] a.contains_key(p) <==> b.contains_key(p)) by {
            assert(project_asks(ws, p));
        }
        lemma_same_links(ws, a, b, ws.files.keys()[n - 1], links);
    }
}

/// Only the files that links ask about matter: two disks that agree there give
/// the same findings.
pub proof fn law_other_files_do_not_matter(
    ws: Graph,
    a: Map<Seq<u8>, ()>,
    b: Map<Seq<u8>, ()>,
)
    requires
        ws.files.keys().len() == ws.files.values().len(),
        forall|p: Seq<u8>|
            project_asks(ws, p) ==> (#[trigger] a.contains_key(p) <==> b.contains_key(p)),
    ensures
        validation::all_findings(ws, a) == validation::all_findings(ws, b),
{
    lemma_same_documents(ws, a, b, ws.files.keys().len() as int);
}

} // verus!

//! How paths are read: what separators, `.`, `..` and extensions come to.
use vstd::prelude::*;
use crate::backlinks;
use crate::components;
use crate::path;
use crate::sorted::SEP;
use crate::structural::references;
use crate::structural::references::SceneView;
use crate::text;

verus! {

/// Whether a part of a path is a name by itself: not empty, without separators, and
/// neither `.` nor `..`.
pub open spec fn is_name(n: Seq<u8>) -> bool {
    &&& n.len() > 0
    &&& forall|i: int| 0 <= i < n.len() ==> #[trigger] n[i] != 47
    &&& n != seq![46u8]
    &&& n != seq![46u8, 46u8]
}

/// Whether all parts are names.
pub open spec fn are_names(list: Seq<Seq<u8>>) -> bool {
    forall|k: int| 0 <= k < list.len() ==> is_name(#[trigger] list[k])
}

/// A text is split at its slashes and nowhere else.
pub proof fn law_paths_are_split_at_slashes(a: Seq<u8>, b: Seq<u8>)
    ensures
        path::parts_from(a + seq![47u8] + b, 0) == path::parts_from(a, 0) + path::parts_from(b, 0),
        (forall|i: int| 0 <= i < a.len() ==> #[trigger] a[i] != 47) ==> path::parts_from(a, 0)
            == seq![a],
{
    components::lemma_parts_of_two(a, b, 0);
    assert(a.push(SEP) + b =~= a + seq![47u8] + b);
    if forall|i: int| 0 <= i < a.len() ==> #[trigger] a[i] != 47 {
        assert(components::unbroken(a));
        components::lemma_parts_of_joined(seq![a]);
    }
}

/// Parts are joined with one slash between each two.
pub proof fn law_parts_are_joined_by_slashes(list: Seq<Seq<u8>>, part: Seq<u8>)
    ensures
        path::joined(seq![part]) == part,
        list.len() > 0 ==> path::joined(list.push(part)) == path::joined(list) + seq![47u8] + part,
        path::joined(Seq::<Seq<u8>>::empty()) == Seq::<u8>::empty(),
{
    path::lemma_slash();
    assert(list.push(part).drop_last() =~= list);
}

// `.` and `..`.

proof fn lemma_same_start(p: Seq<Seq<u8>>, q: Seq<Seq<u8>>, s: Seq<Seq<u8>>, from_root: bool)
    requires
        path::collapsed(p, from_root) == path::collapsed(q, from_root),
    ensures
        path::collapsed(p + s, from_root) == path::collapsed(q + s, from_root),
    decreases s.len(),
{
    if s.len() == 0 {
        assert(p + s =~= p);
        assert(q + s =~= q);
    } else {
        lemma_same_start(p, q, s.drop_last(), from_root);
        assert((p + s).drop_last() =~= p + s.drop_last());
        assert((q + s).drop_last() =~= q + s.drop_last());
    }
}

/// A name and the `..` behind it go out together, and so does a `.`, wherever in a
/// path they stand.
pub proof fn law_dots_are_worked_out(a: Seq<u8>, n: Seq<u8>, b: Seq<u8>)
    requires
        is_name(n),
    ensures
        ({
            let slash = seq![47u8];
            let plain = a + slash + b;
            &&& path::normalized(a + slash + n + slash + seq![46u8, 46u8] + slash + b)
                == path::normalized(plain)
            &&& path::normalized(a + slash + seq![46u8] + slash + b) == path::normalized(plain)
            &&& path::escapes(a + slash + n + slash + seq![46u8, 46u8] + slash + b)
                == path::escapes(plain)
            &&& path::escapes(a + slash + seq![46u8] + slash + b) == path::escapes(plain)
        }),
{
    let slash = seq![47u8];
    let dot = seq![46u8];
    let dots = seq![46u8, 46u8];
    path::lemma_dots();
    let plain = a + slash + b;
    let up = a + slash + n + slash + dots + slash + b;
    let here = a + slash + dot + slash + b;
    let pa = path::parts_from(a, 0);
    let pb = path::parts_from(b, 0);
    law_paths_are_split_at_slashes(a, b);
    law_paths_are_split_at_slashes(dots, b);
    law_paths_are_split_at_slashes(dot, b);
    law_paths_are_split_at_slashes(n, dots + slash + b);
    law_paths_are_split_at_slashes(a, n + slash + (dots + slash + b));
    law_paths_are_split_at_slashes(a, dot + slash + b);
    assert(up =~= a + slash + (n + slash + (dots + slash + b)));
    assert(here =~= a + slash + (dot + slash + b));
    let r = path::rooted(plain);
    assert(path::rooted(up) == r && path::rooted(here) == r) by {
        if a.len() > 0 {
            assert(plain[0] == a[0] && up[0] == a[0] && here[0] == a[0]);
        } else {
            assert(plain[0] == 47 && up[0] == 47 && here[0] == 47);
        }
    }
    let p = pa.push(n).push(dots);
    assert(pa.push(n).drop_last() =~= pa);
    assert(p.drop_last() =~= pa.push(n));
    let base = path::collapsed(pa, r);
    assert(path::collapsed(pa.push(n), r) == base.push(n));
    assert(base.push(n).drop_last() =~= base);
    assert(path::collapsed(p, r) == base);
    lemma_same_start(p, pa, pb, r);
    assert(path::parts_from(up, 0) =~= p + pb);
    let q = pa.push(dot);
    assert(q.drop_last() =~= pa);
    assert(path::collapsed(q, r) == base);
    lemma_same_start(q, pa, pb, r);
    assert(path::parts_from(here, 0) =~= q + pb);
}

proof fn lemma_names_stay(list: Seq<Seq<u8>>, from_root: bool)
    requires
        are_names(list),
    ensures
        path::collapsed(list, from_root) == list,
    decreases list.len(),
{
    path::lemma_dots();
    if list.len() > 0 {
        let most = list.drop_last();
        assert forall|k: int| 0 <= k < most.len() implies is_name(#[trigger] most[k]) by {
            assert(most[k] == list[k]);
        }
        lemma_names_stay(most, from_root);
        assert(is_name(list[list.len() - 1]));
        assert(most.push(list.last()) =~= list);
    }
}

pub(crate) proof fn lemma_names_parts(list: Seq<Seq<u8>>)
    requires
        are_names(list),
        list.len() > 0,
    ensures
        path::parts_from(path::joined(list), 0) == list,
        !path::rooted(path::joined(list)),
        components::clean(list, false),
        path::segments(path::joined(list)) == list,
{
    path::lemma_dots();
    assert forall|k: int| 0 <= k < list.len() implies components::unbroken(#[trigger] list[k]) by {
        assert(is_name(list[k]));
    }
    components::lemma_parts_of_joined(list);
    assert(is_name(list[0]));
    components::lemma_joined_start(list);
    assert forall|k: int| 0 <= k < list.len() implies (#[trigger] list[k]).len() > 0
        && list[k] != text::utf8("."@) by {
        assert(is_name(list[k]));
    }
    components::lemma_written(list, false);
}

/// A path that is made of names stands for itself and leads nowhere out.
pub proof fn law_plain_paths_stay(list: Seq<Seq<u8>>)
    requires
        are_names(list),
        list.len() > 0,
    ensures
        path::normalized(path::joined(list)) == path::joined(list),
        path::normal_form(path::joined(list)) == path::joined(list),
        !path::escapes(path::joined(list)),
{
    lemma_names_parts(list);
    lemma_names_stay(list, false);
    path::lemma_dots();
    assert(is_name(list[0]));
}

/// A path that starts with `..` leads out, whatever follows.
pub proof fn law_leading_dots_lead_out(b: Seq<u8>)
    ensures
        path::escapes(seq![46u8, 46u8] + seq![47u8] + b),
        path::escapes(seq![46u8, 46u8]),
{
    let dots = seq![46u8, 46u8];
    path::lemma_dots();
    law_paths_are_split_at_slashes(dots, b);
    let whole = dots + seq![47u8] + b;
    assert(whole[0] == 46);
    lemma_out_stays_out(seq![dots], path::parts_from(b, 0));
    lemma_one_up();
}

proof fn lemma_one_up()
    ensures
        path::collapsed(seq![seq![46u8, 46u8]], false) == seq![seq![46u8, 46u8]],
{
    path::lemma_dots();
    let p = seq![seq![46u8, 46u8]];
    let none = Seq::<Seq<u8>>::empty();
    assert(p.drop_last() =~= none);
    assert(path::collapsed(none, false) =~= none);
    assert(path::step(none, p.last(), false) =~= p);
}

proof fn lemma_out_stays_out(p: Seq<Seq<u8>>, s: Seq<Seq<u8>>)
    requires
        p == seq![seq![46u8, 46u8]],
    ensures
        path::collapsed(p + s, false).len() > 0,
        path::collapsed(p + s, false)[0] == seq![46u8, 46u8],
    decreases s.len(),
{
    path::lemma_dots();
    if s.len() == 0 {
        assert(p + s =~= p);
        lemma_one_up();
    } else {
        lemma_out_stays_out(p, s.drop_last());
        assert((p + s).drop_last() =~= p + s.drop_last());
    }
}

// Directories.

/// The directory of a path is the path without its last name, and a path in that
/// directory is written with a slash between the two.
pub proof fn law_directories_are_the_front(list: Seq<Seq<u8>>, n: Seq<u8>)
    requires
        are_names(list),
        is_name(n),
        list.len() > 0,
    ensures
        path::parent(path::joined(list.push(n))) == path::joined(list),
        path::parent(n) == Seq::<u8>::empty(),
        path::join(path::joined(list), n) == path::joined(list.push(n)),
        path::join(Seq::empty(), n) == n,
        path::join(path::joined(list), seq![47u8] + n) == seq![47u8] + n,
{
    let all = list.push(n);
    assert forall|k: int| 0 <= k < all.len() implies is_name(#[trigger] all[k]) by {
        if k < list.len() {
            assert(all[k] == list[k]);
        }
    }
    lemma_names_parts(all);
    assert(all.drop_last() =~= list);
    assert(are_names(seq![n]));
    lemma_names_parts(seq![n]);
    law_parts_are_joined_by_slashes(list, n);
    assert(seq![n].drop_last() =~= Seq::<Seq<u8>>::empty());
    path::lemma_slash();
    lemma_names_parts(list);
    assert(is_name(list[0]));
    components::lemma_joined_start(list);
    lemma_joined_last(list);
    assert(n[0] != 47);
    assert((seq![47u8] + n)[0] == 47);
}

proof fn lemma_joined_last(list: Seq<Seq<u8>>)
    requires
        are_names(list),
        list.len() > 0,
    ensures
        path::joined(list).len() > 0,
        path::joined(list).last() != 47,
{
    let n = list.last();
    assert(is_name(list[list.len() - 1]));
    assert(n[n.len() - 1] != 47);
    if list.len() > 1 {
        law_parts_are_joined_by_slashes(list.drop_last(), n);
        assert(list.drop_last().push(n) =~= list);
    } else {
        assert(list =~= seq![n]);
    }
}

/// A file is markdown if its name ends with `.md` and has more than that.
pub proof fn law_markdown_is_told_by_the_extension(list: Seq<Seq<u8>>, n: Seq<u8>)
    requires
        are_names(list),
        is_name(n),
    ensures
        path::names_markdown(path::joined(list.push(n))) == (n.len() > 3 && n[n.len() - 3] == 46
            && n[n.len() - 2] == 109 && n[n.len() - 1] == 100),
{
    let all = list.push(n);
    assert forall|k: int| 0 <= k < all.len() implies is_name(#[trigger] all[k]) by {
        if k < list.len() {
            assert(all[k] == list[k]);
        }
    }
    lemma_names_parts(all);
    path::lemma_dots();
    reveal_strlit(".md");
    assert(vstd::utf8::is_ascii_chars(".md"@));
    vstd::utf8::is_ascii_chars_encode_utf8(".md"@);
    let md = seq![46u8, 109u8, 100u8];
    assert(text::utf8(".md"@) =~= md);
    if n.len() > 3 {
        let tail = n.subrange(n.len() - 3, n.len() as int);
        assert(tail[0] == n[n.len() - 3] && tail[1] == n[n.len() - 2] && tail[2] == n[n.len() - 1]);
        if tail[0] == 46 && tail[1] == 109 && tail[2] == 100 {
            assert(tail =~= md);
        }
    }
}

// References.

proof fn lemma_names_together(a: Seq<Seq<u8>>, b: Seq<Seq<u8>>)
    requires
        are_names(a),
        are_names(b),
    ensures
        are_names(a + b),
{
    let all = a + b;
    assert forall|k: int| 0 <= k < all.len() implies is_name(#[trigger] all[k]) by {
        if k < a.len() {
            assert(all[k] == a[k]);
        } else {
            assert(all[k] == b[k - a.len()]);
        }
    }
}

/// A reference that is made of names is found exactly if there is such a file in
/// the directory of the file that it stands in, or from the root on.
pub proof fn law_references_are_found_from_here_or_the_root(
    scene: SceneView,
    dir: Seq<Seq<u8>>,
    name: Seq<u8>,
    target: Seq<Seq<u8>>,
)
    requires
        are_names(dir),
        is_name(name),
        are_names(target),
        target.len() > 0,
        !vstd::utf8::is_continuation_byte(target[0][0]),
        scene.file == path::joined(dir.push(name)),
    ensures
        references::resolves(scene, path::joined(target)) == (scene.files.contains_key(
            path::joined(dir + target),
        ) || scene.files.contains_key(path::joined(target))),
        references::resolves(scene, seq![47u8] + path::joined(target))
            == scene.files.contains_key(path::joined(target)),
{
    let t = path::joined(target);
    lemma_names_together(dir, target);
    lemma_names_parts(target);
    law_plain_paths_stay(target);
    law_plain_paths_stay(dir + target);
    lemma_dir(dir, name);
    if dir.len() > 0 {
        lemma_names_parts(dir);
        lemma_joined_last(dir);
        components::lemma_joined_two(dir, target);
        path::lemma_slash();
        assert(path::join(path::joined(dir), t) =~= path::joined(dir + target));
    } else {
        assert(dir + target =~= target);
        assert(dir =~= Seq::<Seq<u8>>::empty());
    }
    let slashed = seq![47u8] + t;
    assert(slashed[0] == 47);
    assert(is_name(target[0]));
    components::lemma_joined_start(target);
    assert(slashed[1] == t[0]);
    assert(text::piece(slashed, 1, slashed.len() as int) =~= t);
}

/// A reference that starts with `..` is found exactly if there is such a file in
/// the directory around that of the file that it stands in; from the top, it is not
/// found.
pub proof fn law_references_go_up(
    scene: SceneView,
    dir: Seq<Seq<u8>>,
    name: Seq<u8>,
    target: Seq<Seq<u8>>,
)
    requires
        are_names(dir),
        is_name(name),
        are_names(target),
        target.len() > 0,
        scene.file == path::joined(dir.push(name)),
    ensures
        references::resolves(
            scene,
            seq![46u8, 46u8] + seq![47u8] + path::joined(target),
        ) == (dir.len() > 0 && scene.files.contains_key(
            path::joined(dir.drop_last() + target),
        )),
{
    let t = path::joined(target);
    let dots = seq![46u8, 46u8];
    let r = dots + seq![47u8] + t;
    path::lemma_dots();
    path::lemma_slash();
    assert(r[0] == 46);
    law_leading_dots_lead_out(t);
    lemma_dir(dir, name);
    if dir.len() > 0 {
        lemma_up_and_down(dir, target);
    } else {
        assert(dir =~= Seq::<Seq<u8>>::empty());
    }
}

proof fn lemma_dir(dir: Seq<Seq<u8>>, name: Seq<u8>)
    requires
        are_names(dir),
        is_name(name),
    ensures
        path::parent(path::joined(dir.push(name))) == path::joined(dir),
{
    if dir.len() > 0 {
        law_directories_are_the_front(dir, name);
    } else {
        assert(dir.push(name) =~= seq![name]);
        assert(are_names(seq![name]));
        lemma_names_parts(seq![name]);
        assert(seq![name].drop_last() =~= Seq::<Seq<u8>>::empty());
        assert(dir =~= Seq::<Seq<u8>>::empty());
    }
}

/// What a backlink names is read from the directory of the document that it stands
/// in; a leading `..` goes up from there.
pub proof fn law_backlinks_are_read_from_the_document(
    dir: Seq<Seq<u8>>,
    name: Seq<u8>,
    target: Seq<Seq<u8>>,
)
    requires
        are_names(dir),
        is_name(name),
        are_names(target),
        target.len() > 0,
    ensures
        backlinks::backlink_target(path::joined(dir.push(name)), path::joined(target))
            == path::joined(dir + target),
        dir.len() > 0 ==> backlinks::backlink_target(
            path::joined(dir.push(name)),
            seq![46u8, 46u8] + seq![47u8] + path::joined(target),
        ) == path::joined(dir.drop_last() + target),
{
    let t = path::joined(target);
    lemma_names_together(dir, target);
    lemma_names_parts(target);
    law_plain_paths_stay(dir + target);
    lemma_dir(dir, name);
    path::lemma_slash();
    path::lemma_dots();
    if dir.len() > 0 {
        lemma_names_parts(dir);
        lemma_joined_last(dir);
        components::lemma_joined_two(dir, target);
        assert(path::join(path::joined(dir), t) =~= path::joined(dir + target));
        lemma_up_and_down(dir, target);
    } else {
        assert(dir + target =~= target);
        assert(dir =~= Seq::<Seq<u8>>::empty());
    }
}

/// One step up from a directory, and down again.
proof fn lemma_up_and_down(dir: Seq<Seq<u8>>, target: Seq<Seq<u8>>)
    requires
        are_names(dir),
        are_names(target),
        dir.len() > 0,
        target.len() > 0,
    ensures
        ({
            let r = seq![46u8, 46u8] + seq![47u8] + path::joined(target);
            let c = path::join(path::joined(dir), r);
            path::normalized(c) == path::joined(dir.drop_last() + target) && !path::escapes(c)
        }),
{
    let t = path::joined(target);
    let dots = seq![46u8, 46u8];
    let r = dots + seq![47u8] + t;
    path::lemma_dots();
    path::lemma_slash();
    assert(r[0] == 46);
    let up = dir.drop_last();
    assert forall|k: int| 0 <= k < up.len() implies is_name(#[trigger] up[k]) by {
        assert(up[k] == dir[k]);
    }
    lemma_names_parts(dir);
    lemma_names_parts(target);
    lemma_joined_last(dir);
    let c = path::join(path::joined(dir), r);
    assert(c =~= path::joined(dir) + seq![47u8] + r);
    law_paths_are_split_at_slashes(path::joined(dir), r);
    law_paths_are_split_at_slashes(dots, t);
    assert(is_name(dir[0]));
    components::lemma_joined_start(dir);
    assert(c[0] == path::joined(dir)[0]);
    assert(!path::rooted(c));
    let p = dir.push(dots);
    assert(p.drop_last() =~= dir);
    lemma_names_stay(dir, false);
    lemma_names_stay(up, false);
    assert(is_name(dir[dir.len() - 1]));
    assert(path::collapsed(p, false) == up);
    lemma_same_start(p, up, target, false);
    lemma_names_together(up, target);
    lemma_names_stay(up + target, false);
    assert(path::parts_from(c, 0) =~= p + target);
    assert(is_name((up + target)[0]));
}

// References from one file to another.

proof fn lemma_names_two(a: Seq<Seq<u8>>, b: Seq<Seq<u8>>)
    requires
        are_names(a),
        are_names(b),
    ensures
        are_names(a + b),
{
    let all = a + b;
    assert forall|k: int| 0 <= k < all.len() implies is_name(#[trigger] all[k]) by {
        if k < a.len() {
            assert(all[k] == a[k]);
        } else {
            assert(all[k] == b[k - a.len()]);
        }
    }
}

proof fn lemma_shared_names(a: Seq<Seq<u8>>, b: Seq<Seq<u8>>, n: int, k: int)
    requires
        0 <= k <= n <= a.len(),
        n <= b.len(),
        forall|j: int| 0 <= j < n ==> #[trigger] a[j] == b[j],
        n == a.len() || n == b.len() || a[n] != b[n],
    ensures
        backlinks::shared(a, b, k) == n,
    decreases n - k,
{
    if k < n {
        assert(a[k] == b[k]);
        lemma_shared_names(a, b, n, k + 1);
    }
}

/// One file is referred to from another by as many `..` as lead out of the directories
/// that the two do not share, and then the rest of the path; a file in the same
/// directory by its name alone.
pub proof fn law_references_go_no_further_up_than_needed(
    common: Seq<Seq<u8>>,
    a: Seq<Seq<u8>>,
    f: Seq<u8>,
    b: Seq<Seq<u8>>,
)
    requires
        are_names(common),
        are_names(a),
        is_name(f),
        are_names(b),
        b.len() > 0,
        a.len() > 0 ==> a[0] != b[0],
    ensures
        backlinks::relative_path(path::joined((common + a).push(f)), path::joined(common + b))
            == path::joined(Seq::new(a.len(), |i: int| seq![46u8, 46u8]) + b),
{
    path::lemma_dots();
    let dir = common + a;
    let to = common + b;
    lemma_names_two(common, a);
    lemma_names_two(common, b);
    lemma_names_parts(to);
    let from = path::parent(path::joined(dir.push(f)));
    if dir.len() > 0 {
        law_directories_are_the_front(dir, f);
        lemma_names_parts(dir);
    } else {
        assert(dir.push(f) =~= seq![f]);
        law_parts_are_joined_by_slashes(dir, f);
        assert(are_names(seq![f]));
        law_directories_are_the_front(seq![f], f);
        lemma_no_segments();
        assert(dir =~= Seq::<Seq<u8>>::empty());
    }
    assert(path::segments(from) == dir);
    let n = common.len() as int;
    assert forall|j: int| 0 <= j < n implies #[trigger] dir[j] == to[j] by {
        assert(dir[j] == common[j] && to[j] == common[j]);
    }
    if n < dir.len() && n < to.len() {
        assert(dir[n] == a[0] && to[n] == b[0]);
    }
    lemma_shared_names(dir, to, n, 0);
    let ups = Seq::new(a.len(), |i: int| seq![46u8, 46u8]);
    assert(to.skip(n) =~= b);
    assert(backlinks::relative_names(dir, to) =~= ups + b);
}

proof fn lemma_no_segments()
    ensures
        path::segments(Seq::<u8>::empty()) == Seq::<Seq<u8>>::empty(),
{
    let none = Seq::<u8>::empty();
    law_paths_are_split_at_slashes(none, none);
    assert(path::parts_from(none, 0) == seq![none]);
    assert(seq![none].drop_last() =~= Seq::<Seq<u8>>::empty());
    reveal_with_fuel(path::names_of, 2);
    assert(path::segments(none) =~= Seq::<Seq<u8>>::empty());
}

} // verus!

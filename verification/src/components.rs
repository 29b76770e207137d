//! Paths by their components: what holds of the normal form of paths.
use vstd::prelude::*;
use crate::path;
use crate::sorted::SEP;
use crate::text;

verus! {

/// Whether a part has no separator in it.
pub open spec fn unbroken(part: Seq<u8>) -> bool {
    forall|i: int| 0 <= i < part.len() ==> #[trigger] part[i] != SEP
}

/// Whether a list can be the components of a path: names without separators,
/// and `.` at most in front of a path that does not start at the root.
pub open spec fn clean(list: Seq<Seq<u8>>, from_root: bool) -> bool {
    &&& forall|k: int| 0 <= k < list.len() ==> (#[trigger] list[k]).len() > 0 && unbroken(list[k])
    &&& forall|k: int|
        0 <= k < list.len() && (k > 0 || from_root) ==> #[trigger] list[k] != text::utf8("."@)
}

proof fn lemma_sep_at(b: Seq<u8>, i: int, n: int)
    requires
        0 <= i <= n <= b.len(),
        forall|j: int| i <= j < n ==> #[trigger] b[j] != SEP,
        n < b.len() ==> b[n] == SEP,
    ensures
        path::sep_from(b, i) == n,
    decreases n - i,
{
    if i < n {
        lemma_sep_at(b, i + 1, n);
    }
}

proof fn lemma_no_sep_before(b: Seq<u8>, i: int)
    requires
        0 <= i <= b.len(),
    ensures
        forall|j: int| i <= j < path::sep_from(b, i) ==> #[trigger] b[j] != SEP,
    decreases b.len() - i,
{
    if i < b.len() && b[i] != SEP {
        lemma_no_sep_before(b, i + 1);
    }
}

/// The parts of a path have no separators in them, and there is at least one.
pub proof fn lemma_parts_unbroken(b: Seq<u8>, i: int)
    requires
        0 <= i <= b.len(),
    ensures
        path::parts_from(b, i).len() > 0,
        forall|k: int|
            0 <= k < path::parts_from(b, i).len() ==> unbroken(#[trigger] path::parts_from(b, i)[k]),
    decreases b.len() - i,
{
    let n = path::sep_from(b, i);
    path::lemma_sep_from(b, i);
    lemma_no_sep_before(b, i);
    let first = b.subrange(i, n);
    assert forall|j: int| 0 <= j < first.len() implies #[trigger] first[j] != SEP by {
        assert(b[i + j] != SEP);
    }
    if n < b.len() {
        lemma_parts_unbroken(b, n + 1);
        let rest = path::parts_from(b, n + 1);
        assert forall|k: int| 0 <= k < path::parts_from(b, i).len() implies unbroken(
            #[trigger] path::parts_from(b, i)[k],
        ) by {
            if k > 0 {
                assert(path::parts_from(b, i)[k] == rest[k - 1]);
            } else {
                assert(path::parts_from(b, i)[0] == first);
            }
        }
    } else {
        assert(path::parts_from(b, i)[0] == first);
    }
}

proof fn lemma_shifted(a: Seq<u8>, x: Seq<u8>, i: int)
    requires
        0 <= i <= x.len(),
    ensures
        path::parts_from(a + x, a.len() + i) == path::parts_from(x, i),
    decreases x.len() - i,
{
    let c = a + x;
    let n = path::sep_from(x, i);
    path::lemma_sep_from(x, i);
    lemma_no_sep_before(x, i);
    assert forall|j: int| a.len() + i <= j < a.len() + n implies #[trigger] c[j] != SEP by {
        assert(c[j] == x[j - a.len()]);
    }
    lemma_sep_at(c, a.len() + i, a.len() + n);
    assert(c.subrange(a.len() + i, a.len() + n) =~= x.subrange(i, n));
    if n < x.len() {
        lemma_shifted(a, x, n + 1);
        assert(path::parts_from(c, a.len() + i) =~= path::parts_from(x, i));
    } else {
        assert(path::parts_from(c, a.len() + i) =~= path::parts_from(x, i));
    }
}

/// The parts of two texts with a separator between them are those of the one and
/// those of the other.
pub proof fn lemma_parts_of_two(a: Seq<u8>, x: Seq<u8>, i: int)
    requires
        0 <= i <= a.len(),
    ensures
        path::parts_from(a.push(SEP) + x, i) == path::parts_from(a, i) + path::parts_from(x, 0),
    decreases a.len() - i,
{
    let c = a.push(SEP) + x;
    let n = path::sep_from(a, i);
    path::lemma_sep_from(a, i);
    lemma_no_sep_before(a, i);
    assert forall|j: int| i <= j < n implies #[trigger] c[j] != SEP by {
        assert(c[j] == a[j]);
    }
    assert(c[n] == SEP);
    lemma_sep_at(c, i, n);
    assert(c.subrange(i, n) =~= a.subrange(i, n));
    if n < a.len() {
        lemma_parts_of_two(a, x, n + 1);
        assert(path::parts_from(c, i) =~= path::parts_from(a, i) + path::parts_from(x, 0));
    } else {
        lemma_shifted(a.push(SEP), x, 0);
        assert(path::parts_from(c, i) =~= path::parts_from(a, i) + path::parts_from(x, 0));
    }
}

/// Parts that are joined come apart again.
pub proof fn lemma_parts_of_joined(list: Seq<Seq<u8>>)
    requires
        list.len() > 0,
        forall|k: int| 0 <= k < list.len() ==> unbroken(#[trigger] list[k]),
    ensures
        path::parts_from(path::joined(list), 0) == list,
    decreases list.len(),
{
    let last = list.last();
    assert(unbroken(list[list.len() - 1]));
    lemma_sep_at(last, 0, last.len() as int);
    assert(last.subrange(0, last.len() as int) =~= last);
    assert(path::parts_from(last, 0) =~= seq![last]);
    if list.len() == 1 {
        assert(list =~= seq![last]);
    } else {
        let most = list.drop_last();
        assert forall|k: int| 0 <= k < most.len() implies unbroken(#[trigger] most[k]) by {
            assert(most[k] == list[k]);
        }
        lemma_parts_of_joined(most);
        path::lemma_slash();
        let a = path::joined(most);
        assert(path::joined(list) =~= a.push(SEP) + last);
        lemma_parts_of_two(a, last, 0);
        assert(list =~= most + seq![last]);
    }
}

/// Joining two lists is joining each, with a separator between them.
pub proof fn lemma_joined_two(a: Seq<Seq<u8>>, b: Seq<Seq<u8>>)
    requires
        a.len() > 0,
        b.len() > 0,
    ensures
        path::joined(a + b) == path::joined(a).push(SEP) + path::joined(b),
    decreases b.len(),
{
    path::lemma_slash();
    let both = a + b;
    assert(both.last() == b.last());
    if b.len() == 1 {
        assert(both.drop_last() =~= a);
        assert(path::joined(both) =~= path::joined(a).push(SEP) + path::joined(b));
    } else {
        assert(both.drop_last() =~= a + b.drop_last());
        lemma_joined_two(a, b.drop_last());
        assert(path::joined(both) =~= path::joined(a).push(SEP) + path::joined(b));
    }
}

proof fn lemma_names_clean(parts: Seq<Seq<u8>>)
    requires
        forall|k: int| 0 <= k < parts.len() ==> unbroken(#[trigger] parts[k]),
    ensures
        clean(path::names_of(parts), parts.len() > 0 && parts[0].len() == 0),
        path::names_of(parts).len() <= parts.len(),
        path::names_of(parts).len() > 0 && path::names_of(parts)[0] == text::utf8("."@)
            ==> parts[0] == text::utf8("."@),
    decreases parts.len(),
{
    if parts.len() > 0 {
        let most = parts.drop_last();
        assert forall|k: int| 0 <= k < most.len() implies unbroken(#[trigger] most[k]) by {
            assert(most[k] == parts[k]);
        }
        lemma_names_clean(most);
        assert(unbroken(parts[parts.len() - 1]));
        if most.len() > 0 {
            assert(most[0] == parts[0]);
        }
        path::lemma_dots();
    }
}

proof fn lemma_names_kept(list: Seq<Seq<u8>>)
    requires
        clean(list, false),
    ensures
        path::names_of(list) == list,
    decreases list.len(),
{
    if list.len() > 0 {
        let most = list.drop_last();
        assert(clean(most, false)) by {
            assert forall|k: int| 0 <= k < most.len() implies (#[trigger] most[k]).len() > 0
                && unbroken(most[k]) by {
                assert(most[k] == list[k]);
            }
            assert forall|k: int| 0 <= k < most.len() && k > 0 implies #[trigger] most[k]
                != text::utf8("."@) by {
                assert(most[k] == list[k]);
            }
        }
        lemma_names_kept(most);
        let last = list[list.len() - 1];
        assert(last.len() > 0);
        assert(list =~= most.push(last));
    } else {
        assert(path::names_of(list) =~= list);
    }
}

proof fn lemma_names_behind_root(list: Seq<Seq<u8>>)
    requires
        clean(list, true),
    ensures
        path::names_of(seq![Seq::<u8>::empty()] + list) == list,
    decreases list.len(),
{
    let all = seq![Seq::<u8>::empty()] + list;
    if list.len() > 0 {
        let most = list.drop_last();
        assert(clean(most, true)) by {
            assert forall|k: int| 0 <= k < most.len() implies (#[trigger] most[k]).len() > 0
                && unbroken(most[k]) && most[k] != text::utf8("."@) by {
                assert(most[k] == list[k]);
            }
        }
        lemma_names_behind_root(most);
        assert(all.drop_last() =~= seq![Seq::<u8>::empty()] + most);
        let last = list[list.len() - 1];
        assert(last.len() > 0 && last != text::utf8("."@));
        assert(list =~= most.push(last));
    } else {
        assert(all.drop_last() =~= Seq::<Seq<u8>>::empty());
        assert(all.last().len() == 0);
        reveal_with_fuel(path::names_of, 2);
        assert(path::names_of(all) =~= list);
    }
}

/// The components of any path are clean.
pub proof fn lemma_segments_clean(b: Seq<u8>)
    ensures
        clean(path::segments(b), path::rooted(b)),
{
    let parts = path::parts_from(b, 0);
    lemma_parts_unbroken(b, 0);
    lemma_names_clean(parts);
    path::lemma_sep_from(b, 0);
    if path::rooted(b) {
        assert(path::sep_from(b, 0) == 0);
        assert(parts[0] =~= b.subrange(0, 0));
        assert(parts[0].len() == 0);
    } else {
        lemma_weaker(path::segments(b), parts.len() > 0 && parts[0].len() == 0);
    }
}

proof fn lemma_weaker(list: Seq<Seq<u8>>, from_root: bool)
    requires
        clean(list, from_root),
    ensures
        clean(list, false),
{
}

/// A path is written from clean components, and read back from them.
pub proof fn lemma_written(list: Seq<Seq<u8>>, from_root: bool)
    requires
        clean(list, from_root),
    ensures
        path::segments(path::written(list, from_root)) == list,
        path::rooted(path::written(list, from_root)) == from_root,
{
    path::lemma_slash();
    let b = path::written(list, from_root);
    let text = path::joined(list);
    if list.len() > 0 {
        lemma_parts_of_joined(list);
        lemma_joined_start(list);
    } else {
        lemma_sep_at(text, 0, 0);
        assert(path::parts_from(text, 0) =~= seq![text.subrange(0, 0)]);
        assert(text.subrange(0, 0) =~= Seq::<u8>::empty());
    }
    if from_root {
        let none = Seq::<u8>::empty();
        assert(b =~= none.push(SEP) + text);
        lemma_parts_of_two(none, text, 0);
        lemma_sep_at(none, 0, 0);
        assert(path::parts_from(none, 0) =~= seq![none]) by {
            assert(none.subrange(0, 0) =~= none);
        }
        if list.len() > 0 {
            lemma_names_behind_root(list);
        } else {
            let two = seq![none] + seq![none];
            assert(path::parts_from(b, 0) =~= two);
            assert(two.drop_last() =~= seq![none]);
            assert(seq![none].drop_last() =~= Seq::<Seq<u8>>::empty());
            reveal_with_fuel(path::names_of, 3);
            assert(path::names_of(two) =~= list);
        }
    } else {
        lemma_weaker(list, from_root);
        if list.len() > 0 {
            lemma_names_kept(list);
        } else {
            assert(path::parts_from(b, 0) =~= seq![Seq::<u8>::empty()]);
            assert(seq![Seq::<u8>::empty()].drop_last() =~= Seq::<Seq<u8>>::empty());
            reveal_with_fuel(path::names_of, 2);
            assert(path::names_of(path::parts_from(b, 0)) =~= list);
        }
    }
}

pub proof fn lemma_joined_start(list: Seq<Seq<u8>>)
    requires
        list.len() > 0,
        list[0].len() > 0,
    ensures
        path::joined(list).len() > 0,
        path::joined(list)[0] == list[0][0],
        path::joined(list).len() >= list.last().len(),
    decreases list.len(),
{
    if list.len() > 1 {
        lemma_joined_start(list.drop_last());
    }
}

/// The normal form of a path has the components of the path, and is in normal
/// form itself.
pub proof fn lemma_normal_form(b: Seq<u8>)
    ensures
        path::segments(path::normal_form(b)) == path::segments(b),
        path::rooted(path::normal_form(b)) == path::rooted(b),
        path::normal_form(path::normal_form(b)) == path::normal_form(b),
{
    lemma_segments_clean(b);
    lemma_written(path::segments(b), path::rooted(b));
}

/// Two paths have one normal form exactly if they have the same components and
/// start at the same place.
pub proof fn law_equal_components_equal_paths(a: Seq<u8>, b: Seq<u8>)
    ensures
        path::normal_form(a) == path::normal_form(b) <==> path::segments(a) == path::segments(b)
            && path::rooted(a) == path::rooted(b),
{
    lemma_normal_form(a);
    lemma_normal_form(b);
}

// Directories.

/// Whether a path starts with the components of another: both from the root or
/// both not, unless that one has none.
pub open spec fn starts_with(p: Seq<u8>, r: Seq<u8>) -> bool {
    &&& path::segments(r).len() <= path::segments(p).len()
    &&& path::segments(p).take(path::segments(r).len() as int) == path::segments(r)
    &&& path::rooted(r) ==> path::rooted(p)
    &&& path::rooted(p) && path::segments(r).len() > 0 ==> path::rooted(r)
}

proof fn lemma_names_grow(a: Seq<Seq<u8>>, b: Seq<Seq<u8>>)
    ensures
        path::names_of(a).len() <= path::names_of(a + b).len(),
        path::names_of(a + b).take(path::names_of(a).len() as int) == path::names_of(a),
    decreases b.len(),
{
    let n = path::names_of(a).len() as int;
    if b.len() == 0 {
        assert(a + b =~= a);
        assert(path::names_of(a).take(n) =~= path::names_of(a));
    } else {
        lemma_names_grow(a, b.drop_last());
        let most = a + b.drop_last();
        assert((a + b).drop_last() =~= most);
        assert(path::names_of(a + b).take(n) =~= path::names_of(most).take(n));
    }
}

/// In normal form, a path is under a directory exactly if it starts with the
/// components of the directory.
pub proof fn law_directories_hold_by_components(p: Seq<u8>, r: Seq<u8>)
    ensures
        path::under(path::normal_form(p), path::normal_form(r)) == starts_with(p, r),
{
    path::lemma_slash();
    lemma_segments_clean(p);
    lemma_segments_clean(r);
    lemma_normal_form(p);
    lemma_normal_form(r);
    let x = path::normal_form(p);
    let y = path::normal_form(r);
    let ps = path::segments(p);
    let rs = path::segments(r);
    if rs.len() == 0 {
        assert(ps.take(0) =~= rs);
        if path::rooted(r) {
            assert(y =~= seq![SEP]);
            if path::rooted(p) {
                assert(x.subrange(0, 1) =~= y);
            } else if path::under(x, y) {
                assert(x.subrange(0, 1)[0] == SEP || x == y);
            }
        } else {
            assert(y =~= Seq::<u8>::empty());
        }
    } else {
        lemma_last_byte(rs);
        assert(y.len() > 0);
        assert(y.last() == path::joined(rs).last());
        if path::under(x, y) && x != y {
            assert(x.subrange(0, y.len() as int) == y);
            assert(x.len() > y.len() + 1 && x[y.len() as int] == SEP);
            let rest = x.subrange((y.len() + 1) as int, x.len() as int);
            assert(x =~= y.push(SEP) + rest);
            lemma_parts_of_two(y, rest, 0);
            lemma_names_grow(path::parts_from(y, 0), path::parts_from(rest, 0));
            assert(x[0] == y[0]);
        }
        if path::under(x, y) && x == y {
            assert(ps.take(rs.len() as int) =~= rs);
        }
        if starts_with(p, r) {
            if ps.len() == rs.len() {
                assert(ps =~= ps.take(rs.len() as int));
                assert(x == y);
            } else {
                let rest = ps.skip(rs.len() as int);
                assert(ps =~= rs + rest);
                lemma_joined_two(rs, rest);
                assert(rest[0] == ps[rs.len() as int]);
                lemma_joined_start(rest);
                assert(x =~= y.push(SEP) + path::joined(rest));
                assert(x.subrange(0, y.len() as int) =~= y);
                assert(x[y.len() as int] == SEP);
            }
        }
    }
}

pub proof fn lemma_last_byte(list: Seq<Seq<u8>>)
    requires
        list.len() > 0,
        forall|k: int| 0 <= k < list.len() ==> (#[trigger] list[k]).len() > 0 && unbroken(list[k]),
    ensures
        path::joined(list).len() > 0,
        path::joined(list).last() != SEP,
{
    let last = list[list.len() - 1];
    assert(last.len() > 0 && unbroken(last));
    assert(last[last.len() - 1] != SEP);
    path::lemma_slash();
    if list.len() > 1 {
        assert(path::joined(list).last() == last[last.len() - 1]);
    }
}

/// What is left of a path behind a directory is in normal form.
pub proof fn lemma_relative_normal(p: Seq<u8>, r: Seq<u8>)
    requires
        path::under(path::normal_form(p), path::normal_form(r)),
    ensures
        ({
            let rel = path::relative(path::normal_form(p), path::normal_form(r));
            &&& path::normal_form(rel) == rel
            &&& path::segments(rel) == path::segments(p).skip(path::segments(r).len() as int)
            &&& path::rooted(rel) ==> path::normal_form(r).len() == 0
            &&& path::normal_form(r).len() > 0 ==> clean(path::segments(rel), true)
        }),
{
    law_directories_hold_by_components(p, r);
    path::lemma_slash();
    lemma_segments_clean(p);
    lemma_segments_clean(r);
    lemma_normal_form(p);
    lemma_normal_form(r);
    let x = path::normal_form(p);
    let y = path::normal_form(r);
    let ps = path::segments(p);
    let rs = path::segments(r);
    let rest = ps.skip(rs.len() as int);
    let rel = path::relative(x, y);
    assert(ps =~= rs + rest);
    assert(clean(rest, path::rooted(p) || rs.len() > 0)) by {
        assert forall|k: int| 0 <= k < rest.len() implies (#[trigger] rest[k]).len() > 0 && unbroken(
            rest[k],
        ) by {
            assert(rest[k] == ps[rs.len() + k]);
        }
        assert forall|k: int|
            0 <= k < rest.len() && (k > 0 || path::rooted(p) || rs.len() > 0) implies #[trigger] rest[k]
            != text::utf8("."@) by {
            assert(rest[k] == ps[rs.len() + k]);
        }
    }
    lemma_weaker(rest, path::rooted(p) || rs.len() > 0);
    if y.len() == 0 {
        assert(rs.len() == 0) by {
            if rs.len() > 0 {
                lemma_last_byte(rs);
            }
        }
        assert(rest =~= ps);
        assert(rel =~= x);
    } else {
        assert(rel =~= path::written(rest, false)) by {
            if rs.len() == 0 {
                assert(path::rooted(r));
                assert(y =~= seq![SEP]);
                assert(rest =~= ps);
                if x == y {
                    assert(ps.len() == 0) by {
                        if ps.len() > 0 {
                            lemma_last_byte(ps);
                        }
                    }
                }
            } else {
                lemma_last_byte(rs);
                assert(y.last() == path::joined(rs).last());
                if rest.len() == 0 {
                    assert(ps =~= rs);
                } else {
                    lemma_joined_two(rs, rest);
                    assert(rest[0] == ps[rs.len() as int]);
                    lemma_joined_start(rest);
                    assert(x =~= y.push(SEP) + path::joined(rest));
                }
            }
        }
        lemma_written(rest, false);
    }
}

/// A path put behind a directory is the path of that name in it, where the name
/// is in normal form and does not start with `.`.
pub proof fn lemma_child(dir: Seq<u8>, rel: Seq<u8>)
    requires
        path::normal_form(dir) == dir,
        path::normal_form(rel) == rel,
        clean(path::segments(rel), true),
        !path::rooted(rel),
    ensures
        rel.len() > 0 ==> path::child_of(dir, rel) == path::absolute(dir, rel),
        rel.len() > 0 ==> path::segments(path::child_of(dir, rel)) == path::segments(dir)
            + path::segments(rel),
        path::rooted(path::child_of(dir, rel)) == path::rooted(dir),
{
    path::lemma_slash();
    lemma_segments_clean(dir);
    lemma_normal_form(dir);
    let ds = path::segments(dir);
    let rs = path::segments(rel);
    let root = path::rooted(dir);
    if rel.len() == 0 {
        lemma_segments_clean(path::join(dir, rel));
        lemma_normal_form(path::join(dir, rel));
        if dir.len() > 0 {
            assert(path::join(dir, rel)[0] == dir[0]);
        }
    } else {
        assert(rs.len() > 0) by {
            if rs.len() == 0 {
                assert(path::written(rs, false) =~= Seq::<u8>::empty());
            }
        }
        let all = ds + rs;
        assert(clean(all, root)) by {
            assert forall|k: int| 0 <= k < all.len() implies (#[trigger] all[k]).len() > 0
                && unbroken(all[k]) by {
                if k < ds.len() {
                    assert(all[k] == ds[k]);
                } else {
                    assert(all[k] == rs[k - ds.len()]);
                }
            }
            assert forall|k: int| 0 <= k < all.len() && (k > 0 || root) implies #[trigger] all[k]
                != text::utf8("."@) by {
                if k < ds.len() {
                    assert(all[k] == ds[k]);
                } else {
                    assert(all[k] == rs[k - ds.len()]);
                }
            }
        }
        lemma_written(all, root);
        assert(path::absolute(dir, rel) =~= path::written(all, root)) by {
            if ds.len() == 0 {
                assert(all =~= rs);
                if root {
                    assert(dir =~= seq![SEP]);
                } else {
                    assert(dir =~= Seq::<u8>::empty());
                }
            } else {
                lemma_last_byte(ds);
                lemma_joined_two(ds, rs);
                assert(dir.last() == path::joined(ds).last());
            }
        }
        assert(path::join(dir, rel) =~= path::absolute(dir, rel));
    }
}

proof fn lemma_collapsed_clean(parts: Seq<Seq<u8>>, from_root: bool)
    requires
        forall|k: int| 0 <= k < parts.len() ==> unbroken(#[trigger] parts[k]),
    ensures
        clean(path::collapsed(parts, from_root), true),
    decreases parts.len(),
{
    if parts.len() > 0 {
        let most = parts.drop_last();
        assert forall|k: int| 0 <= k < most.len() implies unbroken(#[trigger] most[k]) by {
            assert(most[k] == parts[k]);
        }
        lemma_collapsed_clean(most, from_root);
        assert(unbroken(parts[parts.len() - 1]));
        let acc = path::collapsed(most, from_root);
        let next = path::step(acc, parts.last(), from_root);
        path::lemma_dots();
        assert forall|k: int| 0 <= k < next.len() implies (#[trigger] next[k]).len() > 0 && unbroken(
            next[k],
        ) && next[k] != text::utf8("."@) by {
            if k < acc.len() {
                assert(next[k] == acc[k]);
            }
        }
    }
}

/// A path with `.` and `..` worked out is in normal form.
pub proof fn lemma_normalized_normal(b: Seq<u8>)
    ensures
        path::normal_form(path::normalized(b)) == path::normalized(b),
        path::segments(path::normalized(b)) == path::components(b),
        clean(path::components(b), true),
{
    lemma_parts_unbroken(b, 0);
    let list = path::components(b);
    lemma_collapsed_clean(path::parts_from(b, 0), path::rooted(b));
    if !path::rooted(b) {
        lemma_weaker(list, true);
    }
    lemma_written(list, path::rooted(b));
}

} // verus!

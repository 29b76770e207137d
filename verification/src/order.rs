//! The order of texts and the order of paths.
use vstd::prelude::*;
use crate::components;
use crate::path;
use crate::sorted::SEP;
use crate::text;

verus! {

// Texts.

/// Whether one text comes before another by bytes: they agree up to the end of the
/// first, or up to a lower byte in it.
pub open spec fn bytes_before(a: Seq<u8>, b: Seq<u8>) -> bool
    decreases a.len(),
{
    if b.len() == 0 {
        false
    } else if a.len() == 0 {
        true
    } else if a[0] != b[0] {
        a[0] < b[0]
    } else {
        bytes_before(a.drop_first(), b.drop_first())
    }
}

/// No text comes before itself.
pub proof fn lemma_bytes_irreflexive(a: Seq<u8>)
    ensures
        !bytes_before(a, a),
    decreases a.len(),
{
    if a.len() > 0 {
        lemma_bytes_irreflexive(a.drop_first());
    }
}

/// The order of texts is transitive.
pub proof fn lemma_bytes_transitive(a: Seq<u8>, b: Seq<u8>, c: Seq<u8>)
    requires
        bytes_before(a, b),
        bytes_before(b, c),
    ensures
        bytes_before(a, c),
    decreases a.len(),
{
    if a.len() > 0 && a[0] == b[0] && b[0] == c[0] {
        lemma_bytes_transitive(a.drop_first(), b.drop_first(), c.drop_first());
    }
}

/// Of two different texts one comes before the other, and never both.
pub proof fn lemma_bytes_total(a: Seq<u8>, b: Seq<u8>)
    ensures
        a != b ==> bytes_before(a, b) || bytes_before(b, a),
        !(bytes_before(a, b) && bytes_before(b, a)),
    decreases a.len(),
{
    if a.len() > 0 && b.len() > 0 {
        if a[0] == b[0] {
            lemma_bytes_total(a.drop_first(), b.drop_first());
            if a.drop_first() == b.drop_first() {
                assert(a =~= seq![a[0]] + a.drop_first());
                assert(b =~= seq![b[0]] + b.drop_first());
            }
        }
    } else if a.len() == 0 && b.len() == 0 {
        assert(a =~= b);
    }
}

/// Texts compare as what is left of them behind a common beginning.
proof fn lemma_bytes_skip(a: Seq<u8>, b: Seq<u8>, k: int)
    requires
        0 <= k <= a.len(),
        k <= b.len(),
        forall|j: int| 0 <= j < k ==> a[j] == #[trigger] b[j],
    ensures
        bytes_before(a, b) == bytes_before(a.skip(k), b.skip(k)),
    decreases k,
{
    if k == 0 {
        assert(a.skip(0) =~= a);
        assert(b.skip(0) =~= b);
    } else {
        assert(a[0] == b[0]);
        let x = a.drop_first();
        let y = b.drop_first();
        assert forall|j: int| 0 <= j < k - 1 implies x[j] == #[trigger] y[j] by {
            assert(a[j + 1] == b[j + 1]);
        }
        lemma_bytes_skip(x, y, k - 1);
        assert(x.skip(k - 1) =~= a.skip(k));
        assert(y.skip(k - 1) =~= b.skip(k));
    }
}

/// Compare two texts.
pub fn is_bytes_before(a: &str, b: &str) -> (r: bool)
    ensures
        r == bytes_before(text::utf8(a@), text::utf8(b@)),
{
    let x = a.as_bytes();
    let y = b.as_bytes();
    let mut k: usize = 0;
    while k < x.len() && k < y.len() && x[k] == y[k]
        invariant
            k <= x@.len(),
            k <= y@.len(),
            forall|j: int| 0 <= j < k ==> x@[j] == #[trigger] y@[j],
        decreases x@.len() - k,
    {
        k += 1;
    }
    proof {
        lemma_bytes_skip(x@, y@, k as int);
    }
    if k < x.len() && k < y.len() {
        x[k] < y[k]
    } else {
        k < y.len()
    }
}

// Components.

/// The kind of a component: the root, which is written as an empty part, comes
/// before `.`, that before `..`, and that before every name.
pub open spec fn kind(part: Seq<u8>) -> nat {
    if part.len() == 0 {
        0
    } else if part == text::utf8("."@) {
        1
    } else if part == text::utf8(".."@) {
        2
    } else {
        3
    }
}

/// Whether one component comes before another: by kind, and names by bytes.
pub open spec fn part_before(a: Seq<u8>, b: Seq<u8>) -> bool {
    kind(a) < kind(b) || (kind(a) == kind(b) && bytes_before(a, b))
}

/// Whether one list of components comes before another: they agree up to the end
/// of the first, or up to a component of it that comes before the other's.
pub open spec fn parts_before(a: Seq<Seq<u8>>, b: Seq<Seq<u8>>) -> bool
    decreases a.len(),
{
    if b.len() == 0 {
        false
    } else if a.len() == 0 {
        true
    } else if a[0] != b[0] {
        part_before(a[0], b[0])
    } else {
        parts_before(a.drop_first(), b.drop_first())
    }
}

proof fn lemma_parts_irreflexive(a: Seq<Seq<u8>>)
    ensures
        !parts_before(a, a),
    decreases a.len(),
{
    if a.len() > 0 {
        lemma_parts_irreflexive(a.drop_first());
    }
}

proof fn lemma_parts_transitive(a: Seq<Seq<u8>>, b: Seq<Seq<u8>>, c: Seq<Seq<u8>>)
    requires
        parts_before(a, b),
        parts_before(b, c),
    ensures
        parts_before(a, c),
    decreases a.len(),
{
    if a.len() > 0 {
        if a[0] == b[0] && b[0] == c[0] {
            lemma_parts_transitive(a.drop_first(), b.drop_first(), c.drop_first());
        } else if a[0] != b[0] && b[0] != c[0] {
            if kind(a[0]) == kind(b[0]) && kind(b[0]) == kind(c[0]) {
                lemma_bytes_transitive(a[0], b[0], c[0]);
            }
            lemma_bytes_irreflexive(a[0]);
        }
    }
}

proof fn lemma_parts_total(a: Seq<Seq<u8>>, b: Seq<Seq<u8>>)
    ensures
        a != b ==> parts_before(a, b) || parts_before(b, a),
        !(parts_before(a, b) && parts_before(b, a)),
    decreases a.len(),
{
    if a.len() > 0 && b.len() > 0 {
        lemma_bytes_total(a[0], b[0]);
        if a[0] == b[0] {
            lemma_parts_total(a.drop_first(), b.drop_first());
            if a.drop_first() == b.drop_first() {
                assert(a =~= seq![a[0]] + a.drop_first());
                assert(b =~= seq![b[0]] + b.drop_first());
            }
        }
    } else if a.len() == 0 && b.len() == 0 {
        assert(a =~= b);
    }
}

/// What comes between two lists with one beginning has that beginning.
proof fn lemma_parts_between(
    r: Seq<Seq<u8>>,
    a: Seq<Seq<u8>>,
    b: Seq<Seq<u8>>,
    c: Seq<Seq<u8>>,
)
    requires
        parts_before(a, b),
        parts_before(b, c),
        r.is_prefix_of(a),
        r.is_prefix_of(c),
    ensures
        r.is_prefix_of(b),
    decreases r.len(),
{
    if r.len() == 0 {
        assert(b.subrange(0, 0) =~= r);
    } else {
        assert(a[0] == r[0] && c[0] == r[0]);
        lemma_bytes_total(a[0], b[0]);
        assert(b[0] == r[0]);
        let s = r.drop_first();
        assert(a.drop_first().subrange(0, s.len() as int) =~= s);
        assert(c.drop_first().subrange(0, s.len() as int) =~= s);
        lemma_parts_between(s, a.drop_first(), b.drop_first(), c.drop_first());
        let t = b.drop_first();
        assert forall|i: int| 0 <= i < r.len() implies b.subrange(0, r.len() as int)[i]
            == r[i] by {
            if i > 0 {
                assert(t.subrange(0, s.len() as int)[i - 1] == s[i - 1]);
            }
        }
        assert(b.subrange(0, r.len() as int) =~= r);
    }
}

// Paths.

/// Whether one path comes before another: part by part. Of paths in normal form
/// the parts are the components.
pub open spec fn path_before(a: Seq<u8>, b: Seq<u8>) -> bool {
    parts_before(path::parts_from(a, 0), path::parts_from(b, 0))
}

/// No path comes before itself.
pub proof fn lemma_path_irreflexive(a: Seq<u8>)
    ensures
        !path_before(a, a),
{
    lemma_parts_irreflexive(path::parts_from(a, 0));
}

/// The order of paths is transitive.
pub proof fn lemma_path_transitive(a: Seq<u8>, b: Seq<u8>, c: Seq<u8>)
    requires
        path_before(a, b),
        path_before(b, c),
    ensures
        path_before(a, c),
{
    lemma_parts_transitive(path::parts_from(a, 0), path::parts_from(b, 0), path::parts_from(c, 0));
}

/// Of two different paths one comes before the other, and never both.
pub proof fn lemma_path_total(a: Seq<u8>, b: Seq<u8>)
    ensures
        a != b ==> path_before(a, b) || path_before(b, a),
        !(path_before(a, b) && path_before(b, a)),
{
    lemma_parts_total(path::parts_from(a, 0), path::parts_from(b, 0));
    lemma_parts_joined(a, 0);
    lemma_parts_joined(b, 0);
    assert(a.subrange(0, a.len() as int) =~= a);
    assert(b.subrange(0, b.len() as int) =~= b);
}

/// A path is its parts with separators between them.
proof fn lemma_parts_joined(b: Seq<u8>, i: int)
    requires
        0 <= i <= b.len(),
    ensures
        path::joined(path::parts_from(b, i)) == b.subrange(i, b.len() as int),
    decreases b.len() - i,
{
    path::lemma_sep_from(b, i);
    let n = path::sep_from(b, i);
    if n < b.len() {
        lemma_parts_joined(b, n + 1);
        components::lemma_parts_unbroken(b, n + 1);
        let first = seq![b.subrange(i, n)];
        components::lemma_joined_two(first, path::parts_from(b, n + 1));
        assert(path::joined(first) == b.subrange(i, n));
        assert(b.subrange(i, n).push(SEP) + b.subrange(n + 1, b.len() as int) =~= b.subrange(
            i,
            b.len() as int,
        ));
    }
}

fn kind_of(b: &[u8], i: usize, n: usize) -> (r: u8)
    requires
        i <= n <= b@.len(),
    ensures
        r == kind(b@.subrange(i as int, n as int)),
{
    let ghost part = b@.subrange(i as int, n as int);
    proof {
        path::lemma_dots();
        if n - i == 1 && b@[i as int] == 46 {
            assert(part =~= text::utf8("."@));
        }
        if n - i == 2 && b@[i as int] == 46 && b@[i + 1] == 46 {
            assert(part =~= text::utf8(".."@));
        }
        if n > i {
            assert(part[0] == b@[i as int]);
        }
        if n > i + 1 {
            assert(part[1] == b@[i + 1]);
        }
    }
    if n == i {
        0
    } else if n - i == 1 && b[i] == 46 {
        1
    } else if n - i == 2 && b[i] == 46 && b[i + 1] == 46 {
        2
    } else {
        3
    }
}

/// Compare two paths.
pub fn is_path_before(a: &str, b: &str) -> (r: bool)
    ensures
        r == path_before(text::utf8(a@), text::utf8(b@)),
{
    let x = a.as_bytes();
    let y = b.as_bytes();
    let mut i: usize = 0;
    loop
        invariant
            i <= x@.len(),
            i <= y@.len(),
            x@ == text::utf8(a@),
            y@ == text::utf8(b@),
            path_before(x@, y@) == parts_before(
                path::parts_from(x@, i as int),
                path::parts_from(y@, i as int),
            ),
        decreases x@.len() - i,
    {
        let n = path::find_sep(x, i);
        let m = path::find_sep(y, i);
        let ghost p = x@.subrange(i as int, n as int);
        let ghost q = y@.subrange(i as int, m as int);
        let ghost ps = path::parts_from(x@, i as int);
        let ghost qs = path::parts_from(y@, i as int);
        assert(ps.len() > 0 && ps[0] == p);
        assert(qs.len() > 0 && qs[0] == q);
        let here = kind_of(x, i, n);
        let there = kind_of(y, i, m);
        if here != there {
            return here < there;
        }
        let mut k: usize = i;
        while k < n && k < m && x[k] == y[k]
            invariant
                i <= k <= n,
                k <= m,
                n <= x@.len(),
                m <= y@.len(),
                forall|j: int| i <= j < k ==> x@[j] == #[trigger] y@[j],
            decreases n - k,
        {
            k += 1;
        }
        proof {
            assert forall|j: int| 0 <= j < k - i implies p[j] == #[trigger] q[j] by {
                assert(x@[i + j] == y@[i + j]);
            }
            lemma_bytes_skip(p, q, k - i);
        }
        if k < n && k < m {
            proof {
                assert(p[k - i] == x@[k as int] && q[k - i] == y@[k as int]);
                assert(p.skip(k - i)[0] == x@[k as int]);
                assert(q.skip(k - i)[0] == y@[k as int]);
            }
            return x[k] < y[k];
        }
        if k < n || k < m {
            assert(p.len() != q.len());
            return k < m;
        }
        assert(p =~= q);
        assert(parts_before(ps, qs) == parts_before(ps.drop_first(), qs.drop_first()));
        if n >= x.len() {
            assert(ps.drop_first() =~= Seq::<Seq<u8>>::empty());
            proof {
                if m < y.len() {
                    components::lemma_parts_unbroken(y@, m + 1);
                    assert(qs.drop_first() =~= path::parts_from(y@, m + 1));
                } else {
                    assert(qs.drop_first() =~= Seq::<Seq<u8>>::empty());
                }
            }
            return m < y.len();
        }
        if m >= y.len() {
            assert(qs.drop_first() =~= Seq::<Seq<u8>>::empty());
            return false;
        }
        proof {
            assert(ps.drop_first() =~= path::parts_from(x@, n + 1));
            assert(qs.drop_first() =~= path::parts_from(y@, m + 1));
        }
        i = n + 1;
    }
}

// Laws.

/// The components of a path, the root among them as an empty part.
pub open spec fn all_components(b: Seq<u8>) -> Seq<Seq<u8>> {
    if path::rooted(b) {
        seq![Seq::<u8>::empty()] + path::segments(b)
    } else {
        path::segments(b)
    }
}

/// The parts of a path in normal form are its components. Where it has no name,
/// one more part stands at the end.
proof fn lemma_parts_of_normal(b: Seq<u8>)
    ensures
        path::parts_from(path::normal_form(b), 0) == if path::segments(b).len() > 0 {
            all_components(b)
        } else {
            all_components(b).push(Seq::empty())
        },
{
    let names = path::segments(b);
    let empty = Seq::<u8>::empty();
    components::lemma_segments_clean(b);
    path::lemma_slash();
    let parts = if names.len() > 0 {
        all_components(b)
    } else {
        all_components(b).push(empty)
    };
    assert forall|k: int| 0 <= k < parts.len() implies components::unbroken(
        #[trigger] parts[k],
    ) by {
        if path::rooted(b) && 0 < k <= names.len() {
            assert(parts[k] == names[k - 1]);
        } else if !path::rooted(b) && k < names.len() {
            assert(parts[k] == names[k]);
        } else {
            assert(parts[k] == empty);
        }
    }
    components::lemma_parts_of_joined(parts);
    if names.len() == 0 {
        if path::rooted(b) {
            assert(parts =~= seq![empty] + seq![empty]);
            components::lemma_joined_two(seq![empty], seq![empty]);
            assert(path::joined(seq![empty]) == empty);
            assert(path::joined(parts) =~= path::normal_form(b));
        } else {
            assert(parts =~= seq![empty]);
            assert(path::joined(parts) =~= path::normal_form(b));
        }
    } else if path::rooted(b) {
        components::lemma_joined_two(seq![empty], names);
        assert(path::joined(seq![empty]) == empty);
        assert(path::joined(parts) =~= path::normal_form(b));
    }
}

/// Paths compare as their components do, one after another: the root before `.`,
/// `.` before `..`, and `..` before names, which compare by bytes.
pub proof fn law_paths_compare_by_components(a: Seq<u8>, b: Seq<u8>)
    ensures
        path_before(path::normal_form(a), path::normal_form(b)) == parts_before(
            all_components(a),
            all_components(b),
        ),
{
    let x = all_components(a);
    let y = all_components(b);
    let empty = Seq::<u8>::empty();
    lemma_parts_of_normal(a);
    lemma_parts_of_normal(b);
    components::lemma_segments_clean(a);
    components::lemma_segments_clean(b);
    let p = path::parts_from(path::normal_form(a), 0);
    let q = path::parts_from(path::normal_form(b), 0);
    if path::segments(a).len() > 0 {
        assert(path::segments(a)[0].len() > 0);
        if path::rooted(a) {
            assert(x[1] == path::segments(a)[0]);
            assert(x.drop_first()[0] == x[1]);
        }
    }
    if path::segments(b).len() > 0 {
        assert(path::segments(b)[0].len() > 0);
        if path::rooted(b) {
            assert(y[1] == path::segments(b)[0]);
            assert(y.drop_first()[0] == y[1]);
        }
    }
    if path::segments(a).len() == 0 || path::segments(b).len() == 0 {
        reveal_with_fuel(parts_before, 4);
        if path::segments(a).len() == 0 {
            assert(p[0] == empty);
            if path::rooted(a) {
                assert(p.drop_first()[0] == empty);
                assert(x.drop_first() =~= Seq::<Seq<u8>>::empty());
                assert(p.drop_first().drop_first() =~= Seq::<Seq<u8>>::empty());
            } else {
                assert(x =~= Seq::<Seq<u8>>::empty());
                assert(p.drop_first() =~= Seq::<Seq<u8>>::empty());
            }
        }
        if path::segments(b).len() == 0 {
            assert(q[0] == empty);
            if path::rooted(b) {
                assert(q.drop_first()[0] == empty);
                assert(y.drop_first() =~= Seq::<Seq<u8>>::empty());
                assert(q.drop_first().drop_first() =~= Seq::<Seq<u8>>::empty());
            } else {
                assert(y =~= Seq::<Seq<u8>>::empty());
                assert(q.drop_first() =~= Seq::<Seq<u8>>::empty());
            }
        }
    }
}

/// A path in a directory starts with the components of the directory.
proof fn lemma_starts_with(p: Seq<u8>, r: Seq<u8>)
    ensures
        components::starts_with(p, r) == all_components(r).is_prefix_of(all_components(p)),
{
    let x = all_components(p);
    let y = all_components(r);
    let ps = path::segments(p);
    let rs = path::segments(r);
    components::lemma_segments_clean(p);
    components::lemma_segments_clean(r);
    if components::starts_with(p, r) {
        assert forall|i: int| 0 <= i < y.len() implies x.subrange(0, y.len() as int)[i] == y[i] by {
            assert(ps.take(rs.len() as int) == rs);
            if path::rooted(r) && i > 0 {
                assert(ps.take(rs.len() as int)[i - 1] == rs[i - 1]);
            } else if !path::rooted(r) {
                assert(ps.take(rs.len() as int)[i] == rs[i]);
            }
        }
        assert(x.subrange(0, y.len() as int) =~= y);
    }
    if y.is_prefix_of(x) {
        assert(forall|i: int| 0 <= i < y.len() ==> x.subrange(0, y.len() as int)[i] == y[i]);
        if y.len() > 0 {
            assert(x[0] == y[0]);
        }
        if rs.len() > 0 && !path::rooted(r) {
            assert(rs[0].len() > 0);
        }
        if path::rooted(r) {
            assert(y[0].len() == 0);
            if !path::rooted(p) {
                assert(ps[0].len() > 0);
            }
        }
        assert forall|i: int| 0 <= i < rs.len() implies ps.take(rs.len() as int)[i] == rs[i] by {
            if path::rooted(r) {
                assert(x.subrange(0, y.len() as int)[i + 1] == y[i + 1]);
            } else {
                assert(x.subrange(0, y.len() as int)[i] == y[i]);
            }
        }
        assert(ps.take(rs.len() as int) =~= rs);
    }
}

/// The paths in a directory stand side by side in the order of paths: what comes
/// between two of them is one of them.
pub proof fn law_paths_in_a_directory_are_contiguous(
    root: Seq<u8>,
    a: Seq<u8>,
    b: Seq<u8>,
    c: Seq<u8>,
)
    requires
        path::under(path::normal_form(a), path::normal_form(root)),
        path::under(path::normal_form(c), path::normal_form(root)),
        path_before(path::normal_form(a), path::normal_form(b)),
        path_before(path::normal_form(b), path::normal_form(c)),
    ensures
        path::under(path::normal_form(b), path::normal_form(root)),
{
    law_paths_compare_by_components(a, b);
    law_paths_compare_by_components(b, c);
    components::law_directories_hold_by_components(a, root);
    components::law_directories_hold_by_components(b, root);
    components::law_directories_hold_by_components(c, root);
    lemma_starts_with(a, root);
    lemma_starts_with(b, root);
    lemma_starts_with(c, root);
    lemma_parts_between(
        all_components(root),
        all_components(a),
        all_components(b),
        all_components(c),
    );
}

/// One text comes before another exactly if they agree up to some place, at which
/// the first one ends and the other does not, or has a lower byte.
pub proof fn law_texts_compare_at_the_first_difference(a: Seq<u8>, b: Seq<u8>)
    ensures
        bytes_before(a, b) == exists|k: int| #[trigger] agree_up_to(a, b, k) && k < b.len() && (k
            == a.len() || a[k] < b[k]),
    decreases a.len(),
{
    if bytes_before(a, b) {
        let k = lemma_difference(a, b);
        assert(agree_up_to(a, b, k));
    }
    if exists|k: int| #[trigger] agree_up_to(a, b, k) && k < b.len() && (k == a.len() || a[k] < b[k]) {
        let k = choose|k: int| #[trigger]
            agree_up_to(a, b, k) && k < b.len() && (k == a.len() || a[k] < b[k]);
        lemma_decided(a, b, k);
    }
}

/// Whether two lists agree up to a place.
pub open spec fn agree_up_to<T>(a: Seq<T>, b: Seq<T>, k: int) -> bool {
    &&& 0 <= k <= a.len()
    &&& k <= b.len()
    &&& forall|i: int| 0 <= i < k ==> #[trigger] a[i] == b[i]
}

proof fn lemma_difference(a: Seq<u8>, b: Seq<u8>) -> (k: int)
    requires
        bytes_before(a, b),
    ensures
        agree_up_to(a, b, k),
        k < b.len(),
        k == a.len() || a[k] < b[k],
    decreases a.len(),
{
    if a.len() > 0 && a[0] == b[0] {
        let x = a.drop_first();
        let y = b.drop_first();
        let k = lemma_difference(x, y);
        assert forall|i: int| 0 <= i < k + 1 implies #[trigger] a[i] == b[i] by {
            if i > 0 {
                assert(x[i - 1] == y[i - 1]);
            }
        }
        if k < x.len() {
            assert(x[k] == a[k + 1]);
        }
        assert(y[k] == b[k + 1]);
        k + 1
    } else {
        0
    }
}

proof fn lemma_decided(a: Seq<u8>, b: Seq<u8>, k: int)
    requires
        agree_up_to(a, b, k),
        k < b.len(),
        k == a.len() || a[k] < b[k],
    ensures
        bytes_before(a, b),
    decreases a.len(),
{
    if k > 0 {
        assert(a[0] == b[0]);
        let x = a.drop_first();
        let y = b.drop_first();
        assert forall|i: int| 0 <= i < k - 1 implies #[trigger] x[i] == y[i] by {
            assert(a[i + 1] == b[i + 1]);
        }
        lemma_decided(x, y, k - 1);
    }
}

/// One path made of names comes before another exactly if they agree up to some
/// name, at which the first one ends and the other does not, or has the earlier name.
pub proof fn law_paths_compare_at_the_first_difference(a: Seq<Seq<u8>>, b: Seq<Seq<u8>>)
    requires
        forall|i: int| 0 <= i < a.len() ==> kind(#[trigger] a[i]) == 3,
        forall|i: int| 0 <= i < b.len() ==> kind(#[trigger] b[i]) == 3,
    ensures
        parts_before(a, b) == exists|k: int| #[trigger] agree_up_to(a, b, k) && k < b.len() && (k
            == a.len() || bytes_before(a[k], b[k])),
    decreases a.len(),
{
    if a.len() == 0 {
        if b.len() > 0 {
            assert(agree_up_to(a, b, 0));
        }
    } else if b.len() > 0 {
        let x = a.drop_first();
        let y = b.drop_first();
        assert forall|i: int| 0 <= i < x.len() implies kind(#[trigger] x[i]) == 3 by {
            assert(x[i] == a[i + 1]);
        }
        assert forall|i: int| 0 <= i < y.len() implies kind(#[trigger] y[i]) == 3 by {
            assert(y[i] == b[i + 1]);
        }
        assert(kind(a[0]) == 3 && kind(b[0]) == 3);
        law_paths_compare_at_the_first_difference(x, y);
        lemma_bytes_irreflexive(a[0]);
        if a[0] == b[0] {
            if parts_before(x, y) {
                let k = choose|k: int| #[trigger]
                    agree_up_to(x, y, k) && k < y.len() && (k == x.len() || bytes_before(
                        x[k],
                        y[k],
                    ));
                assert forall|i: int| 0 <= i < k + 1 implies #[trigger] a[i] == b[i] by {
                    if i > 0 {
                        assert(x[i - 1] == y[i - 1]);
                    }
                }
                assert(agree_up_to(a, b, k + 1));
                assert(y[k] == b[k + 1]);
                if k < x.len() {
                    assert(x[k] == a[k + 1]);
                }
            }
            if exists|k: int| #[trigger]
                agree_up_to(a, b, k) && k < b.len() && (k == a.len() || bytes_before(a[k], b[k])) {
                let k = choose|k: int| #[trigger]
                    agree_up_to(a, b, k) && k < b.len() && (k == a.len() || bytes_before(
                        a[k],
                        b[k],
                    ));
                assert(k > 0);
                assert forall|i: int| 0 <= i < k - 1 implies #[trigger] x[i] == y[i] by {
                    assert(a[i + 1] == b[i + 1]);
                }
                assert(agree_up_to(x, y, k - 1));
                assert(y[k - 1] == b[k]);
                if k < a.len() {
                    assert(x[k - 1] == a[k]);
                }
            }
        } else {
            if bytes_before(a[0], b[0]) {
                assert(agree_up_to(a, b, 0));
            }
            if exists|k: int| #[trigger]
                agree_up_to(a, b, k) && k < b.len() && (k == a.len() || bytes_before(a[k], b[k])) {
                let k = choose|k: int| #[trigger]
                    agree_up_to(a, b, k) && k < b.len() && (k == a.len() || bytes_before(
                        a[k],
                        b[k],
                    ));
                if k > 0 {
                    assert(a[0] == b[0]);
                }
            }
        }
    }
}

} // verus!

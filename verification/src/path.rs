//! Paths as text: components separated by `/`, joined and normalized by
//! component arithmetic alone.
use vstd::prelude::*;
use crate::components;
use crate::sorted::SEP;
use crate::text;

verus! {

/// The offset of the first separator at or after `i`; the length where none is left.
pub open spec fn sep_from(b: Seq<u8>, i: int) -> int
    decreases b.len() - i,
{
    if i < 0 || i >= b.len() {
        b.len() as int
    } else if b[i] == SEP {
        i
    } else {
        sep_from(b, i + 1)
    }
}

/// A separator found from `i` on lies at or after `i`.
pub proof fn lemma_sep_from(b: Seq<u8>, i: int)
    ensures
        0 <= i <= b.len() ==> i <= sep_from(b, i) <= b.len(),
        sep_from(b, i) < b.len() ==> b[sep_from(b, i)] == SEP,
    decreases b.len() - i,
{
    if 0 <= i < b.len() && b[i] != SEP {
        lemma_sep_from(b, i + 1);
    }
}

/// The pieces between separators from offset `i` on.
pub open spec fn parts_from(b: Seq<u8>, i: int) -> Seq<Seq<u8>>
    decreases b.len() - i,
{
    let n = sep_from(b, i);
    if i < 0 || i > b.len() {
        Seq::empty()
    } else if n >= b.len() {
        seq![b.subrange(i, b.len() as int)]
    } else {
        proof {
            lemma_sep_from(b, i);
        }
        seq![b.subrange(i, n)] + parts_from(b, n + 1)
    }
}

/// The bytes of the texts in a list.
pub open spec fn texts(list: Seq<String>) -> Seq<Seq<u8>> {
    list.map_values(|s: String| text::utf8(s@))
}

/// Find the first separator at or after an offset.
pub(crate) fn find_sep(b: &[u8], from: usize) -> (r: usize)
    requires
        from <= b@.len(),
    ensures
        r == sep_from(b@, from as int),
        from <= r <= b@.len(),
{
    let mut i: usize = from;
    while i < b.len()
        invariant
            from <= i <= b@.len(),
            sep_from(b@, from as int) == sep_from(b@, i as int),
        decreases b@.len() - i,
    {
        if b[i] == SEP {
            return i;
        }
        i += 1;
    }
    i
}

/// Cutting at a separator cuts a text into texts.
proof fn lemma_cut(b: Seq<u8>, i: int, n: int)
    requires
        0 <= i <= n <= b.len(),
        i == 0 || b[i - 1] == SEP,
        n < b.len() ==> b[n] == SEP,
        vstd::utf8::valid_utf8(b),
    ensures
        text::piece(b, i, n) == b.subrange(i, n),
{
    assert(n < b.len() ==> !vstd::utf8::is_continuation_byte(b[n]));
    if 0 < i < b.len() {
        text::lemma_after_ascii(b, i);
    }
}

/// Split a path at its separators.
pub fn split_parts(path: &str) -> (r: Vec<String>)
    ensures
        texts(r@) == parts_from(text::utf8(path@), 0),
{
    let b = path.as_bytes();
    let mut r: Vec<String> = Vec::new();
    let mut i: usize = 0;
    proof {
        vstd::utf8::encode_utf8_valid_utf8(path@);
        assert(texts(r@) + parts_from(b@, 0) =~= parts_from(b@, 0));
    }
    loop
        invariant
            i <= b@.len(),
            b@ == text::utf8(path@),
            vstd::utf8::valid_utf8(b@),
            i == 0 || b@[i - 1] == SEP,
            texts(r@) + parts_from(b@, i as int) == parts_from(b@, 0),
        decreases b@.len() - i,
    {
        let n = find_sep(b, i);
        let ghost before = texts(r@);
        proof {
            lemma_sep_from(b@, i as int);
            lemma_cut(b@, i as int, n as int);
        }
        let part = text::slice(path, i, n);
        r.push(text::owned(part));
        assert(texts(r@) =~= before.push(b@.subrange(i as int, n as int)));
        if n >= b.len() {
            assert(texts(r@) =~= before + parts_from(b@, i as int));
            return r;
        }
        assert(texts(r@) + parts_from(b@, n + 1) =~= before + parts_from(b@, i as int));
        i = n + 1;
    }
}

/// The separator, as text.
pub proof fn lemma_slash()
    ensures
        text::utf8("/"@) == seq![SEP],
{
    reveal_strlit("/");
    assert(vstd::utf8::is_ascii_chars("/"@));
    vstd::utf8::is_ascii_chars_encode_utf8("/"@);
    assert("/"@[0] as u8 == text::utf8("/"@)[0]);
    assert(text::utf8("/"@) =~= seq![SEP]);
}

/// The two special components, as text.
pub proof fn lemma_dots()
    ensures
        text::utf8(".."@) == seq![46u8, 46u8],
        text::utf8("."@) == seq![46u8],
{
    reveal_strlit("..");
    reveal_strlit(".");
    vstd::utf8::is_ascii_chars_encode_utf8(".."@);
    vstd::utf8::is_ascii_chars_encode_utf8("."@);
    assert(text::utf8(".."@) =~= seq![46u8, 46u8]);
    assert(text::utf8("."@) =~= seq![46u8]);
}

/// A list of parts with separators between them.
pub open spec fn joined(parts: Seq<Seq<u8>>) -> Seq<u8>
    decreases parts.len(),
{
    if parts.len() == 0 {
        Seq::empty()
    } else if parts.len() == 1 {
        parts[0]
    } else {
        joined(parts.drop_last()) + text::utf8("/"@) + parts.last()
    }
}

/// Write a list of parts with separators between them.
pub fn join_parts(parts: &Vec<String>) -> (r: String)
    ensures
        text::utf8(r@) == joined(texts(parts@)),
{
    let mut r = String::new();
    let mut i: usize = 0;
    proof {
        assert(texts(parts@).take(0) =~= Seq::<Seq<u8>>::empty());
    }
    while i < parts.len()
        invariant
            i <= parts@.len(),
            text::utf8(r@) == joined(texts(parts@).take(i as int)),
        decreases parts@.len() - i,
    {
        if i > 0 {
            text::push(&mut r, "/");
        }
        text::push(&mut r, parts[i].as_str());
        proof {
            let t = texts(parts@).take(i + 1);
            assert(t.drop_last() =~= texts(parts@).take(i as int));
            assert(t.last() == text::utf8(parts@[i as int]@));
            assert(text::utf8(r@) =~= joined(t));
        }
        i += 1;
    }
    proof {
        assert(texts(parts@).take(i as int) =~= texts(parts@));
    }
    r
}

/// Whether a path starts at the root.
pub open spec fn rooted(b: Seq<u8>) -> bool {
    b.len() > 0 && b[0] == SEP
}

/// The parts of a path that are names; of those that are `.` only a leading one is.
pub open spec fn names_of(parts: Seq<Seq<u8>>) -> Seq<Seq<u8>>
    decreases parts.len(),
{
    if parts.len() == 0 {
        Seq::empty()
    } else if parts.last().len() == 0 || (parts.len() > 1 && parts.last() == text::utf8("."@)) {
        names_of(parts.drop_last())
    } else {
        names_of(parts.drop_last()).push(parts.last())
    }
}

/// The components of a path: its names, as they stand. Separators that are
/// doubled or at the end, and `.` behind the first place, are no components.
pub open spec fn segments(b: Seq<u8>) -> Seq<Seq<u8>> {
    names_of(parts_from(b, 0))
}

/// A path that is made of components, from the root or not.
pub open spec fn written(list: Seq<Seq<u8>>, from_root: bool) -> Seq<u8> {
    if from_root {
        text::utf8("/"@) + joined(list)
    } else {
        joined(list)
    }
}

/// A path in normal form: its components with one separator between them. Two
/// texts name the same path exactly if their normal forms are the same.
pub open spec fn normal_form(b: Seq<u8>) -> Seq<u8> {
    written(segments(b), rooted(b))
}

/// The path that a text names, in normal form.
pub open spec fn named(s: Seq<char>) -> Seq<u8> {
    normal_form(text::utf8(s))
}

/// The paths that a list of texts names.
pub open spec fn all_named(list: Seq<String>) -> Seq<Seq<u8>> {
    list.map_values(|s: String| named(s@))
}

/// The components of a path.
pub fn split_segments(p: &str) -> (r: Vec<String>)
    ensures
        texts(r@) == segments(text::utf8(p@)),
{
    let parts = split_parts(p);
    let ghost all = texts(parts@);
    let mut r: Vec<String> = Vec::new();
    let mut i: usize = 0;
    proof {
        assert(all.take(0) =~= Seq::<Seq<u8>>::empty());
        assert(texts(r@) =~= Seq::<Seq<u8>>::empty());
    }
    while i < parts.len()
        invariant
            i <= parts@.len(),
            all == texts(parts@),
            texts(r@) == names_of(all.take(i as int)),
        decreases parts@.len() - i,
    {
        let part = parts[i].as_str();
        let ghost before = texts(r@);
        proof {
            assert(all.take(i + 1).drop_last() =~= all.take(i as int));
            assert(all.take(i + 1).last() == text::utf8(part@));
            text::lemma_utf8_empty(part@);
        }
        if !part.is_empty() && !(i > 0 && text::same(part, ".")) {
            r.push(text::owned(part));
            assert(texts(r@) =~= before.push(text::utf8(part@)));
        }
        i += 1;
    }
    assert(all.take(i as int) =~= all);
    r
}

/// A path in normal form.
pub fn normal(p: &str) -> (r: String)
    ensures
        text::utf8(r@) == named(p@),
        named(r@) == named(p@),
{
    let names = split_segments(p);
    let list = join_parts(&names);
    proof {
        components::lemma_normal_form(text::utf8(p@));
    }
    if is_rooted(p) {
        let mut out = text::owned("/");
        text::push(&mut out, list.as_str());
        out
    } else {
        list
    }
}

/// The components after one more part: `.` and the empty part change nothing,
/// `..` takes the component before it away.
pub open spec fn step(acc: Seq<Seq<u8>>, part: Seq<u8>, from_root: bool) -> Seq<Seq<u8>> {
    if part.len() == 0 || part == text::utf8("."@) {
        acc
    } else if part == text::utf8(".."@) {
        if acc.len() > 0 && acc.last() != text::utf8(".."@) {
            acc.drop_last()
        } else if from_root {
            acc
        } else {
            acc.push(part)
        }
    } else {
        acc.push(part)
    }
}

/// The components that a list of parts comes down to.
pub open spec fn collapsed(parts: Seq<Seq<u8>>, from_root: bool) -> Seq<Seq<u8>>
    decreases parts.len(),
{
    if parts.len() == 0 {
        Seq::empty()
    } else {
        step(collapsed(parts.drop_last(), from_root), parts.last(), from_root)
    }
}

/// The components of a path with `.` and `..` worked out.
pub open spec fn components(b: Seq<u8>) -> Seq<Seq<u8>> {
    collapsed(parts_from(b, 0), rooted(b))
}

/// A path with `.` and `..` worked out.
pub open spec fn normalized(b: Seq<u8>) -> Seq<u8> {
    if rooted(b) {
        text::utf8("/"@) + joined(components(b))
    } else {
        joined(components(b))
    }
}

/// Whether a path leads out of the directory it is relative to.
pub open spec fn escapes(b: Seq<u8>) -> bool {
    !rooted(b) && components(b).len() > 0 && components(b)[0] == text::utf8(".."@)
}

fn is_rooted(path: &str) -> (r: bool)
    ensures
        r == rooted(text::utf8(path@)),
{
    let b = path.as_bytes();
    b.len() > 0 && b[0] == SEP
}

fn collapse(parts: Vec<String>, from_root: bool) -> (r: Vec<String>)
    ensures
        texts(r@) == collapsed(texts(parts@), from_root),
{
    let mut r: Vec<String> = Vec::new();
    let mut i: usize = 0;
    proof {
        assert(texts(parts@).take(0) =~= Seq::<Seq<u8>>::empty());
        assert(texts(r@) =~= Seq::<Seq<u8>>::empty());
    }
    while i < parts.len()
        invariant
            i <= parts@.len(),
            texts(r@) == collapsed(texts(parts@).take(i as int), from_root),
        decreases parts@.len() - i,
    {
        let part = parts[i].as_str();
        let ghost acc = texts(r@);
        let ghost p = text::utf8(part@);
        proof {
            let t = texts(parts@).take(i + 1);
            assert(t.drop_last() =~= texts(parts@).take(i as int));
            assert(t.last() == p);
            text::lemma_utf8_empty(part@);
        }
        if part.is_empty() || text::same(part, ".") {
        } else if text::same(part, "..") {
            let pops: bool = r.len() > 0 && !text::same(r[r.len() - 1].as_str(), "..");
            assert(r@.len() > 0 ==> acc.last() == text::utf8(r@.last()@));
            if pops {
                r.pop();
                assert(texts(r@) =~= acc.drop_last());
            } else if !from_root {
                r.push(text::owned(part));
                assert(texts(r@) =~= acc.push(p));
            }
        } else {
            r.push(text::owned(part));
            assert(texts(r@) =~= acc.push(p));
        }
        assert(texts(r@) =~= step(acc, p, from_root));
        i += 1;
    }
    proof {
        assert(texts(parts@).take(i as int) =~= texts(parts@));
    }
    r
}

/// Work out `.` and `..` in a path; the flag tells whether it leads out of the
/// directory it is relative to.
pub fn normalize_path(path: &str) -> (r: (String, bool))
    ensures
        text::utf8(r.0@) == normalized(text::utf8(path@)),
        r.1 == escapes(text::utf8(path@)),
{
    let from_root = is_rooted(path);
    let parts = collapse(split_parts(path), from_root);
    let out = !from_root && parts.len() > 0 && text::same(parts[0].as_str(), "..");
    proof {
        let t = texts(parts@);
        if t.len() > 0 {
            assert(t[0] == text::utf8(parts@[0]@));
        }
    }
    let rest = join_parts(&parts);
    if from_root {
        let mut r = text::owned("/");
        text::push(&mut r, rest.as_str());
        (r, out)
    } else {
        (rest, out)
    }
}

/// One path put behind another: a rooted path replaces what stands before it.
pub open spec fn join(a: Seq<u8>, b: Seq<u8>) -> Seq<u8> {
    if a.len() == 0 || rooted(b) {
        b
    } else if a.last() == SEP {
        a + b
    } else {
        a + text::utf8("/"@) + b
    }
}

/// Put one path behind another.
pub fn join_paths(a: &str, b: &str) -> (r: String)
    ensures
        text::utf8(r@) == join(text::utf8(a@), text::utf8(b@)),
{
    let x = a.as_bytes();
    if x.len() == 0 || is_rooted(b) {
        return text::owned(b);
    }
    let mut r = text::owned(a);
    if x[x.len() - 1] != SEP {
        text::push(&mut r, "/");
    }
    text::push(&mut r, b);
    r
}

/// A path put behind a directory, in normal form.
pub open spec fn child_of(dir: Seq<u8>, rel: Seq<u8>) -> Seq<u8> {
    normal_form(join(dir, rel))
}

/// Put a path behind a directory.
pub fn child(dir: &str, rel: &str) -> (r: String)
    ensures
        text::utf8(r@) == child_of(named(dir@), text::utf8(rel@)),
        named(r@) == child_of(named(dir@), text::utf8(rel@)),
{
    let d = normal(dir);
    normal(join_paths(d.as_str(), rel).as_str())
}

/// The offset of the last separator before `n`; -1 where there is none.
pub open spec fn last_sep(b: Seq<u8>, n: int) -> int
    decreases n,
{
    if n <= 0 {
        -1
    } else if b[n - 1] == SEP {
        n - 1
    } else {
        last_sep(b, n - 1)
    }
}

/// The directory of a path: its components but for the last. A path without
/// components has none; it gives the empty path.
pub open spec fn parent(b: Seq<u8>) -> Seq<u8> {
    if segments(b).len() == 0 {
        Seq::empty()
    } else {
        written(segments(b).drop_last(), rooted(b))
    }
}

/// The directory of a path.
pub fn parent_dir(path: &str) -> (r: String)
    ensures
        text::utf8(r@) == parent(text::utf8(path@)),
        text::utf8(r@) == parent(named(path@)),
{
    proof {
        components::lemma_normal_form(text::utf8(path@));
    }
    let mut names = split_segments(path);
    if names.len() == 0 {
        return String::new();
    }
    let ghost all = texts(names@);
    names.pop();
    assert(texts(names@) =~= all.drop_last());
    let list = join_parts(&names);
    if is_rooted(path) {
        let mut out = text::owned("/");
        text::push(&mut out, list.as_str());
        out
    } else {
        list
    }
}

/// The last part that is neither empty nor `.`.
pub open spec fn last_name(parts: Seq<Seq<u8>>) -> Option<Seq<u8>>
    decreases parts.len(),
{
    if parts.len() == 0 {
        None
    } else if parts.last().len() == 0 || parts.last() == text::utf8("."@) {
        last_name(parts.drop_last())
    } else {
        Some(parts.last())
    }
}

/// Whether the file that a path names has the extension `md`.
pub open spec fn names_markdown(b: Seq<u8>) -> bool {
    match last_name(parts_from(b, 0)) {
        Some(name) => name.len() > 3 && text::has_suffix(name, text::utf8(".md"@)),
        None => false,
    }
}

/// Test a path for the extension `md`.
pub fn is_markdown(path: &str) -> (r: bool)
    ensures
        r == names_markdown(text::utf8(path@)),
{
    let parts = split_parts(path);
    let ghost t = texts(parts@);
    let mut n: usize = parts.len();
    assert(t.take(n as int) =~= t);
    while n > 0
        invariant
            n <= parts@.len(),
            t == texts(parts@),
            t == parts_from(text::utf8(path@), 0),
            last_name(t) == last_name(t.take(n as int)),
        ensures
            n == 0,
            last_name(t) is None,
        decreases n,
    {
        let name = parts[n - 1].as_str();
        proof {
            assert(t.take(n as int).last() == text::utf8(name@));
            assert(t.take(n as int).drop_last() =~= t.take(n - 1));
            text::lemma_utf8_empty(name@);
        }
        if !name.is_empty() && !text::same(name, ".") {
            return name.as_bytes().len() > 3 && text::ends_with(name, ".md");
        }
        n -= 1;
    }
    false
}

// Paths under a directory.

/// Whether `path` is the directory `root` or lies in it; both are in normal form,
/// so that this compares them component by component. The empty directory holds
/// every path.
pub open spec fn under(path: Seq<u8>, root: Seq<u8>) -> bool {
    ||| path == root
    ||| root.len() == 0
    ||| root.last() == SEP && text::has_prefix(path, root)
    ||| path.len() > root.len() + 1 && path[root.len() as int] == SEP && text::has_prefix(path, root)
}

/// The number of leading bytes that a path under `root` has from it.
pub open spec fn prefix_len(path: Seq<u8>, root: Seq<u8>) -> int {
    if path == root || root.len() == 0 || root.last() == SEP {
        root.len() as int
    } else {
        root.len() as int + 1
    }
}

/// A path under `root`, relative to it; both are in normal form.
pub open spec fn relative(path: Seq<u8>, root: Seq<u8>) -> Seq<u8> {
    path.subrange(prefix_len(path, root), path.len() as int)
}

/// The path under `root` that is `rel` relative to it.
pub open spec fn absolute(root: Seq<u8>, rel: Seq<u8>) -> Seq<u8> {
    if rel.len() == 0 {
        root
    } else if root.len() == 0 || root.last() == SEP {
        root + rel
    } else {
        root.push(SEP) + rel
    }
}

/// A relative path leads to a path under the root, and back.
pub proof fn lemma_absolute(root: Seq<u8>, rel: Seq<u8>)
    ensures
        under(absolute(root, rel), root),
        relative(absolute(root, rel), root) == rel,
{
    let p = absolute(root, rel);
    assert(p.subrange(0, root.len() as int) =~= root);
    assert(relative(p, root) =~= rel);
}

/// A path under a root is found again from its relative form.
pub proof fn lemma_relative(path: Seq<u8>, root: Seq<u8>)
    requires
        under(path, root),
    ensures
        absolute(root, relative(path, root)) == path,
        0 <= prefix_len(path, root) <= path.len(),
{
    let rel = relative(path, root);
    if path != root {
        assert(text::has_prefix(path, root)) by {
            if root.len() == 0 {
                assert(path.subrange(0, 0) =~= root);
            }
        }
        assert(path =~= root + path.subrange(root.len() as int, path.len() as int));
        if root.len() > 0 && root.last() == SEP && rel.len() == 0 {
            assert(path =~= root);
        }
    } else {
        assert(rel.len() == 0);
    }
    assert(absolute(root, rel) =~= path);
}

/// Where a path is under a root, it can be cut behind the root.
proof fn lemma_prefix_cut(path: Seq<u8>, root: Seq<u8>)
    requires
        under(path, root),
        vstd::utf8::valid_utf8(path),
    ensures
        text::piece(path, prefix_len(path, root), path.len() as int) == relative(path, root),
        0 <= prefix_len(path, root) <= path.len(),
{
    lemma_relative(path, root);
    let n = prefix_len(path, root);
    if n > 0 && path != root {
        if root.last() == SEP {
            assert(path[n - 1] == path.subrange(0, root.len() as int)[n - 1]);
        }
        text::lemma_after_ascii(path, n);
    }
}

/// Test whether two texts name the same path.
pub fn same_path(a: &str, b: &str) -> (r: bool)
    ensures
        r == (named(a@) == named(b@)),
{
    let x = normal(a);
    let y = normal(b);
    text::same(x.as_str(), y.as_str())
}

fn text_is_under(path: &str, root: &str) -> (r: bool)
    ensures
        r == under(text::utf8(path@), text::utf8(root@)),
{
    let p = path.as_bytes();
    let d = root.as_bytes();
    let n = d.len();
    if n == 0 || text::same(path, root) {
        return true;
    }
    if !text::starts_with(path, root) {
        return false;
    }
    d[n - 1] == SEP || (p.len() > n && p.len() - n > 1 && p[n] == SEP)
}

/// Test whether a path is a directory or lies in it.
pub fn is_under(path: &str, root: &str) -> (r: bool)
    ensures
        r == under(named(path@), named(root@)),
{
    let p = normal(path);
    let d = normal(root);
    text_is_under(p.as_str(), d.as_str())
}

/// A path relative to a directory that it is or lies in, in normal form.
pub fn strip_root(path: &str, root: &str) -> (r: Option<String>)
    ensures
        match r {
            Some(rel) => under(named(path@), named(root@)) && text::utf8(rel@) == relative(
                named(path@),
                named(root@),
            ) && named(rel@) == relative(named(path@), named(root@)),
            None => !under(named(path@), named(root@)),
        },
{
    let whole = normal(path);
    let dir = normal(root);
    if !text_is_under(whole.as_str(), dir.as_str()) {
        return None;
    }
    let p = whole.as_str().as_bytes();
    let d = dir.as_str().as_bytes();
    assert(p.len() >= d.len());
    let n: usize = if d.len() == 0 || text::same(whole.as_str(), dir.as_str()) || d[d.len() - 1]
        == SEP {
        d.len()
    } else {
        d.len() + 1
    };
    proof {
        vstd::utf8::encode_utf8_valid_utf8(whole@);
        lemma_prefix_cut(text::utf8(whole@), text::utf8(dir@));
        components::lemma_relative_normal(text::utf8(path@), text::utf8(root@));
    }
    Some(text::owned(text::slice(whole.as_str(), n, p.len())))
}

// Laws.

/// A directory does not capture what merely has a longer name: behind its own
/// name a path in it goes on with a separator.
pub proof fn law_longer_names_stay_outside(root: Seq<u8>, rest: Seq<u8>)
    requires
        root.len() > 0,
        root.last() != SEP,
        rest.len() > 0,
        rest[0] != SEP,
    ensures
        !under(root + rest, root),
{
    assert((root + rest)[root.len() as int] == rest[0]);
}

/// A text without separators is a path in normal form.
pub proof fn lemma_one_component(b: Seq<u8>)
    requires
        b.len() > 0,
        forall|i: int| 0 <= i < b.len() ==> #[trigger] b[i] != SEP,
    ensures
        normal_form(b) == b,
{
    components::lemma_written(seq![b], false);
    assert(joined(seq![b]) == b);
}

} // verus!

//! What has the shape of a reference, and what references under an alias come to.
use vstd::prelude::*;
use crate::block;
use crate::config::StaleReferencePolicy;
use crate::diagnostic::{DiagView, Severity};
use crate::fm::ExceptionLint;
use crate::path;
use crate::path_laws;
use crate::span::Span;
use crate::structural::ExternalExistence;
use crate::structural::ledger::Emission;
use crate::structural::references;
use crate::structural::references::SceneView;
use crate::text;

verus! {

/// A reference goes up to the first `#`, and its fragment from there on.
pub proof fn law_fragments_start_at_the_first_sign(p: Seq<u8>, f: Seq<u8>)
    requires
        forall|k: int| 0 <= k < p.len() ==> #[trigger] p[k] != 35,
        f.len() > 0 ==> !vstd::utf8::is_continuation_byte(f[0]),
    ensures
        references::path_part(p) == p,
        references::fragment_part(p) is None,
        references::path_part(p + seq![35u8] + f) == p,
        references::fragment_part(p + seq![35u8] + f) == Some(f),
{
    let b = p + seq![35u8] + f;
    let n = p.len() as int;
    lemma_byte_from(p, 0, n);
    assert(p.subrange(0, n) =~= p);
    assert(b[n] == 35);
    assert forall|k: int| 0 <= k < n implies #[trigger] b[k] != 35 by {
        assert(b[k] == p[k]);
    }
    lemma_byte_from(b, 0, n);
    let x = b[n];
    assert(!vstd::utf8::is_continuation_byte(x));
    assert(b.subrange(0, n) =~= p);
    if f.len() > 0 {
        assert(b[n + 1] == f[0]);
    }
    assert(b.subrange(n + 1, b.len() as int) =~= f);
}

proof fn lemma_byte_from(b: Seq<u8>, i: int, n: int)
    requires
        0 <= i <= n <= b.len(),
        forall|k: int| i <= k < n ==> #[trigger] b[k] != 35,
        n < b.len() ==> b[n] == 35,
    ensures
        text::byte_from(b, i, 35) == n,
    decreases n - i,
{
    if i < n {
        assert(b[i] != 35);
        lemma_byte_from(b, i + 1, n);
    }
}

proof fn lemma_has(b: Seq<u8>, from: int, pattern: Seq<u8>, at: int)
    requires
        0 <= from <= at,
        text::matches_at(b, at, pattern),
    ensures
        text::first_match(b, from, pattern) is Some,
    decreases at - from,
{
    if !text::matches_at(b, from, pattern) {
        lemma_has(b, from + 1, pattern, at);
    }
}

/// Whether three dots in a row stand at an offset.
pub open spec fn dots_at(b: Seq<u8>, i: int) -> bool {
    &&& 0 <= i
    &&& i + 3 <= b.len()
    &&& b[i] == 46 && b[i + 1] == 46 && b[i + 2] == 46
}

proof fn lemma_one(c: char, s: Seq<char>)
    requires
        s == seq![c],
        (c as u32) < 128,
    ensures
        text::utf8(s) == seq![c as u8],
{
    assert(vstd::utf8::is_ascii_chars(s));
    vstd::utf8::is_ascii_chars_encode_utf8(s);
    assert(text::utf8(s) =~= seq![c as u8]);
}

proof fn lemma_signs()
    ensures
        text::utf8(" "@) == seq![32u8],
        text::utf8("<"@) == seq![60u8],
        text::utf8(">"@) == seq![62u8],
        text::utf8("*"@) == seq![42u8],
        text::utf8("~"@) == seq![126u8],
        text::utf8("/"@) == seq![47u8],
        text::utf8("."@) == seq![46u8],
        text::utf8("//"@) == seq![47u8, 47u8],
        text::utf8("..."@) == seq![46u8, 46u8, 46u8],
{
    reveal_strlit(" ");
    reveal_strlit("<");
    reveal_strlit(">");
    reveal_strlit("*");
    reveal_strlit("~");
    reveal_strlit("/");
    reveal_strlit(".");
    reveal_strlit("//");
    reveal_strlit("...");
    assert(" "@ =~= seq![' ']);
    assert("<"@ =~= seq!['<']);
    assert(">"@ =~= seq!['>']);
    assert("*"@ =~= seq!['*']);
    assert("~"@ =~= seq!['~']);
    assert("/"@ =~= seq!['/']);
    assert("."@ =~= seq!['.']);
    lemma_one(' ', " "@);
    lemma_one('<', "<"@);
    lemma_one('>', ">"@);
    lemma_one('*', "*"@);
    lemma_one('~', "~"@);
    lemma_one('/', "/"@);
    lemma_one('.', "."@);
    assert(vstd::utf8::is_ascii_chars("//"@));
    assert(vstd::utf8::is_ascii_chars("..."@));
    vstd::utf8::is_ascii_chars_encode_utf8("//"@);
    vstd::utf8::is_ascii_chars_encode_utf8("..."@);
    assert(text::utf8("//"@) =~= seq![47u8, 47u8]);
    assert(text::utf8("..."@) =~= seq![46u8, 46u8, 46u8]);
}

proof fn lemma_has_byte(p: Seq<u8>, c: u8)
    ensures
        text::has_match(p, seq![c]) == exists|k: int| 0 <= k < p.len() && #[trigger] p[k] == c,
{
    let s = seq![c];
    if text::has_match(p, s) {
        text::lemma_first_match(p, 0, s);
        let i = text::first_match(p, 0, s)->0;
        assert(p.subrange(i, i + 1)[0] == p[i]);
        assert(p[i] == c);
    }
    if exists|k: int| 0 <= k < p.len() && #[trigger] p[k] == c {
        let k = choose|k: int| 0 <= k < p.len() && #[trigger] p[k] == c;
        assert(p.subrange(k, k + 1) =~= s);
        lemma_has(p, 0, s, k);
    }
}

proof fn lemma_has_dots(p: Seq<u8>)
    ensures
        text::has_match(p, seq![46u8, 46u8, 46u8]) == exists|k: int| #[trigger] dots_at(p, k),
{
    let s = seq![46u8, 46u8, 46u8];
    if text::has_match(p, s) {
        text::lemma_first_match(p, 0, s);
        let i = text::first_match(p, 0, s)->0;
        let cut = p.subrange(i, i + 3);
        assert(cut[0] == p[i] && cut[1] == p[i + 1] && cut[2] == p[i + 2]);
        assert(dots_at(p, i));
    }
    if exists|k: int| #[trigger] dots_at(p, k) {
        let k = choose|k: int| #[trigger] dots_at(p, k);
        assert(p.subrange(k, k + 3) =~= s);
        lemma_has(p, 0, s, k);
    }
}

/// A word without a fragment, in ASCII, is taken for a reference exactly if it names a
/// markdown file or starts with an alias, holds a slash or a dot but no space, `<`,
/// `>` or `*` and no three dots in a row, and starts neither with `~` nor with two
/// slashes.
pub proof fn law_references_are_told_by_their_shape(p: Seq<u8>)
    requires
        forall|k: int| 0 <= k < p.len() ==> #[trigger] p[k] != 35 && p[k] < 128,
    ensures
        references::path_shaped(p) == {
            &&& p.len() > 0
            &&& p[0] != 126
            &&& !(p.len() > 1 && p[0] == 47 && p[1] == 47)
            &&& forall|k: int|
                0 <= k < p.len() ==> #[trigger] p[k] != 32 && p[k] != 60 && p[k] != 62 && p[k] != 42
            &&& !exists|k: int| #[trigger] dots_at(p, k)
            &&& exists|k: int| 0 <= k < p.len() && (#[trigger] p[k] == 47 || p[k] == 46)
            &&& path::names_markdown(p) || block::namespace_of(p) is Some
        },
{
    law_fragments_start_at_the_first_sign(p, Seq::empty());
    lemma_signs();
    lemma_has_byte(p, 32);
    lemma_has_byte(p, 60);
    lemma_has_byte(p, 62);
    lemma_has_byte(p, 42);
    lemma_has_byte(p, 47);
    lemma_has_byte(p, 46);
    lemma_has_dots(p);
    lemma_no_ellipsis(p);
    if p.len() > 0 {
        assert(p.subrange(0, 1)[0] == p[0]);
        assert(p[0] == 126 ==> p.subrange(0, 1) =~= seq![126u8]);
    }
    if p.len() > 1 {
        let cut = p.subrange(0, 2);
        assert(cut[0] == p[0] && cut[1] == p[1]);
        assert(p[0] == 47 && p[1] == 47 ==> cut =~= seq![47u8, 47u8]);
    }
    let free = forall|k: int|
        0 <= k < p.len() ==> #[trigger] p[k] != 32 && p[k] != 60 && p[k] != 62 && p[k] != 42;
    assert(free == (!text::has_match(p, seq![32u8]) && !text::has_match(p, seq![60u8])
        && !text::has_match(p, seq![62u8]) && !text::has_match(p, seq![42u8])));
    let some = exists|k: int| 0 <= k < p.len() && (#[trigger] p[k] == 47 || p[k] == 46);
    assert(some == (text::has_match(p, seq![47u8]) || text::has_match(p, seq![46u8]))) by {
        if text::has_match(p, seq![47u8]) {
            let k = choose|k: int| 0 <= k < p.len() && #[trigger] p[k] == 47;
            assert(p[k] == 47 || p[k] == 46);
        }
        if text::has_match(p, seq![46u8]) {
            let k = choose|k: int| 0 <= k < p.len() && #[trigger] p[k] == 46;
            assert(p[k] == 47 || p[k] == 46);
        }
    }
}

proof fn lemma_no_ellipsis(p: Seq<u8>)
    requires
        forall|k: int| 0 <= k < p.len() ==> #[trigger] p[k] < 128,
    ensures
        !text::has_match(p, text::utf8("…"@)),
{
    let s = text::utf8("…"@);
    reveal_strlit("…");
    if text::has_match(p, s) {
        text::lemma_first_match(p, 0, s);
        let i = text::first_match(p, 0, s)->0;
        vstd::utf8::encode_utf8_first_scalar("…"@);
        assert(s.len() > 0);
        assert(p.subrange(i, i + s.len())[0] == p[i]);
        lemma_ellipsis_start();
    }
}

proof fn lemma_ellipsis_start()
    ensures
        text::utf8("…"@).len() > 0,
        text::utf8("…"@)[0] >= 128,
{
    reveal_strlit("…");
    let s = "…"@;
    assert(s =~= seq!['…']);
    vstd::utf8::encode_utf8_first_scalar(s);
    reveal_with_fuel(vstd::utf8::encode_utf8, 2);
    assert(s.drop_first() =~= Seq::<char>::empty());
    let c = '…' as u32;
    assert(c == 0x2026);
    assert(text::utf8(s) =~= vstd::utf8::encode_scalar(c));
    let b = vstd::utf8::encode_scalar(c);
    assert((0xE0u8 | ((((0x2026u32 >> 12u32) & 0xFu32) as u8))) >= 128u8) by (bit_vector);
    assert(b[0] >= 128);
}

// Aliases.

/// A reference `{name}/rest` is under the alias `name`, for the rest.
pub proof fn law_aliases_are_read(name: Seq<u8>, rest: Seq<u8>)
    requires
        name.len() > 0,
        forall|k: int|
            0 <= k < name.len() ==> 48 <= #[trigger] name[k] <= 57 || 65 <= name[k] <= 90 || 97
                <= name[k] <= 122 || name[k] == 95 || name[k] == 45,
        rest.len() > 0,
    ensures
        block::namespace_of(seq![123u8] + name + seq![125u8, 47u8] + rest) == Some((name, rest)),
        block::namespace_of(name + rest) is None,
{
    let b = seq![123u8] + name + seq![125u8, 47u8] + rest;
    let n = name.len() as int + 1;
    assert forall|k: int| 1 <= k < n implies block::alias_byte(#[trigger] b[k]) by {
        assert(b[k] == name[k - 1]);
    }
    assert(b[n] == 125 && b[n + 1] == 47);
    lemma_alias_end(b, 1, n);
    assert(b.subrange(1, n) =~= name);
    assert(b.subrange(n + 2, b.len() as int) =~= rest);
    assert((name + rest)[0] == name[0]);
}

proof fn lemma_alias_end(b: Seq<u8>, i: int, n: int)
    requires
        0 <= i <= n < b.len(),
        forall|k: int| i <= k < n ==> block::alias_byte(#[trigger] b[k]),
        b[n] == 125,
    ensures
        block::alias_end(b, i) == n,
    decreases n - i,
{
    if i < n {
        assert(block::alias_byte(b[i]));
        lemma_alias_end(b, i + 1, n);
    }
}

/// What is known of a path outside the workspace.
pub open spec fn known(scene: SceneView, p: Seq<u8>, state: ExternalExistence) -> bool {
    let at = path::normal_form(p);
    match state {
        ExternalExistence::Absent => !scene.external.contains_key(at) || scene.external[at]
            == ExternalExistence::Absent,
        _ => scene.external.contains_key(at) && scene.external[at] == state,
    }
}

/// A reference under a defined alias is stale exactly if the directory of the alias
/// is there and the rest is not there in it; where either cannot be found out, that
/// is said; where the directory is not there, or the rest is, nothing is.
pub proof fn law_references_under_an_alias(
    scene: SceneView,
    line: nat,
    span: Option<Span>,
    reference: Seq<u8>,
    target: Seq<u8>,
    base: Severity,
    urge: Seq<u8>,
    name: Seq<u8>,
    rest: Seq<u8>,
    severity: Severity,
)
    requires
        block::namespace_of(references::path_part(reference)) == Some((name, rest)),
        scene.config.external@.contains_key(name),
        match scene.config.policy.stale_references {
            StaleReferencePolicy::Disabled => false,
            StaleReferencePolicy::Hint => severity == Severity::Hint,
            StaleReferencePolicy::Warn => severity == Severity::Warning,
            StaleReferencePolicy::Deny => severity == Severity::Error,
        },
    ensures
        ({
            let dir = text::utf8(scene.config.external@[name]@);
            let inside = path::join(dir, rest);
            let said = references::mention(scene, line, span, reference, target, base, urge);
            let head = text::utf8("stale reference: `"@) + reference + text::utf8(
                "` — external alias `"@,
            ) + name + text::utf8("` resolves to `"@) + dir;
            let stale = head + text::utf8(
                "`, but no such file or directory exists there; fix the path in that repo (or repoint the `"@,
            ) + name + text::utf8(
                "` alias in .lattice.toml), or except it (see `lattice help config`)"@,
            );
            let unknown = head + text::utf8(
                "`, but checking existence there failed (stat error, not \"absent\"); if this persists, check permissions on that directory"@,
            );
            let finding = |message: Seq<u8>|
                seq![
                    Emission::Routed {
                        lint: ExceptionLint::StaleReferences,
                        reference,
                        diag: DiagView { file: scene.file, line, severity, message, span },
                    },
                ];
            &&& known(scene, dir, ExternalExistence::Absent) ==> said.len() == 0
            &&& known(scene, dir, ExternalExistence::Unknown) ==> said == finding(unknown)
            &&& known(scene, dir, ExternalExistence::Present) && known(
                scene,
                inside,
                ExternalExistence::Present,
            ) ==> said.len() == 0
            &&& known(scene, dir, ExternalExistence::Present) && known(
                scene,
                inside,
                ExternalExistence::Absent,
            ) ==> said == finding(stale)
            &&& known(scene, dir, ExternalExistence::Present) && known(
                scene,
                inside,
                ExternalExistence::Unknown,
            ) ==> said == finding(unknown)
        }),
{
    let dir = text::utf8(scene.config.external@[name]@);
    let said = references::mention(scene, line, span, reference, target, base, urge);
    let head = text::utf8("stale reference: `"@) + reference + text::utf8("` — external alias `"@)
        + name + text::utf8("` resolves to `"@) + dir;
    assert(references::external_stale_message(scene.config, reference, name) =~= head + text::utf8(
        "`, but no such file or directory exists there; fix the path in that repo (or repoint the `"@,
    ) + name + text::utf8(
        "` alias in .lattice.toml), or except it (see `lattice help config`)"@,
    ));
    assert(references::external_unverifiable_message(scene.config, reference, name) =~= head
        + text::utf8(
        "`, but checking existence there failed (stat error, not \"absent\"); if this persists, check permissions on that directory"@,
    ));
}

// Steering.

/// The parts of a path that are all names are the parts to look for.
proof fn lemma_names_cited(list: Seq<Seq<u8>>)
    requires
        path_laws::are_names(list),
    ensures
        references::citation_parts(list) == Some(list),
    decreases list.len(),
{
    path::lemma_dots();
    if list.len() > 0 {
        let rest = list.drop_last();
        assert forall|k: int| 0 <= k < rest.len() implies path_laws::is_name(#[trigger] rest[k]) by {
            assert(rest[k] == list[k]);
        }
        lemma_names_cited(rest);
        assert(path_laws::is_name(list[list.len() - 1]));
        assert(rest.push(list.last()) =~= list);
    } else {
        assert(list =~= Seq::empty());
    }
}

proof fn lemma_same_cited(p: Seq<Seq<u8>>, q: Seq<Seq<u8>>, s: Seq<Seq<u8>>)
    requires
        references::citation_parts(p) == references::citation_parts(q),
    ensures
        references::citation_parts(p + s) == references::citation_parts(q + s),
    decreases s.len(),
{
    if s.len() == 0 {
        assert(p + s =~= p);
        assert(q + s =~= q);
    } else {
        assert((p + s).drop_last() =~= p + s.drop_last());
        assert((q + s).drop_last() =~= q + s.drop_last());
        lemma_same_cited(p, q, s.drop_last());
    }
}

/// What to look for under an alias: a plain path as it is; a name and `..` behind it
/// cancel out, and `.` and a slash in front count for nothing.
pub proof fn law_citations_are_worked_out(a: Seq<Seq<u8>>, n: Seq<u8>, b: Seq<Seq<u8>>)
    requires
        path_laws::are_names(a),
        path_laws::is_name(n),
        path_laws::are_names(b),
        b.len() > 0,
    ensures
        ({
            let plain = Some(path::joined(a + b));
            let slash = seq![47u8];
            &&& references::citation_candidate(path::joined(a + b)) == plain
            &&& references::citation_candidate(slash + path::joined(a + b)) == plain
            &&& references::citation_candidate(seq![46u8] + slash + path::joined(a + b)) == plain
            &&& references::citation_candidate(
                path::joined(a.push(n)) + slash + seq![46u8, 46u8] + slash + path::joined(b),
            ) == plain
            &&& references::citation_candidate(
                seq![46u8, 46u8] + slash + path::joined(a + b),
            ) is None
        }),
{
    path::lemma_dots();
    let slash = seq![47u8];
    let dot = seq![46u8];
    let dots = seq![46u8, 46u8];
    let none = Seq::<u8>::empty();
    let all = a + b;
    assert forall|k: int| 0 <= k < all.len() implies path_laws::is_name(#[trigger] all[k]) by {
        if k < a.len() {
            assert(all[k] == a[k]);
        } else {
            assert(all[k] == b[k - a.len()]);
        }
    }
    let more = a.push(n);
    assert forall|k: int| 0 <= k < more.len() implies path_laws::is_name(#[trigger] more[k]) by {
        if k < a.len() {
            assert(more[k] == a[k]);
        }
    }
    path_laws::lemma_names_parts(all);
    path_laws::lemma_names_parts(b);
    path_laws::lemma_names_parts(more);
    lemma_names_cited(all);
    lemma_names_cited(a);
    lemma_names_cited(more);
    let whole = path::joined(all);
    reveal_with_fuel(references::citation_parts, 2);
    // A slash in front.
    path_laws::law_paths_are_split_at_slashes(none, whole);
    assert(none + slash + whole =~= slash + whole);
    assert(seq![none].drop_last() =~= Seq::<Seq<u8>>::empty());
    lemma_same_cited(seq![none], Seq::empty(), all);
    assert(Seq::<Seq<u8>>::empty() + all =~= all);
    // A dot in front.
    path_laws::law_paths_are_split_at_slashes(dot, whole);
    assert(seq![dot].drop_last() =~= Seq::<Seq<u8>>::empty());
    lemma_same_cited(seq![dot], Seq::empty(), all);
    // A name and two dots.
    let up = more.push(dots);
    assert(up.drop_last() =~= more);
    assert(more.drop_last() =~= a);
    lemma_same_cited(up, a, b);
    path_laws::law_paths_are_split_at_slashes(path::joined(more), dots);
    path_laws::law_paths_are_split_at_slashes(
        path::joined(more) + slash + dots,
        path::joined(b),
    );
    path_laws::law_paths_are_split_at_slashes(dots, none);
    assert(more + seq![dots] =~= up);
    // Two dots in front.
    path_laws::law_paths_are_split_at_slashes(dots, whole);
    assert(seq![dots].drop_last() =~= Seq::<Seq<u8>>::empty());
    lemma_out(all);
}

proof fn lemma_out(s: Seq<Seq<u8>>)
    ensures
        references::citation_parts(seq![seq![46u8, 46u8]] + s) is None,
    decreases s.len(),
{
    path::lemma_dots();
    let p = seq![seq![46u8, 46u8]];
    if s.len() == 0 {
        assert(p + s =~= p);
        assert(p.drop_last() =~= Seq::<Seq<u8>>::empty());
        reveal_with_fuel(references::citation_parts, 2);
    } else {
        assert((p + s).drop_last() =~= p + s.drop_last());
        lemma_out(s.drop_last());
    }
}

/// Whether a path is there under an alias.
pub open spec fn holds(scene: SceneView, name: Seq<u8>, rest: Seq<u8>) -> bool {
    &&& scene.config.external@.contains_key(name)
    &&& known(scene, text::utf8(scene.config.external@[name]@), ExternalExistence::Present)
    &&& known(
        scene,
        path::join(text::utf8(scene.config.external@[name]@), rest),
        ExternalExistence::Present,
    )
}

proof fn lemma_held(scene: SceneView, names: Seq<Seq<u8>>, rest: Seq<u8>, k: int)
    requires
        0 <= k < names.len(),
        holds(scene, names[k], rest),
        forall|i: int| 0 <= i < k ==> !holds(scene, #[trigger] names[i], rest),
    ensures
        references::holding_alias(scene, names, rest) == Some(names[k]),
    decreases k,
{
    if k > 0 {
        assert(!holds(scene, names[0], rest));
        let others = names.drop_first();
        assert forall|i: int| 0 <= i < k - 1 implies !holds(scene, #[trigger] others[i], rest) by {
            assert(others[i] == names[i + 1]);
        }
        assert(others[k - 1] == names[k]);
        lemma_held(scene, others, rest, k - 1);
    }
}

proof fn lemma_not_held(scene: SceneView, names: Seq<Seq<u8>>, rest: Seq<u8>)
    requires
        forall|i: int| 0 <= i < names.len() ==> !holds(scene, #[trigger] names[i], rest),
    ensures
        references::holding_alias(scene, names, rest) is None,
    decreases names.len(),
{
    if names.len() > 0 {
        assert(!holds(scene, names[0], rest));
        let others = names.drop_first();
        assert forall|i: int| 0 <= i < others.len() implies !holds(
            scene,
            #[trigger] others[i],
            rest,
        ) by {
            assert(others[i] == names[i + 1]);
        }
        lemma_not_held(scene, others, rest);
    }
}

/// A reference to a file that is not in the workspace is stale. Where an alias has it,
/// the finding names the first such alias and how to cite the file there; where none
/// has it, the finding says that there is no such file.
pub proof fn law_stale_references_are_steered(
    scene: SceneView,
    line: nat,
    span: Option<Span>,
    list: Seq<Seq<u8>>,
    base: Severity,
    urge: Seq<u8>,
    k: int,
    severity: Severity,
)
    requires
        path_laws::are_names(list),
        list.len() > 0,
        ({
            let p = path::joined(list);
            &&& forall|i: int| 0 <= i < p.len() ==> #[trigger] p[i] != 35
            &&& block::namespace_of(p) is None
            &&& !references::resolves(scene, p)
            &&& 0 <= k <= scene.config.external.keys().len()
            &&& k < scene.config.external.keys().len() ==> holds(
                scene,
                scene.config.external.keys()[k],
                p,
            )
            &&& forall|i: int|
                0 <= i < k ==> !holds(scene, #[trigger] scene.config.external.keys()[i], p)
        }),
        match scene.config.policy.stale_references {
            StaleReferencePolicy::Disabled => false,
            StaleReferencePolicy::Hint => severity == Severity::Hint,
            StaleReferencePolicy::Warn => severity == Severity::Warning,
            StaleReferencePolicy::Deny => severity == Severity::Error,
        },
    ensures
        ({
            let p = path::joined(list);
            let names = scene.config.external.keys();
            let head = text::utf8("stale reference: `"@) + p;
            let message = if k < names.len() {
                head + text::utf8("` — path exists in external `"@) + names[k] + text::utf8(
                    "` — cite it as `"@,
                ) + (seq![123u8] + names[k] + seq![125u8, 47u8] + p) + text::utf8("`"@)
            } else {
                head + text::utf8(
                    "` — no such markdown file under this root; would moving the target update this mention? if so it's a reference — fix the path (or write it as `{repo}/…` and alias `repo` in .lattice.toml if it's in another repo); if not it's an example — except it (see `lattice help config`)"@,
                )
            };
            references::mention(scene, line, span, p, p, base, urge) == seq![
                Emission::Routed {
                    lint: ExceptionLint::StaleReferences,
                    reference: p,
                    diag: DiagView { file: scene.file, line, severity, message, span },
                },
            ]
        }),
{
    let p = path::joined(list);
    let names = scene.config.external.keys();
    law_fragments_start_at_the_first_sign(p, Seq::empty());
    path_laws::lemma_names_parts(list);
    lemma_names_cited(list);
    assert(references::citation_candidate(p) == Some(p));
    lemma_braces();
    if k < names.len() {
        lemma_held(scene, names, p, k);
        assert(references::citation_text(names[k], p, None) =~= seq![123u8] + names[k] + seq![
            125u8,
            47u8,
        ] + p);
    } else {
        lemma_not_held(scene, names, p);
    }
}

proof fn lemma_braces()
    ensures
        text::utf8("{"@) == seq![123u8],
        text::utf8("}/"@) == seq![125u8, 47u8],
{
    reveal_strlit("{");
    reveal_strlit("}/");
    assert(vstd::utf8::is_ascii_chars("{"@));
    assert(vstd::utf8::is_ascii_chars("}/"@));
    vstd::utf8::is_ascii_chars_encode_utf8("{"@);
    vstd::utf8::is_ascii_chars_encode_utf8("}/"@);
    assert(text::utf8("{"@) =~= seq![123u8]);
    assert(text::utf8("}/"@) =~= seq![125u8, 47u8]);
}

} // verus!

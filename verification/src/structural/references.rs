//! The reference scanners: text that names a file without linking to it.
//!
//! A mention of an existing file should have been a link; a mention of a file
//! that does not exist is stale. A `{Name}/…` mention is looked up under the
//! directory that the alias stands for instead.
use vstd::prelude::*;
use crate::block;
use crate::block::{BarePath, Tree};
use crate::components;
use crate::config::{BarePathPolicy, Config, StaleReferencePolicy};
use crate::diagnostic::{DiagView, Diagnostic, Severity};
use crate::fm::ExceptionLint;
use crate::path;
use crate::pathmap::PathMap;
use crate::span::Span;
use crate::structural::ledger;
use crate::structural::ledger::{Emission, ExceptionLookup};
use crate::structural::ExternalExistence;
use crate::text;

verus! {

/// What a file's references are judged against.
pub struct Scene<'a> {
    /// The file's workspace-relative path.
    pub rel_path: &'a str,
    pub config: &'a Config,
    /// The workspace-relative paths of the files that exist.
    pub file_exists: &'a PathMap<()>,
    /// What is known of absolute paths outside the workspace; a path that is
    /// not listed is absent.
    pub external_exists: &'a PathMap<ExternalExistence>,
}

/// What a scene says.
pub struct SceneView {
    pub file: Seq<u8>,
    pub config: Config,
    pub files: Map<Seq<u8>, ()>,
    pub external: Map<Seq<u8>, ExternalExistence>,
}

impl SceneView {
    /// What is known of an absolute path.
    pub open spec fn external_state(self, at: Seq<u8>) -> ExternalExistence {
        if self.external.contains_key(path::normal_form(at)) {
            self.external[path::normal_form(at)]
        } else {
            ExternalExistence::Absent
        }
    }
}

impl<'a> View for Scene<'a> {
    type V = SceneView;

    open spec fn view(&self) -> SceneView {
        SceneView {
            file: path::named(self.rel_path@),
            config: *self.config,
            files: self.file_exists@,
            external: self.external_exists@,
        }
    }
}

impl<'a> Scene<'a> {
    fn stat(&self, at: &str) -> (r: ExternalExistence)
        ensures
            r == self@.external_state(text::utf8(at@)),
    {
        match self.external_exists.get(at) {
            Some(state) => *state,
            None => ExternalExistence::Absent,
        }
    }
}

// Shapes of references.

/// The path in front of a fragment.
pub open spec fn path_part(b: Seq<u8>) -> Seq<u8> {
    text::piece(b, 0, text::byte_from(b, 0, 35))
}

/// The fragment behind the first `#`.
pub open spec fn fragment_part(b: Seq<u8>) -> Option<Seq<u8>> {
    let n = text::byte_from(b, 0, 35);
    if n < b.len() {
        Some(text::piece(b, n + 1, b.len() as int))
    } else {
        None
    }
}

/// Split a token into its path and its fragment.
pub(crate) fn split_path_fragment<'a>(s: &'a str) -> (r: (&'a str, Option<&'a str>))
    ensures
        text::utf8(r.0@) == path_part(text::utf8(s@)),
        match r.1 {
            Some(f) => fragment_part(text::utf8(s@)) == Some(text::utf8(f@)),
            None => fragment_part(text::utf8(s@)) is None,
        },
{
    let b = s.as_bytes();
    let n = text::find_byte(b, 0, 35);
    let head = text::slice(s, 0, n);
    if n < b.len() {
        (head, Some(text::slice(s, n + 1, b.len())))
    } else {
        (head, None)
    }
}

/// Whether a token has the shape of a reference: a markdown file's path, or a
/// path under an alias; no URL, no home directory, no placeholder and no glob.
pub open spec fn path_shaped(b: Seq<u8>) -> bool {
    let p = path_part(b);
    &&& p.len() > 0
    &&& !text::has_prefix(p, text::utf8("//"@))
    &&& !text::has_prefix(p, text::utf8("~"@))
    &&& !text::has_match(p, text::utf8(" "@))
    &&& !text::has_match(p, text::utf8("<"@))
    &&& !text::has_match(p, text::utf8(">"@))
    &&& !text::has_match(p, text::utf8("*"@))
    &&& !text::has_match(p, text::utf8("…"@))
    &&& !text::has_match(p, text::utf8("..."@))
    &&& text::has_match(p, text::utf8("/"@)) || text::has_match(p, text::utf8("."@))
    &&& path::names_markdown(p) || block::namespace_of(p) is Some
}

/// Test a token for the shape of a reference.
pub(crate) fn looks_like_path(s: &str) -> (r: bool)
    ensures
        r == path_shaped(text::utf8(s@)),
{
    let p = split_path_fragment(s).0;
    proof {
        text::lemma_utf8_empty(p@);
    }
    !p.is_empty() && !text::starts_with(p, "//") && !text::starts_with(p, "~") && !text::contains(
        p,
        " ",
    ) && !text::contains(p, "<") && !text::contains(p, ">") && !text::contains(p, "*")
        && !text::contains(p, "…") && !text::contains(p, "...") && (text::contains(p, "/")
        || text::contains(p, ".")) && (path::is_markdown(p) || block::external_namespace(
        p,
    ).is_some())
}

/// The number of backticks from offset `i` on.
pub open spec fn tick_run(b: Seq<u8>, i: int) -> int
    decreases b.len() - i,
{
    if 0 <= i < b.len() && b[i] == 96 {
        1 + tick_run(b, i + 1)
    } else {
        0
    }
}

/// The content of a code span.
pub open spec fn without_ticks(b: Seq<u8>) -> Seq<u8> {
    let n = tick_run(b, 0);
    if n == 0 || b.len() < n * 2 {
        b
    } else {
        text::piece(b, n, b.len() - n)
    }
}

/// Strip the backticks of a code span.
pub(crate) fn strip_backtick_delimiters<'a>(s: &'a str) -> (r: &'a str)
    ensures
        text::utf8(r@) == without_ticks(text::utf8(s@)),
{
    let b = s.as_bytes();
    let mut n: usize = 0;
    while n < b.len() && b[n] == 96
        invariant
            n <= b@.len(),
            tick_run(b@, 0) == n + tick_run(b@, n as int),
        decreases b@.len() - n,
    {
        n += 1;
    }
    if n == 0 || b.len() - n < n {
        return s;
    }
    text::slice(s, n, b.len() - n)
}

// Resolution.

/// Whether a path, with `.` and `..` worked out, stays in the workspace and
/// names an existing file.
pub open spec fn candidate_found(files: Map<Seq<u8>, ()>, candidate: Seq<u8>) -> bool {
    !path::escapes(candidate) && files.contains_key(path::normalized(candidate))
}

/// Whether a reference names an existing file: from the root if it starts with
/// `/`, else from the directory of the file it stands in or from the root.
pub open spec fn resolves(scene: SceneView, target: Seq<u8>) -> bool {
    if path::rooted(target) {
        candidate_found(scene.files, text::piece(target, 1, target.len() as int))
    } else {
        candidate_found(scene.files, path::join(path::parent(scene.file), target))
            || candidate_found(scene.files, target)
    }
}

fn candidate_exists(candidate: &str, file_exists: &PathMap<()>) -> (r: bool)
    ensures
        r == candidate_found(file_exists@, text::utf8(candidate@)),
{
    let (normalized, out) = path::normalize_path(candidate);
    proof {
        components::lemma_normalized_normal(text::utf8(candidate@));
    }
    !out && file_exists.contains_key(normalized.as_str())
}

fn resolves_under_any_base(scene: &Scene<'_>, target: &str) -> (r: bool)
    ensures
        r == resolves(scene@, text::utf8(target@)),
{
    let b = target.as_bytes();
    if b.len() > 0 && b[0] == crate::sorted::SEP {
        return candidate_exists(text::slice(target, 1, b.len()), scene.file_exists);
    }
    let from_dir = path::join_paths(path::parent_dir(scene.rel_path).as_str(), target);
    if candidate_exists(from_dir.as_str(), scene.file_exists) {
        return true;
    }
    candidate_exists(target, scene.file_exists)
}

/// What became of a `{Name}/…` reference.
#[derive(Clone, Copy, Debug, PartialEq, Eq, Structural)]
pub enum ExternalResolution {
    /// The alias is not defined or its directory is absent: nothing to check.
    Exempt,
    /// The target exists.
    Valid,
    /// The directory exists and the target does not.
    Stale,
    /// It could not be found out.
    Unverifiable,
}

/// What became of `rest` under `alias`.
pub open spec fn external_verdict(
    scene: SceneView,
    alias: Seq<u8>,
    rest: Seq<u8>,
) -> ExternalResolution {
    if !scene.config.external@.contains_key(alias) {
        ExternalResolution::Exempt
    } else {
        let dir = text::utf8(scene.config.external@[alias]@);
        match scene.external_state(dir) {
            ExternalExistence::Absent => ExternalResolution::Exempt,
            ExternalExistence::Unknown => ExternalResolution::Unverifiable,
            ExternalExistence::Present => match scene.external_state(path::join(dir, rest)) {
                ExternalExistence::Present => ExternalResolution::Valid,
                ExternalExistence::Absent => ExternalResolution::Stale,
                ExternalExistence::Unknown => ExternalResolution::Unverifiable,
            },
        }
    }
}

fn resolve_external(scene: &Scene<'_>, alias: &str, rest: &str) -> (r: ExternalResolution)
    ensures
        r == external_verdict(scene@, text::utf8(alias@), text::utf8(rest@)),
{
    let Some(dir) = scene.config.external.get(alias) else {
        return ExternalResolution::Exempt;
    };
    match scene.stat(dir.as_str()) {
        ExternalExistence::Absent => ExternalResolution::Exempt,
        ExternalExistence::Unknown => ExternalResolution::Unverifiable,
        ExternalExistence::Present => {
            let target = path::join_paths(dir.as_str(), rest);
            match scene.stat(target.as_str()) {
                ExternalExistence::Present => ExternalResolution::Valid,
                ExternalExistence::Absent => ExternalResolution::Stale,
                ExternalExistence::Unknown => ExternalResolution::Unverifiable,
            }
        },
    }
}

/// The components of a citation after one more part; none where `..` leads out.
pub open spec fn citation_step(acc: Option<Seq<Seq<u8>>>, part: Seq<u8>) -> Option<Seq<Seq<u8>>> {
    match acc {
        None => None,
        Some(list) => if part.len() == 0 || part == text::utf8("."@) {
            Some(list)
        } else if part == text::utf8(".."@) {
            if list.len() == 0 {
                None
            } else {
                Some(list.drop_last())
            }
        } else {
            Some(list.push(part))
        },
    }
}

/// The components of a citation.
pub open spec fn citation_parts(parts: Seq<Seq<u8>>) -> Option<Seq<Seq<u8>>>
    decreases parts.len(),
{
    if parts.len() == 0 {
        Some(Seq::empty())
    } else {
        citation_step(citation_parts(parts.drop_last()), parts.last())
    }
}

/// The path to look for under an alias: the reference with `.` and `..` worked
/// out and without a leading `/`; none where it leads out or nothing is left.
pub open spec fn citation_candidate(b: Seq<u8>) -> Option<Seq<u8>> {
    match citation_parts(path::parts_from(b, 0)) {
        Some(list) => if list.len() == 0 {
            None
        } else {
            Some(path::joined(list))
        },
        None => None,
    }
}

pub(crate) fn external_citation_candidate(s: &str) -> (r: Option<String>)
    ensures
        match r {
            Some(c) => citation_candidate(text::utf8(s@)) == Some(text::utf8(c@)),
            None => citation_candidate(text::utf8(s@)) is None,
        },
{
    let parts = path::split_parts(s);
    let ghost all = path::texts(parts@);
    let mut list: Vec<String> = Vec::new();
    let mut i: usize = 0;
    proof {
        assert(all.take(0) =~= Seq::<Seq<u8>>::empty());
        assert(path::texts(list@) =~= Seq::<Seq<u8>>::empty());
    }
    while i < parts.len()
        invariant
            i <= parts@.len(),
            all == path::texts(parts@),
            all == path::parts_from(text::utf8(s@), 0),
            citation_parts(all.take(i as int)) == Some(path::texts(list@)),
        decreases parts@.len() - i,
    {
        let part = parts[i].as_str();
        let ghost acc = path::texts(list@);
        proof {
            assert(all.take(i + 1).drop_last() =~= all.take(i as int));
            assert(all.take(i + 1).last() == text::utf8(part@));
            text::lemma_utf8_empty(part@);
        }
        if part.is_empty() || text::same(part, ".") {
        } else if text::same(part, "..") {
            if list.len() == 0 {
                proof {
                    lemma_citation_none(all, i + 1);
                    assert(all.take(all.len() as int) =~= all);
                }
                return None;
            }
            list.pop();
            assert(path::texts(list@) =~= acc.drop_last());
        } else {
            list.push(text::owned(part));
            assert(path::texts(list@) =~= acc.push(text::utf8(part@)));
        }
        i += 1;
    }
    assert(all.take(i as int) =~= all);
    if list.len() == 0 {
        None
    } else {
        Some(path::join_parts(&list))
    }
}

proof fn lemma_citation_none(all: Seq<Seq<u8>>, i: int)
    requires
        0 <= i <= all.len(),
        citation_parts(all.take(i)) is None,
    ensures
        citation_parts(all.take(all.len() as int)) is None,
    decreases all.len() - i,
{
    if i < all.len() {
        assert(all.take(i + 1).drop_last() =~= all.take(i));
        lemma_citation_none(all, i + 1);
    }
}

// Stale references.

/// The severity of a stale reference; none where the lint is off.
pub open spec fn stale_severity(policy: StaleReferencePolicy) -> Option<Severity> {
    match policy {
        StaleReferencePolicy::Disabled => None,
        StaleReferencePolicy::Hint => Some(Severity::Hint),
        StaleReferencePolicy::Warn => Some(Severity::Warning),
        StaleReferencePolicy::Deny => Some(Severity::Error),
    }
}

fn severity_of_stale(policy: StaleReferencePolicy) -> (r: Option<Severity>)
    ensures
        r == stale_severity(policy),
{
    match policy {
        StaleReferencePolicy::Disabled => None,
        StaleReferencePolicy::Hint => Some(Severity::Hint),
        StaleReferencePolicy::Warn => Some(Severity::Warning),
        StaleReferencePolicy::Deny => Some(Severity::Error),
    }
}

/// No such file, and no alias that has it.
pub open spec fn stale_message(reference: Seq<u8>) -> Seq<u8> {
    text::utf8("stale reference: `"@) + reference + text::utf8(
        "` — no such markdown file under this root; would moving the target update this mention? if so it's a reference — fix the path (or write it as `{repo}/…` and alias `repo` in .lattice.toml if it's in another repo); if not it's an example — except it (see `lattice help config`)"@,
    )
}

/// No such file here, but one under an alias.
pub open spec fn steer_message(reference: Seq<u8>, alias: Seq<u8>, citation: Seq<u8>) -> Seq<u8> {
    text::utf8("stale reference: `"@) + reference + text::utf8(
        "` — path exists in external `"@,
    ) + alias + text::utf8("` — cite it as `"@) + citation + text::utf8("`"@)
}

/// The directory that an alias stands for.
pub open spec fn alias_dir(config: Config, alias: Seq<u8>) -> Seq<u8> {
    if config.external@.contains_key(alias) {
        text::utf8(config.external@[alias]@)
    } else {
        Seq::empty()
    }
}

/// No such file under the alias that the reference names.
pub open spec fn external_stale_message(
    config: Config,
    reference: Seq<u8>,
    alias: Seq<u8>,
) -> Seq<u8> {
    text::utf8("stale reference: `"@) + reference + text::utf8("` — external alias `"@) + alias
        + text::utf8("` resolves to `"@) + alias_dir(config, alias) + text::utf8(
        "`, but no such file or directory exists there; fix the path in that repo (or repoint the `"@,
    ) + alias + text::utf8(
        "` alias in .lattice.toml), or except it (see `lattice help config`)"@,
    )
}

/// Existence under the alias could not be found out.
pub open spec fn external_unverifiable_message(
    config: Config,
    reference: Seq<u8>,
    alias: Seq<u8>,
) -> Seq<u8> {
    text::utf8("stale reference: `"@) + reference + text::utf8("` — external alias `"@) + alias
        + text::utf8("` resolves to `"@) + alias_dir(config, alias) + text::utf8(
        "`, but checking existence there failed (stat error, not \"absent\"); if this persists, check permissions on that directory"@,
    )
}

/// A finding at a place in the file.
pub open spec fn found(
    scene: SceneView,
    line: nat,
    severity: Severity,
    message: Seq<u8>,
    span: Option<Span>,
) -> DiagView {
    DiagView { file: scene.file, line, severity, message, span }
}

/// The finding about a stale reference, with the message given; none where the
/// lint is off.
pub open spec fn stale_found(
    scene: SceneView,
    line: nat,
    span: Option<Span>,
    message: Seq<u8>,
) -> Option<DiagView> {
    match stale_severity(scene.config.policy.stale_references) {
        Some(severity) => Some(found(scene, line, severity, message, span)),
        None => None,
    }
}

pub(crate) fn diagnostic_at(
    scene: &Scene<'_>,
    line: usize,
    severity: Severity,
    message: String,
    span: Option<Span>,
) -> (d: Diagnostic)
    ensures
        d@ == found(scene@, line as nat, severity, text::utf8(message@), span),
{
    Diagnostic { file: text::owned(scene.rel_path), line, severity, message, span }
}

/// Whether an optional diagnostic says what is expected.
pub open spec fn says(d: Option<Diagnostic>, v: Option<DiagView>) -> bool {
    match d {
        Some(d) => v == Some(d@),
        None => v is None,
    }
}

fn build_stale_reference(
    scene: &Scene<'_>,
    line: usize,
    span: Option<Span>,
    reference: &str,
) -> (d: Option<Diagnostic>)
    ensures
        says(d, stale_found(scene@, line as nat, span, stale_message(text::utf8(reference@)))),
{
    let severity = severity_of_stale(scene.config.policy.stale_references)?;
    let mut message = text::owned("stale reference: `");
    text::push(&mut message, reference);
    text::push(
        &mut message,
        "` — no such markdown file under this root; would moving the target update this mention? if so it's a reference — fix the path (or write it as `{repo}/…` and alias `repo` in .lattice.toml if it's in another repo); if not it's an example — except it (see `lattice help config`)",
    );
    Some(diagnostic_at(scene, line, severity, message, span))
}

fn build_external_citation_steer(
    scene: &Scene<'_>,
    line: usize,
    span: Option<Span>,
    reference: &str,
    alias: &str,
    citation: &str,
) -> (d: Option<Diagnostic>)
    ensures
        says(
            d,
            stale_found(
                scene@,
                line as nat,
                span,
                steer_message(
                    text::utf8(reference@),
                    text::utf8(alias@),
                    text::utf8(citation@),
                ),
            ),
        ),
{
    let severity = severity_of_stale(scene.config.policy.stale_references)?;
    let mut message = text::owned("stale reference: `");
    text::push(&mut message, reference);
    text::push(&mut message, "` — path exists in external `");
    text::push(&mut message, alias);
    text::push(&mut message, "` — cite it as `");
    text::push(&mut message, citation);
    text::push(&mut message, "`");
    Some(diagnostic_at(scene, line, severity, message, span))
}

fn push_alias_dir(message: &mut String, config: &Config, alias: &str)
    ensures
        text::utf8(final(message)@) == text::utf8(old(message)@) + alias_dir(
            *config,
            text::utf8(alias@),
        ),
{
    match config.external.get(alias) {
        Some(dir) => {
            text::push(message, dir.as_str());
        },
        None => {
            assert(text::utf8(message@) + Seq::<u8>::empty() =~= text::utf8(message@));
        },
    }
}

fn build_external_stale_reference(
    scene: &Scene<'_>,
    line: usize,
    span: Option<Span>,
    reference: &str,
    alias: &str,
) -> (d: Option<Diagnostic>)
    ensures
        says(
            d,
            stale_found(
                scene@,
                line as nat,
                span,
                external_stale_message(
                    *scene.config,
                    text::utf8(reference@),
                    text::utf8(alias@),
                ),
            ),
        ),
{
    let severity = severity_of_stale(scene.config.policy.stale_references)?;
    let mut message = text::owned("stale reference: `");
    text::push(&mut message, reference);
    text::push(&mut message, "` — external alias `");
    text::push(&mut message, alias);
    text::push(&mut message, "` resolves to `");
    push_alias_dir(&mut message, scene.config, alias);
    text::push(
        &mut message,
        "`, but no such file or directory exists there; fix the path in that repo (or repoint the `",
    );
    text::push(&mut message, alias);
    text::push(
        &mut message,
        "` alias in .lattice.toml), or except it (see `lattice help config`)",
    );
    Some(diagnostic_at(scene, line, severity, message, span))
}

fn build_external_unverifiable_reference(
    scene: &Scene<'_>,
    line: usize,
    span: Option<Span>,
    reference: &str,
    alias: &str,
) -> (d: Option<Diagnostic>)
    ensures
        says(
            d,
            stale_found(
                scene@,
                line as nat,
                span,
                external_unverifiable_message(
                    *scene.config,
                    text::utf8(reference@),
                    text::utf8(alias@),
                ),
            ),
        ),
{
    let severity = severity_of_stale(scene.config.policy.stale_references)?;
    let mut message = text::owned("stale reference: `");
    text::push(&mut message, reference);
    text::push(&mut message, "` — external alias `");
    text::push(&mut message, alias);
    text::push(&mut message, "` resolves to `");
    push_alias_dir(&mut message, scene.config, alias);
    text::push(
        &mut message,
        "`, but checking existence there failed (stat error, not \"absent\"); if this persists, check permissions on that directory",
    );
    Some(diagnostic_at(scene, line, severity, message, span))
}

/// How a path under an alias is cited, with the fragment that was written.
pub open spec fn citation_text(
    alias: Seq<u8>,
    candidate: Seq<u8>,
    fragment: Option<Seq<u8>>,
) -> Seq<u8> {
    let cited = text::utf8("{"@) + alias + text::utf8("}/"@) + candidate;
    match fragment {
        Some(f) => cited + text::utf8("#"@) + f,
        None => cited,
    }
}

/// The first of the alias names in order under which `candidate` exists.
pub open spec fn holding_alias(
    scene: SceneView,
    names: Seq<Seq<u8>>,
    candidate: Seq<u8>,
) -> Option<Seq<u8>>
    decreases names.len(),
{
    if names.len() == 0 {
        None
    } else if external_verdict(scene, names[0], candidate) == ExternalResolution::Valid {
        Some(names[0])
    } else {
        holding_alias(scene, names.drop_first(), candidate)
    }
}

/// The alias that has what a stale reference names, and how to cite it.
pub open spec fn steered(scene: SceneView, reference: Seq<u8>) -> Option<(Seq<u8>, Seq<u8>)> {
    match citation_candidate(path_part(reference)) {
        None => None,
        Some(candidate) => match holding_alias(
            scene,
            scene.config.external.keys(),
            candidate,
        ) {
            None => None,
            Some(alias) => Some(
                (alias, citation_text(alias, candidate, fragment_part(reference))),
            ),
        },
    }
}

fn steer_to_external_citation<'a>(scene: &Scene<'a>, reference: &str) -> (r: Option<
    (&'a str, String),
>)
    ensures
        match r {
            Some((alias, citation)) => steered(scene@, text::utf8(reference@)) == Some(
                (text::utf8(alias@), text::utf8(citation@)),
            ),
            None => steered(scene@, text::utf8(reference@)) is None,
        },
{
    if scene.config.external.is_empty() {
        return None;
    }
    let (path, fragment) = split_path_fragment(reference);
    let candidate = external_citation_candidate(path)?;
    let n = scene.config.external.len();
    let ghost names = scene.config.external.keys();
    let ghost c = text::utf8(candidate@);
    let mut i: usize = 0;
    assert(names.skip(0) =~= names);
    while i < n
        invariant
            i <= n,
            n == names.len(),
            names == scene.config.external.keys(),
            c == text::utf8(candidate@),
            citation_candidate(path_part(text::utf8(reference@))) == Some(c),
            match fragment {
                Some(f) => fragment_part(text::utf8(reference@)) == Some(text::utf8(f@)),
                None => fragment_part(text::utf8(reference@)) is None,
            },
            holding_alias(scene@, names, c) == holding_alias(scene@, names.skip(i as int), c),
        decreases n - i,
    {
        let alias = scene.config.external.key_at(i);
        proof {
            assert(names.skip(i as int)[0] == names[i as int]);
            assert(names.skip(i as int).drop_first() =~= names.skip(i + 1));
        }
        if resolve_external(scene, alias, candidate.as_str()) == ExternalResolution::Valid {
            let mut citation = text::owned("{");
            text::push(&mut citation, alias);
            text::push(&mut citation, "}/");
            text::push(&mut citation, candidate.as_str());
            if let Some(f) = fragment {
                text::push(&mut citation, "#");
                text::push(&mut citation, f);
            }
            return Some((alias, citation));
        }
        i += 1;
    }
    None
}

/// An optional finding about a reference, on its way.
pub open spec fn perhaps(
    lint: ExceptionLint,
    reference: Seq<u8>,
    diag: Option<DiagView>,
) -> Seq<Emission> {
    match diag {
        Some(diag) => seq![Emission::Routed { lint, reference, diag }],
        None => Seq::empty(),
    }
}

/// What is said of a reference to a file that does not exist.
pub open spec fn stale_mention(
    scene: SceneView,
    line: nat,
    span: Option<Span>,
    reference: Seq<u8>,
) -> Seq<Emission> {
    let message = match steered(scene, reference) {
        Some((alias, citation)) => steer_message(reference, alias, citation),
        None => stale_message(reference),
    };
    perhaps(
        ExceptionLint::StaleReferences,
        reference,
        stale_found(scene, line, span, message),
    )
}

fn route_perhaps(
    lint: ExceptionLint,
    reference: &str,
    diag: Option<Diagnostic>,
    lookup: &mut ExceptionLookup<'_>,
    out: &mut Vec<Diagnostic>,
    Ghost(v): Ghost<Option<DiagView>>,
)
    requires
        old(lookup).wf(),
        says(diag, v),
    ensures
        ledger::stepped(
            *old(lookup),
            old(out)@,
            *final(lookup),
            final(out)@,
            perhaps(lint, text::utf8(reference@), v),
        ),
{
    let ghost l0 = *lookup;
    let ghost o0 = out@;
    match diag {
        Some(d) => {
            let ghost dv = d@;
            lookup.route(lint, reference, d, out);
            proof {
                ledger::lemma_stepped_routed(
                    l0,
                    o0,
                    *lookup,
                    out@,
                    lint,
                    text::utf8(reference@),
                    dv,
                );
            }
        },
        None => {
            proof {
                ledger::lemma_stepped_nothing(l0, o0);
            }
        },
    }
}

fn route_stale_reference(
    scene: &Scene<'_>,
    line: usize,
    span: Option<Span>,
    reference: &str,
    lookup: &mut ExceptionLookup<'_>,
    out: &mut Vec<Diagnostic>,
)
    requires
        old(lookup).wf(),
    ensures
        ledger::stepped(
            *old(lookup),
            old(out)@,
            *final(lookup),
            final(out)@,
            stale_mention(scene@, line as nat, span, text::utf8(reference@)),
        ),
{
    if scene.config.policy.stale_references == StaleReferencePolicy::Disabled {
        proof {
            ledger::lemma_stepped_nothing(*lookup, out@);
        }
        return;
    }
    let ghost r = text::utf8(reference@);
    match steer_to_external_citation(scene, reference) {
        Some((alias, citation)) => {
            let d = build_external_citation_steer(
                scene,
                line,
                span,
                reference,
                alias,
                citation.as_str(),
            );
            let ghost v = stale_found(
                scene@,
                line as nat,
                span,
                steer_message(r, text::utf8(alias@), text::utf8(citation@)),
            );
            route_perhaps(
                ExceptionLint::StaleReferences,
                reference,
                d,
                lookup,
                out,
                Ghost(v),
            );
        },
        None => {
            let d = build_stale_reference(scene, line, span, reference);
            let ghost v = stale_found(scene@, line as nat, span, stale_message(r));
            route_perhaps(
                ExceptionLint::StaleReferences,
                reference,
                d,
                lookup,
                out,
                Ghost(v),
            );
        },
    }
}

/// What is said of a `{Name}/…` reference; nothing at all of any other.
pub open spec fn external_mention(
    scene: SceneView,
    line: nat,
    span: Option<Span>,
    reference: Seq<u8>,
) -> Option<Seq<Emission>> {
    match block::namespace_of(path_part(reference)) {
        None => None,
        Some((alias, rest)) => Some(
            match external_verdict(scene, alias, rest) {
                ExternalResolution::Exempt | ExternalResolution::Valid => Seq::empty(),
                ExternalResolution::Stale => perhaps(
                    ExceptionLint::StaleReferences,
                    reference,
                    stale_found(
                        scene,
                        line,
                        span,
                        external_stale_message(scene.config, reference, alias),
                    ),
                ),
                ExternalResolution::Unverifiable => perhaps(
                    ExceptionLint::StaleReferences,
                    reference,
                    stale_found(
                        scene,
                        line,
                        span,
                        external_unverifiable_message(scene.config, reference, alias),
                    ),
                ),
            },
        ),
    }
}

fn route_external_reference(
    scene: &Scene<'_>,
    line: usize,
    span: Option<Span>,
    reference: &str,
    lookup: &mut ExceptionLookup<'_>,
    out: &mut Vec<Diagnostic>,
) -> (r: bool)
    requires
        old(lookup).wf(),
    ensures
        match external_mention(scene@, line as nat, span, text::utf8(reference@)) {
            Some(list) => r && ledger::stepped(
                *old(lookup),
                old(out)@,
                *final(lookup),
                final(out)@,
                list,
            ),
            None => !r && *final(lookup) == *old(lookup) && final(out)@ == old(out)@,
        },
{
    let path = split_path_fragment(reference).0;
    let Some((alias, rest)) = block::external_namespace(path) else {
        return false;
    };
    let ghost a = text::utf8(alias@);
    let ghost r = text::utf8(reference@);
    match resolve_external(scene, alias, rest) {
        ExternalResolution::Exempt | ExternalResolution::Valid => {
            proof {
                ledger::lemma_stepped_nothing(*lookup, out@);
            }
        },
        ExternalResolution::Stale => {
            let d = build_external_stale_reference(scene, line, span, reference, alias);
            let ghost v = stale_found(
                scene@,
                line as nat,
                span,
                external_stale_message(*scene.config, r, a),
            );
            route_perhaps(
                ExceptionLint::StaleReferences,
                reference,
                d,
                lookup,
                out,
                Ghost(v),
            );
        },
        ExternalResolution::Unverifiable => {
            let d = build_external_unverifiable_reference(scene, line, span, reference, alias);
            let ghost v = stale_found(
                scene@,
                line as nat,
                span,
                external_unverifiable_message(*scene.config, r, a),
            );
            route_perhaps(
                ExceptionLint::StaleReferences,
                reference,
                d,
                lookup,
                out,
                Ghost(v),
            );
        },
    }
    true
}

// Mentions.

/// The severity of a mention of an existing file.
pub open spec fn nudge_severity(policy: BarePathPolicy, base: Severity) -> Severity {
    if policy == BarePathPolicy::Deny {
        Severity::Error
    } else {
        base
    }
}

pub(crate) fn bare_path_severity(policy: BarePathPolicy, base: Severity) -> (r: Severity)
    ensures
        r == nudge_severity(policy, base),
{
    match policy {
        BarePathPolicy::Deny => Severity::Error,
        _ => base,
    }
}

/// What is said of a mention: nothing more than the alias has to say of a
/// `{Name}/…` reference; else that it should be a link where `target` exists,
/// and that it is stale where it does not.
pub open spec fn mention(
    scene: SceneView,
    line: nat,
    span: Option<Span>,
    reference: Seq<u8>,
    target: Seq<u8>,
    base: Severity,
    nudge: Seq<u8>,
) -> Seq<Emission> {
    match external_mention(scene, line, span, reference) {
        Some(list) => list,
        None => if resolves(scene, target) {
            if scene.config.policy.bare_paths == BarePathPolicy::Disabled {
                Seq::empty()
            } else {
                let severity = nudge_severity(scene.config.policy.bare_paths, base);
                seq![Emission::Routed {
                    lint: ExceptionLint::BarePaths,
                    reference,
                    diag: found(scene, line, severity, nudge, span),
                }]
            }
        } else {
            stale_mention(scene, line, span, reference)
        },
    }
}

pub(crate) fn route_mention(
    scene: &Scene<'_>,
    line: usize,
    span: Option<Span>,
    reference: &str,
    target: &str,
    base: Severity,
    nudge: String,
    lookup: &mut ExceptionLookup<'_>,
    out: &mut Vec<Diagnostic>,
)
    requires
        old(lookup).wf(),
    ensures
        ledger::stepped(
            *old(lookup),
            old(out)@,
            *final(lookup),
            final(out)@,
            mention(
                scene@,
                line as nat,
                span,
                text::utf8(reference@),
                text::utf8(target@),
                base,
                text::utf8(nudge@),
            ),
        ),
{
    if route_external_reference(scene, line, span, reference, lookup, out) {
        return;
    }
    if resolves_under_any_base(scene, target) {
        if scene.config.policy.bare_paths != BarePathPolicy::Disabled {
            let severity = bare_path_severity(scene.config.policy.bare_paths, base);
            let d = diagnostic_at(scene, line, severity, nudge, span);
            let ghost dv = d@;
            let ghost l0 = *lookup;
            let ghost o0 = out@;
            lookup.route(ExceptionLint::BarePaths, reference, d, out);
            proof {
                ledger::lemma_stepped_routed(
                    l0,
                    o0,
                    *lookup,
                    out@,
                    ExceptionLint::BarePaths,
                    text::utf8(reference@),
                    dv,
                );
            }
        } else {
            proof {
                ledger::lemma_stepped_nothing(*lookup, out@);
            }
        }
    } else {
        route_stale_reference(scene, line, span, reference, lookup, out);
    }
}

/// The nudge for a path in prose.
pub open spec fn bare_message(reference: Seq<u8>) -> Seq<u8> {
    text::utf8("bare path `"@) + reference + text::utf8(
        "`: would moving the target update this mention? if so it's a reference — convert to a markdown link; if not it's an example — except it (see `lattice help config`)"@,
    )
}

/// What is said of the paths that the parser met in prose.
pub open spec fn prose_mentions(scene: SceneView, list: Seq<BarePath>) -> Seq<Emission>
    decreases list.len(),
{
    if list.len() == 0 {
        Seq::empty()
    } else {
        let b = list.last();
        let p = text::utf8(b.path@);
        prose_mentions(scene, list.drop_last()) + mention(
            scene,
            b.line as nat,
            None,
            p,
            p,
            Severity::Warning,
            bare_message(p),
        )
    }
}

/// Report the paths that the parser met in prose.
pub fn emit_tree_bare_paths(
    tree: &Tree,
    scene: &Scene<'_>,
    lookup: &mut ExceptionLookup<'_>,
    out: &mut Vec<Diagnostic>,
)
    requires
        old(lookup).wf(),
    ensures
        ledger::stepped(
            *old(lookup),
            old(out)@,
            *final(lookup),
            final(out)@,
            prose_mentions(scene@, tree.bare_paths@),
        ),
{
    let ghost l0 = *lookup;
    let ghost o0 = out@;
    let mut i: usize = 0;
    proof {
        ledger::lemma_stepped_nothing(l0, o0);
        assert(tree.bare_paths@.take(0) =~= Seq::<BarePath>::empty());
    }
    while i < tree.bare_paths.len()
        invariant
            i <= tree.bare_paths@.len(),
            lookup.wf(),
            ledger::stepped(
                l0,
                o0,
                *lookup,
                out@,
                prose_mentions(scene@, tree.bare_paths@.take(i as int)),
            ),
        decreases tree.bare_paths@.len() - i,
    {
        let bare = &tree.bare_paths[i];
        let p = bare.path.as_str();
        let mut nudge = text::owned("bare path `");
        text::push(&mut nudge, p);
        text::push(
            &mut nudge,
            "`: would moving the target update this mention? if so it's a reference — convert to a markdown link; if not it's an example — except it (see `lattice help config`)",
        );
        let ghost l1 = *lookup;
        let ghost o1 = out@;
        route_mention(scene, bare.line, None, p, p, Severity::Warning, nudge, lookup, out);
        proof {
            let so_far = tree.bare_paths@.take(i as int);
            let next = tree.bare_paths@.take(i + 1);
            assert(next.drop_last() =~= so_far);
            let b = text::utf8(p@);
            ledger::lemma_stepped_concat(
                l0,
                o0,
                l1,
                o1,
                *lookup,
                out@,
                prose_mentions(scene@, so_far),
                mention(
                    scene@,
                    bare.line as nat,
                    None,
                    b,
                    b,
                    Severity::Warning,
                    bare_message(b),
                ),
            );
        }
        i += 1;
    }
    assert(tree.bare_paths@.take(i as int) =~= tree.bare_paths@);
}

} // verus!

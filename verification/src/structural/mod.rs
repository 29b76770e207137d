//! Structural diagnostics: document quality checks that run on every file.
use vstd::prelude::*;
use crate::block::Tree;
use crate::config::{BarePathPolicy, Config, StaleReferencePolicy};
use crate::diagnostic;
use crate::diagnostic::{DiagView, Diagnostic};
use crate::fm::Exceptions;
use crate::lines;
use crate::path;
use crate::pathmap::PathMap;
use crate::text;

pub mod content;
pub mod elements;
pub mod finds;
pub mod html;
pub mod ledger;
pub mod lookups;
pub mod promises;
pub mod quality;
pub mod references;
pub mod scanners;
pub mod shapes;
pub mod suppressed;

use crate::structural::ledger::{Emission, ExceptionLookup, FileSuppressions, Flow, Rules};
use crate::structural::references::{Scene, SceneView};

verus! {

/// What is known of a path outside the workspace.
#[derive(Clone, Copy, Debug, PartialEq, Eq, Structural)]
pub enum ExternalExistence {
    /// The path exists.
    Present,
    /// The path does not exist.
    Absent,
    /// The look-up itself failed; nothing is known.
    Unknown,
}

impl ExternalExistence {
    /// What a look-up says of a path: whether it is there, or nothing where the
    /// look-up failed.
    pub fn stat(found: Option<bool>) -> (r: ExternalExistence)
        ensures
            r == match found {
                Some(true) => ExternalExistence::Present,
                Some(false) => ExternalExistence::Absent,
                None => ExternalExistence::Unknown,
            },
    {
        match found {
            Some(true) => ExternalExistence::Present,
            Some(false) => ExternalExistence::Absent,
            None => ExternalExistence::Unknown,
        }
    }
}

/// What a file declares, under a configuration.
pub open spec fn rules_of(config: Config, exceptions: Exceptions) -> Rules {
    ledger::declared(
        exceptions,
        config.artifacts@,
        config.policy.stale_references != StaleReferencePolicy::Disabled,
        config.policy.bare_paths != BarePathPolicy::Disabled,
    )
}

/// The findings that come before those on references.
#[verifier::opaque]
pub open spec fn early_reports(tree: Tree, file: Seq<u8>, config: Config) -> Seq<DiagView> {
    content::parser_reports(tree, file) + content::heading_reports(
        tree,
        file,
        config,
        tree.nodes@.len() as int,
    )
}

/// The findings that come after those on references.
#[verifier::opaque]
pub open spec fn late_reports(
    tree: Tree,
    file: Seq<u8>,
    config: Config,
    metadata: Seq<DiagView>,
) -> Seq<DiagView> {
    html::element_reports(tree, file, tree.nodes@) + html::opaque_reports(tree, file, tree.nodes@)
        + diagnostic::about(metadata, file) + content::language_reports(
        tree,
        file,
        config.policy.code_block_language,
    ) + (if config.policy.image_empty_alt {
        content::image_reports(tree, file, tree.nodes@)
    } else {
        Seq::empty()
    }) + content::trailing_reports(
        tree,
        file,
        lines::lines_from(tree.text(), 0),
        lines::lines_from(tree.text(), 0).len() as int,
    )
}

/// What is said of the references of a file.
#[verifier::opaque]
pub open spec fn mentions_of(tree: Tree, scene: SceneView) -> Seq<Emission> {
    references::prose_mentions(scene, tree.bare_paths@) + scanners::text_mentions(
        scene,
        tree,
        tree.nodes@,
    )
}

/// What happens to all findings of a file.
pub open spec fn flow_of(
    tree: Tree,
    scene: SceneView,
    exceptions: Exceptions,
    metadata: Seq<DiagView>,
) -> Flow {
    let file = scene.file;
    let rules = rules_of(scene.config, exceptions);
    let early = ledger::start(exceptions, early_reports(tree, file, scene.config));
    let mentioned = ledger::emitted_all(rules, early, mentions_of(tree, scene));
    let all = Flow {
        out: mentioned.out + late_reports(tree, file, scene.config, metadata),
        ..mentioned
    };
    ledger::entries_reported(rules, file, ledger::counts_settled(rules, file, all))
}

fn emit_early(tree: &Tree, rel_path: &str, config: &Config, out: &mut Vec<Diagnostic>)
    requires
        tree.wf(),
    ensures
        diagnostic::views(final(out)@) == diagnostic::views(old(out)@) + early_reports(
            *tree,
            path::named(rel_path@),
            *config,
        ),
{
    let ghost v0 = diagnostic::views(out@);
    content::emit_parser_diagnostics(tree, rel_path, out);
    content::emit_heading_diagnostics(tree, rel_path, config, out);
    proof {
        reveal(early_reports);
        assert(diagnostic::views(out@) =~= v0 + early_reports(
            *tree,
            path::named(rel_path@),
            *config,
        ));
    }
}

fn emit_mentions(
    tree: &Tree,
    scene: &Scene<'_>,
    lookup: &mut ExceptionLookup<'_>,
    out: &mut Vec<Diagnostic>,
)
    requires
        tree.wf(),
        old(lookup).wf(),
    ensures
        ledger::stepped(
            *old(lookup),
            old(out)@,
            *final(lookup),
            final(out)@,
            mentions_of(*tree, scene@),
        ),
{
    let ghost l0 = *lookup;
    let ghost o0 = out@;
    references::emit_tree_bare_paths(tree, scene, lookup, out);
    let ghost l1 = *lookup;
    let ghost o1 = out@;
    scanners::emit_bare_path_diagnostics(tree, scene, lookup, out);
    proof {
        reveal(mentions_of);
        ledger::lemma_stepped_concat(
            l0,
            o0,
            l1,
            o1,
            *lookup,
            out@,
            references::prose_mentions(scene@, tree.bare_paths@),
            scanners::text_mentions(scene@, *tree, tree.nodes@),
        );
    }
}

fn emit_late(
    tree: &Tree,
    rel_path: &str,
    config: &Config,
    metadata: &Vec<Diagnostic>,
    out: &mut Vec<Diagnostic>,
)
    requires
        tree.wf(),
    ensures
        diagnostic::views(final(out)@) == diagnostic::views(old(out)@) + late_reports(
            *tree,
            path::named(rel_path@),
            *config,
            diagnostic::views(metadata@),
        ),
{
    let ghost v0 = diagnostic::views(out@);
    html::emit_html_diagnostics(tree, rel_path, out);
    html::check_markdown_in_opaque_html(tree, rel_path, out);
    diagnostic::append_about(metadata, rel_path, out);
    content::emit_code_block_diagnostics(tree, rel_path, config, out);
    content::emit_image_diagnostics(tree, rel_path, config, out);
    content::emit_trailing_whitespace_diagnostics(tree, rel_path, out);
    proof {
        reveal(late_reports);
        assert(diagnostic::views(out@) =~= v0 + late_reports(
            *tree,
            path::named(rel_path@),
            *config,
            diagnostic::views(metadata@),
        ));
    }
}

/// All structural diagnostics of a file, and what its exceptions suppressed.
///
/// `file_exists` lists the files of the workspace and `external_exists` what is
/// known of absolute paths outside it. `metadata` holds what is wrong with
/// the document's frontmatter.
pub fn collect_with_suppressions(
    tree: &Tree,
    rel_path: &str,
    config: &Config,
    file_exists: &PathMap<()>,
    external_exists: &PathMap<ExternalExistence>,
    exceptions: &Exceptions,
    metadata: &Vec<Diagnostic>,
) -> (r: (Vec<Diagnostic>, FileSuppressions))
    requires
        tree.wf(),
        exceptions.countable(),
    ensures
        ({
            let scene = Scene { rel_path, config, file_exists, external_exists };
            let flow = flow_of(*tree, scene@, *exceptions, diagnostic::views(metadata@));
            &&& diagnostic::views(r.0@) == diagnostic::in_report_order(flow.out)
            &&& r.1@ == ledger::ledger_view(rules_of(*config, *exceptions), flow, path::named(rel_path@))
        }),
{
    let scene = Scene { rel_path, config, file_exists, external_exists };
    let mut out: Vec<Diagnostic> = Vec::new();
    let mut lookup = ExceptionLookup::new(
        exceptions,
        &config.artifacts,
        config.policy.stale_references != StaleReferencePolicy::Disabled,
        config.policy.bare_paths != BarePathPolicy::Disabled,
    );
    let ghost early = early_reports(*tree, path::named(rel_path@), *config);
    assert(diagnostic::views(out@) + early =~= early);
    emit_early(tree, rel_path, config, &mut out);
    emit_mentions(tree, &scene, &mut lookup, &mut out);
    let ghost o2 = out@;
    emit_late(tree, rel_path, config, metadata, &mut out);
    proof {
        ledger::lemma_flow_out(lookup, o2, out@);
        ledger::lemma_flow_out(lookup, o2, o2);
    }
    lookup.resolve_count_keys(rel_path, &mut out);
    lookup.emit_unmatched(rel_path, &mut out);
    proof {
        ledger::lemma_flow_out(lookup, out@, out@);
        assert(lookup.flow(out@) == flow_of(
            *tree,
            scene@,
            *exceptions,
            diagnostic::views(metadata@),
        ));
    }
    let sorted = diagnostic::sort_diagnostics(out);
    let suppressions = lookup.into_suppressions(rel_path);
    (sorted, suppressions)
}

/// All structural diagnostics of a file.
pub fn collect(
    tree: &Tree,
    rel_path: &str,
    config: &Config,
    file_exists: &PathMap<()>,
    external_exists: &PathMap<ExternalExistence>,
    exceptions: &Exceptions,
    metadata: &Vec<Diagnostic>,
) -> (r: Vec<Diagnostic>)
    requires
        tree.wf(),
        exceptions.countable(),
    ensures
        ({
            let scene = Scene { rel_path, config, file_exists, external_exists };
            let flow = flow_of(*tree, scene@, *exceptions, diagnostic::views(metadata@));
            diagnostic::views(r@) == diagnostic::in_report_order(flow.out)
        }),
{
    collect_with_suppressions(
        tree,
        rel_path,
        config,
        file_exists,
        external_exists,
        exceptions,
        metadata,
    ).0
}

} // verus!

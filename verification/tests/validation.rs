//! Checks on the link graph of whole projects.
use lattice::block::Tree;
use lattice::config::{Config, ConnectivityPolicy, FragmentAlgorithm, PredicatePolicy};
use lattice::diagnostic::{Diagnostic, Severity};
use lattice::fm::Exceptions;
use lattice::path::{join_paths, normalize_path, parent_dir};
use lattice::pathmap::PathMap;
use lattice::sorted::{KeyOrder, SortedMap};
use lattice::span::Span;
use lattice::structural::ledger::FileSuppressions;
use lattice::validation;
use lattice::workspace::{
    unknown_predicates, Backlinks, FileData, Frontmatter, Heading, HeadingId, Link, LinkKind,
    WorkspaceView,
};

// A project in memory, read from the small documents below.

struct Project {
    config: Config,
    has_config: bool,
    data: Vec<(String, FileData)>,
    on_disk: PathMap<()>,
}

impl Project {
    fn view(&self) -> WorkspaceView<'_> {
        let mut files = PathMap::new();
        for (path, data) in &self.data {
            files.insert(path.clone(), data);
        }
        WorkspaceView {
            root: "/project".to_string(),
            config: &self.config,
            has_config: self.has_config,
            files,
            boundaries: Vec::new(),
        }
    }
}

fn validate_forward_links(project: &Project) -> Vec<Diagnostic> {
    validation::validate_forward_links(&project.view(), &project.on_disk)
}

fn validate_backlinks(project: &Project) -> Vec<Diagnostic> {
    validation::validate_backlinks(&project.view())
}

fn validate_connectivity(project: &Project) -> Vec<Diagnostic> {
    validation::validate_connectivity(&project.view())
}

fn collect_all(project: &Project) -> Vec<Diagnostic> {
    validation::collect_all(&project.view(), &project.on_disk)
}

fn read_config(text: &str) -> Config {
    let mut config = Config::default();
    for line in text.lines() {
        let Some((key, value)) = line.split_once(" = ") else {
            continue;
        };
        let value = value.trim_matches(['[', ']']).trim_matches('"');
        match (key, value) {
            ("predicates", "required") => config.policy.predicates = PredicatePolicy::Required,
            ("backlinks", _) => config.policy.backlinks = value == "true",
            ("fragments", "github") => config.policy.fragments = Some(FragmentAlgorithm::Github),
            ("fragments", "gitlab") => config.policy.fragments = Some(FragmentAlgorithm::Gitlab),
            ("connectivity", "no-orphans") => {
                config.policy.connectivity = ConnectivityPolicy::NoOrphans
            }
            ("connectivity", "no-islands") => {
                config.policy.connectivity = ConnectivityPolicy::NoIslands
            }
            ("connectivity", "reachable") => {
                config.policy.connectivity = ConnectivityPolicy::Reachable
            }
            ("roots", _) => config.policy.roots = vec![value.to_string()],
            _ => panic!("unknown setting: {line}"),
        }
    }
    config
}

fn slug(text: &str, ascii: bool) -> String {
    let mut out = String::new();
    for c in text.to_lowercase().chars() {
        if c.is_alphanumeric() && (!ascii || c.is_ascii()) {
            out.push(c);
        } else if c == ' ' {
            out.push('-');
        }
    }
    out
}

fn read_link(path: &str, target: &str, line: usize, span: Span) -> Link {
    let (target, predicate) = match target.split_once(" \"") {
        Some((target, rest)) => (target, Some(rest.trim_end_matches('"'))),
        None => (target, None),
    };
    let (target, fragment) = match target.split_once('#') {
        Some((target, fragment)) => (target, Some(fragment.to_string())),
        None => (target, None),
    };
    let resolved = normalize_path(&join_paths(&parent_dir(path), target)).0;
    let kind = if target.contains(':') {
        LinkKind::External
    } else if target.is_empty() {
        LinkKind::IntraDocument { anchor: fragment.unwrap_or_default() }
    } else if !target.ends_with(".md") {
        LinkKind::NonMarkdown { target: resolved }
    } else {
        LinkKind::IntraProject {
            target: resolved,
            fragment,
            predicate: predicate.unwrap_or("references").to_string(),
            explicit_predicate: predicate.is_some(),
        }
    };
    Link { kind, line, span }
}

fn read_document(path: &str, text: &str, config: &Config) -> FileData {
    let mut links = Vec::new();
    let mut headings = Vec::new();
    let mut anchors = Vec::new();
    let mut backlinks: Vec<Backlinks> = Vec::new();
    let mut has_frontmatter = false;
    let mut start = 0;
    for (n, line) in text.lines().enumerate() {
        let number = n + 1;
        if line == "---" {
            has_frontmatter = true;
        } else if let Some(source) = line.strip_prefix("    - ") {
            backlinks.last_mut().unwrap().sources.push(source.to_string());
        } else if let Some(predicate) = line.strip_prefix("  ").and_then(|l| l.strip_suffix(':')) {
            backlinks.push(Backlinks {
                predicate: predicate.to_string(),
                line: number,
                sources: Vec::new(),
            });
        } else if line.starts_with('#') {
            let text = line.trim_start_matches('#').trim();
            let id = match text.split_once("{#") {
                Some((_, id)) => HeadingId::Explicit(id.trim_end_matches('}').to_string()),
                None => HeadingId::Computed {
                    github: slug(text, false),
                    gitlab: slug(text, true),
                    vscode: slug(text, false),
                },
            };
            let text_span = Span { start, end: start + line.len() };
            headings.push(Heading { id, line: number, text_span });
        }
        for attribute in [" id=\"", " name=\""] {
            for piece in line.split(attribute).skip(1) {
                anchors.push(piece[..piece.find('"').unwrap()].to_string());
            }
        }
        let mut at = 0;
        while let Some(open) = line[at..].find("](") {
            let from = at + open + 2;
            let to = from + line[from..].find(')').unwrap();
            let first = line[..at + open].rfind('[').unwrap();
            let span = Span { start: start + first, end: start + to + 1 };
            links.push(read_link(path, &line[from..to], number, span));
            at = to + 1;
        }
        start += line.len() + 1;
    }
    let frontmatter = if has_frontmatter {
        Some(Frontmatter { start_line: 1, backlinks })
    } else {
        None
    };
    let backlink_diagnostics = unknown_predicates(&frontmatter, config);
    FileData {
        tree: Tree {
            source: text.to_string(),
            nodes: Vec::new(),
            diagnostics: Vec::new(),
            bare_paths: Vec::new(),
        },
        links,
        headings,
        anchors,
        frontmatter,
        exceptions: Exceptions::default(),
        metadata: Vec::new(),
        backlink_diagnostics,
        structural: Vec::new(),
        suppressions: FileSuppressions {
            file: path.to_string(),
            exceptions: None,
            count_keys: Vec::new(),
            artifacts: SortedMap::new(KeyOrder::Bytes),
        },
    }
}

fn setup_workspace(files: &[(&str, &str)]) -> Project {
    let mut config = Config::default();
    let mut has_config = false;
    for (path, text) in files {
        if *path == ".lattice.toml" {
            config = read_config(text);
            has_config = true;
        }
    }
    let mut data = Vec::new();
    let mut on_disk = PathMap::new();
    for (path, text) in files {
        on_disk.insert(join_paths("/project", path), ());
        if path.ends_with(".md") {
            data.push((path.to_string(), read_document(path, text, &config)));
        }
    }
    Project { config, has_config, data, on_disk }
}

#[test]
fn valid_link_with_known_predicate() {
    let ws = setup_workspace(&[
        ("index.md", r#"[other](other.md "references")"#),
        ("other.md", "# Other\n"),
    ]);

    let diags = validate_forward_links(&ws);
    assert!(
        diags.iter().all(|d| d.severity != Severity::Error),
        "no errors for valid link: {diags:?}"
    );
}

#[test]
fn broken_link_target() {
    let ws =
        setup_workspace(&[("index.md", r#"[missing](nonexistent.md "references")"#)]);

    let diags = validate_forward_links(&ws);
    let errors: Vec<_> = diags
        .iter()
        .filter(|d| d.severity == Severity::Error)
        .collect();

    assert_eq!(errors.len(), 1, "one error for broken link");
    assert!(
        errors[0].message.contains("does not exist"),
        "message mentions non-existence: {}",
        errors[0].message
    );
    assert!(
        errors[0].message.contains("nonexistent.md"),
        "message includes target path: {}",
        errors[0].message
    );
}

#[test]
fn unknown_predicate() {
    let ws = setup_workspace(&[
        ("index.md", r#"[other](other.md "invented_predicate")"#),
        ("other.md", "# Other\n"),
    ]);

    let diags = validate_forward_links(&ws);
    let errors: Vec<_> = diags
        .iter()
        .filter(|d| d.severity == Severity::Error)
        .collect();

    assert_eq!(errors.len(), 1, "one error for unknown predicate");
    assert!(
        errors[0].message.contains("unknown predicate"),
        "message mentions unknown predicate: {}",
        errors[0].message
    );
    assert!(
        errors[0].message.contains("invented_predicate"),
        "message includes the bad predicate: {}",
        errors[0].message
    );
}

#[test]
fn missing_predicate_optional_policy() {
    let ws =
        setup_workspace(&[("index.md", "[other](other.md)"), ("other.md", "# Other\n")]);

    let diags = validate_forward_links(&ws);

    let infos: Vec<_> = diags
        .iter()
        .filter(|d| d.severity == Severity::Info)
        .collect();
    let has_errors = diags.iter().any(|d| d.severity == Severity::Error);

    assert_eq!(infos.len(), 1, "one info for implicit predicate");
    assert!(!has_errors, "no errors under optional policy");
    assert!(
        infos[0].message.contains("no explicit predicate"),
        "message describes missing predicate: {}",
        infos[0].message
    );
}

#[test]
fn missing_predicate_required_policy() {
    let config_toml = "\
[policy]
predicates = \"required\"
";
    let ws = setup_workspace(&[
        (".lattice.toml", config_toml),
        ("index.md", "[other](other.md)"),
        ("other.md", "# Other\n"),
    ]);

    let diags = validate_forward_links(&ws);
    let errors: Vec<_> = diags
        .iter()
        .filter(|d| d.severity == Severity::Error)
        .collect();

    assert_eq!(errors.len(), 1, "one error for missing predicate");
    assert!(
        errors[0].message.contains("missing predicate"),
        "message describes missing predicate: {}",
        errors[0].message
    );
}

#[test]
fn external_links_skipped() {
    let ws = setup_workspace(&[(
        "index.md",
        "[ext](https://example.com) [mail](mailto:a@b.com)",
    )]);

    let diags = validate_forward_links(&ws);
    assert!(diags.is_empty(), "no diagnostics for external links");
}

#[test]
fn non_markdown_target_exists() {
    let ws = setup_workspace(&[
        ("index.md", "[diagram](arch.png)"),
        ("arch.png", "fake png"),
    ]);

    let diags = validate_forward_links(&ws);
    assert!(
        diags.iter().all(|d| d.severity != Severity::Error),
        "no errors when non-markdown target exists"
    );
}

#[test]
fn non_markdown_target_missing() {
    let ws = setup_workspace(&[("index.md", "[diagram](missing.png)")]);

    let diags = validate_forward_links(&ws);
    let errors: Vec<_> = diags
        .iter()
        .filter(|d| d.severity == Severity::Error)
        .collect();

    assert_eq!(errors.len(), 1, "one error for missing non-markdown target");
    assert!(
        errors[0].message.contains("does not exist"),
        "message mentions non-existence: {}",
        errors[0].message
    );
}

#[test]
fn diagnostics_sorted_by_file_and_line() {
    let ws = setup_workspace(&[
        (
            "b.md",
            r#"[x](missing1.md "references")
[y](missing2.md "references")"#,
        ),
        ("a.md", r#"[z](missing3.md "references")"#),
    ]);

    let diags = validate_forward_links(&ws);
    let error_files: Vec<_> = diags
        .iter()
        .filter(|d| d.severity == Severity::Error)
        .map(|d| (d.file.clone(), d.line))
        .collect();

    for window in error_files.windows(2) {
        assert!(
            window[0] <= window[1],
            "diagnostics should be sorted: {:?} should come before {:?}",
            window[0],
            window[1]
        );
    }
}

#[test]
fn link_in_subdirectory() {
    let ws = setup_workspace(&[
        ("docs/guide.md", r#"[ref](../README.md "references")"#),
        ("README.md", "# README\n"),
    ]);

    let diags = validate_forward_links(&ws);
    assert!(
        diags.iter().all(|d| d.severity != Severity::Error),
        "no errors for valid cross-directory link: {diags:?}"
    );
}

#[test]
fn backlink_present_no_warning() {
    let target = "\
---
backlinks:
  referenced_by:
    - index.md
---
# Target
";
    let ws = setup_workspace(&[
        ("index.md", r#"[target](target.md "references")"#),
        ("target.md", target),
    ]);

    let diags = validate_backlinks(&ws);
    assert!(
        diags.is_empty(),
        "no warnings when backlink is present: {diags:?}"
    );
}

#[test]
fn missing_backlink_warning() {
    let ws = setup_workspace(&[
        ("index.md", r#"[target](target.md "supersedes")"#),
        ("target.md", "# Target\n"),
    ]);

    let diags = validate_backlinks(&ws);
    let warnings: Vec<_> = diags
        .iter()
        .filter(|d| d.severity == Severity::Warning)
        .collect();

    assert_eq!(warnings.len(), 1, "one warning for missing backlink");
    assert!(
        warnings[0].message.contains("superseded_by"),
        "message names the inverse predicate: {}",
        warnings[0].message
    );
    assert!(
        warnings[0].message.contains("target.md"),
        "message names the target file the backlink belongs in: {}",
        warnings[0].message
    );
    assert_eq!(
        warnings[0].file,
        "index.md",
        "diagnostic anchors on the source (the forward link), not the target"
    );
}

#[test]
fn missing_backlink_anchors_on_source_link_line() {
    let ws = setup_workspace(&[
        (
            "index.md",
            "# Index\n\n[target](target.md \"supersedes\")\n",
        ),
        ("target.md", "# Target\n"),
    ]);

    let diags = validate_backlinks(&ws);
    let warnings: Vec<_> = diags
        .iter()
        .filter(|d| d.severity == Severity::Warning)
        .collect();

    assert_eq!(warnings.len(), 1, "one warning for missing backlink");
    assert_eq!(
        warnings[0].file,
        "index.md",
        "diagnostic anchors on the source file"
    );
    assert_eq!(
        warnings[0].line, 3,
        "diagnostic anchors on the forward-link line, not line 1"
    );
    assert!(
        warnings[0].span.is_some(),
        "diagnostic carries the forward link's span"
    );
}

#[test]
fn stale_backlink_warning() {
    let target = "\
---
backlinks:
  superseded_by:
    - ghost.md
---
# Target
";
    let ws = setup_workspace(&[("target.md", target)]);

    let diags = validate_backlinks(&ws);
    let warnings: Vec<_> = diags
        .iter()
        .filter(|d| d.severity == Severity::Warning)
        .collect();

    assert_eq!(warnings.len(), 1, "one warning for stale backlink");
    assert!(
        warnings[0]
            .message
            .contains("no corresponding forward link"),
        "message describes staleness: {}",
        warnings[0].message
    );
    assert!(
        warnings[0].message.contains("ghost.md"),
        "message names the stale source: {}",
        warnings[0].message
    );
}

#[test]
fn default_predicate_generates_referenced_by_backlink() {
    let ws = setup_workspace(&[
        ("index.md", "[target](target.md)"),
        ("target.md", "# Target\n"),
    ]);

    let diags = validate_backlinks(&ws);
    let warnings: Vec<_> = diags
        .iter()
        .filter(|d| d.severity == Severity::Warning)
        .collect();

    assert_eq!(warnings.len(), 1, "one warning for missing backlink");
    assert!(
        warnings[0].message.contains("referenced_by"),
        "implicit references produces referenced_by backlink: {}",
        warnings[0].message
    );
}

#[test]
fn inverse_predicate_forward_link_accepted() {
    let ws =
        setup_workspace(&[("a.md", r#"[b](b.md "superseded_by")"#), ("b.md", "# B\n")]);

    let diags = validate_forward_links(&ws);
    assert!(
        diags.iter().all(|d| d.severity != Severity::Error),
        "inverse-predicate forward link should not error: {diags:?}"
    );
}

#[test]
fn inverse_predicate_derives_forward_label() {
    let ws =
        setup_workspace(&[("a.md", r#"[b](b.md "superseded_by")"#), ("b.md", "# B\n")]);

    let diags = validate_backlinks(&ws);
    let warnings: Vec<_> = diags
        .iter()
        .filter(|d| d.severity == Severity::Warning)
        .collect();

    assert_eq!(warnings.len(), 1, "one missing-backlink warning: {diags:?}");
    assert!(
        warnings[0].message.contains("supersedes"),
        "derived label is the forward `supersedes`, not the inverse: {}",
        warnings[0].message
    );
}

#[test]
fn reciprocal_forward_links_need_no_frontmatter() {
    let ws = setup_workspace(&[
        ("a.md", r#"[b](b.md "superseded_by")"#),
        ("b.md", r#"[a](a.md "supersedes")"#),
    ]);

    assert!(
        validate_backlinks(&ws).is_empty(),
        "reciprocal forward links require no backlinks: {:?}",
        validate_backlinks(&ws)
    );
    assert!(
        validate_forward_links(&ws)
            .iter()
            .all(|d| d.severity != Severity::Error),
        "reciprocal forward links produce no errors"
    );
}

#[test]
fn removing_reciprocal_reverts_to_missing_warning() {
    let ws =
        setup_workspace(&[("a.md", r#"[b](b.md "superseded_by")"#), ("b.md", "# B\n")]);

    let warnings: Vec<_> = validate_backlinks(&ws)
        .into_iter()
        .filter(|d| d.severity == Severity::Warning)
        .collect();

    assert_eq!(warnings.len(), 1, "the obligation reverts to a warning");
    assert!(
        warnings[0].message.contains("supersedes"),
        "warning names the unmet `supersedes` backlink: {}",
        warnings[0].message
    );
}

#[test]
fn forward_label_backlink_key_validates_as_known() {
    let ws = setup_workspace(&[
        (
            "b.md",
            "---\nbacklinks:\n  supersedes:\n    - a.md\n---\n# B\n",
        ),
        ("a.md", r#"[b](b.md "superseded_by")"#),
    ]);

    let errors: Vec<_> = collect_all(&ws)
        .into_iter()
        .filter(|d| d.severity == Severity::Error)
        .collect();

    assert!(
        errors.is_empty(),
        "forward-label backlink key is known, not an error: {errors:?}"
    );
}

#[test]
fn reciprocal_link_plus_frontmatter_is_not_warned() {
    let ws = setup_workspace(&[
        (
            "a.md",
            "---\nbacklinks:\n  superseded_by:\n    - b.md\n---\n[b](b.md \"superseded_by\")\n",
        ),
        (
            "b.md",
            "---\nbacklinks:\n  supersedes:\n    - a.md\n---\n[a](a.md \"supersedes\")\n",
        ),
    ]);

    assert!(
        validate_backlinks(&ws).is_empty(),
        "redundant-but-consistent edge is not warned: {:?}",
        validate_backlinks(&ws)
    );
}

#[test]
fn backlinks_disabled_skips_checking() {
    let config_toml = "\
[policy]
backlinks = false
";
    let ws = setup_workspace(&[
        (".lattice.toml", config_toml),
        ("index.md", r#"[target](target.md "supersedes")"#),
        ("target.md", "# Target\n"),
    ]);

    let diags = validate_backlinks(&ws);
    assert!(
        diags.is_empty(),
        "no diagnostics when backlinks disabled: {diags:?}"
    );
}

#[test]
fn multiple_backlinks_from_different_files() {
    let target = "\
---
backlinks:
  superseded_by:
    - a.md
---
# Target
";
    let ws = setup_workspace(&[
        ("a.md", r#"[target](target.md "supersedes")"#),
        ("b.md", r#"[target](target.md "supersedes")"#),
        ("target.md", target),
    ]);

    let diags = validate_backlinks(&ws);
    let warnings: Vec<_> = diags
        .iter()
        .filter(|d| d.severity == Severity::Warning)
        .collect();

    assert_eq!(
        warnings.len(),
        1,
        "one missing backlink (a.md present, b.md missing): {warnings:?}"
    );
    assert_eq!(
        warnings[0].file,
        "b.md",
        "warning anchors on the source with the missing backlink (b.md): {warnings:?}"
    );
    assert!(
        warnings[0].message.contains("target.md"),
        "message names the target the backlink belongs in: {}",
        warnings[0].message
    );
}

#[test]
fn cross_directory_backlink_to_root() {
    let target = "\
---
backlinks:
  referenced_by:
    - docs/guide.md
---
# README
";
    let ws = setup_workspace(&[
        ("docs/guide.md", r#"[readme](../README.md "references")"#),
        ("README.md", target),
    ]);

    let diags = validate_backlinks(&ws);
    assert!(
        diags.is_empty(),
        "no warnings for correct cross-directory backlink: {diags:?}"
    );
}

#[test]
fn cross_directory_backlink_to_subdir() {
    let target = "\
---
backlinks:
  referenced_by:
    - ../index.md
---
# API
";
    let ws = setup_workspace(&[
        ("index.md", r#"[api](docs/api.md "references")"#),
        ("docs/api.md", target),
    ]);

    let diags = validate_backlinks(&ws);
    assert!(
        diags.is_empty(),
        "no warnings when backlink uses file-relative path: {diags:?}"
    );
}

#[test]
fn same_directory_backlink() {
    let target = "\
---
backlinks:
  superseded_by:
    - guide.md
---
# API
";
    let ws = setup_workspace(&[
        ("docs/guide.md", r#"[api](api.md "supersedes")"#),
        ("docs/api.md", target),
    ]);

    let diags = validate_backlinks(&ws);
    assert!(
        diags.is_empty(),
        "no warnings when same-directory backlink uses bare filename: {diags:?}"
    );
}

#[test]
fn missing_backlink_message_shows_file_relative_path() {
    let ws = setup_workspace(&[
        ("docs/guide.md", r#"[readme](../README.md "supersedes")"#),
        ("README.md", "# README\n"),
    ]);

    let diags = validate_backlinks(&ws);
    let warnings: Vec<_> = diags
        .iter()
        .filter(|d| d.severity == Severity::Warning)
        .collect();

    assert_eq!(warnings.len(), 1, "one warning for missing backlink");
    assert_eq!(
        warnings[0].file,
        "docs/guide.md",
        "diagnostic anchors on the source"
    );
    assert!(
        warnings[0].message.contains("../README.md"),
        "message shows file-relative path to the target, not workspace-relative: {}",
        warnings[0].message
    );
}

#[test]
fn broken_forward_link_does_not_expect_backlink() {
    let ws =
        setup_workspace(&[("index.md", r#"[missing](nonexistent.md "supersedes")"#)]);

    let diags = validate_backlinks(&ws);
    assert!(
        diags.is_empty(),
        "no backlink warnings for broken forward links: {diags:?}"
    );
}

#[test]
fn unknown_predicate_does_not_expect_backlink() {
    let ws = setup_workspace(&[
        ("index.md", r#"[target](target.md "invented")"#),
        ("target.md", "# Target\n"),
    ]);

    let diags = validate_backlinks(&ws);
    assert!(
        diags.is_empty(),
        "no backlink warnings for unknown predicates: {diags:?}"
    );
}

#[test]
fn fragment_matches_explicit_anchor() {
    let ws = setup_workspace(&[
        ("index.md", r#"[context](target.md#my-anchor "references")"#),
        ("target.md", "## Context {#my-anchor}\n"),
    ]);

    let diags = validate_forward_links(&ws);
    assert!(
        diags.is_empty(),
        "no errors when fragment matches explicit anchor: {diags:?}"
    );
}

#[test]
fn fragment_matches_computed_slug() {
    let ws = setup_workspace(&[
        (
            "index.md",
            r#"[gs](target.md#getting-started "references")"#,
        ),
        ("target.md", "## Getting Started\n"),
    ]);

    let diags = validate_forward_links(&ws);
    assert!(
        diags.is_empty(),
        "no errors when fragment matches computed slug: {diags:?}"
    );
}

#[test]
fn fragment_not_found_produces_error() {
    let ws = setup_workspace(&[
        ("index.md", r#"[ref](target.md#nonexistent "references")"#),
        ("target.md", "## Introduction\n"),
    ]);

    let diags = validate_forward_links(&ws);
    let errors: Vec<_> = diags
        .iter()
        .filter(|d| d.severity == Severity::Error)
        .collect();

    assert_eq!(errors.len(), 1, "one error for unresolved fragment");
    assert!(
        errors[0].message.contains("#nonexistent"),
        "message includes the fragment: {}",
        errors[0].message
    );
    assert!(
        errors[0].message.contains("target.md"),
        "message includes the target file: {}",
        errors[0].message
    );
}

#[test]
fn fragment_pinned_to_github_rejects_gitlab_only_slug() {
    let config_toml = "\
[policy]
fragments = \"github\"
";
    let ws = setup_workspace(&[
        (".lattice.toml", config_toml),
        ("index.md", r#"[ref](target.md#hllo "references")"#),
        ("target.md", "## Héllo\n"),
    ]);

    let diags = validate_forward_links(&ws);
    let errors: Vec<_> = diags
        .iter()
        .filter(|d| d.severity == Severity::Error)
        .collect();

    assert_eq!(
        errors.len(),
        1,
        "gitlab-only slug rejected when pinned to github"
    );
    assert!(
        errors[0].message.contains("#hllo"),
        "message includes the fragment: {}",
        errors[0].message
    );
}

#[test]
fn fragment_pinned_to_github_accepts_github_slug() {
    let config_toml = "\
[policy]
fragments = \"github\"
";
    let ws = setup_workspace(&[
        (".lattice.toml", config_toml),
        ("index.md", r#"[ref](target.md#héllo "references")"#),
        ("target.md", "## Héllo\n"),
    ]);

    let diags = validate_forward_links(&ws);
    assert!(
        diags.is_empty(),
        "github slug accepted when pinned to github: {diags:?}"
    );
}

#[test]
fn fragment_pinned_to_gitlab_accepts_gitlab_slug() {
    let config_toml = "\
[policy]
fragments = \"gitlab\"
";
    let ws = setup_workspace(&[
        (".lattice.toml", config_toml),
        ("index.md", r#"[ref](target.md#hllo "references")"#),
        ("target.md", "## Héllo\n"),
    ]);

    let diags = validate_forward_links(&ws);
    assert!(
        diags.is_empty(),
        "gitlab slug accepted when pinned to gitlab: {diags:?}"
    );
}

#[test]
fn fragment_unpinned_accepts_any_algorithm() {
    let ws = setup_workspace(&[
        ("index.md", r#"[ref](target.md#hllo "references")"#),
        ("target.md", "## Héllo\n"),
    ]);

    let diags = validate_forward_links(&ws);
    assert!(
        diags.is_empty(),
        "gitlab-only slug accepted when no algorithm pinned: {diags:?}"
    );
}

#[test]
fn fragment_on_broken_target_skipped() {
    let ws =
        setup_workspace(&[("index.md", r#"[ref](missing.md#heading "references")"#)]);

    let diags = validate_forward_links(&ws);
    let fragment_errors: Vec<_> = diags
        .iter()
        .filter(|d| d.severity == Severity::Error && d.message.contains("fragment"))
        .collect();

    assert!(
        fragment_errors.is_empty(),
        "no fragment errors for broken targets: {fragment_errors:?}"
    );
}

#[test]
fn fragment_on_file_with_no_headings() {
    let ws = setup_workspace(&[
        ("index.md", r#"[ref](target.md#something "references")"#),
        ("target.md", "No headings here.\n"),
    ]);

    let diags = validate_forward_links(&ws);
    let errors: Vec<_> = diags
        .iter()
        .filter(|d| d.severity == Severity::Error)
        .collect();

    assert_eq!(errors.len(), 1, "error when target has no headings at all");
    assert!(
        errors[0].message.contains("#something"),
        "message includes the fragment: {}",
        errors[0].message
    );
}

#[test]
fn same_document_anchor_resolves_to_own_heading() {
    let ws = setup_workspace(&[(
        "index.md",
        "[top](#getting-started)\n\n## Getting Started\n",
    )]);

    let diags = validate_forward_links(&ws);
    assert!(
        diags.is_empty(),
        "no errors when same-doc anchor matches an own heading: {diags:?}"
    );
}

#[test]
fn same_document_anchor_resolves_to_explicit_id() {
    let ws = setup_workspace(&[(
        "index.md",
        "[go](#custom-id)\n\n## Some Heading {#custom-id}\n",
    )]);

    let diags = validate_forward_links(&ws);
    assert!(
        diags.is_empty(),
        "no errors when same-doc anchor matches an explicit {{#id}}: {diags:?}"
    );
}

#[test]
fn same_document_anchor_not_found_produces_error() {
    let ws =
        setup_workspace(&[("index.md", "[broken](#nonexistent)\n\n## Introduction\n")]);

    let diags = validate_forward_links(&ws);
    let errors: Vec<_> = diags
        .iter()
        .filter(|d| d.severity == Severity::Error)
        .collect();

    assert_eq!(
        errors.len(),
        1,
        "one error for an unresolved same-doc anchor: {errors:?}"
    );
    assert!(
        errors[0].message.contains("#nonexistent"),
        "message includes the fragment: {}",
        errors[0].message
    );
}

#[test]
fn same_document_anchor_resolves_to_explicit_html_id() {
    let ws = setup_workspace(&[(
        "index.md",
        "[go](#explicit-anchor)\n\n<a id=\"explicit-anchor\"></a>\n\n## Real Heading\n",
    )]);

    let diags = validate_forward_links(&ws);
    assert!(
        diags.is_empty(),
        "no errors when same-doc anchor matches an explicit `<a id>`: {diags:?}"
    );
}

#[test]
fn same_document_anchor_resolves_to_explicit_html_name() {
    let ws = setup_workspace(&[(
        "index.md",
        "[go](#name-anchor)\n\n<a name=\"name-anchor\"></a>\n\n## Real Heading\n",
    )]);

    let diags = validate_forward_links(&ws);
    assert!(
        diags.is_empty(),
        "no errors when same-doc anchor matches an explicit `<a name>`: {diags:?}"
    );
}

#[test]
fn same_document_anchor_resolves_to_element_id() {
    let ws = setup_workspace(&[(
        "index.md",
        "[a](#div-anchor)\n\
         [b](#section-anchor)\n\n\
         <div id=\"div-anchor\">\n\nbody\n\n</div>\n\n\
         <section id=\"section-anchor\">\n\nmore\n\n</section>\n\n\
         ## Real Heading\n",
    )]);

    let diags = validate_forward_links(&ws);
    assert!(
        diags.is_empty(),
        "no errors when same-doc anchor matches an element `id`: {diags:?}"
    );
}

#[test]
fn same_document_html_anchor_does_not_mask_missing_fragment() {
    let ws = setup_workspace(&[(
        "index.md",
        "- [a](#explicit-anchor)\n\
         - [b](#real-heading)\n\
         - [c](#name-anchor)\n\
         - [d](#does-not-exist)\n\n\
         <a id=\"explicit-anchor\"></a>\n\n\
         ## Real Heading\n\n\
         <a name=\"name-anchor\"></a>\n\n\
         Body text.\n",
    )]);

    let diags = validate_forward_links(&ws);
    let errors: Vec<_> = diags
        .iter()
        .filter(|d| d.severity == Severity::Error)
        .collect();
    assert_eq!(
        errors.len(),
        1,
        "only the genuinely missing fragment errors: {errors:?}"
    );
    assert!(
        errors[0].message.contains("#does-not-exist"),
        "the one error names the missing fragment: {}",
        errors[0].message
    );
}

#[test]
fn same_document_anchor_resolves_to_mid_paragraph_inline_id() {
    let ws = setup_workspace(&[(
        "index.md",
        "- [a](#block-anchor)\n\
         - [b](#inline-anchor)\n\
         - [c](#does-not-exist)\n\n\
         <div id=\"block-anchor\"></div>\n\n\
         Paragraph with an <span id=\"inline-anchor\"></span> inline target.\n",
    )]);

    let diags = validate_forward_links(&ws);
    let errors: Vec<_> = diags
        .iter()
        .filter(|d| d.severity == Severity::Error)
        .collect();
    assert_eq!(
        errors.len(),
        1,
        "only the genuinely missing fragment errors; block and mid-paragraph \
         inline ids both resolve: {errors:?}"
    );
    assert!(
        errors[0].message.contains("#does-not-exist"),
        "the one error names the missing fragment: {}",
        errors[0].message
    );
}

#[test]
fn same_document_top_idioms_are_valid() {
    let ws = setup_workspace(&[(
        "index.md",
        "[a](#) [b](#top) [c](#Top) [d](#TOP)\n\n## Intro\n",
    )]);

    let diags = validate_forward_links(&ws);
    assert!(
        diags.is_empty(),
        "back-to-top idioms must not be flagged: {diags:?}"
    );
}

#[test]
fn cross_file_top_idioms_are_valid() {
    let ws = setup_workspace(&[
        ("index.md", "[a](other.md#) [b](other.md#top)\n"),
        ("other.md", "## Other Heading\n"),
    ]);

    let diags = validate_forward_links(&ws);
    let errors: Vec<_> = diags
        .iter()
        .filter(|d| d.severity == Severity::Error)
        .collect();
    assert!(
        errors.is_empty(),
        "cross-file back-to-top idioms must not error: {errors:?}"
    );
}

#[test]
fn same_document_real_top_heading_still_resolves() {
    let ws = setup_workspace(&[("index.md", "[a](#top)\n\n## Top\n")]);

    let diags = validate_forward_links(&ws);
    assert!(
        diags.is_empty(),
        "a real `top` heading resolves cleanly: {diags:?}"
    );
}

#[test]
fn explicit_anchor_takes_priority_over_slug() {
    let ws = setup_workspace(&[
        ("index.md", r#"[ref](target.md#custom-id "references")"#),
        ("target.md", "## Getting Started {#custom-id}\n"),
    ]);

    let diags = validate_forward_links(&ws);
    assert!(diags.is_empty(), "explicit anchor matched: {diags:?}");
}

#[test]
fn collect_all_empty_without_config() {
    let ws = setup_workspace(&[("index.md", r#"[missing](gone.md "references")"#)]);

    let diags = collect_all(&ws);
    assert!(
        diags.is_empty(),
        "collect_all should return empty without .lattice.toml: {diags:?}"
    );
}

#[test]
fn collect_all_runs_with_config() {
    let ws = setup_workspace(&[
        (".lattice.toml", ""),
        ("index.md", r#"[missing](gone.md "references")"#),
    ]);

    let diags = collect_all(&ws);
    assert!(
        !diags.is_empty(),
        "collect_all should produce diagnostics with .lattice.toml"
    );
}

fn flagged_files(ws: &Project) -> Vec<String> {
    let mut files: Vec<String> = validate_connectivity(ws)
        .into_iter()
        .map(|d| d.file)
        .collect();
    files.sort();
    files
}

#[test]
fn connectivity_off_by_default() {
    let ws = setup_workspace(&[
        (".lattice.toml", "[policy]\nbacklinks = true\n"),
        ("orphan.md", "# Orphan\n"),
    ]);

    assert!(
        validate_connectivity(&ws).is_empty(),
        "connectivity defaults off: {:?}",
        validate_connectivity(&ws)
    );
}

#[test]
fn no_orphans_flags_degree_zero_document() {
    let ws = setup_workspace(&[
        (".lattice.toml", "[policy]\nconnectivity = \"no-orphans\"\n"),
        ("index.md", r#"[a](a.md "references")"#),
        ("a.md", "# A\n"),
        ("orphan.md", "# Orphan\n"),
    ]);

    let diags = validate_connectivity(&ws);
    assert_eq!(diags.len(), 1, "only the orphan is flagged: {diags:?}");
    assert_eq!(
        diags[0].file,
        "orphan.md",
        "orphan.md flagged"
    );
    assert_eq!(diags[0].line, 1, "anchored on line 1");
    assert_eq!(
        diags[0].severity,
        Severity::Warning,
        "connectivity is a warning"
    );
    assert!(
        diags[0].message.contains("orphaned document"),
        "message names the orphan: {}",
        diags[0].message
    );
}

#[test]
fn no_orphans_exempts_default_root_readme() {
    let ws = setup_workspace(&[
        (".lattice.toml", "[policy]\nconnectivity = \"no-orphans\"\n"),
        ("README.md", "# Readme\n"),
    ]);

    assert!(
        validate_connectivity(&ws).is_empty(),
        "the root README is exempt: {:?}",
        validate_connectivity(&ws)
    );
}

#[test]
fn no_orphans_ignores_self_loop() {
    let ws = setup_workspace(&[
        (".lattice.toml", "[policy]\nconnectivity = \"no-orphans\"\n"),
        ("selfish.md", r#"[me](selfish.md "references")"#),
    ]);

    assert_eq!(
        flagged_files(&ws),
        vec!["selfish.md".to_string()],
        "self-loop does not connect a document"
    );
}

#[test]
fn no_islands_flags_disconnected_cluster() {
    let ws = setup_workspace(&[
        (".lattice.toml", "[policy]\nconnectivity = \"no-islands\"\n"),
        ("README.md", r#"[a](a.md "references")"#),
        ("a.md", "# A\n"),
        ("island1.md", r#"[two](island2.md "references")"#),
        ("island2.md", "# Island 2\n"),
    ]);

    assert_eq!(
        flagged_files(&ws),
        vec!["island1.md".to_string(), "island2.md".to_string()],
        "both island members flagged, root component clean"
    );
    let diags = validate_connectivity(&ws);
    assert!(
        diags[0].message.contains("isolated document"),
        "no-islands message: {}",
        diags[0].message
    );
}

#[test]
fn reachable_flags_inbound_only_deadend() {
    let ws = setup_workspace(&[
        (".lattice.toml", "[policy]\nconnectivity = \"reachable\"\n"),
        ("README.md", r#"[a](a.md "references")"#),
        ("a.md", "# A\n"),
        ("lonely.md", r#"[home](README.md "references")"#),
    ]);

    assert_eq!(
        flagged_files(&ws),
        vec!["lonely.md".to_string()],
        "inbound-only dead-end is unreachable"
    );
    let diags = validate_connectivity(&ws);
    assert!(
        diags[0].message.contains("unreachable document"),
        "reachable message: {}",
        diags[0].message
    );
}

#[test]
fn no_islands_passes_inbound_only_deadend() {
    let ws = setup_workspace(&[
        (".lattice.toml", "[policy]\nconnectivity = \"no-islands\"\n"),
        ("README.md", r#"[a](a.md "references")"#),
        ("a.md", "# A\n"),
        ("lonely.md", r#"[home](README.md "references")"#),
    ]);

    assert!(
        validate_connectivity(&ws).is_empty(),
        "no-islands accepts the inbound-only dead-end: {:?}",
        validate_connectivity(&ws)
    );
}

#[test]
fn reachable_uses_custom_roots() {
    let ws = setup_workspace(&[
        (
            ".lattice.toml",
            "[policy]\nconnectivity = \"reachable\"\nroots = [\"docs/home.md\"]\n",
        ),
        ("docs/home.md", r#"[a](../a.md "references")"#),
        ("a.md", "# A\n"),
        ("stray.md", "# Stray\n"),
    ]);

    assert_eq!(
        flagged_files(&ws),
        vec!["stray.md".to_string()],
        "traversal starts from the configured root, reaches a.md"
    );
}

#[test]
fn reachable_without_resolvable_root_emits_nothing() {
    let ws = setup_workspace(&[
        (".lattice.toml", "[policy]\nconnectivity = \"reachable\"\n"),
        ("a.md", "# A\n"),
        ("b.md", "# B\n"),
    ]);

    assert!(
        validate_connectivity(&ws).is_empty(),
        "no root → no reachable diagnostics: {:?}",
        validate_connectivity(&ws)
    );
}

#[test]
fn two_links_ask_for_one_backlink_at_the_earlier_line() {
    let ws = setup_workspace(&[
        (
            "a.md",
            "# A\n\n[b](b.md \"references\")\n\n[again](b.md \"references\")\n",
        ),
        ("b.md", "# B\n"),
    ]);

    let found = validate_backlinks(&ws);
    assert_eq!(found.len(), 1);
    assert_eq!(found[0].file, "a.md");
    assert_eq!(found[0].line, 3);
    assert_eq!(found[0].severity, Severity::Warning);
    assert_eq!(found[0].message, "expected backlink `referenced_by` in `b.md`");
}

#[test]
fn a_backlink_that_answers_a_link_is_not_stale() {
    let ws = setup_workspace(&[
        ("a.md", "# A\n\n[b](b.md \"references\")\n"),
        (
            "b.md",
            "---\nbacklinks:\n  referenced_by:\n    - a.md\n    - c.md\n---\n# B\n",
        ),
        ("c.md", "# C\n"),
    ]);

    let found = validate_backlinks(&ws);
    assert_eq!(found.len(), 1);
    assert_eq!(found[0].file, "b.md");
    assert_eq!(
        found[0].message,
        "backlink `referenced_by` from `c.md` has no corresponding forward link"
    );
}

#[test]
fn everything_is_collected() {
    let mut ws = setup_workspace(&[
        (".lattice.toml", ""),
        ("a.md", r#"[gone](gone.md "references")"#),
        ("b.md", "---\n---\n# B\n"),
    ]);
    let broken = Diagnostic {
        file: "elsewhere.md".to_string(),
        line: 3,
        severity: Severity::Error,
        message: "frontmatter: broken".to_string(),
        span: None,
    };
    ws.data[1].1.metadata.push(broken);
    for (line, message) in [(2, "bare path `x/y.md`"), (1, "heading skips a level")] {
        ws.data[1].1.structural.push(Diagnostic {
            file: "b.md".to_string(),
            line,
            severity: Severity::Warning,
            message: message.to_string(),
            span: None,
        });
    }
    let rows = collect_all(&ws);
    let places: Vec<(&str, usize)> = rows.iter().map(|d| (d.file.as_str(), d.line)).collect();
    assert_eq!(places, vec![("a.md", 1), ("b.md", 2), ("b.md", 3)]);
    assert_eq!(rows[2].message, "frontmatter: broken");
    assert_eq!(rows[2].severity, Severity::Error);
    ws.has_config = false;
    assert!(collect_all(&ws).is_empty());
}

#[test]
fn a_file_is_named_so_that_it_is_found() {
    for (from, to, written) in [
        ("a.md", "b.md", "b.md"),
        ("docs/a.md", "b.md", "../b.md"),
        ("a.md", "docs/b.md", "docs/b.md"),
        ("x/y/a.md", "x/z/w/b.md", "../z/w/b.md"),
    ] {
        assert_eq!(validation::resolve_backlink_path(from, written), to);
        let ups = "../".repeat(from.matches('/').count());
        let text = format!("[to]({ups}{to} \"references\")");
        let ws = setup_workspace(&[
            (".lattice.toml", "backlinks = true"),
            (from, text.as_str()),
            (to, "# B\n"),
        ]);
        let rows = validate_backlinks(&ws);
        assert_eq!(rows.len(), 1);
        assert!(rows[0].message.contains(&format!("`{written}`")), "{}", rows[0].message);
    }
}

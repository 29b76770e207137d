//! What the client is told, and when.
use lattice::block::{BarePath, Tree};
use lattice::config::Config;
use lattice::diagnostic::{sort_diagnostics, Diagnostic, Severity};
use lattice::fm::{ExceptionLint, Exceptions};
use lattice::overrides::{OverrideVerdicts, Verdict, VerdictKind};
use lattice::pathmap::PathMap;
use lattice::server::diff::{diff_diagnostics, diff_diagnostics_with, diff_file_diagnostics};
use lattice::server::outbox::{
    desired_diagnostics, force_republish, force_republish_config, publish_all_diagnostics,
    publish_draft_diagnostics, publish_file_diagnostics,
};
use lattice::server::position::{Position, Range};
use lattice::server::publish::{
    collect_saved_rows, config_channel_diagnostics, config_error_message, merge_perspectives,
    one_uri, Adjudication, PublishScope,
};
use lattice::server::rows::{keep_rows, to_lsp_diagnostics};
use lattice::server::scopes::{Disk, Scan};
use lattice::server::workspaces::{ConfigError, SentDiagnostic, Workspaces};
use lattice::sorted::{KeyOrder, SortedMap};
use lattice::span::Span;
use lattice::structural::ledger::FileSuppressions;
use lattice::structural::ExternalExistence;
use lattice::workspace::{FileData, Link, LinkKind};

fn data(text: &str) -> FileData {
    FileData {
        tree: Tree {
            source: text.to_string(),
            nodes: Vec::new(),
            diagnostics: Vec::new(),
            bare_paths: Vec::new(),
        },
        links: Vec::new(),
        headings: Vec::new(),
        anchors: Vec::new(),
        frontmatter: None,
        exceptions: Exceptions::default(),
        metadata: Vec::new(),
        backlink_diagnostics: Vec::new(),
        structural: Vec::new(),
        suppressions: FileSuppressions {
            file: String::new(),
            exceptions: None,
            count_keys: Vec::new(),
            artifacts: SortedMap::new(KeyOrder::Bytes),
        },
    }
}

/// A document that mentions a path in prose.
fn mentioning(path: &str) -> FileData {
    let mut found = data(path);
    found.tree.bare_paths.push(BarePath { path: path.to_string(), line: 1 });
    found
}

/// A document with one link, in the whole of its text.
fn linking(target: &str, predicate: &str) -> FileData {
    let mut found = data("[x](y)");
    found.links.push(Link {
        kind: LinkKind::IntraProject {
            target: target.to_string(),
            fragment: None,
            predicate: predicate.to_string(),
            explicit_predicate: true,
        },
        line: 1,
        span: Span { start: 0, end: 6 },
    });
    found
}

fn no_external() -> PathMap<ExternalExistence> {
    PathMap::new()
}

fn nothing() -> PathMap<()> {
    PathMap::new()
}

fn no_uris() -> SortedMap<()> {
    SortedMap::new(KeyOrder::Bytes)
}

fn no_verdicts() -> PathMap<OverrideVerdicts> {
    PathMap::new()
}

fn project(files: Vec<(&str, FileData)>, error: Option<ConfigError>) -> Workspaces {
    let mut scans = PathMap::new();
    scans.insert(
        "/p".to_string(),
        Scan {
            canonical_root: "/p".to_string(),
            config: Config::default(),
            config_error: error,
            has_config: true,
            files: files.into_iter().map(|(name, data)| (name.to_string(), data)).collect(),
        },
    );
    let mut disk = Disk {
        covering: PathMap::new(),
        nested: PathMap::new(),
        scans,
        external: no_external(),
    };
    let mut workspaces = Workspaces::new();
    workspaces.add_folder("file:///p", &mut disk);
    workspaces
}

/// Two documents: one that names a missing file, and a clean one.
fn two() -> Workspaces {
    project(vec![("a.md", mentioning("gone/x.md")), ("b.md", data("b"))], None)
}

type Sends = Vec<(String, Vec<SentDiagnostic>)>;

fn uris(sends: &Sends) -> Vec<(&str, usize)> {
    sends.iter().map(|(uri, list)| (uri.as_str(), list.len())).collect()
}

fn commit(workspaces: &mut Workspaces, verdicts: &mut PathMap<OverrideVerdicts>) -> Sends {
    diff_diagnostics(workspaces, &no_uris(), verdicts, &nothing())
}

#[test]
fn a_second_pass_is_silent() {
    let mut workspaces = two();
    let sends = commit(&mut workspaces, &mut no_verdicts());
    assert_eq!(uris(&sends), vec![("file:///p/a.md", 1)]);
    assert!(commit(&mut workspaces, &mut no_verdicts()).is_empty());
    assert_eq!(workspaces.published.len(), 1);
}

#[test]
fn a_pass_leaves_the_client_with_what_it_should_hold() {
    let mut workspaces = two();
    commit(&mut workspaces, &mut no_verdicts());
    let desired = desired_diagnostics(&workspaces, &nothing());
    assert_eq!(desired.len(), 3);
    for i in 0..desired.len() {
        let held = workspaces.published.get(desired.key_at(i));
        let list = desired.value_at(i);
        assert_eq!(list.is_empty(), held.is_none());
        if let Some(held) = held {
            assert_eq!(&held.lsp, list);
        }
    }
}

#[test]
fn what_leaves_is_cleared() {
    let mut workspaces = two();
    commit(&mut workspaces, &mut no_verdicts());
    workspaces.commit_save_from_disk("/p/a.md", None, &no_external());
    let sends = commit(&mut workspaces, &mut no_verdicts());
    assert_eq!(uris(&sends), vec![("file:///p/a.md", 0)]);
    assert!(workspaces.published.is_empty());
}

#[test]
fn a_draft_touches_one_document() {
    let mut workspaces = two();
    workspaces.change_buffer("file:///p/b.md", mentioning("gone/y.md"), &no_external());
    let changed = one_uri("file:///p/b.md");
    let sends = publish_draft_diagnostics(&mut workspaces, &changed, "/p/b.md", &nothing());
    assert_eq!(uris(&sends), vec![("file:///p/b.md", 1)]);
    assert!(workspaces.published.get("file:///p/a.md").is_none());
    let sends = publish_all_diagnostics(&mut workspaces, &no_uris(), &mut no_verdicts(), &nothing());
    assert_eq!(uris(&sends), vec![("file:///p/a.md", 1)]);
}

#[test]
fn a_buffer_does_not_reach_other_documents() {
    let mut workspaces =
        project(vec![("a.md", linking("b.md", "references")), ("b.md", data("b"))], None);
    commit(&mut workspaces, &mut no_verdicts());
    let before = workspaces.published.get("file:///p/a.md").unwrap().lattice.clone();
    assert!(before[0].message.starts_with("expected backlink"));
    let reply = linking("a.md", "referenced_by");
    workspaces.change_buffer("file:///p/b.md", reply, &no_external());
    commit(&mut workspaces, &mut no_verdicts());
    assert_eq!(workspaces.published.get("file:///p/a.md").unwrap().lattice, before);
    let reply = linking("a.md", "referenced_by");
    workspaces.commit_save("file:///p/b.md", reply, &no_external());
    let sends = commit(&mut workspaces, &mut no_verdicts());
    assert_eq!(uris(&sends), vec![("file:///p/a.md", 0)]);
}

#[test]
fn a_perspective_gives_the_rows_of_its_own_document() {
    let mut workspaces =
        project(vec![("a.md", linking("b.md", "references")), ("b.md", data("b"))], None);
    workspaces.change_buffer("file:///p/b.md", mentioning("gone/y.md"), &no_external());
    let saved = vec![Diagnostic {
        file: "a.md".to_string(),
        line: 1,
        severity: Severity::Warning,
        message: "as saved".to_string(),
        span: None,
    }];
    let view = workspaces.perspective_view("/p", "/p/b.md");
    let merged = merge_perspectives(&saved, &vec![("b.md".to_string(), view)], &nothing());
    assert_eq!(merged.get("a.md"), Some(&saved));
    assert_eq!(merged.get("b.md").unwrap().len(), 1);
    assert!(merged.get("b.md").unwrap()[0].message.starts_with("stale reference:"));
}

#[test]
fn a_forced_pass_answers_clean_documents() {
    let mut workspaces = two();
    commit(&mut workspaces, &mut no_verdicts());
    let b = "file:///p/b.md";
    let scope = PublishScope::Only("/p/b.md".to_string());
    let sends = force_republish(&mut workspaces, b, &mut no_verdicts(), &scope, &nothing());
    assert_eq!(uris(&sends), vec![(b, 0)]);
    let a = "file:///p/a.md";
    let sends =
        force_republish(&mut workspaces, a, &mut no_verdicts(), &PublishScope::Full, &nothing());
    assert_eq!(uris(&sends), vec![(a, 1)]);
    let q = "file:///q.md";
    let sends =
        force_republish(&mut workspaces, q, &mut no_verdicts(), &PublishScope::Full, &nothing());
    assert!(sends.is_empty());
}

#[test]
fn a_forced_configuration_is_answered() {
    let mut workspaces = two();
    commit(&mut workspaces, &mut no_verdicts());
    let marker = "file:///p/.lattice.toml";
    let sends =
        force_republish_config(&mut workspaces, marker, &mut no_verdicts(), &nothing());
    assert_eq!(uris(&sends), vec![(marker, 0)]);
    let marker = "file:///q/.lattice.toml";
    let sends =
        force_republish_config(&mut workspaces, marker, &mut no_verdicts(), &nothing());
    assert!(sends.is_empty());
}

#[test]
fn a_made_up_configuration_shows_its_error_alone() {
    let error = ConfigError {
        message: "config".to_string(),
        causes: vec!["bad value".to_string(), "line 3".to_string()],
    };
    assert_eq!(config_error_message(&error), "config: bad value: line 3");
    let mut workspaces = project(vec![("a.md", mentioning("gone/x.md"))], Some(error));
    let sends = commit(&mut workspaces, &mut no_verdicts());
    assert_eq!(uris(&sends), vec![("file:///p/.lattice.toml", 1)]);
    let sent = &sends[0].1[0];
    assert_eq!(sent.message, "config: bad value: line 3");
    assert_eq!(sent.severity, Severity::Error);
    assert_eq!(sent.range.start, Position { line: 0, character: 0 });
}

fn matched(members: &[&str], kind: VerdictKind) -> PathMap<OverrideVerdicts> {
    let mut map = no_verdicts();
    map.insert(
        "/p".to_string(),
        OverrideVerdicts {
            entries: vec![Verdict {
                lint: ExceptionLint::StaleReferences,
                members: members.iter().map(|m| m.to_string()).collect(),
                kind,
            }],
            unused: vec!["unused override".to_string()],
        },
    );
    map
}

#[test]
fn verdicts_are_held_between_commitments() {
    let mut workspaces = two();
    let sends = commit(&mut workspaces, &mut matched(&["a.md", "b.md"], VerdictKind::Matched));
    assert_eq!(uris(&sends), vec![("file:///p/.lattice.toml", 1)]);
    workspaces.change_buffer("file:///p/b.md", mentioning("gone/y.md"), &no_external());
    let sends = diff_diagnostics_with(
        &mut workspaces,
        &no_uris(),
        Adjudication::Held,
        &mut no_verdicts(),
        &PublishScope::Full,
        &nothing(),
    );
    assert!(sends.is_empty());
    let sends = commit(&mut workspaces, &mut no_verdicts());
    assert_eq!(
        uris(&sends),
        vec![
            ("file:///p/.lattice.toml", 0),
            ("file:///p/a.md", 1),
            ("file:///p/b.md", 1),
        ]
    );
}

#[test]
fn drift_is_said_of_the_configuration() {
    let mut workspaces = two();
    let kind = VerdictKind::Drifted { message: "expected 2, found 1".to_string() };
    let mut verdicts = matched(&["a.md"], kind);
    let rows = config_channel_diagnostics(
        workspaces.roots.get("/p").unwrap(),
        verdicts.get("/p").unwrap(),
    );
    let found: Vec<&str> = rows.iter().map(|d| d.message.as_str()).collect();
    assert_eq!(found, vec!["unused override", "expected 2, found 1"]);
    assert!(rows.iter().all(|d| d.severity == Severity::Warning && d.line == 1));
    let sends = commit(&mut workspaces, &mut verdicts);
    assert_eq!(uris(&sends), vec![("file:///p/.lattice.toml", 2), ("file:///p/a.md", 1)]);
}

#[test]
fn one_file_can_be_published_alone() {
    let mut workspaces = two();
    let a = "file:///p/a.md";
    let sent = publish_file_diagnostics(&mut workspaces, a, &nothing()).unwrap();
    assert_eq!((sent.0.as_str(), sent.1.len()), (a, 1));
    assert!(diff_file_diagnostics(&mut workspaces, a, &nothing()).is_none());
    assert!(diff_file_diagnostics(&mut workspaces, "file:///p/b.md", &nothing()).is_none());
    assert!(diff_file_diagnostics(&mut workspaces, "file:///q.md", &nothing()).is_none());
    workspaces.change_buffer(a, data("clean"), &no_external());
    let sent = diff_file_diagnostics(&mut workspaces, a, &nothing()).unwrap();
    assert_eq!((sent.0.as_str(), sent.1.len()), (a, 0));
    assert!(workspaces.published.is_empty());
}

#[test]
fn a_changed_text_moves_the_place_of_a_finding() {
    let mut workspaces = project(vec![("a.md", data("é [x](y)"))], None);
    let link = |text: &str| {
        let mut found = linking("gone.md", "references");
        found.tree.source = text.to_string();
        found.links[0].span = Span { start: 5, end: 11 };
        found
    };
    workspaces.commit_save("file:///p/a.md", link("🎉 [x](y)"), &no_external());
    commit(&mut workspaces, &mut no_verdicts());
    workspaces.commit_save("file:///p/a.md", link("éé [x](y)"), &no_external());
    assert!(commit(&mut workspaces, &mut no_verdicts()).is_empty());
    workspaces.commit_save("file:///p/a.md", link("aaaa [x](y)"), &no_external());
    let changed = one_uri("file:///p/a.md");
    let sends = diff_diagnostics(&mut workspaces, &changed, &mut no_verdicts(), &nothing());
    assert_eq!(sends[0].1[0].range.start, Position { line: 0, character: 5 });
}

#[test]
fn findings_are_placed_by_their_span_or_line() {
    let rows = vec![
        Diagnostic {
            file: "a.md".to_string(),
            line: 2,
            severity: Severity::Hint,
            message: "spanned".to_string(),
            span: Some(Span { start: 5, end: 6 }),
        },
        Diagnostic {
            file: "b.md".to_string(),
            line: 2,
            severity: Severity::Info,
            message: "line".to_string(),
            span: None,
        },
    ];
    let sent = to_lsp_diagnostics(&rows, "one\n🎉 two\n");
    assert_eq!(sent.len(), 2);
    assert_eq!(sent[1].range.start, Position { line: 1, character: 0 });
    assert_eq!((sent[0].severity, sent[1].severity), (Severity::Hint, Severity::Info));
    assert_eq!(keep_rows(&rows, "b.md").len(), 1);
    let none = to_lsp_diagnostics(&rows, "");
    let start = Position { line: 0, character: 0 };
    assert_eq!(none[0].range, Range { start, end: start });
}

#[test]
fn a_finding_is_shown_once() {
    let mut broken = mentioning("gone/x.md");
    broken.metadata.push(Diagnostic {
        file: String::new(),
        line: 1,
        severity: Severity::Error,
        message: "frontmatter: broken".to_string(),
        span: None,
    });
    let workspaces = project(vec![("a.md", broken)], None);
    let rows = collect_saved_rows(&workspaces, "/p", &nothing());
    let found: Vec<(&str, &str)> =
        rows.iter().map(|d| (d.file.as_str(), d.message.as_str())).collect();
    assert_eq!(found.len(), 2);
    assert_eq!(found.iter().filter(|row| **row == ("a.md", "frontmatter: broken")).count(), 1);
}

#[test]
fn findings_go_by_the_components_of_their_file() {
    let row = |file: &str, line: usize| Diagnostic {
        file: file.to_string(),
        line,
        severity: Severity::Info,
        message: "here".to_string(),
        span: None,
    };
    let rows = sort_diagnostics(vec![row("b.md", 1), row("a//x.md", 2), row("a/x.md", 1)]);
    let lines: Vec<(&str, usize)> = rows.iter().map(|d| (d.file.as_str(), d.line)).collect();
    assert_eq!(lines, vec![("a/x.md", 1), ("a//x.md", 2), ("b.md", 1)]);
    assert_eq!(keep_rows(&rows, "a/./x.md").len(), 2);
    let merged = merge_perspectives(&rows, &Vec::new(), &nothing());
    assert_eq!(merged.len(), 2);
    assert_eq!(merged.get("a/x.md").unwrap().len(), 2);
}

/// A client that remembers what it was told.
#[derive(Default)]
struct Client {
    shown: Vec<(String, Vec<SentDiagnostic>)>,
}

impl Client {
    fn tell(&mut self, sends: Sends) {
        for (uri, list) in sends {
            self.shown.retain(|(known, _)| *known != uri);
            if !list.is_empty() {
                self.shown.push((uri, list));
            }
        }
        self.shown.sort_by(|a, b| a.0.cmp(&b.0));
    }

    fn assert_up_to_date(&self, workspaces: &Workspaces) {
        assert_eq!(self.shown.len(), workspaces.published.len());
        for (i, (uri, list)) in self.shown.iter().enumerate() {
            assert_eq!(uri, workspaces.published.key_at(i));
            assert_eq!(*list, workspaces.published.value_at(i).lsp);
        }
    }
}

#[test]
fn what_is_sent_brings_the_client_up_to_date() {
    let a = "file:///p/a.md";
    let mut workspaces = two();
    let mut client = Client::default();
    client.tell(commit(&mut workspaces, &mut no_verdicts()));
    client.assert_up_to_date(&workspaces);
    assert_eq!(client.shown.len(), 1);
    workspaces.change_buffer("file:///p/b.md", mentioning("gone/y.md"), &no_external());
    let changed = one_uri("file:///p/b.md");
    client.tell(publish_draft_diagnostics(&mut workspaces, &changed, "/p/b.md", &nothing()));
    client.assert_up_to_date(&workspaces);
    assert_eq!(client.shown.len(), 2);
    workspaces.commit_save(a, data("clean"), &no_external());
    let scope = PublishScope::Full;
    client.tell(force_republish(&mut workspaces, a, &mut no_verdicts(), &scope, &nothing()));
    client.assert_up_to_date(&workspaces);
    assert_eq!(client.shown.len(), 1);
    workspaces.close_buffer("/p/b.md");
    let sent = publish_file_diagnostics(&mut workspaces, "file:///p/b.md", &nothing());
    client.tell(sent.into_iter().collect());
    client.assert_up_to_date(&workspaces);
    assert!(client.shown.is_empty());
}

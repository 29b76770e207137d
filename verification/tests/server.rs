//! Folders, scopes, buffers and renames.
use lattice::block::{BarePath, ElementKind, Node, Syntax, Tree};
use lattice::config::Config;
use lattice::fm::Exceptions;
use lattice::pathmap::PathMap;
use lattice::server::markers::Reload;
use lattice::server::moves::Reread;
use lattice::server::position::{Position, Range};
use lattice::server::rename::{
    do_rename, prepare_rename, will_rename_files, FileRename, MoveTextEdit,
};
use lattice::server::scopes::{Disk, Scan};
use lattice::server::semantic_tokens::{semantic_tokens_full, semantic_tokens_range};
use lattice::server::workspaces::{document_rel, ConfigError, Workspaces};
use lattice::sorted::{KeyOrder, SortedMap};
use lattice::span::Span;
use lattice::store::{DiskUpdate, Tier};
use lattice::structural::ledger::FileSuppressions;
use lattice::structural::ExternalExistence;
use lattice::workspace::{
    Backlinks, Boundary, BoundaryKind, FileData, Frontmatter, Heading, HeadingId, Link, LinkKind,
};

fn data(text: &str) -> FileData {
    FileData {
        tree: Tree {
            source: text.to_string(),
            nodes: Vec::new(),
            diagnostics: Vec::new(),
            bare_paths: Vec::new(),
        },
        links: Vec::new(),
        headings: Vec::new(),
        anchors: Vec::new(),
        frontmatter: None,
        exceptions: Exceptions::default(),
        metadata: Vec::new(),
        backlink_diagnostics: Vec::new(),
        structural: Vec::new(),
        suppressions: FileSuppressions {
            file: String::new(),
            exceptions: None,
            count_keys: Vec::new(),
            artifacts: SortedMap::new(KeyOrder::Bytes),
        },
    }
}

/// A document that mentions a path in prose.
fn mentioning(path: &str) -> FileData {
    let mut found = data(path);
    found.tree.bare_paths.push(BarePath { path: path.to_string(), line: 1 });
    found
}

fn no_external() -> PathMap<ExternalExistence> {
    PathMap::new()
}

fn empty_disk() -> Disk {
    Disk {
        covering: PathMap::new(),
        nested: PathMap::new(),
        scans: PathMap::new(),
        external: no_external(),
    }
}

fn scan(root: &str, files: Vec<(&str, FileData)>) -> Scan {
    Scan {
        canonical_root: root.to_string(),
        config: Config::default(),
        config_error: None,
        has_config: true,
        files: files.into_iter().map(|(name, data)| (name.to_string(), data)).collect(),
    }
}

fn boundary(path: &str, kind: BoundaryKind) -> Boundary {
    Boundary { path: path.to_string(), kind }
}

/// `/p` with a scope at `/p/in` and a repository at `/p/git`.
fn disk() -> Disk {
    let mut disk = empty_disk();
    disk.nested.insert(
        "/p".to_string(),
        vec![boundary("/p/in", BoundaryKind::Scope), boundary("/p/git", BoundaryKind::Git)],
    );
    disk.covering.insert("/p/sub".to_string(), "/p".to_string());
    let files = vec![("a.md", data("a")), ("b.md", mentioning("gone/x.md"))];
    disk.scans.insert("/p".to_string(), scan("/p", files));
    disk.scans.insert("/p/in".to_string(), scan("/p/in", vec![("c.md", data("c"))]));
    disk
}

fn opened() -> Workspaces {
    let mut workspaces = Workspaces::new();
    workspaces.add_folder("file:///p", &mut disk());
    workspaces
}

fn roots(workspaces: &Workspaces) -> Vec<&str> {
    (0..workspaces.roots.len()).map(|i| workspaces.roots.key_at(i)).collect()
}

fn root_of(workspaces: &Workspaces, abs: &str) -> Option<String> {
    workspaces.store.primary_root(abs)
}

fn messages(workspaces: &Workspaces, abs: &str, tier: Tier) -> Vec<String> {
    let doc = workspaces.store.tier(abs, tier).unwrap();
    doc.data.structural.iter().map(|d| d.message.clone()).collect()
}

// Folders and scopes.

#[test]
fn opening_a_folder_registers_what_is_inside() {
    let workspaces = opened();
    assert_eq!(roots(&workspaces), vec!["/p", "/p/in"]);
    assert_eq!(root_of(&workspaces, "/p/a.md"), Some("/p".to_string()));
    assert_eq!(root_of(&workspaces, "/p/in/c.md"), Some("/p/in".to_string()));
    assert_eq!(workspaces.document_keys_under("/p/in"), vec!["/p/in/c.md"]);
    assert!(messages(&workspaces, "/p/b.md", Tier::Saved)[0].starts_with("stale reference:"));
    assert!(messages(&workspaces, "/p/a.md", Tier::Saved).is_empty());
}

#[test]
fn a_folder_inside_a_scope_opens_the_scope() {
    let mut workspaces = Workspaces::new();
    workspaces.add_folder("file:///p/sub", &mut disk());
    assert_eq!(roots(&workspaces), vec!["/p", "/p/in"]);
    let mut disk = disk();
    workspaces.add_folder("file:///p", &mut disk);
    assert_eq!(roots(&workspaces), vec!["/p", "/p/in"]);
}

#[test]
fn the_deepest_root_owns_and_repositories_cut_off() {
    let workspaces = opened();
    assert_eq!(workspaces.deepest_root_for("/p/x.md"), Some("/p".to_string()));
    assert_eq!(workspaces.deepest_root_for("/p/in/x.md"), Some("/p/in".to_string()));
    assert_eq!(workspaces.deepest_root_for("/p/git/x.md"), None);
    assert_eq!(workspaces.deepest_root_for("/q/x.md"), None);
    assert_eq!(workspaces.deepest_root_for("/p-other/x.md"), None);
}

#[test]
fn boundaries_lie_inside_their_root() {
    let workspaces = opened();
    assert_eq!(
        workspaces.boundaries_under("/p"),
        vec![boundary("/p/in", BoundaryKind::Scope), boundary("/p/git", BoundaryKind::Git)]
    );
    assert!(workspaces.boundaries_under("/p/in").is_empty());
    let mut found = PathMap::new();
    Workspaces::collect_scope_tree(&disk(), "/p", &mut found);
    assert_eq!(found.len(), 2);
    assert_eq!(workspaces.active_scope_roots(&disk()).len(), 2);
    let mut found = PathMap::new();
    Workspaces::collect_git_boundaries(&disk(), "/p", &mut found);
    assert!(found.contains_key("/p/git"));
}

#[test]
fn closing_a_folder_drops_what_nobody_shows() {
    let mut workspaces = opened();
    workspaces.open_documents.insert("/p/a.md".to_string(), ());
    workspaces.remove_folder("file:///elsewhere", &disk());
    assert_eq!(roots(&workspaces), vec!["/p", "/p/in"]);
    workspaces.remove_folder("file:///p", &disk());
    assert!(roots(&workspaces).is_empty());
    assert!(workspaces.store.current("/p/b.md").is_none());
    assert_eq!(workspaces.store.source("/p/a.md", Tier::Saved), Some("a"));
    assert_eq!(root_of(&workspaces, "/p/a.md"), None);
}

#[test]
fn folders_of_the_client_go_before_its_root() {
    let folders = Some(vec!["file:///p".to_string()]);
    let root = Some("file:///other".to_string());
    let workspaces = Workspaces::from_params(&folders, &root, &mut disk());
    assert_eq!(roots(&workspaces), vec!["/p", "/p/in"]);
    let root = Some("file:///p".to_string());
    let workspaces = Workspaces::from_params(&None, &root, &mut disk());
    assert_eq!(roots(&workspaces), vec!["/p", "/p/in"]);
    assert!(Workspaces::from_params(&None, &None, &mut disk()).roots.is_empty());
}

// Markers.

fn reload_ok() -> Reload {
    Reload { has_config: true, loaded: Ok(Config::default()) }
}

#[test]
fn a_new_marker_splits_its_scope() {
    let mut workspaces = opened();
    workspaces.commit_save("file:///p/new/d.md", data("d"), &no_external());
    assert_eq!(root_of(&workspaces, "/p/new/d.md"), Some("/p".to_string()));
    let mut disk = disk();
    disk.scans.insert("/p/new".to_string(), scan("/p/new", vec![]));
    let marker = "file:///p/new/.lattice.toml";
    assert!(workspaces.handle_marker_event(marker, true, reload_ok(), &mut disk));
    assert_eq!(roots(&workspaces), vec!["/p", "/p/in", "/p/new"]);
    assert_eq!(root_of(&workspaces, "/p/new/d.md"), Some("/p/new".to_string()));
}

#[test]
fn a_marker_that_goes_merges_its_scope() {
    let mut workspaces = opened();
    let marker = "file:///p/in/.lattice.toml";
    let mut gone = empty_disk();
    gone.nested.insert("/p".to_string(), vec![]);
    assert!(workspaces.handle_marker_event(marker, false, reload_ok(), &mut gone));
    assert_eq!(roots(&workspaces), vec!["/p"]);
    assert_eq!(root_of(&workspaces, "/p/in/c.md"), Some("/p".to_string()));
}

#[test]
fn an_open_folder_stays_a_scope_without_its_marker() {
    let mut workspaces = opened();
    let marker = "file:///p/.lattice.toml";
    let reload = Reload { has_config: false, loaded: Ok(Config::default()) };
    assert!(workspaces.handle_marker_event(marker, false, reload, &mut disk()));
    assert_eq!(roots(&workspaces), vec!["/p", "/p/in"]);
    assert!(!workspaces.roots.get("/p").unwrap().has_config);
}

#[test]
fn a_stray_marker_does_nothing() {
    let mut workspaces = opened();
    let marker = "file:///q/.lattice.toml";
    assert!(!workspaces.handle_marker_event(marker, true, reload_ok(), &mut disk()));
    assert!(!workspaces.handle_marker_event(marker, false, reload_ok(), &mut disk()));
    assert_eq!(workspaces.registered_root_at("/p/in"), Some("/p/in".to_string()));
    assert_eq!(workspaces.registered_root_at("/q"), None);
}

#[test]
fn a_failed_load_keeps_the_configuration() {
    let mut workspaces = opened();
    let mut config = Config::default();
    config.policy.backlinks = false;
    let reload = Reload { has_config: true, loaded: Ok(config) };
    workspaces.reload_root_config("/p", reload, &no_external());
    let error = ConfigError { message: "bad".to_string(), causes: vec!["line 1".to_string()] };
    let reload = Reload { has_config: true, loaded: Err(error) };
    workspaces.reload_root_config("/p", reload, &no_external());
    let meta = workspaces.roots.get("/p").unwrap();
    assert!(!meta.config.policy.backlinks);
    assert!(meta.config_committed);
    assert!(meta.config_error.is_some());
    workspaces.reload_root_config("/p", reload_ok(), &no_external());
    assert!(workspaces.roots.get("/p").unwrap().config_error.is_none());
}

#[test]
fn a_new_vocabulary_is_read_into_documents() {
    let mut workspaces = opened();
    let mut doc = data("d");
    doc.frontmatter = Some(Frontmatter {
        start_line: 1,
        backlinks: vec![Backlinks {
            predicate: "amended_by".to_string(),
            line: 2,
            sources: vec!["a.md".to_string()],
        }],
    });
    workspaces.commit_save("file:///p/d.md", doc, &no_external());
    let unknown = |w: &Workspaces| {
        w.store.current("/p/d.md").unwrap().data.backlink_diagnostics.len()
    };
    assert_eq!(unknown(&workspaces), 1);
    let mut config = Config::default();
    config.predicates.insert("amends".to_string(), "amended_by".to_string());
    let reload = Reload { has_config: true, loaded: Ok(config) };
    workspaces.reload_root_config("/p", reload, &no_external());
    assert_eq!(unknown(&workspaces), 0);
}

// Buffers.

#[test]
fn a_buffer_never_writes_the_saved_copy() {
    let mut workspaces = opened();
    workspaces.open_buffer("file:///p/a.md", data("a"), &no_external());
    assert!(!workspaces.store.has_overlay("/p/a.md"));
    workspaces.change_buffer("file:///p/a.md", mentioning("b.md"), &no_external());
    assert_eq!(workspaces.store.source("/p/a.md", Tier::Overlay), Some("b.md"));
    assert_eq!(workspaces.store.source("/p/a.md", Tier::Saved), Some("a"));
    assert!(messages(&workspaces, "/p/a.md", Tier::Overlay)[0].starts_with("bare path"));
    workspaces.close_buffer("/p/a.md");
    assert_eq!(workspaces.store.current("/p/a.md").unwrap().data.tree.source, "a");
}

#[test]
fn a_save_makes_the_buffer_the_saved_copy() {
    let mut workspaces = opened();
    workspaces.change_buffer("file:///p/gone/x.md", data("x"), &no_external());
    assert!(messages(&workspaces, "/p/b.md", Tier::Saved)[0].starts_with("stale reference:"));
    workspaces.commit_save("file:///p/gone/x.md", data("x"), &no_external());
    assert!(!workspaces.store.has_overlay("/p/gone/x.md"));
    assert!(messages(&workspaces, "/p/b.md", Tier::Saved)[0].starts_with("bare path"));
    workspaces.commit_save_from_disk("/p/gone/x.md", None, &no_external());
    assert!(messages(&workspaces, "/p/b.md", Tier::Saved)[0].starts_with("stale reference:"));
}

#[test]
fn watched_files_spare_open_texts() {
    let mut workspaces = opened();
    workspaces.open_documents.insert("/p/a.md".to_string(), ());
    workspaces.update_from_disk("/p/a.md", Some(data("disk")), &no_external());
    assert_eq!(workspaces.store.source("/p/a.md", Tier::Saved), Some("disk"));
    assert_eq!(workspaces.store.source("/p/a.md", Tier::Overlay), Some("a"));
    assert_eq!(workspaces.apply_from_disk("/p/a.md", Some(data("disk"))), DiskUpdate::Untouched);
}

#[test]
fn a_document_outside_every_scope_is_read_alone() {
    let mut workspaces = opened();
    workspaces.open_buffer("file:///q/z.md", mentioning("gone/x.md"), &no_external());
    assert_eq!(root_of(&workspaces, "/q/z.md"), None);
    assert!(messages(&workspaces, "/q/z.md", Tier::Overlay).is_empty());
    assert!(workspaces.resolve("file:///q/z.md").is_none());
    let (view, rel) = workspaces.resolve_document("file:///q/z.md").unwrap();
    assert_eq!((view.root.as_str(), rel.as_str(), view.files.len()), ("/q", "z.md", 1));
    workspaces.remove_single_file("file:///p/a.md");
    assert!(workspaces.store.current("/p/a.md").is_some());
    workspaces.remove_single_file("file:///q/z.md");
    assert!(workspaces.store.current("/q/z.md").is_none());
    assert_eq!(document_rel("/q/z.md", &None), "z.md");
    assert_eq!(document_rel("/q/z.md", &Some("/q".to_string())), "z.md");
}

#[test]
fn views_show_one_buffer_or_all() {
    let mut workspaces = opened();
    workspaces.change_buffer("file:///p/a.md", data("draft a"), &no_external());
    workspaces.change_buffer("file:///p/b.md", data("draft b"), &no_external());
    let (view, rel) = workspaces.resolve("file:///p/a.md").unwrap();
    assert_eq!(rel, "a.md");
    assert_eq!(view.file("a.md").unwrap().tree.source, "draft a");
    assert_eq!(view.file("b.md").unwrap().tree.source, "gone/x.md");
    let view = workspaces.current_view("/p");
    assert_eq!(view.file("b.md").unwrap().tree.source, "draft b");
    let view = workspaces.saved_view("/p");
    assert_eq!(view.file("a.md").unwrap().tree.source, "a");
    assert!(view.file("in/c.md").is_none());
}

#[test]
fn external_paths_count_in_a_sweep() {
    let mut workspaces = opened();
    let mut config = Config::default();
    config.external.insert("Ext".to_string(), "/ext".to_string());
    let reload = Reload { has_config: true, loaded: Ok(config) };
    workspaces.reload_root_config("/p", reload, &no_external());
    let mut external = no_external();
    external.insert("/ext".to_string(), ExternalExistence::Present);
    workspaces.change_buffer("file:///p/a.md", mentioning("{Ext}/x.md"), &external);
    assert_eq!(messages(&workspaces, "/p/a.md", Tier::Overlay).len(), 1);
    external.insert("/ext/x.md".to_string(), ExternalExistence::Present);
    workspaces.recompute_all_structural(&external);
    assert!(messages(&workspaces, "/p/a.md", Tier::Overlay).is_empty());
}

// Renames.

#[test]
fn a_renamed_document_stays_open_under_its_new_name() {
    let mut workspaces = opened();
    workspaces.open_documents.insert("/p/a.md".to_string(), ());
    let mut fresh = Reread {
        saved: PathMap::new(),
        overlay: PathMap::new(),
    };
    fresh.saved.insert("/p/in/a.md".to_string(), data("a"));
    let cleared = workspaces.rekey_rename("/p/a.md", "/p/in/a.md", &mut fresh);
    assert!(cleared.is_empty());
    assert!(workspaces.open_documents.contains_key("/p/in/a.md"));
    assert!(!workspaces.open_documents.contains_key("/p/a.md"));
    assert_eq!(root_of(&workspaces, "/p/in/a.md"), Some("/p/in".to_string()));
}

fn at(line: usize, character: usize) -> Position {
    Position { line, character }
}

fn edits(file: &str, list: Vec<(usize, usize, &str)>) -> PathMap<Vec<MoveTextEdit>> {
    let mut map = PathMap::new();
    let list = list
        .into_iter()
        .map(|(start, end, text)| MoveTextEdit {
            span: Span { start, end },
            new_text: text.to_string(),
        })
        .collect();
    map.insert(file.to_string(), list);
    map
}

fn with_heading() -> Workspaces {
    let mut workspaces = opened();
    let mut doc = data("# Title\n\n[x](b.md)\n");
    doc.headings.push(Heading {
        id: HeadingId::Explicit("title".to_string()),
        line: 1,
        text_span: Span { start: 2, end: 7 },
    });
    doc.links.push(Link {
        kind: LinkKind::IntraProject {
            target: "b.md".to_string(),
            fragment: None,
            predicate: "references".to_string(),
            explicit_predicate: false,
        },
        line: 3,
        span: Span { start: 9, end: 18 },
    });
    workspaces.commit_save("file:///p/a.md", doc, &no_external());
    workspaces
}

#[test]
fn headings_can_be_renamed() {
    let workspaces = with_heading();
    assert_eq!(
        prepare_rename(&workspaces, "file:///p/a.md", at(0, 3)),
        Some(Range { start: at(0, 2), end: at(0, 7) })
    );
    assert_eq!(prepare_rename(&workspaces, "file:///p/a.md", at(1, 0)), None);
    assert_eq!(prepare_rename(&workspaces, "file:///q.md", at(0, 3)), None);
}

#[test]
fn edits_come_out_in_order() {
    let workspaces = with_heading();
    let found = Some(edits("/p/a.md", vec![(13, 17, "c.md"), (2, 7, "Name")]));
    let changes = do_rename(&workspaces, "file:///p/a.md", at(0, 3), &found).unwrap();
    let list = changes.get("file:///p/a.md").unwrap();
    assert_eq!(list.len(), 2);
    assert_eq!((list[0].range.start, list[0].new_text.as_str()), (at(0, 2), "Name"));
    assert_eq!((list[1].range.start, list[1].new_text.as_str()), (at(2, 4), "c.md"));
    assert!(do_rename(&workspaces, "file:///p/a.md", at(0, 3), &None).is_none());
}

#[test]
fn the_first_refusal_decides() {
    let workspaces = with_heading();
    let fine = FileRename {
        old_uri: "file:///p/b.md".to_string(),
        new_uri: "file:///p/n.md".to_string(),
        verdict: Ok(edits("/p/a.md", vec![(13, 17, "n.md")])),
    };
    let refused = |why: &str| FileRename {
        old_uri: "file:///p/a.md".to_string(),
        new_uri: "file:///p/b.md".to_string(),
        verdict: Err(why.to_string()),
    };
    let outside = FileRename {
        old_uri: "file:///q/a.md".to_string(),
        new_uri: "file:///q/b.md".to_string(),
        verdict: Err("outside".to_string()),
    };
    let found = will_rename_files(&workspaces, &vec![outside, fine]);
    assert_eq!(found.unwrap().get("file:///p/a.md").unwrap()[0].new_text, "n.md");
    let found = will_rename_files(&workspaces, &vec![refused("one"), refused("two")]);
    assert_eq!(found.unwrap_err(), "one");
}

// Semantic tokens.

/// `**b** *i*` over two lines, with both runs.
fn with_emphasis() -> Workspaces {
    let mut document = data("**b**\n*i*");
    for (kind, start, end) in [(ElementKind::Strong, 0, 5), (ElementKind::Emphasis, 6, 9)] {
        document.tree.nodes.push(Node {
            kind,
            span: Span { start, end },
            syntax: Syntax::Markdown,
            parent: None,
            children: Vec::new(),
            tag: None,
            line_tag: None,
        });
    }
    let mut disk = empty_disk();
    disk.scans.insert("/p".to_string(), scan("/p", vec![("a.md", document)]));
    let mut workspaces = Workspaces::new();
    workspaces.add_folder("file:///p", &mut disk);
    workspaces
}

#[test]
fn tokens_of_a_document_and_of_a_range() {
    let workspaces = with_emphasis();
    let full = semantic_tokens_full(&workspaces, "file:///p/a.md");
    assert_eq!(full.data, vec![0, 0, 5, 0, 1, 1, 0, 3, 0, 2]);

    let range = Range { start: at(0, 2), end: at(1, 1) };
    let part = semantic_tokens_range(&workspaces, "file:///p/a.md", range);
    assert_eq!(part.data, vec![0, 2, 3, 0, 1, 1, 0, 1, 0, 2]);
}

#[test]
fn unknown_documents_have_no_tokens() {
    let workspaces = with_emphasis();
    assert!(semantic_tokens_full(&workspaces, "file:///p/none.md").data.is_empty());
    let range = Range { start: at(0, 0), end: at(1, 0) };
    assert!(semantic_tokens_range(&workspaces, "file:///q/a.md", range).data.is_empty());
}

#[test]
fn a_rename_keeps_what_is_written() {
    let mut workspaces = opened();
    workspaces.open_buffer("file:///p/a.md", data("draft"), &no_external());
    workspaces.change_buffer("file:///p/a.md", data("draft"), &no_external());
    let mut fresh = Reread { saved: PathMap::new(), overlay: PathMap::new() };
    fresh.saved.insert("/p/in/n.md".to_string(), data("other"));
    fresh.overlay.insert("/p/in/n.md".to_string(), data("other"));
    workspaces.rekey_rename("/p/a.md", "/p/in/n.md", &mut fresh);
    assert_eq!(workspaces.store.source("/p/in/n.md", Tier::Saved), Some("a"));
    assert_eq!(workspaces.store.source("/p/in/n.md", Tier::Overlay), Some("draft"));
    assert_eq!(workspaces.store.source("/p/a.md", Tier::Saved), None);
    assert_eq!(workspaces.store.source("/p/a.md", Tier::Overlay), None);
    assert_eq!(workspaces.store.source("/p/b.md", Tier::Saved), Some("gone/x.md"));
}

#[test]
fn a_renamed_directory_takes_its_documents_along() {
    let mut workspaces = opened();
    workspaces.open_documents.insert("/p/in/c.md".to_string(), ());
    let mut fresh = Reread { saved: PathMap::new(), overlay: PathMap::new() };
    workspaces.rekey_rename("/p/in/", "/p//out", &mut fresh);
    assert_eq!(workspaces.store.source("/p/out/c.md", Tier::Saved), Some("c"));
    assert_eq!(root_of(&workspaces, "/p/out/c.md"), Some("/p".to_string()));
    assert!(workspaces.open_documents.contains_key("/p/out/c.md"));
    assert_eq!(workspaces.open_documents.len(), 1);
    assert_eq!(workspaces.document_keys_under("/p"), vec!["/p/a.md", "/p/b.md", "/p/out/c.md"]);
}

// Spellings of paths.

#[test]
fn a_folder_is_closed_under_any_spelling() {
    let mut workspaces = Workspaces::new();
    workspaces.add_folder("file:///p/", &mut disk());
    assert_eq!(roots(&workspaces), vec!["/p", "/p/in"]);
    assert_eq!(workspaces.deepest_root_for("/p//a.md"), Some("/p".to_string()));
    assert_eq!(workspaces.document_keys_under("/p/in/"), vec!["/p/in/c.md"]);
    workspaces.remove_folder("file:///p", &disk());
    assert!(roots(&workspaces).is_empty());
}

#[test]
fn a_document_is_one_under_any_spelling() {
    let mut workspaces = opened();
    workspaces.open_buffer("file:///p//a.md", data("a"), &no_external());
    workspaces.change_buffer("file:///p/./a.md", data("draft"), &no_external());
    assert_eq!(workspaces.store.source("/p/a.md", Tier::Overlay), Some("draft"));
    workspaces.open_documents.insert("/p//a.md".to_string(), ());
    assert!(workspaces.open_documents.contains_key("/p/a.md"));
    let (view, rel) = workspaces.resolve("file:///p//a.md").unwrap();
    assert_eq!((view.root.as_str(), rel.as_str()), ("/p", "a.md"));
}

#[test]
fn a_view_knows_the_boundaries_of_its_root() {
    let mut workspaces = opened();
    let expected =
        vec![boundary("/p/in", BoundaryKind::Scope), boundary("/p/git", BoundaryKind::Git)];
    assert_eq!(workspaces.resolve("file:///p/a.md").unwrap().0.boundaries, expected);
    assert_eq!(workspaces.resolve_document("file:///p/a.md").unwrap().0.boundaries, expected);
    assert!(workspaces.resolve("file:///p/in/c.md").unwrap().0.boundaries.is_empty());
    workspaces.open_buffer("file:///q/x.md", data("x"), &no_external());
    assert!(workspaces.resolve_document("file:///q/x.md").unwrap().0.boundaries.is_empty());
}

//! The two tiers of the document store.
use lattice::block::Tree;
use lattice::fm::Exceptions;
use lattice::pathmap::PathMap;
use lattice::sorted::{KeyOrder, SortedMap};
use lattice::store::{DiskUpdate, Document, DocumentStore, Tier};
use lattice::structural::ledger::FileSuppressions;
use lattice::workspace::FileData;

fn data(text: &str) -> FileData {
    FileData {
        tree: Tree {
            source: text.to_string(),
            nodes: Vec::new(),
            diagnostics: Vec::new(),
            bare_paths: Vec::new(),
        },
        links: Vec::new(),
        headings: Vec::new(),
        anchors: Vec::new(),
        frontmatter: None,
        exceptions: Exceptions::default(),
        metadata: Vec::new(),
        backlink_diagnostics: Vec::new(),
        structural: Vec::new(),
        suppressions: FileSuppressions {
            file: String::new(),
            exceptions: None,
            count_keys: Vec::new(),
            artifacts: SortedMap::new(KeyOrder::Bytes),
        },
    }
}

fn document(text: &str, root: Option<&str>) -> Document {
    Document { data: data(text), primary_root: root.map(str::to_string) }
}

fn names(files: &PathMap<&FileData>) -> Vec<(String, String)> {
    (0..files.len())
        .map(|i| (files.key_at(i).to_string(), files.value_at(i).tree.source.clone()))
        .collect()
}

fn pair(a: &str, b: &str) -> (String, String) {
    (a.to_string(), b.to_string())
}

/// Three documents in two roots, one of the roots inside the other.
fn filled() -> DocumentStore {
    let mut store = DocumentStore::new();
    store.seed_scan("/r/a.md", document("a", Some("/r")));
    store.seed_scan("/r/in/b.md", document("b", Some("/r/in")));
    store.seed_scan("/rest/c.md", document("c", Some("/rest")));
    store
}

#[test]
fn a_scan_seeds_what_is_not_there() {
    let mut store = filled();
    store.seed_scan("/r/a.md", document("other", Some("/rest")));
    assert_eq!(store.source("/r/a.md", Tier::Saved), Some("a"));
    assert_eq!(store.primary_root("/r/a.md"), Some("/r".to_string()));
    assert_eq!(store.len(), 3);
}

#[test]
fn a_buffer_is_private_to_its_document() {
    let mut store = filled();
    store.change_buffer("/r/a.md", document("draft", Some("/r")));
    store.change_buffer("/r/new.md", document("new", Some("/r")));
    assert_eq!(names(&store.saved_files("/r")), vec![pair("a.md", "a")]);
    assert_eq!(names(&store.perspective_files("/r", "/r/a.md")), vec![pair("a.md", "draft")]);
    assert_eq!(
        names(&store.perspective_files("/r", "/r/new.md")),
        vec![pair("a.md", "a"), pair("new.md", "new")]
    );
    assert_eq!(
        names(&store.current_files("/r")),
        vec![pair("a.md", "draft"), pair("new.md", "new")]
    );
    assert_eq!(store.overlay_keys_of_root("/r"), vec!["/r/a.md", "/r/new.md"]);
    assert!(store.has_overlay("/r/a.md"));
    assert!(store.is_saved_member("/r/a.md", "/r"));
    assert!(!store.is_saved_member("/r/new.md", "/r"));
    assert_eq!(store.len(), 4);
}

#[test]
fn keys_under_a_directory_leave_longer_names_out() {
    let store = filled();
    assert_eq!(store.keys_under("/r"), vec!["/r/a.md", "/r/in/b.md"]);
    assert_eq!(store.all_keys(), vec!["/r/a.md", "/r/in/b.md", "/rest/c.md"]);
    let found = store.current_documents();
    assert_eq!(found.len(), 3);
    assert_eq!(found[2].0, "/rest/c.md");
    assert_eq!(found[2].1.data.tree.source, "c");
}

#[test]
fn an_echo_of_the_disk_changes_nothing() {
    let mut store = filled();
    let root = Some("/r".to_string());
    let update = store.apply_from_disk("/r/a.md", true, root, Some(data("a")));
    assert_eq!(update, DiskUpdate::Untouched);
    assert!(!store.has_overlay("/r/a.md"));
}

#[test]
fn the_disk_moves_the_saved_copy_and_the_client_keeps_its_text() {
    let mut store = filled();
    let root = Some("/r".to_string());
    let update = store.apply_from_disk("/r/a.md", true, root.clone(), Some(data("disk")));
    assert_eq!(update, DiskUpdate::Content);
    assert_eq!(store.source("/r/a.md", Tier::Saved), Some("disk"));
    assert_eq!(store.source("/r/a.md", Tier::Overlay), Some("a"));

    let update = store.apply_from_disk("/r/in/b.md", false, root.clone(), Some(data("disk")));
    assert_eq!(update, DiskUpdate::Content);
    assert!(!store.has_overlay("/r/in/b.md"));

    let update = store.apply_from_disk("/r/x.md", false, root, Some(data("x")));
    assert_eq!(update, DiskUpdate::Membership);
}

#[test]
fn a_file_that_went_leaves_its_open_text() {
    let mut store = filled();
    assert_eq!(store.apply_from_disk("/r/a.md", true, None, None), DiskUpdate::Membership);
    assert_eq!(store.source("/r/a.md", Tier::Saved), None);
    assert_eq!(store.source("/r/a.md", Tier::Overlay), Some("a"));
    assert_eq!(store.apply_from_disk("/r/in/b.md", false, None, None), DiskUpdate::Membership);
    assert!(store.current("/r/in/b.md").is_none());
    assert_eq!(store.apply_from_disk("/gone.md", false, None, None), DiskUpdate::Untouched);
}

#[test]
fn a_save_ends_the_buffer() {
    let mut store = filled();
    let root = Some("/r".to_string());
    store.change_buffer("/r/a.md", document("draft", Some("/r")));
    assert_eq!(store.commit_save("/r/a.md", root.clone(), data("draft")), DiskUpdate::Content);
    assert!(!store.has_overlay("/r/a.md"));
    assert_eq!(store.source("/r/a.md", Tier::Saved), Some("draft"));
    assert_eq!(store.commit_save("/r/n.md", root.clone(), data("n")), DiskUpdate::Membership);

    store.change_buffer("/r/a.md", document("again", Some("/r")));
    let update = store.commit_save_from_disk("/r/a.md", root, Some(data("draft")));
    assert_eq!(update, DiskUpdate::Untouched);
    assert!(!store.has_overlay("/r/a.md"));
}

#[test]
fn buffers_come_and_go() {
    let mut store = filled();
    store.open_buffer("/r/a.md", Some(document("open", None)));
    assert_eq!(store.current("/r/a.md").unwrap().data.tree.source, "open");
    store.open_buffer("/r/a.md", None);
    assert_eq!(store.current("/r/a.md").unwrap().data.tree.source, "a");
    assert!(!store.close_buffer("/r/a.md"));
    store.change_buffer("/r/a.md", document("draft", None));
    assert!(store.close_buffer("/r/a.md"));
    assert!(store.evict_saved("/r/a.md"));
    assert!(!store.evict_saved("/r/a.md"));
}

#[test]
fn placement_and_reading_touch_one_document() {
    let mut store = filled();
    store.change_buffer("/r/a.md", document("draft", Some("/r")));
    store.set_primary_root("/r/a.md", &None);
    assert_eq!(store.tier("/r/a.md", Tier::Saved).unwrap().primary_root, None);
    assert_eq!(store.tier("/r/a.md", Tier::Overlay).unwrap().primary_root, None);
    store.reparse_in_place("/r/a.md", Tier::Overlay, data("read again"));
    assert_eq!(store.source("/r/a.md", Tier::Overlay), Some("read again"));
    assert_eq!(store.source("/r/a.md", Tier::Saved), Some("a"));
    store.reparse_in_place("/none.md", Tier::Saved, data("x"));
    assert!(store.current("/none.md").is_none());
    assert_eq!(store.primary_root("/r/in/b.md"), Some("/r/in".to_string()));
}

#[test]
fn a_rename_moves_a_directory_with_both_tiers() {
    let mut store = filled();
    store.change_buffer("/r/a.md", document("draft", Some("/r")));
    let moved = store.rekey("/r", "/s");
    assert_eq!(moved, vec![pair("/r/a.md", "/s/a.md"), pair("/r/in/b.md", "/s/in/b.md")]);
    assert_eq!(store.source("/s/a.md", Tier::Saved), Some("a"));
    assert_eq!(store.source("/s/a.md", Tier::Overlay), Some("draft"));
    assert!(store.current("/r/a.md").is_none());
    assert_eq!(store.source("/rest/c.md", Tier::Saved), Some("c"));
    assert_eq!(store.rekey("/rest/c.md", "/rest/d.md"), vec![pair("/rest/c.md", "/rest/d.md")]);
}

#[test]
fn keys_come_in_the_order_of_paths() {
    let mut store = DocumentStore::new();
    for key in ["/w/-b.md", "/w/../a.md", "/w/in/c.md", "/w/in-d.md"] {
        store.seed_scan(key, document("x", Some("/w")));
    }
    let expected = vec!["/w/../a.md", "/w/-b.md", "/w/in/c.md", "/w/in-d.md"];
    assert_eq!(store.all_keys(), expected);
    assert_eq!(store.keys_under("/w"), expected);
}

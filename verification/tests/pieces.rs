//! Paths, lines, positions, overrides and other small parts.
use lattice::block::{BarePath, ElementKind, Node, OpenTag, Syntax, Tree};
use lattice::config::{same_vocabulary, Config};
use lattice::diagnostic::{sort_diagnostics, Diagnostic, Severity};
use lattice::fm::ExceptionLint;
use lattice::lines::{byte_offset_to_line, trim};
use lattice::overrides::{suppress_matched, OverrideVerdicts, Verdict, VerdictKind};
use lattice::path::{
    is_markdown, is_under, join_paths, normal, normalize_path, parent_dir, same_path, strip_root,
};
use lattice::pathmap::PathMap;
use lattice::server::position::{offset_of, position_of, span_to_range, Position, Range};
use lattice::server::semantic_tokens::{
    collect_emphasis_regions, document_tokens, document_tokens_between, EmphasisRegion,
    SEMANTIC_MODIFIER_BOLD_BIT, SEMANTIC_MODIFIER_ITALIC_BIT, SEMANTIC_MODIFIER_STRIKETHROUGH_BIT,
};
use lattice::span::Span;
use lattice::structural::content::heading_display_text;
use lattice::structural::html::emit_html_diagnostics;
use lattice::structural::ledger::{FileSuppressions, SeverityCounts};
use lattice::structural::lookups::external_paths;
use lattice::structural::scanners::quote_delimits;
use lattice::structural::ExternalExistence;
use lattice::targets::link_targets;
use lattice::toml::parse_frontmatter_block;
use lattice::validation::resolve_backlink_path;
use lattice::workspace::{unknown_predicates, Backlinks, Frontmatter, Link, LinkKind};

fn finding(file: &str, line: usize, message: &str) -> Diagnostic {
    Diagnostic {
        file: file.to_string(),
        line,
        severity: Severity::Warning,
        message: message.to_string(),
        span: None,
    }
}

fn messages(rows: &[Diagnostic]) -> Vec<&str> {
    rows.iter().map(|d| d.message.as_str()).collect()
}

// Paths.

#[test]
fn a_longer_name_is_not_inside() {
    assert!(is_under("/a/b", "/a"));
    assert!(is_under("/a", "/a"));
    assert!(!is_under("/ab", "/a"));
    assert_eq!(strip_root("/a/b/c.md", "/a"), Some("b/c.md".to_string()));
    assert_eq!(strip_root("/ab/c.md", "/a"), None);
}

#[test]
fn paths_in_a_directory_stand_together() {
    let mut map = PathMap::new();
    for key in ["/a/b", "/a-b", "/a", "/a/b/c", "/a.md"] {
        map.insert(key.to_string(), ());
    }
    let keys: Vec<&str> = (0..map.len()).map(|i| map.key_at(i)).collect();
    assert_eq!(keys, vec!["/a", "/a/b", "/a/b/c", "/a-b", "/a.md"]);
}

#[test]
fn dots_are_collapsed() {
    assert_eq!(normalize_path("docs/./a/../b.md"), ("docs/b.md".to_string(), false));
    assert_eq!(join_paths("docs", "b.md"), "docs/b.md");
    assert_eq!(join_paths("docs", "/b.md"), "/b.md");
    assert_eq!(join_paths("", "b.md"), "b.md");
    assert_eq!(resolve_backlink_path("docs/a.md", "../b.md"), "b.md");
    assert!(is_markdown("a/b.md"));
    assert!(!is_markdown("a/md"));
    assert!(!is_markdown(".md"));
}

// Lines and positions.

#[test]
fn lines_count_from_one() {
    assert_eq!(byte_offset_to_line("a\nb\nc", 0), 1);
    assert_eq!(byte_offset_to_line("a\nb\nc", 2), 2);
    assert_eq!(byte_offset_to_line("a\nb\nc", 4), 3);
    assert_eq!(trim("\u{2003} a b\t"), "a b");
}

#[test]
fn columns_count_utf16_units() {
    let text = "aé🎉b\nç";
    let at = text.find('b').unwrap();
    assert_eq!(position_of(text, at), Position { line: 0, character: 4 });
    assert_eq!(position_of(text, text.len()), Position { line: 1, character: 1 });
    assert_eq!(
        span_to_range(text, Span { start: 1, end: at }),
        Range {
            start: Position { line: 0, character: 1 },
            end: Position { line: 0, character: 4 },
        }
    );
}

#[test]
fn offsets_and_positions_round_trip() {
    let text = "one\ntwé 🎉 x\n\nlast";
    for (at, _) in text.char_indices() {
        assert_eq!(offset_of(text, position_of(text, at)), at);
    }
}

// Semantic tokens.

fn run(kind: ElementKind, start: usize, end: usize) -> Node {
    Node {
        kind,
        span: Span { start, end },
        syntax: Syntax::Markdown,
        parent: None,
        children: Vec::new(),
        tag: None,
        line_tag: None,
    }
}

fn tree(source: &str, nodes: Vec<Node>) -> Tree {
    Tree { source: source.to_string(), nodes, diagnostics: Vec::new(), bare_paths: Vec::new() }
}

#[test]
fn nested_runs_share_a_region() {
    let text = "**a *b* c**";
    let found = collect_emphasis_regions(&tree(
        text,
        vec![run(ElementKind::Strong, 0, 11), run(ElementKind::Emphasis, 4, 7)],
    ));
    let bold = SEMANTIC_MODIFIER_BOLD_BIT;
    let both = SEMANTIC_MODIFIER_BOLD_BIT | SEMANTIC_MODIFIER_ITALIC_BIT;
    assert_eq!(
        found,
        vec![
            EmphasisRegion { start: 0, end: 4, modifiers: bold },
            EmphasisRegion { start: 4, end: 7, modifiers: both },
            EmphasisRegion { start: 7, end: 11, modifiers: bold },
        ]
    );
}

#[test]
fn tokens_are_relative_to_the_one_before() {
    let strike = SEMANTIC_MODIFIER_STRIKETHROUGH_BIT as usize;
    let italic = SEMANTIC_MODIFIER_ITALIC_BIT as usize;
    let text = "~~é🎉~~ *x*\n*y*";
    let end = text.find(' ').unwrap();
    let x = end + 1;
    let y = text.rfind("*y*").unwrap();
    let tokens = document_tokens(&tree(
        text,
        vec![
            run(ElementKind::Strikethrough, 0, end),
            run(ElementKind::Emphasis, x, x + 3),
            run(ElementKind::Emphasis, y, y + 3),
        ],
    ));
    assert_eq!(
        tokens.data,
        vec![0, 0, 7, 0, strike, 0, 8, 3, 0, italic, 1, 0, 3, 0, italic]
    );
}

#[test]
fn a_run_over_lines_is_cut_at_each() {
    let bold = SEMANTIC_MODIFIER_BOLD_BIT as usize;
    let text = "**a\nbc**";
    let tokens = document_tokens(&tree(text, vec![run(ElementKind::Strong, 0, 8)]));
    assert_eq!(tokens.data, vec![0, 0, 3, 0, bold, 1, 0, 4, 0, bold]);
    let second = document_tokens_between(
        &tree(text, vec![run(ElementKind::Strong, 0, 8)]),
        Position { line: 1, character: 0 },
        Position { line: 1, character: 4 },
    );
    assert_eq!(second.data, vec![1, 0, 4, 0, bold]);
}

// What is asked of the disk.

fn keys(map: PathMap<()>) -> Vec<String> {
    map.into_entries().into_iter().map(|(key, ())| key).collect()
}

#[test]
fn documents_ask_about_aliases_and_nothing_else() {
    let text = "See `{Ext}/a.md`, \"docs/b.md\" and `plain`.";
    let code = run(ElementKind::InlineCode, 4, 16);
    let plain = run(ElementKind::InlineCode, 34, 41);
    let mut paragraph = run(ElementKind::Paragraph, 0, text.len());
    paragraph.children = vec![1, 2];
    let mut tree = tree(text, vec![paragraph, code, plain]);
    tree.bare_paths.push(BarePath { path: "{Other}/c.md".to_string(), line: 1 });
    assert!(tree.is_well_formed());
    let mut config = Config::default();
    assert!(keys(external_paths(&tree, &config)).is_empty());
    config.external.insert("Ext".to_string(), "/ext".to_string());
    assert_eq!(
        keys(external_paths(&tree, &config)),
        vec!["/ext", "/ext/a.md", "/ext/docs/b.md"]
    );
}

#[test]
fn links_ask_about_files_that_are_no_documents() {
    let link = |kind: LinkKind| Link { kind, line: 1, span: Span { start: 0, end: 0 } };
    let links = vec![
        link(LinkKind::External),
        link(LinkKind::NonMarkdown { target: "img/a.png".to_string() }),
        link(LinkKind::IntraProject {
            target: "b.md".to_string(),
            fragment: None,
            predicate: "references".to_string(),
            explicit_predicate: false,
        }),
    ];
    let mut found = PathMap::new();
    link_targets("/p", &links, &mut found);
    assert_eq!(keys(found), vec!["/p/img/a.png"]);
}

#[test]
fn malformed_trees_are_told_apart() {
    let mut broken = run(ElementKind::Paragraph, 0, 9);
    assert!(!tree("short", vec![broken.clone()]).is_well_formed());
    broken.span.end = 5;
    assert!(tree("short", vec![broken.clone()]).is_well_formed());
    assert!(!tree("shoré", vec![broken.clone()]).is_well_formed());
    broken.children = vec![1];
    assert!(!tree("short", vec![broken.clone()]).is_well_formed());
    broken.children = vec![];
    broken.parent = Some(0);
    assert!(!tree("short", vec![broken]).is_well_formed());
}

#[test]
fn a_look_up_has_three_outcomes() {
    assert_eq!(ExternalExistence::stat(Some(true)), ExternalExistence::Present);
    assert_eq!(ExternalExistence::stat(Some(false)), ExternalExistence::Absent);
    assert_eq!(ExternalExistence::stat(None), ExternalExistence::Unknown);
}

// Overrides.

#[test]
fn matched_overrides_hold_their_lint_back() {
    let verdicts = OverrideVerdicts {
        entries: vec![
            Verdict {
                lint: ExceptionLint::StaleReferences,
                members: vec!["a.md".to_string()],
                kind: VerdictKind::Matched,
            },
            Verdict {
                lint: ExceptionLint::BarePaths,
                members: vec!["a.md".to_string()],
                kind: VerdictKind::Drifted { message: "drifted".to_string() },
            },
        ],
        unused: Vec::new(),
    };
    let rows = vec![
        finding("a.md", 1, "stale reference: `x.md`"),
        finding("b.md", 1, "stale reference: `y.md`"),
        finding("a.md", 2, "bare path `z.md`"),
        finding("a.md", 3, "empty heading"),
    ];
    assert_eq!(
        messages(&suppress_matched(&verdicts, &rows)),
        vec!["stale reference: `y.md`", "bare path `z.md`", "empty heading"]
    );
    let none = OverrideVerdicts { entries: Vec::new(), unused: Vec::new() };
    assert_eq!(suppress_matched(&none, &rows), rows);
}

// Configuration and vocabulary.

#[test]
fn predicates_work_in_both_directions() {
    let config = Config::default();
    assert_eq!(config.opposite_of("references"), Some("referenced_by"));
    assert_eq!(config.opposite_of("referenced_by"), Some("references"));
    assert_eq!(config.opposite_of("invented"), None);
    assert!(config.is_known_predicate("superseded_by"));
    assert!(!config.is_known_predicate("invented"));
}

#[test]
fn one_vocabulary_gives_one_verdict() {
    let mut other = Config::default();
    other.policy.backlinks = false;
    assert!(same_vocabulary(&Config::default(), &other));
    let frontmatter = Some(Frontmatter {
        start_line: 1,
        backlinks: vec![Backlinks {
            predicate: "amended_by".to_string(),
            line: 3,
            sources: vec!["a.md".to_string()],
        }],
    });
    let found = unknown_predicates(&frontmatter, &Config::default());
    assert_eq!(found.len(), 1);
    assert_eq!((found[0].line, found[0].predicate.as_str()), (3, "amended_by"));
    assert_eq!(unknown_predicates(&frontmatter, &other).len(), 1);
    other.predicates.insert("amends".to_string(), "amended_by".to_string());
    assert!(!same_vocabulary(&Config::default(), &other));
    assert!(unknown_predicates(&frontmatter, &other).is_empty());
    assert!(unknown_predicates(&None, &other).is_empty());
}

// Reports.

#[test]
fn sorting_keeps_the_order_of_one_line() {
    let sorted = sort_diagnostics(vec![
        finding("b.md", 1, "first"),
        finding("a.md", 9, "second"),
        finding("a.md", 2, "third"),
        finding("a.md", 9, "fourth"),
    ]);
    assert_eq!(messages(&sorted), vec!["third", "second", "fourth", "first"]);
}

#[test]
fn tallies_add_up() {
    let mut counts = SeverityCounts::default();
    assert!(counts.is_empty());
    counts.record(Severity::Error);
    counts.record(Severity::Hint);
    let mut more = SeverityCounts::default();
    more.record(Severity::Hint);
    more.record(Severity::Info);
    more.record(Severity::Warning);
    counts.add(more);
    assert_eq!(counts, SeverityCounts { errors: 1, warnings: 1, info: 1, hints: 2 });
    assert!(!counts.is_empty());
}

#[test]
fn headings_lose_their_marks() {
    assert_eq!(heading_display_text("## Title ##", Syntax::Markdown, ""), "Title");
    assert_eq!(heading_display_text("Title\n=====", Syntax::Markdown, ""), "Title");
    assert_eq!(heading_display_text("<h1>T</h1>", Syntax::Html, "T"), "T");
}

// Frontmatter.

#[test]
fn spans_point_at_what_was_read() {
    let source = "+++\ntitle = \"é\"\nlist = [ 1, 'two' ]\n+++\n";
    let block = parse_frontmatter_block(source).unwrap();
    assert_eq!(&source[block.content_span.start..block.content_span.end], "title = \"é\"\nlist = [ 1, 'two' ]\n");
    for (node, key) in block.entries.iter().zip(["title", "list"]) {
        if let lattice::fm::FmNode::Mapping { key: found, .. } = node {
            assert_eq!(&source[found.span.start..found.span.end], key);
        } else {
            panic!("an entry is a mapping");
        }
    }
}

#[test]
fn escapes_that_name_no_character_are_reported() {
    let source = "+++\na = \"\\uD800\"\nb = \"\\q\"\n+++\n";
    let block = parse_frontmatter_block(source).unwrap();
    let found: Vec<&str> = block.diagnostics.iter().map(|d| d.message.as_str()).collect();
    assert_eq!(found, vec!["invalid \\uXXXX escape", "unknown escape sequence"]);
}

// HTML blocks.

#[test]
fn of_an_html_block_only_the_first_line_is_judged() {
    let source = "<marquee\n  id=\"x\">\ntext\n</marquee>";
    let tag = OpenTag {
        name: "marquee".to_string(),
        attrs: Vec::new(),
        self_closing: false,
        is_void: false,
        is_known: false,
        is_block: true,
    };
    let mut block = run(ElementKind::HtmlBlock, 0, source.len());
    block.syntax = Syntax::Html;
    block.tag = Some(tag.clone());
    let mut out = Vec::new();
    emit_html_diagnostics(&tree(source, vec![block.clone()]), "a.md", &mut out);
    assert!(out.is_empty());

    block.line_tag = Some(tag.clone());
    emit_html_diagnostics(&tree(source, vec![block.clone()]), "a.md", &mut out);
    assert_eq!(out.len(), 1);
    assert_eq!(out[0].message, "unknown HTML element `<marquee>`");

    block.kind = ElementKind::Other;
    block.line_tag = None;
    out.clear();
    emit_html_diagnostics(&tree(source, vec![block]), "a.md", &mut out);
    assert_eq!(out.len(), 1);
}

// Quotes.

#[test]
fn single_quotes_delimit_at_word_boundaries() {
    let line = "it's ('a.md')";
    assert!(!quote_delimits(line, 2, b'\'', true, true));
    assert!(!quote_delimits(line, 2, b'\'', false, true));
    assert!(quote_delimits(line, 6, b'\'', true, true));
    assert!(quote_delimits(line, 11, b'\'', false, false));
    assert!(quote_delimits("a\"b", 1, b'"', true, true));
    assert!(quote_delimits("a\"b", 1, b'"', false, true));
}

// Paths are told apart by their components.

#[test]
fn spellings_of_a_path_are_one_path() {
    for spelling in ["/w", "/w/", "//w", "/w//", "/./w/."] {
        assert_eq!(normal(spelling), "/w");
        assert!(same_path(spelling, "/w"));
        assert!(is_under("/w/a.md", spelling));
        assert_eq!(strip_root("/w//a.md", spelling), Some("a.md".to_string()));
    }
    assert_eq!(normal("a//b/./c/"), "a/b/c");
    assert_eq!(normal("./a"), "./a");
    assert_eq!(normal("a/../b"), "a/../b");
    assert_eq!(normal(""), "");
    assert_eq!(normal("//"), "/");
    assert!(!same_path("/w", "w"));
    assert!(!same_path("./a", "a"));
    assert!(!is_under("/wx", "/w/"));
    assert_eq!(strip_root("/w/", "/w"), Some(String::new()));
}

#[test]
fn maps_of_paths_find_every_spelling() {
    let mut map = PathMap::new();
    map.insert("/w/b.md".to_string(), 1);
    map.insert("/w//a.md".to_string(), 2);
    map.insert("/w/./b.md".to_string(), 3);
    assert_eq!(map.len(), 2);
    assert_eq!((map.key_at(0), map.key_at(1)), ("/w/a.md", "/w/b.md"));
    assert_eq!(map.get("/w/b.md/"), Some(&3));
    assert_eq!(map.remove("//w/a.md"), Some(2));
    assert!(!map.contains_key("/w/a.md"));
}

#[test]
fn directories_are_what_stands_before_the_last_component() {
    assert_eq!(parent_dir("a/b.md"), "a");
    assert_eq!(parent_dir("a//b.md"), "a");
    assert_eq!(parent_dir("a/b/"), "a");
    assert_eq!(parent_dir("b.md"), "");
    assert_eq!(parent_dir("/b.md"), "/");
    assert_eq!(parent_dir("/"), "");
    assert_eq!(resolve_backlink_path("a//b.md", "c.md"), "a/c.md");
    assert_eq!(resolve_backlink_path("/b.md", "c.md"), "/c.md");
    assert_eq!(resolve_backlink_path("a/b/", "c.md"), "a/c.md");
}

#[test]
fn a_file_suppresses_nothing_by_default() {
    let mut ledger = FileSuppressions::default();
    assert!(ledger.is_empty());
    let before = ledger.clone();
    assert_eq!(ledger, before);
    let counts = SeverityCounts { warnings: 1, ..SeverityCounts::default() };
    ledger.artifacts.insert("name".to_string(), counts);
    assert!(!ledger.is_empty());
    assert_ne!(ledger, before);
    assert_eq!(ledger.clone().artifacts.get("name"), Some(&counts));
}

#[test]
fn paths_are_ordered_as_std_orders_them() {
    let spellings = [
        "", "/", ".", "..", "a", "-", "!", "a/b", "a-b", "a.md", "a/-b", "a/b/c", "./a", "./-",
        "../a", "../..", "a/../b", "a/-/b", "a/.x", "a/..x", "/a", "/-", "/..", "/../a", "/../-",
        "/a/../b", "/a/-b", "/a/b", "/a-b", "/a.md", "/w/-b.md", "/w/../a.md", "/w/.-", "/w/..-",
        "é", "é/a", "/é",
    ];
    let mut map = PathMap::new();
    for spelling in spellings {
        map.insert(spelling.to_string(), ());
    }
    let mut expected = spellings.to_vec();
    expected.sort_by(|a, b| std::path::Path::new(a).cmp(std::path::Path::new(b)));
    let keys: Vec<&str> = (0..map.len()).map(|i| map.key_at(i)).collect();
    assert_eq!(keys, expected);
}

#[test]
fn dot_components_come_before_names() {
    let mut map = PathMap::new();
    for key in ["/w/-b.md", "/w/../a.md", "/w/a.md"] {
        map.insert(key.to_string(), ());
    }
    let keys: Vec<&str> = (0..map.len()).map(|i| map.key_at(i)).collect();
    assert_eq!(keys, vec!["/w/../a.md", "/w/-b.md", "/w/a.md"]);
    let row = |file: &str| Diagnostic {
        file: file.to_string(),
        line: 1,
        severity: Severity::Info,
        message: String::new(),
        span: None,
    };
    let rows = sort_diagnostics(vec![row("-b.md"), row("../a.md"), row("./c.md")]);
    let files: Vec<&str> = rows.iter().map(|d| d.file.as_str()).collect();
    assert_eq!(files, vec!["./c.md", "../a.md", "-b.md"]);
}

//! Structural checks on whole documents.
use lattice::block::{
    external_namespace, Attribute, BarePath, DiagnosticLevel, ElementKind, HeadingText, Node,
    OpenTag, ParserDiagnostic, Syntax, Tree,
};
use lattice::config::{BarePathPolicy, CodeBlockLanguagePolicy, Config, StaleReferencePolicy};
use lattice::diagnostic::{Diagnostic, Severity};
use lattice::fm::{CountKey, ExceptionEntry, ExceptionLint, Exceptions};
use lattice::pathmap::PathMap;
use lattice::span::Span;
use lattice::structural::ledger::{classify_028_lint, FileSuppressions};
use lattice::structural::{collect, collect_with_suppressions, ExternalExistence};

// A small parser for the documents below: the blocks, inline elements and
// frontmatter that they use, and nothing else.

struct Reader<'a> {
    source: &'a str,
    tree: Tree,
    definitions: Vec<(String, Span)>,
    used: Vec<String>,
}

fn parse(source: &str) -> Tree {
    let mut reader = Reader {
        source,
        tree: Tree {
            source: source.to_string(),
            nodes: Vec::new(),
            diagnostics: Vec::new(),
            bare_paths: Vec::new(),
        },
        definitions: Vec::new(),
        used: Vec::new(),
    };
    reader.read();
    reader.tree
}

fn body_start(source: &str) -> usize {
    if !source.starts_with("---\n") {
        return 0;
    }
    source.find("\n---\n").map_or(0, |i| i + 5)
}

fn slug(text: &str) -> String {
    let mut out = String::new();
    for c in text.to_lowercase().chars() {
        if c.is_alphanumeric() || c == '-' || c == '_' {
            out.push(c);
        } else if c == ' ' {
            out.push('-');
        }
    }
    out
}

fn is_path_word(word: &str) -> bool {
    if word.contains('…') || word.ends_with("...") {
        return false;
    }
    if external_namespace(word).is_some() {
        return true;
    }
    word.contains('/')
        && word.ends_with(".md")
        && !word.starts_with('~')
        && !word.contains(['*', '<', '>', '"', '\'', '`'])
        && !word.contains("://")
}

impl<'a> Reader<'a> {
    fn push(&mut self, kind: ElementKind, span: Span, syntax: Syntax, parent: Option<usize>) -> usize {
        let at = self.tree.nodes.len();
        self.tree.nodes.push(Node { kind, span, syntax, parent, children: Vec::new(), tag: None, line_tag: None });
        if let Some(p) = parent {
            self.tree.nodes[p].children.push(at);
        }
        at
    }

    fn report(&mut self, level: DiagnosticLevel, span: Span, message: &str) {
        let message = message.to_string();
        self.tree.diagnostics.push(ParserDiagnostic { level, message, span });
    }

    fn line_number(&self, offset: usize) -> usize {
        self.source[..offset].matches('\n').count() + 1
    }

    /// The lines of the body: where each starts and ends, without its break.
    fn lines(&self) -> Vec<(usize, usize)> {
        let mut out = Vec::new();
        let mut start = body_start(self.source);
        while start < self.source.len() {
            let end = self.source[start..].find('\n').map_or(self.source.len(), |n| start + n);
            out.push((start, end));
            start = end + 1;
        }
        out
    }

    fn read(&mut self) {
        let lines = self.lines();
        let mut open: Vec<(String, Span)> = Vec::new();
        let mut k = 0;
        while k < lines.len() {
            let (mut start, end) = lines[k];
            if self.source[start..end].starts_with("> ") {
                start += 2;
            }
            let line = &self.source[start..end];
            if line.trim().is_empty() || line == ">" {
                k += 1;
            } else if line.starts_with("```") {
                k = self.fence(&lines, k);
            } else if line.starts_with('#') {
                self.heading(start, end);
                k += 1;
            } else if line.starts_with('|') {
                k = self.table(&lines, k);
            } else if line.starts_with("</") {
                let name = line[2..].trim_end_matches('>').to_string();
                if open.last().is_some_and(|(top, _)| *top == name) {
                    open.pop();
                } else {
                    self.report(
                        DiagnosticLevel::Error,
                        Span { start, end },
                        "unexpected closing tag",
                    );
                }
                k += 1;
            } else if line.starts_with('<') && !line.starts_with("<a ") {
                k = self.html(&lines, k, start, &mut open);
            } else if line.starts_with('[') && line.contains("]: ") {
                self.definition(start, end);
                k += 1;
            } else {
                let mut last = k;
                while last + 1 < lines.len() && lines[last + 1].0 < lines[last + 1].1 {
                    last += 1;
                }
                let span = Span { start, end: lines[last].1 };
                let node = self.push(ElementKind::Paragraph, span, Syntax::Markdown, None);
                self.inline(node, span);
                k = last + 1;
            }
        }
        for (_, span) in open {
            self.report(DiagnosticLevel::Error, span, "unclosed HTML tag");
        }
        for (label, span) in self.definitions.clone() {
            if !self.used.contains(&label) {
                self.report(DiagnosticLevel::Warning, span, "unused reference definition");
            }
        }
    }

    fn fence(&mut self, lines: &[(usize, usize)], k: usize) -> usize {
        let start = lines[k].0;
        for i in k + 1..lines.len() {
            if &self.source[lines[i].0..lines[i].1] == "```" {
                let span = Span { start, end: lines[i].1 };
                self.push(ElementKind::CodeBlock, span, Syntax::Markdown, None);
                return i + 1;
            }
        }
        let span = Span { start, end: self.source.len() };
        self.push(ElementKind::CodeBlock, span, Syntax::Markdown, None);
        self.report(DiagnosticLevel::Error, span, "unclosed fenced code block");
        lines.len()
    }

    fn heading(&mut self, start: usize, end: usize) {
        let line = &self.source[start..end];
        let level = line.bytes().take_while(|b| *b == b'#').count();
        let anchor = slug(line[level..].trim());
        let text = HeadingText {
            html: String::new(),
            github: anchor.clone(),
            gitlab: anchor.clone(),
            vscode: anchor,
        };
        let kind = ElementKind::Heading { level: level as u8, text };
        self.push(kind, Span { start, end }, Syntax::Markdown, None);
    }

    fn table(&mut self, lines: &[(usize, usize)], k: usize) -> usize {
        let mut last = k;
        while last + 1 < lines.len() && self.source[lines[last + 1].0..].starts_with('|') {
            last += 1;
        }
        let span = Span { start: lines[k].0, end: lines[last].1 };
        let table = self.push(ElementKind::Table, span, Syntax::Markdown, None);
        for row in k..=last {
            if row == k + 1 {
                continue;
            }
            let (start, end) = lines[row];
            let mut at = start + 1;
            while at < end {
                let stop = self.source[at..end].find('|').map_or(end, |n| at + n);
                let cell = &self.source[at..stop];
                let from = at + (cell.len() - cell.trim_start().len());
                let to = from + cell.trim().len();
                let span = Span { start: from, end: to };
                let node = self.push(ElementKind::TableCell, span, Syntax::Markdown, Some(table));
                self.inline(node, span);
                at = stop + 1;
            }
        }
        last + 1
    }

    fn tag_at(&self, at: usize) -> (OpenTag, usize) {
        let end = at + self.source[at..].find('>').unwrap() + 1;
        let mut inner = self.source[at + 1..end - 1].to_string();
        let self_closing = inner.ends_with('/');
        if self_closing {
            inner.pop();
        }
        let mut words = inner.split_whitespace();
        let name = words.next().unwrap().to_string();
        let mut attrs = Vec::new();
        for word in words {
            let (name, value) = word.split_once('=').unwrap();
            attrs.push(Attribute {
                name: name.to_string(),
                value: Some(value.trim_matches('"').to_string()),
            });
        }
        let is_void = ["br", "hr", "img", "input"].contains(&name.as_str());
        let is_known = is_void || ["a", "center", "div", "p", "span"].contains(&name.as_str());
        let is_block = ["center", "div", "p"].contains(&name.as_str());
        (OpenTag { name, attrs, self_closing, is_void, is_known, is_block }, end)
    }

    fn html(
        &mut self,
        lines: &[(usize, usize)],
        k: usize,
        start: usize,
        open: &mut Vec<(String, Span)>,
    ) -> usize {
        let (tag, end) = self.tag_at(start);
        let close = format!("</{}>", tag.name);
        let mut kind = ElementKind::Other;
        let mut span = Span { start, end };
        let mut next = k + 1;
        let on_its_line = self.source[end..lines[k].1].contains(&close);
        if tag.name == "center" {
            kind = ElementKind::HtmlBlock;
            while !self.source[lines[next - 1].0..lines[next - 1].1].contains(&close) {
                next += 1;
            }
            span.end = lines[next - 1].1;
        } else if !tag.self_closing && !tag.is_void && !on_its_line {
            open.push((tag.name.clone(), span));
        }
        let node = self.push(kind, span, Syntax::Html, None);
        self.tree.nodes[node].line_tag = Some(tag.clone());
        self.tree.nodes[node].tag = Some(tag);
        next
    }

    fn definition(&mut self, start: usize, end: usize) {
        let line = &self.source[start..end];
        let label = line[1..line.find("]: ").unwrap()].to_string();
        let span = Span { start, end };
        if self.definitions.iter().any(|(l, _)| *l == label) {
            self.report(DiagnosticLevel::Warning, span, "duplicate reference definition");
        } else {
            self.definitions.push((label, span));
        }
    }

    fn inline(&mut self, node: usize, span: Span) {
        let source = self.source;
        let mut at = span.start;
        let mut word = span.start;
        while at < span.end {
            let rest = &source[at..span.end];
            if let Some(inner) = rest.strip_prefix('`') {
                let end = at + 1 + inner.find('`').unwrap() + 1;
                let child = Span { start: at, end };
                self.push(ElementKind::InlineCode, child, Syntax::Markdown, Some(node));
                at = end;
                word = end;
            } else if rest.starts_with("![") {
                let end = at + rest.find(')').unwrap() + 1;
                let child = Span { start: at, end };
                self.push(ElementKind::Image, child, Syntax::Markdown, Some(node));
                at = end;
                word = end;
            } else if rest.starts_with('<') && rest.contains('>') {
                let end = at + rest.find('>').unwrap() + 1;
                if !rest.starts_with("</") {
                    let child = Span { start: at, end };
                    let (tag, _) = self.tag_at(at);
                    let at = self.push(ElementKind::Other, child, Syntax::Html, Some(node));
                    self.tree.nodes[at].tag = Some(tag);
                }
                at = end;
                word = end;
            } else if rest.starts_with('[') && rest.contains("](") && !rest.contains(')') {
                let child = Span { start: at, end: span.end };
                self.report(DiagnosticLevel::Error, child, "malformed link destination");
                at = span.end;
                word = at;
            } else if rest.starts_with('[') && rest.contains("][") {
                let open = at + rest.find("][").unwrap() + 2;
                let end = open + source[open..].find(']').unwrap();
                self.used.push(source[open..end].to_string());
                at = end + 1;
                word = at;
            } else {
                let c = rest.chars().next().unwrap();
                at += c.len_utf8();
                if c.is_whitespace() {
                    self.word(word, at - c.len_utf8());
                    word = at;
                }
            }
        }
        self.word(word, span.end);
    }

    fn word(&mut self, start: usize, end: usize) {
        if start < end {
            let word = self.source[start..end].trim_end_matches([',', ';', '!', '?', ')']);
            let word = word.strip_suffix(".md.").map_or(word.to_string(), |w| format!("{w}.md"));
            if is_path_word(&word) {
                let line = self.line_number(start);
                self.tree.bare_paths.push(BarePath { path: word, line });
            }
        }
    }
}

/// The exceptions that the frontmatter of a document declares.
fn exceptions_of(content: &str) -> Exceptions {
    let mut exceptions = Exceptions::default();
    let mut lint = ExceptionLint::StaleReferences;
    let mut start = 0;
    for (n, line) in content[..body_start(content)].lines().enumerate() {
        if line == "  stale_references:" {
            lint = ExceptionLint::StaleReferences;
        } else if line == "  bare_paths:" {
            lint = ExceptionLint::BarePaths;
        } else if let Some((key, reason)) = line.trim().split_once("\": \"") {
            let key = &key[1..];
            let at = start + line.find('"').unwrap();
            let key_span = Span { start: at, end: at + key.len() + 2 };
            let reason = reason[..reason.len() - 1].to_string();
            let line = n + 1;
            if key.bytes().all(|b| b.is_ascii_digit()) {
                let count = CountKey {
                    expected: key.parse().unwrap(),
                    raw: key.to_string(),
                    reason,
                    line,
                    key_span,
                };
                match lint {
                    ExceptionLint::StaleReferences => {
                        exceptions.stale_references_count = Some(count)
                    }
                    ExceptionLint::BarePaths => exceptions.bare_paths_count = Some(count),
                }
            } else {
                let entry = ExceptionEntry { reference: key.to_string(), reason, line, key_span };
                match lint {
                    ExceptionLint::StaleReferences => exceptions.stale_references.push(entry),
                    ExceptionLint::BarePaths => exceptions.bare_paths.push(entry),
                }
            }
        }
        start += line.len() + 1;
    }
    exceptions
}

fn run(
    rel_path: &str,
    content: &str,
    config: &Config,
    existing: &[&str],
    present: &[&str],
    unknown: &[&str],
) -> (Vec<Diagnostic>, FileSuppressions) {
    let mut files = PathMap::new();
    for path in existing {
        files.insert(path.to_string(), ());
    }
    let mut external = PathMap::new();
    for path in present {
        external.insert(path.to_string(), ExternalExistence::Present);
    }
    for path in unknown {
        external.insert(path.to_string(), ExternalExistence::Unknown);
    }
    let tree = parse(content);
    let exceptions = exceptions_of(content);
    let plain = collect(&tree, rel_path, config, &files, &external, &exceptions, &Vec::new());
    let full = collect_with_suppressions(
        &tree,
        rel_path,
        config,
        &files,
        &external,
        &exceptions,
        &Vec::new(),
    );
    assert_eq!(plain, full.0);
    full
}

fn diagnose(content: &str) -> Vec<Diagnostic> {
    diagnose_with_config(content, &Config::default())
}

fn diagnose_with_config(content: &str, config: &Config) -> Vec<Diagnostic> {
    run("test.md", content, config, &[], &[], &[]).0
}

fn diagnose_with_external(content: &str, config: &Config, present: &[&str]) -> Vec<Diagnostic> {
    run("test.md", content, config, &[], present, &[]).0
}

fn diagnose_with_external_unknown(
    content: &str,
    config: &Config,
    present: &[&str],
    unknown: &[&str],
) -> Vec<Diagnostic> {
    run("test.md", content, config, &[], present, unknown).0
}

fn diagnose_with_files_and_external(
    content: &str,
    config: &Config,
    existing: &[&str],
    present: &[&str],
) -> Vec<Diagnostic> {
    run("test.md", content, config, existing, present, &[]).0
}

fn diagnose_with_files(content: &str, existing: &[&str]) -> Vec<Diagnostic> {
    diagnose_at_path_with_files("test.md", content, existing)
}

fn diagnose_at_path_with_files(
    rel_path: &str,
    content: &str,
    existing: &[&str],
) -> Vec<Diagnostic> {
    run(rel_path, content, &Config::default(), existing, &[], &[]).0
}

fn diagnose_with_stale_policy(
    content: &str,
    existing: &[&str],
    stale: StaleReferencePolicy,
) -> Vec<Diagnostic> {
    let mut config = Config::default();
    config.policy.stale_references = stale;
    run("test.md", content, &config, existing, &[], &[]).0
}

fn diagnose_with_policy(
    content: &str,
    existing: &[&str],
    policy: BarePathPolicy,
) -> Vec<Diagnostic> {
    let mut config = Config::default();
    config.policy.bare_paths = policy;
    run("test.md", content, &config, existing, &[], &[]).0
}

fn diagnose_full(
    content: &str,
    config: &Config,
    existing: &[&str],
) -> (Vec<Diagnostic>, FileSuppressions) {
    run("test.md", content, config, existing, &[], &[])
}

fn config_with_archive_alias() -> Config {
    let mut config = Config::default();
    config.external.insert("Archive".to_string(), "/ext/Archive".to_string());
    config
}

fn config_with_artifacts(names: &[&str]) -> Config {
    let mut config = Config::default();
    for name in names {
        config.artifacts.insert(name.to_string(), ());
    }
    config
}

fn count_matching(diags: &[Diagnostic], severity: Severity, substr: &str) -> usize {
    diags.iter().filter(|d| d.severity == severity && d.message.contains(substr)).count()
}

fn has_matching(diags: &[Diagnostic], severity: Severity, substr: &str) -> bool {
    count_matching(diags, severity, substr) > 0
}

fn has_any(diags: &[Diagnostic], substr: &str) -> bool {
    diags.iter().any(|d| d.message.contains(substr))
}

#[test]
fn unclosed_fenced_code_block() {
    let diags = diagnose("```rust\nfn main() {}\n");
    assert_eq!(
        count_matching(&diags, Severity::Error, "unclosed fenced code block"),
        1,
        "one error for unclosed code block: {diags:?}"
    );
}

#[test]
fn closed_code_block_no_error() {
    let diags = diagnose("```rust\nfn main() {}\n```\n");
    assert!(
        !has_matching(&diags, Severity::Error, "unclosed"),
        "no errors for closed code block: {diags:?}"
    );
}

#[test]
fn unclosed_html_tag() {
    let diags = diagnose("<div>\n\nSome content\n");
    assert_eq!(
        count_matching(&diags, Severity::Error, "unclosed"),
        1,
        "one error for unclosed div: {diags:?}"
    );
}

#[test]
fn unexpected_close_tag() {
    let diags = diagnose("</div>\n");
    assert_eq!(
        count_matching(&diags, Severity::Error, "unexpected closing tag"),
        1,
        "one error for unexpected close: {diags:?}"
    );
}

#[test]
fn skipped_heading_level_silent_by_default() {
    let diags = diagnose("# H1\n\n### H3\n");
    assert!(
        !has_any(&diags, "skipped heading level"),
        "no skipped-level warning by default: {diags:?}"
    );
}

#[test]
fn skipped_heading_level_fires_when_enabled() {
    let mut config = Config::default();
    config.policy.skipped_heading_level = true;
    let diags = diagnose_with_config("# H1\n\n### H3\n", &config);
    assert_eq!(
        count_matching(&diags, Severity::Warning, "skipped heading level"),
        1,
        "one warning for skipped heading when enabled: {diags:?}"
    );
    assert!(
        has_any(&diags, "H1 to H3"),
        "message mentions levels: {diags:?}"
    );
}

#[test]
fn multiple_h1_silent_by_default() {
    let diags = diagnose("# First\n\n# Second\n");
    assert!(
        !has_any(&diags, "multiple H1"),
        "no multiple-H1 warning by default: {diags:?}"
    );
}

#[test]
fn multiple_h1_fires_when_enabled() {
    let mut config = Config::default();
    config.policy.multiple_h1 = true;
    let diags = diagnose_with_config("# First\n\n# Second\n", &config);
    assert_eq!(
        count_matching(&diags, Severity::Warning, "multiple H1"),
        1,
        "one warning for multiple H1 when enabled: {diags:?}"
    );
}

#[test]
fn duplicate_heading_exact() {
    let diags = diagnose("## Overview\n\n## Overview\n");
    assert_eq!(
        count_matching(
            &diags,
            Severity::Warning,
            "duplicate heading slug `overview`"
        ),
        1,
        "one warning for exact duplicate heading: {diags:?}"
    );
}

#[test]
fn duplicate_heading_punctuation_collision() {
    let diags = diagnose("# Hello, World\n\n# Hello World\n");
    assert_eq!(
        count_matching(
            &diags,
            Severity::Warning,
            "duplicate heading slug `hello-world`"
        ),
        1,
        "one warning for punctuation/spacing slug collision: {diags:?}"
    );
}

#[test]
fn distinct_heading_slugs_no_duplicate() {
    let diags = diagnose("## Overview\n\n## Details\n");
    assert!(
        !has_any(&diags, "duplicate heading slug"),
        "no duplicate warning for distinct slugs: {diags:?}"
    );
}

#[test]
fn empty_heading() {
    let diags = diagnose("# \n");
    assert_eq!(
        count_matching(&diags, Severity::Warning, "empty heading"),
        1,
        "one warning for empty heading: {diags:?}"
    );
}

#[test]
fn sequential_headings_no_warning() {
    let mut config = Config::default();
    config.policy.skipped_heading_level = true;
    let diags = diagnose_with_config("# H1\n\n## H2\n\n### H3\n", &config);
    assert!(
        !has_matching(&diags, Severity::Warning, "skipped"),
        "no warnings for sequential headings: {diags:?}"
    );
}

#[test]
fn code_block_without_language_silent_by_default() {
    let diags = diagnose("```\ncode\n```\n");
    assert!(
        !has_any(&diags, "language tag"),
        "no missing-language diagnostic by default: {diags:?}"
    );
}

#[test]
fn code_block_without_language_fires_when_enabled() {
    for (policy, severity) in [
        (CodeBlockLanguagePolicy::Hint, Severity::Hint),
        (CodeBlockLanguagePolicy::Warn, Severity::Warning),
        (CodeBlockLanguagePolicy::Deny, Severity::Error),
    ] {
        let mut config = Config::default();
        config.policy.code_block_language = policy;
        let diags = diagnose_with_config("```\ncode\n```\n", &config);
        assert_eq!(
            count_matching(&diags, severity, "without a language tag"),
            1,
            "one {policy:?} diagnostic for missing language: {diags:?}"
        );
    }

    let mut config = Config::default();
    config.policy.code_block_language = CodeBlockLanguagePolicy::Hint;
    let diags = diagnose_with_config("```\ncode\n```\n", &config);
    assert!(
        has_matching(&diags, Severity::Hint, "`text`"),
        "missing-language hint should point at the `text` escape hatch: {diags:?}"
    );
}

#[test]
fn code_block_with_language_no_diagnostic() {
    let diags = diagnose("```rust\ncode\n```\n");
    assert!(
        !has_any(&diags, "language tag"),
        "no hint for code block with language: {diags:?}"
    );
}

#[test]
fn image_empty_alt_text_silent_by_default() {
    let diags = diagnose("![](image.png)\n");
    assert!(
        !has_any(&diags, "empty alt text"),
        "no empty-alt warning by default: {diags:?}"
    );
}

#[test]
fn image_empty_alt_text_fires_when_enabled() {
    let mut config = Config::default();
    config.policy.image_empty_alt = true;
    let diags = diagnose_with_config("![](image.png)\n", &config);
    assert_eq!(
        count_matching(&diags, Severity::Warning, "empty alt text"),
        1,
        "one warning for empty alt when enabled: {diags:?}"
    );
}

#[test]
fn image_with_alt_text_no_diagnostic() {
    let mut config = Config::default();
    config.policy.image_empty_alt = true;
    let diags = diagnose_with_config("![a logo](image.png)\n", &config);
    assert!(
        !has_any(&diags, "empty alt text"),
        "no warning for image with alt: {diags:?}"
    );
}

#[test]
fn anchor_with_id_no_href_no_warning() {
    let diags = diagnose("<a id=\"a\"></a>\n");
    assert!(
        !has_any(&diags, "missing required attribute `href`"),
        "no missing-href warning for an `<a id>` anchor target: {diags:?}"
    );
}

#[test]
fn anchor_with_name_no_href_no_warning() {
    let diags = diagnose("<a name=\"a\"></a>\n");
    assert!(
        !has_any(&diags, "missing required attribute `href`"),
        "no missing-href warning for an `<a name>` anchor target: {diags:?}"
    );
}

#[test]
fn anchor_without_href_or_anchor_attr_still_warns() {
    let diags = diagnose("<a class=\"x\"></a>\n");
    assert_eq!(
        count_matching(
            &diags,
            Severity::Warning,
            "missing required attribute `href`"
        ),
        1,
        "an `<a>` with no href and no id/name still warns: {diags:?}"
    );
}

#[test]
fn anchor_with_href_no_warning() {
    let diags = diagnose("<a href=\"https://example.com\">x</a>\n");
    assert!(
        !has_any(&diags, "missing required attribute `href`"),
        "no missing-href warning for a normal linking `<a href>`: {diags:?}"
    );
}

#[test]
fn single_trailing_space() {
    let diags = diagnose("hello \n");
    assert_eq!(
        count_matching(&diags, Severity::Warning, "trailing whitespace"),
        1,
        "one warning for 1 trailing space: {diags:?}"
    );
}

#[test]
fn two_trailing_spaces_ok() {
    let diags = diagnose("hello  \n");
    assert!(
        !has_any(&diags, "trailing whitespace"),
        "no warning for 2 trailing spaces: {diags:?}"
    );
}

#[test]
fn three_trailing_spaces() {
    let diags = diagnose("hello   \n");
    assert_eq!(
        count_matching(&diags, Severity::Warning, "trailing whitespace"),
        1,
        "one warning for 3 trailing spaces: {diags:?}"
    );
}

#[test]
fn trailing_whitespace_in_code_block_excluded() {
    let diags = diagnose("```\nhello   \n```\n");
    assert!(
        !has_any(&diags, "trailing whitespace"),
        "no warning for trailing spaces inside code: {diags:?}"
    );
}

#[test]
fn bare_url_in_paragraph() {
    let diags = diagnose("Visit https://example.com for info.\n");
    assert_eq!(
        count_matching(&diags, Severity::Warning, "bare URL"),
        1,
        "one warning for bare URL: {diags:?}"
    );
}

#[test]
fn bare_url_trailing_punctuation_excluded() {
    let diags = diagnose("See https://example.com, then continue.\n");
    assert!(
        has_matching(&diags, Severity::Warning, "bare URL `https://example.com`"),
        "trailing comma excluded from the reported URL: {diags:?}"
    );
    assert!(
        !has_any(&diags, "https://example.com,"),
        "reported URL must not include the trailing comma: {diags:?}"
    );
}

#[test]
fn bare_url_past_line_midpoint_no_panic() {
    let diags = diagnose("A long line of filler text before the link, then https://example.com\n");
    assert_eq!(
        count_matching(&diags, Severity::Warning, "bare URL"),
        1,
        "one warning for bare URL past line midpoint: {diags:?}"
    );
}

#[test]
fn bare_url_diagnostic_has_precise_span() {
    let content = "Visit https://example.com for info.\n";
    let diags = diagnose(content);
    let d = diags
        .iter()
        .find(|d| d.message.contains("bare URL"))
        .expect("a bare URL diagnostic");
    let span = d.span.expect("bare URL diagnostic carries a span");
    assert_eq!(
        &content[span.start..span.end],
        "https://example.com",
        "span underlines exactly the URL: {diags:?}"
    );
}

#[test]
fn trailing_whitespace_diagnostic_spans_the_spaces() {
    let content = "hello   \nworld\n";
    let diags = diagnose(content);
    let d = diags
        .iter()
        .find(|d| d.message.contains("trailing whitespace"))
        .expect("a trailing whitespace diagnostic");
    let span = d
        .span
        .expect("trailing whitespace diagnostic carries a span");
    assert_eq!(
        &content[span.start..span.end],
        "   ",
        "span covers exactly the three trailing spaces: {diags:?}"
    );
}

#[test]
fn unclosed_html_no_cascade_to_valid_content() {
    let diags = diagnose("<div>\n\n# Valid Heading\n\nSome paragraph.\n");
    let errors: Vec<_> = diags
        .iter()
        .filter(|d| d.severity == Severity::Error)
        .collect();
    assert_eq!(errors.len(), 1, "only one error, no cascading: {diags:?}");
    assert!(
        errors[0].message.contains("unclosed"),
        "the error is about unclosed tag: {}",
        errors[0].message
    );
}

#[test]
fn quoted_path_with_existing_file() {
    let diags = diagnose_with_files("See \"other.md\" for details.\n", &["other.md"]);
    assert_eq!(
        count_matching(&diags, Severity::Hint, "quoted path"),
        1,
        "one hint for quoted path: {diags:?}"
    );
}

#[test]
fn backticked_path_with_existing_file() {
    let diags = diagnose_with_files("See `other.md` for details.\n", &["other.md"]);
    assert_eq!(
        count_matching(&diags, Severity::Hint, "backticked path"),
        1,
        "one hint for backticked path: {diags:?}"
    );
    assert!(
        has_matching(&diags, Severity::Hint, "make it a link"),
        "the hint offers the make-it-a-link resolution: {diags:?}"
    );
    assert!(
        has_matching(&diags, Severity::Hint, "drop the extension"),
        "the hint offers the drop-the-extension resolution for a name: {diags:?}"
    );
}

#[test]
fn backticked_path_no_file() {
    let diags = diagnose("See `other.md` for details.\n");
    assert!(
        !has_any(&diags, "backticked path"),
        "no make-it-a-link hint when file doesn't exist: {diags:?}"
    );
    assert_eq!(
        count_matching(&diags, Severity::Warning, "stale reference"),
        1,
        "a dangling backtick `.md` draws the stale-reference warning: {diags:?}"
    );
}

#[test]
fn quoted_path_no_file_is_stale_reference() {
    let diags = diagnose("See \"other.md\" for details.\n");
    assert!(
        !has_any(&diags, "quoted path"),
        "no make-it-a-link hint for a dangling quoted path: {diags:?}"
    );
    assert_eq!(
        count_matching(&diags, Severity::Warning, "stale reference"),
        1,
        "a dangling quoted `.md` draws the stale-reference warning: {diags:?}"
    );
}

#[test]
fn quoted_dir_path_dangling_emits_one_stale() {
    let diags = diagnose("See \"docs/gone.md\" for details.\n");
    assert_eq!(
        count_matching(&diags, Severity::Warning, "stale reference"),
        1,
        "a dangling quoted dir-bearing `.md` is stale exactly once: {diags:?}"
    );
}

#[test]
fn quoted_external_dir_path_dangling_emits_one_stale() {
    let config = config_with_archive_alias();
    let diags = diagnose_with_external(
        "See \"{Archive}/gone.md\" for details.\n",
        &config,
        &["/ext/Archive"],
    );
    assert_eq!(
        count_matching(&diags, Severity::Warning, "stale reference"),
        1,
        "a quoted external dir-bearing `.md` is stale exactly once: {diags:?}"
    );
}

#[test]
fn quoted_dir_path_resolving_emits_one_make_it_a_link() {
    let diags = diagnose_with_files("See \"docs/other.md\" for details.\n", &["docs/other.md"]);
    assert_eq!(
        count_matching(&diags, Severity::Hint, "quoted path"),
        1,
        "a resolving quoted dir-bearing path draws one make-it-a-link hint: {diags:?}"
    );
    assert!(
        !has_any(&diags, "convert to a markdown link"),
        "the bare-path nudge does not also fire on quoted content: {diags:?}"
    );
}

#[test]
fn two_distinct_quoted_dir_paths_each_emit_once() {
    let diags = diagnose("See \"docs/a.md\" and \"docs/b.md\" for details.\n");
    assert_eq!(
        count_matching(&diags, Severity::Warning, "stale reference"),
        2,
        "two distinct quoted dir-bearing paths each emit one stale: {diags:?}"
    );
}

#[test]
fn single_quoted_dangling_path_emits_one_stale() {
    let diags = diagnose("See 'docs/gone.md' for details.\n");
    assert_eq!(
        count_matching(&diags, Severity::Warning, "stale reference"),
        1,
        "a dangling single-quoted `.md` is stale exactly once: {diags:?}"
    );
}

#[test]
fn single_quoted_resolving_path_emits_one_make_it_a_link() {
    let diags = diagnose_with_files("See 'docs/other.md' for details.\n", &["docs/other.md"]);
    assert_eq!(
        count_matching(&diags, Severity::Hint, "quoted path"),
        1,
        "a resolving single-quoted path draws one make-it-a-link hint: {diags:?}"
    );
    assert!(
        has_any(&diags, "`'docs/other.md'`"),
        "the hint reflects the single-quote character: {diags:?}"
    );
}

#[test]
fn double_quoted_dangling_path_still_one_stale_no_regression() {
    let diags = diagnose("See \"docs/gone.md\" for details.\n");
    assert_eq!(
        count_matching(&diags, Severity::Warning, "stale reference"),
        1,
        "a dangling double-quoted `.md` is still stale exactly once: {diags:?}"
    );
}

#[test]
fn apostrophe_not_treated_as_quote() {
    for content in ["it's a test\n", "the dogs' bowls\n", "rock 'n' roll\n"] {
        let diags = diagnose(content);
        assert!(
            !has_any(&diags, "quoted path") && !has_any(&diags, "stale reference"),
            "an apostrophe is not a quote delimiter in {content:?}: {diags:?}"
        );
    }
}

#[test]
fn opening_single_quote_requires_whitespace_before() {
    let glued = diagnose("set value_'docs/gone.md' now\n");
    assert!(
        !has_any(&glued, "stale reference") && !has_any(&glued, "quoted path"),
        "a non-whitespace-preceded `'` must not open a quoted span: {glued:?}"
    );
    let prose = diagnose("the function example_'s parameters' types are typed\n");
    assert!(
        !has_any(&prose, "stale reference") && !has_any(&prose, "quoted path"),
        "apostrophe-heavy prose opens no quoted span: {prose:?}"
    );
}

#[test]
fn paren_opens_single_quote_but_bracket_does_not() {
    let paren = diagnose("see the example ('docs/gone.md') here\n");
    assert_eq!(
        count_matching(&paren, Severity::Warning, "stale reference"),
        1,
        "a `(`-preceded `'` opens a quoted path: {paren:?}"
    );
    let bracket = diagnose("see the example ['docs/gone.md'] here\n");
    assert!(
        !has_any(&bracket, "stale reference") && !has_any(&bracket, "quoted path"),
        "a `[`-preceded `'` does not open (markdown link clash): {bracket:?}"
    );
}

#[test]
fn contraction_before_single_quoted_path_is_caught() {
    let diags = diagnose("it's in 'docs/gone.md' today\n");
    assert_eq!(
        count_matching(&diags, Severity::Warning, "stale reference"),
        1,
        "a contraction before a single-quoted path does not hide it: {diags:?}"
    );
}

#[test]
fn multibyte_before_single_quote_is_caught_no_panic() {
    let diags = diagnose("café 'docs/gone.md'\n");
    assert_eq!(
        count_matching(&diags, Severity::Warning, "stale reference"),
        1,
        "a multibyte char before a single-quoted path: caught, no panic: {diags:?}"
    );
}

#[test]
fn single_quoted_external_dir_path_dangling_emits_one_stale() {
    let config = config_with_archive_alias();
    let diags = diagnose_with_external(
        "See '{Archive}/gone.md' for details.\n",
        &config,
        &["/ext/Archive"],
    );
    assert_eq!(
        count_matching(&diags, Severity::Warning, "stale reference"),
        1,
        "a single-quoted external dir-bearing `.md` is stale exactly once: {diags:?}"
    );
}

#[test]
fn two_distinct_single_quoted_paths_each_emit_once() {
    let diags = diagnose("See 'docs/a.md' and 'docs/b.md' for details.\n");
    assert_eq!(
        count_matching(&diags, Severity::Warning, "stale reference"),
        2,
        "two distinct single-quoted dir-bearing paths each emit one stale: {diags:?}"
    );
}

#[test]
fn mixed_quote_styles_with_multibyte_each_emit_once() {
    let diags = diagnose("See \"docs/other.md\" and 'docs/外部.md' for café details.\n");
    assert_eq!(
        count_matching(&diags, Severity::Warning, "stale reference"),
        2,
        "one double- and one single-quoted path each emit one stale: {diags:?}"
    );
}

#[test]
fn bare_path_no_file_is_stale_reference() {
    let diags = diagnose("See docs/other.md for details.\n");
    assert!(
        !has_any(&diags, "convert to a markdown link"),
        "no make-it-a-link nudge for a dangling bare path: {diags:?}"
    );
    assert_eq!(
        count_matching(&diags, Severity::Warning, "stale reference"),
        1,
        "a dangling bare `.md` draws the stale-reference warning: {diags:?}"
    );
}

#[test]
fn bare_path_existing_file_is_make_it_a_link() {
    let diags = diagnose_with_files("See docs/other.md for details.\n", &["docs/other.md"]);
    assert_eq!(
        count_matching(&diags, Severity::Warning, "convert to a markdown link"),
        1,
        "a resolving bare path keeps the make-it-a-link nudge: {diags:?}"
    );
    assert!(
        !has_any(&diags, "stale reference"),
        "a resolving bare path draws no stale-reference warning: {diags:?}"
    );
}

#[test]
fn backticked_fragment_existing_file_make_it_a_link() {
    let diags = diagnose_with_files("See `other.md#intro` for details.\n", &["other.md"]);
    assert_eq!(
        count_matching(&diags, Severity::Hint, "backticked path"),
        1,
        "an anchored backtick path resolves the file (fragment stripped): {diags:?}"
    );
}

#[test]
fn backticked_fragment_missing_file_is_stale_reference() {
    let diags = diagnose("See `other.md#intro` for details.\n");
    assert_eq!(
        count_matching(&diags, Severity::Warning, "stale reference"),
        1,
        "an anchored backtick to a missing file is stale: {diags:?}"
    );
}

#[test]
fn quoted_fragment_existing_file_make_it_a_link() {
    let diags = diagnose_with_files("See \"other.md#intro\" for details.\n", &["other.md"]);
    assert_eq!(
        count_matching(&diags, Severity::Hint, "quoted path"),
        1,
        "an anchored quoted path resolves the file (fragment stripped): {diags:?}"
    );
}

#[test]
fn non_md_extensions_draw_no_dark_matter() {
    for path in ["src/main.rs", "Cargo.toml", "docs/logo.png"] {
        let backtick = format!("See `{path}` for details.\n");
        let resolving = diagnose_with_files(&backtick, &[path]);
        let dangling = diagnose(&backtick);
        for diags in [&resolving, &dangling] {
            assert!(
                !has_any(diags, "backticked path")
                    && !has_any(diags, "stale reference")
                    && !has_any(diags, "convert to a markdown link"),
                "non-`.md` path `{path}` draws no dark-matter diagnostic: {diags:?}"
            );
        }
    }
}

#[test]
fn stem_without_extension_is_silent() {
    for stem in ["README", "docs/README"] {
        let diags = diagnose_with_files(&format!("See `{stem}` for details.\n"), &[stem]);
        assert!(
            !has_any(&diags, "backticked path")
                && !has_any(&diags, "stale reference")
                && !has_any(&diags, "convert to a markdown link"),
            "a bare stem `{stem}` is silent: {diags:?}"
        );
    }
}

#[test]
fn file_line_syntax_is_silent() {
    let diags = diagnose("See docs/foo.md:102 for details.\n");
    assert!(
        !has_any(&diags, "stale reference")
            && !has_any(&diags, "convert to a markdown link")
            && !has_any(&diags, "backticked path"),
        "`file:line` syntax is not a reference form: {diags:?}"
    );
}

#[test]
fn root_relative_existing_file_make_it_a_link() {
    let diags = diagnose_at_path_with_files("a/b/c.md", "See `/README.md`.\n", &["README.md"]);
    assert_eq!(
        count_matching(&diags, Severity::Hint, "backticked path"),
        1,
        "root-relative `.md` resolves at the workspace root: {diags:?}"
    );
    assert!(
        !has_any(&diags, "stale reference"),
        "a resolving root-relative path draws no stale-reference: {diags:?}"
    );
}

#[test]
fn stale_references_disabled_silences_only_the_stale_warning() {
    let dangling =
        diagnose_with_stale_policy("See `gone.md`.\n", &[], StaleReferencePolicy::Disabled);
    assert!(
        !has_any(&dangling, "stale reference"),
        "disabled silences the stale-reference warning: {dangling:?}"
    );

    let resolving = diagnose_with_stale_policy(
        "See `other.md`.\n",
        &["other.md"],
        StaleReferencePolicy::Disabled,
    );
    assert_eq!(
        count_matching(&resolving, Severity::Hint, "backticked path"),
        1,
        "disabling stale_references leaves the make-it-a-link hint intact: {resolving:?}"
    );
}

#[test]
fn stale_references_deny_is_error() {
    let diags = diagnose_with_stale_policy("See `gone.md`.\n", &[], StaleReferencePolicy::Deny);
    assert_eq!(
        count_matching(&diags, Severity::Error, "stale reference"),
        1,
        "deny escalates the stale-reference to an error: {diags:?}"
    );
}

#[test]
fn stale_references_hint_is_hint() {
    let diags = diagnose_with_stale_policy("See `gone.md`.\n", &[], StaleReferencePolicy::Hint);
    assert_eq!(
        count_matching(&diags, Severity::Hint, "stale reference"),
        1,
        "hint downgrades the stale-reference to a hint: {diags:?}"
    );
}

#[test]
fn stale_reference_fires_even_when_bare_paths_disabled() {
    let mut config = Config::default();
    config.policy.bare_paths = BarePathPolicy::Disabled;
    let diags = diagnose_with_config("See `gone.md`.\n", &config);
    assert_eq!(
        count_matching(&diags, Severity::Warning, "stale reference"),
        1,
        "stale_references is independent of bare_paths: {diags:?}"
    );
}

#[test]
fn backticked_root_relative_path_resolves_at_workspace_root() {
    let diags = diagnose_at_path_with_files(
        "a/b/c.md",
        "See `/README.md` for details.\n",
        &["README.md"],
    );
    assert_eq!(
        count_matching(&diags, Severity::Hint, "backticked path"),
        1,
        "root-relative backticked path resolves at the workspace root: {diags:?}"
    );
}

#[test]
fn backticked_root_relative_resolution_independent_of_depth() {
    let root = diagnose_at_path_with_files("root.md", "See `/README.md`.\n", &["README.md"]);
    let deep =
        diagnose_at_path_with_files("a/b/c/d/deep.md", "See `/README.md`.\n", &["README.md"]);
    assert_eq!(
        count_matching(&root, Severity::Hint, "backticked path"),
        count_matching(&deep, Severity::Hint, "backticked path"),
        "root-relative resolution is depth-independent: root={root:?} deep={deep:?}"
    );
    assert_eq!(
        count_matching(&deep, Severity::Hint, "backticked path"),
        1,
        "the deep reference still resolves at the workspace root: {deep:?}"
    );
}

#[test]
fn backticked_root_relative_missing_file_no_hint() {
    let diags =
        diagnose_at_path_with_files("a/b/c.md", "See `/nope.md` for details.\n", &["README.md"]);
    assert!(
        !has_any(&diags, "backticked path"),
        "no make-it-a-link hint for a missing root-relative target: {diags:?}"
    );
    assert_eq!(
        count_matching(&diags, Severity::Warning, "stale reference"),
        1,
        "a missing root-relative `.md` draws the stale-reference warning: {diags:?}"
    );
}

#[test]
fn protocol_relative_backticked_path_not_treated_as_workspace_path() {
    let diags = diagnose_at_path_with_files(
        "a/b/c.md",
        "See `//cdn.example.com/lib.md` for details.\n",
        &["cdn.example.com/lib.md", "lib.md"],
    );
    assert!(
        !has_any(&diags, "backticked path"),
        "protocol-relative `//host` is external, not a workspace path: {diags:?}"
    );
}

#[test]
fn dir_relative_dotdot_is_normalized_no_stale() {
    let diags = diagnose_at_path_with_files(
        "architecture/hooks/Hook.md",
        "See `../claude_code/PostToolUse.md` for details.\n",
        &["architecture/claude_code/PostToolUse.md"],
    );
    assert!(
        !has_any(&diags, "stale reference"),
        "a `..`-relative reference that resolves after normalization is not stale: {diags:?}"
    );
    assert_eq!(
        count_matching(&diags, Severity::Hint, "backticked path"),
        1,
        "the normalized dir-relative reference draws the make-it-a-link hint: {diags:?}"
    );
}

#[test]
fn repo_root_relative_citation_resolves_at_root_no_stale() {
    let diags = diagnose_at_path_with_files(
        "tickets/acquire/v2_01_cleanup.md",
        "See `tickets/acquire/DESIGN.md` for details.\n",
        &["tickets/acquire/DESIGN.md"],
    );
    assert!(
        !has_any(&diags, "stale reference"),
        "a repo-root-relative citation that exists at root is not stale: {diags:?}"
    );
    assert_eq!(
        count_matching(&diags, Severity::Hint, "backticked path"),
        1,
        "the root-resolved citation draws the make-it-a-link hint: {diags:?}"
    );
}

#[test]
fn genuine_dangling_under_neither_base_is_stale() {
    let diags = diagnose_at_path_with_files(
        "tickets/x/note.md",
        "See `tickets/correlation/missing.md` for details.\n",
        &["tickets/acquire/DESIGN.md"],
    );
    assert!(
        !has_any(&diags, "backticked path"),
        "a reference resolving under no base draws no make-it-a-link hint: {diags:?}"
    );
    assert_eq!(
        count_matching(&diags, Severity::Warning, "stale reference"),
        1,
        "a reference resolving under neither base is a genuine stale reference: {diags:?}"
    );
}

#[test]
fn excluded_path_shapes_draw_no_diagnostic() {
    for token in ["~/Projects/Archive/AGENTS.md", "<name>/SKILL.md", "NN_*.md"] {
        let backtick = format!("See `{token}` for details.\n");
        let dangling = diagnose(&backtick);
        let with_file = diagnose_with_files(&backtick, &[token]);
        for diags in [&dangling, &with_file] {
            assert!(
                !has_any(diags, "backticked path")
                    && !has_any(diags, "stale reference")
                    && !has_any(diags, "convert to a markdown link"),
                "excluded shape `{token}` draws no dark-matter diagnostic: {diags:?}"
            );
        }
    }
}

#[test]
fn excluded_glob_bare_path_draws_no_diagnostic() {
    let diags = diagnose("See docs/NN_*.md for details.\n");
    assert!(
        !has_any(&diags, "stale reference") && !has_any(&diags, "convert to a markdown link"),
        "a bare glob path draws no dark-matter diagnostic: {diags:?}"
    );
}

#[test]
fn plain_in_dir_dangling_still_warns() {
    let diags = diagnose_at_path_with_files("docs/note.md", "See `gone.md`.\n", &[]);
    assert_eq!(
        count_matching(&diags, Severity::Warning, "stale reference"),
        1,
        "a plain in-dir dangling `.md` still warns: {diags:?}"
    );
}

#[test]
fn root_file_still_resolves_via_root_base() {
    let diags = diagnose_at_path_with_files("a/b/c.md", "See `/README.md`.\n", &["README.md"]);
    assert_eq!(
        count_matching(&diags, Severity::Hint, "backticked path"),
        1,
        "a root-relative `/README.md` with the root file present still resolves: {diags:?}"
    );
    assert!(
        !has_any(&diags, "stale reference"),
        "the resolving root file draws no stale warning: {diags:?}"
    );
}

#[test]
fn dotdot_escaping_root_is_not_a_resolution() {
    let diags = diagnose_at_path_with_files(
        "note.md",
        "See `../outside.md` for details.\n",
        &["outside.md"],
    );
    assert!(
        !has_any(&diags, "backticked path"),
        "an escaping `..` reference draws no make-it-a-link hint: {diags:?}"
    );
    assert_eq!(
        count_matching(&diags, Severity::Warning, "stale reference"),
        1,
        "an escaping `..` reference is a genuine stale reference: {diags:?}"
    );
}

#[test]
fn external_namespace_recognizer() {
    assert_eq!(
        external_namespace("{Archive}/docs/x.md"),
        Some(("Archive", "docs/x.md")),
        "a leading `{{ident}}/` is recognized, splitting alias from the remainder"
    );
    assert_eq!(
        external_namespace("{my_repo-2}/x.md"),
        Some(("my_repo-2", "x.md")),
        "alphanumerics, `_` and `-` are valid identifier characters"
    );
    assert_eq!(
        external_namespace("{Archive}/docs"),
        Some(("Archive", "docs")),
        "an extension-less directory remainder is recognized"
    );
    assert_eq!(
        external_namespace("{Archive}/schema.txt"),
        Some(("Archive", "schema.txt")),
        "a non-`.md` file remainder is recognized"
    );
    for token in [
        "{Archive}",
        "{Archive}/",
        "{}/x.md",
        "{a b}/x.md",
        "docs/{Archive}.md",
        "Archive/x.md",
    ] {
        assert_eq!(
            external_namespace(token),
            None,
            "`{token}` is not an external-namespace reference"
        );
    }
}

#[test]
fn external_undefined_alias_is_exempt() {
    let diags = diagnose("See `{Archive}/docs/configuration.md` for details.\n");
    assert!(
        !has_any(&diags, "stale reference")
            && !has_any(&diags, "backticked path")
            && !has_any(&diags, "convert to a markdown link"),
        "an undefined `{{Name}}/…` alias draws no diagnostic (exempt floor): {diags:?}"
    );
}

#[test]
fn external_alias_dir_absent_is_exempt() {
    let config = config_with_archive_alias();
    let diags = diagnose_with_external(
        "See `{Archive}/docs/configuration.md` for details.\n",
        &config,
        &[],
    );
    assert!(
        !has_any(&diags, "stale reference"),
        "a defined alias whose directory is absent is exempt: {diags:?}"
    );
}

#[test]
fn external_alias_dir_present_file_present_is_valid() {
    let config = config_with_archive_alias();
    let diags = diagnose_with_external(
        "See `{Archive}/docs/configuration.md` for details.\n",
        &config,
        &["/ext/Archive", "/ext/Archive/docs/configuration.md"],
    );
    assert!(
        !has_any(&diags, "stale reference")
            && !has_any(&diags, "backticked path")
            && !has_any(&diags, "convert to a markdown link"),
        "a present external file is valid and draws no diagnostic: {diags:?}"
    );
}

#[test]
fn external_alias_dir_present_file_missing_is_stale() {
    let config = config_with_archive_alias();
    let diags = diagnose_with_external(
        "See `{Archive}/docs/configuration.md` for details.\n",
        &config,
        &["/ext/Archive"],
    );
    assert_eq!(
        count_matching(&diags, Severity::Warning, "stale reference"),
        1,
        "a missing file under a present alias directory is stale: {diags:?}"
    );
}

#[test]
fn external_stat_failure_is_surfaced_not_exempted() {
    let config = config_with_archive_alias();
    let dir_unknown = diagnose_with_external_unknown(
        "See `{Archive}/docs/configuration.md` for details.\n",
        &config,
        &[],
        &["/ext/Archive"],
    );
    assert_eq!(
        count_matching(
            &dir_unknown,
            Severity::Warning,
            "checking existence there failed"
        ),
        1,
        "a dir-level stat failure surfaces the cannot-verify diagnostic: {dir_unknown:?}"
    );
    let file_unknown = diagnose_with_external_unknown(
        "See `{Archive}/docs/configuration.md` for details.\n",
        &config,
        &["/ext/Archive"],
        &["/ext/Archive/docs/configuration.md"],
    );
    assert_eq!(
        count_matching(
            &file_unknown,
            Severity::Warning,
            "checking existence there failed"
        ),
        1,
        "a file-level stat failure surfaces the cannot-verify diagnostic: {file_unknown:?}"
    );
}

#[test]
fn external_stat_failure_suppressed_by_exception_without_unused_misreport() {
    let config = config_with_archive_alias();
    let content = "---\n\
             exceptions:\n  \
               stale_references:\n    \
                 \"{Archive}/docs/configuration.md\": \"deliberately absent in that repo\"\n\
             ---\n\
             See `{Archive}/docs/configuration.md` for details.\n";
    let diags = diagnose_with_external_unknown(content, &config, &[], &["/ext/Archive"]);
    assert!(
        !has_any(&diags, "checking existence there failed"),
        "the exception suppresses the cannot-verify diagnostic: {diags:?}"
    );
    assert!(
        !has_any(&diags, "unused exception"),
        "a stat failure must not misreport the exception as unused: {diags:?}"
    );
}

#[test]
fn external_reference_quoted_and_bare_forms() {
    let config = config_with_archive_alias();
    for content in [
        "See \"{Archive}/docs/configuration.md\" for details.\n",
        "See {Archive}/docs/configuration.md for details.\n",
    ] {
        let stale = diagnose_with_external(content, &config, &["/ext/Archive"]);
        assert_eq!(
            count_matching(&stale, Severity::Warning, "stale reference"),
            1,
            "missing external file is stale exactly once on this surface: {stale:?}"
        );
        let exempt = diagnose(content);
        assert!(
            !has_any(&exempt, "stale reference"),
            "undefined alias is exempt on this surface: {exempt:?}"
        );
    }
}

#[test]
fn external_reference_message_teaches_the_escape() {
    let diags = diagnose("See `gone/missing.md` for details.\n");
    assert!(
        has_matching(&diags, Severity::Warning, "{repo}/") && has_any(&diags, ".lattice.toml"),
        "the stale message teaches the `{{repo}}/…` external escape: {diags:?}"
    );
}

#[test]
fn external_directory_and_non_md_references_are_checked() {
    let config = config_with_archive_alias();
    for reference in ["{Archive}/docs", "{Archive}/schema.txt"] {
        for content in [
            format!("See {reference} for details.\n"),
            format!("See `{reference}` for details.\n"),
            format!("See \"{reference}\" for details.\n"),
        ] {
            let stale = diagnose_with_external(&content, &config, &["/ext/Archive"]);
            assert_eq!(
                count_matching(&stale, Severity::Warning, "stale reference"),
                1,
                "a missing external `{reference}` is stale exactly once: {stale:?}"
            );
            let exempt_absent = diagnose_with_external(&content, &config, &[]);
            assert!(
                !has_any(&exempt_absent, "stale reference"),
                "an absent alias directory is exempt for `{reference}`: {exempt_absent:?}"
            );
            let exempt_undef = diagnose(&content);
            assert!(
                !has_any(&exempt_undef, "stale reference"),
                "an undefined alias is exempt for `{reference}`: {exempt_undef:?}"
            );
        }
    }
}

#[test]
fn external_directory_reference_present_is_valid() {
    let config = config_with_archive_alias();
    let diags = diagnose_with_external(
        "See `{Archive}/docs` for details.\n",
        &config,
        &["/ext/Archive", "/ext/Archive/docs"],
    );
    assert!(
        !has_any(&diags, "stale reference") && !has_any(&diags, "backticked path"),
        "a present external directory is valid and draws no diagnostic: {diags:?}"
    );
}

#[test]
fn external_stale_message_names_alias_not_intra_repo_escape() {
    let config = config_with_archive_alias();
    let diags = diagnose_with_external(
        "See `{Archive}/docs` for details.\n",
        &config,
        &["/ext/Archive"],
    );
    assert!(
        has_matching(&diags, Severity::Warning, "external alias `Archive`"),
        "the external stale message names the alias: {diags:?}"
    );
    assert!(
        !has_any(&diags, "under this root") && !has_any(&diags, "markdown file"),
        "it drops the intra-repo 'markdown file under this root' framing: {diags:?}"
    );
    assert!(
        !has_any(&diags, "{repo}/"),
        "it does not teach the `{{repo}}/…` escape for a reference already using it: {diags:?}"
    );
}

#[test]
fn external_namespace_ellipsis_placeholder_is_exempt() {
    let config = config_with_archive_alias();
    for placeholder in ["{Archive}/…", "{Archive}/..."] {
        for content in [
            format!("Write it as {placeholder} for a cross-repo ref.\n"),
            format!("Write it as `{placeholder}` for a cross-repo ref.\n"),
            format!("Write it as \"{placeholder}\" for a cross-repo ref.\n"),
        ] {
            let diags = diagnose_with_external(&content, &config, &["/ext/Archive"]);
            assert!(
                !has_any(&diags, "stale reference") && !has_any(&diags, "external alias"),
                "the `{placeholder}` placeholder is exempt, not a stale reference: {diags:?}"
            );
        }
    }
}

fn dark_matter_spellings(reference: &str) -> [String; 3] {
    [
        format!("See {reference} for details.\n"),
        format!("See `{reference}` for details.\n"),
        format!("See \"{reference}\" for details.\n"),
    ]
}

#[test]
fn external_steering_names_the_citation_on_every_dark_matter_surface() {
    let config = config_with_archive_alias();
    for content in dark_matter_spellings("docs/configuration.md") {
        let diags = diagnose_with_external(
            &content,
            &config,
            &["/ext/Archive", "/ext/Archive/docs/configuration.md"],
        );
        assert_eq!(
            count_matching(
                &diags,
                Severity::Warning,
                "path exists in external `Archive`"
            ),
            1,
            "the steering variant fires exactly once for {content:?}: {diags:?}"
        );
        assert!(
            has_any(&diags, "cite it as `{Archive}/docs/configuration.md`"),
            "it names the exact `{{Alias}}/rest` spelling for {content:?}: {diags:?}"
        );
        assert!(
            !has_any(&diags, "no such markdown file under this root"),
            "it replaces the generic stale message for {content:?}: {diags:?}"
        );
    }
}

#[test]
fn external_steering_never_overrides_a_live_intra_repo_reference() {
    let config = config_with_archive_alias();
    for content in dark_matter_spellings("docs/configuration.md") {
        let diags = diagnose_with_files_and_external(
            &content,
            &config,
            &["docs/configuration.md"],
            &["/ext/Archive", "/ext/Archive/docs/configuration.md"],
        );
        assert!(
            !has_any(&diags, "path exists in external") && !has_any(&diags, "stale reference"),
            "a resolving local reference is never steered externally for {content:?}: {diags:?}"
        );
    }
}

#[test]
fn external_steering_requires_a_present_verdict() {
    let config = config_with_archive_alias();
    let content = "See `docs/configuration.md` for details.\n";
    let cases = [
        (
            "absent alias directory",
            diagnose_with_external(content, &config, &[]),
        ),
        (
            "present directory, path missing under it",
            diagnose_with_external(content, &config, &["/ext/Archive"]),
        ),
        (
            "unknown alias directory",
            diagnose_with_external_unknown(content, &config, &[], &["/ext/Archive"]),
        ),
        (
            "unknown path under a present directory",
            diagnose_with_external_unknown(
                content,
                &config,
                &["/ext/Archive"],
                &["/ext/Archive/docs/configuration.md"],
            ),
        ),
    ];
    for (label, diags) in cases {
        assert!(
            !has_any(&diags, "path exists in external"),
            "{label} must not claim a citation: {diags:?}"
        );
        assert_eq!(
            count_matching(
                &diags,
                Severity::Warning,
                "no such markdown file under this root"
            ),
            1,
            "{label} degrades to the plain stale-reference hint: {diags:?}"
        );
    }
}

#[test]
fn external_steering_severity_tracks_the_stale_policy() {
    let present = ["/ext/Archive", "/ext/Archive/docs/configuration.md"];
    let content = "See `docs/configuration.md` for details.\n";
    for (policy, severity) in [
        (StaleReferencePolicy::Hint, Severity::Hint),
        (StaleReferencePolicy::Warn, Severity::Warning),
        (StaleReferencePolicy::Deny, Severity::Error),
    ] {
        let mut config = config_with_archive_alias();
        config.policy.stale_references = policy;
        let diags = diagnose_with_external(content, &config, &present);
        assert_eq!(
            count_matching(&diags, severity, "path exists in external `Archive`"),
            1,
            "the steering message tracks the {policy:?} policy: {diags:?}"
        );
    }

    let mut config = config_with_archive_alias();
    config.policy.stale_references = StaleReferencePolicy::Disabled;
    let diags = diagnose_with_external(content, &config, &present);
    assert!(
        !has_any(&diags, "path exists in external"),
        "a disabled policy emits no steering message: {diags:?}"
    );
}

#[test]
fn external_steering_picks_the_first_alias_deterministically() {
    let mut config = Config::default();
    config.external.insert("Zed".to_string(), "/ext/Zed".to_string());
    config.external.insert("Archive".to_string(), "/ext/Archive".to_string());
    let diags = diagnose_with_external(
        "See `docs/configuration.md` for details.\n",
        &config,
        &[
            "/ext/Zed",
            "/ext/Zed/docs/configuration.md",
            "/ext/Archive",
            "/ext/Archive/docs/configuration.md",
        ],
    );
    assert!(
        has_any(&diags, "cite it as `{Archive}/docs/configuration.md`"),
        "the alphabetically-first alias is named, not the first declared: {diags:?}"
    );
    assert!(
        !has_any(&diags, "{Zed}/"),
        "exactly one citation is offered, not both: {diags:?}"
    );
}

#[test]
fn external_steering_citation_normalizes_the_path_it_spells() {
    let config = config_with_archive_alias();
    let present = ["/ext/Archive", "/ext/Archive/docs/configuration.md"];
    for reference in ["./docs/configuration.md", "/docs/configuration.md"] {
        let content = format!("See `{reference}` for details.\n");
        let diags = diagnose_with_external(&content, &config, &present);
        assert!(
            has_any(&diags, "cite it as `{Archive}/docs/configuration.md`"),
            "`{reference}` cites as the normalized path: {diags:?}"
        );
    }

    let escaping = diagnose_with_external(
        "See `../docs/configuration.md` for details.\n",
        &config,
        &present,
    );
    assert!(
        !has_any(&escaping, "path exists in external"),
        "a root-escaping reference has no citation form: {escaping:?}"
    );
}

#[test]
fn external_steering_is_suppressed_by_a_path_keyed_exception() {
    let config = config_with_archive_alias();
    let content = "---\n\
             exceptions:\n  \
               stale_references:\n    \
                 \"docs/configuration.md\": \"lives in the Archive repo\"\n\
             ---\n\
             See `docs/configuration.md` for details.\n";
    let diags = diagnose_with_external(
        content,
        &config,
        &["/ext/Archive", "/ext/Archive/docs/configuration.md"],
    );
    assert!(
        !has_any(&diags, "stale reference"),
        "the exception suppresses the steering message: {diags:?}"
    );
    assert!(
        !has_any(&diags, "unused exception"),
        "and is not misreported as unused: {diags:?}"
    );
}

#[test]
fn external_steering_classifies_as_a_stale_reference_lint() {
    assert_eq!(
        classify_028_lint(
            "stale reference: `docs/x.md` — path exists in external `Archive` — cite it as `{Archive}/docs/x.md`"
        ),
        Some(ExceptionLint::StaleReferences),
        "the steering variant is a stale_references diagnostic"
    );
}

#[test]
fn backticked_path_in_table_cell_emits_hint() {
    let content = "| # | Tracker |\n|---|---------|\n| 1 | `tickets/foo/README.md` |\n";
    let diags = diagnose_with_files(content, &["tickets/foo/README.md"]);

    let hits: Vec<&Diagnostic> = diags
        .iter()
        .filter(|d| d.severity == Severity::Hint && d.message.contains("backticked path"))
        .collect();
    assert_eq!(
        hits.len(),
        1,
        "exactly one backticked-path hint for the cell: {diags:?}"
    );
    assert_eq!(
        hits[0].line, 3,
        "hint is anchored at the table cell's row (line 3): {diags:?}"
    );
}

#[test]
fn backticked_path_in_table_cell_no_file() {
    let content = "| # | Tracker |\n|---|---------|\n| 1 | `tickets/foo/README.md` |\n";
    let diags = diagnose(content);
    assert!(
        !has_any(&diags, "backticked path"),
        "no hint for a non-existent cell path: {diags:?}"
    );
}

#[test]
fn bare_url_in_table_cell_emits_warning() {
    let content = "| Site |\n|------|\n| https://example.com/page |\n";
    let diags = diagnose(content);
    assert_eq!(
        count_matching(&diags, Severity::Warning, "bare URL"),
        1,
        "one bare-URL warning for the cell: {diags:?}"
    );
}

#[test]
fn quoted_path_in_table_cell_emits_hint() {
    let content = "| Ref |\n|-----|\n| \"other.md\" |\n";
    let diags = diagnose_with_files(content, &["other.md"]);
    assert_eq!(
        count_matching(&diags, Severity::Hint, "quoted path"),
        1,
        "one quoted-path hint for the cell: {diags:?}"
    );
}

#[test]
fn bare_path_in_table_cell_emits_diagnostic() {
    let content = "| Ref |\n|-----|\n| docs/page.md |\n";
    let diags = diagnose_with_files(content, &["docs/page.md"]);
    assert_eq!(
        count_matching(&diags, Severity::Warning, "convert to a markdown link"),
        1,
        "one bare-path diagnostic for the cell: {diags:?}"
    );
}

#[test]
fn self_closing_div() {
    let diags = diagnose("<div/>\n");
    assert_eq!(
        count_matching(&diags, Severity::Warning, "self-closing non-void"),
        1,
        "one warning for self-closing div: {diags:?}"
    );
}

#[test]
fn self_closing_void_ok() {
    let diags = diagnose("<br/>\n");
    assert!(
        !has_any(&diags, "self-closing non-void"),
        "no warning for self-closing void: {diags:?}"
    );
}

#[test]
fn unknown_element() {
    let diags = diagnose("<foo>\n</foo>\n");
    assert_eq!(
        count_matching(&diags, Severity::Info, "unknown HTML element"),
        1,
        "one info for unknown element: {diags:?}"
    );
}

#[test]
fn duplicate_id_across_block_and_mid_paragraph_inline() {
    let diags = diagnose(
        "<div id=\"shared\"></div>\n\n\
             Paragraph with an <span id=\"shared\"></span> inline target.\n",
    );
    assert_eq!(
        count_matching(&diags, Severity::Error, "duplicate `id` attribute `shared`"),
        1,
        "one error for the inline id duplicating the block id: {diags:?}"
    );
}

#[test]
fn distinct_mid_paragraph_inline_id_no_duplicate() {
    let diags = diagnose(
        "<div id=\"block\"></div>\n\n\
             Paragraph with an <span id=\"inline\"></span> inline target.\n",
    );
    assert!(
        !has_any(&diags, "duplicate `id`"),
        "distinct ids do not collide: {diags:?}"
    );
}

#[test]
fn code_block_language_disabled() {
    let mut config = Config::default();
    config.policy.code_block_language = CodeBlockLanguagePolicy::Disabled;
    let diags = diagnose_with_config("```\ncode\n```\n", &config);
    assert!(
        !has_any(&diags, "language tag"),
        "no diagnostic when disabled: {diags:?}"
    );
}

#[test]
fn code_block_language_deny_is_error() {
    let mut config = Config::default();
    config.policy.code_block_language = CodeBlockLanguagePolicy::Deny;
    let diags = diagnose_with_config("```\ncode\n```\n", &config);
    assert_eq!(
        count_matching(&diags, Severity::Error, "without a language tag"),
        1,
        "one error when deny: {diags:?}"
    );
}

const BARE_PATH_SAMPLE: &str =
    "Visit https://example.com and see \"other.md\" or `other.md` in docs/page.md here.\n";

const BARE_PATH_NEEDLES: [&str; 4] = [
    "convert to a markdown link",
    "bare URL",
    "quoted path",
    "backticked path",
];

#[test]
fn bare_paths_disabled_silences_both_emitters() {
    let diags = diagnose_with_policy(
        BARE_PATH_SAMPLE,
        &["other.md", "docs/page.md"],
        BarePathPolicy::Disabled,
    );
    for needle in BARE_PATH_NEEDLES {
        assert!(
            !has_any(&diags, needle),
            "disabled should silence `{needle}`: {diags:?}"
        );
    }
}

#[test]
fn bare_paths_deny_escalates_both_emitters() {
    let diags = diagnose_with_policy(
        BARE_PATH_SAMPLE,
        &["other.md", "docs/page.md"],
        BarePathPolicy::Deny,
    );
    for needle in BARE_PATH_NEEDLES {
        assert!(
            has_matching(&diags, Severity::Error, needle),
            "deny should escalate `{needle}` to error: {diags:?}"
        );
    }
}

#[test]
fn html_in_blockquote_closed_on_blank_line() {
    let diags = diagnose("> <div>\n>\n> text\n\nparagraph\n");
    assert_eq!(
        count_matching(&diags, Severity::Error, "unclosed"),
        1,
        "one unclosed div error, no cascading: {diags:?}"
    );
}

#[test]
fn malformed_link_destination() {
    let diags = diagnose("[text](\n");
    assert_eq!(
        count_matching(&diags, Severity::Error, "malformed link"),
        1,
        "one error for malformed link: {diags:?}"
    );
}

#[test]
fn unused_ref_def_is_warning() {
    let diags = diagnose("[label]: https://example.com\n\nSome text.\n");
    assert_eq!(
        count_matching(&diags, Severity::Warning, "unused reference definition"),
        1,
        "unused ref def should be warning: {diags:?}"
    );
    assert!(
        !has_matching(&diags, Severity::Error, "unused reference definition"),
        "unused ref def should not be error: {diags:?}"
    );
}

#[test]
fn duplicate_ref_def_is_warning() {
    let diags = diagnose("[label]: https://a.com\n[label]: https://b.com\n\n[text][label]\n");
    assert_eq!(
        count_matching(&diags, Severity::Warning, "duplicate reference definition"),
        1,
        "duplicate ref def should be warning: {diags:?}"
    );
}

#[test]
fn markdown_in_opaque_html_warns() {
    let diags = diagnose("<center>\n# Heading\n</center>\n");
    assert_eq!(
        count_matching(
            &diags,
            Severity::Warning,
            "markdown syntax inside HTML block"
        ),
        1,
        "one warning for markdown in opaque HTML: {diags:?}"
    );
}

#[test]
fn exception_suppresses_unresolved_stale_reference() {
    let content = "---\n\
            exceptions:\n  \
              stale_references:\n    \
                \"gone.md\": \"hypothetical path in the worked example\"\n\
            ---\n\
            See `gone.md` for details.\n";
    let diags = diagnose_with_files(content, &[]);
    assert!(
        !has_any(&diags, "stale reference"),
        "the exception suppresses the stale-reference diagnostic: {diags:?}"
    );
    assert!(
        !has_any(&diags, "unused exception"),
        "a matched exception is not flagged as unused: {diags:?}"
    );
}

#[test]
fn exception_with_no_live_diagnostic_is_unused_and_echoes_reason() {
    let content = "---\n\
            exceptions:\n  \
              stale_references:\n    \
                \"gone.md\": \"hypothetical path in the worked example\"\n\
            ---\n\
            Nothing references it now.\n";
    let diags = diagnose_with_files(content, &[]);
    assert_eq!(
        count_matching(&diags, Severity::Warning, "unused exception: `gone.md`"),
        1,
        "an exception matching no live diagnostic is flagged as unused: {diags:?}"
    );
    assert!(
        has_any(&diags, "hypothetical path in the worked example"),
        "the unused-exception message echoes the stored reason: {diags:?}"
    );
}

#[test]
fn exception_with_empty_reason_is_a_diagnostic() {
    let content = "---\n\
            exceptions:\n  \
              stale_references:\n    \
                \"gone.md\": \"\"\n\
            ---\n\
            See `gone.md` here.\n";
    let diags = diagnose_with_files(content, &[]);
    assert_eq!(
        count_matching(&diags, Severity::Warning, "has no reason"),
        1,
        "an empty-reason exception is a diagnostic: {diags:?}"
    );
    assert!(
        !has_any(&diags, "unused exception"),
        "a matched empty-reason entry is not also flagged unused: {diags:?}"
    );
}

#[test]
fn external_alias_keyed_exception_suppresses_present_missing_stale() {
    let config = config_with_archive_alias();
    let content = "---\n\
            exceptions:\n  \
              stale_references:\n    \
                \"{Archive}/old/layout.md\": \"pre-refactor path, kept for the changelog note\"\n\
            ---\n\
            See `{Archive}/old/layout.md` for the old shape.\n";
    let diags = diagnose_with_external(content, &config, &["/ext/Archive"]);
    assert!(
        !has_any(&diags, "stale reference"),
        "a `{{Name}}/…`-keyed exception suppresses the present-missing stale: {diags:?}"
    );
    assert!(
        !has_any(&diags, "unused exception"),
        "the matched alias-keyed exception is not flagged unused: {diags:?}"
    );
}

#[test]
fn exception_scope_is_per_reference() {
    let content = "---\n\
            exceptions:\n  \
              stale_references:\n    \
                \"excepted.md\": \"deliberately not a live reference\"\n\
            ---\n\
            See `excepted.md` and also `other.md`.\n";
    let diags = diagnose_with_files(content, &[]);
    assert_eq!(
        count_matching(&diags, Severity::Warning, "stale reference: `other.md`"),
        1,
        "the unexcepted reference still fires: {diags:?}"
    );
    assert!(
        !has_any(&diags, "stale reference: `excepted.md`"),
        "the excepted reference is suppressed: {diags:?}"
    );
}

#[test]
fn rename_flags_old_key_unused_while_new_name_fires() {
    let content = "---\n\
            exceptions:\n  \
              stale_references:\n    \
                \"old-name.md\": \"the design doc, since renamed\"\n\
            ---\n\
            See `new-name.md` for the design.\n";
    let diags = diagnose_with_files(content, &[]);
    assert_eq!(
        count_matching(&diags, Severity::Warning, "unused exception: `old-name.md`"),
        1,
        "the renamed-away old key is flagged unused: {diags:?}"
    );
    assert_eq!(
        count_matching(&diags, Severity::Warning, "stale reference: `new-name.md`"),
        1,
        "the new name fires a fresh stale reference: {diags:?}"
    );
}

#[test]
fn bare_paths_exception_suppresses_resolve_hint() {
    let content = "---\n\
            exceptions:\n  \
              bare_paths:\n    \
                \"README.md\": \"naming the file, deliberately not a link\"\n\
            ---\n\
            See `README.md` for the overview.\n";
    let diags = diagnose_with_files(content, &["README.md"]);
    assert!(
        !has_any(&diags, "backticked path"),
        "the bare_paths exception suppresses the resolve hint: {diags:?}"
    );
    assert!(
        !has_any(&diags, "unused exception"),
        "the matched bare_paths exception is not flagged unused: {diags:?}"
    );
}

#[test]
fn exception_for_disabled_lint_is_not_flagged_unused() {
    let content = "---\n\
            exceptions:\n  \
              stale_references:\n    \
                \"gone.md\": \"deliberately dead\"\n\
            ---\n\
            Nothing references it.\n";
    let diags = diagnose_with_stale_policy(content, &[], StaleReferencePolicy::Disabled);
    assert!(
        !has_any(&diags, "unused exception"),
        "a disabled lint's exceptions are not flagged unused: {diags:?}"
    );
}

#[test]
fn stale_reference_message_points_at_config_help() {
    let diags = diagnose("See `gone/missing.md` for details.\n");
    assert!(
        has_matching(&diags, Severity::Warning, "lattice help config"),
        "the stale-reference message names `lattice help config`: {diags:?}"
    );
}

#[test]
fn make_it_a_link_message_names_both_escapes_and_config_help() {
    let diags = diagnose_with_files("See `other.md` for details.\n", &["other.md"]);
    assert!(
        has_matching(&diags, Severity::Hint, "drop the extension"),
        "the hint still offers drop-the-extension: {diags:?}"
    );
    assert!(
        has_matching(&diags, Severity::Hint, "except it with a reason"),
        "the hint names the frontmatter exception escape with its required reason (FU2): {diags:?}"
    );
    assert!(
        has_matching(&diags, Severity::Hint, "lattice help config"),
        "the hint points at `lattice help config`: {diags:?}"
    );
}

#[test]
fn stale_reference_message_frames_the_move_test() {
    let diags = diagnose("See `gone.md` here.\n");
    assert!(
        has_matching(&diags, Severity::Warning, "stale reference: `gone.md`"),
        "the stale-reference message still fires: {diags:?}"
    );
    assert!(
        has_matching(
            &diags,
            Severity::Warning,
            "would moving the target update this"
        ),
        "the stale-reference message frames the choice as the move test: {diags:?}"
    );
    assert!(
        has_matching(&diags, Severity::Warning, "lattice help config"),
        "the stale-reference message keeps the config pointer: {diags:?}"
    );
}

#[test]
fn make_it_a_link_message_frames_the_move_test() {
    let diags = diagnose_with_files("See `other.md` here.\n", &["other.md"]);
    assert!(
        has_matching(&diags, Severity::Hint, "backticked path `other.md`"),
        "the make-it-a-link hint still fires: {diags:?}"
    );
    assert!(
        has_matching(&diags, Severity::Hint, "would moving it update this"),
        "the make-it-a-link hint frames the choice as the move test: {diags:?}"
    );
    assert!(
        has_matching(&diags, Severity::Hint, "make it a link"),
        "the make-it-a-link hint keeps the link resolution: {diags:?}"
    );
    assert!(
        has_matching(&diags, Severity::Hint, "lattice help config"),
        "the make-it-a-link hint keeps the config pointer: {diags:?}"
    );
}

#[test]
fn bare_path_make_it_a_link_message_points_at_config_help() {
    let diags = diagnose_with_files("See docs/other.md for details.\n", &["docs/other.md"]);
    assert!(
        has_matching(&diags, Severity::Warning, "convert to a markdown link"),
        "the bare-path nudge still fires: {diags:?}"
    );
    assert!(
        has_matching(&diags, Severity::Warning, "lattice help config"),
        "the bare-path nudge points at `lattice help config`: {diags:?}"
    );
}

#[test]
fn quoted_path_message_points_at_config_help() {
    let diags = diagnose_with_files("See \"docs/other.md\" for details.\n", &["docs/other.md"]);
    assert!(
        has_matching(&diags, Severity::Hint, "quoted path"),
        "the quoted-path hint still fires: {diags:?}"
    );
    assert!(
        has_matching(&diags, Severity::Hint, "lattice help config"),
        "the quoted-path hint points at `lattice help config`: {diags:?}"
    );
}

#[test]
fn unused_exception_message_points_at_config_help() {
    let content = "---\n\
            exceptions:\n  \
              stale_references:\n    \
                \"gone.md\": \"hypothetical path in the worked example\"\n\
            ---\n\
            Nothing references it now.\n";
    let diags = diagnose_with_files(content, &[]);
    assert!(
        has_matching(&diags, Severity::Warning, "unused exception: `gone.md`",),
        "the unused-exception message still fires: {diags:?}"
    );
    assert!(
        has_matching(&diags, Severity::Warning, "lattice help config"),
        "the unused-exception message points at `lattice help config`: {diags:?}"
    );
}

#[test]
fn empty_reason_message_points_at_config_help() {
    let content = "---\n\
            exceptions:\n  \
              stale_references:\n    \
                \"gone.md\": \"\"\n\
            ---\n\
            See `gone.md` here.\n";
    let diags = diagnose_with_files(content, &[]);
    assert!(
        has_matching(&diags, Severity::Warning, "has no reason"),
        "the empty-reason message still fires: {diags:?}"
    );
    assert!(
        has_matching(&diags, Severity::Warning, "lattice help config"),
        "the empty-reason message points at `lattice help config`: {diags:?}"
    );
}

fn three_stale_with_count(count: &str) -> String {
    format!(
        "---\n\
             exceptions:\n  \
               stale_references:\n    \
                 \"{count}\": \"migration table — every path is a record, not a live reference\"\n\
             ---\n\
             See `a.md`, `b.md`, and `c.md`.\n"
    )
}

#[test]
fn count_key_suppresses_iff_residual_equals_n() {
    let config = Config::default();
    let (diags, sup) = diagnose_full(&three_stale_with_count("3"), &config, &[]);
    assert!(
        !has_any(&diags, "stale reference"),
        "a count-key of N == M suppresses the whole residual: {diags:?}"
    );
    assert!(
        !has_any(&diags, "expected"),
        "no drift warning when the count matches: {diags:?}"
    );
    let count_key = &sup.count_keys;
    assert_eq!(
        count_key.len(),
        1,
        "the matched count-key produces one ledger row: {sup:?}"
    );
    assert_eq!(
        count_key[0].counts.warnings, 3,
        "the ledger tallies the three suppressed warnings: {sup:?}"
    );
    assert_eq!(
        count_key[0].raw, "3",
        "the row carries the raw key: {sup:?}"
    );
}

#[test]
fn count_key_one_too_many_resurfaces_and_flags() {
    let config = Config::default();
    let (diags, sup) = diagnose_full(&three_stale_with_count("2"), &config, &[]);
    assert_eq!(
        count_matching(&diags, Severity::Warning, "stale reference: `"),
        3,
        "every residual diagnostic resurfaces on drift: {diags:?}"
    );
    assert!(
        has_matching(
            &diags,
            Severity::Warning,
            "expected 2 stale references here, found 3"
        ),
        "the drift warning names N and M: {diags:?}"
    );
    assert!(
        sup.count_keys.is_empty(),
        "a drifted count-key suppresses nothing, so no ledger row: {sup:?}"
    );
}

#[test]
fn count_key_one_too_few_resurfaces_and_flags() {
    let config = Config::default();
    let (diags, sup) = diagnose_full(&three_stale_with_count("4"), &config, &[]);
    assert_eq!(
        count_matching(&diags, Severity::Warning, "stale reference: `"),
        3,
        "every residual diagnostic resurfaces on drift: {diags:?}"
    );
    assert!(
        has_matching(
            &diags,
            Severity::Warning,
            "expected 4 stale references here, found 3"
        ),
        "the drift warning names N and M: {diags:?}"
    );
    assert!(
        sup.count_keys.is_empty(),
        "a drifted count-key suppresses nothing: {sup:?}"
    );
}

#[test]
fn count_key_and_literal_compose() {
    let content = "---\n\
            exceptions:\n  \
              stale_references:\n    \
                \"a.md\": \"the worked example path\"\n    \
                \"2\": \"the rest of the migration table\"\n\
            ---\n\
            See `a.md`, `b.md`, and `c.md`.\n";
    let config = Config::default();
    let (diags, sup) = diagnose_full(content, &config, &[]);
    assert!(
        !has_any(&diags, "stale reference"),
        "the literal carves one out and the count covers the rest: {diags:?}"
    );
    assert!(
        !has_any(&diags, "expected"),
        "no drift: the residual after the literal is exactly N: {diags:?}"
    );
    let ex = sup
        .exceptions
        .as_ref()
        .expect("the literal exception suppressed one");
    assert_eq!(
        ex.counts.warnings, 1,
        "the literal row tallies its one suppression: {sup:?}"
    );
    assert_eq!(ex.matched_entries, 1, "one literal entry matched: {sup:?}");
    assert_eq!(
        sup.count_keys.first().map(|c| c.counts.warnings),
        Some(2),
        "the count-key row tallies the residual of two: {sup:?}"
    );
}

#[test]
fn count_key_with_empty_reason_is_diagnosed() {
    let content = "---\n\
            exceptions:\n  \
              stale_references:\n    \
                \"3\": \"\"\n\
            ---\n\
            See `a.md`, `b.md`, and `c.md`.\n";
    let config = Config::default();
    let (diags, sup) = diagnose_full(content, &config, &[]);
    assert!(
        has_matching(&diags, Severity::Warning, "count-key `3`")
            && has_matching(&diags, Severity::Warning, "has no reason"),
        "an empty-reason count-key is diagnosed at the key: {diags:?}"
    );
    assert_eq!(
        count_matching(&diags, Severity::Warning, "stale reference: `"),
        3,
        "the residual resurfaces under an empty-reason count-key: {diags:?}"
    );
    assert!(
        sup.count_keys.is_empty(),
        "an empty-reason count-key suppresses nothing: {sup:?}"
    );
}

#[test]
fn count_key_of_zero_is_diagnosed() {
    let content = "---\n\
            exceptions:\n  \
              stale_references:\n    \
                \"0\": \"a reason\"\n\
            ---\n\
            See `a.md`.\n";
    let config = Config::default();
    let (diags, _sup) = diagnose_full(content, &config, &[]);
    assert!(
        has_matching(&diags, Severity::Warning, "must be at least 1"),
        "a zero count-key is diagnosed: {diags:?}"
    );
    assert_eq!(
        count_matching(&diags, Severity::Warning, "stale reference: `"),
        1,
        "the residual resurfaces under a zero count-key: {diags:?}"
    );
}

#[test]
fn count_key_under_disabled_lint_is_inert() {
    let mut config = Config::default();
    config.policy.stale_references = StaleReferencePolicy::Disabled;
    let (diags, sup) = diagnose_full(&three_stale_with_count("99"), &config, &[]);
    assert!(
        !has_any(&diags, "stale reference"),
        "a disabled lint emits no stale references: {diags:?}"
    );
    assert!(
        !has_any(&diags, "expected"),
        "a disabled lint's count-key raises no drift flag: {diags:?}"
    );
    assert!(
        sup.is_empty(),
        "a disabled-lint count-key suppresses nothing: {sup:?}"
    );
}

#[test]
fn count_key_shape_discrimination() {
    let content = "---\n\
            exceptions:\n  \
              stale_references:\n    \
                \"31.md\": \"a literal path-shaped key\"\n    \
                \"a/31.md\": \"another literal path-shaped key\"\n    \
                \"1\": \"the residual count sentinel\"\n\
            ---\n\
            See `31.md`, `a/31.md`, and `loose.md`.\n";
    let config = Config::default();
    let (diags, sup) = diagnose_full(content, &config, &[]);
    assert!(
        !has_any(&diags, "stale reference"),
        "the two literals carve out, the sentinel claims the rest: {diags:?}"
    );
    let ex = sup
        .exceptions
        .as_ref()
        .expect("the two path-shaped literals suppressed");
    assert_eq!(
        ex.matched_entries, 2,
        "`31.md` and `a/31.md` are literal entries, both matched: {sup:?}"
    );
    assert_eq!(
        sup.count_keys.first().map(|c| c.counts.warnings),
        Some(1),
        "the `1` sentinel claims the single residual: {sup:?}"
    );
}

#[test]
fn classify_028_lint_maps_each_message_family() {
    assert_eq!(
        classify_028_lint("stale reference: `gone.md` — no such markdown file"),
        Some(ExceptionLint::StaleReferences),
        "the stale-reference message maps to StaleReferences"
    );
    for bare in [
        "bare path `docs/x.md`: convert to a markdown link",
        "bare URL `https://x` : wrap in angle brackets",
        "quoted path `\"x.md\"`: use backticks",
        "backticked path `x.md` refers to an existing file",
    ] {
        assert_eq!(
            classify_028_lint(bare),
            Some(ExceptionLint::BarePaths),
            "a bare_paths-family message maps to BarePaths: {bare}"
        );
    }
    assert_eq!(
        classify_028_lint("empty heading"),
        None,
        "a non-028 message maps to neither lint"
    );
    assert_eq!(
        classify_028_lint("duplicate heading slug `x`"),
        None,
        "another non-028 message maps to neither lint"
    );
}

#[test]
fn artifact_name_resolving_draws_no_make_it_a_link_hint() {
    let config = config_with_artifacts(&["AGENTS.md"]);
    let (diags, sup) = diagnose_full("See `AGENTS.md` for the hooks.\n", &config, &["AGENTS.md"]);
    assert!(
        !has_any(&diags, "make it a link"),
        "a glossary artifact draws no make-it-a-link hint even when it resolves: {diags:?}"
    );
    assert!(
        !has_any(&diags, "AGENTS.md"),
        "no diagnostic mentions the artifact at all: {diags:?}"
    );
    assert_eq!(
        sup.artifacts.get("AGENTS.md").map(|c| c.hints),
        Some(1),
        "the swallowed hint is recorded in the ledger tally: {sup:?}"
    );
}

#[test]
fn artifact_name_dangling_draws_no_stale_reference() {
    let config = config_with_artifacts(&["GEMINI.md"]);
    let (diags, sup) = diagnose_full("Put hooks in `GEMINI.md`.\n", &config, &[]);
    assert!(
        !has_any(&diags, "stale reference"),
        "a glossary artifact draws no stale-reference diagnostic when it dangles: {diags:?}"
    );
    assert_eq!(
        sup.artifacts.get("GEMINI.md").map(|c| c.warnings),
        Some(1),
        "the swallowed stale-reference warning is recorded in the ledger tally: {sup:?}"
    );
}

#[test]
fn artifact_exact_match_only_path_qualified_still_flags() {
    let config = config_with_artifacts(&["AGENTS.md"]);
    let (diags, sup) = diagnose_full("See `dir/AGENTS.md`.\n", &config, &[]);
    assert!(
        has_matching(
            &diags,
            Severity::Warning,
            "stale reference: `dir/AGENTS.md`"
        ),
        "a path-qualified reference is not the bare artifact and still flags: {diags:?}"
    );
    assert!(
        sup.artifacts.is_empty(),
        "the path-qualified reference produced no artifact suppression: {sup:?}"
    );
}

#[test]
fn artifact_quoted_and_backticked_both_filtered() {
    let config = config_with_artifacts(&["AGENTS.md"]);
    let (diags, sup) = diagnose_full("Edit \"AGENTS.md\" and also `AGENTS.md`.\n", &config, &[]);
    assert!(
        !has_any(&diags, "AGENTS.md"),
        "neither the quoted nor the backticked artifact mention is flagged: {diags:?}"
    );
    assert_eq!(
        sup.artifacts.get("AGENTS.md").map(|c| c.warnings),
        Some(2),
        "both dark-matter mentions are tallied: {sup:?}"
    );
}

#[test]
fn artifact_filtered_before_count_key_residual() {
    let content = "---\n\
            exceptions:\n  \
              stale_references:\n    \
                \"2\": \"the two genuine dangling references\"\n\
            ---\n\
            See `AGENTS.md`, `a.md`, and `b.md`.\n";
    let config = config_with_artifacts(&["AGENTS.md"]);
    let (diags, sup) = diagnose_full(content, &config, &[]);
    assert!(
        !has_any(&diags, "stale reference"),
        "the count-key of 2 covers the two genuine refs; the artifact was filtered first: {diags:?}"
    );
    assert!(
        !has_any(&diags, "expected"),
        "no drift — the artifact never entered the residual, so the residual is exactly 2: {diags:?}"
    );
    assert_eq!(
        sup.count_keys.first().map(|c| c.counts.warnings),
        Some(2),
        "the count-key residual is the two genuine refs, not three: {sup:?}"
    );
    assert_eq!(
        sup.artifacts.get("AGENTS.md").map(|c| c.warnings),
        Some(1),
        "the artifact is tallied as its own source, not folded into the count-key: {sup:?}"
    );
}

#[test]
fn artifact_is_not_exceptable() {
    let content = "---\n\
            exceptions:\n  \
              stale_references:\n    \
                \"SKILL.md\": \"trying (wrongly) to except the artifact here\"\n\
            ---\n\
            See `SKILL.md`.\n";
    let config = config_with_artifacts(&["SKILL.md"]);
    let (diags, sup) = diagnose_full(content, &config, &[]);
    assert!(
        has_matching(&diags, Severity::Warning, "unused exception: `SKILL.md`"),
        "the exception keyed on the artifact matches nothing live (the glossary filtered it first): {diags:?}"
    );
    assert!(
        sup.exceptions.is_none(),
        "the artifact was not suppressed by the exception: {sup:?}"
    );
    assert_eq!(
        sup.artifacts.get("SKILL.md").map(|c| c.warnings),
        Some(1),
        "the artifact suppression is recorded under the artifact source: {sup:?}"
    );
}

#[test]
fn no_glossary_keeps_current_behaviour() {
    let config = Config::default();
    let (diags, sup) = diagnose_full("See `AGENTS.md`.\n", &config, &[]);
    assert!(
        has_matching(&diags, Severity::Warning, "stale reference: `AGENTS.md`"),
        "an empty glossary leaves the name to flag normally: {diags:?}"
    );
    assert!(
        sup.artifacts.is_empty(),
        "an empty glossary records no artifact suppression: {sup:?}"
    );
}

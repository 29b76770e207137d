//! TOML frontmatter.
use lattice::fm::{FmNode, FmValue, FrontmatterBlock};
use lattice::limits::MAX_FRONTMATTER_BYTES;
use lattice::span::Span;
use lattice::toml::parse_frontmatter_block;
use std::collections::BTreeMap;

/// The lists under `backlinks`, by predicate.
fn extract_backlinks(block: &FrontmatterBlock) -> BTreeMap<String, Vec<String>> {
    let mut found = BTreeMap::new();
    for node in predicates(block) {
        if let FmNode::Mapping { key, value: FmValue::FlowSequence { items, .. }, .. } = node {
            let targets = items.iter().map(|item| item.text.clone()).collect();
            found.insert(key.text.clone(), targets);
        }
    }
    found
}

/// The entries under `backlinks`.
fn predicates(block: &FrontmatterBlock) -> &[FmNode] {
    for node in &block.entries {
        if let FmNode::Mapping { key, value: FmValue::Mapping(children), .. } = node {
            if key.text == "backlinks" {
                return children;
            }
        }
    }
    &[]
}

/// The line on which a predicate of `backlinks` stands, from 1.
fn find_predicate_line(block: &FrontmatterBlock, predicate: &str, source: &str) -> usize {
    for node in predicates(block) {
        if let FmNode::Mapping { key, .. } = node {
            if key.text == predicate {
                return source[..key.span.start].matches('\n').count() + 1;
            }
        }
    }
    0
}

#[test]
fn no_toml_frontmatter() {
    let source = "# Just a heading\n";
    assert!(
        parse_frontmatter_block(source).is_none(),
        "no TOML frontmatter should return None"
    );
}

#[test]
fn yaml_delimiters_not_toml() {
    let source = "---\ntitle: test\n---\n";
    assert!(
        parse_frontmatter_block(source).is_none(),
        "YAML delimiters should not parse as TOML"
    );
}

#[test]
fn empty_toml_frontmatter() {
    let source = "+++\n+++\n# Heading\n";
    let block = parse_frontmatter_block(source).expect("should parse empty TOML frontmatter");
    assert!(
        block.entries.is_empty(),
        "empty TOML frontmatter should have no entries"
    );
    assert_eq!(
        block.span,
        Span::new(0, 8),
        "span should cover both delimiters"
    );
}

#[test]
fn toml_at_eof_no_trailing_newline() {
    let source = "+++\ntitle = \"test\"\n+++";
    let block = parse_frontmatter_block(source).expect("should parse TOML frontmatter at EOF");
    assert_eq!(block.entries.len(), 1, "should have one entry");
}

#[test]
fn bom_before_toml() {
    let source = "\u{FEFF}+++\ntitle = \"test\"\n+++\n";
    let block = parse_frontmatter_block(source).expect("should parse TOML with BOM");
    assert!(
        block.diagnostics.is_empty(),
        "BOM TOML should have no diagnostics"
    );
    assert_eq!(block.entries.len(), 1, "should have one entry");
    assert_eq!(block.span.start, 3, "span should start after BOM");
}

#[test]
fn bare_key_string_value() {
    let source = "+++\ntitle = \"My Document\"\nauthor = \"Test\"\n+++\n";
    let block = parse_frontmatter_block(source).expect("should parse");
    assert_eq!(block.entries.len(), 2, "should have two entries");

    if let FmNode::Mapping { key, value, .. } = &block.entries[0] {
        assert_eq!(key.text, "title", "first key");
        if let FmValue::Scalar(s) = value {
            assert_eq!(s.text, "My Document", "title value");
        } else {
            panic!("title value should be scalar");
        }
    } else {
        panic!("entry should be mapping");
    }
}

#[test]
fn integer_value() {
    let source = "+++\ncount = 42\n+++\n";
    let block = parse_frontmatter_block(source).expect("should parse");

    if let FmNode::Mapping { value, .. } = &block.entries[0] {
        if let FmValue::Scalar(s) = value {
            assert_eq!(s.text, "42", "integer value stored as text");
        } else {
            panic!("should be scalar");
        }
    } else {
        panic!("should be mapping");
    }
}

#[test]
fn float_value() {
    let source = "+++\npi = 3.14\n+++\n";
    let block = parse_frontmatter_block(source).expect("should parse");

    if let FmNode::Mapping { value, .. } = &block.entries[0] {
        if let FmValue::Scalar(s) = value {
            assert_eq!(s.text, "3.14", "float value");
        } else {
            panic!("should be scalar");
        }
    } else {
        panic!("should be mapping");
    }
}

#[test]
fn boolean_values() {
    let source = "+++\nenabled = true\ndisabled = false\n+++\n";
    let block = parse_frontmatter_block(source).expect("should parse");
    assert_eq!(block.entries.len(), 2, "two entries");

    if let FmNode::Mapping { value, .. } = &block.entries[0] {
        if let FmValue::Scalar(s) = value {
            assert_eq!(s.text, "true", "boolean true");
        } else {
            panic!("should be scalar");
        }
    } else {
        panic!("should be mapping");
    }
}

#[test]
fn quoted_key() {
    let source = "+++\n\"dotted.key\" = \"value\"\n+++\n";
    let block = parse_frontmatter_block(source).expect("should parse");

    if let FmNode::Mapping { key, .. } = &block.entries[0] {
        assert_eq!(key.text, "dotted.key", "quoted key preserved");
    } else {
        panic!("should be mapping");
    }
}

#[test]
fn literal_quoted_key() {
    let source = "+++\n'literal.key' = \"value\"\n+++\n";
    let block = parse_frontmatter_block(source).expect("should parse");

    if let FmNode::Mapping { key, .. } = &block.entries[0] {
        assert_eq!(key.text, "literal.key", "literal quoted key");
    } else {
        panic!("should be mapping");
    }
}

#[test]
fn dotted_key_expands() {
    let source = "+++\nbacklinks.superseded_by = [\"decisions/26.md\"]\n+++\n";
    let block = parse_frontmatter_block(source).expect("should parse");

    if let FmNode::Mapping { key, value, .. } = &block.entries[0] {
        assert_eq!(key.text, "backlinks", "outer key");
        if let FmValue::Mapping(children) = value {
            assert_eq!(children.len(), 1, "one nested key");
            if let FmNode::Mapping {
                key: inner_key,
                value: inner_value,
                ..
            } = &children[0]
            {
                assert_eq!(inner_key.text, "superseded_by", "inner key");
                assert!(
                    matches!(inner_value, FmValue::FlowSequence { .. }),
                    "inner value should be flow sequence"
                );
            } else {
                panic!("inner should be mapping");
            }
        } else {
            panic!("value should be mapping");
        }
    } else {
        panic!("should be mapping");
    }
}

#[test]
fn table_header() {
    let source = "+++\n[backlinks]\nsuperseded_by = [\"decisions/26.md\"]\n+++\n";
    let block = parse_frontmatter_block(source).expect("should parse");

    if let FmNode::Mapping { key, value, .. } = &block.entries[0] {
        assert_eq!(key.text, "backlinks", "table key");
        if let FmValue::Mapping(children) = value {
            assert_eq!(children.len(), 1, "one child");
            if let FmNode::Mapping { key: child_key, .. } = &children[0] {
                assert_eq!(child_key.text, "superseded_by", "child key");
            } else {
                panic!("child should be mapping");
            }
        } else {
            panic!("value should be mapping");
        }
    } else {
        panic!("should be mapping");
    }
}

#[test]
fn nested_table_header() {
    let source = "+++\n[backlinks.meta]\nkey = \"val\"\n+++\n";
    let block = parse_frontmatter_block(source).expect("should parse");

    if let FmNode::Mapping { key, value, .. } = &block.entries[0] {
        assert_eq!(key.text, "backlinks", "outer table key");
        if let FmValue::Mapping(children) = value {
            if let FmNode::Mapping {
                key: inner_key,
                value: inner_val,
                ..
            } = &children[0]
            {
                assert_eq!(inner_key.text, "meta", "inner table key");
                assert!(
                    matches!(inner_val, FmValue::Mapping(_)),
                    "inner value should be mapping"
                );
            } else {
                panic!("inner should be mapping");
            }
        } else {
            panic!("value should be mapping");
        }
    } else {
        panic!("should be mapping");
    }
}

#[test]
fn array_of_tables() {
    let source = "+++\n[[items]]\nname = \"a\"\n\n[[items]]\nname = \"b\"\n+++\n";
    let block = parse_frontmatter_block(source).expect("should parse");

    if let FmNode::Mapping { key, value, .. } = &block.entries[0] {
        assert_eq!(key.text, "items", "array-of-tables key");
        if let FmValue::Sequence(items) = value {
            assert_eq!(items.len(), 2, "two array-of-table entries");
        } else {
            panic!("value should be sequence");
        }
    } else {
        panic!("should be mapping");
    }
}

#[test]
fn inline_table() {
    let source = "+++\nmeta = { a = \"b\", c = \"d\" }\n+++\n";
    let block = parse_frontmatter_block(source).expect("should parse");

    if let FmNode::Mapping { value, .. } = &block.entries[0] {
        if let FmValue::Mapping(children) = value {
            assert_eq!(children.len(), 2, "two inline table entries");
        } else {
            panic!("value should be mapping");
        }
    } else {
        panic!("should be mapping");
    }
}

#[test]
fn inline_array() {
    let source = "+++\ntags = [\"rust\", \"lsp\", \"markdown\"]\n+++\n";
    let block = parse_frontmatter_block(source).expect("should parse");

    if let FmNode::Mapping { value, .. } = &block.entries[0] {
        if let FmValue::FlowSequence { items, .. } = value {
            assert_eq!(items.len(), 3, "three items");
            assert_eq!(items[0].text, "rust", "first item");
            assert_eq!(items[1].text, "lsp", "second item");
            assert_eq!(items[2].text, "markdown", "third item");
        } else {
            panic!("value should be flow sequence");
        }
    } else {
        panic!("should be mapping");
    }
}

#[test]
fn empty_inline_array() {
    let source = "+++\ntags = []\n+++\n";
    let block = parse_frontmatter_block(source).expect("should parse");

    if let FmNode::Mapping { value, .. } = &block.entries[0] {
        if let FmValue::FlowSequence { items, .. } = value {
            assert!(items.is_empty(), "should be empty");
        } else {
            panic!("value should be flow sequence");
        }
    } else {
        panic!("should be mapping");
    }
}

#[test]
fn basic_string_escapes() {
    let source = "+++\npath = \"line1\\nline2\\ttab\"\n+++\n";
    let block = parse_frontmatter_block(source).expect("should parse");

    if let FmNode::Mapping { value, .. } = &block.entries[0] {
        if let FmValue::Scalar(s) = value {
            assert_eq!(s.text, "line1\nline2\ttab", "escape sequences");
        } else {
            panic!("should be scalar");
        }
    } else {
        panic!("should be mapping");
    }
}

#[test]
fn literal_string() {
    let source = "+++\npath = 'C:\\Users\\test'\n+++\n";
    let block = parse_frontmatter_block(source).expect("should parse");

    if let FmNode::Mapping { value, .. } = &block.entries[0] {
        if let FmValue::Scalar(s) = value {
            assert_eq!(s.text, "C:\\Users\\test", "literal string no escapes");
        } else {
            panic!("should be scalar");
        }
    } else {
        panic!("should be mapping");
    }
}

#[test]
fn ml_basic_string() {
    let source = "+++\ndesc = \"\"\"\nline one\nline two\"\"\"\n+++\n";
    let block = parse_frontmatter_block(source).expect("should parse");

    if let FmNode::Mapping { value, .. } = &block.entries[0] {
        if let FmValue::Scalar(s) = value {
            assert_eq!(s.text, "line one\nline two", "multi-line basic string");
        } else {
            panic!("should be scalar");
        }
    } else {
        panic!("should be mapping");
    }
}

#[test]
fn ml_basic_string_line_continuation() {
    let source = "+++\ndesc = \"\"\"\nline one \\\n  continued\"\"\"\n+++\n";
    let block = parse_frontmatter_block(source).expect("should parse");

    if let FmNode::Mapping { value, .. } = &block.entries[0] {
        if let FmValue::Scalar(s) = value {
            assert_eq!(s.text, "line one continued", "line continuation");
        } else {
            panic!("should be scalar");
        }
    } else {
        panic!("should be mapping");
    }
}

#[test]
fn ml_literal_string() {
    let source = "+++\ndesc = '''\nline one\nline two'''\n+++\n";
    let block = parse_frontmatter_block(source).expect("should parse");

    if let FmNode::Mapping { value, .. } = &block.entries[0] {
        if let FmValue::Scalar(s) = value {
            assert_eq!(s.text, "line one\nline two", "multi-line literal string");
        } else {
            panic!("should be scalar");
        }
    } else {
        panic!("should be mapping");
    }
}

#[test]
fn comments_recognized() {
    let source = "+++\n# a comment\ntitle = \"test\" # inline comment\n# another\n+++\n";
    let block = parse_frontmatter_block(source).expect("should parse");
    assert_eq!(block.entries.len(), 1, "comments should be skipped");
}

#[test]
fn backlinks_from_toml() {
    let source = "+++\n[backlinks]\nsuperseded_by = [\"decisions/26.md\"]\namended_by = [\"decisions/26.md\", \"tickets/14h.md\"]\n+++\n";
    let block = parse_frontmatter_block(source).expect("should parse");
    let bl = extract_backlinks(&block);

    assert_eq!(bl.len(), 2, "two predicates");
    assert_eq!(
        bl.get("superseded_by"),
        Some(&vec!["decisions/26.md".to_string()]),
        "superseded_by"
    );
    assert_eq!(
        bl.get("amended_by"),
        Some(&vec![
            "decisions/26.md".to_string(),
            "tickets/14h.md".to_string()
        ]),
        "amended_by"
    );
}

#[test]
fn backlinks_dotted_key() {
    let source = "+++\nbacklinks.superseded_by = [\"decisions/26.md\"]\n+++\n";
    let block = parse_frontmatter_block(source).expect("should parse");
    let bl = extract_backlinks(&block);

    assert_eq!(
        bl.get("superseded_by"),
        Some(&vec!["decisions/26.md".to_string()]),
        "dotted key backlinks"
    );
}

#[test]
fn predicate_line_from_toml() {
    let source = "+++\n[backlinks]\nsuperseded_by = [\"a.md\"]\namended_by = [\"b.md\"]\n+++\n";
    let block = parse_frontmatter_block(source).expect("should parse");

    assert_eq!(
        find_predicate_line(&block, "superseded_by", source),
        3,
        "superseded_by on line 3"
    );
    assert_eq!(
        find_predicate_line(&block, "amended_by", source),
        4,
        "amended_by on line 4"
    );
}

#[test]
fn crlf_line_endings() {
    let source = "+++\r\n[backlinks]\r\nsuperseded_by = [\"a.md\"]\r\n+++\r\n";
    let block = parse_frontmatter_block(source).expect("should parse CRLF");
    let bl = extract_backlinks(&block);
    assert_eq!(
        bl.get("superseded_by"),
        Some(&vec!["a.md".to_string()]),
        "CRLF backlinks"
    );
}

#[test]
fn missing_equals() {
    let source = "+++\ntitle \"test\"\nother = \"ok\"\n+++\n";
    let block = parse_frontmatter_block(source).expect("should parse");
    assert!(
        block
            .diagnostics
            .iter()
            .any(|d| d.message.contains("expected '='")),
        "should flag missing ="
    );
    assert_eq!(
        block.entries.len(),
        1,
        "should recover and parse valid entry"
    );
}

#[test]
fn unclosed_basic_string() {
    let source = "+++\ntitle = \"unclosed\n+++\n";
    let block = parse_frontmatter_block(source).expect("should parse");
    assert!(
        block
            .diagnostics
            .iter()
            .any(|d| d.message.contains("unclosed basic string")),
        "should flag unclosed string"
    );
}

#[test]
fn unclosed_inline_array() {
    let source = "+++\ntags = [\"a\", \"b\"\n+++\n";
    let block = parse_frontmatter_block(source).expect("should parse");
    assert!(
        block
            .diagnostics
            .iter()
            .any(|d| d.message.contains("unclosed inline array")),
        "should flag unclosed array"
    );
}

#[test]
fn unclosed_inline_table() {
    let source = "+++\nmeta = { a = \"b\"\n+++\n";
    let block = parse_frontmatter_block(source).expect("should parse");
    assert!(
        block
            .diagnostics
            .iter()
            .any(|d| d.message.contains("unclosed inline table")),
        "should flag unclosed table"
    );
}

#[test]
fn duplicate_key_flagged() {
    let source = "+++\ntitle = \"a\"\ntitle = \"b\"\n+++\n";
    let block = parse_frontmatter_block(source).expect("should parse");
    assert!(
        block
            .diagnostics
            .iter()
            .any(|d| d.message.contains("duplicate key")),
        "should flag duplicate key"
    );
    assert_eq!(block.entries.len(), 1, "first entry kept");
}

#[test]
fn unicode_escape_4() {
    let source = "+++\nval = \"\\u0041\"\n+++\n";
    let block = parse_frontmatter_block(source).expect("should parse");

    if let FmNode::Mapping { value, .. } = &block.entries[0] {
        if let FmValue::Scalar(s) = value {
            assert_eq!(s.text, "A", "\\u0041 should be 'A'");
        } else {
            panic!("should be scalar");
        }
    } else {
        panic!("should be mapping");
    }
}

#[test]
fn unicode_escape_8() {
    let source = "+++\nval = \"\\U0001F600\"\n+++\n";
    let block = parse_frontmatter_block(source).expect("should parse");

    if let FmNode::Mapping { value, .. } = &block.entries[0] {
        if let FmValue::Scalar(s) = value {
            assert_eq!(s.text, "\u{1F600}", "\\U0001F600 should be grinning face");
        } else {
            panic!("should be scalar");
        }
    } else {
        panic!("should be mapping");
    }
}

#[test]
fn deeply_nested_inline_arrays_hit_limit() {
    let source = format!("+++\nx = {}{}\n+++\n", "[".repeat(2_000), "]".repeat(2_000));
    let block = parse_frontmatter_block(&source).expect("frontmatter should parse");
    assert!(
        block
            .diagnostics
            .iter()
            .any(|d| d.message.contains("TOML nesting exceeds")),
        "expected a TOML nesting diagnostic: {:?}",
        block.diagnostics
    );
}

#[test]
fn deeply_nested_inline_tables_hit_limit() {
    let source = format!(
        "+++\nx = {}1{}\n+++\n",
        "{ a = ".repeat(2_000),
        " }".repeat(2_000)
    );
    let block = parse_frontmatter_block(&source).expect("frontmatter should parse");
    assert!(
        block
            .diagnostics
            .iter()
            .any(|d| d.message.contains("TOML nesting exceeds")),
        "expected a TOML nesting diagnostic: {:?}",
        block.diagnostics
    );
}

#[test]
fn oversize_frontmatter_is_skipped() {
    let big = "a = 1\n".repeat(MAX_FRONTMATTER_BYTES / 6 + 10);
    let source = format!("+++\n{big}+++\n");
    let block = parse_frontmatter_block(&source).expect("frontmatter block returned");
    assert!(
        block.entries.is_empty(),
        "oversize frontmatter is not parsed"
    );
    assert!(
        block
            .diagnostics
            .iter()
            .any(|d| d.message.contains("exceeds the")),
        "expected an oversize diagnostic: {:?}",
        block.diagnostics
    );
}

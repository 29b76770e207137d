# Lattice

Lattice lints projects of interlinked markdown documents and keeps the state of
a language server for them. This crate is the part of it that decides: what is
said of a document, of the links between documents, and when an editor is told.
It is written in Verus, and every function carries a contract that is proved.

## Layout

- `src/text.rs`, `lines.rs`, `path.rs`, `components.rs`, `order.rs`, `span.rs`,
  `uri.rs`, `sorted.rs`, `pathmap.rs`: text as UTF-8 bytes, lines, paths, their
  components and their order, spans, `file://` URIs, ordered maps and maps keyed by paths. Two texts are the same
  path exactly if their components are the same.
- `src/block.rs`, `fm.rs`, `config.rs`, `limits.rs`, `workspace.rs`, `overrides.rs`:
  what a parsed document, its frontmatter, the configuration and a workspace hold.
- `src/toml/`: TOML frontmatter, from its grammar to its parser.
- `src/structural/`: checks on one document, and the exceptions that hold them back.
- `src/validation.rs`, `backlinks.rs`, `connectivity.rs`, `reciprocity.rs`,
  `targets.rs`: checks on the links of a project.
- `src/store.rs`: the two tiers of documents, as saved and as open in an editor.
- `src/server/`: scopes, buffers, folders, publication, renames and semantic tokens.
- `app/`: what touches the disk and the connection, event by event.

Properties that hold across functions are proof functions whose names start with
`law_`. They stand beside what they speak of, or in a `promises` module.

## Outside the library

The library takes what only the disk can tell as values: which files exist, what
they hold, which directories are repositories. `app/` reads these and hands them
over. The markdown parser is not part of this crate; its trees come in as
`block::Tree`.

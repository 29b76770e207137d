//! Markdown linting and language-server state for interlinked documents.

pub mod backlinks;
pub mod block;
pub mod components;
pub mod config;
pub mod connectivity;
pub mod diagnostic;
pub mod fm;
pub mod limits;
pub mod lines;
pub mod link_laws;
pub mod order;
pub mod overrides;
pub mod path;
pub mod path_laws;
pub mod pathmap;
pub mod reciprocity;
pub mod server;
pub mod sorted;
pub mod span;
pub mod store;
pub mod structural;
pub mod targets;
pub mod text;
pub mod toml;
pub mod uri;
pub mod validation;
pub mod workspace;

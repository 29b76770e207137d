//! What an editor is served: positions, tokens, renames, the open documents and
//! the diagnostics that are sent.
pub mod buffers;
pub mod diff;
pub mod emphasis;
pub mod folders;
pub mod freshness;
pub mod markers;
pub mod moves;
pub mod outbox;
pub mod passes;
pub mod position;
pub mod promises;
pub mod publish;
pub mod rename;
pub mod rows;
pub mod scope_laws;
pub mod scope_promises;
pub mod scopes;
pub mod semantic_tokens;
pub mod shown;
pub mod upkeep;
pub mod workspaces;

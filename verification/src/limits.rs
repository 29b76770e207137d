//! Limits on what the parsers take on.
use vstd::prelude::*;

verus! {

/// How deep frontmatter values may nest.
pub const MAX_FRONTMATTER_NESTING: usize = 64;

/// How large a frontmatter block may be, in bytes.
pub const MAX_FRONTMATTER_BYTES: usize = 1048576;

} // verus!

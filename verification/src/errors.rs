//! The error values the pipeline can surface: structural violations in a
//! source text, and a root that cannot be laid out.

use vstd::prelude::*;

verus! {

/// A structural violation in an HTML or CSS source, with the cursor
/// position at which it was found.
#[derive(Debug, PartialEq, Eq, Copy, Clone, Structural)]
pub struct ParseError {
    pub pos: usize,
}

/// The styled root cannot be laid out: its display kind is `none`.
#[derive(Debug, PartialEq, Eq, Copy, Clone, Structural)]
pub struct LayoutError {}

} // verus!

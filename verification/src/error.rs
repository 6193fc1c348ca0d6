//! The engine's error taxonomy.

use vstd::prelude::*;

verus! {

/// Everything that a board operation can reject.
///
/// Every error here is a precondition violation by the caller: the engine
/// rejects the call before mutating any state, so a caller that sees one of
/// these can treat it as fatal without risking an inconsistent board.
#[derive(Debug, Clone, Copy, PartialEq, Eq)]
pub enum Error {
    /// A coordinate resolved outside the grid.
    GetTile((usize, usize)),
    /// The requested board shape is impossible: zero rows or columns, more
    /// mines than tiles, or a tile count that does not fit in `usize`.
    InvalidConfig,
}

} // verus!

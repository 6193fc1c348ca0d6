//! A minesweeper board engine.
//!
//! The engine owns the grid state: it places mines, precomputes each tile's
//! adjacent-mine count, and implements the flood-fill reveal and flagging
//! rules of the game. Rendering and input handling live outside the engine
//! and drive it through a small synchronous API.

pub mod bits;
pub mod error;
pub mod grid;
pub mod model;
pub mod rng;
pub mod sweep;
pub mod text;

use vstd::prelude::*;

verus! {

} // verus!

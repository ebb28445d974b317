//! Core engine for a falling-block stacking game: board model with
//! incremental Zobrist hashing, reachability-aware move generation,
//! pose-to-action path synthesis, and a fixed-capacity transposition table.
//!
//! The board is a 22-row by 10-column grid. A piece is one of 7 kinds, each
//! with 1, 2 or 4 rotation states; rotations apply per-transition kick
//! offsets. All game rules live here; the surrounding process (protocol
//! loop, network evaluator) consumes these types through plain values.

pub mod codec;
pub mod grid;
pub mod moves;
pub mod pieces;
pub mod pos;
pub mod reach;
pub mod rng;
pub mod transposition;
pub mod zobrist;

use vstd::prelude::*;

verus! {

/// Errors of the engine core. Game over is reported by `Position::apply_move`
/// returning `None` and is a distinct, expected outcome, not an error.
#[derive(Clone, Copy, PartialEq, Eq, Structural, Debug)]
pub enum EngineError {
    /// A textual position encoding failed to parse.
    MalformedEncoding,
    /// A lock pose judged legal could not be connected to the spawn pose.
    Unreachable,
}

} // verus!

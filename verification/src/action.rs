//! What one round of input asks the application to do.

use vstd::prelude::*;

use crate::board::Board;

verus! {

/// A player's request, as the input layer reports it to the main loop.
pub enum PicrossAction {
    NoOp,
    Quit,
    /// Open the puzzle file with this name.
    New(String),
    Undo,
    Redo,
    /// Replace the current board with an edited copy.
    Update(Board),
    /// Run one autofill pass over the current board.
    AutoFill,
}

} // verus!

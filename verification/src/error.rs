//! The errors of the engine and of the grid.

use vstd::prelude::*;

verus! {

/// Why the engine refuses a grid or a letter.
#[derive(Clone, Copy, Debug, PartialEq, Eq)]
pub enum EngineError {
    /// The letter is outside A–Z, or no word left to the cell's slots has it there.
    InvalidLetter,
    /// The cell has a letter already.
    AlreadyChosen,
    /// The letter leaves one of the cell's slots without a word.
    DeadEnd,
    /// Two cells of the grid have the same coordinates, or a slot has a length that no
    /// word of the dictionary has.
    InvalidGrid,
}

} // verus!

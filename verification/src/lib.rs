//! Crossword grid filling: a constraint-propagating backtracking search over
//! word slots, with the sorted-id stream operators and letter statistics it
//! is built on.
//!
//! A grid is a set of open squares. Its slots are the maximal runs of squares,
//! across and down; a fill puts a letter in every square so that every slot
//! reads a word of the dictionary, and no two slots the same word.
//!
//! - `letters`: letter indices, sets of letters, letter histograms.
//! - `skip_iter`: lazy streams over sorted id lists: intersection, difference,
//!   filter, and seek.
//! - `dictionary`, `indices`: the word store, its posting lists by length and by
//!   (length, position, letter), and the registry of words in use.
//! - `line`: the state of one slot: its words and their histograms.
//! - `puzzle`: the slots of a grid, and the places of its cells in them.
//! - `model`, `prefilter`, `search`: the search state as a mathematical value,
//!   the rules that change it (commit, undo, pre-filter, search), and the laws
//!   of those rules.
//! - `queue`: the queue of cells by tightness, kept by the `priority_queue` crate.
//! - `engine`: the state in memory and the search on it.
//! - `grid`: grids, their shapes, and filling them.
//! - `control`: what the keys of the front end do.
//! - `error`: the errors.

pub mod control;
pub mod dictionary;
pub mod engine;
pub mod error;
pub mod grid;
pub mod indices;
pub mod letters;
pub mod line;
pub mod model;
pub mod prefilter;
pub mod puzzle;
pub mod queue;
pub mod search;
pub mod skip_iter;

//! A crossword-grid engine: a square grid of blockers and letter cells from
//! which clue numbering, across and down entries and intra-entry links are
//! derived, kept consistent across every edit, with a solved-state check and a
//! round-trippable persisted form.

pub mod builder;
pub mod grid;
pub mod json;
pub mod laws;
mod lemmas;
pub mod ops;
pub mod oracle;
pub mod persist;
pub mod text;

pub use grid::{
    match_puzzle_dim, EntryVariant, Puzzle, PuzzleEntry, PuzzleType, Square, SquareContents,
    SquareModifier,
};
pub use persist::{LoadError, LoadedDoc, SavedPuzzle};

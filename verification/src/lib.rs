//! A constraint-propagation solver for variant Sudoku puzzles on a 9x9 grid.
//!
//! A [`SudokuGrid`] holds the 81 cells, a per-cell candidate map, and an
//! ordered list of [`SudokuVariant`] constraints; a [`Solver`] fills the grid
//! by most-constrained-cell backtracking search with candidate propagation.

mod combos;
mod digits;
mod errors;
mod grid;
pub mod laws;
mod parse;
mod possmap;
mod solver;
mod strings;
mod variant;

pub use digits::all_possibilities;
pub use errors::VariantContradiction;
pub use grid::SudokuGrid;
pub use parse::{parse_positions, parse_puzzle};
pub use possmap::PossibilityMap;
pub use solver::Solver;
pub use variant::arrow::Arrow;
pub use variant::diagonal::Diagonal;
pub use variant::dispatch::SudokuVariant;
pub use variant::entropic::Entropic;
pub use variant::german_whisper::GermanWhisper;
pub use variant::killer::KillerCage;
pub use variant::king::King;
pub use variant::knight::Knight;
pub use variant::kropki::KropkiDot;
pub use variant::nabner::Nabner;
pub use variant::quadruple::QuadrupleCircle;
pub use variant::region_sum::RegionSum;
pub use variant::renban::Renban;
pub use variant::shaded::{Shaded, Shape};
pub use variant::thermometer::Thermometer;
pub use variant::xv::XVDot;

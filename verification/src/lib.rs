//! A genetic-algorithm solver for color nonogram puzzles.
//!
//! A nonogram is a grid logic puzzle: every row and every column carries a
//! list of run-length-and-color constraints, and the task is to color the
//! grid so that each line's maximal runs of identical nonzero colors match
//! its list. The solver keeps a population of candidate grids that satisfy
//! the row constraints by construction, and searches for one whose derived
//! column constraints match the target as well.

pub mod definitions;
pub mod evolutive;
pub mod genetic;
pub mod palette;
pub mod puzzles;
pub mod rle;
pub mod rng;
pub mod slide;
pub mod solution;

pub use definitions::NonogramData;
pub use definitions::NonogramFile;
pub use definitions::NonogramPalette;
pub use definitions::NonogramPuzzle;
pub use definitions::NonogramSegment;
pub use definitions::NonogramSolution;
pub use definitions::BACKGROUND;
pub use evolutive::anova;
pub use evolutive::evolutive_search;
pub use evolutive::solve_nonogram;
pub use evolutive::History;
pub use evolutive::SweepChoice;
pub use puzzles::tree_empty_nonogram_solution;
pub use puzzles::tree_nonogram_file;
pub use puzzles::tree_nonogram_palette;
pub use puzzles::tree_nonogram_puzzle;
pub use puzzles::LEAVES;
pub use puzzles::WOOD;

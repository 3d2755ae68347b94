//! The data model: segments, puzzles, solution grids, palettes.

use crate::rle::{rle, valid_line};
use vstd::prelude::*;

verus! {

/// Index of the background color in any palette; a cell holding this value
/// is empty and never contributes a segment to a line's constraints.
pub const BACKGROUND: usize = 0;

/// One maximal run of a single color along a row or a column: its palette
/// color index and its length in cells.
#[derive(Clone, Copy, PartialEq, Eq, Structural, Debug)]
pub struct NonogramSegment {
    /// The color index of the segment, corresponding to a palette entry.
    pub color: usize,
    /// The length of the segment in cells.
    pub length: usize,
}

impl NonogramSegment {
    /// The segment as a mathematical (color, length) pair.
    pub open spec fn view_pair(self) -> (int, int) {
        (self.color as int, self.length as int)
    }
}

/// The (color, length) pairs of a sequence of segments.
pub open spec fn segs_view(v: Seq<NonogramSegment>) -> Seq<(int, int)> {
    v.map_values(|g: NonogramSegment| g.view_pair())
}


/// The complete statement of a puzzle: the grid dimensions and the
/// constraint list of every row and every column.
#[derive(Clone, PartialEq, Debug)]
pub struct NonogramPuzzle {
    /// The number of rows in the grid.
    pub rows: usize,
    /// The number of columns in the grid.
    pub cols: usize,
    /// Constraints for each row, specifying the segments in that row.
    pub row_constraints: Vec<Vec<NonogramSegment>>,
    /// Constraints for each column, specifying the segments in that column.
    pub col_constraints: Vec<Vec<NonogramSegment>>,
}

impl NonogramPuzzle {
    /// The constraint list of row `i`, as (color, length) pairs.
    pub open spec fn row_list(self, i: int) -> Seq<(int, int)> {
        segs_view(self.row_constraints@[i]@)
    }

    /// The constraint list of column `j`, as (color, length) pairs.
    pub open spec fn col_list(self, j: int) -> Seq<(int, int)> {
        segs_view(self.col_constraints@[j]@)
    }

    /// A well-formed puzzle: positive dimensions, one constraint list per
    /// row and per column, every list realizable within its line, and a
    /// grid small enough that even a sum of two scores fits in `usize`.
    pub open spec fn wf(self) -> bool {
        &&& self.rows >= 1
        &&& self.cols >= 1
        &&& self.row_constraints@.len() == self.rows
        &&& self.col_constraints@.len() == self.cols
        &&& forall|i: int|
            0 <= i < self.rows ==> valid_line(#[trigger] self.row_list(i), self.cols as int)
        &&& forall|j: int|
            0 <= j < self.cols ==> valid_line(#[trigger] self.col_list(j), self.rows as int)
        &&& self.rows * self.cols <= usize::MAX / 4
    }
}

/// A candidate or final coloring of the grid: ordered rows of ordered
/// color indices, `0` being the background.
#[derive(Clone, Debug)]
pub struct NonogramSolution {
    /// The solution grid, where each cell contains a color index.
    pub solution_grid: Vec<Vec<usize>>,
}

impl NonogramSolution {
    /// The grid as a sequence of rows, each a sequence of color indices.
    pub open spec fn grid(self) -> Seq<Seq<usize>> {
        self.solution_grid@.map_values(|r: Vec<usize>| r@)
    }

    /// A well-formed grid: at least one row, and rectangular.
    pub open spec fn wf(self) -> bool {
        &&& self.grid().len() >= 1
        &&& forall|i: int|
            0 <= i < self.grid().len() ==> (#[trigger] self.grid()[i]).len()
                == self.grid()[0].len()
    }

    /// The grid realizes each of the puzzle's row constraints exactly;
    /// this is the representation invariant that the chromosome sampler
    /// establishes and every genetic operator preserves.
    pub open spec fn row_valid(self, p: NonogramPuzzle) -> bool {
        &&& self.grid().len() == p.rows
        &&& forall|i: int|
            0 <= i < p.rows ==> (#[trigger] self.grid()[i]).len() == p.cols
        &&& forall|i: int| 0 <= i < p.rows ==> rle(#[trigger] self.grid()[i]) == p.row_list(i)
    }
}

/// The column `j` of a grid, read top to bottom.
pub open spec fn col_seq(g: Seq<Seq<usize>>, j: int) -> Seq<usize> {
    Seq::new(g.len(), |i: int| g[i][j])
}

/// A palette: the colors available to a puzzle, as hexadecimal strings,
/// and the currently selected brush color.
#[derive(Clone)]
pub struct NonogramPalette {
    /// The collection of colors in the palette, represented as hexadecimal strings.
    pub color_palette: Vec<String>,
    /// The index of the currently selected brush color.
    pub brush: usize,
}

/// The contents of a puzzle file: a solution grid together with the
/// palette that gives its color indices meaning. Constraints are not
/// stored; they are derivable from the solution, and the reverse is not
/// true.
#[derive(Clone)]
pub struct NonogramFile {
    /// The complete solution grid for the puzzle.
    pub solution: NonogramSolution,
    /// The color palette associated with the puzzle.
    pub palette: NonogramPalette,
}

/// Metadata and display state for a puzzle being edited or solved.
#[derive(Clone)]
pub struct NonogramData {
    /// The name of the file containing the puzzle.
    pub filename: String,
    /// The size of each block in pixels, for display purposes.
    pub block_size: usize,
    /// Whether the puzzle has been completed.
    pub completed: bool,
}

} // verus!

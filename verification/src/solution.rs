//! Reading a solution grid: its dimensions and the constraint lists its
//! rows and columns realize, by run-length-encoding each line.

use crate::definitions::{
    col_seq, segs_view, NonogramPuzzle, NonogramSegment, NonogramSolution, BACKGROUND,
};
use crate::rle::{
    lemma_rle_append_run, lemma_rle_append_zeros, lemma_rle_bounds, lemma_rle_min_width, rle,
    run_of, valid_line,
};
use vstd::prelude::*;

verus! {

/// The constraint list one line realizes: the (color, length) pairs of its
/// maximal nonzero runs, in order, exactly `rle` of the line.
fn line_to_segments(line: &Vec<usize>) -> (segs: Vec<NonogramSegment>)
    ensures
        segs_view(segs@) == rle(line@),
{
    let mut segs: Vec<NonogramSegment> = Vec::new();
    let mut previous_segment_color: usize = 0;
    let mut segment_length: usize = 0;
    let ghost mut j: int = 0;
    let n = line.len();
    let mut i: usize = 0;
    while i < n
        invariant
            n == line@.len(),
            0 <= i <= n,
            i == 0 ==> previous_segment_color == 0 && segment_length == 0 && j == 0
                && segs@.len() == 0,
            i > 0 ==> 0 <= j < i && segment_length == i - j,
            i > 0 ==> previous_segment_color == line@[i - 1],
            i > 0 ==> forall|m: int| j <= m < i ==> line@[m] == previous_segment_color,
            i > 0 ==> (j == 0 || line@[j - 1] != previous_segment_color),
            segs_view(segs@) == rle(line@.take(j)),
        decreases n - i,
    {
        let segment_color = line[i];
        if segment_color == previous_segment_color {
            segment_length += 1;
        } else {
            if segment_length != 0 && previous_segment_color != 0 {
                proof {
                    assert(line@.take(i as int) =~= line@.take(j) + run_of(
                        previous_segment_color,
                        i - j,
                    ));
                    lemma_rle_append_run(line@.take(j), previous_segment_color, i - j);
                }
                segs.push(
                    NonogramSegment { color: previous_segment_color, length: segment_length },
                );
                proof {
                    assert(segs_view(segs@) =~= rle(line@.take(i as int)));
                }
            } else {
                proof {
                    if i > 0 {
                        assert(line@.take(i as int) =~= line@.take(j) + run_of(0, i - j));
                        lemma_rle_append_zeros(line@.take(j), i - j);
                    } else {
                        assert(line@.take(0) =~= line@.take(j));
                    }
                }
            }
            previous_segment_color = segment_color;
            segment_length = 1;
            proof {
                j = i as int;
            }
        }
        i += 1;
    }
    if segment_length != 0 && previous_segment_color != 0 {
        proof {
            assert(line@.take(n as int) =~= line@.take(j) + run_of(previous_segment_color, n - j));
            lemma_rle_append_run(line@.take(j), previous_segment_color, n - j);
        }
        segs.push(NonogramSegment { color: previous_segment_color, length: segment_length });
        proof {
            assert(segs_view(segs@) =~= rle(line@.take(n as int)));
        }
    } else {
        proof {
            if n > 0 {
                assert(line@.take(n as int) =~= line@.take(j) + run_of(0, n - j));
                lemma_rle_append_zeros(line@.take(j), n - j);
            } else {
                assert(line@.take(0int) =~= line@.take(j));
            }
        }
    }
    proof {
        assert(line@.take(n as int) =~= line@);
    }
    segs
}

impl NonogramSolution {
    /// The number of rows in the solution grid.
    pub fn rows(&self) -> (r: usize)
        ensures
            r == self.grid().len(),
    {
        self.solution_grid.len()
    }

    /// The number of columns in the solution grid, read off its first row.
    pub fn cols(&self) -> (r: usize)
        requires
            self.grid().len() >= 1,
        ensures
            r == self.grid()[0].len(),
    {
        self.solution_grid[0].len()
    }

    /// The constraint list every row realizes: row `i` of the result is
    /// the run-length encoding of row `i` of the grid.
    pub fn row_constraints(&self) -> (r: Vec<Vec<NonogramSegment>>)
        ensures
            r@.len() == self.grid().len(),
            forall|i: int|
                0 <= i < r@.len() ==> segs_view(#[trigger] r@[i]@) == rle(self.grid()[i]),
    {
        let mut row_constraints: Vec<Vec<NonogramSegment>> = Vec::new();
        let n = self.solution_grid.len();
        let mut i: usize = 0;
        while i < n
            invariant
                n == self.grid().len(),
                0 <= i <= n,
                row_constraints@.len() == i,
                forall|k: int|
                    0 <= k < i ==> segs_view(#[trigger] row_constraints@[k]@) == rle(
                        self.grid()[k],
                    ),
            decreases n - i,
        {
            let segs = line_to_segments(&self.solution_grid[i]);
            row_constraints.push(segs);
            i += 1;
        }
        row_constraints
    }

    /// The constraint list every column realizes: column `j` of the result
    /// is the run-length encoding of column `j` of the grid, read top to
    /// bottom.
    pub fn col_constraints(&self) -> (r: Vec<Vec<NonogramSegment>>)
        requires
            self.wf(),
        ensures
            r@.len() == self.grid()[0].len(),
            forall|j: int|
                0 <= j < r@.len() ==> segs_view(#[trigger] r@[j]@) == rle(
                    col_seq(self.grid(), j),
                ),
    {
        let mut col_constraints: Vec<Vec<NonogramSegment>> = Vec::new();
        let rows = self.rows();
        let cols = self.cols();
        let mut j: usize = 0;
        while j < cols
            invariant
                self.wf(),
                rows == self.grid().len(),
                cols == self.grid()[0].len(),
                0 <= j <= cols,
                col_constraints@.len() == j,
                forall|k: int|
                    0 <= k < j ==> segs_view(#[trigger] col_constraints@[k]@) == rle(
                        col_seq(self.grid(), k),
                    ),
            decreases cols - j,
        {
            let mut column: Vec<usize> = Vec::new();
            let mut i: usize = 0;
            while i < rows
                invariant
                    self.wf(),
                    rows == self.grid().len(),
                    cols == self.grid()[0].len(),
                    0 <= j < cols,
                    0 <= i <= rows,
                    column@.len() == i,
                    forall|m: int| 0 <= m < i ==> column@[m] == self.grid()[m][j as int],
                decreases rows - i,
            {
                proof {
                    assert(self.grid()[i as int].len() == cols);
                }
                column.push(self.solution_grid[i][j]);
                i += 1;
            }
            proof {
                assert(column@ =~= col_seq(self.grid(), j as int));
            }
            let segs = line_to_segments(&column);
            col_constraints.push(segs);
            j += 1;
        }
        col_constraints
    }
}

/// Whether `coord` lies on the axis-aligned stroke from `start` to `end`:
/// on the horizontal stroke through `start`'s row when the span is wider
/// than tall, else on the vertical stroke through `start`'s column.
pub open spec fn in_line_spec(start: (usize, usize), end: (usize, usize), coord: (usize, usize)) -> bool {
    let dy = vstd::math::abs(start.0 - end.0);
    let dx = vstd::math::abs(start.1 - end.1);
    if dx >= dy {
        coord.0 == start.0 && vstd::math::min(start.1 as int, end.1 as int) <= coord.1
            <= vstd::math::max(start.1 as int, end.1 as int)
    } else {
        coord.1 == start.1 && vstd::math::min(start.0 as int, end.0 as int) <= coord.0
            <= vstd::math::max(start.0 as int, end.0 as int)
    }
}

impl NonogramSolution {
    /// Paints the stroke from `start` to `end` with one color: the wider
    /// of the two spans decides whether the horizontal stroke through
    /// `start`'s row or the vertical stroke through `start`'s column is
    /// filled; every other cell is untouched.
    pub fn draw_line(&mut self, start: (usize, usize), end: (usize, usize), color: usize)
        requires
            old(self).wf(),
            start.0 < old(self).grid().len(),
            end.0 < old(self).grid().len(),
            start.1 < old(self).grid()[0].len(),
            end.1 < old(self).grid()[0].len(),
        ensures
            final(self).grid().len() == old(self).grid().len(),
            forall|i: int|
                0 <= i < old(self).grid().len() ==> (#[trigger] final(self).grid()[i]).len()
                    == old(self).grid()[i].len(),
            forall|i: int, j: int|
                0 <= i < old(self).grid().len() && 0 <= j < old(self).grid()[i].len()
                    ==> #[trigger] final(self).grid()[i][j] == if in_line_spec(
                    start,
                    end,
                    (i as usize, j as usize),
                ) {
                    color
                } else {
                    old(self).grid()[i][j]
                },
            final(self).wf(),
    {
        let rows_known = self.rows();
        let cols_known = self.cols();
        let dy = if start.0 >= end.0 {
            start.0 - end.0
        } else {
            end.0 - start.0
        };
        let dx = if start.1 >= end.1 {
            start.1 - end.1
        } else {
            end.1 - start.1
        };

        if dx >= dy {
            let x_start = if start.1 <= end.1 {
                start.1
            } else {
                end.1
            };
            let x_end = if start.1 <= end.1 {
                end.1
            } else {
                start.1
            };
            let mut x = x_start;
            while x <= x_end
                invariant
                    old(self).wf(),
                    start.0 < old(self).grid().len(),
                    x_start <= x <= x_end + 1,
                    x_end < cols_known,
                    cols_known == old(self).grid()[0].len(),
                    self.grid().len() == old(self).grid().len(),
                    forall|i: int|
                        0 <= i < old(self).grid().len() ==> (#[trigger] self.grid()[i]).len()
                            == old(self).grid()[i].len(),
                    forall|i: int, j: int|
                        0 <= i < old(self).grid().len() && 0 <= j < old(self).grid()[i].len()
                            ==> #[trigger] self.grid()[i][j] == if i == start.0 && x_start <= j
                            < x {
                            color
                        } else {
                            old(self).grid()[i][j]
                        },
                decreases x_end + 1 - x,
            {
                proof {
                    assert(self.grid()[start.0 as int].len() == old(self).grid()[
                        start.0 as int].len());
                    assert(old(self).grid()[start.0 as int].len() == old(self).grid()[0].len());
                }
                let ghost grid_before = self.grid();
                self.solution_grid[start.0][x] = color;
                proof {
                    assert(self.grid() =~= grid_before.update(
                        start.0 as int,
                        grid_before[start.0 as int].update(x as int, color),
                    ));
                }
                x += 1;
            }
            proof {
                assert forall|i: int, j: int|
                    0 <= i < old(self).grid().len() && 0 <= j < old(self).grid()[i].len() implies
                    #[trigger] self.grid()[i][j] == if in_line_spec(
                        start,
                        end,
                        (i as usize, j as usize),
                    ) {
                        color
                    } else {
                        old(self).grid()[i][j]
                    } by {
                    assert(in_line_spec(start, end, (i as usize, j as usize)) == (i == start.0
                        && x_start <= j <= x_end));
                }
            }
        } else {
            let y_start = if start.0 <= end.0 {
                start.0
            } else {
                end.0
            };
            let y_end = if start.0 <= end.0 {
                end.0
            } else {
                start.0
            };
            let mut y = y_start;
            while y <= y_end
                invariant
                    old(self).wf(),
                    start.1 < old(self).grid()[0].len(),
                    y_start <= y <= y_end + 1,
                    y_end < rows_known,
                    rows_known == old(self).grid().len(),
                    self.grid().len() == old(self).grid().len(),
                    forall|i: int|
                        0 <= i < old(self).grid().len() ==> (#[trigger] self.grid()[i]).len()
                            == old(self).grid()[i].len(),
                    forall|i: int, j: int|
                        0 <= i < old(self).grid().len() && 0 <= j < old(self).grid()[i].len()
                            ==> #[trigger] self.grid()[i][j] == if j == start.1 && y_start <= i
                            < y {
                            color
                        } else {
                            old(self).grid()[i][j]
                        },
                decreases y_end + 1 - y,
            {
                proof {
                    assert(self.grid()[y as int].len() == old(self).grid()[y as int].len());
                    assert(old(self).grid()[y as int].len() == old(self).grid()[0].len());
                }
                let ghost grid_before = self.grid();
                self.solution_grid[y][start.1] = color;
                proof {
                    assert(self.grid() =~= grid_before.update(
                        y as int,
                        grid_before[y as int].update(start.1 as int, color),
                    ));
                }
                y += 1;
            }
            proof {
                assert forall|i: int, j: int|
                    0 <= i < old(self).grid().len() && 0 <= j < old(self).grid()[i].len() implies
                    #[trigger] self.grid()[i][j] == if in_line_spec(
                        start,
                        end,
                        (i as usize, j as usize),
                    ) {
                        color
                    } else {
                        old(self).grid()[i][j]
                    } by {
                    assert(in_line_spec(start, end, (i as usize, j as usize)) == (j == start.1
                        && y_start <= i <= y_end));
                }
            }
        }
    }

    /// Whether `coord` lies on the stroke from `start` to `end`; `false`
    /// when either endpoint is absent.
    pub fn in_line(
        &self,
        start: Option<(usize, usize)>,
        end: Option<(usize, usize)>,
        coord: (usize, usize),
    ) -> (r: bool)
        ensures
            r == (start is Some && end is Some && in_line_spec(
                start.unwrap(),
                end.unwrap(),
                coord,
            )),
    {
        if start.is_none() || end.is_none() {
            return false;
        }
        let start = start.unwrap();
        let end = end.unwrap();

        let dy = if start.0 >= end.0 {
            start.0 - end.0
        } else {
            end.0 - start.0
        };
        let dx = if start.1 >= end.1 {
            start.1 - end.1
        } else {
            end.1 - start.1
        };

        if dx >= dy {
            let x_start = if start.1 <= end.1 {
                start.1
            } else {
                end.1
            };
            let x_end = if start.1 <= end.1 {
                end.1
            } else {
                start.1
            };
            coord.0 == start.0 && x_start <= coord.1 && coord.1 <= x_end
        } else {
            let y_start = if start.0 <= end.0 {
                start.0
            } else {
                end.0
            };
            let y_end = if start.0 <= end.0 {
                end.0
            } else {
                start.0
            };
            coord.1 == start.1 && y_start <= coord.0 && coord.0 <= y_end
        }
    }

    /// Resizes every row to `cols` columns, but never below two: new
    /// cells are background, and the cells kept are unchanged.
    pub fn set_cols(&mut self, cols: usize)
        requires
            old(self).wf(),
        ensures
            final(self).wf(),
            final(self).grid().len() == old(self).grid().len(),
            final(self).grid()[0].len() == vstd::math::max(cols as int, 2),
            forall|i: int, j: int|
                0 <= i < old(self).grid().len() && 0 <= j < old(self).grid()[0].len() && j
                    < vstd::math::max(cols as int, 2) ==> #[trigger] final(self).grid()[i][j]
                    == old(self).grid()[i][j],
            forall|i: int, j: int|
                0 <= i < old(self).grid().len() && old(self).grid()[0].len() <= j
                    < vstd::math::max(cols as int, 2) ==> #[trigger] final(self).grid()[i][j]
                    == BACKGROUND,
    {
        let current_cols = self.cols();
        let target_cols = if cols >= 2 {
            cols
        } else {
            2
        };

        let rows = self.rows();
        let mut i: usize = 0;
        while i < rows
            invariant
                old(self).wf(),
                rows == old(self).grid().len(),
                current_cols == old(self).grid()[0].len(),
                0 <= i <= rows,
                self.grid().len() == rows,
                forall|k: int|
                    i <= k < rows ==> #[trigger] self.grid()[k] == old(self).grid()[k],
                forall|k: int|
                    0 <= k < i ==> (#[trigger] self.grid()[k]).len() == target_cols,
                forall|k: int, j: int|
                    0 <= k < i && 0 <= j < current_cols && j < target_cols
                        ==> #[trigger] self.grid()[k][j] == old(self).grid()[k][j],
                forall|k: int, j: int|
                    0 <= k < i && current_cols <= j < target_cols ==> #[trigger] self.grid()[k][j]
                        == BACKGROUND,
            decreases rows - i,
        {
            let ghost grid_before = self.grid();
            let ghost row_before = self.grid()[i as int];
            if target_cols > current_cols {
                let mut pad = target_cols - current_cols;
                while pad > 0
                    invariant
                        0 <= i < self.grid().len(),
                        row_before.len() == current_cols,
                        pad <= target_cols - current_cols,
                        self.grid().len() == grid_before.len(),
                        forall|k: int|
                            0 <= k < self.grid().len() && k != i ==> #[trigger] self.grid()[k]
                                == grid_before[k],
                        self.grid()[i as int].len() == current_cols + (target_cols - current_cols
                            - pad),
                        forall|j: int|
                            0 <= j < current_cols ==> #[trigger] self.grid()[i as int][j]
                                == row_before[j],
                        forall|j: int|
                            current_cols <= j < self.grid()[i as int].len()
                                ==> #[trigger] self.grid()[i as int][j] == BACKGROUND,
                    decreases pad,
                {
                    let ghost g = self.grid();
                    self.solution_grid[i].push(BACKGROUND);
                    proof {
                        assert(self.grid() =~= g.update(i as int, g[i as int].push(BACKGROUND)));
                    }
                    pad -= 1;
                }
            } else if target_cols < current_cols {
                proof {
                    assert(self.grid()[i as int].len() == current_cols);
                }
                self.solution_grid[i].truncate(target_cols);
                proof {
                    assert(self.grid() =~= grid_before.update(
                        i as int,
                        row_before.subrange(0, target_cols as int),
                    ));
                }
            }
            i += 1;
        }
    }

    /// Resizes the grid to `rows` rows, but never below two: new rows are
    /// all background with the current column count, and the rows kept
    /// are unchanged.
    pub fn set_rows(&mut self, rows: usize)
        requires
            old(self).wf(),
        ensures
            final(self).wf(),
            final(self).grid().len() == vstd::math::max(rows as int, 2),
            final(self).grid()[0].len() == old(self).grid()[0].len(),
            forall|i: int|
                0 <= i < old(self).grid().len() && i < vstd::math::max(rows as int, 2)
                    ==> #[trigger] final(self).grid()[i] == old(self).grid()[i],
            forall|i: int, j: int|
                old(self).grid().len() <= i < vstd::math::max(rows as int, 2) && 0 <= j < old(
                    self,
                ).grid()[0].len() ==> #[trigger] final(self).grid()[i][j] == BACKGROUND,
    {
        let current_rows = self.rows();
        let target_rows = if rows >= 2 {
            rows
        } else {
            2
        };
        let cols = self.cols();

        if target_rows > current_rows {
            let mut add = target_rows - current_rows;
            while add > 0
                invariant
                    old(self).wf(),
                    current_rows == old(self).grid().len(),
                    cols == old(self).grid()[0].len(),
                    add <= target_rows - current_rows,
                    self.grid().len() == current_rows + (target_rows - current_rows - add),
                    forall|i: int|
                        0 <= i < current_rows ==> #[trigger] self.grid()[i] == old(self).grid()[i],
                    forall|i: int|
                        current_rows <= i < self.grid().len() ==> (#[trigger] self.grid()[i])
                            == run_of(BACKGROUND, cols as int),
                decreases add,
            {
                let ghost g = self.grid();
                let mut fresh: Vec<usize> = Vec::new();
                push_zeros(&mut fresh, cols);
                proof {
                    assert(fresh@ =~= run_of(BACKGROUND, cols as int));
                }
                self.solution_grid.push(fresh);
                proof {
                    assert(self.grid() =~= g.push(run_of(BACKGROUND, cols as int)));
                }
                add -= 1;
            }
            proof {
                assert(self.grid()[0] == old(self).grid()[0]);
            }
        } else if target_rows < current_rows {
            let ghost g = self.grid();
            self.solution_grid.truncate(target_rows);
            proof {
                assert(self.grid() =~= g.subrange(0, target_rows as int));
            }
        }
    }

    /// Clears the grid: every cell becomes background; the shape stays.
    pub fn clear(&mut self)
        ensures
            final(self).grid().len() == old(self).grid().len(),
            forall|i: int|
                0 <= i < old(self).grid().len() ==> (#[trigger] final(self).grid()[i]).len()
                    == old(self).grid()[i].len(),
            forall|i: int, j: int|
                0 <= i < old(self).grid().len() && 0 <= j < old(self).grid()[i].len()
                    ==> #[trigger] final(self).grid()[i][j] == BACKGROUND,
    {
        let rows = self.solution_grid.len();
        let mut i: usize = 0;
        while i < rows
            invariant
                rows == old(self).grid().len(),
                0 <= i <= rows,
                self.grid().len() == rows,
                forall|k: int|
                    i <= k < rows ==> #[trigger] self.grid()[k] == old(self).grid()[k],
                forall|k: int|
                    0 <= k < i ==> (#[trigger] self.grid()[k]).len() == old(self).grid()[k].len(),
                forall|k: int, j: int|
                    0 <= k < i && 0 <= j < old(self).grid()[k].len() ==> #[trigger] self.grid()[k][j]
                        == BACKGROUND,
            decreases rows - i,
        {
            let ghost g = self.grid();
            let len = self.solution_grid[i].len();
            let mut fresh: Vec<usize> = Vec::new();
            push_zeros(&mut fresh, len);
            self.solution_grid[i] = fresh;
            proof {
                assert(self.grid() =~= g.update(i as int, run_of(BACKGROUND, g[i as int].len() as int)));
            }
            i += 1;
        }
    }

    /// Shifts the grid's contents by `dx` cells to the right and `dy`
    /// cells down; cells shifted in from outside are background, cells
    /// shifted out are dropped.
    pub fn slide(&mut self, dx: isize, dy: isize)
        requires
            old(self).wf(),
        ensures
            final(self).wf(),
            final(self).grid().len() == old(self).grid().len(),
            final(self).grid()[0].len() == old(self).grid()[0].len(),
            forall|i: int, j: int|
                0 <= i < old(self).grid().len() && 0 <= j < old(self).grid()[0].len()
                    ==> #[trigger] final(self).grid()[i][j] == if 0 <= i - dy < old(
                    self,
                ).grid().len() && 0 <= j - dx < old(self).grid()[0].len() {
                    old(self).grid()[i - dy][j - dx]
                } else {
                    BACKGROUND
                },
    {
        let rows = self.rows();
        let cols = self.cols();
        let mut new_grid: Vec<Vec<usize>> = Vec::new();
        let mut y: usize = 0;
        while y < rows
            invariant
                self.wf(),
                rows == self.grid().len(),
                cols == self.grid()[0].len(),
                0 <= y <= rows,
                new_grid@.len() == y,
                forall|i: int|
                    0 <= i < y ==> (#[trigger] new_grid@[i])@.len() == cols,
                forall|i: int, j: int|
                    0 <= i < y && 0 <= j < cols ==> #[trigger] new_grid@[i]@[j] == if 0 <= i
                        - dy < rows && 0 <= j - dx < cols {
                        self.grid()[i - dy][j - dx]
                    } else {
                        BACKGROUND
                    },
            decreases rows - y,
        {
            let mut row: Vec<usize> = Vec::new();
            let mut x: usize = 0;
            while x < cols
                invariant
                    self.wf(),
                    rows == self.grid().len(),
                    cols == self.grid()[0].len(),
                    0 <= y < rows,
                    0 <= x <= cols,
                    row@.len() == x,
                    forall|j: int|
                        0 <= j < x ==> #[trigger] row@[j] == if 0 <= y - dy < rows && 0 <= j
                            - dx < cols {
                            self.grid()[y - dy][j - dx]
                        } else {
                            BACKGROUND
                        },
                decreases cols - x,
            {
                let sy = y as i128 - dy as i128;
                let sx = x as i128 - dx as i128;
                if 0 <= sy && sy < rows as i128 && 0 <= sx && sx < cols as i128 {
                    proof {
                        assert(self.grid()[sy as int].len() == cols);
                    }
                    row.push(self.solution_grid[sy as usize][sx as usize]);
                } else {
                    row.push(BACKGROUND);
                }
                x += 1;
            }
            new_grid.push(row);
            y += 1;
        }
        self.solution_grid = new_grid;
        proof {
            assert(self.grid().len() == rows);
            assert(self.grid()[0].len() == cols);
        }
    }
}

/// Pushes `count` background cells onto a row.
fn push_zeros(row: &mut Vec<usize>, count: usize)
    ensures
        final(row)@ == old(row)@ + run_of(0, count as int),
{
    let mut k: usize = 0;
    while k < count
        invariant
            0 <= k <= count,
            row@ == old(row)@ + run_of(0, k as int),
        decreases count - k,
    {
        row.push(0);
        proof {
            assert(old(row)@ + run_of(0, k + 1) =~= (old(row)@ + run_of(0, k as int)).push(0));
        }
        k += 1;
    }
}

/// A row-valid candidate derives the puzzle's row constraints exactly:
/// run-length-encoding each of its rows gives back precisely the row
/// constraint lists the puzzle states, whatever seed produced it.
pub proof fn lemma_row_valid_derives_rows(p: NonogramPuzzle, s: NonogramSolution)
    requires
        s.row_valid(p),
    ensures
        s.grid().len() == p.rows,
        forall|i: int| 0 <= i < p.rows ==> rle(#[trigger] s.grid()[i]) == p.row_list(i),
{
}

impl NonogramPuzzle {
    /// The puzzle a solution grid states: its dimensions together with the
    /// constraints its rows and columns realize. The resulting puzzle is
    /// well-formed, and the grid itself realizes it exactly.
    pub fn from_solution(solution: &NonogramSolution) -> (p: NonogramPuzzle)
        requires
            solution.wf(),
            solution.grid()[0].len() >= 1,
            solution.grid().len() * solution.grid()[0].len() <= usize::MAX / 4,
        ensures
            p.rows == solution.grid().len(),
            p.cols == solution.grid()[0].len(),
            p.row_constraints@.len() == p.rows,
            forall|i: int|
                0 <= i < p.rows ==> #[trigger] p.row_list(i) == rle(solution.grid()[i]),
            p.col_constraints@.len() == p.cols,
            forall|j: int|
                0 <= j < p.cols ==> #[trigger] p.col_list(j) == rle(col_seq(solution.grid(), j)),
            p.wf(),
            solution.row_valid(p),
    {
        let rows = solution.rows();
        let cols = solution.cols();
        let row_constraints = solution.row_constraints();
        let col_constraints = solution.col_constraints();
        let p = Self { rows, cols, row_constraints, col_constraints };
        proof {
            assert forall|i: int| 0 <= i < p.rows implies valid_line(
                #[trigger] p.row_list(i),
                p.cols as int,
            ) by {
                lemma_rle_bounds(solution.grid()[i]);
                lemma_rle_min_width(solution.grid()[i]);
            }
            assert forall|j: int| 0 <= j < p.cols implies valid_line(
                #[trigger] p.col_list(j),
                p.rows as int,
            ) by {
                lemma_rle_bounds(col_seq(solution.grid(), j));
                lemma_rle_min_width(col_seq(solution.grid(), j));
            }
        }
        p
    }
}

} // verus!

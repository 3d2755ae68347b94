//! The built-in tree puzzle: a 5-by-5 grid in two colors, with its
//! solution, its constraints and its palette.

use crate::definitions::{
    segs_view, NonogramFile, NonogramPalette, NonogramPuzzle, NonogramSegment, NonogramSolution,
    BACKGROUND,
};
use crate::rle::{min_width, rle_total, seps, valid_line};
use vstd::prelude::*;
use vstd::string::StringExecFns;

verus! {

/// Index of the leaves color in the tree palette.
pub const LEAVES: usize = 1;

/// Index of the wood color in the tree palette.
pub const WOOD: usize = 2;

/// Number of columns in the tree puzzle.
pub const TREE_COLS: usize = 5;

/// Number of rows in the tree puzzle.
pub const TREE_ROWS: usize = 5;

/// The tree puzzle's solution grid.
pub open spec fn tree_grid() -> Seq<Seq<usize>> {
    seq![
        seq![0usize, 1, 1, 1, 0],
        seq![1usize, 1, 1, 1, 1],
        seq![1usize, 1, 2, 1, 1],
        seq![0usize, 0, 2, 0, 0],
        seq![0usize, 0, 2, 0, 0],
    ]
}

/// A one-segment constraint list weighs its one run.
proof fn lemma_width_1(a: (int, int))
    ensures
        min_width(seq![a]) == a.1,
{
    let v = seq![a];
    assert(v.drop_first() =~= Seq::<(int, int)>::empty());
    assert(rle_total(Seq::<(int, int)>::empty()) == 0);
    assert(rle_total(v) == a.1);
    assert(seps(v) == 0);
}

/// A two-segment constraint list weighs its runs plus one separator when
/// their colors coincide.
proof fn lemma_width_2(a: (int, int), b: (int, int))
    ensures
        min_width(seq![a, b]) == a.1 + b.1 + if a.0 == b.0 {
            1int
        } else {
            0int
        },
{
    let v = seq![a, b];
    assert(v.drop_first() =~= seq![b]);
    lemma_width_1(b);
    assert(rle_total(v) == a.1 + b.1);
    assert(seps(v) == (if a.0 == b.0 {
        1int
    } else {
        0int
    }) + seps(seq![b]));
}

/// A three-segment constraint list weighs its runs plus the separators of
/// its equal-colored adjacencies.
proof fn lemma_width_3(a: (int, int), b: (int, int), c: (int, int))
    ensures
        min_width(seq![a, b, c]) == a.1 + b.1 + c.1 + (if a.0 == b.0 {
            1int
        } else {
            0int
        }) + (if b.0 == c.0 {
            1int
        } else {
            0int
        }),
{
    let v = seq![a, b, c];
    assert(v.drop_first() =~= seq![b, c]);
    lemma_width_2(b, c);
    assert(rle_total(v) == a.1 + rle_total(seq![b, c]));
    assert(seps(v) == (if a.0 == b.0 {
        1int
    } else {
        0int
    }) + seps(seq![b, c]));
}

/// One row of five cells.
fn row_5(a: usize, b: usize, c: usize, d: usize, e: usize) -> (r: Vec<usize>)
    ensures
        r@ == seq![a, b, c, d, e],
{
    let mut r: Vec<usize> = Vec::new();
    r.push(a);
    r.push(b);
    r.push(c);
    r.push(d);
    r.push(e);
    proof {
        assert(r@ =~= seq![a, b, c, d, e]);
    }
    r
}

/// A constraint list of one segment.
fn segs_1(c1: usize, l1: usize) -> (r: Vec<NonogramSegment>)
    ensures
        segs_view(r@) == seq![(c1 as int, l1 as int)],
{
    let mut r: Vec<NonogramSegment> = Vec::new();
    r.push(NonogramSegment { color: c1, length: l1 });
    proof {
        assert(segs_view(r@) =~= seq![(c1 as int, l1 as int)]);
    }
    r
}

/// A constraint list of three segments.
fn segs_3(c1: usize, l1: usize, c2: usize, l2: usize, c3: usize, l3: usize) -> (r: Vec<
    NonogramSegment,
>)
    ensures
        segs_view(r@) == seq![(c1 as int, l1 as int), (c2 as int, l2 as int), (c3 as int, l3 as int)],
{
    let mut r: Vec<NonogramSegment> = Vec::new();
    r.push(NonogramSegment { color: c1, length: l1 });
    r.push(NonogramSegment { color: c2, length: l2 });
    r.push(NonogramSegment { color: c3, length: l3 });
    proof {
        assert(segs_view(r@) =~= seq![
            (c1 as int, l1 as int),
            (c2 as int, l2 as int),
            (c3 as int, l3 as int),
        ]);
    }
    r
}

/// A constraint list of two segments.
fn segs_2(c1: usize, l1: usize, c2: usize, l2: usize) -> (r: Vec<NonogramSegment>)
    ensures
        segs_view(r@) == seq![(c1 as int, l1 as int), (c2 as int, l2 as int)],
{
    let mut r: Vec<NonogramSegment> = Vec::new();
    r.push(NonogramSegment { color: c1, length: l1 });
    r.push(NonogramSegment { color: c2, length: l2 });
    proof {
        assert(segs_view(r@) =~= seq![(c1 as int, l1 as int), (c2 as int, l2 as int)]);
    }
    r
}

/// The tree puzzle's solution: a 5-by-5 grid drawing a two-color tree.
pub fn tree_nonogram_file() -> (r: NonogramFile)
    ensures
        r.solution.grid() == tree_grid(),
        r.solution.wf(),
        r.palette.color_palette@.len() == 3,
        r.palette.brush == 0,
{
    let mut solution_grid: Vec<Vec<usize>> = Vec::new();
    solution_grid.push(row_5(0, 1, 1, 1, 0));
    solution_grid.push(row_5(1, 1, 1, 1, 1));
    solution_grid.push(row_5(1, 1, 2, 1, 1));
    solution_grid.push(row_5(0, 0, 2, 0, 0));
    solution_grid.push(row_5(0, 0, 2, 0, 0));
    let solution = NonogramSolution { solution_grid };
    proof {
        assert(solution.grid() =~= tree_grid());
    }
    NonogramFile { solution, palette: tree_nonogram_palette() }
}

/// An all-background grid with the tree puzzle's dimensions.
pub fn tree_empty_nonogram_solution() -> (r: NonogramSolution)
    ensures
        r.wf(),
        r.grid().len() == TREE_ROWS,
        forall|i: int|
            0 <= i < TREE_ROWS ==> (#[trigger] r.grid()[i]).len() == TREE_COLS,
        forall|i: int, j: int|
            0 <= i < TREE_ROWS && 0 <= j < TREE_COLS ==> #[trigger] r.grid()[i][j] == BACKGROUND,
{
    let mut solution_grid: Vec<Vec<usize>> = Vec::new();
    let mut i: usize = 0;
    while i < TREE_ROWS
        invariant
            0 <= i <= TREE_ROWS,
            solution_grid@.len() == i,
            forall|k: int|
                0 <= k < i ==> (#[trigger] solution_grid@[k])@ == seq![
                    BACKGROUND,
                    BACKGROUND,
                    BACKGROUND,
                    BACKGROUND,
                    BACKGROUND,
                ],
        decreases TREE_ROWS - i,
    {
        solution_grid.push(row_5(BACKGROUND, BACKGROUND, BACKGROUND, BACKGROUND, BACKGROUND));
        i += 1;
    }
    let r = NonogramSolution { solution_grid };
    proof {
        assert(forall|i: int| 0 <= i < TREE_ROWS ==> (#[trigger] r.grid()[i]).len() == TREE_COLS);
    }
    r
}

/// The tree puzzle: the row and column constraints its solution realizes.
/// The puzzle is well-formed, so every engine entry point accepts it.
pub fn tree_nonogram_puzzle() -> (p: NonogramPuzzle)
    ensures
        p.wf(),
        p.rows == TREE_ROWS,
        p.cols == TREE_COLS,
        p.row_list(0) == seq![(LEAVES as int, 3int)],
        p.row_list(1) == seq![(LEAVES as int, 5int)],
        p.row_list(2) == seq![(LEAVES as int, 2int), (WOOD as int, 1int), (LEAVES as int, 2int)],
        p.row_list(3) == seq![(WOOD as int, 1int)],
        p.row_list(4) == seq![(WOOD as int, 1int)],
        p.col_list(0) == seq![(LEAVES as int, 2int)],
        p.col_list(1) == seq![(LEAVES as int, 3int)],
        p.col_list(2) == seq![(LEAVES as int, 2int), (WOOD as int, 3int)],
        p.col_list(3) == seq![(LEAVES as int, 3int)],
        p.col_list(4) == seq![(LEAVES as int, 2int)],
{
    let mut row_constraints: Vec<Vec<NonogramSegment>> = Vec::new();
    row_constraints.push(segs_1(LEAVES, 3));
    row_constraints.push(segs_1(LEAVES, 5));
    row_constraints.push(segs_3(LEAVES, 2, WOOD, 1, LEAVES, 2));
    row_constraints.push(segs_1(WOOD, 1));
    row_constraints.push(segs_1(WOOD, 1));
    let mut col_constraints: Vec<Vec<NonogramSegment>> = Vec::new();
    col_constraints.push(segs_1(LEAVES, 2));
    col_constraints.push(segs_1(LEAVES, 3));
    col_constraints.push(segs_2(LEAVES, 2, WOOD, 3));
    col_constraints.push(segs_1(LEAVES, 3));
    col_constraints.push(segs_1(LEAVES, 2));
    let p = NonogramPuzzle { rows: TREE_ROWS, cols: TREE_COLS, row_constraints, col_constraints };
    proof {
        lemma_width_1(((LEAVES as int), 3int));
        lemma_width_1(((LEAVES as int), 5int));
        lemma_width_3(((LEAVES as int), 2int), ((WOOD as int), 1int), ((LEAVES as int), 2int));
        lemma_width_1(((WOOD as int), 1int));
        lemma_width_1(((LEAVES as int), 2int));
        lemma_width_2(((LEAVES as int), 2int), ((WOOD as int), 3int));
        assert(p.row_list(0) == seq![(LEAVES as int, 3int)]);
        assert(p.row_list(1) == seq![(LEAVES as int, 5int)]);
        assert(p.row_list(2) == seq![
            (LEAVES as int, 2int),
            (WOOD as int, 1int),
            (LEAVES as int, 2int),
        ]);
        assert(p.row_list(3) == seq![(WOOD as int, 1int)]);
        assert(p.row_list(4) == seq![(WOOD as int, 1int)]);
        assert(p.col_list(0) == seq![(LEAVES as int, 2int)]);
        assert(p.col_list(1) == seq![(LEAVES as int, 3int)]);
        assert(p.col_list(2) == seq![(LEAVES as int, 2int), (WOOD as int, 3int)]);
        assert(p.col_list(3) == seq![(LEAVES as int, 3int)]);
        assert(p.col_list(4) == seq![(LEAVES as int, 2int)]);
        assert forall|i: int| 0 <= i < p.rows implies valid_line(
            #[trigger] p.row_list(i),
            p.cols as int,
        ) by {
            if i == 0 {
                assert(valid_line(seq![(LEAVES as int, 3int)], 5));
            } else if i == 1 {
                assert(valid_line(seq![(LEAVES as int, 5int)], 5));
            } else if i == 2 {
                assert(valid_line(seq![
                    (LEAVES as int, 2int),
                    (WOOD as int, 1int),
                    (LEAVES as int, 2int),
                ], 5));
            } else {
                assert(valid_line(seq![(WOOD as int, 1int)], 5));
            }
        }
        assert forall|j: int| 0 <= j < p.cols implies valid_line(
            #[trigger] p.col_list(j),
            p.rows as int,
        ) by {
            if j == 2 {
                assert(valid_line(seq![(LEAVES as int, 2int), (WOOD as int, 3int)], 5));
            } else if j == 1 || j == 3 {
                assert(valid_line(seq![(LEAVES as int, 3int)], 5));
            } else {
                assert(valid_line(seq![(LEAVES as int, 2int)], 5));
            }
        }
    }
    p
}

/// The tree puzzle's palette: sky blue background, forest green leaves,
/// saddle brown wood.
pub fn tree_nonogram_palette() -> (r: NonogramPalette)
    ensures
        r.color_palette@.len() == 3,
        r.color_palette@[0]@ == "#87ceeb"@,
        r.color_palette@[1]@ == "#228b22"@,
        r.color_palette@[2]@ == "#8b4513"@,
        r.brush == 0,
{
    let mut color_palette: Vec<String> = Vec::new();
    color_palette.push(String::from_str("#87ceeb"));
    color_palette.push(String::from_str("#228b22"));
    color_palette.push(String::from_str("#8b4513"));
    NonogramPalette { color_palette, brush: 0 }
}

} // verus!

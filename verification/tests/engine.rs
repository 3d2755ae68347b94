//! The scorer and the search loop on the tree puzzle.

use nonogram::tree_empty_nonogram_solution;
use nonogram::tree_nonogram_file;
use nonogram::tree_nonogram_puzzle;
use nonogram::History;
use nonogram::NonogramPuzzle;
use nonogram::NonogramSegment;
use nonogram::NonogramSolution;
use rand::rngs::StdRng;
use rand::SeedableRng;

// An exact realization of the puzzle scores zero.
#[test]
fn exact_solution_scores_zero() {
    let puzzle = tree_nonogram_puzzle();
    let file = tree_nonogram_file();
    assert_eq!(puzzle.score(&file.solution), 0);
    assert_eq!(puzzle._score(&file.solution), 0);
}

// The empty grid misses every colored cell: each column costs the full
// cell count of its constraint list, 2 + 3 + 5 + 3 + 2.
#[test]
fn empty_solution_scores_total_cells() {
    let puzzle = tree_nonogram_puzzle();
    let empty = tree_empty_nonogram_solution();
    assert_eq!(puzzle.score(&empty), 15);
    assert_eq!(puzzle._score(&empty), 15);
}

// A wrong color is punished by both lengths; a wrong length only by the
// difference. One leaves-cell moved from column 0 to column 1 of the top
// row changes two columns.
#[test]
fn score_penalizes_color_before_length() {
    let puzzle = tree_nonogram_puzzle();
    let file = tree_nonogram_file();
    let mut grid = file.solution.solution_grid.clone();
    // paint the top-left background cell with wood: column 0 derives
    // [(2,1),(1,2)] against [(1,2)]: padding plus color mismatch
    grid[0][0] = 2;
    let candidate = NonogramSolution {
        solution_grid: grid,
    };
    // candidate column 0 is [2,1,1,0,0] -> [(2,1),(1,2)]; the target [(1,2)]
    // is padded to [(0,0),(1,2)]: (2,1) against (0,0) costs 1, the rest 0
    assert_eq!(puzzle.score(&candidate), 1);
}

// `normalize_vec` pads the front with zero placeholders and keeps the
// segments; a request shorter than the list leaves it unchanged.
#[test]
fn normalize_vec_pads_front() {
    let segs = vec![NonogramSegment { color: 1, length: 2 }];
    let padded = NonogramPuzzle::normalize_vec(&segs, 3);
    assert_eq!(
        padded,
        vec![
            NonogramSegment { color: 0, length: 0 },
            NonogramSegment { color: 0, length: 0 },
            NonogramSegment { color: 1, length: 2 },
        ]
    );
    let same = NonogramPuzzle::normalize_vec(&segs, 1);
    assert_eq!(same, segs);
}

// The search with a known-good fixed seed solves the tree puzzle within
// its budget: the winner realizes every row and column constraint.
#[test]
fn evolutive_search_solves_tree_puzzle() {
    let puzzle = tree_nonogram_puzzle();
    let mut rng = StdRng::seed_from_u64(23);
    let history = evolutive_search_default(&puzzle, &mut rng);
    assert!(history.iterations <= 300);
    let winner = history.winner.expect("the search should reach score zero");
    assert_eq!(puzzle.score(&winner), 0);
    let derived = NonogramPuzzle::from_solution(&winner);
    assert_eq!(derived.row_constraints, puzzle.row_constraints);
    assert_eq!(derived.col_constraints, puzzle.col_constraints);
}

fn evolutive_search_default(puzzle: &NonogramPuzzle, rng: &mut StdRng) -> History {
    nonogram::evolutive_search(200, puzzle, 600, 200, 3, 5, 300, rng)
}

// The history counts one entry per completed generation, and under
// elitist replacement the per-generation best never worsens.
#[test]
fn history_tracks_generations_and_improves() {
    let puzzle = tree_nonogram_puzzle();
    let mut rng = StdRng::seed_from_u64(23);
    let history = evolutive_search_default(&puzzle, &mut rng);
    assert_eq!(history.best.len(), history.iterations);
    assert_eq!(history.median_twice.len(), history.iterations);
    assert_eq!(history.worst.len(), history.iterations);
    assert!(history.iterations >= 1);
    for k in 1..history.best.len() {
        assert!(history.best[k] <= history.best[k - 1]);
    }
    for k in 0..history.best.len() {
        assert!(history.best[k] <= history.worst[k]);
    }
}

// A zero iteration budget is exhaustion, not an error: the best attempt
// of the fresh population comes back as the `Err` value.
#[test]
fn zero_budget_reports_best_attempt() {
    let puzzle = tree_nonogram_puzzle();
    let mut rng = StdRng::seed_from_u64(1);
    let history = nonogram::evolutive_search(4, &puzzle, 600, 100, 2, 3, 0, &mut rng);
    assert_eq!(history.iterations, 0);
    assert_eq!(history.best.len(), 0);
    let attempt = history.winner.expect_err("no budget, so no winner");
    // the attempt is still row-valid
    let derived = NonogramPuzzle::from_solution(&attempt);
    assert_eq!(derived.row_constraints, puzzle.row_constraints);
}

// The doubled median is the sum of the two central scores for an even
// population and twice the central score for an odd one.
#[test]
fn median_twice_of_sorted_scores() {
    let puzzle = tree_nonogram_puzzle();
    let mut rng = StdRng::seed_from_u64(3);
    let s = puzzle.new_chromosome_solution(&mut rng);
    let pop_even: Vec<(NonogramSolution, usize)> = vec![
        (s.duplicate(), 1),
        (s.duplicate(), 2),
        (s.duplicate(), 3),
        (s.duplicate(), 4),
    ];
    assert_eq!(History::get_median_twice(&pop_even, 4), 5);
    let pop_odd: Vec<(NonogramSolution, usize)> = vec![
        (s.duplicate(), 1),
        (s.duplicate(), 2),
        (s.duplicate(), 5),
    ];
    assert_eq!(History::get_median_twice(&pop_odd, 3), 4);
}

// The fixed-seed solver entry point solves the tree puzzle.
#[test]
fn solve_nonogram_solves_tree_puzzle() {
    let puzzle = tree_nonogram_puzzle();
    let history = nonogram::solve_nonogram(puzzle.clone());
    let winner = history.winner.expect("the default seed should solve the tree");
    assert_eq!(puzzle.score(&winner), 0);
}

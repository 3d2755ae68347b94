//! The genetic operators on the tree puzzle: the sampler establishes the
//! row constraints, and mutation and crossover preserve them.

use nonogram::tree_nonogram_puzzle;
use nonogram::NonogramPuzzle;
use rand::rngs::StdRng;
use rand::SeedableRng;

#[test]
fn assert_row_constraints_mantain() {
    let puzzle = tree_nonogram_puzzle();
    let mut rng = StdRng::seed_from_u64(0);
    let solution = puzzle.new_chromosome_solution(&mut rng);
    assert_eq!(solution.row_constraints(), puzzle.row_constraints)
}

// Helper function to compare slidables
//
// This function compares the actual and expected slidable positions and checks that they are identical.
// It ensures that the number of slidable positions is the same and that the corresponding positions
// match in value and order.
fn assert_slidable_positions_equal(actual: Vec<(usize, usize)>, expected: Vec<(usize, usize)>) {
    println!("Actual: {:?}", actual);
    println!("Expected: {:?}", expected);

    // Assert the lengths are equal first to avoid unnecessary iteration
    assert_eq!(
        actual.len(),
        expected.len(),
        "The number of slidable positions does not match."
    );

    // Iterate over both vectors and assert each corresponding pair of slidable positions are the same
    for (a, b) in actual.iter().zip(expected.iter()) {
        assert_eq!(
            a, b,
            "The slidable positions do not match: expected {:?}, but got {:?}",
            a, b
        );
    }
}

// Test cases for the `get_slidables` method

// Test with an empty row, where there are no slidable segments.
// Expected result: No slidable positions, so an empty Vec should be returned.
#[test]
fn get_slidables_from_empty_row() {
    let row_segment_colors = vec![];
    let result = NonogramPuzzle::get_slidables(&row_segment_colors);
    assert_slidable_positions_equal(result, vec![]);
}

// Test with a row full of background elements (0), where no slidable segments exist.
// Expected result: No slidable positions, so an empty Vec should be returned.
#[test]
fn get_slidables_from_background_row() {
    let row_segment_colors = vec![0, 0, 0, 0, 0];
    let result = NonogramPuzzle::get_slidables(&row_segment_colors);
    assert_slidable_positions_equal(result, vec![]);
}

// Test with a row containing a single segment.
// Expected result: The segment can slide in both directions, so two valid sliding positions are expected.
#[test]
fn get_slidables_from_single_segment() {
    let row_segment_colors = vec![0, 1, 1, 0];
    let result = NonogramPuzzle::get_slidables(&row_segment_colors);
    assert_slidable_positions_equal(result, vec![(0, 2), (1, 3)]);
}

// Test with a row containing multiple segments that each can slide.
// Expected result: Each segment can slide in both directions, so four valid sliding positions are expected.
#[test]
fn get_slidables_from_multiple_segments() {
    let row_segment_colors = vec![0, 1, 1, 0, 2, 2, 0];
    let result = NonogramPuzzle::get_slidables(&row_segment_colors);
    assert_slidable_positions_equal(result, vec![(0, 2), (1, 3), (3, 5), (4, 6)]);
}

// Test with adjacent segments, where both outer segments can slide once.
// Expected result: Two valid sliding positions.
#[test]
fn get_slidables_from_adjacent_segments() {
    let row_segment_colors = vec![0, 1, 2, 1, 0];
    let result = NonogramPuzzle::get_slidables(&row_segment_colors);
    assert_slidable_positions_equal(result, vec![(0, 1), (3, 4)]);
}

// Test with end segments (edge cases).
// Expected result: Both end segments can slide once, while the inner segment can slide in both directions.
#[test]
fn get_slidables_from_end_segments() {
    let row_segment_colors = vec![1, 0, 2, 0, 1];
    let result = NonogramPuzzle::get_slidables(&row_segment_colors);
    assert_slidable_positions_equal(result, vec![(0, 1), (1, 2), (2, 3), (3, 4)]);
}

// Test with segments of the same color
// Expected result: Zero segments can slide, since they will fuse into a single segment otherwise
#[test]
fn get_slidables_from_same_color_segments() {
    let row_segment_colors = vec![1, 0, 1, 0, 1];
    let result = NonogramPuzzle::get_slidables(&row_segment_colors);
    assert_slidable_positions_equal(result, vec![]);
}

// Test mutation of a candidate puzzle solution and ensure that the row_constraints remain intact after mutation.
#[test]
fn same_puzzle_after_mutation() {
    let puzzle = tree_nonogram_puzzle();
    let mut rng = StdRng::seed_from_u64(0);

    // Create the initial candidate solution based on the puzzle
    let mut candidate = puzzle.new_chromosome_solution(&mut rng);
    println!("Candidate: {:?}", candidate.solution_grid);

    // Mutate the candidate solution
    puzzle.chromosome_mutation(&mut candidate, 500, 5, &mut rng);

    // Convert the mutated candidate back into a puzzle
    let mutated = NonogramPuzzle::from_solution(&candidate);

    // Assert that the mutated puzzle has the same row_constraints as the original one
    assert_eq!(puzzle.row_constraints, mutated.row_constraints);
}

// Test the uniform crossover between two parent puzzle solutions and ensure both children's row_constraints remain intact.
#[test]
fn same_puzzle_after_cross() {
    let puzzle = tree_nonogram_puzzle();
    let mut rng = StdRng::seed_from_u64(0);

    // Create two initial candidate solutions based on the puzzle
    let ancestor_1 = puzzle.new_chromosome_solution(&mut rng);
    let ancestor_2 = puzzle.new_chromosome_solution(&mut rng);

    // Perform a uniform cross between the two ancestors
    let (child_1, child_2) = puzzle.uniform_cross(&ancestor_1, &ancestor_2, 500, &mut rng);

    // Convert the children back into puzzles
    let mutated_1 = NonogramPuzzle::from_solution(&child_1);
    let mutated_2 = NonogramPuzzle::from_solution(&child_2);

    // Assert that both children have the same row_constraints as the original puzzle
    assert_eq!(puzzle.row_constraints, mutated_1.row_constraints);
    assert_eq!(puzzle.row_constraints, mutated_2.row_constraints);
}

// Test the combination of mutation and crossover in one operation, ensuring that the row_constraints are preserved.
#[test]
fn same_puzzle_after_mutation_and_cross() {
    let puzzle = tree_nonogram_puzzle();
    let mut rng = StdRng::seed_from_u64(0);

    // Create two initial candidate solutions based on the puzzle
    let mut ancestor_1 = puzzle.new_chromosome_solution(&mut rng);
    let ancestor_2 = puzzle.new_chromosome_solution(&mut rng);

    // Mutate the first ancestor
    puzzle.chromosome_mutation(&mut ancestor_1, 500, 5, &mut rng);

    // Perform a uniform cross between the mutated ancestor_1 and ancestor_2
    let (child_1, child_2) = puzzle.uniform_cross(&ancestor_1, &ancestor_2, 500, &mut rng);

    // Convert the children back into puzzles
    let mutated_1 = NonogramPuzzle::from_solution(&child_1);
    let mutated_2 = NonogramPuzzle::from_solution(&child_2);

    // Assert that both children have the same row_constraints as the original puzzle
    assert_eq!(puzzle.row_constraints, mutated_1.row_constraints);
    assert_eq!(puzzle.row_constraints, mutated_2.row_constraints);
}

// Two-point crossover with the swap block exchanged preserves row constraints
// as well, and a zero probability returns verbatim copies of the parents.
#[test]
fn same_puzzle_after_two_point_cross() {
    let puzzle = tree_nonogram_puzzle();
    let mut rng = StdRng::seed_from_u64(7);

    let ancestor_1 = puzzle.new_chromosome_solution(&mut rng);
    let ancestor_2 = puzzle.new_chromosome_solution(&mut rng);

    let (child_1, child_2) = puzzle.two_point_cross(&ancestor_1, &ancestor_2, 1000, &mut rng);
    let mutated_1 = NonogramPuzzle::from_solution(&child_1);
    let mutated_2 = NonogramPuzzle::from_solution(&child_2);
    assert_eq!(puzzle.row_constraints, mutated_1.row_constraints);
    assert_eq!(puzzle.row_constraints, mutated_2.row_constraints);

    // with probability zero the children are verbatim clones
    let (copy_1, copy_2) = puzzle.two_point_cross(&ancestor_1, &ancestor_2, 0, &mut rng);
    assert_eq!(copy_1.solution_grid, ancestor_1.solution_grid);
    assert_eq!(copy_2.solution_grid, ancestor_2.solution_grid);
}

// Oracle check for the slidable scan: every pair it emits, once swapped,
// leaves the row's derived constraints unchanged.
#[test]
fn slidable_swaps_preserve_row_constraints() {
    let rows: Vec<Vec<usize>> = vec![
        vec![0, 1, 1, 0],
        vec![0, 1, 1, 0, 2, 2, 0],
        vec![0, 1, 2, 1, 0],
        vec![1, 0, 2, 0, 1],
        vec![1, 0, 1, 0, 1],
        vec![1, 0, 0, 1],
        vec![0, 0, 3, 3, 3, 0, 3, 0],
    ];
    for row in rows {
        let pairs = nonogram::NonogramPuzzle::get_slidables(&row);
        let before = nonogram::NonogramSolution {
            solution_grid: vec![row.clone()],
        }
        .row_constraints();
        for &(a, b) in &pairs {
            let mut swapped = row.clone();
            swapped.swap(a, b);
            let after = nonogram::NonogramSolution {
                solution_grid: vec![swapped],
            }
            .row_constraints();
            assert_eq!(before, after, "swapping {:?} in {:?} changed the row", (a, b), row);
        }
    }
}

//! The palette helpers and the grid editing operations.

use nonogram::tree_empty_nonogram_solution;
use nonogram::tree_nonogram_file;
use nonogram::tree_nonogram_palette;
use nonogram::NonogramPalette;
use nonogram::NonogramSolution;

#[test]
fn palette_len_get_and_brush() {
    let mut palette = tree_nonogram_palette();
    assert_eq!(palette.len(), 3);
    assert_eq!(palette.get(0), "#87ceeb");
    assert_eq!(palette.get(1), "#228b22");
    assert_eq!(palette.get_current(), "#87ceeb");
    palette.set_brush(2);
    assert_eq!(palette.get_current(), "#8b4513");
    // an out-of-range index leaves the brush alone
    palette.set_brush(9);
    assert_eq!(palette.brush, 2);
}

#[test]
fn palette_add_set_and_remove() {
    let mut palette = tree_nonogram_palette();
    palette.add_color(String::from("#000000"));
    assert_eq!(palette.len(), 4);
    assert_eq!(palette.get(3), "#000000");
    palette.set_brush(3);
    palette.set_current(String::from("#111111"));
    assert_eq!(palette.get_current(), "#111111");
    palette.remove_color(0);
    assert_eq!(palette.len(), 3);
    // removing steps the brush back by one
    assert_eq!(palette.brush, 2);
    assert_eq!(palette.get(2), "#111111");
}

#[test]
fn show_brush_formats_index_and_color() {
    let mut palette = tree_nonogram_palette();
    assert_eq!(palette.show_brush(), "0 -> #87ceeb");
    palette.set_brush(2);
    assert_eq!(palette.show_brush(), "2 -> #8b4513");
}

#[test]
fn text_color_follows_luminance() {
    let palette = tree_nonogram_palette();
    // sky blue is light: black text; forest green is dark: white text
    assert_eq!(palette.text_color(0), "#000000");
    assert_eq!(palette.text_color(1), "#ffffff");
    assert_eq!(palette.border_color(0), "#9ca3af");
    assert_eq!(palette.border_color(1), "#ffffff");
}

#[test]
fn text_color_of_unparsable_color_is_empty() {
    let palette = NonogramPalette {
        color_palette: vec![String::from("not-a-color")],
        brush: 0,
    };
    assert_eq!(palette.text_color(0), "");
    assert_eq!(palette.border_color(0), "#9ca3af");
}

#[test]
fn draw_line_paints_horizontal_and_vertical() {
    let mut solution = tree_empty_nonogram_solution();
    solution.draw_line((1, 0), (1, 3), 1);
    assert_eq!(solution.solution_grid[1], vec![1, 1, 1, 1, 0]);
    solution.draw_line((0, 2), (4, 2), 2);
    for row in 0..5 {
        assert_eq!(solution.solution_grid[row][2], 2);
    }
    // the wider horizontal span wins a diagonal tie
    let mut tied = tree_empty_nonogram_solution();
    tied.draw_line((0, 0), (2, 2), 1);
    assert_eq!(tied.solution_grid[0], vec![1, 1, 1, 0, 0]);
}

#[test]
fn in_line_checks_the_stroke() {
    let solution = tree_empty_nonogram_solution();
    assert!(solution.in_line(Some((1, 0)), Some((1, 3)), (1, 2)));
    assert!(!solution.in_line(Some((1, 0)), Some((1, 3)), (2, 2)));
    assert!(solution.in_line(Some((0, 2)), Some((4, 2)), (3, 2)));
    assert!(!solution.in_line(None, Some((1, 3)), (1, 2)));
    assert!(!solution.in_line(Some((1, 0)), None, (1, 0)));
}

#[test]
fn set_cols_and_rows_resize_with_background() {
    let mut solution = tree_nonogram_file().solution;
    solution.set_cols(7);
    assert_eq!(solution.cols(), 7);
    assert_eq!(solution.solution_grid[0], vec![0, 1, 1, 1, 0, 0, 0]);
    solution.set_cols(3);
    assert_eq!(solution.solution_grid[0], vec![0, 1, 1]);
    solution.set_rows(6);
    assert_eq!(solution.rows(), 6);
    assert_eq!(solution.solution_grid[5], vec![0, 0, 0]);
    solution.set_rows(2);
    assert_eq!(solution.rows(), 2);
    // the floor of two rows and columns holds
    solution.set_rows(0);
    solution.set_cols(0);
    assert_eq!(solution.rows(), 2);
    assert_eq!(solution.cols(), 2);
}

#[test]
fn clear_blanks_every_cell() {
    let mut solution = tree_nonogram_file().solution;
    solution.clear();
    for row in &solution.solution_grid {
        for &cell in row {
            assert_eq!(cell, 0);
        }
    }
}

#[test]
fn slide_shifts_and_fills_with_background() {
    let mut solution = tree_nonogram_file().solution;
    let before = solution.solution_grid.clone();
    solution.slide(1, 0);
    for row in 0..5 {
        assert_eq!(solution.solution_grid[row][0], 0);
        for col in 1..5 {
            assert_eq!(solution.solution_grid[row][col], before[row][col - 1]);
        }
    }
    let mut up = NonogramSolution {
        solution_grid: before.clone(),
    };
    up.slide(0, -1);
    for row in 0..4 {
        assert_eq!(up.solution_grid[row], before[row + 1]);
    }
    assert_eq!(up.solution_grid[4], vec![0, 0, 0, 0, 0]);
}

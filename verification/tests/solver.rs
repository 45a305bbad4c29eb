use sudoku::solve_count;

fn solved() -> Vec<Vec<i32>> {
    vec![
        vec![1, 2, 3, 4, 5, 6, 7, 8, 9],
        vec![4, 5, 6, 7, 8, 9, 1, 2, 3],
        vec![7, 8, 9, 1, 2, 3, 4, 5, 6],
        vec![2, 1, 4, 3, 6, 5, 8, 9, 7],
        vec![3, 6, 5, 8, 9, 7, 2, 1, 4],
        vec![8, 9, 7, 2, 1, 4, 3, 6, 5],
        vec![5, 3, 1, 6, 4, 2, 9, 7, 8],
        vec![6, 4, 2, 9, 7, 8, 5, 3, 1],
        vec![9, 7, 8, 5, 3, 1, 6, 4, 2],
    ]
}

fn completions(grid: &Vec<Vec<i32>>) -> i32 {
    let mut count = 0;
    solve_count(grid, 0, 0, &mut count);
    count
}

#[test]
fn a_solved_grid_has_one_completion() {
    assert_eq!(completions(&solved()), 1);
}

#[test]
fn a_full_grid_counts_once_even_with_repeated_digits() {
    let mut grid = solved();
    grid[0][0] = 2;
    assert_eq!(completions(&grid), 1);
}

#[test]
fn one_gap_in_a_solved_grid_has_one_completion() {
    for (row, col) in [(0, 0), (4, 4), (8, 8), (2, 7)] {
        let mut grid = solved();
        grid[row][col] = 0;
        assert_eq!(completions(&grid), 1);
    }
}

#[test]
fn an_emptied_row_has_one_completion() {
    let mut grid = solved();
    grid[0] = vec![0; 9];
    assert_eq!(completions(&grid), 1);
}

#[test]
fn four_gaps_that_swap_two_digits_have_two_completions() {
    // Rows 0 and 3 hold 1 2 and 2 1 in columns 0 and 1: the two digits can change
    // places in both rows at once.
    let mut grid = solved();
    grid[0][0] = 0;
    grid[0][1] = 0;
    grid[3][0] = 0;
    grid[3][1] = 0;
    assert_eq!(completions(&grid), 2);
}

#[test]
fn three_of_those_four_gaps_have_one_completion() {
    let mut grid = solved();
    grid[0][0] = 0;
    grid[0][1] = 0;
    grid[3][0] = 0;
    assert_eq!(completions(&grid), 1);
}

#[test]
fn two_emptied_rows_have_eight_completions() {
    // Each column lacks two digits; the choices chain in three cycles of three
    // columns, and each cycle can be settled in two ways.
    let mut grid = solved();
    grid[0] = vec![0; 9];
    grid[1] = vec![0; 9];
    assert_eq!(completions(&grid), 8);
}

#[test]
fn an_emptied_band_has_1728_completions() {
    let mut grid = solved();
    grid[0] = vec![0; 9];
    grid[1] = vec![0; 9];
    grid[2] = vec![0; 9];
    assert_eq!(completions(&grid), 1728);
}

#[test]
fn a_gap_that_no_digit_fits_has_no_completion() {
    let mut grid = vec![vec![0; 9]; 9];
    grid[0] = vec![0, 1, 2, 3, 4, 5, 6, 7, 8];
    grid[5][0] = 9;
    assert_eq!(completions(&grid), 0);
}

#[test]
fn the_count_is_added_to_what_the_counter_holds() {
    let mut grid = solved();
    grid[0] = vec![0; 9];
    grid[1] = vec![0; 9];
    let mut count = 5;
    solve_count(&grid, 0, 0, &mut count);
    assert_eq!(count, 13);
    solve_count(&grid, 0, 0, &mut count);
    assert_eq!(count, 21);
}

#[test]
fn the_count_stops_at_the_largest_value() {
    let mut grid = solved();
    grid[0] = vec![0; 9];
    grid[1] = vec![0; 9];
    let mut count = i32::MAX - 3;
    solve_count(&grid, 0, 0, &mut count);
    assert_eq!(count, i32::MAX);
    solve_count(&solved(), 0, 0, &mut count);
    assert_eq!(count, i32::MAX);
}

#[test]
fn past_the_last_cell_the_grid_counts_once() {
    let mut count = 0;
    solve_count(&vec![vec![0; 9]; 9], 8, 9, &mut count);
    assert_eq!(count, 1);
}

#[test]
fn cells_before_the_cursor_are_left_alone() {
    let mut grid = solved();
    grid[0] = vec![0; 9];
    grid[1] = vec![0; 9];
    let mut count = 0;
    // From row 2 on nothing is empty.
    solve_count(&grid, 2, 0, &mut count);
    assert_eq!(count, 1);
    // Row 0 stays empty, so every digit that column and box allow fits into row 1.
    let mut count = 0;
    solve_count(&grid, 1, 0, &mut count);
    assert_eq!(count, 8);
}

#[test]
fn column_nine_stands_for_the_start_of_the_next_row() {
    let mut grid = solved();
    grid[0] = vec![0; 9];
    grid[1] = vec![0; 9];
    let mut at_end_of_row = 0;
    solve_count(&grid, 0, 9, &mut at_end_of_row);
    let mut at_start_of_next = 0;
    solve_count(&grid, 1, 0, &mut at_start_of_next);
    assert_eq!(at_end_of_row, at_start_of_next);
    assert_eq!(at_end_of_row, 8);
}

#[test]
fn the_grid_is_not_changed_by_counting() {
    let mut grid = solved();
    grid[0] = vec![0; 9];
    let before = grid.clone();
    assert_eq!(completions(&grid), 1);
    assert_eq!(grid, before);
}

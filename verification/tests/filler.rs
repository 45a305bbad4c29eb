use sudoku::{create_sudoku, fill, fill_recursive, solve_count};

fn blank() -> Vec<Vec<i32>> {
    vec![vec![0; 9]; 9]
}

fn rising() -> Vec<i32> {
    vec![1, 2, 3, 4, 5, 6, 7, 8, 9]
}

fn first_in_rising_order() -> Vec<Vec<i32>> {
    vec![
        vec![1, 2, 3, 4, 5, 6, 7, 8, 9],
        vec![4, 5, 6, 7, 8, 9, 1, 2, 3],
        vec![7, 8, 9, 1, 2, 3, 4, 5, 6],
        vec![2, 1, 4, 3, 6, 5, 8, 9, 7],
        vec![3, 6, 5, 8, 9, 7, 2, 1, 4],
        vec![8, 9, 7, 2, 1, 4, 3, 6, 5],
        vec![5, 3, 1, 6, 4, 2, 9, 7, 8],
        vec![6, 4, 2, 9, 7, 8, 5, 3, 1],
        vec![9, 7, 8, 5, 3, 1, 6, 4, 2],
    ]
}

fn holds_each_digit_once(cells: &[i32]) -> bool {
    (1..=9).all(|digit| cells.iter().filter(|&&cell| cell == digit).count() == 1)
}

fn is_solved(grid: &Vec<Vec<i32>>) -> bool {
    if grid.len() != 9 || grid.iter().any(|row| row.len() != 9) {
        return false;
    }
    for i in 0..9 {
        let row: Vec<i32> = grid[i].clone();
        let col: Vec<i32> = (0..9).map(|r| grid[r][i]).collect();
        let block: Vec<i32> = (0..9).map(|k| grid[3 * (i / 3) + k / 3][3 * (i % 3) + k % 3]).collect();
        if !holds_each_digit_once(&row) || !holds_each_digit_once(&col) || !holds_each_digit_once(&block) {
            return false;
        }
    }
    true
}

#[test]
fn the_blank_grid_is_filled_with_the_first_solution_in_rising_order() {
    let mut grid = blank();
    assert!(fill_recursive(&mut grid, &rising()));
    assert_eq!(grid, first_in_rising_order());
}

#[test]
fn the_blank_grid_is_filled_with_the_first_solution_in_falling_order() {
    let mut grid = blank();
    assert!(fill_recursive(&mut grid, &vec![9, 8, 7, 6, 5, 4, 3, 2, 1]));
    let expected = vec![
        vec![9, 8, 7, 6, 5, 4, 3, 2, 1],
        vec![6, 5, 4, 3, 2, 1, 9, 8, 7],
        vec![3, 2, 1, 9, 8, 7, 6, 5, 4],
        vec![8, 9, 6, 7, 4, 5, 2, 1, 3],
        vec![7, 4, 5, 2, 1, 3, 8, 9, 6],
        vec![2, 1, 3, 8, 9, 6, 7, 4, 5],
        vec![5, 7, 9, 4, 6, 8, 1, 3, 2],
        vec![4, 6, 8, 1, 3, 2, 5, 7, 9],
        vec![1, 3, 2, 5, 7, 9, 4, 6, 8],
    ];
    assert_eq!(grid, expected);
}

#[test]
fn another_order_of_the_digits_renames_the_digits_of_the_result() {
    let order = vec![5, 3, 9, 1, 7, 2, 8, 6, 4];
    let mut grid = blank();
    assert!(fill_recursive(&mut grid, &order));
    let rising = first_in_rising_order();
    for row in 0..9 {
        for col in 0..9 {
            assert_eq!(grid[row][col], order[(rising[row][col] - 1) as usize]);
        }
    }
    assert_eq!(grid[0], order);
}

#[test]
fn every_filled_grid_is_solved() {
    let orders = [
        vec![1, 2, 3, 4, 5, 6, 7, 8, 9],
        vec![9, 8, 7, 6, 5, 4, 3, 2, 1],
        vec![5, 3, 9, 1, 7, 2, 8, 6, 4],
        vec![2, 4, 6, 8, 1, 3, 5, 7, 9],
    ];
    for order in orders {
        let mut grid = blank();
        assert!(fill_recursive(&mut grid, &order));
        assert!(is_solved(&grid));
    }
}

#[test]
fn filled_cells_are_kept() {
    let mut grid = blank();
    grid[0][0] = 9;
    grid[4][4] = 1;
    grid[8][8] = 5;
    assert!(fill_recursive(&mut grid, &rising()));
    let expected = vec![
        vec![9, 1, 2, 3, 4, 5, 6, 7, 8],
        vec![3, 4, 5, 6, 7, 8, 1, 2, 9],
        vec![6, 7, 8, 1, 2, 9, 3, 5, 4],
        vec![1, 2, 3, 4, 5, 6, 8, 9, 7],
        vec![4, 5, 9, 8, 1, 7, 2, 3, 6],
        vec![7, 8, 6, 2, 9, 3, 5, 4, 1],
        vec![2, 6, 7, 5, 8, 4, 9, 1, 3],
        vec![5, 3, 4, 9, 6, 1, 7, 8, 2],
        vec![8, 9, 1, 7, 3, 2, 4, 6, 5],
    ];
    assert_eq!(grid, expected);
    assert!(is_solved(&grid));
}

#[test]
fn a_full_grid_is_left_as_it_is() {
    let mut grid = first_in_rising_order();
    assert!(fill_recursive(&mut grid, &vec![9, 8, 7, 6, 5, 4, 3, 2, 1]));
    assert_eq!(grid, first_in_rising_order());
}

#[test]
fn a_grid_without_completion_is_reported_and_left_as_it_is() {
    let mut grid = blank();
    grid[0] = vec![0, 1, 2, 3, 4, 5, 6, 7, 8];
    grid[5][0] = 9;
    let before = grid.clone();
    assert!(!fill_recursive(&mut grid, &rising()));
    assert_eq!(grid, before);
}

#[test]
fn a_dead_end_found_by_backtracking_leaves_the_grid_as_it_is() {
    // The two gaps of row 0 both need the 9: the first takes it, the second fails,
    // and no other digit fits the first.
    let mut grid = blank();
    grid[0] = vec![1, 2, 3, 4, 5, 6, 7, 0, 0];
    grid[1][7] = 8;
    grid[2][8] = 8;
    let before = grid.clone();
    assert!(!fill_recursive(&mut grid, &rising()));
    assert_eq!(grid, before);
    let mut count = 0;
    solve_count(&before, 0, 0, &mut count);
    assert_eq!(count, 0);
}

#[test]
fn the_same_order_gives_the_same_grid() {
    let order = vec![4, 1, 8, 2, 9, 6, 3, 7, 5];
    let mut first = blank();
    let mut second = blank();
    assert!(fill_recursive(&mut first, &order));
    assert!(fill_recursive(&mut second, &order));
    assert_eq!(first, second);
}

#[test]
fn fill_completes_a_grid_that_can_be_completed() {
    let mut grid = blank();
    grid[0][0] = 9;
    grid[4][4] = 1;
    fill(&mut grid);
    assert!(is_solved(&grid));
    assert_eq!(grid[0][0], 9);
    assert_eq!(grid[4][4], 1);
}

#[test]
fn fill_leaves_a_grid_without_completion_as_it_is() {
    let mut grid = blank();
    grid[0] = vec![0, 1, 2, 3, 4, 5, 6, 7, 8];
    grid[5][0] = 9;
    let before = grid.clone();
    fill(&mut grid);
    assert_eq!(grid, before);
}

#[test]
fn created_grids_are_solved() {
    for _ in 0..20 {
        let grid = create_sudoku();
        assert!(is_solved(&grid));
        let mut count = 0;
        solve_count(&grid, 0, 0, &mut count);
        assert_eq!(count, 1);
    }
}

#[test]
fn a_created_grid_is_the_first_solution_in_the_order_of_its_top_row() {
    let grid = create_sudoku();
    let order = grid[0].clone();
    let mut again = blank();
    assert!(fill_recursive(&mut again, &order));
    assert_eq!(again, grid);
}

#[test]
fn created_grids_do_not_all_start_in_rising_order() {
    let mut other_order_seen = false;
    for _ in 0..5 {
        if create_sudoku()[0] != rising() {
            other_order_seen = true;
        }
    }
    assert!(other_order_seen);
}

use sudoku::remover::PICKS_PER_PASS;
use sudoku::{create_sudoku, remove_cells, solve_count, try_remove};

fn solved() -> Vec<Vec<i32>> {
    vec![
        vec![1, 2, 3, 4, 5, 6, 7, 8, 9],
        vec![4, 5, 6, 7, 8, 9, 1, 2, 3],
        vec![7, 8, 9, 1, 2, 3, 4, 5, 6],
        vec![2, 1, 4, 3, 6, 5, 8, 9, 7],
        vec![3, 6, 5, 8, 9, 7, 2, 1, 4],
        vec![8, 9, 7, 2, 1, 4, 3, 6, 5],
        vec![5, 3, 1, 6, 4, 2, 9, 7, 8],
        vec![6, 4, 2, 9, 7, 8, 5, 3, 1],
        vec![9, 7, 8, 5, 3, 1, 6, 4, 2],
    ]
}

fn completions(grid: &Vec<Vec<i32>>) -> i32 {
    let mut count = 0;
    solve_count(grid, 0, 0, &mut count);
    count
}

fn filled(grid: &Vec<Vec<i32>>) -> usize {
    grid.iter().map(|row| row.iter().filter(|&&cell| cell != 0).count()).sum()
}

fn is_part_of(puzzle: &Vec<Vec<i32>>, solution: &Vec<Vec<i32>>) -> bool {
    (0..9).all(|row| (0..9).all(|col| puzzle[row][col] == 0 || puzzle[row][col] == solution[row][col]))
}

#[test]
fn a_pass_makes_a_hundred_picks() {
    assert_eq!(PICKS_PER_PASS, 100);
}

#[test]
fn any_one_cell_of_a_solved_grid_can_be_cleared() {
    for row in 0..9 {
        for col in 0..9 {
            let mut grid = solved();
            assert!(try_remove(&mut grid, row, col));
            let mut expected = solved();
            expected[row][col] = 0;
            assert_eq!(grid, expected);
        }
    }
}

#[test]
fn an_empty_cell_is_left_alone() {
    let mut grid = solved();
    assert!(try_remove(&mut grid, 2, 2));
    let before = grid.clone();
    assert!(!try_remove(&mut grid, 2, 2));
    assert_eq!(grid, before);
}

#[test]
fn a_cell_is_put_back_where_clearing_it_allows_a_second_solution() {
    let mut grid = solved();
    assert!(try_remove(&mut grid, 0, 0));
    assert!(try_remove(&mut grid, 0, 1));
    assert!(try_remove(&mut grid, 3, 0));
    let before = grid.clone();
    assert!(!try_remove(&mut grid, 3, 1));
    assert_eq!(grid, before);
    assert_eq!(grid[3][1], 1);
    assert_eq!(completions(&grid), 1);
    let mut without = grid.clone();
    without[3][1] = 0;
    assert_eq!(completions(&without), 2);
}

#[test]
fn the_same_picks_give_the_same_puzzle() {
    let picks = [
        (0, 0), (4, 4), (8, 8), (0, 1), (3, 0), (3, 1), (4, 4), (7, 2), (2, 7), (5, 5), (1, 3),
        (6, 6), (0, 8), (8, 0), (3, 3), (1, 1), (2, 2), (7, 7), (6, 1), (1, 6), (4, 0), (0, 4),
    ];
    let mut first = solved();
    let mut second = solved();
    let mut first_answers = Vec::new();
    let mut second_answers = Vec::new();
    for (row, col) in picks {
        first_answers.push(try_remove(&mut first, row, col));
    }
    for (row, col) in picks {
        second_answers.push(try_remove(&mut second, row, col));
    }
    assert_eq!(first, second);
    assert_eq!(first_answers, second_answers);
    assert_eq!(completions(&first), 1);
    assert!(is_part_of(&first, &solved()));
    let cleared = first_answers.iter().filter(|&&answer| answer).count();
    assert_eq!(filled(&first), 81 - cleared);
}

#[test]
fn a_puzzle_is_part_of_its_solved_grid_and_has_one_solution() {
    let mut grid = solved();
    let puzzle = remove_cells(&mut grid, 40);
    assert_eq!(puzzle, grid);
    assert!(is_part_of(&puzzle, &solved()));
    assert_eq!(completions(&puzzle), 1);
    assert!(filled(&puzzle) <= 80);
}

#[test]
fn a_generated_puzzle_is_part_of_its_solved_grid_and_has_one_solution() {
    let mut grid = create_sudoku();
    let solution = grid.clone();
    let puzzle = remove_cells(&mut grid, 40);
    assert_eq!(puzzle, grid);
    assert_eq!(puzzle.len(), 9);
    assert!(puzzle.iter().all(|row| row.len() == 9));
    assert!(is_part_of(&puzzle, &solution));
    assert_eq!(completions(&puzzle), 1);
    assert!(filled(&puzzle) <= 81);
    // The first pick of the first pass always clears its cell.
    assert!(filled(&puzzle) <= 80);
}

#[test]
fn one_pass_is_made_even_where_nothing_needs_clearing() {
    let mut grid = solved();
    let puzzle = remove_cells(&mut grid, 81);
    assert!(filled(&puzzle) <= 80);
    assert!(is_part_of(&puzzle, &solved()));
    assert_eq!(completions(&puzzle), 1);
}

#[test]
fn the_picks_are_spread_over_the_grid() {
    let mut grid = solved();
    let puzzle = remove_cells(&mut grid, 40);
    assert!(filled(&puzzle) < 80);
    let rows_touched = (0..9).filter(|&row| puzzle[row].iter().any(|&cell| cell == 0)).count();
    assert!(rows_touched > 1);
    let cols_touched = (0..9).filter(|&col| (0..9).any(|row| puzzle[row][col] == 0)).count();
    assert!(cols_touched > 1);
}

#[test]
fn a_high_target_stops_after_the_pass_that_reaches_it() {
    // A pass makes a hundred picks, so it clears at most 81 cells and, on a solved
    // grid, at least one; with the target at 80 the first pass reaches it.
    let mut grid = solved();
    let puzzle = remove_cells(&mut grid, 80);
    assert!(filled(&puzzle) <= 80);
    assert_eq!(completions(&puzzle), 1);
}

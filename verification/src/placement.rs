//! The placement rules: whether a digit may be written into a cell.

use vstd::prelude::*;
use crate::board::{before, box_has, col_has, in_bounds, is_first_empty, is_full, is_grid, row_has, safe};

verus! {

/// Whether `num` occurs in row `row`.
pub fn used_in_row(grid: &Vec<Vec<i32>>, row: usize, num: i32) -> (used: bool)
    requires
        is_grid(grid.deep_view()),
        row < 9,
    ensures
        used == row_has(grid.deep_view(), row as int, num),
{
    let ghost g = grid.deep_view();
    let mut col: usize = 0;
    while col < 9
        invariant
            g == grid.deep_view(),
            is_grid(g),
            row < 9,
            col <= 9,
            forall|c: int| 0 <= c < col ==> #[trigger] g[row as int][c] != num,
        decreases 9 - col,
    {
        assert(g[row as int].len() == 9);
        if grid[row][col] == num {
            assert(g[row as int][col as int] == num);
            return true;
        }
        col += 1;
    }
    false
}

/// Whether `num` occurs in column `col`.
pub fn used_in_col(grid: &Vec<Vec<i32>>, col: usize, num: i32) -> (used: bool)
    requires
        is_grid(grid.deep_view()),
        col < 9,
    ensures
        used == col_has(grid.deep_view(), col as int, num),
{
    let ghost g = grid.deep_view();
    let mut row: usize = 0;
    while row < 9
        invariant
            g == grid.deep_view(),
            is_grid(g),
            col < 9,
            row <= 9,
            forall|r: int| 0 <= r < row ==> #[trigger] g[r][col as int] != num,
        decreases 9 - row,
    {
        assert(g[row as int].len() == 9);
        if grid[row][col] == num {
            assert(g[row as int][col as int] == num);
            return true;
        }
        row += 1;
    }
    false
}

/// Whether `num` occurs in the 3×3 block whose top left cell is `(row, col)`.
pub fn used_in_box(grid: &Vec<Vec<i32>>, row: usize, col: usize, num: i32) -> (used: bool)
    requires
        is_grid(grid.deep_view()),
        row <= 6,
        col <= 6,
    ensures
        used == box_has(grid.deep_view(), row as int, col as int, num),
{
    let ghost g = grid.deep_view();
    let mut i: usize = 0;
    while i < 3
        invariant
            g == grid.deep_view(),
            is_grid(g),
            row <= 6,
            col <= 6,
            i <= 3,
            forall|a: int, b: int| 0 <= a < i && 0 <= b < 3 ==> #[trigger] g[row + a][col + b] != num,
        decreases 3 - i,
    {
        let mut j: usize = 0;
        while j < 3
            invariant
                g == grid.deep_view(),
                is_grid(g),
                row <= 6,
                col <= 6,
                i < 3,
                j <= 3,
                forall|a: int, b: int| 0 <= a < i && 0 <= b < 3 ==> #[trigger] g[row + a][col + b] != num,
                forall|b: int| 0 <= b < j ==> #[trigger] g[row + i][col + b] != num,
            decreases 3 - j,
        {
            assert(g[row + i].len() == 9);
            if grid[i + row][j + col] == num {
                assert(g[row + i][col + j] == num);
                return true;
            }
            j += 1;
        }
        i += 1;
    }
    false
}

/// Whether `num` may be written at `(row, col)` without repeating a digit of that
/// cell's row, column or box.
pub fn is_safe(grid: &Vec<Vec<i32>>, row: usize, col: usize, num: i32) -> (ok: bool)
    requires
        is_grid(grid.deep_view()),
        row < 9,
        col < 9,
    ensures
        ok == safe(grid.deep_view(), row as int, col as int, num),
{
    !used_in_row(grid, row, num) && !used_in_col(grid, col, num) && !used_in_box(
        grid,
        row - row % 3,
        col - col % 3,
        num,
    )
}

/// The first empty cell in row-major order, or `None` when the grid is full.
pub fn find_empty_location(grid: &Vec<Vec<i32>>) -> (found: Option<(usize, usize)>)
    requires
        is_grid(grid.deep_view()),
    ensures
        match found {
            Some((row, col)) => is_first_empty(grid.deep_view(), row as int, col as int),
            None => is_full(grid.deep_view()),
        },
{
    let ghost g = grid.deep_view();
    let mut row: usize = 0;
    while row < 9
        invariant
            g == grid.deep_view(),
            is_grid(g),
            row <= 9,
            forall|r: int, c: int| #[trigger] in_bounds(r, c) && r < row ==> g[r][c] != 0,
        decreases 9 - row,
    {
        let mut col: usize = 0;
        while col < 9
            invariant
                g == grid.deep_view(),
                is_grid(g),
                row < 9,
                col <= 9,
                forall|r: int, c: int| #[trigger] in_bounds(r, c) && before(r, c, row as int, col as int) ==> g[r][c] != 0,
            decreases 9 - col,
        {
            assert(g[row as int].len() == 9);
            if grid[row][col] == 0 {
                return Some((row, col));
            }
            col += 1;
        }
        row += 1;
    }
    None
}

} // verus!

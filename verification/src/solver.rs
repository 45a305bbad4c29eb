//! The uniqueness oracle: an exhaustive count of the completions of a grid.

use vstd::prelude::*;
use vstd::set_lib::lemma_set_disjoint_lens;
use crate::board::{before, in_bounds, is_grid, safe, with_cell, Board};
use crate::placement::is_safe;
use crate::completion::{
    completes_from, completions_from, lemma_branch, lemma_completions_at_end, lemma_cursor_moves,
    lemma_with_cell,
};

verus! {

/// `count` raised by `n`, stopping at the largest `i32`.
pub open spec fn add_capped(count: i32, n: nat) -> int {
    if count + n <= i32::MAX {
        count + n
    } else {
        i32::MAX as int
    }
}

/// The completions from `(r0, c0)` on that hold `d` at `(r0, c0)`.
spec fn branch(g: Board, r0: int, c0: int, d: i32) -> Set<Board> {
    Set::new(|s: Board| completes_from(s, g, r0, c0) && s[r0][c0] == d)
}

/// The completions from `(r0, c0)` on that hold a digit below `k` at `(r0, c0)`.
spec fn branches_below(g: Board, r0: int, c0: int, k: int) -> Set<Board> {
    Set::new(|s: Board| completes_from(s, g, r0, c0) && s[r0][c0] < k)
}

/// The completions that hold `d` at an empty cursor cell are those of the grid with `d`
/// written in, taken from the next cell on, or none where `d` is not safe.
proof fn lemma_branch_set(g: Board, r0: int, c0: int, d: i32)
    requires
        is_grid(g),
        in_bounds(r0, c0),
        g[r0][c0] == 0,
        1 <= d <= 9,
    ensures
        branch(g, r0, c0, d) == if safe(g, r0, c0, d) {
            completions_from(with_cell(g, r0, c0, d), r0, c0 + 1)
        } else {
            Set::<Board>::empty()
        },
{
    assert forall|s: Board|
        (completes_from(s, g, r0, c0) && s[r0][c0] == d) <==> (safe(g, r0, c0, d)
            && completes_from(s, with_cell(g, r0, c0, d), r0, c0 + 1)) by {
        lemma_branch(s, g, r0, c0, d);
    }
    if safe(g, r0, c0, d) {
        assert(branch(g, r0, c0, d) =~= completions_from(with_cell(g, r0, c0, d), r0, c0 + 1));
    } else {
        assert(branch(g, r0, c0, d) =~= Set::<Board>::empty());
    }
}

/// The completions holding a digit below `k + 1` at the cursor are those holding one
/// below `k` together with those holding `k`, and the two parts share nothing.
proof fn lemma_branches_split(g: Board, r0: int, c0: int, k: i32)
    ensures
        branches_below(g, r0, c0, k + 1) == branches_below(g, r0, c0, k as int) + branch(g, r0, c0, k),
        branches_below(g, r0, c0, k as int).disjoint(branch(g, r0, c0, k)),
{
    assert(branches_below(g, r0, c0, k + 1) =~= branches_below(g, r0, c0, k as int) + branch(
        g,
        r0,
        c0,
        k,
    ));
}

/// At an empty cursor cell every completion holds a digit from 1 to 9 there.
proof fn lemma_branches_range(g: Board, r0: int, c0: int)
    requires
        in_bounds(r0, c0),
        g[r0][c0] == 0,
    ensures
        branches_below(g, r0, c0, 1) == Set::<Board>::empty(),
        branches_below(g, r0, c0, 10) == completions_from(g, r0, c0),
{
    assert(!before(r0, c0, r0, c0));
    assert(branches_below(g, r0, c0, 1) =~= Set::<Board>::empty());
    assert(branches_below(g, r0, c0, 10) =~= completions_from(g, r0, c0));
}

/// A grid has finitely many completions from any cursor on.
pub proof fn lemma_completions_finite(g: Board, r0: int, c0: int)
    requires
        is_grid(g),
        0 <= r0 <= 8,
        0 <= c0 <= 9,
    ensures
        completions_from(g, r0, c0).finite(),
    decreases 81 - (9 * r0 + c0), 2int, c0,
{
    if r0 == 8 && c0 == 9 {
        lemma_completions_at_end(g);
    } else if c0 == 9 {
        lemma_completions_finite(g, r0 + 1, 0);
        assert forall|s: Board| completes_from(s, g, r0, 9) == completes_from(s, g, r0 + 1, 0) by {
            lemma_cursor_moves(s, g, r0, 9, r0 + 1, 0);
        }
        assert(completions_from(g, r0, 9) =~= completions_from(g, r0 + 1, 0));
    } else if g[r0][c0] != 0 {
        lemma_completions_finite(g, r0, c0 + 1);
        assert forall|s: Board| completes_from(s, g, r0, c0) == completes_from(s, g, r0, c0 + 1) by {
            lemma_cursor_moves(s, g, r0, c0, r0, c0 + 1);
        }
        assert(completions_from(g, r0, c0) =~= completions_from(g, r0, c0 + 1));
    } else {
        lemma_branches_finite(g, r0, c0, 10);
        lemma_branches_range(g, r0, c0);
    }
}

/// At an empty cursor cell, finitely many completions hold a digit below `k` there.
proof fn lemma_branches_finite(g: Board, r0: int, c0: int, k: int)
    requires
        is_grid(g),
        in_bounds(r0, c0),
        g[r0][c0] == 0,
        1 <= k <= 10,
    ensures
        branches_below(g, r0, c0, k).finite(),
    decreases 81 - (9 * r0 + c0), 1int, k,
{
    if k == 1 {
        lemma_branches_range(g, r0, c0);
    } else {
        let d = (k - 1) as i32;
        lemma_branches_finite(g, r0, c0, k - 1);
        lemma_branch_set(g, r0, c0, d);
        if safe(g, r0, c0, d) {
            lemma_with_cell(g, r0, c0, d);
            lemma_completions_finite(with_cell(g, r0, c0, d), r0, c0 + 1);
        }
        lemma_branches_split(g, r0, c0, d);
    }
}

/// Adds to `count` the number of completions of `grid` from the cursor `(row, col)`
/// on, where `col == 9` stands for the start of the next row and `(8, 9)` for the end
/// of the grid. The count stops at `i32::MAX`.
pub fn solve_count(grid: &Vec<Vec<i32>>, row: usize, col: usize, count: &mut i32)
    requires
        is_grid(grid.deep_view()),
        row <= 8,
        col <= 9,
    ensures
        *final(count) == add_capped(
            *old(count),
            completions_from(grid.deep_view(), row as int, col as int).len(),
        ),
    decreases 81 - (9 * row + col),
{
    let ghost g = grid.deep_view();
    let ghost start = *count;
    if row == 8 && col == 9 {
        proof {
            lemma_completions_at_end(g);
        }
        if *count < i32::MAX {
            *count += 1;
        }
        return ;
    }
    let (mut r, mut c) = (row, col);
    if c == 9 {
        r += 1;
        c = 0;
        proof {
            assert forall|s: Board|
                completes_from(s, g, row as int, col as int) == completes_from(s, g, r as int, c as int) by {
                lemma_cursor_moves(s, g, row as int, col as int, r as int, c as int);
            }
            assert(completions_from(g, row as int, col as int) =~= completions_from(g, r as int, c as int));
        }
    }
    assert(g[r as int].len() == 9);
    if grid[r][c] == 0 {
        proof {
            lemma_branches_range(g, r as int, c as int);
        }
        let mut num: i32 = 1;
        while num <= 9
            invariant
                g == grid.deep_view(),
                is_grid(g),
                r <= 8,
                c <= 8,
                9 * r + c == 9 * row + col,
                g[r as int][c as int] == 0,
                1 <= num <= 10,
                *count == add_capped(start, branches_below(g, r as int, c as int, num as int).len()),
            decreases 10 - num,
        {
            proof {
                lemma_branches_finite(g, r as int, c as int, num as int);
                lemma_branch_set(g, r as int, c as int, num);
                lemma_branches_split(g, r as int, c as int, num);
            }
            if is_safe(grid, r, c, num) {
                let mut new_grid = grid.clone();
                new_grid[r][c] = num;
                proof {
                    lemma_with_cell(g, r as int, c as int, num);
                    assert(new_grid.deep_view() =~~= with_cell(g, r as int, c as int, num));
                    lemma_completions_finite(new_grid.deep_view(), r as int, c as int + 1);
                    lemma_set_disjoint_lens(
                        branches_below(g, r as int, c as int, num as int),
                        branch(g, r as int, c as int, num),
                    );
                }
                solve_count(&new_grid, r, c + 1, count);
            } else {
                assert(branches_below(g, r as int, c as int, num as int + 1) =~= branches_below(
                    g,
                    r as int,
                    c as int,
                    num as int,
                ));
            }
            num += 1;
        }
    } else {
        proof {
            assert forall|s: Board|
                completes_from(s, g, r as int, c as int) == completes_from(
                    s,
                    g,
                    r as int,
                    c as int + 1,
                ) by {
                lemma_cursor_moves(s, g, r as int, c as int, r as int, c as int + 1);
            }
            assert(completions_from(g, r as int, c as int) =~= completions_from(
                g,
                r as int,
                c as int + 1,
            ));
        }
        solve_count(grid, r, c + 1, count);
    }
}

} // verus!

//! The removal of cells from a solved grid, for as long as the puzzle keeps exactly
//! one solution.

use vstd::prelude::*;
use crate::board::{filled_cells, in_bounds, is_full, is_grid, is_part_of, with_cell, Board};
use crate::board::{lemma_filled_after_write, lemma_filled_bounds, lemma_full_means_all_filled};
use crate::completion::{completions, completes, is_solution};
use crate::completion::{
    lemma_full_grid_completes_itself, lemma_same_cells, lemma_solved_grid_spares_any_cell,
    lemma_with_cell,
};
use crate::random::random_in_range;
use crate::solver::{lemma_completions_finite, solve_count};

verus! {

/// How many picks one pass over the grid makes.
pub const PICKS_PER_PASS: usize = 100;

/// The grid after one attempt to clear `(r, c)`: the cell is cleared where it was
/// filled and the grid without it has exactly one completion; otherwise nothing
/// changes.
pub open spec fn after_attempt(g: Board, r: int, c: int) -> Board {
    if g[r][c] != 0 && completions(with_cell(g, r, c, 0)).len() == 1 {
        with_cell(g, r, c, 0)
    } else {
        g
    }
}

/// The grid after one attempt at each of `picks`, in their order.
pub open spec fn after_attempts(g: Board, picks: Seq<(int, int)>) -> Board
    decreases picks.len(),
{
    if picks.len() == 0 {
        g
    } else {
        let last = picks.last();
        after_attempt(after_attempts(g, picks.drop_last()), last.0, last.1)
    }
}

/// The grid after the first `n` passes over `picks`.
pub open spec fn after_passes(g: Board, picks: Seq<(int, int)>, n: int) -> Board {
    after_attempts(g, picks.take(PICKS_PER_PASS * n))
}

/// Whether another pass follows one that turned `start` into `end`: the pass cleared
/// a cell, and more cells are filled than `difficulty` asks for.
pub open spec fn goes_on(start: Board, end: Board, difficulty: int) -> bool {
    filled_cells(end) < filled_cells(start) && filled_cells(end) > difficulty
}

/// `out` is what the removal makes of `g` when its picks are `picks`, `passes` passes
/// in all: every pass but the last was followed by another, and the last was not.
pub open spec fn is_removal(
    out: Board,
    g: Board,
    difficulty: int,
    picks: Seq<(int, int)>,
    passes: int,
) -> bool {
    &&& passes >= 1
    &&& picks.len() == PICKS_PER_PASS * passes
    &&& forall|i: int| 0 <= i < picks.len() ==> in_bounds((#[trigger] picks[i]).0, picks[i].1)
    &&& out == after_attempts(g, picks)
    &&& forall|k: int|
        1 <= k < passes ==> goes_on(
            after_passes(g, picks, k - 1),
            #[trigger] after_passes(g, picks, k),
            difficulty,
        )
    &&& !goes_on(after_passes(g, picks, passes - 1), out, difficulty)
}

/// An attempt leaves a grid that is part of the grid before it, with one cell fewer
/// filled where it cleared one, and with exactly one completion where the grid
/// before it had exactly one.
pub proof fn lemma_after_attempt(g: Board, r: int, c: int)
    requires
        is_grid(g),
        in_bounds(r, c),
    ensures
        is_grid(after_attempt(g, r, c)),
        is_part_of(after_attempt(g, r, c), g),
        filled_cells(after_attempt(g, r, c)) == if after_attempt(g, r, c) == g {
            filled_cells(g)
        } else {
            filled_cells(g) - 1
        },
        completions(g).len() == 1 ==> completions(after_attempt(g, r, c)).len() == 1,
{
    lemma_with_cell(g, r, c, 0);
    lemma_filled_after_write(g, r, c, 0, 81);
}

/// Attempts leave a grid that is part of the grid they started from, with exactly one
/// completion where that grid had exactly one.
pub proof fn lemma_after_attempts(g: Board, picks: Seq<(int, int)>)
    requires
        is_grid(g),
        forall|i: int| 0 <= i < picks.len() ==> in_bounds((#[trigger] picks[i]).0, picks[i].1),
    ensures
        is_grid(after_attempts(g, picks)),
        is_part_of(after_attempts(g, picks), g),
        filled_cells(after_attempts(g, picks)) <= filled_cells(g),
        completions(g).len() == 1 ==> completions(after_attempts(g, picks)).len() == 1,
    decreases picks.len(),
{
    if picks.len() > 0 {
        let last = picks.last();
        let rest = picks.drop_last();
        assert forall|i: int| 0 <= i < rest.len() implies in_bounds((#[trigger] rest[i]).0, rest[i].1) by {
            assert(rest[i] == picks[i]);
        }
        lemma_after_attempts(g, rest);
        assert(in_bounds(last.0, last.1));
        lemma_after_attempt(after_attempts(g, rest), last.0, last.1);
    }
}

/// A puzzle made of cells of a solved grid has that grid among its completions; where
/// it has exactly one completion, the solved grid is that one.
pub proof fn lemma_part_of_solution(g: Board, s: Board)
    requires
        is_grid(g),
        is_solution(s),
        is_part_of(g, s),
    ensures
        completes(s, g),
        completions(g).len() == 1 ==> completions(g) == set![s],
{
    assert(completes(s, g));
    if completions(g).len() == 1 {
        lemma_completions_finite(g, 0, 0);
        assert(completions(g).contains(s));
        assert(completions(g).remove(s).len() == 0);
        assert(completions(g).remove(s) =~= Set::<Board>::empty());
        assert forall|t: Board| completions(g).contains(t) implies t == s by {
            if t != s {
                assert(completions(g).remove(s).contains(t));
            }
        }
        assert(completions(g) =~= set![s]);
    }
}

/// Of two removals from one grid with one target, neither goes on where the other has
/// stopped: where the picks of the first are the first picks of the second, the two
/// are the same removal.
pub proof fn lemma_removal_determined(
    out1: Board,
    out2: Board,
    g: Board,
    difficulty: int,
    picks1: Seq<(int, int)>,
    passes1: int,
    picks2: Seq<(int, int)>,
    passes2: int,
)
    requires
        is_removal(out1, g, difficulty, picks1, passes1),
        is_removal(out2, g, difficulty, picks2, passes2),
        picks1.len() <= picks2.len(),
        picks1 == picks2.take(picks1.len() as int),
    ensures
        passes1 == passes2,
        picks1 == picks2,
        out1 == out2,
{
    if passes1 < passes2 {
        assert(picks2.take(PICKS_PER_PASS * passes1) =~= picks1);
        assert(picks2.take(PICKS_PER_PASS * (passes1 - 1)) =~= picks1.take(
            PICKS_PER_PASS * (passes1 - 1),
        ));
        assert(after_passes(g, picks2, passes1) == out1);
        assert(after_passes(g, picks2, passes1 - 1) == after_passes(g, picks1, passes1 - 1));
        assert(goes_on(
            after_passes(g, picks2, passes1 - 1),
            after_passes(g, picks2, passes1),
            difficulty,
        ));
    }
    assert(picks2.take(picks2.len() as int) =~= picks2);
}

/// A pass more leaves the passes before it as they were.
proof fn lemma_pass_added(
    g: Board,
    difficulty: int,
    earlier: Seq<(int, int)>,
    picks: Seq<(int, int)>,
    passes: int,
)
    requires
        passes >= 0,
        earlier.len() == PICKS_PER_PASS * passes,
        picks.len() == earlier.len() + PICKS_PER_PASS,
        picks.take(earlier.len() as int) == earlier,
        forall|k: int|
            1 <= k <= passes ==> goes_on(
                after_passes(g, earlier, k - 1),
                #[trigger] after_passes(g, earlier, k),
                difficulty,
            ),
    ensures
        forall|k: int|
            1 <= k <= passes ==> goes_on(
                after_passes(g, picks, k - 1),
                #[trigger] after_passes(g, picks, k),
                difficulty,
            ),
        after_passes(g, picks, passes) == after_attempts(g, earlier),
        after_passes(g, picks, passes + 1) == after_attempts(g, picks),
{
    assert forall|k: int| 0 <= k <= passes implies after_passes(g, picks, k) == after_passes(
        g,
        earlier,
        k,
    ) by {
        assert(picks.take(PICKS_PER_PASS * k) =~= earlier.take(PICKS_PER_PASS * k));
    }
    assert forall|k: int| 1 <= k <= passes implies goes_on(
        after_passes(g, picks, k - 1),
        #[trigger] after_passes(g, picks, k),
        difficulty,
    ) by {
        assert(goes_on(after_passes(g, earlier, k - 1), after_passes(g, earlier, k), difficulty));
    }
    assert(earlier.take(earlier.len() as int) =~= earlier);
    assert(picks.take(picks.len() as int) =~= picks);
}

/// The first attempt on a solved grid clears its cell.
proof fn lemma_first_attempt_clears(g: Board, r: int, c: int)
    requires
        is_solution(g),
        in_bounds(r, c),
    ensures
        filled_cells(after_attempt(g, r, c)) <= 80,
{
    lemma_solved_grid_spares_any_cell(g, r, c);
    lemma_with_cell(g, r, c, 0);
    lemma_after_attempt(g, r, c);
    lemma_filled_bounds(g, 81);
    assert(after_attempt(g, r, c)[r][c] == 0);
}

/// One attempt to clear the cell `(row, col)`: the cell is cleared and stays so where
/// the grid without it has exactly one completion. Returns whether it was cleared.
pub fn try_remove(grid: &mut Vec<Vec<i32>>, row: usize, col: usize) -> (removed: bool)
    requires
        is_grid(old(grid).deep_view()),
        row < 9,
        col < 9,
    ensures
        final(grid).deep_view() == after_attempt(old(grid).deep_view(), row as int, col as int),
        removed == (old(grid).deep_view()[row as int][col as int] != 0 && completions(
            with_cell(old(grid).deep_view(), row as int, col as int, 0),
        ).len() == 1),
{
    let ghost g = grid.deep_view();
    assert(g[row as int].len() == 9);
    if grid[row][col] != 0 {
        let backup = grid[row][col];
        grid[row][col] = 0;
        proof {
            lemma_with_cell(g, row as int, col as int, 0);
            assert(grid.deep_view() =~~= with_cell(g, row as int, col as int, 0));
        }
        let mut count: i32 = 0;
        let temp_grid = grid.clone();
        solve_count(&temp_grid, 0, 0, &mut count);
        if count != 1 {
            grid[row][col] = backup;
            proof {
                let h = with_cell(g, row as int, col as int, 0);
                assert(grid.deep_view() =~~= with_cell(h, row as int, col as int, backup));
                lemma_with_cell(h, row as int, col as int, backup);
                lemma_same_cells(grid.deep_view(), g);
            }
            false
        } else {
            true
        }
    } else {
        false
    }
}

/// Clears cells of the solved grid `grid` for as long as the puzzle keeps exactly one
/// completion, and returns a copy of what is left. A pass makes a hundred attempts,
/// each at a cell drawn at random; passes follow one another until one clears nothing
/// or leaves no more than `difficulty` cells filled.
pub fn remove_cells(grid: &mut Vec<Vec<i32>>, difficulty: i32) -> (puzzle: Vec<Vec<i32>>)
    requires
        is_grid(old(grid).deep_view()),
        is_full(old(grid).deep_view()),
    ensures
        puzzle.deep_view() == final(grid).deep_view(),
        is_grid(final(grid).deep_view()),
        is_part_of(final(grid).deep_view(), old(grid).deep_view()),
        completions(final(grid).deep_view()).len() == 1,
        is_solution(old(grid).deep_view()) ==> filled_cells(final(grid).deep_view()) <= 80,
        exists|picks: Seq<(int, int)>, passes: int| #[trigger]
            is_removal(
                final(grid).deep_view(),
                old(grid).deep_view(),
                difficulty as int,
                picks,
                passes,
            ),
{
    let ghost g = grid.deep_view();
    let ghost mut picks: Seq<(int, int)> = Seq::empty();
    let ghost mut passes: int = 0;
    let mut cells: i32 = 81;
    let mut rng = rand::thread_rng();
    proof {
        lemma_full_means_all_filled(g);
        lemma_full_grid_completes_itself(g);
    }
    loop
        invariant_except_break
            forall|k: int|
                1 <= k <= passes ==> goes_on(
                    after_passes(g, picks, k - 1),
                    #[trigger] after_passes(g, picks, k),
                    difficulty as int,
                ),
        invariant
            g == old(grid).deep_view(),
            is_grid(g),
            completions(g).len() == 1,
            passes >= 0,
            picks.len() == PICKS_PER_PASS * passes,
            forall|i: int| 0 <= i < picks.len() ==> in_bounds((#[trigger] picks[i]).0, picks[i].1),
            grid.deep_view() == after_attempts(g, picks),
            cells == filled_cells(grid.deep_view()),
            0 <= cells <= 81,
            is_solution(g) && picks.len() > 0 ==> cells <= 80,
        ensures
            is_removal(grid.deep_view(), g, difficulty as int, picks, passes),
        decreases cells,
    {
        let old_cells = cells;
        let ghost earlier = picks;
        for attempt in 0..PICKS_PER_PASS
            invariant
                is_grid(g),
                picks.len() == earlier.len() + attempt,
                picks.take(earlier.len() as int) == earlier,
                forall|i: int| 0 <= i < picks.len() ==> in_bounds((#[trigger] picks[i]).0, picks[i].1),
                grid.deep_view() == after_attempts(g, picks),
                cells == filled_cells(grid.deep_view()),
                0 <= cells <= old_cells,
                is_solution(g) && picks.len() > 0 ==> cells <= 80,
        {
            let row = random_in_range(&mut rng, 0, 8);
            let col = random_in_range(&mut rng, 0, 8);
            proof {
                if is_solution(g) && picks.len() == 0 {
                    lemma_first_attempt_clears(g, row as int, col as int);
                }
                lemma_after_attempts(g, picks);
                lemma_after_attempt(grid.deep_view(), row as int, col as int);
                lemma_filled_bounds(after_attempt(grid.deep_view(), row as int, col as int), 81);
                let longer = picks.push((row as int, col as int));
                assert(longer.drop_last() =~= picks);
                picks = longer;
            }
            if try_remove(grid, row, col) {
                cells -= 1;
            }
        }
        proof {
            lemma_pass_added(g, difficulty as int, earlier, picks, passes);
            passes = passes + 1;
        }
        if cells == old_cells || cells <= difficulty {
            break ;
        }
    }
    proof {
        lemma_after_attempts(g, picks);
    }
    let puzzle = grid.clone();
    puzzle
}

} // verus!

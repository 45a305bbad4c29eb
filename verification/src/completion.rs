//! What it means to complete a grid, and the facts about completions that the
//! search procedures rest on.

use vstd::prelude::*;
use vstd::seq_lib::seq_to_set_is_finite;
use vstd::set_lib::{lemma_int_range, lemma_subset_equality, set_int_range};
use crate::board::{
    before, box_has, col_has, in_bounds, is_full, is_grid, row_has, safe, same_unit, with_cell, Board,
};
use crate::board::lemma_safe_means_no_peer_holds;

verus! {

/// The digit at `(r, c)` occurs at no other cell of that cell's row, column and box.
pub open spec fn stands_alone(s: Board, r: int, c: int) -> bool {
    forall|r2: int, c2: int|
        #[trigger] in_bounds(r2, c2) && same_unit(r, c, r2, c2) && !(r2 == r && c2 == c)
            ==> s[r2][c2] != s[r][c]
}

/// `s` completes `g` from the cursor `(r0, c0)` on: it keeps every filled cell of `g`
/// and every cell before the cursor, and holds in each other cell a digit from 1 to 9
/// that is repeated nowhere in that cell's row, column and box.
pub open spec fn completes_from(s: Board, g: Board, r0: int, c0: int) -> bool {
    &&& is_grid(s)
    &&& forall|r: int, c: int| #[trigger]
        in_bounds(r, c) ==> if g[r][c] != 0 || before(r, c, r0, c0) {
            s[r][c] == g[r][c]
        } else {
            1 <= s[r][c] <= 9 && stands_alone(s, r, c)
        }
}

/// `s` completes `g`: it keeps the filled cells and fills every empty one.
pub open spec fn completes(s: Board, g: Board) -> bool {
    completes_from(s, g, 0, 0)
}

/// All completions of `g` from the cursor `(r0, c0)` on.
pub open spec fn completions_from(g: Board, r0: int, c0: int) -> Set<Board> {
    Set::new(|s: Board| completes_from(s, g, r0, c0))
}

/// All completions of `g`.
pub open spec fn completions(g: Board) -> Set<Board> {
    completions_from(g, 0, 0)
}

/// Two grids with the same cells are the same grid.
pub proof fn lemma_same_cells(s: Board, g: Board)
    requires
        is_grid(s),
        is_grid(g),
        forall|r: int, c: int| #[trigger] in_bounds(r, c) ==> s[r][c] == g[r][c],
    ensures
        s == g,
{
    assert forall|r: int| 0 <= r < 9 implies s[r] == g[r] by {
        assert forall|c: int| 0 <= c < 9 implies s[r][c] == g[r][c] by {
            assert(in_bounds(r, c));
        }
        assert(s[r] =~= g[r]);
    }
    assert(s =~= g);
}

/// Writing a cell changes that cell and no other.
pub proof fn lemma_with_cell(g: Board, r: int, c: int, d: i32)
    requires
        is_grid(g),
        in_bounds(r, c),
    ensures
        is_grid(with_cell(g, r, c, d)),
        forall|r2: int, c2: int| #[trigger]
            in_bounds(r2, c2) ==> with_cell(g, r, c, d)[r2][c2] == if r2 == r && c2 == c {
                d
            } else {
                g[r2][c2]
            },
{
}

/// Past the last cell nothing is left to fill: the grid is its own single completion.
pub proof fn lemma_completions_at_end(g: Board)
    requires
        is_grid(g),
    ensures
        completions_from(g, 8, 9) == set![g],
{
    assert forall|s: Board| completes_from(s, g, 8, 9) implies s == g by {
        assert forall|r: int, c: int| #[trigger] in_bounds(r, c) implies s[r][c] == g[r][c] by {
            assert(before(r, c, 8, 9));
        }
        lemma_same_cells(s, g);
    }
    assert(completes_from(g, g, 8, 9)) by {
        assert forall|r: int, c: int| #[trigger] in_bounds(r, c) implies before(r, c, 8, 9) by {}
    }
    assert(completions_from(g, 8, 9) =~= set![g]);
}

/// Two cursors that part the empty cells of `g` in the same way admit the same
/// completions.
pub proof fn lemma_cursor_moves(s: Board, g: Board, r0: int, c0: int, r1: int, c1: int)
    requires
        forall|r: int, c: int| #[trigger]
            in_bounds(r, c) && g[r][c] == 0 ==> before(r, c, r0, c0) == before(r, c, r1, c1),
    ensures
        completes_from(s, g, r0, c0) == completes_from(s, g, r1, c1),
{
}

/// The choice at an empty cursor cell: the completions that hold `d` there are, where
/// `d` is safe, the completions of the grid with `d` written in; there are none where
/// it is not.
pub proof fn lemma_branch(s: Board, g: Board, r0: int, c0: int, d: i32)
    requires
        is_grid(g),
        in_bounds(r0, c0),
        g[r0][c0] == 0,
        1 <= d <= 9,
    ensures
        (completes_from(s, g, r0, c0) && s[r0][c0] == d) <==> (safe(g, r0, c0, d)
            && completes_from(s, with_cell(g, r0, c0, d), r0, c0 + 1)),
{
    let h = with_cell(g, r0, c0, d);
    lemma_with_cell(g, r0, c0, d);
    lemma_safe_means_no_peer_holds(g, r0, c0, d);
    if completes_from(s, g, r0, c0) && s[r0][c0] == d {
        assert(stands_alone(s, r0, c0));
        assert forall|r2: int, c2: int| #[trigger]
            in_bounds(r2, c2) && same_unit(r0, c0, r2, c2) implies g[r2][c2] != d by {}
        assert(completes_from(s, h, r0, c0 + 1));
    }
    if safe(g, r0, c0, d) && completes_from(s, h, r0, c0 + 1) {
        assert(s[r0][c0] == d);
        assert forall|r2: int, c2: int| #[trigger]
            in_bounds(r2, c2) && same_unit(r0, c0, r2, c2) && !(r2 == r0 && c2 == c0) implies s[r2][c2]
            != s[r0][c0] by {
            if g[r2][c2] != 0 || before(r2, c2, r0, c0) {
            } else {
                assert(stands_alone(s, r2, c2));
                assert(same_unit(r2, c2, r0, c0));
            }
        }
        assert(stands_alone(s, r0, c0));
        assert(completes_from(s, g, r0, c0));
    }
}

/// A full grid has exactly one completion: itself.
pub proof fn lemma_full_grid_completes_itself(g: Board)
    requires
        is_grid(g),
        is_full(g),
    ensures
        completions(g) == set![g],
        completions(g).len() == 1,
        completes(g, g),
        forall|s: Board| #[trigger] completes(s, g) ==> s == g,
{
    lemma_completions_at_end(g);
    assert forall|s: Board| completes_from(s, g, 0, 0) == completes_from(s, g, 8, 9) by {
        lemma_cursor_moves(s, g, 0, 0, 8, 9);
    }
    assert(completions(g) =~= completions_from(g, 8, 9));
    assert(set![g].contains(g));
    assert forall|s: Board| #[trigger] completes(s, g) implies s == g by {
        assert(completions(g).contains(s));
    }
}

/// The filled cells of `g` hold digits from 1 to 9, none of them twice in a row, a
/// column or a box.
pub open spec fn is_consistent(g: Board) -> bool {
    &&& is_grid(g)
    &&& forall|r: int, c: int| #[trigger]
        in_bounds(r, c) ==> 0 <= g[r][c] <= 9 && (g[r][c] != 0 ==> stands_alone(g, r, c))
}

/// A solved grid: every cell holds a digit from 1 to 9 that is repeated nowhere in its
/// row, its column and its box.
pub open spec fn is_solution(s: Board) -> bool {
    &&& is_grid(s)
    &&& forall|r: int, c: int| #[trigger]
        in_bounds(r, c) ==> 1 <= s[r][c] <= 9 && stands_alone(s, r, c)
}

/// `s` keeps every filled cell of `g`.
pub open spec fn extends(s: Board, g: Board) -> bool {
    forall|r: int, c: int| #[trigger] in_bounds(r, c) && g[r][c] != 0 ==> s[r][c] == g[r][c]
}

/// The completions of a consistent grid are the solved grids that keep its filled
/// cells.
pub proof fn lemma_completions_are_solutions(s: Board, g: Board)
    requires
        is_consistent(g),
    ensures
        completes(s, g) <==> is_solution(s) && extends(s, g),
{
    if completes(s, g) {
        assert forall|r: int, c: int| #[trigger] in_bounds(r, c) implies 1 <= s[r][c] <= 9
            && stands_alone(s, r, c) by {
            assert(!before(r, c, 0, 0));
            if g[r][c] != 0 {
                assert(stands_alone(g, r, c));
                assert forall|r2: int, c2: int| #[trigger]
                    in_bounds(r2, c2) && same_unit(r, c, r2, c2) && !(r2 == r && c2 == c) implies s[r2][c2]
                    != s[r][c] by {
                    assert(!before(r2, c2, 0, 0));
                    if g[r2][c2] == 0 {
                        assert(stands_alone(s, r2, c2));
                        assert(same_unit(r2, c2, r, c));
                    }
                }
            }
        }
    }
    if is_solution(s) && extends(s, g) {
        assert(completes_from(s, g, 0, 0));
    }
}

/// Nine different digits are all the digits.
proof fn lemma_nine_digits(cells: Seq<i32>, d: i32)
    requires
        cells.len() == 9,
        forall|i: int| 0 <= i < 9 ==> 1 <= #[trigger] cells[i] <= 9,
        forall|i: int, j: int| 0 <= i < j < 9 ==> cells[i] != cells[j],
        1 <= d <= 9,
    ensures
        cells.contains(d),
{
    let ints = cells.map_values(|x: i32| x as int);
    assert(ints.no_duplicates()) by {
        assert forall|i: int, j: int| 0 <= i < ints.len() && 0 <= j < ints.len() && i != j implies ints[i]
            != ints[j] by {
            if i < j {
                assert(cells[i] != cells[j]);
            } else {
                assert(cells[j] != cells[i]);
            }
        }
    }
    ints.unique_seq_to_set();
    seq_to_set_is_finite(ints);
    lemma_int_range(1, 10);
    assert(ints.to_set().subset_of(set_int_range(1, 10))) by {
        assert forall|v: int| ints.to_set().contains(v) implies set_int_range(1, 10).contains(v) by {
            let i = choose|i: int| 0 <= i < ints.len() && ints[i] == v;
            assert(1 <= cells[i] <= 9);
        }
    }
    lemma_subset_equality(ints.to_set(), set_int_range(1, 10));
    assert(set_int_range(1, 10).contains(d as int));
    assert(ints.contains(d as int));
    let i = choose|i: int| 0 <= i < ints.len() && ints[i] == d as int;
    assert(cells[i] == d);
}

/// In a solved grid every row, every column and every box holds every digit from 1
/// to 9.
pub proof fn lemma_solution_holds_every_digit(s: Board, r: int, c: int, d: i32)
    requires
        is_solution(s),
        in_bounds(r, c),
        1 <= d <= 9,
    ensures
        row_has(s, r, d),
        col_has(s, c, d),
        box_has(s, r - r % 3, c - c % 3, d),
{
    let r0 = r - r % 3;
    let c0 = c - c % 3;
    let in_row = Seq::new(9, |k: int| s[r][k]);
    let in_col = Seq::new(9, |k: int| s[k][c]);
    let in_box = Seq::new(9, |k: int| s[r0 + k / 3][c0 + k % 3]);
    assert forall|i: int, j: int| 0 <= i < j < 9 implies in_row[i] != in_row[j] by {
        assert(in_bounds(r, i));
        assert(stands_alone(s, r, i));
        assert(in_bounds(r, j));
        assert(same_unit(r, i, r, j));
    }
    assert forall|i: int, j: int| 0 <= i < j < 9 implies in_col[i] != in_col[j] by {
        assert(in_bounds(i, c));
        assert(stands_alone(s, i, c));
        assert(in_bounds(j, c));
        assert(same_unit(i, c, j, c));
    }
    assert forall|i: int, j: int| 0 <= i < j < 9 implies in_box[i] != in_box[j] by {
        assert(in_bounds(r0 + i / 3, c0 + i % 3));
        assert(stands_alone(s, r0 + i / 3, c0 + i % 3));
        assert(in_bounds(r0 + j / 3, c0 + j % 3));
        assert(same_unit(r0 + i / 3, c0 + i % 3, r0 + j / 3, c0 + j % 3));
    }
    assert forall|i: int| 0 <= i < 9 implies 1 <= #[trigger] in_row[i] <= 9 by {
        assert(in_bounds(r, i));
    }
    assert forall|i: int| 0 <= i < 9 implies 1 <= #[trigger] in_col[i] <= 9 by {
        assert(in_bounds(i, c));
    }
    assert forall|i: int| 0 <= i < 9 implies 1 <= #[trigger] in_box[i] <= 9 by {
        assert(in_bounds(r0 + i / 3, c0 + i % 3));
    }
    lemma_nine_digits(in_row, d);
    lemma_nine_digits(in_col, d);
    lemma_nine_digits(in_box, d);
    let a = choose|a: int| 0 <= a < 9 && in_row[a] == d;
    assert(s[r][a] == d);
    let b = choose|b: int| 0 <= b < 9 && in_col[b] == d;
    assert(s[b][c] == d);
    let k = choose|k: int| 0 <= k < 9 && in_box[k] == d;
    assert(0 <= k / 3 < 3 && 0 <= k % 3 < 3 && s[r0 + k / 3][c0 + k % 3] == d);
}

/// In a solved grid no row, column or box holds a digit twice.
pub proof fn lemma_solution_holds_no_digit_twice(s: Board, r1: int, c1: int, r2: int, c2: int)
    requires
        is_solution(s),
        in_bounds(r1, c1),
        in_bounds(r2, c2),
        same_unit(r1, c1, r2, c2),
        s[r1][c1] == s[r2][c2],
    ensures
        r1 == r2 && c1 == c2,
{
    assert(stands_alone(s, r1, c1));
}

/// Any one cell of a solved grid can be cleared: the other cells of its row leave
/// one digit for it, so the grid without it has the solved grid as its one completion.
pub proof fn lemma_solved_grid_spares_any_cell(s: Board, r: int, c: int)
    requires
        is_solution(s),
        in_bounds(r, c),
    ensures
        completions(with_cell(s, r, c, 0)) == set![s],
        completions(with_cell(s, r, c, 0)).len() == 1,
{
    let g = with_cell(s, r, c, 0);
    lemma_with_cell(s, r, c, 0);
    assert(completes(s, g)) by {
        assert(completes_from(s, g, 0, 0));
    }
    assert forall|t: Board| completes(t, g) implies t == s by {
        assert(!before(r, c, 0, 0));
        assert(1 <= t[r][c] <= 9 && stands_alone(t, r, c));
        lemma_solution_holds_every_digit(s, r, c, t[r][c]);
        let c2 = choose|c2: int| 0 <= c2 < 9 && #[trigger] s[r][c2] == t[r][c];
        if c2 != c {
            assert(in_bounds(r, c2));
            assert(same_unit(r, c, r, c2));
            assert(t[r][c2] == s[r][c2]);
        }
        assert forall|r2: int, c2: int| #[trigger] in_bounds(r2, c2) implies t[r2][c2] == s[r2][c2] by {}
        lemma_same_cells(t, s);
    }
    assert forall|t: Board| completions(g).contains(t) <==> set![s].contains(t) by {
        if completions(g).contains(t) {
            assert(completes(t, g));
        }
    }
    assert(completions(g) =~= set![s]);
}

} // verus!

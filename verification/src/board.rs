//! The mathematical model of a grid.

use vstd::prelude::*;

verus! {

/// A grid as the contracts see it: nine rows of nine cells, `0` for an empty cell.
/// It is the deep view of a `Vec<Vec<i32>>`.
pub type Board = Seq<Seq<i32>>;

/// Nine rows of nine cells each.
pub open spec fn is_grid(g: Board) -> bool {
    g.len() == 9 && forall|r: int| 0 <= r < 9 ==> (#[trigger] g[r]).len() == 9
}

/// `(r, c)` names a cell of a grid.
pub open spec fn in_bounds(r: int, c: int) -> bool {
    0 <= r < 9 && 0 <= c < 9
}

/// Cell `(r, c)` comes strictly before `(r0, c0)` in row-major order.
pub open spec fn before(r: int, c: int, r0: int, c0: int) -> bool {
    r < r0 || (r == r0 && c < c0)
}

/// The two cells lie in one row, one column or one 3×3 box.
pub open spec fn same_unit(r1: int, c1: int, r2: int, c2: int) -> bool {
    r1 == r2 || c1 == c2 || (r1 / 3 == r2 / 3 && c1 / 3 == c2 / 3)
}

/// `d` occurs somewhere in row `r`.
pub open spec fn row_has(g: Board, r: int, d: i32) -> bool {
    exists|c: int| 0 <= c < 9 && #[trigger] g[r][c] == d
}

/// `d` occurs somewhere in column `c`.
pub open spec fn col_has(g: Board, c: int, d: i32) -> bool {
    exists|r: int| 0 <= r < 9 && #[trigger] g[r][c] == d
}

/// `d` occurs somewhere in the 3×3 block whose top left cell is `(r0, c0)`.
pub open spec fn box_has(g: Board, r0: int, c0: int, d: i32) -> bool {
    exists|i: int, j: int| 0 <= i < 3 && 0 <= j < 3 && #[trigger] g[r0 + i][c0 + j] == d
}

/// `d` may be placed at `(r, c)`: it occurs nowhere in the row, the column and the
/// aligned box of that cell. The cell itself counts, so a digit is never safe where
/// it already stands.
pub open spec fn safe(g: Board, r: int, c: int, d: i32) -> bool {
    !row_has(g, r, d) && !col_has(g, c, d) && !box_has(g, r - r % 3, c - c % 3, d)
}

/// No cell of the grid is empty.
pub open spec fn is_full(g: Board) -> bool {
    forall|r: int, c: int| #[trigger] in_bounds(r, c) ==> g[r][c] != 0
}

/// `(r, c)` is the first empty cell in row-major order.
pub open spec fn is_first_empty(g: Board, r: int, c: int) -> bool {
    &&& in_bounds(r, c)
    &&& g[r][c] == 0
    &&& forall|r2: int, c2: int| #[trigger] in_bounds(r2, c2) && before(r2, c2, r, c) ==> g[r2][c2] != 0
}

/// The grid `g` with `d` written at `(r, c)`.
pub open spec fn with_cell(g: Board, r: int, c: int, d: i32) -> Board {
    g.update(r, g[r].update(c, d))
}

/// `safe` says that no cell sharing a unit with `(r, c)` holds `d`.
pub proof fn lemma_safe_means_no_peer_holds(g: Board, r: int, c: int, d: i32)
    requires
        is_grid(g),
        in_bounds(r, c),
    ensures
        safe(g, r, c, d) <==> (forall|r2: int, c2: int|
            #[trigger] in_bounds(r2, c2) && same_unit(r, c, r2, c2) ==> g[r2][c2] != d),
{
    let r0 = r - r % 3;
    let c0 = c - c % 3;
    if safe(g, r, c, d) {
        assert forall|r2: int, c2: int|
            #[trigger] in_bounds(r2, c2) && same_unit(r, c, r2, c2) implies g[r2][c2] != d by {
            if r2 == r {
                assert(g[r][c2] != d);
            } else if c2 == c {
                assert(g[r2][c] != d);
            } else {
                let i = r2 - r0;
                let j = c2 - c0;
                assert(0 <= i < 3 && 0 <= j < 3);
                assert(g[r0 + i][c0 + j] != d);
            }
        }
    } else {
        if row_has(g, r, d) {
            let c2 = choose|c2: int| 0 <= c2 < 9 && #[trigger] g[r][c2] == d;
            assert(in_bounds(r, c2) && same_unit(r, c, r, c2));
        } else if col_has(g, c, d) {
            let r2 = choose|r2: int| 0 <= r2 < 9 && #[trigger] g[r2][c] == d;
            assert(in_bounds(r2, c) && same_unit(r, c, r2, c));
        } else {
            let (i, j) = choose|i: int, j: int|
                0 <= i < 3 && 0 <= j < 3 && #[trigger] g[r0 + i][c0 + j] == d;
            assert(in_bounds(r0 + i, c0 + j) && same_unit(r, c, r0 + i, c0 + j));
        }
    }
}

/// The number of filled cells among the first `n` cells in row-major order.
pub open spec fn filled_among(g: Board, n: int) -> int
    decreases n,
{
    if n <= 0 {
        0
    } else {
        filled_among(g, n - 1) + if g[(n - 1) / 9][(n - 1) % 9] != 0 {
            1int
        } else {
            0int
        }
    }
}

/// The number of filled cells of the grid.
pub open spec fn filled_cells(g: Board) -> int {
    filled_among(g, 81)
}

/// Each cell of `g` is either empty or as in `of`.
pub open spec fn is_part_of(g: Board, of: Board) -> bool {
    forall|r: int, c: int| #[trigger] in_bounds(r, c) ==> g[r][c] == 0 || g[r][c] == of[r][c]
}

/// Among `n` cells between none and `n` are filled.
pub proof fn lemma_filled_bounds(g: Board, n: int)
    requires
        0 <= n,
    ensures
        0 <= filled_among(g, n) <= n,
    decreases n,
{
    if n > 0 {
        lemma_filled_bounds(g, n - 1);
    }
}

/// Writing a cell changes the count of filled cells by what that cell contributes.
pub proof fn lemma_filled_after_write(g: Board, r: int, c: int, d: i32, n: int)
    requires
        is_grid(g),
        in_bounds(r, c),
        0 <= n <= 81,
    ensures
        filled_among(with_cell(g, r, c, d), n) == filled_among(g, n) + if 9 * r + c < n {
            (if d != 0 {
                1int
            } else {
                0int
            }) - (if g[r][c] != 0 {
                1int
            } else {
                0int
            })
        } else {
            0int
        },
    decreases n,
{
    if n > 0 {
        lemma_filled_after_write(g, r, c, d, n - 1);
        let q = n - 1;
        assert(0 <= q / 9 < 9 && 0 <= q % 9 < 9);
        if q == 9 * r + c {
            assert(q / 9 == r && q % 9 == c);
        } else {
            assert(!(q / 9 == r && q % 9 == c));
        }
    }
}

/// A grid is full exactly when all 81 cells are filled.
pub proof fn lemma_full_means_all_filled(g: Board)
    requires
        is_grid(g),
    ensures
        is_full(g) <==> filled_cells(g) == 81,
{
    if is_full(g) {
        lemma_filled_all(g, 81);
    } else {
        let (r, c) = choose|r: int, c: int| #[trigger] in_bounds(r, c) && g[r][c] == 0;
        lemma_filled_gap(g, r, c, 81);
    }
}

proof fn lemma_filled_all(g: Board, n: int)
    requires
        is_full(g),
        0 <= n <= 81,
    ensures
        filled_among(g, n) == n,
    decreases n,
{
    if n > 0 {
        lemma_filled_all(g, n - 1);
        assert(in_bounds((n - 1) / 9, (n - 1) % 9));
    }
}

proof fn lemma_filled_gap(g: Board, r: int, c: int, n: int)
    requires
        in_bounds(r, c),
        g[r][c] == 0,
        9 * r + c < n <= 81,
    ensures
        filled_among(g, n) < n,
    decreases n,
{
    if n - 1 == 9 * r + c {
        lemma_filled_bounds(g, n - 1);
        assert((n - 1) / 9 == r && (n - 1) % 9 == c);
    } else {
        lemma_filled_gap(g, r, c, n - 1);
    }
}

} // verus!

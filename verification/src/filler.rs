//! The randomised backtracking search that fills a grid.

use vstd::prelude::*;
use crate::board::{
    before, filled_cells, in_bounds, is_first_empty, is_grid, safe, same_unit, with_cell, Board,
};
use crate::board::{lemma_filled_after_write, lemma_filled_bounds};
use crate::placement::{find_empty_location, is_safe};
use crate::completion::{completes, completes_from, is_solution, stands_alone};
use crate::completion::{
    lemma_branch, lemma_cursor_moves, lemma_full_grid_completes_itself, lemma_same_cells,
    lemma_with_cell,
};
use crate::random::{shuffle};

verus! {

/// The digits in rising order.
pub open spec fn digits() -> Seq<i32> {
    seq![1i32, 2i32, 3i32, 4i32, 5i32, 6i32, 7i32, 8i32, 9i32]
}

/// `numbers` lists the digits from 1 to 9, each once, in some order.
pub open spec fn is_digit_permutation(numbers: Seq<i32>) -> bool {
    &&& numbers.len() == 9
    &&& forall|i: int| 0 <= i < 9 ==> 1 <= #[trigger] numbers[i] <= 9
    &&& forall|d: i32| 1 <= d <= 9 ==> #[trigger] numbers.contains(d)
}

/// In `numbers`, `a` occurs before any occurrence of `b`.
pub open spec fn tried_before(numbers: Seq<i32>, a: i32, b: i32) -> bool {
    exists|i: int|
        0 <= i < numbers.len() && #[trigger] numbers[i] == a && forall|k: int|
            0 <= k <= i ==> #[trigger] numbers[k] != b
}

/// A search that walks the cells in row-major order and tries the digits in the order
/// of `numbers` reaches `s` before `t`: at the first cell where the two differ, `s`
/// holds the digit that is tried first.
pub open spec fn found_before(s: Board, t: Board, numbers: Seq<i32>) -> bool {
    exists|r: int, c: int| #[trigger]
        in_bounds(r, c) && tried_before(numbers, s[r][c], t[r][c]) && forall|r2: int, c2: int| #[trigger]
            in_bounds(r2, c2) && before(r2, c2, r, c) ==> s[r2][c2] == t[r2][c2]
}

/// `s` is the completion of `g` that the search reaches first.
pub open spec fn is_first_completion(s: Board, g: Board, numbers: Seq<i32>) -> bool {
    &&& completes(s, g)
    &&& forall|t: Board| #[trigger] completes(t, g) && t != s ==> found_before(s, t, numbers)
}

/// What the search leaves in place of `g`: the first completion where one exists, and
/// `g` itself where none does.
pub open spec fn is_fill(out: Board, g: Board, numbers: Seq<i32>) -> bool {
    if exists|s: Board| completes(s, g) {
        is_first_completion(out, g, numbers)
    } else {
        out == g
    }
}

/// No completion of `g` holds at `(r, c)` one of the first `n` digits of `numbers`.
spec fn none_holds(g: Board, r: int, c: int, numbers: Seq<i32>, n: int) -> bool {
    forall|t: Board, j: int| #[trigger]
        completes(t, g) && 0 <= j < n ==> #[trigger] numbers[j] != t[r][c]
}

/// A sequence with the items of `digits()` is a permutation of the digits.
pub proof fn lemma_reordered_digits(numbers: Seq<i32>)
    requires
        numbers.to_multiset() == digits().to_multiset(),
    ensures
        is_digit_permutation(numbers),
{
    numbers.to_multiset_ensures();
    digits().to_multiset_ensures();
    assert forall|i: int| 0 <= i < numbers.len() implies 1 <= #[trigger] numbers[i] <= 9 by {
        assert(numbers.contains(numbers[i]));
        assert(digits().to_multiset().count(numbers[i]) > 0);
        assert(digits().contains(numbers[i]));
    }
    assert forall|d: i32| 1 <= d <= 9 implies #[trigger] numbers.contains(d) by {
        assert(digits()[d - 1] == d);
        assert(digits().contains(d));
        assert(numbers.to_multiset().count(d) > 0);
    }
}

/// The choice at the first empty cell: the completions of `g` that hold `d` there are,
/// where `d` is safe, the completions of `g` with `d` written in, and there are none
/// where it is not.
pub proof fn lemma_first_empty_branch(t: Board, g: Board, r: int, c: int, d: i32)
    requires
        is_grid(g),
        is_first_empty(g, r, c),
        1 <= d <= 9,
    ensures
        (completes(t, g) && t[r][c] == d) <==> (safe(g, r, c, d) && completes(
            t,
            with_cell(g, r, c, d),
        )),
{
    let h = with_cell(g, r, c, d);
    lemma_with_cell(g, r, c, d);
    lemma_branch(t, g, r, c, d);
    lemma_cursor_moves(t, g, 0, 0, r, c);
    assert forall|r2: int, c2: int| #[trigger] in_bounds(r2, c2) && h[r2][c2] == 0 implies before(
        r2,
        c2,
        0,
        0,
    ) == before(r2, c2, r, c + 1) by {}
    lemma_cursor_moves(t, h, 0, 0, r, c + 1);
}

/// The first completion is unique: a grid and an order of digits admit one outcome of
/// the search.
pub proof fn lemma_first_completion_unique(s1: Board, s2: Board, g: Board, numbers: Seq<i32>)
    requires
        is_first_completion(s1, g, numbers),
        is_first_completion(s2, g, numbers),
    ensures
        s1 == s2,
{
    if s1 != s2 {
        assert(found_before(s1, s2, numbers));
        assert(found_before(s2, s1, numbers));
        let (r, c) = choose|r: int, c: int| #[trigger]
            in_bounds(r, c) && tried_before(numbers, s1[r][c], s2[r][c]) && forall|r2: int, c2: int| #[trigger]
                in_bounds(r2, c2) && before(r2, c2, r, c) ==> s1[r2][c2] == s2[r2][c2];
        let (q, e) = choose|q: int, e: int| #[trigger]
            in_bounds(q, e) && tried_before(numbers, s2[q][e], s1[q][e]) && forall|r2: int, c2: int| #[trigger]
                in_bounds(r2, c2) && before(r2, c2, q, e) ==> s2[r2][c2] == s1[r2][c2];
        lemma_tried_before_differ(numbers, s1[r][c], s2[r][c]);
        lemma_tried_before_differ(numbers, s2[q][e], s1[q][e]);
        if before(r, c, q, e) {
        } else if before(q, e, r, c) {
        } else {
            assert(r == q && c == e);
            lemma_tried_before_one_way(numbers, s1[r][c], s2[r][c]);
        }
    }
}

proof fn lemma_tried_before_differ(numbers: Seq<i32>, a: i32, b: i32)
    requires
        tried_before(numbers, a, b),
    ensures
        a != b,
{
}

proof fn lemma_tried_before_one_way(numbers: Seq<i32>, a: i32, b: i32)
    requires
        tried_before(numbers, a, b),
    ensures
        !tried_before(numbers, b, a),
{
    if tried_before(numbers, b, a) {
        let i = choose|i: int|
            0 <= i < numbers.len() && #[trigger] numbers[i] == a && forall|k: int|
                0 <= k <= i ==> #[trigger] numbers[k] != b;
        let j = choose|j: int|
            0 <= j < numbers.len() && #[trigger] numbers[j] == b && forall|k: int|
                0 <= k <= j ==> #[trigger] numbers[k] != a;
        if i <= j {
            assert(numbers[i] != a);
        } else {
            assert(numbers[j] != b);
        }
    }
}

/// The outcome of the search is determined by the grid and the order of the digits.
pub proof fn lemma_fill_determined(out1: Board, out2: Board, g: Board, numbers: Seq<i32>)
    requires
        is_fill(out1, g, numbers),
        is_fill(out2, g, numbers),
    ensures
        out1 == out2,
{
    if exists|s: Board| completes(s, g) {
        lemma_first_completion_unique(out1, out2, g, numbers);
    }
}

/// The step of the search that succeeds: where no completion of `g` holds at the first
/// empty cell one of the digits tried so far, the first completion of `g` with the
/// next digit written in is the first completion of `g`.
proof fn lemma_first_completion_found(
    s: Board,
    g: Board,
    r: int,
    c: int,
    numbers: Seq<i32>,
    i: int,
)
    requires
        is_grid(g),
        is_first_empty(g, r, c),
        is_digit_permutation(numbers),
        0 <= i < 9,
        safe(g, r, c, numbers[i]),
        none_holds(g, r, c, numbers, i),
        is_first_completion(s, with_cell(g, r, c, numbers[i]), numbers),
    ensures
        is_first_completion(s, g, numbers),
{
    let d = numbers[i];
    let h = with_cell(g, r, c, d);
    lemma_with_cell(g, r, c, d);
    lemma_first_empty_branch(s, g, r, c, d);
    assert(completes(s, g) && s[r][c] == d);
    assert forall|t: Board| #[trigger] completes(t, g) && t != s implies found_before(
        s,
        t,
        numbers,
    ) by {
        lemma_first_empty_branch(t, g, r, c, d);
        if t[r][c] == d {
            assert(completes(t, h));
        } else {
            assert forall|k: int| 0 <= k <= i implies #[trigger] numbers[k] != t[r][c] by {}
            assert(tried_before(numbers, s[r][c], t[r][c]));
            assert forall|r2: int, c2: int| #[trigger]
                in_bounds(r2, c2) && before(r2, c2, r, c) implies s[r2][c2] == t[r2][c2] by {
                assert(g[r2][c2] != 0);
            }
            assert(in_bounds(r, c));
        }
    }
}

/// Where no completion of `g` holds any digit at the first empty cell, `g` has no
/// completion.
proof fn lemma_no_completion(g: Board, r: int, c: int, numbers: Seq<i32>)
    requires
        is_first_empty(g, r, c),
        is_digit_permutation(numbers),
        none_holds(g, r, c, numbers, 9),
    ensures
        forall|t: Board| !completes(t, g),
{
    assert forall|t: Board| !completes(t, g) by {
        if completes(t, g) {
            assert(in_bounds(r, c) && !before(r, c, 0, 0));
            let d = t[r][c];
            assert(numbers.contains(d));
            let j = choose|j: int| 0 <= j < numbers.len() && numbers[j] == d;
            assert(numbers[j] != t[r][c]);
        }
    }
}

/// Fills the empty cells of `grid` by backtracking: the first empty cell in row-major
/// order takes the first digit of `numbers` with which the rest can be filled. Returns
/// whether the grid has a completion; where it has none, the grid is left as it was.
pub fn fill_recursive(grid: &mut Vec<Vec<i32>>, numbers: &Vec<i32>) -> (filled: bool)
    requires
        is_grid(old(grid).deep_view()),
        is_digit_permutation(numbers@),
    ensures
        is_grid(final(grid).deep_view()),
        filled == (exists|s: Board| completes(s, old(grid).deep_view())),
        is_fill(final(grid).deep_view(), old(grid).deep_view(), numbers@),
    decreases 81 - filled_cells(old(grid).deep_view()),
{
    let ghost g = grid.deep_view();
    if let Some((row, col)) = find_empty_location(grid) {
        let mut i: usize = 0;
        while i < numbers.len()
            invariant
                grid.deep_view() == g,
                g == old(grid).deep_view(),
                is_grid(g),
                is_first_empty(g, row as int, col as int),
                is_digit_permutation(numbers@),
                i <= 9,
                none_holds(g, row as int, col as int, numbers@, i as int),
            decreases 9 - i,
        {
            let num = numbers[i];
            proof {
                lemma_with_cell(g, row as int, col as int, num);
                assert forall|t: Board| completes(t, g) && t[row as int][col as int] == num implies safe(
                    g,
                    row as int,
                    col as int,
                    num,
                ) && completes(t, with_cell(g, row as int, col as int, num)) by {
                    lemma_first_empty_branch(t, g, row as int, col as int, num);
                }
            }
            if is_safe(grid, row, col, num) {
                grid[row][col] = num;
                proof {
                    assert(grid.deep_view() =~~= with_cell(g, row as int, col as int, num));
                    lemma_filled_after_write(g, row as int, col as int, num, 81);
                    lemma_filled_bounds(grid.deep_view(), 81);
                    assert(filled_cells(grid.deep_view()) == filled_cells(g) + 1);
                }
                if fill_recursive(grid, numbers) {
                    proof {
                        lemma_first_completion_found(
                            grid.deep_view(),
                            g,
                            row as int,
                            col as int,
                            numbers@,
                            i as int,
                        );
                        assert(completes(grid.deep_view(), g));
                    }
                    return true;
                }
                grid[row][col] = 0;
                proof {
                    let h = with_cell(g, row as int, col as int, num);
                    assert(grid.deep_view() =~~= with_cell(h, row as int, col as int, 0));
                    lemma_with_cell(h, row as int, col as int, 0);
                    lemma_same_cells(grid.deep_view(), g);
                }
            }
            i += 1;
        }
        proof {
            lemma_no_completion(g, row as int, col as int, numbers@);
        }
        false
    } else {
        proof {
            lemma_full_grid_completes_itself(g);
        }
        return true;
    }
}

/// The grid with every cell empty.
pub open spec fn blank() -> Board {
    Seq::new(9, |r: int| Seq::new(9, |c: int| 0i32))
}

/// The digit at `(r, c)` of a solved grid written down by rule: each row is the row
/// above it shifted by three cells, and by one more where a new band of boxes starts.
spec fn pattern_digit(r: int, c: int) -> int {
    (3 * (r % 3) + r / 3 + c) % 9 + 1
}

spec fn pattern() -> Board {
    Seq::new(9, |r: int| Seq::new(9, |c: int| pattern_digit(r, c) as i32))
}

proof fn lemma_mod_nine_differs(v: int, w: int)
    requires
        0 < v - w < 9,
    ensures
        v % 9 != w % 9,
{
}

proof fn lemma_pattern_digits_differ(r: int, c: int, r2: int, c2: int)
    requires
        in_bounds(r, c),
        in_bounds(r2, c2),
        same_unit(r, c, r2, c2),
        !(r2 == r && c2 == c),
    ensures
        pattern_digit(r, c) != pattern_digit(r2, c2),
{
    let v = 3 * (r % 3) + r / 3 + c;
    let w = 3 * (r2 % 3) + r2 / 3 + c2;
    assert(r == 3 * (r / 3) + r % 3);
    assert(r2 == 3 * (r2 / 3) + r2 % 3);
    if r == r2 {
        assert(v - w == c - c2);
    } else if c == c2 {
        assert(v - w == 3 * (r % 3 - r2 % 3) + (r / 3 - r2 / 3));
        assert(0 < v - w < 9 || 0 < w - v < 9);
    } else {
        assert(r / 3 == r2 / 3 && c / 3 == c2 / 3);
        assert(c == 3 * (c / 3) + c % 3);
        assert(c2 == 3 * (c2 / 3) + c2 % 3);
        assert(v - w == 3 * (r % 3 - r2 % 3) + (c % 3 - c2 % 3));
        assert(0 < v - w < 9 || 0 < w - v < 9);
    }
    if v > w {
        lemma_mod_nine_differs(v, w);
    } else {
        lemma_mod_nine_differs(w, v);
    }
}

proof fn lemma_pattern_is_solution()
    ensures
        is_solution(pattern()),
{
    let s = pattern();
    assert forall|r: int, c: int| #[trigger] in_bounds(r, c) implies 1 <= s[r][c] <= 9
        && stands_alone(s, r, c) by {
        assert(s[r][c] == pattern_digit(r, c));
        assert forall|r2: int, c2: int| #[trigger]
            in_bounds(r2, c2) && same_unit(r, c, r2, c2) && !(r2 == r && c2 == c) implies s[r2][c2]
            != s[r][c] by {
            assert(s[r2][c2] == pattern_digit(r2, c2));
            lemma_pattern_digits_differ(r, c, r2, c2);
        }
    }
}

/// The blank grid has a completion.
pub proof fn lemma_blank_can_be_filled()
    ensures
        exists|s: Board| completes(s, blank()),
{
    lemma_pattern_is_solution();
    assert(completes(pattern(), blank()));
}

/// The completions of the blank grid are the solved grids.
pub proof fn lemma_blank_completions(s: Board)
    ensures
        completes(s, blank()) <==> is_solution(s),
{
    if completes(s, blank()) {
        assert forall|r: int, c: int| #[trigger] in_bounds(r, c) implies 1 <= s[r][c] <= 9
            && stands_alone(s, r, c) by {
            assert(!before(r, c, 0, 0));
        }
    }
    if is_solution(s) {
        assert(completes_from(s, blank(), 0, 0));
    }
}

/// Fills the empty cells of `grid` by the backtracking search of `fill_recursive`,
/// with the digits in an order drawn at random. Whichever order was drawn, the grid
/// becomes its first completion in that order, or stays as it is where it has none.
pub fn fill(grid: &mut Vec<Vec<i32>>)
    requires
        is_grid(old(grid).deep_view()),
    ensures
        is_grid(final(grid).deep_view()),
        exists|numbers: Seq<i32>|
            is_digit_permutation(numbers) && #[trigger] is_fill(
                final(grid).deep_view(),
                old(grid).deep_view(),
                numbers,
            ),
{
    let mut numbers: Vec<i32> = vec![1, 2, 3, 4, 5, 6, 7, 8, 9];
    assert(numbers@ =~= digits());
    let mut rng = rand::thread_rng();
    shuffle(&mut numbers, &mut rng);
    proof {
        lemma_reordered_digits(numbers@);
    }
    fill_recursive(grid, &numbers);
}

/// A solved grid, drawn at random: the first completion of the blank grid in a random
/// order of the digits.
pub fn create_sudoku() -> (grid: Vec<Vec<i32>>)
    ensures
        is_solution(grid.deep_view()),
        exists|numbers: Seq<i32>|
            is_digit_permutation(numbers) && #[trigger] is_first_completion(
                grid.deep_view(),
                blank(),
                numbers,
            ),
{
    let mut grid = vec![vec![0i32; 9]; 9];
    assert(grid.deep_view() =~~= blank());
    fill(&mut grid);
    proof {
        lemma_blank_can_be_filled();
        lemma_blank_completions(grid.deep_view());
    }
    grid
}

} // verus!

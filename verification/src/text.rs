//! The text of a grid: one line for each row, each cell followed by a space.

use vstd::prelude::*;

verus! {

/// The decimal digits of `n` as characters, most significant first.
pub open spec fn decimal_digits(n: nat) -> Seq<u8>
    decreases n,
{
    if n < 10 {
        seq![(48 + n) as u8]
    } else {
        decimal_digits(n / 10).push((48 + n % 10) as u8)
    }
}

/// `n` in decimal notation, with a minus sign where it is negative.
pub open spec fn decimal(n: int) -> Seq<u8> {
    if n < 0 {
        seq![45u8] + decimal_digits((-n) as nat)
    } else {
        decimal_digits(n as nat)
    }
}

/// The cells of a row, each in decimal notation and followed by a space.
pub open spec fn row_text(row: Seq<i32>) -> Seq<u8>
    decreases row.len(),
{
    if row.len() == 0 {
        Seq::<u8>::empty()
    } else {
        row_text(row.drop_last()) + decimal(row.last() as int) + seq![32u8]
    }
}

/// The rows of a grid, each followed by a line feed.
pub open spec fn grid_text(g: Seq<Seq<i32>>) -> Seq<u8>
    decreases g.len(),
{
    if g.len() == 0 {
        Seq::<u8>::empty()
    } else {
        grid_text(g.drop_last()) + row_text(g.last()) + seq![10u8]
    }
}

/// The first `n` items of `s` in reverse order.
spec fn reversed(s: Seq<u8>, n: int) -> Seq<u8>
    decreases n,
{
    if n <= 0 {
        Seq::<u8>::empty()
    } else {
        seq![s[n - 1]] + reversed(s, n - 1)
    }
}

proof fn lemma_reversed_unchanged(s: Seq<u8>, t: Seq<u8>, n: int)
    requires
        0 <= n <= s.len(),
        n <= t.len(),
        forall|i: int| 0 <= i < n ==> s[i] == t[i],
    ensures
        reversed(s, n) == reversed(t, n),
    decreases n,
{
    if n > 0 {
        lemma_reversed_unchanged(s, t, n - 1);
    }
}

/// Appends `n` in decimal notation.
fn push_decimal(out: &mut Vec<u8>, n: i32)
    ensures
        final(out)@ == old(out)@ + decimal(n as int),
{
    let mut rest: i64 = n as i64;
    if rest < 0 {
        out.push(45);
        rest = -rest;
    }
    let ghost head = out@;
    let ghost size = rest as nat;
    assert(old(out)@ + decimal(n as int) =~= head + decimal_digits(size));
    // The digits from the least significant one on.
    let mut low_first: Vec<u8> = Vec::new();
    loop
        invariant_except_break
            0 <= rest <= 0x8000_0000,
            decimal_digits(size) == if low_first.len() == 0 {
                decimal_digits(rest as nat)
            } else {
                decimal_digits(rest as nat) + reversed(low_first@, low_first.len() as int)
            },
            rest > 0 || low_first.len() == 0,
        ensures
            decimal_digits(size) == reversed(low_first@, low_first.len() as int),
        decreases rest,
    {
        let ghost before = low_first@;
        let digit = (48 + rest % 10) as u8;
        low_first.push(digit);
        proof {
            lemma_reversed_unchanged(before, low_first@, before.len() as int);
            assert(reversed(low_first@, low_first.len() as int) =~= seq![digit] + reversed(
                before,
                before.len() as int,
            ));
            if rest >= 10 {
                assert(decimal_digits(rest as nat) =~= decimal_digits((rest / 10) as nat).push(digit));
                assert(decimal_digits(size) =~= decimal_digits((rest / 10) as nat) + reversed(
                    low_first@,
                    low_first.len() as int,
                ));
            } else {
                assert(decimal_digits(rest as nat) =~= seq![digit]);
                assert(decimal_digits(size) =~= reversed(low_first@, low_first.len() as int));
            }
        }
        if rest < 10 {
            break ;
        }
        rest = rest / 10;
    }
    let mut left: usize = low_first.len();
    while left > 0
        invariant
            left <= low_first.len(),
            out@ + reversed(low_first@, left as int) == head + reversed(
                low_first@,
                low_first.len() as int,
            ),
        decreases left,
    {
        left -= 1;
        out.push(low_first[left]);
        assert(out@ + reversed(low_first@, left as int) =~= out@.drop_last() + reversed(
            low_first@,
            left as int + 1,
        ));
    }
    assert(out@ =~= out@ + reversed(low_first@, 0));
}

/// The text of the grid: the cells of each row in decimal notation, each followed by
/// a space, and a line feed after each row.
pub fn render(grid: &Vec<Vec<i32>>) -> (text: Vec<u8>)
    ensures
        text@ == grid_text(grid.deep_view()),
{
    let ghost g = grid.deep_view();
    let mut text: Vec<u8> = Vec::new();
    let mut r: usize = 0;
    while r < grid.len()
        invariant
            g == grid.deep_view(),
            r <= grid.len(),
            text@ == grid_text(g.take(r as int)),
        decreases grid.len() - r,
    {
        let row = &grid[r];
        let ghost line_start = text@;
        let mut c: usize = 0;
        while c < row.len()
            invariant
                c <= row.len(),
                text@ == line_start + row_text(row@.take(c as int)),
            decreases row.len() - c,
        {
            push_decimal(&mut text, row[c]);
            text.push(32);
            proof {
                let upto = row@.take(c as int + 1);
                assert(upto.drop_last() =~= row@.take(c as int));
                assert(upto.last() == row@[c as int]);
                assert(text@ =~= line_start + row_text(upto));
            }
            c += 1;
        }
        text.push(10);
        proof {
            let upto = g.take(r as int + 1);
            assert(upto.drop_last() =~= g.take(r as int));
            assert(row@.take(row.len() as int) =~= row@);
            assert(upto.last() =~= row@);
            assert(text@ =~= grid_text(upto));
        }
        r += 1;
    }
    assert(g.take(grid.len() as int) =~= g);
    text
}

} // verus!

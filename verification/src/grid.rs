//! The geometry of the grid: linear indices, rows and columns, and the
//! tiles around a tile.

use vstd::prelude::*;
use vstd::arithmetic::div_mod::{lemma_fundamental_div_mod, lemma_fundamental_div_mod_converse};
use vstd::arithmetic::div_mod::{lemma_mod_pos_bound, lemma_multiply_divide_lt};
use vstd::arithmetic::mul::lemma_mul_is_commutative;

verus! {

/// The one-element sequence of the linear index of the cell at
/// (`row`, `col`), or the empty sequence when the cell is off the grid.
pub open spec fn cell(rows: nat, cols: nat, row: int, col: int) -> Seq<int> {
    if 0 <= row < rows && 0 <= col < cols {
        seq![col * rows + row]
    } else {
        Seq::empty()
    }
}

/// The cells on the grid among the first `n` positions of the three by three
/// block around (`row`, `col`), the centre left out. The block is walked row
/// offset by row offset, and within one row offset by column offset.
pub open spec fn scan(rows: nat, cols: nat, row: int, col: int, n: nat) -> Seq<int>
    decreases n,
{
    if n == 0 {
        Seq::empty()
    } else {
        let p = (n - 1) as int;
        let before = scan(rows, cols, row, col, (n - 1) as nat);
        if p == 4 {
            before
        } else {
            before + cell(rows, cols, row + p / 3 - 1, col + p % 3 - 1)
        }
    }
}

/// The linear indices of the up to eight tiles around tile `i`, in the
/// order in which the engine visits them.
pub open spec fn neighbours(rows: nat, cols: nat, i: int) -> Seq<int> {
    scan(rows, cols, i % (rows as int), i / (rows as int), 9)
}

/// A linear index on the grid splits into a row and a column on the grid,
/// from which it can be put together again.
pub proof fn lemma_index_split(rows: nat, cols: nat, i: int)
    requires
        0 <= i < rows * cols,
    ensures
        0 <= i % (rows as int) < rows,
        0 <= i / (rows as int) < cols,
        (i / (rows as int)) * rows + i % (rows as int) == i,
{
    let d = rows as int;
    assert(d > 0) by (nonlinear_arith)
        requires
            0 <= i < d * cols,
            d >= 0,
    ;
    lemma_mod_pos_bound(i, d);
    lemma_fundamental_div_mod(i, d);
    lemma_mul_is_commutative(d, i / d);
    lemma_multiply_divide_lt(i, d, cols as int);
    assert(0 <= i / d) by (nonlinear_arith)
        requires
            0 <= i,
            d > 0,
    ;
}

/// A row and a column on the grid give a linear index on the grid, from
/// which both can be read back.
pub proof fn lemma_index_join(rows: nat, cols: nat, row: int, col: int)
    requires
        0 <= row < rows,
        0 <= col < cols,
    ensures
        0 <= col * rows + row < rows * cols,
        (col * rows + row) % (rows as int) == row,
        (col * rows + row) / (rows as int) == col,
{
    let d = rows as int;
    lemma_fundamental_div_mod_converse(col * d + row, d, col, row);
    assert(0 <= col * d + row < d * cols) by (nonlinear_arith)
        requires
            0 <= row < d,
            0 <= col < cols,
    ;
}

/// True when the cell at (`row`, `col`) lies in the three by three block
/// around the cell at (`at_row`, `at_col`) and is not that cell itself.
pub open spec fn touches(at_row: int, at_col: int, row: int, col: int) -> bool {
    &&& at_row - 1 <= row <= at_row + 1
    &&& at_col - 1 <= col <= at_col + 1
    &&& !(row == at_row && col == at_col)
}

/// What a scan of the block around (`row`, `col`) holds: the cells on the
/// grid that touch (`row`, `col`) and lie among the first `n` positions,
/// each once.
pub(crate) proof fn lemma_scan(rows: nat, cols: nat, row: int, col: int, n: nat)
    requires
        n <= 9,
    ensures
        scan(rows, cols, row, col, n).len() <= n,
        scan(rows, cols, row, col, n).no_duplicates(),
        forall|j: int| #[trigger]
            scan(rows, cols, row, col, n).contains(j) <==> {
                &&& 0 <= j < rows * cols
                &&& touches(row, col, j % (rows as int), j / (rows as int))
                &&& 3 * (j % (rows as int) - row + 1) + (j / (rows as int) - col + 1) < n
            },
    decreases n,
{
    if n > 0 {
        let p = (n - 1) as int;
        let before = scan(rows, cols, row, col, (n - 1) as nat);
        let here = cell(rows, cols, row + p / 3 - 1, col + p % 3 - 1);
        let all = scan(rows, cols, row, col, n);
        lemma_scan(rows, cols, row, col, (n - 1) as nat);
        let r = row + p / 3 - 1;
        let c = col + p % 3 - 1;
        if p != 4 && 0 <= r < rows && 0 <= c < cols {
            let here_index = c * rows + r;
            lemma_index_join(rows, cols, r, c);
            assert(all == before.push(here_index));
            assert(!before.contains(here_index));
            assert forall|j: int| #[trigger] all.contains(j) <==> {
                &&& 0 <= j < rows * cols
                &&& touches(row, col, j % (rows as int), j / (rows as int))
                &&& 3 * (j % (rows as int) - row + 1) + (j / (rows as int) - col + 1) < n
            } by {
                if 0 <= j < rows * cols {
                    lemma_index_split(rows, cols, j);
                }
                if all.contains(j) {
                    let m = choose|m: int| 0 <= m < all.len() && all[m] == j;
                    if m < before.len() {
                        assert(before[m] == j);
                        assert(before.contains(j));
                    }
                }
                if j == here_index {
                    assert(all[before.len() as int] == j);
                } else if before.contains(j) {
                    let m = choose|m: int| 0 <= m < before.len() && before[m] == j;
                    assert(all[m] == j);
                }
            }
            assert(all.no_duplicates()) by {
                assert forall|a: int, b: int| 0 <= a < all.len() && 0 <= b < all.len() && a != b implies all[a]
                    != all[b] by {
                    if a < before.len() {
                        assert(before.contains(all[a]));
                    }
                    if b < before.len() {
                        assert(before.contains(all[b]));
                    }
                }
            }
        } else {
            assert(all == before);
            assert forall|j: int| #[trigger] all.contains(j) <==> {
                &&& 0 <= j < rows * cols
                &&& touches(row, col, j % (rows as int), j / (rows as int))
                &&& 3 * (j % (rows as int) - row + 1) + (j / (rows as int) - col + 1) < n
            } by {
                if 0 <= j < rows * cols {
                    lemma_index_split(rows, cols, j);
                }
            }
        }
    }
}

/// The tiles around tile `i` are at most eight tiles of the grid, each
/// listed once: those that touch `i`.
pub proof fn lemma_neighbours(rows: nat, cols: nat, i: int)
    requires
        0 <= i < rows * cols,
    ensures
        neighbours(rows, cols, i).len() <= 8,
        neighbours(rows, cols, i).no_duplicates(),
        forall|j: int| #[trigger]
            neighbours(rows, cols, i).contains(j) <==> {
                &&& 0 <= j < rows * cols
                &&& touches(i % (rows as int), i / (rows as int), j % (rows as int), j / (rows as int))
            },
        forall|k: int|
            0 <= k < neighbours(rows, cols, i).len() ==> 0 <= #[trigger] neighbours(rows, cols, i)[k] < rows
                * cols,
{
    let row = i % (rows as int);
    let col = i / (rows as int);
    lemma_scan(rows, cols, row, col, 9);
    lemma_scan(rows, cols, row, col, 4);
    lemma_scan(rows, cols, row, col, 5);
    let ns = neighbours(rows, cols, i);
    assert(scan(rows, cols, row, col, 5) == scan(rows, cols, row, col, 4));
    assert(ns.len() <= 8) by {
        reveal_with_fuel(scan, 5);
        lemma_scan_grows(rows, cols, row, col, 5, 9);
    }
    assert forall|k: int| 0 <= k < ns.len() implies 0 <= #[trigger] ns[k] < rows * cols by {
        assert(ns.contains(ns[k]));
    }
}

/// A scan grows by at most one cell with each further position.
pub(crate) proof fn lemma_scan_grows(rows: nat, cols: nat, row: int, col: int, from: nat, to: nat)
    requires
        from <= to,
    ensures
        scan(rows, cols, row, col, to).len() <= scan(rows, cols, row, col, from).len() + (to - from),
    decreases to - from,
{
    if from < to {
        lemma_scan_grows(rows, cols, row, col, from, (to - 1) as nat);
    }
}

} // verus!

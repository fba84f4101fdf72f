//! Latin squares and their cost: a grid costs nothing exactly when it is one.

use vstd::prelude::*;

use crate::repair::{lemma_line_full, symbols_upto};
use crate::square::{
    absent_in_col, absent_in_row, col_cost, col_has, cols_cost, column, count_upto, grid_cost, grid_wf, holds, item_fits,
    occurrences, row_cost, row_has, rows_cost, symbol_of, Grid, SquareItem,
};

verus! {

/// Whether the grid is a Latin square: every row and every column holds each
/// of the symbols `0..n` exactly once. The side is one that the symbols can
/// number.
pub open spec fn is_latin(g: Grid, n: int) -> bool {
    &&& grid_wf(g, n)
    &&& n <= u32::MAX
    &&& forall|i: int, v: int| 0 <= i < n && 0 <= v < n ==> #[trigger] occurrences(g[i], Some(v as u32)) == 1
    &&& forall|i: int, v: int| 0 <= i < n && 0 <= v < n ==> #[trigger] occurrences(column(g, i), Some(v as u32)) == 1
}

/// A symbol that is counted among the first `k` cells of a line stands in one of them.
proof fn lemma_counted_is_held(line: Seq<SquareItem>, v: u32, k: int)
    requires
        0 <= k <= line.len(),
        count_upto(line, Some(v), k) > 0,
    ensures
        exists|c: int| 0 <= c < k && holds(#[trigger] line[c], v as int),
    decreases k,
{
    if k > 0 {
        if symbol_of(line[k - 1]) == Some(v) {
            assert(holds(line[k - 1], v as int));
        } else {
            lemma_counted_is_held(line, v, k - 1);
            let c = choose|c: int| 0 <= c < k - 1 && holds(#[trigger] line[c], v as int);
            assert(0 <= c < k && holds(line[c], v as int));
        }
    }
}

/// A row or a column in which every symbol below `k` occurs lacks none of them.
proof fn lemma_none_absent(g: Grid, i: int, k: int)
    requires
        0 <= k,
    ensures
        (forall|v: int| 0 <= v < k ==> row_has(g, i, v)) ==> absent_in_row(g, i, k) == 0,
        (forall|v: int| 0 <= v < k ==> col_has(g, i, v)) ==> absent_in_col(g, i, k) == 0,
    decreases k,
{
    if k > 0 {
        lemma_none_absent(g, i, k - 1);
    }
}

/// Rows and columns that cost nothing each sum to nothing.
proof fn lemma_no_cost(g: Grid, k: int)
    requires
        0 <= k,
    ensures
        (forall|i: int| 0 <= i < k ==> #[trigger] row_cost(g, i) == 0) ==> rows_cost(g, k) == 0,
        (forall|i: int| 0 <= i < k ==> #[trigger] col_cost(g, i) == 0) ==> cols_cost(g, k) == 0,
    decreases k,
{
    if k > 0 {
        lemma_no_cost(g, k - 1);
    }
}

/// A Latin square costs nothing.
pub proof fn lemma_latin_costs_nothing(g: Grid, n: int)
    requires
        is_latin(g, n),
    ensures
        grid_cost(g) == 0,
{
    assert forall|i: int| 0 <= i < n implies #[trigger] row_cost(g, i) == 0 by {
        assert forall|v: int| 0 <= v < n implies row_has(g, i, v) by {
            assert(occurrences(g[i], Some(v as u32)) == 1);
            lemma_counted_is_held(g[i], v as u32, n);
            let c = choose|c: int| 0 <= c < n && holds(#[trigger] g[i][c], v);
            assert(holds(g[i][c], v));
        }
        lemma_none_absent(g, i, n);
    }
    assert forall|i: int| 0 <= i < n implies #[trigger] col_cost(g, i) == 0 by {
        assert forall|v: int| 0 <= v < n implies col_has(g, i, v) by {
            assert(occurrences(column(g, i), Some(v as u32)) == 1);
            lemma_counted_is_held(column(g, i), v as u32, n);
            let r = choose|r: int| 0 <= r < n && holds(#[trigger] column(g, i)[r], v);
            assert(holds(g[r][i], v));
        }
        lemma_none_absent(g, i, n);
    }
    lemma_no_cost(g, n);
}

/// A symbol that stands in one of the first `k` cells of a line is counted there.
proof fn lemma_held_is_counted(line: Seq<SquareItem>, v: u32, k: int)
    requires
        0 <= k <= line.len(),
        exists|c: int| 0 <= c < k && holds(#[trigger] line[c], v as int),
    ensures
        count_upto(line, Some(v), k) > 0,
    decreases k,
{
    let c = choose|c: int| 0 <= c < k && holds(#[trigger] line[c], v as int);
    if c < k - 1 {
        lemma_held_is_counted(line, v, k - 1);
    } else {
        assert(symbol_of(line[k - 1]) == Some(v));
    }
}

/// A row or a column that lacks none of the symbols below `k` holds each of them.
proof fn lemma_all_present(g: Grid, i: int, k: int)
    requires
        0 <= k,
    ensures
        absent_in_row(g, i, k) == 0 ==> (forall|v: int| 0 <= v < k ==> row_has(g, i, v)),
        absent_in_col(g, i, k) == 0 ==> (forall|v: int| 0 <= v < k ==> col_has(g, i, v)),
    decreases k,
{
    if k > 0 {
        lemma_all_present(g, i, k - 1);
    }
}

/// Rows and columns that sum to no cost cost nothing each.
proof fn lemma_each_costless(g: Grid, k: int)
    requires
        0 <= k,
    ensures
        rows_cost(g, k) == 0 ==> (forall|i: int| 0 <= i < k ==> #[trigger] row_cost(g, i) == 0),
        cols_cost(g, k) == 0 ==> (forall|i: int| 0 <= i < k ==> #[trigger] col_cost(g, i) == 0),
    decreases k,
{
    if k > 0 {
        lemma_each_costless(g, k - 1);
    }
}

/// Where each of the symbols below `m` is counted at least once among the
/// first `k` cells of a line, they are counted at least `m` times together,
/// and exactly `m` times only if each is counted once.
proof fn lemma_once_each(line: Seq<SquareItem>, m: int, k: int)
    requires
        0 <= m,
        forall|v: int| 0 <= v < m ==> #[trigger] count_upto(line, Some(v as u32), k) >= 1,
    ensures
        symbols_upto(line, m, k) >= m,
        symbols_upto(line, m, k) == m ==> (forall|v: int| 0 <= v < m ==> #[trigger] count_upto(line, Some(v as u32), k) == 1),
    decreases m,
{
    if m > 0 {
        lemma_once_each(line, m - 1, k);
        assert(count_upto(line, Some((m - 1) as u32), k) >= 1);
    }
}

/// Whether the symbol `v` stands somewhere in the line.
pub open spec fn line_has(line: Seq<SquareItem>, v: int) -> bool {
    exists|c: int| 0 <= c < line.len() && holds(#[trigger] line[c], v)
}

/// A line of `n` cells that holds each of the symbols `0..n` holds each once.
proof fn lemma_line_once_each(line: Seq<SquareItem>, n: int)
    requires
        0 <= n <= u32::MAX,
        line.len() == n,
        forall|c: int| 0 <= c < n ==> item_fits(#[trigger] line[c], n),
        forall|v: int| 0 <= v < n ==> #[trigger] line_has(line, v),
    ensures
        forall|v: int| 0 <= v < n ==> #[trigger] occurrences(line, Some(v as u32)) == 1,
{
    assert forall|v: int| 0 <= v < n implies #[trigger] count_upto(line, Some(v as u32), n) >= 1 by {
        assert(line_has(line, v));
        let c = choose|c: int| 0 <= c < line.len() && holds(#[trigger] line[c], v);
        assert(holds(line[c], (v as u32) as int));
        lemma_held_is_counted(line, v as u32, n);
    }
    lemma_once_each(line, n, n);
    lemma_line_full(line, n, n);
}

/// A grid that costs nothing is a Latin square.
pub proof fn lemma_costless_is_latin(g: Grid, n: int)
    requires
        grid_wf(g, n),
        n <= u32::MAX,
        grid_cost(g) == 0,
    ensures
        is_latin(g, n),
{
    lemma_each_costless(g, n);
    assert forall|i: int, v: int| 0 <= i < n && 0 <= v < n implies #[trigger] occurrences(g[i], Some(v as u32)) == 1 by {
        assert(row_cost(g, i) == 0);
        lemma_all_present(g, i, n);
        assert forall|w: int| 0 <= w < n implies #[trigger] line_has(g[i], w) by {
            assert(row_has(g, i, w));
        }
        lemma_line_once_each(g[i], n);
    }
    assert forall|i: int, v: int| 0 <= i < n && 0 <= v < n implies #[trigger] occurrences(column(g, i), Some(v as u32)) == 1 by {
        assert(col_cost(g, i) == 0);
        lemma_all_present(g, i, n);
        let line = column(g, i);
        assert forall|w: int| 0 <= w < n implies #[trigger] line_has(line, w) by {
            assert(col_has(g, i, w));
            let r = choose|r: int| 0 <= r < g.len() && holds(#[trigger] g[r][i], w);
            assert(holds(line[r], w));
        }
        assert forall|r: int| 0 <= r < n implies item_fits(#[trigger] line[r], n) by {
            assert(item_fits(g[r][i], n));
        }
        lemma_line_once_each(line, n);
    }
}

} // verus!

//! Repair: brings the number of cells that hold each symbol to the side of
//! the grid, one replacement at a time.

use vstd::prelude::*;

use crate::candidates::Candidate;
use crate::ground::incremental_cost;
use crate::square::{
    cell_cost, count_upto, grid_complete, grid_count, grid_count_upto, grid_wf, item_fits, lemma_count_bound,
    lemma_grid_count_put, lemma_put_lines, put, symbol_of, Grid, Square, SquareItem,
};

verus! {

/// Whether index `a` comes before index `b` when the indices are sorted by
/// their values, equal values in the order of the indices.
pub open spec fn ranks_before(data: Seq<usize>, a: int, b: int) -> bool {
    data[a] < data[b] || (data[a] == data[b] && a < b)
}

/// Whether the index `k` is among the ranks.
pub open spec fn ranked(ranks: Seq<usize>, k: int) -> bool {
    exists|x: int| 0 <= x < ranks.len() && #[trigger] ranks[x] == k
}

/// Whether `ranks` lists every index of `data` once, sorted by the values,
/// equal values in the order of the indices.
pub open spec fn is_argsort(data: Seq<usize>, ranks: Seq<usize>) -> bool {
    &&& ranks.len() == data.len()
    &&& forall|x: int| 0 <= x < ranks.len() ==> #[trigger] ranks[x] < data.len()
    &&& forall|k: int| 0 <= k < data.len() ==> #[trigger] ranked(ranks, k)
    &&& forall|x: int, y: int| 0 <= x < y < ranks.len() ==> ranks_before(data, #[trigger] ranks[x] as int, #[trigger] ranks[y] as int)
}

/// Argsort returns the indices that would sort the values, equal values in
/// the order in which they stand.
pub fn argsort(data: &[usize]) -> (ranks: Vec<usize>)
    ensures
        is_argsort(data@, ranks@),
{
    let n = data.len();
    let mut ranks: Vec<usize> = Vec::new();
    let mut i: usize = 0;
    while i < n
        invariant
            n == data@.len(),
            i <= n,
            ranks@.len() == i,
            forall|x: int| 0 <= x < i ==> #[trigger] ranks@[x] < i,
            forall|k: int| 0 <= k < i ==> #[trigger] ranked(ranks@, k),
            forall|x: int, y: int| 0 <= x < y < i ==> ranks_before(data@, #[trigger] ranks@[x] as int, #[trigger] ranks@[y] as int),
        decreases n - i,
    {
        let ghost before = ranks@;
        ranks.push(i);
        proof {
            assert forall|k: int| 0 <= k < i + 1 implies #[trigger] ranked(ranks@, k) by {
                if k < i {
                    assert(ranked(before, k));
                    let x = choose|x: int| 0 <= x < before.len() && #[trigger] before[x] == k;
                    assert(ranks@[x] == k);
                } else {
                    assert(ranks@[i as int] == k);
                }
            }
        }
        let mut j: usize = i;
        while j > 0 && data[ranks[j - 1]] > data[ranks[j]]
            invariant
                n == data@.len(),
                i < n,
                j <= i,
                ranks@.len() == i + 1,
                ranks@[j as int] == i,
                forall|x: int| 0 <= x <= i ==> #[trigger] ranks@[x] <= i,
                forall|x: int| 0 <= x <= i && x != j ==> #[trigger] ranks@[x] < i,
                forall|k: int| 0 <= k <= i ==> #[trigger] ranked(ranks@, k),
                forall|x: int, y: int| 0 <= x < y <= i && x != j && y != j ==> ranks_before(data@, #[trigger] ranks@[x] as int, #[trigger] ranks@[y] as int),
                forall|y: int| j < y <= i ==> data@[i as int] < data@[#[trigger] ranks@[y] as int],
            decreases j,
        {
            let ghost prior = ranks@;
            let moved = ranks[j - 1];
            ranks[j - 1] = ranks[j];
            ranks[j] = moved;
            proof {
                assert forall|k: int| 0 <= k <= i implies #[trigger] ranked(ranks@, k) by {
                    assert(ranked(prior, k));
                    let x = choose|x: int| 0 <= x < prior.len() && #[trigger] prior[x] == k;
                    if x == j {
                        assert(ranks@[j - 1] == k);
                    } else if x == j - 1 {
                        assert(ranks@[j as int] == k);
                    } else {
                        assert(ranks@[x] == k);
                    }
                }
                assert forall|x: int, y: int| 0 <= x < y <= i && x != j - 1 && y != j - 1 implies ranks_before(
                    data@,
                    #[trigger] ranks@[x] as int,
                    #[trigger] ranks@[y] as int,
                ) by {
                    let px = if x == j { j - 1 } else { x };
                    let py = if y == j { j - 1 } else { y };
                    assert(ranks@[x] == prior[px]);
                    assert(ranks@[y] == prior[py]);
                    if px < py {
                        assert(ranks_before(data@, prior[px] as int, prior[py] as int));
                    }
                }
            }
            j -= 1;
        }
        proof {
            assert forall|x: int, y: int| 0 <= x < y < i + 1 implies ranks_before(
                data@,
                #[trigger] ranks@[x] as int,
                #[trigger] ranks@[y] as int,
            ) by {
                if x == j {
                } else if y == j {
                    if x < j - 1 {
                        assert(ranks_before(data@, ranks@[x] as int, ranks@[j - 1] as int));
                    }
                }
            }
        }
        i += 1;
    }
    ranks
}

/// The cost of the cell at (`r`, `c`) once it holds `item`: the cells of its
/// row and of its column that then hold the same symbol, itself among them.
pub open spec fn replacement_cost(g: Grid, r: int, c: int, item: SquareItem) -> nat {
    cell_cost(put(g, r, c, item), r, c, symbol_of(item))
}

/// Whether (`r1`, `c1`) is (`r2`, `c2`) or comes before it, row by row.
pub open spec fn not_after(r1: int, c1: int, r2: int, c2: int) -> bool {
    r1 < r2 || (r1 == r2 && c1 <= c2)
}

/// Whether (`r`, `c`) is the best of the cells walked before (`i`, `j`) that
/// hold `old_item`: replacing it costs least, and among those that cost the
/// same it comes first.
pub open spec fn best_before(g: Grid, n: int, old_item: SquareItem, new_item: SquareItem, r: int, c: int, i: int, j: int) -> bool {
    &&& 0 <= r < n
    &&& 0 <= c < n
    &&& g[r][c] == old_item
    &&& forall|a: int, b: int|
        0 <= a < n && 0 <= b < n && (a < i || (a == i && b < j)) && #[trigger] g[a][b] == old_item ==> {
            ||| replacement_cost(g, r, c, new_item) < replacement_cost(g, a, b, new_item)
            ||| (replacement_cost(g, r, c, new_item) == replacement_cost(g, a, b, new_item) && not_after(r, c, a, b))
        }
}

/// Whether (`r`, `c`) is the best cell of the grid to replace `old_item` in.
pub open spec fn best_replacement(g: Grid, n: int, old_item: SquareItem, new_item: SquareItem, r: int, c: int) -> bool {
    best_before(g, n, old_item, new_item, r, c, n, 0)
}

/// Whether none of the cells walked before (`i`, `j`) holds `item`.
pub open spec fn absent_before(g: Grid, n: int, item: SquareItem, i: int, j: int) -> bool {
    forall|a: int, b: int| 0 <= a < n && 0 <= b < n && (a < i || (a == i && b < j)) ==> #[trigger] g[a][b] != item
}

/// Replaces `old_treatment` with `new_treatment` in the one cell where that
/// costs least, the first of them row by row, and says which cell it was.
/// Where no cell holds `old_treatment`, the square stays as it is.
pub fn replace_treatment(square: &mut Square, old_treatment: SquareItem, new_treatment: SquareItem) -> (place: Option<(usize, usize)>)
    requires
        old(square).wf(),
        item_fits(new_treatment, old(square).size as int),
        2 * old(square).size <= u32::MAX,
    ensures
        final(square).wf(),
        final(square).size == old(square).size,
        place is None ==> final(square)@ == old(square)@ && absent_before(
            old(square)@,
            old(square).size as int,
            old_treatment,
            old(square).size as int,
            0,
        ),
        place matches Some(cell) ==> best_replacement(
            old(square)@,
            old(square).size as int,
            old_treatment,
            new_treatment,
            cell.0 as int,
            cell.1 as int,
        ) && final(square)@ == put(old(square)@, cell.0 as int, cell.1 as int, new_treatment),
{
    let n = square.size;
    let ghost g = square@;
    let mut best: Option<(usize, usize)> = None;
    let mut best_cost: u32 = u32::MAX;

    let mut i: usize = 0;
    while i < n
        invariant
            square.wf(),
            square@ == g,
            n == square.size,
            2 * n <= u32::MAX,
            item_fits(new_treatment, n as int),
            i <= n,
            best is None ==> absent_before(g, n as int, old_treatment, i as int, 0),
            best matches Some(cell) ==> best_before(g, n as int, old_treatment, new_treatment, cell.0 as int, cell.1 as int, i as int, 0)
                && best_cost == replacement_cost(g, cell.0 as int, cell.1 as int, new_treatment) && cell.0 < i,
        decreases n - i,
    {
        let mut j: usize = 0;
        while j < n
            invariant
                square.wf(),
                square@ == g,
                n == square.size,
                2 * n <= u32::MAX,
                item_fits(new_treatment, n as int),
                i < n,
                j <= n,
                best is None ==> absent_before(g, n as int, old_treatment, i as int, j as int),
                best matches Some(cell) ==> best_before(
                    g,
                    n as int,
                    old_treatment,
                    new_treatment,
                    cell.0 as int,
                    cell.1 as int,
                    i as int,
                    j as int,
                ) && best_cost == replacement_cost(g, cell.0 as int, cell.1 as int, new_treatment) && (cell.0 < i || (cell.0 == i
                    && cell.1 < j)),
            decreases n - j,
        {
            if square.get(i, j) == old_treatment {
                square.set(i, j, new_treatment);
                let cost = incremental_cost(&Candidate::new(i, j, new_treatment), square);
                let better = match best {
                    None => true,
                    Some(_) => cost < best_cost,
                };
                if better {
                    best = Some((i, j));
                    best_cost = cost;
                }
                square.set(i, j, old_treatment);
                proof {
                    assert(square@[i as int] =~= g[i as int]);
                    assert(square@ =~= g);
                }
            }
            j += 1;
        }
        i += 1;
    }
    match best {
        Some((r, c)) => {
            square.set(r, c, new_treatment);
        },
        None => {},
    }
    best
}

/// How many of the first `k` cells of `line` hold one of the symbols below `m`.
pub open spec fn symbols_upto(line: Seq<SquareItem>, m: int, k: int) -> nat
    decreases m,
{
    if m <= 0 {
        0
    } else {
        symbols_upto(line, m - 1, k) + count_upto(line, Some((m - 1) as u32), k)
    }
}

/// How many cells of the first `k` rows hold one of the symbols below `m`.
pub open spec fn grid_symbols_upto(g: Grid, m: int, k: int) -> nat
    decreases m,
{
    if m <= 0 {
        0
    } else {
        grid_symbols_upto(g, m - 1, k) + grid_count_upto(g, Some((m - 1) as u32), k)
    }
}

/// How many of the first `k` cells of `line` are the clue `v`.
pub open spec fn clues_upto(line: Seq<SquareItem>, v: u32, k: int) -> nat
    decreases k,
{
    if k <= 0 {
        0
    } else {
        clues_upto(line, v, k - 1) + if line[k - 1] == SquareItem::Frozen(v) { 1nat } else { 0nat }
    }
}

/// How many cells of the first `k` rows are the clue `v`.
pub open spec fn grid_clues_upto(g: Grid, v: u32, k: int) -> nat
    decreases k,
{
    if k <= 0 {
        0
    } else {
        grid_clues_upto(g, v, k - 1) + clues_upto(g[k - 1], v, g[k - 1].len() as int)
    }
}

/// How many cells of the grid are the clue `v`.
pub open spec fn grid_clues(g: Grid, v: u32) -> nat {
    grid_clues_upto(g, v, g.len() as int)
}

/// Whether no symbol is given as a clue more often than the side of the grid.
pub open spec fn clues_fit(g: Grid, n: int) -> bool {
    forall|v: int| 0 <= v < n ==> #[trigger] grid_clues(g, v as u32) <= n
}

/// Whether every symbol occurs in the grid exactly as often as its side.
pub open spec fn balanced(g: Grid, n: int) -> bool {
    forall|v: int| 0 <= v < n ==> #[trigger] grid_count(g, Some(v as u32)) == n
}

/// Whether `hi` is the most common symbol of the grid: none occurs more
/// often, and of those that occur as often it is the greatest.
pub open spec fn most_common(g: Grid, n: int, hi: int) -> bool {
    &&& 0 <= hi < n
    &&& forall|v: int|
        0 <= v < n ==> {
            ||| #[trigger] grid_count(g, Some(v as u32)) < grid_count(g, Some(hi as u32))
            ||| (grid_count(g, Some(v as u32)) == grid_count(g, Some(hi as u32)) && v <= hi)
        }
}

/// Whether `lo` is the least common symbol of the grid: none occurs less
/// often, and of those that occur as often it is the least.
pub open spec fn least_common(g: Grid, n: int, lo: int) -> bool {
    &&& 0 <= lo < n
    &&& forall|v: int|
        0 <= v < n ==> {
            ||| grid_count(g, Some(lo as u32)) < #[trigger] grid_count(g, Some(v as u32))
            ||| (grid_count(g, Some(v as u32)) == grid_count(g, Some(lo as u32)) && lo <= v)
        }
}

/// Whether `h` is the grid `g` after one replacement: `g` is out of balance,
/// and of the cells in which `hi`, its most common symbol, is placed, the
/// best one at (`r`, `c`) holds `lo`, its least common symbol, instead.
pub open spec fn repair_move(g: Grid, n: int, hi: int, lo: int, r: int, c: int, h: Grid) -> bool {
    &&& !balanced(g, n)
    &&& most_common(g, n, hi)
    &&& least_common(g, n, lo)
    &&& best_replacement(g, n, SquareItem::Treatment(hi as u32), SquareItem::Treatment(lo as u32), r, c)
    &&& h == put(g, r, c, SquareItem::Treatment(lo as u32))
}

/// Whether `h` is the grid `g` after one replacement.
pub open spec fn repair_step(g: Grid, n: int, h: Grid) -> bool {
    exists|hi: int, lo: int, r: int, c: int| #[trigger] repair_move(g, n, hi, lo, r, c, h)
}

/// Whether the most common symbol of the grid is placed nowhere, so that
/// every cell that holds it is a clue.
pub open spec fn repair_stuck(g: Grid, n: int) -> bool {
    exists|hi: int| #[trigger] most_common(g, n, hi) && absent_before(g, n, SquareItem::Treatment(hi as u32), n, 0)
}

/// Whether the grid at `t + 1` is the grid at `t` after one replacement.
pub open spec fn repair_step_at(n: int, path: Seq<Grid>, t: int) -> bool {
    repair_step(path[t], n, path[t + 1])
}

/// Whether each grid of the path is the one before it after one replacement.
pub open spec fn repair_path(n: int, path: Seq<Grid>) -> bool {
    path.len() > 0 && forall|t: int| 0 <= t < path.len() - 1 ==> #[trigger] repair_step_at(n, path, t)
}

/// Whether replacements, one after the other, lead from `start` to `result`,
/// and no further: `result` is in balance, or its most common symbol is
/// placed nowhere.
pub open spec fn repairs(start: Grid, n: int, result: Grid) -> bool {
    &&& exists|path: Seq<Grid>| #[trigger] repair_path(n, path) && path[0] == start && path[path.len() - 1] == result
    &&& balanced(result, n) || repair_stuck(result, n)
}

/// Whether a repair may have turned the cell `before` into the cell `after`:
/// a clue and any cell left alone are the same, and a placed symbol may have
/// become another placed symbol.
pub open spec fn cell_repaired(before: SquareItem, after: SquareItem) -> bool {
    after == before || (before is Treatment && after is Treatment)
}

/// The sum of the first `k` counts.
pub open spec fn total_upto(counts: Seq<usize>, k: int) -> int
    decreases k,
{
    if k <= 0 {
        0
    } else {
        total_upto(counts, k - 1) + counts[k - 1]
    }
}

/// By how much the first `k` counts exceed `n`, summed over those that do.
pub open spec fn surplus_upto(counts: Seq<usize>, n: int, k: int) -> int
    decreases k,
{
    if k <= 0 {
        0
    } else {
        surplus_upto(counts, n, k - 1) + if counts[k - 1] > n { counts[k - 1] - n } else { 0 }
    }
}

/// One more cell adds one to the count of the symbols below `m` where it
/// holds one of them.
proof fn lemma_symbols_step(line: Seq<SquareItem>, m: int, k: int)
    requires
        0 <= m <= u32::MAX + 1,
        0 < k <= line.len(),
    ensures
        symbols_upto(line, m, k) == symbols_upto(line, m, k - 1) + (if symbol_of(line[k - 1]) is Some && symbol_of(
            line[k - 1],
        )->0 < m { 1nat } else { 0nat }),
    decreases m,
{
    if m > 0 {
        lemma_symbols_step(line, m - 1, k);
    }
}

/// Every one of the first `k` cells of a line is empty or holds one symbol of `0..n`.
pub proof fn lemma_line_full(line: Seq<SquareItem>, n: int, k: int)
    requires
        0 <= n <= u32::MAX,
        0 <= k <= line.len(),
        forall|c: int| 0 <= c < line.len() ==> item_fits(#[trigger] line[c], n),
    ensures
        symbols_upto(line, n, k) + count_upto(line, None, k) == k,
    decreases k,
{
    if k > 0 {
        lemma_line_full(line, n, k - 1);
        lemma_symbols_step(line, n, k);
        assert(item_fits(line[k - 1], n));
    } else {
        lemma_symbols_none(line, n);
    }
}

/// No cells hold no symbols.
proof fn lemma_symbols_none(line: Seq<SquareItem>, m: int)
    ensures
        symbols_upto(line, m, 0) == 0,
    decreases m,
{
    if m > 0 {
        lemma_symbols_none(line, m - 1);
    }
}

/// One more row adds its own count of the symbols below `m`.
proof fn lemma_grid_symbols_step(g: Grid, m: int, k: int)
    requires
        0 < k <= g.len(),
    ensures
        grid_symbols_upto(g, m, k) == grid_symbols_upto(g, m, k - 1) + symbols_upto(g[k - 1], m, g[k - 1].len() as int),
    decreases m,
{
    if m > 0 {
        lemma_grid_symbols_step(g, m - 1, k);
    }
}

/// No rows hold no symbols.
proof fn lemma_grid_symbols_none(g: Grid, m: int)
    ensures
        grid_symbols_upto(g, m, 0) == 0,
    decreases m,
{
    if m > 0 {
        lemma_grid_symbols_none(g, m - 1);
    }
}

/// Every cell of the first `k` rows is empty or holds one symbol of `0..n`.
proof fn lemma_grid_full(g: Grid, n: int, k: int)
    requires
        grid_wf(g, n),
        n <= u32::MAX,
        0 <= k <= n,
    ensures
        grid_symbols_upto(g, n, k) + grid_count_upto(g, None, k) == k * n,
    decreases k,
{
    if k > 0 {
        lemma_grid_full(g, n, k - 1);
        lemma_grid_symbols_step(g, n, k);
        lemma_line_full(g[k - 1], n, n);
        assert(k * n == (k - 1) * n + n) by (nonlinear_arith);
    } else {
        lemma_grid_symbols_none(g, n);
        assert(k * n == 0) by (nonlinear_arith)
            requires
                k == 0,
        ;
    }
}

/// A line without empty cells counts none.
proof fn lemma_no_empty_line(line: Seq<SquareItem>, k: int)
    requires
        0 <= k <= line.len(),
        forall|c: int| 0 <= c < line.len() ==> #[trigger] line[c] != SquareItem::Empty,
    ensures
        count_upto(line, None, k) == 0,
    decreases k,
{
    if k > 0 {
        lemma_no_empty_line(line, k - 1);
        assert(line[k - 1] != SquareItem::Empty);
    }
}

/// A grid without empty cells counts none.
proof fn lemma_no_empty_grid(g: Grid, k: int)
    requires
        0 <= k <= g.len(),
        grid_complete(g),
    ensures
        grid_count_upto(g, None, k) == 0,
    decreases k,
{
    if k > 0 {
        lemma_no_empty_grid(g, k - 1);
        let line = g[k - 1];
        assert forall|c: int| 0 <= c < line.len() implies #[trigger] line[c] != SquareItem::Empty by {
            assert(g[k - 1][c] != SquareItem::Empty);
        }
        lemma_no_empty_line(line, line.len() as int);
    }
}

/// The first `k` rows hold a symbol at most `k * n` times.
proof fn lemma_grid_count_bound(g: Grid, n: int, s: Option<u32>, k: int)
    requires
        grid_wf(g, n),
        0 <= k <= n,
    ensures
        grid_count_upto(g, s, k) <= k * n,
    decreases k,
{
    if k > 0 {
        lemma_grid_count_bound(g, n, s, k - 1);
        lemma_count_bound(g[k - 1], s, n);
        assert(k * n == (k - 1) * n + n) by (nonlinear_arith);
    }
}

/// Counts that are those of the grid sum to what the grid holds.
proof fn lemma_total_matches(counts: Seq<usize>, g: Grid, m: int)
    requires
        0 <= m <= counts.len(),
        forall|v: int| 0 <= v < m ==> #[trigger] counts[v] == grid_count(g, Some(v as u32)),
    ensures
        total_upto(counts, m) == grid_symbols_upto(g, m, g.len() as int),
    decreases m,
{
    if m > 0 {
        lemma_total_matches(counts, g, m - 1);
        assert(counts[m - 1] == grid_count(g, Some((m - 1) as u32)));
    }
}

/// Changing one count moves the total and the surplus by what that count
/// contributes.
proof fn lemma_sums_update(counts: Seq<usize>, i: int, x: usize, n: int, k: int)
    requires
        0 <= i < counts.len(),
        0 <= k <= counts.len(),
    ensures
        total_upto(counts.update(i, x), k) == total_upto(counts, k) + (if i < k { x - counts[i] } else { 0 }),
        surplus_upto(counts.update(i, x), n, k) == surplus_upto(counts, n, k) + (if i < k {
            (if x > n { x - n } else { 0 }) - (if counts[i] > n { counts[i] - n } else { 0 })
        } else {
            0
        }),
        surplus_upto(counts, n, k) >= 0,
    decreases k,
{
    if k > 0 {
        lemma_sums_update(counts, i, x, n, k - 1);
    }
}

/// Counts that are all at most `n`, or all at least `n`, and sum to `k * n`
/// are all `n`.
proof fn lemma_even_counts(counts: Seq<usize>, n: int, k: int)
    requires
        0 <= k <= counts.len(),
    ensures
        (forall|v: int| 0 <= v < k ==> #[trigger] counts[v] <= n) ==> total_upto(counts, k) <= k * n,
        (forall|v: int| 0 <= v < k ==> #[trigger] counts[v] >= n) ==> total_upto(counts, k) >= k * n,
        (forall|v: int| 0 <= v < k ==> #[trigger] counts[v] <= n) && total_upto(counts, k) == k * n ==> (forall|v: int|
            0 <= v < k ==> #[trigger] counts[v] == n),
        (forall|v: int| 0 <= v < k ==> #[trigger] counts[v] >= n) && total_upto(counts, k) == k * n ==> (forall|v: int|
            0 <= v < k ==> #[trigger] counts[v] == n),
    decreases k,
{
    if k > 0 {
        lemma_even_counts(counts, n, k - 1);
        assert(k * n == (k - 1) * n + n) by (nonlinear_arith);
    } else {
        assert(k * n == 0) by (nonlinear_arith)
            requires
                k == 0,
        ;
    }
}

/// A surplus is never negative.
proof fn lemma_surplus_bound(counts: Seq<usize>, n: int, k: int)
    ensures
        surplus_upto(counts, n, k) >= 0,
    decreases k,
{
    if k > 0 {
        lemma_surplus_bound(counts, n, k - 1);
    }
}

/// Where every cell of line `a` that holds `v` is the clue `v` in line `b`,
/// `a` holds `v` no more often than `b` has it as a clue.
proof fn lemma_line_clues(a: Seq<SquareItem>, b: Seq<SquareItem>, v: u32, k: int)
    requires
        0 <= k <= a.len(),
        k <= b.len(),
        forall|c: int| 0 <= c < k && symbol_of(#[trigger] a[c]) == Some(v) ==> b[c] == SquareItem::Frozen(v),
    ensures
        count_upto(a, Some(v), k) <= clues_upto(b, v, k),
    decreases k,
{
    if k > 0 {
        lemma_line_clues(a, b, v, k - 1);
        if symbol_of(a[k - 1]) == Some(v) {
            assert(b[k - 1] == SquareItem::Frozen(v));
        }
    }
}

/// Where every cell of `a` that holds `v` is the clue `v` in `b`, `a` holds
/// `v` no more often than `b` has it as a clue.
proof fn lemma_grid_clues(a: Grid, b: Grid, n: int, v: u32, k: int)
    requires
        grid_wf(a, n),
        grid_wf(b, n),
        0 <= k <= n,
        forall|r: int, c: int| 0 <= r < n && 0 <= c < n && symbol_of(#[trigger] a[r][c]) == Some(v) ==> b[r][c] == SquareItem::Frozen(v),
    ensures
        grid_count_upto(a, Some(v), k) <= grid_clues_upto(b, v, k),
    decreases k,
{
    if k > 0 {
        lemma_grid_clues(a, b, n, v, k - 1);
        let la = a[k - 1];
        let lb = b[k - 1];
        assert forall|c: int| 0 <= c < n && symbol_of(#[trigger] la[c]) == Some(v) implies lb[c] == SquareItem::Frozen(v) by {
            assert(symbol_of(a[k - 1][c]) == Some(v));
        }
        lemma_line_clues(la, lb, v, n);
    }
}

/// Whether every count is `n`.
fn all_equal(counts: &Vec<usize>, n: usize) -> (even: bool)
    ensures
        even == (forall|v: int| 0 <= v < counts@.len() ==> #[trigger] counts@[v] == n),
{
    let mut v: usize = 0;
    while v < counts.len()
        invariant
            v <= counts@.len(),
            forall|x: int| 0 <= x < v ==> #[trigger] counts@[x] == n,
        decreases counts@.len() - v,
    {
        if counts[v] != n {
            return false;
        }
        v += 1;
    }
    true
}

/// Counts how often each symbol occurs in the square.
fn count_symbols(square: &Square) -> (counts: Vec<usize>)
    requires
        square.wf(),
        2 * square.size * square.size <= u32::MAX,
    ensures
        counts@.len() == square.size,
        forall|v: int| 0 <= v < square.size ==> #[trigger] counts@[v] == grid_count(square@, Some(v as u32)),
{
    let n = square.size;
    let ghost g = square@;
    assert(n * n <= u32::MAX && n <= u32::MAX) by (nonlinear_arith)
        requires
            2 * n * n <= u32::MAX,
    ;
    let mut counts: Vec<usize> = Vec::new();
    let mut v: usize = 0;
    while v < n
        invariant
            v <= n,
            counts@.len() == v,
            forall|x: int| 0 <= x < v ==> #[trigger] counts@[x] == 0,
        decreases n - v,
    {
        counts.push(0);
        v += 1;
    }
    let mut i: usize = 0;
    while i < n
        invariant
            square.wf(),
            g == square@,
            n == square.size,
            n * n <= u32::MAX,
            n <= u32::MAX,
            i <= n,
            counts@.len() == n,
            forall|v: int| 0 <= v < n ==> #[trigger] counts@[v] == grid_count_upto(g, Some(v as u32), i as int),
        decreases n - i,
    {
        let mut j: usize = 0;
        while j < n
            invariant
                square.wf(),
                g == square@,
                n == square.size,
                n * n <= u32::MAX,
                n <= u32::MAX,
                i < n,
                j <= n,
                counts@.len() == n,
                forall|v: int| 0 <= v < n ==> #[trigger] counts@[v] == grid_count_upto(g, Some(v as u32), i as int) + count_upto(
                    g[i as int],
                    Some(v as u32),
                    j as int,
                ),
            decreases n - j,
        {
            match square.get(i, j).symbol() {
                Some(t) => {
                    proof {
                        lemma_grid_count_bound(g, n as int, Some(t), i as int);
                        lemma_count_bound(g[i as int], Some(t), j as int);
                        assert(i * n + j + 1 <= n * n) by (nonlinear_arith)
                            requires
                                i < n,
                                j < n,
                        ;
                        assert(counts@[t as int] == grid_count_upto(g, Some(t as int as u32), i as int) + count_upto(
                            g[i as int],
                            Some(t as int as u32),
                            j as int,
                        ));
                    }
                    let seen = counts[t as usize];
                    counts[t as usize] = seen + 1;
                },
                None => {},
            }
            j += 1;
        }
        i += 1;
    }
    counts
}

/// A Latin square can only be valid if each treatment occurs exactly `n`
/// times in total. While that fails, the most common treatment is replaced
/// by the least common one in the cell where that costs least. Clues are
/// left alone; the work ends early only where every cell that holds the most
/// common treatment is a clue.
pub fn repair(square: &Square) -> (result: Square)
    requires
        square.wf(),
        grid_complete(square@),
        2 * square.size * square.size <= u32::MAX,
    ensures
        result.wf(),
        result.size == square.size,
        grid_complete(result@),
        forall|r: int, c: int| 0 <= r < square.size && 0 <= c < square.size ==> cell_repaired(square@[r][c], #[trigger] result@[r][c]),
        repairs(square@, square.size as int, result@),
        clues_fit(square@, square.size as int) ==> balanced(result@, square.size as int),
        balanced(square@, square.size as int) ==> result@ == square@,
{
    let n = square.size;
    let ghost start = square@;
    let mut square = square.clone();
    assert(n * n <= u32::MAX && 2 * n <= u32::MAX) by (nonlinear_arith)
        requires
            2 * n * n <= u32::MAX,
    ;

    // Count the number of each treatment in the square. There should be
    // exactly n instances of each treatment. If not, repair the square.
    let mut counts = count_symbols(&square);
    proof {
        lemma_total_matches(counts@, start, n as int);
        lemma_grid_full(start, n as int, n as int);
        lemma_no_empty_grid(start, n as int);
        lemma_surplus_bound(counts@, n as int, n as int);
    }

    // Replace the most common treatment with the least common treatment
    let mut settled = all_equal(&counts, n);
    let ghost mut path: Seq<Grid> = seq![start];
    proof {
        if settled {
            assert forall|v: int| 0 <= v < n implies #[trigger] grid_count(square@, Some(v as u32)) == n by {
                assert(counts@[v] == grid_count(square@, Some(v as u32)));
            }
        }
    }
    while !settled
        invariant
            repair_path(n as int, path),
            path[0] == start,
            path[path.len() - 1] == square@,
            settled ==> balanced(square@, n as int) || repair_stuck(square@, n as int),
            square.wf(),
            n == square.size,
            grid_wf(start, n as int),
            n * n <= u32::MAX,
            2 * n <= u32::MAX,
            grid_complete(square@),
            counts@.len() == n,
            forall|v: int| 0 <= v < n ==> #[trigger] counts@[v] == grid_count(square@, Some(v as u32)),
            total_upto(counts@, n as int) == n * n,
            forall|r: int, c: int| 0 <= r < n && 0 <= c < n ==> cell_repaired(start[r][c], #[trigger] square@[r][c]),
            settled ==> (forall|v: int| 0 <= v < n ==> #[trigger] counts@[v] == n) || !clues_fit(start, n as int),
            !settled ==> !(forall|v: int| 0 <= v < n ==> #[trigger] counts@[v] == n),
            balanced(start, n as int) ==> square@ == start && settled,
            surplus_upto(counts@, n as int, n as int) >= 0,
        decreases surplus_upto(counts@, n as int, n as int) + (if settled { 0int } else { 1int }),
    {
        let treatment_ranks = argsort(counts.as_slice());
        assert(n > 0);
        let least_common_treatment = treatment_ranks[0];
        let most_common_treatment = treatment_ranks[n - 1];

        let ghost before = square@;
        let ghost tallies = counts@;
        proof {
            let hi = most_common_treatment as int;
            let lo = least_common_treatment as int;
            assert forall|v: int| 0 <= v < n implies (#[trigger] grid_count(before, Some(v as u32)) < grid_count(before, Some(hi as u32))
                || (grid_count(before, Some(v as u32)) == grid_count(before, Some(hi as u32)) && v <= hi)) && (grid_count(
                before,
                Some(lo as u32),
            ) < grid_count(before, Some(v as u32)) || (grid_count(before, Some(v as u32)) == grid_count(before, Some(lo as u32))
                && lo <= v)) by {
                assert(tallies[v] == grid_count(before, Some(v as u32)));
                assert(tallies[hi] == grid_count(before, Some(hi as u32)));
                assert(tallies[lo] == grid_count(before, Some(lo as u32)));
                assert(ranked(treatment_ranks@, v));
                let x = choose|x: int| 0 <= x < treatment_ranks@.len() && #[trigger] treatment_ranks@[x] == v;
                if 0 < x {
                    assert(ranks_before(tallies, treatment_ranks@[0] as int, treatment_ranks@[x] as int));
                }
                if x < n - 1 {
                    assert(ranks_before(tallies, treatment_ranks@[x] as int, treatment_ranks@[n - 1] as int));
                }
            }
            assert(most_common(before, n as int, hi));
            assert(least_common(before, n as int, lo));
            assert forall|v: int| 0 <= v < n implies tallies[lo] <= #[trigger] tallies[v] <= tallies[hi] by {
                assert(tallies[v] == grid_count(before, Some(v as u32)));
            }
            lemma_even_counts(tallies, n as int, n as int);
            assert(tallies[hi] > n && tallies[lo] < n);
            assert(!balanced(before, n as int)) by {
                if balanced(before, n as int) {
                    assert(grid_count(before, Some(hi as u32)) == n);
                }
            }
        }
        let place = replace_treatment(
            &mut square,
            SquareItem::Treatment(most_common_treatment as u32),
            SquareItem::Treatment(least_common_treatment as u32),
        );
        match place {
            Some((r, c)) => {
                counts[most_common_treatment] = counts[most_common_treatment] - 1;
                let ghost middle = counts@;
                counts[least_common_treatment] = counts[least_common_treatment] + 1;
                proof {
                    let item = SquareItem::Treatment(least_common_treatment as u32);
                    lemma_put_lines(before, n as int, r as int, c as int, item);
                    assert forall|v: int| 0 <= v < n implies #[trigger] counts@[v] == grid_count(square@, Some(v as u32)) by {
                        lemma_grid_count_put(before, n as int, r as int, c as int, item, Some(v as u32), n as int);
                        assert(tallies[v] == grid_count(before, Some(v as u32)));
                    }
                    lemma_sums_update(tallies, most_common_treatment as int, middle[most_common_treatment as int], n as int, n as int);
                    lemma_sums_update(middle, least_common_treatment as int, counts@[least_common_treatment as int], n as int, n as int);
                    lemma_surplus_bound(counts@, n as int, n as int);
                    assert forall|a: int, b: int| 0 <= a < square@.len() && 0 <= b < square@[a].len() implies #[trigger] square@[a][b]
                        != SquareItem::Empty by {
                        assert(before[a][b] != SquareItem::Empty);
                    }
                    assert forall|a: int, b: int| 0 <= a < n && 0 <= b < n implies cell_repaired(start[a][b], #[trigger] square@[a][b]) by {
                        assert(cell_repaired(start[a][b], before[a][b]));
                    }
                    assert(repair_move(
                        before,
                        n as int,
                        most_common_treatment as int,
                        least_common_treatment as int,
                        r as int,
                        c as int,
                        square@,
                    ));
                    let longer = path.push(square@);
                    assert forall|t: int| 0 <= t < longer.len() - 1 implies #[trigger] repair_step_at(n as int, longer, t) by {
                        if t < path.len() - 1 {
                            assert(repair_step_at(n as int, path, t));
                            assert(longer[t] == path[t] && longer[t + 1] == path[t + 1]);
                        } else {
                            assert(longer[t] == before && longer[t + 1] == square@);
                        }
                    }
                    path = longer;
                }
                settled = all_equal(&counts, n);
                proof {
                    if settled {
                        assert forall|v: int| 0 <= v < n implies #[trigger] grid_count(square@, Some(v as u32)) == n by {
                            assert(counts@[v] == grid_count(square@, Some(v as u32)));
                        }
                    }
                }
            },
            None => {
                proof {
                    let hi = most_common_treatment as u32;
                    assert forall|a: int, b: int| 0 <= a < n && 0 <= b < n && symbol_of(#[trigger] before[a][b]) == Some(hi) implies start[a][b]
                        == SquareItem::Frozen(hi) by {
                        assert(before[a][b] != SquareItem::Treatment(hi));
                        assert(cell_repaired(start[a][b], before[a][b]));
                    }
                    lemma_grid_clues(before, start, n as int, hi, n as int);
                    assert(tallies[most_common_treatment as int] == grid_count(before, Some(most_common_treatment as int as u32)));
                    assert(grid_clues(start, (most_common_treatment as int) as u32) > n);
                    assert(most_common(before, n as int, most_common_treatment as int) && absent_before(
                        before,
                        n as int,
                        SquareItem::Treatment(hi),
                        n as int,
                        0,
                    ));
                    assert(repair_stuck(before, n as int));
                }
                settled = true;
            },
        }
    }
    proof {
        if clues_fit(start, n as int) {
            assert forall|v: int| 0 <= v < n implies #[trigger] grid_count(square@, Some(v as u32)) == n by {
                assert(counts@[v] == grid_count(square@, Some(v as u32)));
            }
        }
    }
    square
}

} // verus!

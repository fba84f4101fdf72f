//! First improvement local search over swaps of two cells that share a row
//! or a column.

use vstd::prelude::*;

use crate::square::{
    col_cost, grid_complete, grid_cost, grid_count, grid_wf, is_frozen, lemma_grid_count_put, lemma_put_lines, put, row_cost,
    swapped, Grid, Square, SquareItem,
};

verus! {

/// The cost of the two rows and the two columns that the cells (`r1`, `c1`)
/// and (`r2`, `c2`) stand in.
pub open spec fn local_cost(g: Grid, r1: int, c1: int, r2: int, c2: int) -> nat {
    row_cost(g, r1) + row_cost(g, r2) + col_cost(g, c1) + col_cost(g, c2)
}

/// Whether exchanging two cells is an accepted move: neither is a clue, the
/// rows and columns of the two cost less afterwards, and so does the grid.
pub open spec fn swap_improves(g: Grid, r1: int, c1: int, r2: int, c2: int) -> bool {
    &&& !is_frozen(g[r1][c1])
    &&& !is_frozen(g[r2][c2])
    &&& local_cost(swapped(g, r1, c1, r2, c2), r1, c1, r2, c2) < local_cost(g, r1, c1, r2, c2)
    &&& grid_cost(swapped(g, r1, c1, r2, c2)) < grid_cost(g)
}

/// The move numbered (`i`, `j`, `k`): with `use_rows` it exchanges the cells
/// of column `i` in the rows `j` and `k`, else the cells of row `i` in the
/// columns `j` and `k`.
pub open spec fn move_improves(g: Grid, i: int, j: int, k: int, use_rows: bool) -> bool {
    if use_rows {
        swap_improves(g, j, i, k, i)
    } else {
        swap_improves(g, i, j, i, k)
    }
}

/// Whether no move of the neighbourhood is accepted: `j` runs over the lower
/// half of the indices and `k` over the upper half.
pub open spec fn local_optimum(g: Grid, n: int) -> bool {
    forall|i: int, j: int, k: int, use_rows: bool|
        0 <= i < n && 0 <= j < n / 2 && n / 2 <= k < n ==> !#[trigger] move_improves(g, i, j, k, use_rows)
}

/// Whether (`i`, `j`, `k`) numbers a move of the neighbourhood.
pub open spec fn in_walk(n: int, i: int, j: int, k: int) -> bool {
    0 <= i < n && 0 <= j < n / 2 && n / 2 <= k < n
}

/// Whether the first move is tried before the second: the moves are walked
/// by `i`, then by `j`, then by `k`, and of the two moves with one number the
/// one with `use_rows` comes first.
pub open spec fn move_before(i1: int, j1: int, k1: int, f1: bool, i2: int, j2: int, k2: int, f2: bool) -> bool {
    i1 < i2 || (i1 == i2 && (j1 < j2 || (j1 == j2 && (k1 < k2 || (k1 == k2 && f1 && !f2)))))
}

/// Whether the move is the first of the walk that is accepted.
pub open spec fn first_move(g: Grid, n: int, i: int, j: int, k: int, use_rows: bool) -> bool {
    &&& in_walk(n, i, j, k)
    &&& move_improves(g, i, j, k, use_rows)
    &&& forall|a: int, b: int, c: int, f: bool|
        in_walk(n, a, b, c) && move_before(a, b, c, f, i, j, k, use_rows) ==> !#[trigger] move_improves(g, a, b, c, f)
}

/// The grid after the move.
pub open spec fn after_move(g: Grid, i: int, j: int, k: int, use_rows: bool) -> Grid {
    if use_rows {
        swapped(g, j, i, k, i)
    } else {
        swapped(g, i, j, i, k)
    }
}

/// Whether `h` is the grid `g` after the move, the first accepted one.
pub open spec fn search_move(g: Grid, n: int, i: int, j: int, k: int, use_rows: bool, h: Grid) -> bool {
    first_move(g, n, i, j, k, use_rows) && h == after_move(g, i, j, k, use_rows)
}

/// Whether `h` is the grid `g` after the first accepted move of the walk.
pub open spec fn search_step(g: Grid, n: int, h: Grid) -> bool {
    exists|i: int, j: int, k: int, use_rows: bool| #[trigger] search_move(g, n, i, j, k, use_rows, h)
}

/// Whether the grid at `t + 1` is the grid at `t` after its first accepted move.
pub open spec fn search_step_at(n: int, path: Seq<Grid>, t: int) -> bool {
    search_step(path[t], n, path[t + 1])
}

/// Whether each grid of the path is the one before it after its first
/// accepted move.
pub open spec fn search_path(n: int, path: Seq<Grid>) -> bool {
    path.len() > 0 && forall|t: int| 0 <= t < path.len() - 1 ==> #[trigger] search_step_at(n, path, t)
}

/// Whether first accepted moves, one after the other, lead from `start` to
/// `result`, and `result` has none.
pub open spec fn searches(start: Grid, n: int, result: Grid) -> bool {
    &&& exists|path: Seq<Grid>| #[trigger] search_path(n, path) && path[0] == start && path[path.len() - 1] == result
    &&& local_optimum(result, n)
}

/// Whether `h` holds the cells of `g` in another arrangement that leaves
/// every clue where it was.
pub open spec fn reshuffled(g: Grid, h: Grid, n: int) -> bool {
    &&& grid_wf(h, n)
    &&& forall|r: int, c: int| 0 <= r < n && 0 <= c < n && (is_frozen(g[r][c]) || is_frozen(#[trigger] h[r][c])) ==> h[r][c] == g[r][c]
    &&& forall|s: Option<u32>| #[trigger] grid_count(h, s) == grid_count(g, s)
    &&& grid_complete(g) ==> grid_complete(h)
}

/// Exchanging two cells twice gives the grid back.
proof fn lemma_swap_back(g: Grid, n: int, r1: int, c1: int, r2: int, c2: int)
    requires
        grid_wf(g, n),
        0 <= r1 < n,
        0 <= c1 < n,
        0 <= r2 < n,
        0 <= c2 < n,
    ensures
        swapped(swapped(g, r1, c1, r2, c2), r1, c1, r2, c2) == g,
        grid_wf(swapped(g, r1, c1, r2, c2), n),
{
    let h1 = put(g, r1, c1, g[r2][c2]);
    lemma_put_lines(g, n, r1, c1, g[r2][c2]);
    let h = put(h1, r2, c2, g[r1][c1]);
    lemma_put_lines(h1, n, r2, c2, g[r1][c1]);
    let k1 = put(h, r1, c1, h[r2][c2]);
    lemma_put_lines(h, n, r1, c1, h[r2][c2]);
    let k = put(k1, r2, c2, h[r1][c1]);
    lemma_put_lines(k1, n, r2, c2, h[r1][c1]);
    assert forall|r: int| 0 <= r < n implies #[trigger] k[r] =~= g[r] by {}
    assert(k =~= g);
}

/// Exchanging two cells that are no clues rearranges the grid.
proof fn lemma_swap_reshuffles(g: Grid, n: int, r1: int, c1: int, r2: int, c2: int)
    requires
        grid_wf(g, n),
        0 <= r1 < n,
        0 <= c1 < n,
        0 <= r2 < n,
        0 <= c2 < n,
        !is_frozen(g[r1][c1]),
        !is_frozen(g[r2][c2]),
    ensures
        reshuffled(g, swapped(g, r1, c1, r2, c2), n),
{
    let h1 = put(g, r1, c1, g[r2][c2]);
    lemma_put_lines(g, n, r1, c1, g[r2][c2]);
    let h = put(h1, r2, c2, g[r1][c1]);
    lemma_put_lines(h1, n, r2, c2, g[r1][c1]);
    assert forall|s: Option<u32>| #[trigger] grid_count(h, s) == grid_count(g, s) by {
        lemma_grid_count_put(g, n, r1, c1, g[r2][c2], s, n);
        lemma_grid_count_put(h1, n, r2, c2, g[r1][c1], s, n);
    }
    if grid_complete(g) {
        assert forall|r: int, c: int| 0 <= r < h.len() && 0 <= c < h[r].len() implies #[trigger] h[r][c] != SquareItem::Empty by {
            assert(g[r][c] != SquareItem::Empty);
            assert(g[r1][c1] != SquareItem::Empty);
            assert(g[r2][c2] != SquareItem::Empty);
        }
    }
}

/// A rearrangement of a rearrangement is a rearrangement.
proof fn lemma_reshuffled_twice(g: Grid, h: Grid, k: Grid, n: int)
    requires
        reshuffled(g, h, n),
        reshuffled(h, k, n),
    ensures
        reshuffled(g, k, n),
{
    assert forall|s: Option<u32>| #[trigger] grid_count(k, s) == grid_count(g, s) by {
        assert(grid_count(h, s) == grid_count(g, s));
    }
    assert forall|r: int, c: int| 0 <= r < n && 0 <= c < n && (is_frozen(g[r][c]) || is_frozen(#[trigger] k[r][c])) implies k[r][c]
        == g[r][c] by {
        if is_frozen(g[r][c]) {
            assert(h[r][c] == g[r][c]);
        } else {
            assert(is_frozen(h[r][c]));
        }
    }
}

impl Square {
    /// Whether the cell at (`row`, `col`) is a clue.
    pub fn is_clue(&self, row: usize, col: usize) -> (clue: bool)
        requires
            self.wf(),
            row < self.size,
            col < self.size,
        ensures
            clue == is_frozen(self@[row as int][col as int]),
    {
        match self.get(row, col) {
            SquareItem::Frozen(_) => true,
            _ => false,
        }
    }

    /// The cost of the two rows and the two columns of two cells.
    fn check_lines(&self, r1: usize, c1: usize, r2: usize, c2: usize) -> (cost: u64)
        requires
            self.wf(),
            r1 < self.size,
            c1 < self.size,
            r2 < self.size,
            c2 < self.size,
            self.size <= u32::MAX,
        ensures
            cost == local_cost(self@, r1 as int, c1 as int, r2 as int, c2 as int),
    {
        self.check_row(r1) as u64 + self.check_row(r2) as u64 + self.check_col(c1) as u64 + self.check_col(c2) as u64
    }
}

/// Exchanges two cells if that is an accepted move, and gives the new score;
/// leaves the square as it is if not.
fn try_swap(square: &mut Square, r1: usize, c1: usize, r2: usize, c2: usize, score: u32) -> (improved: Option<u32>)
    requires
        old(square).wf(),
        r1 < old(square).size,
        c1 < old(square).size,
        r2 < old(square).size,
        c2 < old(square).size,
        2 * old(square).size * old(square).size <= u32::MAX,
        score == grid_cost(old(square)@),
    ensures
        final(square).wf(),
        final(square).size == old(square).size,
        improved is None ==> final(square)@ == old(square)@ && !swap_improves(
            old(square)@,
            r1 as int,
            c1 as int,
            r2 as int,
            c2 as int,
        ),
        improved matches Some(s) ==> swap_improves(old(square)@, r1 as int, c1 as int, r2 as int, c2 as int) && final(square)@
            == swapped(old(square)@, r1 as int, c1 as int, r2 as int, c2 as int) && s == grid_cost(final(square)@),
{
    let n = square.size;
    assert(n <= u32::MAX) by (nonlinear_arith)
        requires
            2 * n * n <= u32::MAX,
    ;
    if square.is_clue(r1, c1) || square.is_clue(r2, c2) {
        return None;
    }
    let old_score = square.check_lines(r1, c1, r2, c2);
    square.swap(r1, c1, r2, c2);
    let new_score = square.check_lines(r1, c1, r2, c2);
    if new_score < old_score {
        let score_now = square.score_square();
        if score_now < score {
            return Some(score_now);
        }
    }
    square.swap(r1, c1, r2, c2);
    proof {
        lemma_swap_back(old(square)@, n as int, r1 as int, c1 as int, r2 as int, c2 as int);
    }
    None
}

/// Walks the neighbourhood and makes the first accepted move, if there is one.
fn improve_once(square: &mut Square, score: u32) -> (improved: Option<u32>)
    requires
        old(square).wf(),
        2 * old(square).size * old(square).size <= u32::MAX,
        score == grid_cost(old(square)@),
    ensures
        final(square).wf(),
        final(square).size == old(square).size,
        improved is None ==> final(square)@ == old(square)@ && local_optimum(old(square)@, old(square).size as int),
        improved matches Some(s) ==> s < score && s == grid_cost(final(square)@) && reshuffled(
            old(square)@,
            final(square)@,
            old(square).size as int,
        ) && search_step(old(square)@, old(square).size as int, final(square)@),
{
    let n = square.size;
    let half = n / 2;
    let ghost g = square@;
    let mut i: usize = 0;
    while i < n
        invariant
            square.wf(),
            square@ == g,
            g == old(square)@,
            n == square.size,
            n == old(square).size,
            half == n / 2,
            2 * n * n <= u32::MAX,
            score == grid_cost(g),
            i <= n,
            forall|a: int, b: int, c: int, f: bool| 0 <= a < i && 0 <= b < half && half <= c < n ==> !#[trigger] move_improves(g, a, b, c, f),
        decreases n - i,
    {
        let mut j: usize = 0;
        while j < half
            invariant
                square.wf(),
                square@ == g,
                g == old(square)@,
                n == square.size,
                n == old(square).size,
                half == n / 2,
                2 * n * n <= u32::MAX,
                score == grid_cost(g),
                i < n,
                j <= half,
                forall|a: int, b: int, c: int, f: bool| 0 <= a < i && 0 <= b < half && half <= c < n ==> !#[trigger] move_improves(g, a, b, c, f),
                forall|b: int, c: int, f: bool| 0 <= b < j && half <= c < n ==> !#[trigger] move_improves(g, i as int, b, c, f),
            decreases half - j,
        {
            let mut k: usize = half;
            while k < n
                invariant
                    square.wf(),
                    square@ == g,
                    g == old(square)@,
                    n == square.size,
                    n == old(square).size,
                    half == n / 2,
                    2 * n * n <= u32::MAX,
                    score == grid_cost(g),
                    i < n,
                    j < half,
                    half <= k <= n,
                    forall|a: int, b: int, c: int, f: bool| 0 <= a < i && 0 <= b < half && half <= c < n ==> !#[trigger] move_improves(g, a, b, c, f),
                    forall|b: int, c: int, f: bool| 0 <= b < j && half <= c < n ==> !#[trigger] move_improves(g, i as int, b, c, f),
                    forall|c: int, f: bool| half <= c < k ==> !#[trigger] move_improves(g, i as int, j as int, c, f),
                decreases n - k,
            {
                match try_swap(square, j, i, k, i, score) {
                    Some(s) => {
                        proof {
                            lemma_swap_reshuffles(g, n as int, j as int, i as int, k as int, i as int);
                            assert(move_improves(g, i as int, j as int, k as int, true));
                            assert(search_move(g, n as int, i as int, j as int, k as int, true, square@));
                        }
                        return Some(s);
                    },
                    None => {},
                }
                match try_swap(square, i, j, i, k, score) {
                    Some(s) => {
                        proof {
                            lemma_swap_reshuffles(g, n as int, i as int, j as int, i as int, k as int);
                            assert(!move_improves(g, i as int, j as int, k as int, true));
                            assert(move_improves(g, i as int, j as int, k as int, false));
                            assert(search_move(g, n as int, i as int, j as int, k as int, false, square@));
                        }
                        return Some(s);
                    },
                    None => {},
                }
                assert(!move_improves(g, i as int, j as int, k as int, true));
                assert(!move_improves(g, i as int, j as int, k as int, false));
                k += 1;
            }
            j += 1;
        }
        i += 1;
    }
    None
}

/// First improvement local search.
///
/// A natural neighbourhood would be a swap between any two cells, but that
/// is too expensive. Instead, the neighbourhood takes a row or a column and
/// swaps two of its cells, one from the lower half of the indices and one
/// from the upper half; a clue is never moved.
///
/// Terminates when no improvement is found.
pub fn local_search(square: &Square) -> (result: Square)
    requires
        square.wf(),
        2 * square.size * square.size <= u32::MAX,
    ensures
        result.wf(),
        result.size == square.size,
        grid_cost(result@) <= grid_cost(square@),
        local_optimum(result@, square.size as int),
        reshuffled(square@, result@, square.size as int),
        searches(square@, square.size as int, result@),
{
    let n = square.size;
    let ghost start = square@;
    let mut square = square.clone();
    let mut best_score = square.score_square();
    proof {
        assert forall|s: Option<u32>| #[trigger] grid_count(start, s) == grid_count(start, s) by {}
    }

    let mut improvement = true;
    let ghost mut path: Seq<Grid> = seq![start];
    while improvement
        invariant
            search_path(n as int, path),
            path[0] == start,
            path[path.len() - 1] == square@,
            square.wf(),
            n == square.size,
            2 * n * n <= u32::MAX,
            best_score == grid_cost(square@),
            grid_cost(square@) <= grid_cost(start),
            reshuffled(start, square@, n as int),
            !improvement ==> local_optimum(square@, n as int),
        decreases best_score + (if improvement { 1int } else { 0int }),
    {
        let ghost before = square@;
        match improve_once(&mut square, best_score) {
            Some(score) => {
                proof {
                    lemma_reshuffled_twice(start, before, square@, n as int);
                    let longer = path.push(square@);
                    assert forall|t: int| 0 <= t < longer.len() - 1 implies #[trigger] search_step_at(n as int, longer, t) by {
                        if t < path.len() - 1 {
                            assert(search_step_at(n as int, path, t));
                            assert(longer[t] == path[t] && longer[t + 1] == path[t + 1]);
                        } else {
                            assert(longer[t] == before && longer[t + 1] == square@);
                        }
                    }
                    path = longer;
                }
                best_score = score;
            },
            None => {
                improvement = false;
            },
        }
    }
    square
}

} // verus!

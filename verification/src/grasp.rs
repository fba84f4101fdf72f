//! The search itself: construction, repair and local search, repeated while
//! the time lasts, keeping the best square found.

use std::time::Duration;
use vstd::prelude::*;

use crate::clock::{clock_elapsed, clock_start, span_nanos};
use crate::candidates::Candidate;
use crate::construction::{built_by, cell_constructed, fillable, fillable_cell, greedy_randomized_construction};
use crate::local_search::{local_optimum, local_search, searches};
use crate::ratio::Ratio;
use crate::repair::{balanced, cell_repaired, clues_fit, clues_upto, grid_clues, grid_clues_upto, repair, repairs};
use crate::square::{grid_complete, grid_cost, grid_count, grid_wf, is_frozen, Grid, Square, SquareItem};

verus! {

/// Whether the two grids have their clues in the same cells.
pub open spec fn same_clues(g: Grid, h: Grid, n: int) -> bool {
    forall|r: int, c: int| 0 <= r < n && 0 <= c < n && (is_frozen(#[trigger] g[r][c]) || is_frozen(#[trigger] h[r][c])) ==> h[r][c] == g[r][c]
}

/// What one round of the search makes of the grid `start`: a grid without
/// empty cells that no move of the neighbourhood improves, with the clues
/// where they were, and with every symbol as often as the side of the grid
/// unless the clues forbid that.
pub open spec fn solved(start: Grid, n: int, h: Grid) -> bool {
    &&& grid_wf(h, n)
    &&& grid_complete(h)
    &&& local_optimum(h, n)
    &&& same_clues(start, h, n)
    &&& clues_fit(start, n) ==> balanced(h, n)
}

/// Whether a round of the search leads from `start` to `found` by way of
/// the grids `built` and `mended`: a construction, then a repair, then a
/// local search.
pub open spec fn round_via(alpha: Ratio, start: Grid, n: int, built: Grid, mended: Grid, found: Grid) -> bool {
    &&& exists|picks: Seq<Candidate>| #[trigger] built_by(alpha, start, n, picks, built)
    &&& repairs(built, n, mended)
    &&& searches(mended, n, found)
}

/// Whether `found` is what one round of the search may make of `start`.
pub open spec fn round(alpha: Ratio, start: Grid, n: int, found: Grid) -> bool {
    exists|built: Grid, mended: Grid| #[trigger] round_via(alpha, start, n, built, mended, found)
}

/// Lines with their clues in the same cells have each clue equally often.
proof fn lemma_line_same_clues(a: Seq<SquareItem>, b: Seq<SquareItem>, v: u32, k: int)
    requires
        0 <= k <= a.len(),
        k <= b.len(),
        forall|c: int| 0 <= c < k ==> ((#[trigger] a[c]) == SquareItem::Frozen(v) <==> b[c] == SquareItem::Frozen(v)),
    ensures
        clues_upto(a, v, k) == clues_upto(b, v, k),
    decreases k,
{
    if k > 0 {
        lemma_line_same_clues(a, b, v, k - 1);
        assert(a[k - 1] == SquareItem::Frozen(v) <==> b[k - 1] == SquareItem::Frozen(v));
    }
}

/// Grids with their clues in the same cells have each clue equally often.
proof fn lemma_same_clues(g: Grid, h: Grid, n: int, v: u32, k: int)
    requires
        grid_wf(g, n),
        grid_wf(h, n),
        same_clues(g, h, n),
        0 <= k <= n,
    ensures
        grid_clues_upto(g, v, k) == grid_clues_upto(h, v, k),
    decreases k,
{
    if k > 0 {
        lemma_same_clues(g, h, n, v, k - 1);
        let a = g[k - 1];
        let b = h[k - 1];
        assert forall|c: int| 0 <= c < n implies ((#[trigger] a[c]) == SquareItem::Frozen(v) <==> b[c] == SquareItem::Frozen(v)) by {
            assert(is_frozen(g[k - 1][c]) || is_frozen(h[k - 1][c]) ==> h[k - 1][c] == g[k - 1][c]);
        }
        lemma_line_same_clues(a, b, v, n);
    }
}

/// Perform randomized construction, repair, and local search. There is no
/// result where some empty cell of the square admits no symbol at all.
pub fn grasp_iteration(square: &Square, alpha: Ratio) -> (result: Option<Square>)
    requires
        square.wf(),
        2 * square.size * square.size <= u32::MAX,
    ensures
        result is Some <==> fillable(square@, square.size as int),
        result matches Some(found) ==> found.size == square.size && solved(square@, square.size as int, found@) && round(
            alpha,
            square@,
            square.size as int,
            found@,
        ),
{
    let n = square.size;
    let ghost start = square@;
    assert(2 * n < u32::MAX) by (nonlinear_arith)
        requires
            2 * n * n <= u32::MAX,
    ;
    let built = greedy_randomized_construction(alpha, square);
    if !built.is_complete() {
        proof {
            if fillable(start, n as int) {
                assert(false);
            }
        }
        return None;
    }
    proof {
        if !fillable(start, n as int) {
            let (r, c) = choose|r: int, c: int| 0 <= r < n && 0 <= c < n && start[r][c] == SquareItem::Empty && !#[trigger] fillable_cell(start, n as int, r, c);
            assert(cell_constructed(start, n as int, r, c, built@[r][c]));
            assert(built@[r][c] == SquareItem::Empty);
            assert(false);
        }
        assert forall|r: int, c: int| 0 <= r < n && 0 <= c < n && (is_frozen(#[trigger] start[r][c]) || is_frozen(#[trigger] built@[r][c])) implies built@[r][c]
            == start[r][c] by {
            assert(cell_constructed(start, n as int, r, c, built@[r][c]));
        }
        assert(same_clues(start, built@, n as int));
    }
    let mended = repair(&built);
    proof {
        assert forall|r: int, c: int| 0 <= r < n && 0 <= c < n && (is_frozen(#[trigger] start[r][c]) || is_frozen(#[trigger] mended@[r][c])) implies mended@[r][c]
            == start[r][c] by {
            assert(cell_repaired(built@[r][c], mended@[r][c]));
            assert(is_frozen(start[r][c]) || is_frozen(built@[r][c]) ==> built@[r][c] == start[r][c]);
        }
        if clues_fit(start, n as int) {
            assert forall|v: int| 0 <= v < n implies #[trigger] grid_clues(built@, v as u32) <= n by {
                lemma_same_clues(start, built@, n as int, v as u32, n as int);
                assert(grid_clues(start, v as u32) <= n);
            }
        }
    }
    let found = local_search(&mended);
    proof {
        assert forall|r: int, c: int| 0 <= r < n && 0 <= c < n && (is_frozen(#[trigger] start[r][c]) || is_frozen(#[trigger] found@[r][c])) implies found@[r][c]
            == start[r][c] by {
            assert(is_frozen(mended@[r][c]) || is_frozen(found@[r][c]) ==> found@[r][c] == mended@[r][c]);
            assert(is_frozen(start[r][c]) || is_frozen(mended@[r][c]) ==> mended@[r][c] == start[r][c]);
        }
        if clues_fit(start, n as int) {
            assert forall|v: int| 0 <= v < n implies #[trigger] grid_count(found@, Some(v as u32)) == n by {
                assert(grid_count(found@, Some(v as u32)) == grid_count(mended@, Some(v as u32)));
                assert(grid_count(mended@, Some(v as u32)) == n);
            }
        }
    }
    assert(round_via(alpha, start, n as int, built@, mended@, found@));
    Some(found)
}

/// What a search has to show: the best square found, its score, and the
/// number of rounds that were run.
#[derive(Debug)]
pub struct GraspReport {
    pub best: Square,
    pub score: u32,
    pub iterations: u64,
}

impl GraspReport {
    /// Takes in the outcome of one more round: the square replaces the best
    /// one exactly where it scores strictly less.
    pub fn absorb(&mut self, found: Square, score: u32)
        requires
            old(self).iterations < u64::MAX,
        ensures
            final(self).iterations == old(self).iterations + 1,
            score < old(self).score ==> final(self).best == found && final(self).score == score,
            score >= old(self).score ==> final(self).best == old(self).best && final(self).score == old(self).score,
    {
        self.iterations = self.iterations + 1;
        if score < self.score {
            self.best = found;
            self.score = score;
        }
    }
}

/// Whether another round is due: there is time left and the best square is
/// not yet a Latin square.
pub fn keep_searching(elapsed: u128, budget: u128, best_score: u32) -> (more: bool)
    ensures
        more == (elapsed < budget && best_score != 0),
{
    elapsed < budget && best_score != 0
}

/// Runs rounds of construction, repair and local search until the best
/// score is zero or `budget` nanoseconds have gone by, and reports the best
/// square found. The first round is run whatever the budget. There is no
/// result where some empty cell of the square admits no symbol at all.
pub fn solve(square: &Square, alpha: Ratio, budget: u128) -> (report: Option<GraspReport>)
    requires
        square.wf(),
        2 * square.size * square.size <= u32::MAX,
    ensures
        report is Some <==> fillable(square@, square.size as int),
        report matches Some(found) ==> {
            &&& found.best.size == square.size
            &&& solved(square@, square.size as int, found.best@)
            &&& round(alpha, square@, square.size as int, found.best@)
            &&& found.score == grid_cost(found.best@)
            &&& found.iterations >= 1
            &&& budget == 0 ==> found.iterations == 1
        },
{
    // Get start time to ensure we don't exceed the budget
    let start_time = clock_start();
    let first = match grasp_iteration(square, alpha) {
        Some(first) => first,
        None => {
            return None;
        },
    };
    let score = first.score_square();
    let mut report = GraspReport { best: first, score, iterations: 1 };
    let mut elapsed = span_nanos(&clock_elapsed(&start_time));

    while keep_searching(elapsed, budget, report.score) && report.iterations < u64::MAX
        invariant
            square.wf(),
            2 * square.size * square.size <= u32::MAX,
            fillable(square@, square.size as int),
            report.best.size == square.size,
            solved(square@, square.size as int, report.best@),
            round(alpha, square@, square.size as int, report.best@),
            report.score == grid_cost(report.best@),
            report.iterations >= 1,
            budget == 0 ==> report.iterations == 1,
        decreases u64::MAX - report.iterations,
    {
        match grasp_iteration(square, alpha) {
            Some(found) => {
                let score = found.score_square();
                report.absorb(found, score);
            },
            // Whether a round succeeds depends on the square alone, and the
            // first one did.
            None => {},
        }
        elapsed = span_nanos(&clock_elapsed(&start_time));
    }
    Some(report)
}

/// Perform the greedy randomized adaptive search for a given max duration,
/// and return the best square found.
pub fn run_grasp(square: &Square, alpha: Ratio, max_duration: Duration) -> (best: Option<Square>)
    requires
        square.wf(),
        2 * square.size * square.size <= u32::MAX,
    ensures
        best is Some <==> fillable(square@, square.size as int),
        best matches Some(found) ==> found.size == square.size && solved(square@, square.size as int, found@) && round(
            alpha,
            square@,
            square.size as int,
            found@,
        ),
{
    let budget = span_nanos(&max_duration);
    match solve(square, alpha, budget) {
        Some(report) => Some(report.best),
        None => None,
    }
}

} // verus!

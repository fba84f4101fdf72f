//! The ground set of candidates of a partial square, their costs, and the
//! restricted list from which the next placement is drawn.

use vstd::prelude::*;

use crate::candidates::{earlier, fits, inhabited, placed, precedes, Candidate, CandidateSet, Cost};
use crate::ratio::{lemma_scaled_all, lemma_scaled_none, Ratio};
use crate::square::{
    cell_cost, col_has, column, count_upto, grid_wf, holds, lemma_count_bound, row_has, symbol_of, Grid,
    Square, SquareItem,
};

verus! {

/// Whether the symbol `v` may be placed at (`r`, `c`): the cell is empty and
/// neither its row nor its column holds the symbol yet.
pub open spec fn eligible(g: Grid, r: int, c: int, v: int) -> bool {
    g[r][c] == SquareItem::Empty && !row_has(g, r, v) && !col_has(g, c, v)
}

/// Whether none of the cells walked before (`i`, `j`) holds `v` in row `r` or
/// in column `c`.
spec fn clear_before(g: Grid, n: int, r: int, c: int, v: int, i: int, j: int) -> bool {
    forall|a: int, b: int|
        0 <= a < n && 0 <= b < n && (a < i || (a == i && b < j)) && holds(#[trigger] g[a][b], v) ==> a != r && b != c
}

/// Walking one cell further adds that cell to the ones that must not hold `v`
/// in row `r` or in column `c`.
proof fn lemma_clear_step(g: Grid, n: int, r: int, c: int, v: int, i: int, j: int)
    requires
        grid_wf(g, n),
        0 <= i < n,
        0 <= j < n,
    ensures
        clear_before(g, n, r, c, v, i, j + 1) <==> clear_before(g, n, r, c, v, i, j) && !(holds(g[i][j], v) && (i == r || j == c)),
{
    if clear_before(g, n, r, c, v, i, j) && !(holds(g[i][j], v) && (i == r || j == c)) {
        assert forall|a: int, b: int|
            0 <= a < n && 0 <= b < n && (a < i || (a == i && b < j + 1)) && holds(#[trigger] g[a][b], v) implies a != r && b != c by {
            if a == i && b == j {
            } else {
                assert(a < i || (a == i && b < j));
            }
        }
    }
    if clear_before(g, n, r, c, v, i, j + 1) {
        if holds(g[i][j], v) {
            assert(i != r && j != c);
        }
    }
}

/// Once every cell was walked, nothing is left to hold `v` in row `r` or in
/// column `c` exactly when neither the row nor the column has it.
proof fn lemma_clear_all(g: Grid, n: int, r: int, c: int, v: int)
    requires
        grid_wf(g, n),
        0 <= r < n,
        0 <= c < n,
    ensures
        clear_before(g, n, r, c, v, n, 0) <==> !row_has(g, r, v) && !col_has(g, c, v),
{
    if clear_before(g, n, r, c, v, n, 0) {
        if row_has(g, r, v) {
            let b = choose|b: int| 0 <= b < g[r].len() && holds(#[trigger] g[r][b], v);
            assert(holds(g[r][b], v));
        }
        if col_has(g, c, v) {
            let a = choose|a: int| 0 <= a < g.len() && holds(#[trigger] g[a][c], v);
            assert(holds(g[a][c], v));
        }
    }
    if !row_has(g, r, v) && !col_has(g, c, v) {
        assert forall|a: int, b: int|
            0 <= a < n && 0 <= b < n && (a < n || (a == n && b < 0)) && holds(#[trigger] g[a][b], v) implies a != r && b != c by {
            if a == r {
                assert(holds(g[r][b], v));
            }
            if b == c {
                assert(holds(g[a][c], v));
            }
        }
    }
}

/// Every candidate of the set is scored as the grid stands: its cost is the
/// number of cells in its row and in its column that hold its symbol.
pub open spec fn scored(m: Map<Candidate, Cost>, g: Grid) -> bool {
    forall|cand: Candidate| #[trigger]
        m.contains_key(cand) ==> m[cand] == cell_cost(g, cand.row as int, cand.col as int, symbol_of(cand.treatment))
}

/// The cost of placing a candidate, counted afresh: the cells of its row that
/// hold its symbol plus the cells of its column that do.
pub fn incremental_cost(candidate: &Candidate, square: &Square) -> (cost: Cost)
    requires
        square.wf(),
        candidate.row < square.size,
        candidate.col < square.size,
        2 * square.size <= u32::MAX,
    ensures
        cost == cell_cost(square@, candidate.row as int, candidate.col as int, symbol_of(candidate.treatment)),
        cost <= 2 * square.size,
{
    let n = square.size;
    let ghost line = square@[candidate.row as int];
    let ghost pillar = column(square@, candidate.col as int);
    let ghost s = symbol_of(candidate.treatment);
    let mut cost: Cost = 0;
    let mut i: usize = 0;
    while i < n
        invariant
            square.wf(),
            n == square.size,
            2 * n <= u32::MAX,
            candidate.row < n,
            candidate.col < n,
            i <= n,
            line == square@[candidate.row as int],
            pillar == column(square@, candidate.col as int),
            s == symbol_of(candidate.treatment),
            cost == count_upto(line, s, i as int) + count_upto(pillar, s, i as int),
            cost <= 2 * i,
        decreases n - i,
    {
        proof {
            lemma_count_bound(line, s, i as int);
            lemma_count_bound(pillar, s, i as int);
        }
        if square.get(candidate.row, i).same_symbol(candidate.treatment) {
            cost += 1;
        }
        if square.get(i, candidate.col).same_symbol(candidate.treatment) {
            cost += 1;
        }
        i += 1;
    }
    cost
}

/// Generate the set of all candidates for a square: every symbol at every
/// empty cell, but for the symbols that the cell's row or column holds
/// already. Each starts with the highest cost there is.
pub fn generate_candidate_ground_set(square: &Square) -> (candidates: CandidateSet)
    requires
        square.wf(),
        square.size <= u32::MAX,
    ensures
        candidates.wf(),
        candidates.side() == square.size,
        forall|cand: Candidate| #[trigger]
            candidates@.contains_key(cand) <==> fits(cand, square.size as int) && eligible(
                square@,
                cand.row as int,
                cand.col as int,
                placed(cand),
            ),
        forall|cand: Candidate| #[trigger] candidates@.contains_key(cand) ==> candidates@[cand] == u32::MAX,
{
    let n = square.size;
    let ghost g = square@;
    let mut candidates = CandidateSet::new(n);

    // Naively generate all candidates
    let mut i: usize = 0;
    while i < n
        invariant
            square.wf(),
            g == square@,
            n == square.size,
            n <= u32::MAX,
            candidates.wf(),
            candidates.side() == n,
            i <= n,
            forall|cand: Candidate| #[trigger]
                candidates@.contains_key(cand) <==> fits(cand, n as int) && g[cand.row as int][cand.col as int]
                    == SquareItem::Empty && earlier(cand.row as int, cand.col as int, placed(cand), i as int, 0, 0),
            forall|cand: Candidate| #[trigger] candidates@.contains_key(cand) ==> candidates@[cand] == u32::MAX,
        decreases n - i,
    {
        let mut j: usize = 0;
        while j < n
            invariant
                square.wf(),
                g == square@,
                n == square.size,
                n <= u32::MAX,
                candidates.wf(),
                candidates.side() == n,
                i < n,
                j <= n,
                forall|cand: Candidate| #[trigger]
                    candidates@.contains_key(cand) <==> fits(cand, n as int) && g[cand.row as int][cand.col as int]
                        == SquareItem::Empty && earlier(cand.row as int, cand.col as int, placed(cand), i as int, j as int, 0),
                forall|cand: Candidate| #[trigger] candidates@.contains_key(cand) ==> candidates@[cand] == u32::MAX,
            decreases n - j,
        {
            if square.get(i, j) == SquareItem::Empty {
                let mut t: usize = 0;
                while t < n
                    invariant
                        square.wf(),
                        g == square@,
                        n == square.size,
                        n <= u32::MAX,
                        candidates.wf(),
                        candidates.side() == n,
                        i < n,
                        j < n,
                        t <= n,
                        g[i as int][j as int] == SquareItem::Empty,
                        forall|cand: Candidate| #[trigger]
                            candidates@.contains_key(cand) <==> fits(cand, n as int) && g[cand.row as int][cand.col as int]
                                == SquareItem::Empty && earlier(
                                cand.row as int,
                                cand.col as int,
                                placed(cand),
                                i as int,
                                j as int,
                                t as int,
                            ),
                        forall|cand: Candidate| #[trigger] candidates@.contains_key(cand) ==> candidates@[cand] == u32::MAX,
                    decreases n - t,
                {
                    let treatment = SquareItem::Treatment(t as u32);
                    candidates.insert(Candidate::new(i, j, treatment), u32::MAX);
                    t += 1;
                }
            }
            j += 1;
        }
        i += 1;
    }

    // Remove invalid candidates
    let mut i: usize = 0;
    while i < n
        invariant
            square.wf(),
            g == square@,
            n == square.size,
            n <= u32::MAX,
            candidates.wf(),
            candidates.side() == n,
            i <= n,
            forall|cand: Candidate| #[trigger]
                candidates@.contains_key(cand) <==> fits(cand, n as int) && g[cand.row as int][cand.col as int]
                    == SquareItem::Empty && clear_before(g, n as int, cand.row as int, cand.col as int, placed(cand), i as int, 0),
            forall|cand: Candidate| #[trigger] candidates@.contains_key(cand) ==> candidates@[cand] == u32::MAX,
        decreases n - i,
    {
        let mut j: usize = 0;
        while j < n
            invariant
                square.wf(),
                g == square@,
                n == square.size,
                n <= u32::MAX,
                candidates.wf(),
                candidates.side() == n,
                i < n,
                j <= n,
                forall|cand: Candidate| #[trigger]
                    candidates@.contains_key(cand) <==> fits(cand, n as int) && g[cand.row as int][cand.col as int]
                        == SquareItem::Empty && clear_before(
                        g,
                        n as int,
                        cand.row as int,
                        cand.col as int,
                        placed(cand),
                        i as int,
                        j as int,
                    ),
                forall|cand: Candidate| #[trigger] candidates@.contains_key(cand) ==> candidates@[cand] == u32::MAX,
            decreases n - j,
        {
            let ghost start = candidates@;
            match square.get(i, j).symbol() {
                None => {},
                Some(t) => {
                    // Remove treatment as candidate from row and column
                    let mut k: usize = 0;
                    while k < n
                        invariant
                            n == square.size,
                            n <= u32::MAX,
                            candidates.wf(),
                            candidates.side() == n,
                            i < n,
                            j < n,
                            k <= n,
                            forall|cand: Candidate| #[trigger]
                                candidates@.contains_key(cand) <==> start.contains_key(cand) && !(placed(cand) == t && ((cand.row
                                    == i && cand.col < k) || (cand.col == j && cand.row < k))),
                            forall|cand: Candidate| #[trigger] candidates@.contains_key(cand) ==> candidates@[cand] == start[cand],
                            forall|cand: Candidate| #[trigger] start.contains_key(cand) ==> fits(cand, n as int),
                        decreases n - k,
                    {
                        candidates.remove(&Candidate::new(i, k, SquareItem::Treatment(t)));
                        candidates.remove(&Candidate::new(k, j, SquareItem::Treatment(t)));
                        k += 1;
                    }
                },
            }
            proof {
                assert forall|cand: Candidate| #[trigger]
                    candidates@.contains_key(cand) <==> fits(cand, n as int) && g[cand.row as int][cand.col as int]
                        == SquareItem::Empty && clear_before(
                        g,
                        n as int,
                        cand.row as int,
                        cand.col as int,
                        placed(cand),
                        i as int,
                        j as int + 1,
                    ) by {
                    lemma_clear_step(g, n as int, cand.row as int, cand.col as int, placed(cand), i as int, j as int);
                }
            }
            j += 1;
        }
        i += 1;
    }
    proof {
        assert forall|cand: Candidate| #[trigger]
            candidates@.contains_key(cand) <==> fits(cand, n as int) && eligible(g, cand.row as int, cand.col as int, placed(cand)) by {
            if fits(cand, n as int) {
                lemma_clear_all(g, n as int, cand.row as int, cand.col as int, placed(cand));
            }
        }
    }
    candidates
}

/// Evaluate each candidate in the candidate set and set its cost.
pub fn evaluate_candidates(candidates: &mut CandidateSet, square: &Square)
    requires
        old(candidates).wf(),
        square.wf(),
        old(candidates).side() == square.size,
        2 * square.size <= u32::MAX,
    ensures
        final(candidates).wf(),
        final(candidates).side() == old(candidates).side(),
        final(candidates)@.dom() == old(candidates)@.dom(),
        scored(final(candidates)@, square@),
{
    let list = candidates.entries();
    let ghost start = candidates@;
    let mut x: usize = 0;
    while x < list.len()
        invariant
            candidates.wf(),
            square.wf(),
            candidates.side() == square.size,
            candidates.side() == old(candidates).side(),
            2 * square.size <= u32::MAX,
            x <= list@.len(),
            start == old(candidates)@,
            candidates@.dom() =~= start.dom(),
            forall|i: int| 0 <= i < list@.len() ==> start.contains_key((#[trigger] list@[i]).0),
            forall|i: int, j: int| 0 <= i < j < list@.len() ==> precedes((#[trigger] list@[i]).0, (#[trigger] list@[j]).0),
            forall|i: int| 0 <= i < x ==> candidates@[(#[trigger] list@[i]).0] == cell_cost(
                square@,
                list@[i].0.row as int,
                list@[i].0.col as int,
                symbol_of(list@[i].0.treatment),
            ),
        decreases list@.len() - x,
    {
        let cand = list[x].0;
        proof {
            candidates.lemma_members_fit();
        }
        let cost = incremental_cost(&cand, square);
        candidates.insert(cand, cost);
        proof {
            assert forall|i: int| 0 <= i < x + 1 implies candidates@[(#[trigger] list@[i]).0] == cell_cost(
                square@,
                list@[i].0.row as int,
                list@[i].0.col as int,
                symbol_of(list@[i].0.treatment),
            ) by {
                if i < x {
                    assert(precedes(list@[i].0, list@[x as int].0));
                }
            }
        }
        x += 1;
    }
    proof {
        assert forall|cand: Candidate| #[trigger] candidates@.contains_key(cand) implies candidates@[cand] == cell_cost(
            square@,
            cand.row as int,
            cand.col as int,
            symbol_of(cand.treatment),
        ) by {
            assert(start.contains_key(cand));
            let i = choose|i: int| 0 <= i < list@.len() && (#[trigger] list@[i]).0 == cand;
        }
    }
}

/// Whether `lo` is the least cost in the set.
pub open spec fn is_min_cost(m: Map<Candidate, Cost>, lo: Cost) -> bool {
    &&& exists|cand: Candidate| #[trigger] m.contains_key(cand) && m[cand] == lo
    &&& forall|cand: Candidate| #[trigger] m.contains_key(cand) ==> lo <= m[cand]
}

/// Whether `hi` is the greatest cost in the set.
pub open spec fn is_max_cost(m: Map<Candidate, Cost>, hi: Cost) -> bool {
    &&& exists|cand: Candidate| #[trigger] m.contains_key(cand) && m[cand] == hi
    &&& forall|cand: Candidate| #[trigger] m.contains_key(cand) ==> m[cand] <= hi
}

/// The least cost in a set that holds a candidate.
pub open spec fn min_cost(m: Map<Candidate, Cost>) -> Cost {
    choose|lo: Cost| is_min_cost(m, lo)
}

/// The greatest cost in a set that holds a candidate.
pub open spec fn max_cost(m: Map<Candidate, Cost>) -> Cost {
    choose|hi: Cost| is_max_cost(m, hi)
}

/// The highest cost that the restricted list admits: the least cost plus the
/// fraction `alpha` of the spread between the least and the greatest.
pub open spec fn rcl_threshold(m: Map<Candidate, Cost>, alpha: Ratio) -> int {
    min_cost(m) + alpha.scaled(max_cost(m) - min_cost(m))
}

/// Whether a candidate belongs to the restricted list.
pub open spec fn in_rcl(m: Map<Candidate, Cost>, alpha: Ratio, cand: Candidate) -> bool {
    m.contains_key(cand) && m[cand] <= rcl_threshold(m, alpha)
}

/// Whether one of the first `x` entries is the candidate, at a cost within the threshold.
spec fn admitted(entries: Seq<(Candidate, Cost)>, x: int, threshold: Cost, cand: Candidate) -> bool {
    exists|i: int| 0 <= i < x && (#[trigger] entries[i]).0 == cand && entries[i].1 <= threshold
}

/// A set has one least and one greatest cost.
proof fn lemma_extremes_unique(m: Map<Candidate, Cost>, lo: Cost, hi: Cost)
    requires
        is_min_cost(m, lo),
        is_max_cost(m, hi),
    ensures
        min_cost(m) == lo,
        max_cost(m) == hi,
        lo <= hi,
{
    let a = min_cost(m);
    let b = max_cost(m);
    assert(is_min_cost(m, a));
    assert(is_max_cost(m, b));
    let wl = choose|cand: Candidate| #[trigger] m.contains_key(cand) && m[cand] == lo;
    let wa = choose|cand: Candidate| #[trigger] m.contains_key(cand) && m[cand] == a;
    let wh = choose|cand: Candidate| #[trigger] m.contains_key(cand) && m[cand] == hi;
    let wb = choose|cand: Candidate| #[trigger] m.contains_key(cand) && m[cand] == b;
    assert(m.contains_key(wl) && m.contains_key(wa) && m.contains_key(wh) && m.contains_key(wb));
}

/// Returns the subset of the candidate set that holds the best candidates.
/// `alpha` defines how strict the selection is: zero admits only the
/// candidates of least cost, one admits them all.
pub fn create_restricted_candidate_list(alpha: Ratio, candidates: &CandidateSet) -> (list: Vec<Candidate>)
    requires
        candidates.wf(),
        inhabited(candidates@),
    ensures
        forall|cand: Candidate| list@.contains(cand) <==> in_rcl(candidates@, alpha, cand),
        forall|i: int, j: int| 0 <= i < j < list@.len() ==> precedes(#[trigger] list@[i], #[trigger] list@[j]),
        list@.no_duplicates(),
        list@.len() > 0,
        alpha.wf(),
{
    let entries = candidates.entries();
    let ghost m = candidates@;
    proof {
        let w = choose|cand: Candidate| m.contains_key(cand);
        assert(m.contains_key(w));
        let i = choose|i: int| 0 <= i < entries@.len() && (#[trigger] entries@[i]).0 == w;
    }
    let mut lo: Cost = entries[0].1;
    let mut hi: Cost = entries[0].1;
    let mut x: usize = 1;
    while x < entries.len()
        invariant
            1 <= x <= entries@.len(),
            forall|i: int| 0 <= i < x ==> lo <= (#[trigger] entries@[i]).1 <= hi,
            exists|i: int| 0 <= i < x && (#[trigger] entries@[i]).1 == lo,
            exists|i: int| 0 <= i < x && (#[trigger] entries@[i]).1 == hi,
        decreases entries@.len() - x,
    {
        let cost = entries[x].1;
        if cost < lo {
            lo = cost;
        }
        if cost > hi {
            hi = cost;
        }
        assert(entries@[x as int].1 == cost);
        x += 1;
    }
    proof {
        let il = choose|i: int| 0 <= i < entries@.len() && (#[trigger] entries@[i]).1 == lo;
        let ih = choose|i: int| 0 <= i < entries@.len() && (#[trigger] entries@[i]).1 == hi;
        assert(m.contains_key(entries@[il].0) && m[entries@[il].0] == lo);
        assert(m.contains_key(entries@[ih].0) && m[entries@[ih].0] == hi);
        assert forall|cand: Candidate| #[trigger] m.contains_key(cand) implies lo <= m[cand] <= hi by {
            let i = choose|i: int| 0 <= i < entries@.len() && (#[trigger] entries@[i]).0 == cand;
            assert(lo <= entries@[i].1 <= hi);
        }
        lemma_extremes_unique(m, lo, hi);
    }
    let threshold = lo + alpha.scale(hi - lo);
    let ghost il = choose|i: int| 0 <= i < entries@.len() && (#[trigger] entries@[i]).1 == lo;

    let mut list: Vec<Candidate> = Vec::new();
    let mut x: usize = 0;
    while x < entries.len()
        invariant
            x <= entries@.len(),
            forall|k: int| 0 <= k < list@.len() ==> admitted(entries@, x as int, threshold, #[trigger] list@[k]),
            forall|i: int| 0 <= i < x && (#[trigger] entries@[i]).1 <= threshold ==> list@.contains(entries@[i].0),
            forall|i: int, j: int| 0 <= i < j < entries@.len() ==> precedes((#[trigger] entries@[i]).0, (#[trigger] entries@[j]).0),
            list@.no_duplicates(),
            forall|i: int, j: int| 0 <= i < j < list@.len() ==> precedes(#[trigger] list@[i], #[trigger] list@[j]),
        decreases entries@.len() - x,
    {
        let ghost before = list@;
        if entries[x].1 <= threshold {
            proof {
                assert forall|k: int| 0 <= k < before.len() implies before[k] != entries@[x as int].0 by {
                    let i = choose|i: int| 0 <= i < x && (#[trigger] entries@[i]).0 == before[k] && entries@[i].1 <= threshold;
                    assert(precedes(entries@[i].0, entries@[x as int].0));
                }
            }
            list.push(entries[x].0);
            proof {
                assert(list@[list@.len() - 1] == entries@[x as int].0);
                assert forall|i: int, j: int| 0 <= i < j < list@.len() implies precedes(#[trigger] list@[i], #[trigger] list@[j]) by {
                    if j == before.len() {
                        assert(admitted(entries@, x as int, threshold, before[i]));
                        let e = choose|e: int| 0 <= e < x && (#[trigger] entries@[e]).0 == before[i] && entries@[e].1 <= threshold;
                        assert(precedes(entries@[e].0, entries@[x as int].0));
                    } else {
                        assert(precedes(before[i], before[j]));
                    }
                }
                assert forall|i: int| 0 <= i < x + 1 && (#[trigger] entries@[i]).1 <= threshold implies list@.contains(entries@[i].0) by {
                    if i < x {
                        assert(before.contains(entries@[i].0));
                        let k = choose|k: int| 0 <= k < before.len() && before[k] == entries@[i].0;
                        assert(list@[k] == entries@[i].0);
                    }
                }
            }
        }
        proof {
            assert forall|k: int| 0 <= k < list@.len() implies admitted(entries@, x as int + 1, threshold, #[trigger] list@[k]) by {
                if k < before.len() {
                    let i = choose|i: int| 0 <= i < x && (#[trigger] entries@[i]).0 == before[k] && entries@[i].1 <= threshold;
                    assert(entries@[i].0 == list@[k] && 0 <= i < x + 1 && entries@[i].1 <= threshold);
                } else {
                    assert(entries@[x as int].0 == list@[k] && entries@[x as int].1 <= threshold);
                }
            }
        }
        x += 1;
    }
    proof {
        assert(entries@[il].1 <= threshold);
        assert(list@.contains(entries@[il].0));
        assert forall|cand: Candidate| list@.contains(cand) <==> in_rcl(m, alpha, cand) by {
            if list@.contains(cand) {
                let k = choose|k: int| 0 <= k < list@.len() && list@[k] == cand;
                let i = choose|i: int| 0 <= i < entries@.len() && (#[trigger] entries@[i]).0 == list@[k] && entries@[i].1 <= threshold;
            }
            if in_rcl(m, alpha, cand) {
                let i = choose|i: int| 0 <= i < entries@.len() && (#[trigger] entries@[i]).0 == cand;
                assert(entries@[i].1 <= threshold);
            }
        }
    }
    list
}

/// A set with a cost of at most `x` has a least cost.
proof fn lemma_min_exists(m: Map<Candidate, Cost>, x: int)
    requires
        exists|cand: Candidate| #[trigger] m.contains_key(cand) && m[cand] <= x,
    ensures
        exists|lo: Cost| is_min_cost(m, lo),
    decreases x,
{
    let w = choose|cand: Candidate| #[trigger] m.contains_key(cand) && m[cand] <= x;
    if forall|cand: Candidate| #[trigger] m.contains_key(cand) ==> x <= m[cand] {
        assert(m.contains_key(w) && m[w] == x);
        assert(is_min_cost(m, x as Cost));
    } else {
        let below = choose|cand: Candidate| #[trigger] m.contains_key(cand) && !(x <= m[cand]);
        assert(m.contains_key(below) && m[below] <= x - 1);
        lemma_min_exists(m, x - 1);
    }
}

/// A set with a cost of at least `x` has a greatest cost.
proof fn lemma_max_exists(m: Map<Candidate, Cost>, x: int)
    requires
        exists|cand: Candidate| #[trigger] m.contains_key(cand) && m[cand] >= x,
    ensures
        exists|hi: Cost| is_max_cost(m, hi),
    decreases u32::MAX - x,
{
    let w = choose|cand: Candidate| #[trigger] m.contains_key(cand) && m[cand] >= x;
    if forall|cand: Candidate| #[trigger] m.contains_key(cand) ==> m[cand] <= x {
        assert(m.contains_key(w) && m[w] == x);
        assert(is_max_cost(m, x as Cost));
    } else {
        let above = choose|cand: Candidate| #[trigger] m.contains_key(cand) && !(m[cand] <= x);
        assert(m.contains_key(above) && m[above] >= x + 1);
        lemma_max_exists(m, x + 1);
    }
}

/// A set that holds a candidate has a least and a greatest cost.
pub proof fn lemma_extremes_exist(m: Map<Candidate, Cost>)
    requires
        inhabited(m),
    ensures
        is_min_cost(m, min_cost(m)),
        is_max_cost(m, max_cost(m)),
        min_cost(m) <= max_cost(m),
{
    let w = choose|cand: Candidate| m.contains_key(cand);
    assert(m.contains_key(w) && m[w] <= m[w] as int);
    lemma_min_exists(m, m[w] as int);
    lemma_max_exists(m, m[w] as int);
    lemma_extremes_unique(m, min_cost(m), max_cost(m));
}

/// With `alpha` at zero the restricted list holds exactly the candidates
/// whose cost is the least of the set.
pub proof fn lemma_rcl_greedy(m: Map<Candidate, Cost>, alpha: Ratio, cand: Candidate)
    requires
        inhabited(m),
        alpha.wf(),
        alpha.numer() == 0,
    ensures
        in_rcl(m, alpha, cand) <==> m.contains_key(cand) && m[cand] == min_cost(m),
{
    lemma_extremes_exist(m);
    lemma_scaled_none(alpha, max_cost(m) - min_cost(m));
}

/// With `alpha` at one the restricted list holds every candidate of the set.
pub proof fn lemma_rcl_full(m: Map<Candidate, Cost>, alpha: Ratio, cand: Candidate)
    requires
        inhabited(m),
        alpha.wf(),
        alpha.numer() == alpha.denom(),
    ensures
        in_rcl(m, alpha, cand) <==> m.contains_key(cand),
{
    lemma_extremes_exist(m);
    lemma_scaled_all(alpha, max_cost(m) - min_cost(m));
}

} // verus!

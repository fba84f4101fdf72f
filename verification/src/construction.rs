//! Greedy randomized construction: fills a partial square cell by cell,
//! drawing each placement at random among the cheapest candidates.

use vstd::prelude::*;

use crate::candidates::{fits, inhabited, placed, placement, Candidate, CandidateSet, Cost};
use crate::ground::{
    create_restricted_candidate_list, eligible, evaluate_candidates, generate_candidate_ground_set, in_rcl, scored,
};
use crate::random::choose_candidate;
use crate::ratio::Ratio;
use crate::square::{
    cell_cost, column, grid_complete, grid_count, grid_wf, lemma_cell_cost_put, lemma_count_bound, lemma_grid_count_put, lemma_put_lines,
    put, symbol_of, Grid, Square, SquareItem,
};

verus! {

/// By how much a placement raises the cost of another candidate: by one where
/// the two share the symbol and the row, and by one where they share the
/// symbol and the column.
pub open spec fn raise(cand: Candidate, chosen: Candidate) -> int {
    (if cand.treatment == chosen.treatment && cand.row == chosen.row { 1int } else { 0int }) + (if cand.treatment
        == chosen.treatment && cand.col == chosen.col { 1int } else { 0int })
}

/// The candidate set after `chosen` was placed: the candidates of its cell
/// are gone, and the cost of every other one is raised by what the placement
/// adds to it.
pub open spec fn after_placement(m: Map<Candidate, Cost>, chosen: Candidate) -> Map<Candidate, Cost> {
    Map::new(
        |cand: Candidate| m.contains_key(cand) && !(cand.row == chosen.row && cand.col == chosen.col),
        |cand: Candidate| (m[cand] + raise(cand, chosen)) as Cost,
    )
}

/// The cost of a symbol at a cell is at most twice the side of the grid.
proof fn lemma_cell_cost_bound(g: Grid, n: int, r: int, c: int, s: Option<u32>)
    requires
        grid_wf(g, n),
        0 <= r < n,
        0 <= c < n,
    ensures
        cell_cost(g, r, c, s) <= 2 * n,
{
    lemma_count_bound(g[r], s, n);
    lemma_count_bound(column(g, c), s, n);
}

/// Costs that are exact before a placement into an empty cell are exact after
/// it: raising the costs by the placement's share gives what counting afresh
/// on the new grid gives.
pub proof fn lemma_placement_keeps_scores(m: Map<Candidate, Cost>, g: Grid, n: int, chosen: Candidate)
    requires
        grid_wf(g, n),
        fits(chosen, n),
        g[chosen.row as int][chosen.col as int] == SquareItem::Empty,
        forall|cand: Candidate| #[trigger] m.contains_key(cand) ==> fits(cand, n) && m[cand] < u32::MAX,
        scored(m, g),
    ensures
        scored(after_placement(m, chosen), put(g, chosen.row as int, chosen.col as int, chosen.treatment)),
{
    let h = put(g, chosen.row as int, chosen.col as int, chosen.treatment);
    let m2 = after_placement(m, chosen);
    assert forall|cand: Candidate| #[trigger] m2.contains_key(cand) implies m2[cand] == cell_cost(
        h,
        cand.row as int,
        cand.col as int,
        symbol_of(cand.treatment),
    ) by {
        assert(m.contains_key(cand));
        lemma_cell_cost_put(
            g,
            n,
            chosen.row as int,
            chosen.col as int,
            chosen.treatment,
            cand.row as int,
            cand.col as int,
            symbol_of(cand.treatment),
        );
        lemma_put_lines(g, n, chosen.row as int, chosen.col as int, chosen.treatment);
        assert(raise(cand, chosen) <= 1);
    }
}

/// Places the chosen candidate in the square and brings the candidate set up
/// to date: the candidates of the filled cell leave, and the candidates of
/// the same symbol in the same row or column cost one more.
pub fn apply_and_update(candidates: &mut CandidateSet, chosen: &Candidate, square: &mut Square)
    requires
        old(candidates).wf(),
        old(square).wf(),
        old(candidates).side() == old(square).size,
        old(candidates)@.contains_key(*chosen),
        forall|cand: Candidate| #[trigger] old(candidates)@.contains_key(cand) ==> old(candidates)@[cand] < u32::MAX,
    ensures
        final(candidates).wf(),
        final(candidates).side() == old(candidates).side(),
        final(square).wf(),
        final(square).size == old(square).size,
        final(square)@ == put(old(square)@, chosen.row as int, chosen.col as int, chosen.treatment),
        final(candidates)@ == after_placement(old(candidates)@, *chosen),
        scored(old(candidates)@, old(square)@) && old(square)@[chosen.row as int][chosen.col as int] == SquareItem::Empty ==> scored(
            final(candidates)@,
            final(square)@,
        ),
{
    let n = square.size;
    let ghost m = candidates@;
    proof {
        candidates.lemma_members_fit();
        candidates.lemma_side_bound();
        if scored(m, square@) && square@[chosen.row as int][chosen.col as int] == SquareItem::Empty {
            lemma_placement_keeps_scores(m, square@, n as int, *chosen);
        }
    }
    // Update treatment in square
    square.set(chosen.row, chosen.col, chosen.treatment);

    // No symbol is a candidate for the filled cell any more
    let mut i: usize = 0;
    while i < n
        invariant
            candidates.wf(),
            candidates.side() == n,
            n <= u32::MAX,
            i <= n,
            fits(*chosen, n as int),
            forall|cand: Candidate| #[trigger]
                candidates@.contains_key(cand) <==> m.contains_key(cand) && !(cand.row == chosen.row && cand.col == chosen.col
                    && placed(cand) < i),
            forall|cand: Candidate| #[trigger] candidates@.contains_key(cand) ==> candidates@[cand] == m[cand],
            forall|cand: Candidate| #[trigger] m.contains_key(cand) ==> fits(cand, n as int),
        decreases n - i,
    {
        candidates.remove(&Candidate::new(chosen.row, chosen.col, SquareItem::Treatment(i as u32)));
        i += 1;
    }

    // Incrementally update the score
    let mut i: usize = 0;
    while i < n
        invariant
            candidates.wf(),
            candidates.side() == n,
            i <= n,
            fits(*chosen, n as int),
            forall|cand: Candidate| #[trigger]
                candidates@.contains_key(cand) <==> m.contains_key(cand) && !(cand.row == chosen.row && cand.col == chosen.col),
            forall|cand: Candidate| #[trigger]
                candidates@.contains_key(cand) ==> candidates@[cand] == m[cand] + (if cand.treatment == chosen.treatment
                    && cand.row == chosen.row && cand.col < i { 1int } else { 0int }) + (if cand.treatment == chosen.treatment
                    && cand.col == chosen.col && cand.row < i { 1int } else { 0int }),
            forall|cand: Candidate| #[trigger] m.contains_key(cand) ==> fits(cand, n as int) && m[cand] < u32::MAX,
        decreases n - i,
    {
        let in_row = Candidate::new(chosen.row, i, chosen.treatment);
        let in_col = Candidate::new(i, chosen.col, chosen.treatment);
        candidates.bump(&in_row);
        candidates.bump(&in_col);
        i += 1;
    }
    proof {
        assert(candidates@ =~= after_placement(m, *chosen));
    }
}

/// Whether some symbol may still be placed at (`r`, `c`).
pub open spec fn fillable_cell(g: Grid, n: int, r: int, c: int) -> bool {
    exists|v: int| 0 <= v < n && #[trigger] eligible(g, r, c, v)
}

/// Whether every empty cell of the grid has a symbol that may be placed there.
pub open spec fn fillable(g: Grid, n: int) -> bool {
    forall|r: int, c: int| 0 <= r < n && 0 <= c < n && g[r][c] == SquareItem::Empty ==> #[trigger] fillable_cell(g, n, r, c)
}

/// What construction leaves in a cell: a cell that held something keeps it;
/// an empty cell gets a symbol that neither its row nor its column held at
/// the start, and stays empty only where there is no such symbol.
pub open spec fn cell_constructed(start: Grid, n: int, r: int, c: int, item: SquareItem) -> bool {
    if start[r][c] != SquareItem::Empty {
        item == start[r][c]
    } else if fillable_cell(start, n, r, c) {
        item is Treatment && item->Treatment_0 < n && eligible(start, r, c, item->Treatment_0 as int)
    } else {
        item == SquareItem::Empty
    }
}

/// Whether `result` is what a construction may leave of the grid `start`.
pub open spec fn constructed(start: Grid, n: int, result: Grid) -> bool {
    forall|r: int, c: int| 0 <= r < n && 0 <= c < n ==> cell_constructed(start, n, r, c, #[trigger] result[r][c])
}

/// What holds of a cell while construction is under way.
spec fn cell_under_way(start: Grid, n: int, r: int, c: int, item: SquareItem) -> bool {
    if start[r][c] != SquareItem::Empty {
        item == start[r][c]
    } else {
        item == SquareItem::Empty || (item is Treatment && item->Treatment_0 < n && eligible(
            start,
            r,
            c,
            item->Treatment_0 as int,
        ))
    }
}

/// The candidates that a construction on the grid starts with: every symbol
/// at every empty cell that neither its row nor its column holds, at the
/// cost that it has there.
pub open spec fn ground_set(g: Grid, n: int) -> Map<Candidate, Cost> {
    Map::new(
        |cand: Candidate| fits(cand, n) && eligible(g, cand.row as int, cand.col as int, placed(cand)),
        |cand: Candidate| cell_cost(g, cand.row as int, cand.col as int, symbol_of(cand.treatment)) as Cost,
    )
}

/// The candidate set after the first `t` of the picks were placed.
pub open spec fn set_after(m: Map<Candidate, Cost>, picks: Seq<Candidate>, t: int) -> Map<Candidate, Cost>
    decreases t,
{
    if t <= 0 {
        m
    } else {
        after_placement(set_after(m, picks, t - 1), picks[t - 1])
    }
}

/// The grid after the first `t` of the picks were placed.
pub open spec fn grid_after(g: Grid, picks: Seq<Candidate>, t: int) -> Grid
    decreases t,
{
    if t <= 0 {
        g
    } else {
        put(grid_after(g, picks, t - 1), picks[t - 1].row as int, picks[t - 1].col as int, picks[t - 1].treatment)
    }
}

/// Whether the pick numbered `t` was on the restricted list when its turn came.
pub open spec fn pick_at(alpha: Ratio, m: Map<Candidate, Cost>, picks: Seq<Candidate>, t: int) -> bool {
    in_rcl(set_after(m, picks, t), alpha, picks[t])
}

/// Whether the picks are a construction on the grid `start` that ends in
/// `result`: each was on the restricted list when its turn came, and after
/// the last no candidate is left.
pub open spec fn built_by(alpha: Ratio, start: Grid, n: int, picks: Seq<Candidate>, result: Grid) -> bool {
    &&& forall|t: int| 0 <= t < picks.len() ==> #[trigger] pick_at(alpha, ground_set(start, n), picks, t)
    &&& !inhabited(set_after(ground_set(start, n), picks, picks.len() as int))
    &&& result == grid_after(start, picks, picks.len() as int)
}

/// What the first `t` picks lead to does not depend on the picks after them.
proof fn lemma_picks_prefix(m: Map<Candidate, Cost>, g: Grid, picks: Seq<Candidate>, more: Seq<Candidate>, t: int)
    requires
        0 <= t <= picks.len(),
        picks.len() <= more.len(),
        forall|x: int| 0 <= x < picks.len() ==> picks[x] == more[x],
    ensures
        set_after(m, more, t) == set_after(m, picks, t),
        grid_after(g, more, t) == grid_after(g, picks, t),
    decreases t,
{
    if t > 0 {
        lemma_picks_prefix(m, g, picks, more, t - 1);
    }
}

/// Incrementally select candidates to add to a solution. The selection is
/// randomized but biased towards candidates with a lower cost.
pub fn greedy_randomized_construction(alpha: Ratio, square: &Square) -> (result: Square)
    requires
        square.wf(),
        2 * square.size < u32::MAX,
    ensures
        result.wf(),
        result.size == square.size,
        constructed(square@, square.size as int, result@),
        fillable(square@, square.size as int) ==> grid_complete(result@),
        exists|picks: Seq<Candidate>| #[trigger] built_by(alpha, square@, square.size as int, picks, result@),
{
    let n = square.size;
    let ghost start = square@;
    let mut square = square.clone();

    // Initialize candidate set
    let mut candidates = generate_candidate_ground_set(&square);
    evaluate_candidates(&mut candidates, &square);

    let ghost first = ground_set(start, n as int);
    let ghost mut picks: Seq<Candidate> = Seq::empty();
    proof {
        candidates.lemma_members_fit();
        assert forall|cand: Candidate| #[trigger] candidates@.contains_key(cand) implies candidates@[cand] == first[cand] by {
            lemma_cell_cost_bound(start, n as int, cand.row as int, cand.col as int, symbol_of(cand.treatment));
        }
        assert(candidates@ =~= first);
    }

    // While construction is possible
    while !candidates.is_empty()
        invariant
            first == ground_set(start, n as int),
            candidates@ == set_after(first, picks, picks.len() as int),
            square@ == grid_after(start, picks, picks.len() as int),
            forall|t: int| 0 <= t < picks.len() ==> #[trigger] pick_at(alpha, first, picks, t),
            square.wf(),
            n == square.size,
            2 * n < u32::MAX,
            grid_wf(start, n as int),
            candidates.wf(),
            candidates.side() == n,
            scored(candidates@, square@),
            forall|cand: Candidate| #[trigger]
                candidates@.contains_key(cand) <==> fits(cand, n as int) && square@[cand.row as int][cand.col as int]
                    == SquareItem::Empty && eligible(start, cand.row as int, cand.col as int, placed(cand)),
            forall|r: int, c: int| 0 <= r < n && 0 <= c < n ==> cell_under_way(start, n as int, r, c, #[trigger] square@[r][c]),
        decreases grid_count(square@, None),
    {
        // Create a restricted candidate list
        let restricted_candidates = create_restricted_candidate_list(alpha, &candidates);

        // Pick a random candidate from the restricted candidate list
        let candidate = choose_candidate(&restricted_candidates);

        let ghost before = square@;
        let ghost m = candidates@;
        proof {
            assert(m.contains_key(candidate));
            assert forall|cand: Candidate| #[trigger] m.contains_key(cand) implies m[cand] < u32::MAX by {
                lemma_cell_cost_bound(before, n as int, cand.row as int, cand.col as int, symbol_of(cand.treatment));
            }
            lemma_grid_count_put(before, n as int, candidate.row as int, candidate.col as int, candidate.treatment, None, n as int);
            lemma_put_lines(before, n as int, candidate.row as int, candidate.col as int, candidate.treatment);
        }
        apply_and_update(&mut candidates, &candidate, &mut square);
        proof {
            let longer = picks.push(candidate);
            lemma_picks_prefix(first, start, picks, longer, picks.len() as int);
            assert forall|t: int| 0 <= t < longer.len() implies #[trigger] pick_at(alpha, first, longer, t) by {
                if t < picks.len() {
                    assert(pick_at(alpha, first, picks, t));
                    lemma_picks_prefix(first, start, picks, longer, t);
                }
            }
            picks = longer;
        }
    }
    assert(built_by(alpha, start, n as int, picks, square@));
    proof {
        let g = square@;
        assert forall|r: int, c: int| 0 <= r < n && 0 <= c < n implies cell_constructed(start, n as int, r, c, #[trigger] g[r][c]) by {
            assert(cell_under_way(start, n as int, r, c, g[r][c]));
            if start[r][c] == SquareItem::Empty && g[r][c] == SquareItem::Empty && fillable_cell(start, n as int, r, c) {
                let v = choose|v: int| 0 <= v < n && #[trigger] eligible(start, r, c, v);
                assert(candidates@.contains_key(placement(r, c, v)));
            }
        }
        if fillable(start, n as int) {
            assert forall|r: int, c: int| 0 <= r < g.len() && 0 <= c < g[r].len() implies #[trigger] g[r][c] != SquareItem::Empty by {
                assert(cell_constructed(start, n as int, r, c, g[r][c]));
                if start[r][c] == SquareItem::Empty {
                    assert(fillable_cell(start, n as int, r, c));
                }
            }
        }
    }
    square
}

} // verus!

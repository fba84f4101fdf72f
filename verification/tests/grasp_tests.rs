use latin_squares::candidates::{Candidate, CandidateSet, Cost};
use latin_squares::construction;
use latin_squares::construction::apply_and_update;
use latin_squares::grasp::{grasp_iteration, keep_searching, run_grasp, solve, GraspReport};
use latin_squares::ground;
use latin_squares::ground::{create_restricted_candidate_list, evaluate_candidates, generate_candidate_ground_set};
use latin_squares::ratio::Ratio;
use latin_squares::repair::{argsort, repair, replace_treatment};
use latin_squares::square::{Square, SquareItem};
use std::time::Duration;

const SIZES: [usize; 6] = [5, 8, 10, 15, 20, 50];

/// The Latin square whose cell at (i, j) holds (i + j) mod n.
fn cyclic(n: usize) -> Square {
    let cells: Vec<Vec<Option<u32>>> = (0..n).map(|i| (0..n).map(|j| Some(((i + j) % n) as u32)).collect()).collect();
    Square::from_cells(&cells, false).unwrap()
}

/// How often the symbol occurs in the square.
fn occurrences(square: &Square, symbol: u32) -> usize {
    square.data.iter().flatten().filter(|item| item.symbol() == Some(symbol)).count()
}

#[test]
fn empty_ground_set() {
    for n in SIZES.iter() {
        let square = cyclic(*n);
        let candidates = generate_candidate_ground_set(&square);
        assert_eq!(candidates.len(), 0);
    }
}

#[test]
fn incremental_cost() {
    let mut square = Square::new(3);
    let candidate = Candidate { row: 0, col: 0, treatment: SquareItem::Treatment(0) };
    assert_eq!(ground::incremental_cost(&candidate, &square), 0);
    square.data[0][1] = SquareItem::Treatment(0);
    assert_eq!(ground::incremental_cost(&candidate, &square), 1);
    square.data[1][0] = SquareItem::Treatment(0);
    assert_eq!(ground::incremental_cost(&candidate, &square), 2);
    square.data[2][0] = SquareItem::Treatment(0);
    square.data[0][2] = SquareItem::Treatment(0);
    assert_eq!(ground::incremental_cost(&candidate, &square), 4);
}

#[test]
fn restricted_candidate_list() {
    let alpha = Ratio::new(2, 10).unwrap();
    let mut candidates = CandidateSet::new(10);
    for t in 0..10 {
        candidates.insert(Candidate::new(0, 0, SquareItem::Treatment(t as u32)), t as Cost);
    }

    let restricted_candidates = create_restricted_candidate_list(alpha, &candidates);
    assert_eq!(restricted_candidates.len(), 2);
    assert!(restricted_candidates.contains(&Candidate::new(0, 0, SquareItem::Treatment(0))));
    assert!(restricted_candidates.contains(&Candidate::new(0, 0, SquareItem::Treatment(1))));
}

#[test]
fn greedy_randomized_construction() {
    let proportion = Ratio::new(1, 2).unwrap();

    for n in &SIZES[0..6] {
        let square = cyclic(*n);
        let square = square.make_partial(proportion);
        let score = square.score_square();
        let square = construction::greedy_randomized_construction(Ratio::new(2, 10).unwrap(), &square);
        let score_new = square.score_square();
        assert!(score_new < score, "Expected {} < {}", score_new, score);
        assert!(square.is_complete());
        repair(&square);
    }
}

#[test]
fn incremental_cost_counts_clues_too() {
    let mut square = Square::new(4);
    square.set(1, 3, SquareItem::Frozen(2));
    square.set(3, 2, SquareItem::Treatment(2));
    square.set(0, 2, SquareItem::Frozen(1));
    let candidate = Candidate::new(1, 2, SquareItem::Treatment(2));
    assert_eq!(ground::incremental_cost(&candidate, &square), 2);
    let other = Candidate::new(1, 2, SquareItem::Treatment(1));
    assert_eq!(ground::incremental_cost(&other, &square), 1);
    let own = Candidate::new(1, 3, SquareItem::Frozen(2));
    assert_eq!(ground::incremental_cost(&own, &square), 2);
}

#[test]
fn ground_set_of_an_empty_square() {
    let square = Square::new(3);
    let mut candidates = generate_candidate_ground_set(&square);
    assert_eq!(candidates.len(), 27);
    assert_eq!(candidates.size(), 3);
    assert!(!candidates.is_empty());
    assert_eq!(candidates.get(&Candidate::new(2, 1, SquareItem::Treatment(0))), Some(u32::MAX));
    evaluate_candidates(&mut candidates, &square);
    for (candidate, cost) in candidates.entries() {
        assert_eq!(cost, 0);
        assert_eq!(ground::incremental_cost(&candidate, &square), 0);
    }
}

#[test]
fn ground_set_leaves_out_what_row_or_column_holds() {
    let mut square = Square::new(3);
    square.set(0, 0, SquareItem::Frozen(1));
    square.set(2, 1, SquareItem::Treatment(0));
    let candidates = generate_candidate_ground_set(&square);
    // 7 empty cells with 3 symbols each, less 4 for the symbol 1 in row 0 and
    // column 0, less 4 for the symbol 0 in row 2 and column 1.
    assert_eq!(candidates.len(), 13);
    assert_eq!(candidates.get(&Candidate::new(0, 0, SquareItem::Treatment(0))), None);
    assert_eq!(candidates.get(&Candidate::new(0, 1, SquareItem::Treatment(1))), None);
    assert_eq!(candidates.get(&Candidate::new(0, 1, SquareItem::Treatment(0))), None);
    assert_eq!(candidates.get(&Candidate::new(0, 1, SquareItem::Treatment(2))), Some(u32::MAX));
    assert_eq!(candidates.get(&Candidate::new(1, 0, SquareItem::Treatment(1))), None);
    assert_eq!(candidates.get(&Candidate::new(1, 2, SquareItem::Treatment(1))), Some(u32::MAX));
    assert_eq!(candidates.get(&Candidate::new(2, 2, SquareItem::Treatment(0))), None);
    assert_eq!(candidates.get(&Candidate::new(1, 1, SquareItem::Frozen(2))), None);
    assert_eq!(candidates.get(&Candidate::new(3, 1, SquareItem::Treatment(2))), None);
}

#[test]
fn candidate_set_insert_remove_bump() {
    let mut candidates = CandidateSet::new(4);
    assert!(candidates.is_empty());
    let first = Candidate::new(1, 2, SquareItem::Treatment(3));
    let second = Candidate::new(3, 0, SquareItem::Treatment(0));
    assert_eq!(candidates.insert(first, 5), None);
    assert_eq!(candidates.insert(second, 1), None);
    assert_eq!(candidates.insert(first, 7), Some(5));
    assert_eq!(candidates.len(), 2);
    candidates.bump(&first);
    candidates.bump(&Candidate::new(0, 0, SquareItem::Treatment(0)));
    assert_eq!(candidates.get(&first), Some(8));
    assert_eq!(candidates.get(&second), Some(1));
    assert_eq!(candidates.entries(), vec![(first, 8), (second, 1)]);
    assert_eq!(candidates.remove(&first), Some(8));
    assert_eq!(candidates.remove(&first), None);
    assert_eq!(candidates.remove(&Candidate::new(9, 9, SquareItem::Empty)), None);
    assert_eq!(candidates.len(), 1);
    assert_eq!(candidates.remove(&second), Some(1));
    assert!(candidates.is_empty());
}

#[test]
fn restricted_list_at_zero_holds_the_cheapest() {
    let mut candidates = CandidateSet::new(6);
    let costs = [4, 2, 9, 2, 7, 2];
    for t in 0..6 {
        candidates.insert(Candidate::new(1, t, SquareItem::Treatment(t as u32)), costs[t]);
    }
    let list = create_restricted_candidate_list(Ratio::new(0, 1).unwrap(), &candidates);
    assert_eq!(
        list,
        vec![
            Candidate::new(1, 1, SquareItem::Treatment(1)),
            Candidate::new(1, 3, SquareItem::Treatment(3)),
            Candidate::new(1, 5, SquareItem::Treatment(5)),
        ]
    );
}

#[test]
fn restricted_list_at_one_holds_all() {
    let mut candidates = CandidateSet::new(6);
    let costs = [4, 2, 9, 2, 7, 2];
    for t in 0..6 {
        candidates.insert(Candidate::new(1, t, SquareItem::Treatment(t as u32)), costs[t]);
    }
    let list = create_restricted_candidate_list(Ratio::new(3, 3).unwrap(), &candidates);
    assert_eq!(list.len(), 6);
    for t in 0..6 {
        assert!(list.contains(&Candidate::new(1, t, SquareItem::Treatment(t as u32))));
    }
}

#[test]
fn restricted_list_threshold_rounds_down() {
    let mut candidates = CandidateSet::new(6);
    let costs = [4, 2, 9, 2, 7, 5];
    for t in 0..6 {
        candidates.insert(Candidate::new(1, t, SquareItem::Treatment(t as u32)), costs[t]);
    }
    // The least cost is 2 and the greatest 9: half of the spread is 3, and
    // the threshold 5.
    let list = create_restricted_candidate_list(Ratio::new(1, 2).unwrap(), &candidates);
    assert_eq!(list.len(), 4);
    assert!(!list.contains(&Candidate::new(1, 2, SquareItem::Treatment(2))));
    assert!(!list.contains(&Candidate::new(1, 4, SquareItem::Treatment(4))));
}

#[test]
fn costs_stay_exact_after_each_placement() {
    let mut square = Square::new(4);
    square.set(0, 0, SquareItem::Frozen(2));
    let mut candidates = generate_candidate_ground_set(&square);
    evaluate_candidates(&mut candidates, &square);
    let placements = [
        Candidate::new(1, 1, SquareItem::Treatment(2)),
        Candidate::new(1, 3, SquareItem::Treatment(2)),
        Candidate::new(3, 1, SquareItem::Treatment(0)),
        Candidate::new(3, 3, SquareItem::Treatment(2)),
    ];
    let mut left = candidates.len();
    for chosen in placements.iter() {
        assert!(candidates.get(chosen).is_some());
        apply_and_update(&mut candidates, chosen, &mut square);
        assert_eq!(square.get(chosen.row, chosen.col), chosen.treatment);
        assert!(candidates.len() < left);
        left = candidates.len();
        for (candidate, cost) in candidates.entries() {
            assert!(!(candidate.row == chosen.row && candidate.col == chosen.col));
            assert_eq!(cost, ground::incremental_cost(&candidate, &square));
        }
    }
    assert_eq!(candidates.get(&Candidate::new(1, 2, SquareItem::Treatment(2))), Some(2));
    assert_eq!(candidates.get(&Candidate::new(2, 3, SquareItem::Treatment(2))), Some(2));
    assert_eq!(candidates.get(&Candidate::new(2, 2, SquareItem::Treatment(2))), Some(0));
}

#[test]
fn construction_keeps_what_was_there() {
    let cells = vec![
        vec![Some(0), None, None, None],
        vec![None, Some(3), None, None],
        vec![None, None, None, None],
        vec![None, None, None, Some(1)],
    ];
    let square = Square::from_cells(&cells, true).unwrap();
    for _ in 0..20 {
        let built = construction::greedy_randomized_construction(Ratio::new(1, 4).unwrap(), &square);
        assert!(built.is_complete());
        assert_eq!(built.data[0][0], SquareItem::Frozen(0));
        assert_eq!(built.data[1][1], SquareItem::Frozen(3));
        assert_eq!(built.data[3][3], SquareItem::Frozen(1));
        // No placed symbol repeats a clue of its row or column.
        assert_ne!(built.data[0][1].symbol(), Some(0));
        assert_ne!(built.data[3][0].symbol(), Some(0));
        assert_ne!(built.data[3][0].symbol(), Some(1));
        assert_ne!(built.data[1][3].symbol(), Some(3));
        assert_ne!(built.data[1][3].symbol(), Some(1));
    }
}

#[test]
fn construction_leaves_a_cell_that_admits_no_symbol() {
    let cells = vec![vec![None, Some(0)], vec![Some(1), None]];
    let square = Square::from_cells(&cells, true).unwrap();
    let built = construction::greedy_randomized_construction(Ratio::new(0, 1).unwrap(), &square);
    assert_eq!(built.data, square.data);
    assert!(grasp_iteration(&square, Ratio::new(0, 1).unwrap()).is_none());
    assert!(solve(&square, Ratio::new(0, 1).unwrap(), 1_000_000).is_none());
    assert!(run_grasp(&square, Ratio::new(0, 1).unwrap(), Duration::from_millis(1)).is_none());
}

#[test]
fn argsort_orders_indices_by_value() {
    assert_eq!(argsort(&[3, 1, 2, 1]), vec![1, 3, 2, 0]);
    assert_eq!(argsort(&[5, 5, 5]), vec![0, 1, 2]);
    assert_eq!(argsort(&[9, 8, 7, 6, 5]), vec![4, 3, 2, 1, 0]);
    assert_eq!(argsort(&[]), Vec::<usize>::new());
    assert_eq!(argsort(&[4]), vec![0]);
}

#[test]
fn replace_treatment_picks_the_cheapest_cell() {
    // Symbol 0 stands three times; replacing it by 2 costs least at (2, 0),
    // the only one of the three cells whose row holds no 2.
    let cells = vec![vec![Some(0), Some(1), Some(2)], vec![Some(1), Some(0), Some(2)], vec![Some(0), Some(1), Some(1)]];
    let mut square = Square::from_cells(&cells, false).unwrap();
    let place = replace_treatment(&mut square, SquareItem::Treatment(0), SquareItem::Treatment(2));
    assert_eq!(place, Some((2, 0)));
    assert_eq!(square.data[2][0], SquareItem::Treatment(2));
    assert_eq!(square.data[0][0], SquareItem::Treatment(0));
    assert_eq!(square.data[1][1], SquareItem::Treatment(0));
}

#[test]
fn replace_treatment_takes_the_first_of_equals() {
    let cells = vec![vec![Some(0), Some(0)], vec![Some(0), Some(0)]];
    let mut square = Square::from_cells(&cells, false).unwrap();
    let place = replace_treatment(&mut square, SquareItem::Treatment(0), SquareItem::Treatment(1));
    assert_eq!(place, Some((0, 0)));
    assert_eq!(square.to_cells(), vec![vec![Some(1), Some(0)], vec![Some(0), Some(0)]]);
}

#[test]
fn replace_treatment_without_a_cell_to_replace() {
    let cells = vec![vec![Some(0), Some(0)], vec![Some(0), Some(0)]];
    let mut square = Square::from_cells(&cells, true).unwrap();
    assert_eq!(replace_treatment(&mut square, SquareItem::Treatment(0), SquareItem::Treatment(1)), None);
    assert_eq!(square.to_cells(), cells);
    assert_eq!(replace_treatment(&mut square, SquareItem::Treatment(1), SquareItem::Treatment(0)), None);
    assert_eq!(square.to_cells(), cells);
}

#[test]
fn repair_balances_the_symbols() {
    let cells = vec![
        vec![Some(0), Some(0), Some(0), Some(0)],
        vec![Some(0), Some(0), Some(1), Some(1)],
        vec![Some(3), Some(3), Some(3), Some(3)],
        vec![Some(3), Some(0), Some(1), Some(1)],
    ];
    let square = Square::from_cells(&cells, false).unwrap();
    let mended = repair(&square);
    for symbol in 0..4 {
        assert_eq!(occurrences(&mended, symbol), 4);
    }
    assert!(mended.is_complete());
}

#[test]
fn repair_moves_one_cell_where_one_is_enough() {
    // Symbol 2 stands four times and symbol 1 twice. Of the cells that hold
    // 2, the one at (2, 2) costs least with a 1 in it.
    let cells = vec![vec![Some(0), Some(1), Some(2)], vec![Some(1), Some(2), Some(0)], vec![Some(2), Some(0), Some(2)]];
    let square = Square::from_cells(&cells, false).unwrap();
    let mended = repair(&square);
    assert_eq!(
        mended.to_cells(),
        vec![vec![Some(0), Some(1), Some(2)], vec![Some(1), Some(2), Some(0)], vec![Some(2), Some(0), Some(1)]]
    );
    assert_eq!(mended.score_square(), 0);
}

#[test]
fn repair_leaves_a_balanced_square_alone() {
    for n in [1usize, 2, 5, 8] {
        let square = cyclic(n);
        assert_eq!(repair(&square).data, square.data);
    }
}

#[test]
fn repair_leaves_clues_alone() {
    let cells = vec![vec![Some(0), Some(0), Some(0)], vec![Some(0), Some(1), Some(1)], vec![Some(2), Some(2), Some(2)]];
    let mut square = Square::from_cells(&cells, false).unwrap();
    square.set(0, 0, SquareItem::Frozen(0));
    square.set(0, 1, SquareItem::Frozen(0));
    square.set(0, 2, SquareItem::Frozen(0));
    let mended = repair(&square);
    assert_eq!(mended.data[0], vec![SquareItem::Frozen(0), SquareItem::Frozen(0), SquareItem::Frozen(0)]);
    for symbol in 0..3 {
        assert_eq!(occurrences(&mended, symbol), 3);
    }
}

#[test]
fn repair_stops_at_clues_that_cannot_be_balanced() {
    let cells = vec![vec![Some(0), Some(0)], vec![Some(0), Some(0)]];
    let square = Square::from_cells(&cells, true).unwrap();
    assert_eq!(repair(&square).data, square.data);
}

#[test]
fn one_round_gives_a_complete_square_with_the_clues() {
    let square = cyclic(6).make_partial(Ratio::new(1, 2).unwrap());
    let cells = square.to_cells();
    let clues = Square::from_cells(&cells, true).unwrap();
    let found = grasp_iteration(&clues, Ratio::new(1, 5).unwrap()).unwrap();
    assert!(found.is_complete());
    for i in 0..6 {
        for j in 0..6 {
            if clues.data[i][j] != SquareItem::Empty {
                assert_eq!(found.data[i][j], clues.data[i][j]);
            } else {
                assert!(matches!(found.data[i][j], SquareItem::Treatment(_)));
            }
        }
    }
    for symbol in 0..6 {
        assert_eq!(occurrences(&found, symbol), 6);
    }
}

#[test]
fn solve_without_time_runs_one_round() {
    let square = cyclic(5).make_partial(Ratio::new(1, 2).unwrap());
    let report = solve(&square, Ratio::new(1, 5).unwrap(), 0).unwrap();
    assert_eq!(report.iterations, 1);
    assert_eq!(report.score, report.best.score_square());
    assert!(report.best.is_complete());
    let best = run_grasp(&square, Ratio::new(1, 5).unwrap(), Duration::from_secs(0)).unwrap();
    assert!(best.is_complete());
}

#[test]
fn solve_with_time_reports_the_best_square() {
    let partial = cyclic(5).make_partial(Ratio::new(1, 2).unwrap());
    let clues = Square::from_cells(&partial.to_cells(), true).unwrap();
    let report = solve(&clues, Ratio::new(1, 5).unwrap(), 200_000_000).unwrap();
    assert!(report.iterations >= 1);
    assert_eq!(report.score, report.best.score_square());
    assert!(report.best.is_complete());
    for i in 0..5 {
        for j in 0..5 {
            if clues.data[i][j] != SquareItem::Empty {
                assert_eq!(report.best.data[i][j], clues.data[i][j]);
            }
        }
    }
}

#[test]
fn keep_searching_needs_time_and_a_positive_score() {
    assert!(keep_searching(3, 4, 1));
    assert!(!keep_searching(4, 4, 1));
    assert!(!keep_searching(3, 4, 0));
    assert!(!keep_searching(0, 0, 9));
}

#[test]
fn report_absorbs_only_what_is_strictly_better() {
    let mut report = GraspReport { best: Square::new(2), score: 8, iterations: 1 };
    report.absorb(cyclic(2), 8);
    assert_eq!(report.iterations, 2);
    assert_eq!(report.score, 8);
    assert_eq!(report.best.data, Square::new(2).data);
    report.absorb(cyclic(2), 0);
    assert_eq!(report.iterations, 3);
    assert_eq!(report.score, 0);
    assert_eq!(report.best.data, cyclic(2).data);
    report.absorb(Square::new(2), 8);
    assert_eq!(report.iterations, 4);
    assert_eq!(report.score, 0);
    assert_eq!(report.best.data, cyclic(2).data);
}

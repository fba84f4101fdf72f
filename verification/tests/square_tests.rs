use latin_squares::ratio::Ratio;
use latin_squares::square::{Square, SquareItem};
use rand::Rng;

const SIZES: [usize; 6] = [5, 8, 10, 15, 20, 50];

/// The Latin square whose cell at (i, j) holds (i + j) mod n.
fn cyclic(n: usize) -> Square {
    let cells: Vec<Vec<Option<u32>>> = (0..n).map(|i| (0..n).map(|j| Some(((i + j) % n) as u32)).collect()).collect();
    Square::from_cells(&cells, false).unwrap()
}

#[test]
fn score_complete_squares() {
    for n in SIZES.iter() {
        let square = cyclic(*n);
        assert_eq!(square.score_square(), 0);
    }
}

#[test]
fn score_empty_square() {
    let square = Square::new(5);
    assert_eq!(square.score_square(), 50);
}

#[test]
fn score_bad_square() {
    let n = 10;
    let mut rng = rand::thread_rng();

    for size in SIZES.iter() {
        let mut square = cyclic(*size);
        // Randomly overwrite n elements
        for _ in 0..n {
            let i = rng.gen_range(0..square.size);
            let j = rng.gen_range(0..square.size);
            square.data[i][j] = SquareItem::Treatment(rng.gen_range(0..square.size) as u32);
        }
        assert_ne!(square.score_square(), 0);
    }
}

#[test]
fn empty_square_costs_twice_the_cells() {
    for n in 0..7usize {
        let square = Square::new(n);
        assert_eq!(square.score_square(), (2 * n * n) as u32);
        assert_eq!(square.size, n);
        assert_eq!(square.data.len(), n);
    }
}

#[test]
fn row_and_column_costs() {
    let mut square = Square::new(3);
    assert_eq!(square.check_row(0), 3);
    assert_eq!(square.check_col(0), 3);
    square.set(0, 0, SquareItem::Treatment(1));
    square.set(0, 1, SquareItem::Frozen(1));
    square.set(2, 0, SquareItem::Treatment(0));
    assert_eq!(square.check_row(0), 2);
    assert_eq!(square.check_row(1), 3);
    assert_eq!(square.check_row(2), 2);
    assert_eq!(square.check_col(0), 1);
    assert_eq!(square.check_col(1), 2);
    assert_eq!(square.check_col(2), 3);
    assert_eq!(square.score_square(), 13);
}

#[test]
fn a_clue_counts_as_its_symbol() {
    let cells = vec![vec![Some(0), Some(1)], vec![Some(1), Some(0)]];
    let given = Square::from_cells(&cells, true).unwrap();
    let placed = Square::from_cells(&cells, false).unwrap();
    assert_eq!(given.data[0][1], SquareItem::Frozen(1));
    assert_eq!(placed.data[0][1], SquareItem::Treatment(1));
    assert_eq!(given.score_square(), 0);
    assert_eq!(placed.score_square(), 0);
}

#[test]
fn swap_exchanges_two_cells() {
    let mut square = cyclic(4);
    square.swap(0, 1, 2, 3);
    assert_eq!(square.get(0, 1), SquareItem::Treatment(1));
    assert_eq!(square.get(2, 3), SquareItem::Treatment(1));
    square.swap(0, 0, 1, 1);
    assert_eq!(square.get(0, 0), SquareItem::Treatment(2));
    assert_eq!(square.get(1, 1), SquareItem::Treatment(0));
    square.swap(3, 3, 3, 3);
    assert_eq!(square.get(3, 3), SquareItem::Treatment(2));
}

#[test]
fn swap_row_and_swap_col() {
    let mut square = cyclic(4);
    square.swap_row(0, 2);
    assert_eq!(square.data[0], vec![SquareItem::Treatment(2), SquareItem::Treatment(3), SquareItem::Treatment(0), SquareItem::Treatment(1)]);
    assert_eq!(square.data[2], vec![SquareItem::Treatment(0), SquareItem::Treatment(1), SquareItem::Treatment(2), SquareItem::Treatment(3)]);
    assert_eq!(square.score_square(), 0);
    square.swap_col(1, 3);
    assert_eq!(square.data[0], vec![SquareItem::Treatment(2), SquareItem::Treatment(1), SquareItem::Treatment(0), SquareItem::Treatment(3)]);
    assert_eq!(square.data[1], vec![SquareItem::Treatment(1), SquareItem::Treatment(0), SquareItem::Treatment(3), SquareItem::Treatment(2)]);
    assert_eq!(square.score_square(), 0);
    square.swap_row(1, 1);
    square.swap_col(2, 2);
    assert_eq!(square.score_square(), 0);
}

#[test]
fn clone_keeps_every_cell() {
    let mut square = cyclic(5);
    square.set(1, 2, SquareItem::Frozen(4));
    square.set(3, 3, SquareItem::Empty);
    let copy = square.clone();
    assert_eq!(copy.size, 5);
    assert_eq!(copy.data, square.data);
}

#[test]
fn is_complete_sees_an_empty_cell() {
    let mut square = cyclic(3);
    assert!(square.is_complete());
    square.set(2, 2, SquareItem::Empty);
    assert!(!square.is_complete());
    assert!(!Square::new(2).is_complete());
    assert!(Square::new(0).is_complete());
}

#[test]
fn from_cells_refuses_what_is_not_square() {
    let ragged = vec![vec![Some(0), Some(1)], vec![Some(1)]];
    assert!(Square::from_cells(&ragged, false).is_none());
    let wide = vec![vec![Some(0), Some(0)]];
    assert!(Square::from_cells(&wide, true).is_none());
}

#[test]
fn from_cells_refuses_a_symbol_out_of_range() {
    let cells = vec![vec![Some(0), Some(2)], vec![None, Some(1)]];
    assert!(Square::from_cells(&cells, false).is_none());
    let cells = vec![vec![Some(0), Some(1)], vec![None, Some(1)]];
    assert!(Square::from_cells(&cells, false).is_some());
}

#[test]
fn cells_round_trip() {
    let cells = vec![vec![Some(0), None, Some(2)], vec![None, None, None], vec![Some(2), Some(1), Some(0)]];
    let square = Square::from_cells(&cells, true).unwrap();
    assert_eq!(square.size, 3);
    assert_eq!(square.data[0][0], SquareItem::Frozen(0));
    assert_eq!(square.data[0][1], SquareItem::Empty);
    assert_eq!(square.to_cells(), cells);
    let empty: Vec<Vec<Option<u32>>> = Vec::new();
    assert_eq!(Square::from_cells(&empty, false).unwrap().size, 0);
}

#[test]
fn symbols_of_cells() {
    assert_eq!(SquareItem::Empty.symbol(), None);
    assert_eq!(SquareItem::Frozen(3).symbol(), Some(3));
    assert_eq!(SquareItem::Treatment(4).symbol(), Some(4));
    assert!(SquareItem::Frozen(3).same_symbol(SquareItem::Treatment(3)));
    assert!(SquareItem::Empty.same_symbol(SquareItem::Empty));
    assert!(!SquareItem::Empty.same_symbol(SquareItem::Treatment(0)));
    assert!(!SquareItem::Treatment(1).same_symbol(SquareItem::Treatment(0)));
}

#[test]
fn ratio_refuses_what_is_not_a_proportion() {
    assert!(Ratio::new(1, 0).is_none());
    assert!(Ratio::new(0, 0).is_none());
    assert!(Ratio::new(3, 2).is_none());
    assert!(Ratio::new(0, 1).is_some());
    assert!(Ratio::new(2, 2).is_some());
}

#[test]
fn ratio_scales_and_rounds_down() {
    let fifth = Ratio::new(1, 5).unwrap();
    assert_eq!(fifth.numerator(), 1);
    assert_eq!(fifth.denominator(), 5);
    assert_eq!(fifth.scale(9), 1);
    assert_eq!(fifth.scale(10), 2);
    assert_eq!(fifth.scale(4), 0);
    assert_eq!(Ratio::new(0, 7).unwrap().scale(1000), 0);
    assert_eq!(Ratio::new(7, 7).unwrap().scale(u32::MAX), u32::MAX);
    assert_eq!(Ratio::new(u32::MAX - 1, u32::MAX).unwrap().scale(u32::MAX), u32::MAX - 1);
}

#[test]
fn make_partial_with_nothing_to_clear() {
    let square = cyclic(6);
    let partial = square.make_partial(Ratio::new(0, 1).unwrap());
    assert_eq!(partial.data, square.data);
}

#[test]
fn make_partial_clears_all_but_clues() {
    let mut square = cyclic(6);
    square.set(0, 0, SquareItem::Frozen(0));
    square.set(4, 5, SquareItem::Frozen(3));
    let partial = square.make_partial(Ratio::new(1, 1).unwrap());
    for i in 0..6 {
        for j in 0..6 {
            if (i, j) == (0, 0) {
                assert_eq!(partial.data[i][j], SquareItem::Frozen(0));
            } else if (i, j) == (4, 5) {
                assert_eq!(partial.data[i][j], SquareItem::Frozen(3));
            } else {
                assert_eq!(partial.data[i][j], SquareItem::Empty);
            }
        }
    }
}

#[test]
fn make_partial_keeps_or_clears() {
    let square = cyclic(20);
    let partial = square.make_partial(Ratio::new(1, 2).unwrap());
    let mut cleared = 0;
    for i in 0..20 {
        for j in 0..20 {
            if partial.data[i][j] == SquareItem::Empty {
                cleared += 1;
            } else {
                assert_eq!(partial.data[i][j], square.data[i][j]);
            }
        }
    }
    assert!(cleared > 0);
    assert!(cleared < 400);
}

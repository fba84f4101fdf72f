use latin_squares::local_search::local_search;
use latin_squares::ratio::Ratio;
use latin_squares::square::{Square, SquareItem};

/// The Latin square whose cell at (i, j) holds (i + j) mod n.
fn cyclic(n: usize) -> Square {
    let cells: Vec<Vec<Option<u32>>> = (0..n).map(|i| (0..n).map(|j| Some(((i + j) % n) as u32)).collect()).collect();
    Square::from_cells(&cells, false).unwrap()
}

/// The symbols of the square, sorted.
fn sorted_symbols(square: &Square) -> Vec<Option<u32>> {
    let mut symbols: Vec<Option<u32>> = square.data.iter().flatten().map(|item| item.symbol()).collect();
    symbols.sort();
    symbols
}

#[test]
fn local_search_leaves_a_latin_square_alone() {
    let square = cyclic(6);
    assert_eq!(local_search(&square).data, square.data);
}

#[test]
fn local_search_undoes_one_swap() {
    let mut square = cyclic(4);
    square.swap(1, 0, 1, 3);
    assert_eq!(square.score_square(), 2);
    let found = local_search(&square);
    assert_eq!(found.score_square(), 0);
    assert_eq!(found.data, cyclic(4).data);
}

#[test]
fn local_search_never_costs_more() {
    for n in [2usize, 3, 5, 8] {
        for _ in 0..5 {
            let square = cyclic(n).make_partial(Ratio::new(1, 3).unwrap());
            let before = square.score_square();
            let found = local_search(&square);
            assert!(found.score_square() <= before);
            assert_eq!(sorted_symbols(&found), sorted_symbols(&square));
        }
    }
}

#[test]
fn local_search_does_not_move_a_clue() {
    let mut square = cyclic(4);
    square.swap(1, 0, 1, 3);
    square.set(1, 0, SquareItem::Frozen(0));
    let found = local_search(&square);
    assert_eq!(found.data[1][0], SquareItem::Frozen(0));
    assert!(found.score_square() <= square.score_square());
    for i in 0..4 {
        for j in 0..4 {
            assert_eq!(matches!(found.data[i][j], SquareItem::Frozen(_)), (i, j) == (1, 0));
        }
    }
}

#[test]
fn local_search_on_the_smallest_squares() {
    assert_eq!(local_search(&Square::new(0)).size, 0);
    let one = Square::from_cells(&vec![vec![Some(0)]], false).unwrap();
    assert_eq!(local_search(&one).data, one.data);
}

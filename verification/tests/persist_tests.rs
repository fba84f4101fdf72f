use latin_squares::persist::{number_symbol, read_item, write_item, JsonItem};
use latin_squares::square::{Square, SquareItem};

#[test]
fn reads_a_square_from_json() {
    let square = Square::from_json("[[0,\"Empty\",2],[\"Empty\",\"Empty\",\"Empty\"],[2, 1, 0]]", true).unwrap();
    assert_eq!(square.size, 3);
    assert_eq!(square.data[0], vec![SquareItem::Frozen(0), SquareItem::Empty, SquareItem::Frozen(2)]);
    assert_eq!(square.data[1], vec![SquareItem::Empty, SquareItem::Empty, SquareItem::Empty]);
    assert_eq!(square.data[2], vec![SquareItem::Frozen(2), SquareItem::Frozen(1), SquareItem::Frozen(0)]);
    let placed = Square::from_json("[[1,0],[0,1]]", false).unwrap();
    assert_eq!(placed.data[0], vec![SquareItem::Treatment(1), SquareItem::Treatment(0)]);
    assert_eq!(placed.score_square(), 0);
}

#[test]
fn writes_a_square_as_json() {
    let mut square = Square::new(2);
    square.set(0, 0, SquareItem::Treatment(1));
    square.set(1, 1, SquareItem::Frozen(0));
    assert_eq!(square.to_json(), "[[1,\"Empty\"],[\"Empty\",0]]");
    assert_eq!(Square::new(0).to_json(), "[]");
}

#[test]
fn json_round_trip_keeps_the_symbols() {
    let cells = vec![vec![Some(0), None, Some(2)], vec![None, Some(1), None], vec![Some(2), Some(0), Some(1)]];
    let square = Square::from_cells(&cells, false).unwrap();
    let back = Square::from_json(&square.to_json(), false).unwrap();
    assert_eq!(back.data, square.data);
    let clues = Square::from_json(&square.to_json(), true).unwrap();
    assert_eq!(clues.to_cells(), cells);
}

#[test]
fn refuses_what_is_no_json() {
    assert!(Square::from_json("[[0,1],[1,0]", true).is_none());
    assert!(Square::from_json("no square at all", true).is_none());
    assert!(Square::from_json("", true).is_none());
}

#[test]
fn refuses_what_is_not_square() {
    assert!(Square::from_json("[[0,1],[1]]", true).is_none());
    assert!(Square::from_json("[[0,1]]", true).is_none());
    assert!(Square::from_json("[[0],[0]]", true).is_none());
    assert!(Square::from_json("[0]", true).is_none());
}

#[test]
fn refuses_a_cell_that_is_neither_symbol_nor_empty() {
    assert!(Square::from_json("[[0,true],[1,0]]", true).is_none());
    assert!(Square::from_json("[[0,null],[1,0]]", true).is_none());
    assert!(Square::from_json("[[0,\"empty\"],[1,0]]", true).is_none());
    assert!(Square::from_json("[[0,\"A longer text than a short one can hold\"],[1,0]]", true).is_none());
    assert!(Square::from_json("[[0,-1],[1,0]]", true).is_none());
    assert!(Square::from_json("[[0,0.5],[1,0]]", true).is_none());
    assert!(Square::from_json("[[0,[1]],[1,0]]", true).is_none());
}

#[test]
fn refuses_a_symbol_out_of_range() {
    assert!(Square::from_json("[[0,2],[1,0]]", true).is_none());
    assert!(Square::from_json("[[1]]", true).is_none());
    assert!(Square::from_json("[[0]]", true).is_some());
}

#[test]
fn takes_whole_numbers_however_written() {
    let square = Square::from_json("[[1.0,0e0],[0.0,1e0]]", false).unwrap();
    assert_eq!(square.to_cells(), vec![vec![Some(1), Some(0)], vec![Some(0), Some(1)]]);
}

#[test]
fn number_symbol_reads_the_parts() {
    assert_eq!(number_symbol(true, 12, 0), Some(12));
    assert_eq!(number_symbol(true, 12, 2), Some(1200));
    assert_eq!(number_symbol(true, 1200, -2), Some(12));
    assert_eq!(number_symbol(true, 125, -1), None);
    assert_eq!(number_symbol(false, 3, 0), None);
    assert_eq!(number_symbol(false, 0, 0), Some(0));
    assert_eq!(number_symbol(true, 0, -7), Some(0));
    assert_eq!(number_symbol(true, 5, 10), None);
    assert_eq!(number_symbol(true, 4294967295, 0), Some(u32::MAX));
    assert_eq!(number_symbol(true, 4294967296, 0), None);
    assert_eq!(number_symbol(true, 42949672950, -1), Some(u32::MAX));
    assert_eq!(number_symbol(true, 1, 32767), None);
    assert_eq!(number_symbol(true, 10, -32768), None);
    assert_eq!(number_symbol(true, u64::MAX, 0), None);
}

#[test]
fn items_read_and_written() {
    assert_eq!(read_item(&JsonItem::Text("Empty".to_string())), Some(None));
    assert_eq!(read_item(&JsonItem::Text("Full".to_string())), None);
    assert_eq!(read_item(&JsonItem::Other), None);
    assert_eq!(read_item(&JsonItem::Number { positive: true, mantissa: 7, exponent: 0 }), Some(Some(7)));
    assert_eq!(read_item(&write_item(SquareItem::Frozen(9))), Some(Some(9)));
    assert_eq!(read_item(&write_item(SquareItem::Treatment(3))), Some(Some(3)));
    assert_eq!(read_item(&write_item(SquareItem::Empty)), Some(None));
}

#[test]
fn square_from_items() {
    let rows = vec![
        vec![JsonItem::Number { positive: true, mantissa: 1, exponent: 0 }, JsonItem::Text("Empty".to_string())],
        vec![JsonItem::Text("Empty".to_string()), JsonItem::Number { positive: true, mantissa: 10, exponent: -1 }],
    ];
    let square = Square::from_items(&rows, true).unwrap();
    assert_eq!(square.to_cells(), vec![vec![Some(1), None], vec![None, Some(1)]]);
    let rows = vec![vec![JsonItem::Other]];
    assert!(Square::from_items(&rows, true).is_none());
}

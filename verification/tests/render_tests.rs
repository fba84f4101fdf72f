use latin_squares::square::{Square, SquareItem};

#[test]
fn renders_symbols_in_two_digits_and_empty_cells_as_dots() {
    let mut square = Square::new(2);
    square.set(0, 0, SquareItem::Treatment(1));
    square.set(1, 1, SquareItem::Frozen(0));
    assert_eq!(square.render(), "01  . \n\n . 00 \n\n");
}

#[test]
fn renders_every_digit_of_a_symbol() {
    let mut square = Square::new(124);
    for (i, value) in [0u32, 9, 10, 45, 67, 89, 99, 100, 123].iter().enumerate() {
        square.set(0, i, SquareItem::Treatment(*value));
    }
    let text = square.render();
    assert!(text.starts_with("00 09 10 45 67 89 99 100 123  .  . "));
    assert_eq!(text.lines().count(), 2 * 124);
    assert_eq!(text.len(), 123 * (3 * 124 + 2) + (3 * 124 + 2 + 2));
}

#[test]
fn renders_nothing_for_no_rows() {
    assert_eq!(Square::new(0).render(), "");
}

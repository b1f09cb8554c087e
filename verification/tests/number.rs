use sudoku::number::Number;
use sudoku::smart_backtrack::Coord;

#[test]
fn digit_conversions_round_trip() {
    assert_eq!(Number::Seven.to_u8(), 7);
    assert_eq!(Number::from_u8(7), Some(Number::Seven));
    assert_eq!(Number::from_u8(0), None);
    assert_eq!(Number::from_u8(10), None);
    assert_eq!(Number::from_char('9'), Some(Number::Nine));
    assert_eq!(Number::from_char('0'), None);
    assert_eq!(Number::from_char('x'), None);
    assert_eq!(Number::Three.to_char(), '3');
}

#[test]
fn normalize_clamps_to_the_digit_range() {
    assert_eq!(Number::from_u8_normalize(0), Number::One);
    assert_eq!(Number::from_u8_normalize(5), Number::Five);
    assert_eq!(Number::from_u8_normalize(200), Number::Nine);
}

#[test]
fn coord_derives_row_col_and_box() {
    let c = Coord::from_row_col(4, 7);
    assert_eq!(c.parent_row(), 4);
    assert_eq!(c.parent_col(), 7);
    // row band 1, column band 2.
    assert_eq!(c.parent_box(), 5);

    let c = Coord::from_row_col(0, 0);
    assert_eq!(c.parent_box(), 0);
    assert_eq!(c.next(), Some(Coord::from_row_col(0, 1)));

    // Out-of-range row and column indices clamp to 8.
    let c = Coord::from_row_col(12, 200);
    assert_eq!(c.parent_row(), 8);
    assert_eq!(c.parent_col(), 8);
    assert_eq!(c.next(), None);
}

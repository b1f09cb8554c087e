use sudoku::number::Number;
use sudoku::possible_nums::PossibleNums;
use sudoku::smart_backtrack::{
    box_coords, col_coords, house_is_ok, normalize_index, prune_house, row_coords, Cell, Coord,
    Grid,
};

/// A classic solvable puzzle: 27 hints of a complete grid.
const OK: &str = ",1,,,6,,,9,\n5,,,8,,,3,,\n,,4,,,2,,,7\n,2,,,7,,,4,\n6,,,9,,,1,,\n,,8,,,3,,,5\n,3,,,5,,,8,\n7,,,4,,,2,,\n,,9,,,1,,,6";

#[test]
fn smart_backtrack_test_normalize_row() {
    assert_eq!(normalize_index(9), 8);
    assert_eq!(normalize_index(6), 6);
}

#[test]
fn test_from_csv_str() {
    let grid = Grid::from_csv_str(OK);

    assert_eq!(grid.get(Coord::from_row_col(3, 7)), Cell::Fixed(Number::Four));
    assert_eq!(grid.get(Coord::from_row_col(6, 1)), Cell::Fixed(Number::Three));
}

#[test]
fn smart_backtrack_test_house_is_ok() {
    let ok = vec![
        Cell::Fixed(Number::One),
        Cell::Fixed(Number::Two),
        Cell::Fixed(Number::Three),
        Cell::Fixed(Number::Four),
        Cell::Fixed(Number::Five),
        Cell::Fixed(Number::Six),
        Cell::Fixed(Number::Seven),
        Cell::Fixed(Number::Eight),
        Cell::Fixed(Number::Nine),
    ];

    let bad = vec![
        Cell::Fixed(Number::One),
        Cell::init_empty(),
        Cell::init_empty(),
        Cell::Fixed(Number::Five),
        Cell::init_empty(),
        Cell::init_empty(),
        Cell::init_empty(),
        Cell::Fixed(Number::Two),
        Cell::Fixed(Number::Two),
    ];

    assert_eq!(house_is_ok(&ok), true);
    assert_eq!(house_is_ok(&bad), false);
}

#[test]
fn smart_backtrack_test_prune_house() {
    let mut house = vec![
        Cell::Fixed(Number::One),
        Cell::Fixed(Number::Two),
        Cell::Fixed(Number::Three),
        Cell::init_empty(),
        Cell::init_empty(),
        Cell::init_empty(),
        Cell::init_empty(),
        Cell::init_empty(),
        Cell::init_empty(),
    ];

    prune_house(&mut house);

    let mut expected_possible = PossibleNums::all();
    expected_possible.remove(Number::One);
    expected_possible.remove(Number::Two);
    expected_possible.remove(Number::Three);

    assert_eq!(house[0], Cell::Fixed(Number::One));
    assert_eq!(house[1], Cell::Fixed(Number::Two));
    assert_eq!(house[2], Cell::Fixed(Number::Three));
    assert_eq!(house[3], Cell::Empty(expected_possible));
    assert_eq!(house[4], Cell::Empty(expected_possible));
    assert_eq!(house[5], Cell::Empty(expected_possible));
    assert_eq!(house[6], Cell::Empty(expected_possible));
    assert_eq!(house[7], Cell::Empty(expected_possible));
    assert_eq!(house[8], Cell::Empty(expected_possible));
}

#[test]
fn test_row_coords() {
    let coords = row_coords(3);
    assert_eq!(coords[0], Coord::from_row_col(3, 0));
    assert_eq!(coords[8], Coord::from_row_col(3, 8));
}

#[test]
fn test_col_coords() {
    let coords = col_coords(3);
    assert_eq!(coords[0], Coord::from_row_col(0, 3));
    assert_eq!(coords[8], Coord::from_row_col(8, 3));
}

#[test]
fn test_box_coords() {
    let coords = box_coords(2);
    assert_eq!(coords[0], Coord::from_row_col(0, 6));
    assert_eq!(coords[8], Coord::from_row_col(2, 8));
}

use sudoku::number::Number;
use sudoku::possible_nums::PossibleNums;
use sudoku::solve::{house_is_ok, normalize_index, prune_house, Cell};

#[test]
fn solve_test_normalize_row() {
    assert_eq!(normalize_index(9), 8);
    assert_eq!(normalize_index(6), 6);
}

#[test]
fn solve_test_house_is_ok() {
    let ok = vec![
        Cell::Fixed(Number::One),
        Cell::Fixed(Number::Two),
        Cell::Fixed(Number::Three),
        Cell::Fixed(Number::Four),
        Cell::Fixed(Number::Five),
        Cell::Fixed(Number::Six),
        Cell::Fixed(Number::Seven),
        Cell::Fixed(Number::Eight),
        Cell::Fixed(Number::Nine),
    ];

    let bad = vec![
        Cell::Fixed(Number::One),
        Cell::Fixed(Number::Two),
        Cell::Fixed(Number::Two),
        Cell::init_empty(),
        Cell::init_empty(),
        Cell::init_empty(),
        Cell::init_empty(),
        Cell::init_empty(),
        Cell::init_empty(),
    ];

    assert_eq!(house_is_ok(&ok), true);
    assert_eq!(house_is_ok(&bad), false);
}

#[test]
fn solve_test_prune_house() {
    let mut house = vec![
        Cell::Fixed(Number::One),
        Cell::Fixed(Number::Two),
        Cell::Fixed(Number::Three),
        Cell::init_empty(),
        Cell::init_empty(),
        Cell::init_empty(),
        Cell::init_empty(),
        Cell::init_empty(),
        Cell::init_empty(),
    ];

    prune_house(&mut house);

    let mut expected_possible = PossibleNums::all();
    expected_possible.remove(Number::One);
    expected_possible.remove(Number::Two);
    expected_possible.remove(Number::Three);

    assert_eq!(house[0], Cell::Fixed(Number::One));
    assert_eq!(house[1], Cell::Fixed(Number::Two));
    assert_eq!(house[2], Cell::Fixed(Number::Three));
    assert_eq!(house[3], Cell::Empty(expected_possible));
    assert_eq!(house[4], Cell::Empty(expected_possible));
    assert_eq!(house[5], Cell::Empty(expected_possible));
    assert_eq!(house[6], Cell::Empty(expected_possible));
    assert_eq!(house[7], Cell::Empty(expected_possible));
    assert_eq!(house[8], Cell::Empty(expected_possible));
}

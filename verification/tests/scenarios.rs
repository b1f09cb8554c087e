use sudoku::number::Number;
use sudoku::possible_nums::PossibleNums;
use sudoku::smart_backtrack::{prune_house, Cell, Coord, Grid, SolveError};

/// A complete, legal grid.
const COMPLETE: &str = "3,1,2,5,6,7,8,9,4\n5,6,7,8,9,4,3,1,2\n8,9,4,3,1,2,5,6,7\n1,2,3,6,7,5,9,4,8\n6,7,5,9,4,8,1,2,3\n9,4,8,1,2,3,6,7,5\n2,3,1,7,5,6,4,8,9\n7,5,6,4,8,9,2,3,1\n4,8,9,2,3,1,7,5,6";

/// The same grid with 27 hints kept: the classic solvable puzzle.
const OK: &str = ",1,,,6,,,9,\n5,,,8,,,3,,\n,,4,,,2,,,7\n,2,,,7,,,4,\n6,,,9,,,1,,\n,,8,,,3,,,5\n,3,,,5,,,8,\n7,,,4,,,2,,\n,,9,,,1,,,6";

/// A digit 5 fixed twice in row 0.
const DUPLICATE_HINT: &str = "5,5";

/// 16 hints of the complete grid, none conflicting.
const SIXTEEN_HINTS: &str = "3,1,2,5,6,7,8,9,4\n,,,,,,,,\n,,,,,,,,\n,,,,,,,,\n6,7,5,9,4,8,1,,\n,,,,,,,,\n,,,,,,,,\n,,,,,,,,\n,,,,,,,,";

/// Legal and hint-rich, yet box 0 can never receive 7, 8 and 9: they
/// already stand in row 2.
const UNSOLVABLE: &str = "1,2,3,4,5,6,7,8,9\n4,5,6,,,,,,\n,,,7,8,9,,,\n,,,,,,,,\n,,,,,,,,\n,,,,,,,,\n,,,,,,,,\n,,,,,,,,\n9,8,7,3,2,1,6,5,4";

fn grid_is_fully_fixed(grid: &Grid) -> bool {
    for row in 0..9u8 {
        for col in 0..9u8 {
            match grid.get(Coord::from_row_col(row, col)) {
                Cell::Fixed(_) => {}
                Cell::Empty(_) => return false,
            }
        }
    }
    true
}

fn grid_is_legal(grid: &Grid) -> bool {
    grid.is_legal()
}

#[test]
fn already_solved_grid_is_returned_unchanged() {
    let mut grid = Grid::from_csv_str(COMPLETE);
    let original = grid.clone();
    assert!(grid.solve().is_ok());
    assert_eq!(grid, original);
}

#[test]
fn one_empty_cell_takes_the_unique_digit() {
    // The complete grid with cell (0, 0) left open; 3 is the only digit
    // completing its row, column and box.
    let one_open = &COMPLETE.replacen("3", "", 1);
    let mut grid = Grid::from_csv_str(one_open);
    assert_eq!(grid.get(Coord::from_row_col(0, 0)), Cell::init_empty());
    assert!(grid.solve().is_ok());
    assert_eq!(grid, Grid::from_csv_str(COMPLETE));
}

#[test]
fn classic_puzzle_solves_and_is_sound() {
    let mut grid = Grid::from_csv_str(OK);
    assert!(grid.solve().is_ok());
    assert!(grid_is_fully_fixed(&grid));
    assert!(grid_is_legal(&grid));
}

#[test]
fn classic_puzzle_preserves_hints() {
    let hints = Grid::from_csv_str(OK);
    let mut grid = Grid::from_csv_str(OK);
    assert!(grid.solve().is_ok());
    for row in 0..9u8 {
        for col in 0..9u8 {
            let c = Coord::from_row_col(row, col);
            if let Cell::Fixed(num) = hints.get(c) {
                assert_eq!(grid.get(c), Cell::Fixed(num));
            }
        }
    }
}

#[test]
fn solving_twice_yields_byte_identical_solutions() {
    let mut first = Grid::from_csv_str(OK);
    let mut second = Grid::from_csv_str(OK);
    assert!(first.solve().is_ok());
    assert!(second.solve().is_ok());
    assert_eq!(first.pretty_print(), second.pretty_print());
    assert_eq!(first, second);
}

#[test]
fn duplicate_hint_is_rejected_as_illegal() {
    let mut grid = Grid::from_csv_str(DUPLICATE_HINT);
    assert!(matches!(grid.solve(), Err(SolveError::IllegalPuzzle)));
}

#[test]
fn sixteen_hints_are_too_few() {
    let mut grid = Grid::from_csv_str(SIXTEEN_HINTS);
    assert!(matches!(grid.solve(), Err(SolveError::TooFewHints)));
}

#[test]
fn unsolvable_but_legal_grid_reports_no_solution() {
    let mut grid = Grid::from_csv_str(UNSOLVABLE);
    let before = grid.clone();
    assert!(matches!(grid.solve(), Err(SolveError::NoSolutionFound)));
    // On failure the caller's grid is unchanged.
    assert_eq!(grid, before);
}

#[test]
fn parser_accepts_any_text() {
    let grid = Grid::from_csv_str("x,?!,\n\n,,###,12");
    // The field "12" fixes a 1: the first character decides.
    assert_eq!(grid.get(Coord::from_row_col(0, 7)), Cell::Fixed(Number::One));
}

#[test]
fn empty_input_gives_81_open_cells_with_full_candidates() {
    let grid = Grid::from_csv_str("");
    for row in 0..9u8 {
        for col in 0..9u8 {
            let cell = grid.get(Coord::from_row_col(row, col));
            assert_eq!(cell, Cell::Empty(PossibleNums::all()));
        }
    }
}

#[test]
fn remove_is_idempotent() {
    let mut once = PossibleNums::all();
    once.remove(Number::Five);
    let mut twice = once;
    twice.remove(Number::Five);
    assert_eq!(once, twice);
}

#[test]
fn prune_house_promotes_forced_singleton() {
    let mut house = vec![
        Cell::Fixed(Number::One),
        Cell::Fixed(Number::Two),
        Cell::Fixed(Number::Three),
        Cell::Fixed(Number::Four),
        Cell::Fixed(Number::Five),
        Cell::Fixed(Number::Six),
        Cell::Fixed(Number::Seven),
        Cell::Fixed(Number::Eight),
        Cell::init_empty(),
    ];
    prune_house(&mut house);
    assert_eq!(house[8], Cell::Fixed(Number::Nine));
}

#[test]
fn prune_never_loses_fixed_cells() {
    let hints = Grid::from_csv_str(OK);
    let mut grid = Grid::from_csv_str(OK);
    grid.prune();
    let mut fixed_before = 0;
    let mut fixed_after = 0;
    for row in 0..9u8 {
        for col in 0..9u8 {
            let c = Coord::from_row_col(row, col);
            if let Cell::Fixed(num) = hints.get(c) {
                fixed_before += 1;
                assert_eq!(grid.get(c), Cell::Fixed(num));
            }
            if let Cell::Fixed(_) = grid.get(c) {
                fixed_after += 1;
            }
        }
    }
    assert!(fixed_after >= fixed_before);
}

#[test]
fn renderer_draws_digits_and_spaces() {
    let grid = Grid::from_csv_str(COMPLETE);
    let drawn = grid.pretty_print();
    assert!(drawn.starts_with("┏"));
    assert!(drawn.ends_with("┛"));
    assert!(drawn.contains("┃ 3 │ 1 │ 2 ┃ 5 │ 6 │ 7 ┃ 8 │ 9 │ 4 ┃"));
    let empty = Grid::from_csv_str("");
    assert!(empty.pretty_print().contains("┃   │   │   ┃   │   │   ┃   │   │   ┃"));
}

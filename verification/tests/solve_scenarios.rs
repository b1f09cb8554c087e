use sudoku::solve::{Grid, GridParseError, SolveError};

/// The complete grid with 54 hints kept: an easy puzzle for the plain
/// backtracking variant, which does no pruning.
const EASY: &str = "3,,2,5,,7,8,,4\n,6,7,,9,4,,1,2\n8,9,,3,1,,5,6,\n1,,3,6,,5,9,,8\n,7,5,,4,8,,2,3\n9,4,,1,2,,6,7,\n2,,1,7,,6,4,,9\n,5,6,,8,9,,3,1\n4,8,,2,3,,7,5,";

const DUPLICATE_HINT: &str = "5,5,,,,,,,\n,,,,,,,,\n,,,,,,,,\n1,2,3,4,5,6,7,8,9\n,,,,,,,,\n4,5,6,7,8,9,1,2,3\n,,,,,,,,\n,,,,,,,,\n,,,,,,,,";

const SIXTEEN_HINTS: &str = "3,1,2,5,6,7,8,9,4\n,,,,,,,,\n,,,,,,,,\n,,,,,,,,\n6,7,5,9,4,8,1,,\n,,,,,,,,\n,,,,,,,,\n,,,,,,,,\n,,,,,,,,";

#[test]
fn validated_puzzle_solves_to_a_legal_grid() {
    let grid = Grid::from_csv_str(EASY).unwrap();
    let solution = grid.solve().unwrap();
    assert!(solution.is_legal());
    let drawn = solution.pretty_print();
    // A solved grid renders no open cell: every cell slot shows a digit.
    assert!(!drawn.contains("│   │"));
}

#[test]
fn parser_rejects_duplicate_hint() {
    assert!(matches!(
        Grid::from_csv_str(DUPLICATE_HINT),
        Err(GridParseError::IllegalPuzzle)
    ));
}

#[test]
fn parser_rejects_too_few_hints() {
    assert!(matches!(
        Grid::from_csv_str(SIXTEEN_HINTS),
        Err(GridParseError::TooFewHints)
    ));
}

#[test]
fn unsolvable_legal_grid_reports_no_solution() {
    // Box 0 can never receive 7, 8 and 9: they already stand in row 2.
    let text = "1,2,3,4,5,6,7,8,9\n4,5,6,,,,,,\n,,,7,8,9,,,\n,,,,,,,,\n,,,,,,,,\n,,,,,,,,\n,,,,,,,,\n,,,,,,,,\n9,8,7,3,2,1,6,5,4";
    let grid = Grid::from_csv_str(text).unwrap();
    assert!(matches!(grid.solve(), Err(SolveError::NoSolutionFound)));
}

#[test]
fn solve_consumes_and_extends_the_hints() {
    let grid = Grid::from_csv_str(EASY).unwrap();
    let before = grid.pretty_print();
    let solution = grid.solve().unwrap();
    let after = solution.pretty_print();
    // Every drawn digit of the puzzle reappears at the same offset.
    for (b, a) in before.chars().zip(after.chars()) {
        if b.is_ascii_digit() {
            assert_eq!(b, a);
        }
    }
}

//! A 9×9 Sudoku solver: a constraint-propagation ("pruning") engine
//! coupled with depth-first backtracking search over a compact grid
//! representation.
//!
//! `smart_backtrack` holds the main solver: per-cell candidate sets kept
//! as 9-bit masks, pruned to a fixed point and maintained incrementally
//! during the search. `solve` holds a plainer variant that validates at
//! parse time and searches with whole-board legality checks and no
//! pruning. `number`, `possible_nums` and `csv` hold the digit type, the
//! candidate-set type and the field-splitting of textual input that both
//! solvers share.

pub mod number;
pub mod csv;
pub mod possible_nums;
pub mod smart_backtrack;
pub mod solve;

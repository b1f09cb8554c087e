use vstd::prelude::*;
use crate::number::Number;
use crate::possible_nums::{
    PossibleNums, count9, digit_of, has_bit, lemma_remaining_len, lemma_remove_all_has_bit,
    lemma_remove_all_props, lemma_shift_values, lemma_singleton_digit, remaining_digits,
    remove_all, singleton_digit, subset9,
};

verus! {

/// One position of the board: a digit already decided, or the set of
/// digits still possible there.
#[derive(Clone, Copy, Debug, PartialEq, Eq, Hash, Structural)]
pub enum Cell {
    Fixed(Number),
    Empty(PossibleNums),
}

impl Cell {
    /// An open cell with every digit possible.
    pub open spec fn spec_empty() -> Cell {
        Cell::Empty(PossibleNums { bits: 0x1ff })
    }

    pub open spec fn spec_from_char(c: char) -> Cell {
        match Number::spec_from_char(c) {
            Some(n) => Cell::Fixed(n),
            None => Cell::spec_empty(),
        }
    }

    /// The character a cell renders as.
    pub open spec fn spec_char(self) -> char {
        match self {
            Cell::Fixed(n) => n.as_char(),
            Cell::Empty(_) => ' ',
        }
    }

    pub open spec fn wf(self) -> bool {
        match self {
            Cell::Fixed(_) => true,
            Cell::Empty(s) => s.wf(),
        }
    }

    pub fn from_char(c: char) -> (r: Cell)
        ensures
            r == Cell::spec_from_char(c),
            r.wf(),
    {
        match Number::from_char(c) {
            Some(num) => Cell::Fixed(num),
            None => Self::init_empty(),
        }
    }

    pub fn to_char(self: &Self) -> (r: char)
        ensures
            r == self.spec_char(),
    {
        match self {
            Cell::Fixed(num) => num.to_char(),
            Cell::Empty(_) => ' ',
        }
    }

    pub fn init_empty() -> (r: Cell)
        ensures
            r == Cell::spec_empty(),
            r.wf(),
    {
        Cell::Empty(PossibleNums::all())
    }
}

/// `x` clamped to the house range 0..=8.
pub open spec fn clamp8(x: u8) -> int {
    if x > 8 {
        8
    } else {
        x as int
    }
}

/// Represents a coordinate on the grid: a cell index in 0..=80.
#[derive(Debug, PartialEq, Eq, Clone, Copy, Structural)]
pub struct Coord {
    index: u8,
}

impl Coord {
    pub closed spec fn wf(self) -> bool {
        self.index < 81
    }

    /// The linear index, row-major.
    pub closed spec fn idx(self) -> int {
        self.index as int
    }

    /// The coordinate of the top-left cell, where the search starts.
    pub fn first() -> (c: Coord)
        ensures
            c.wf(),
            c.idx() == 0,
    {
        Coord { index: 0 }
    }

    pub fn from_row_col(row: u8, col: u8) -> (c: Coord)
        ensures
            c.wf(),
            c.idx() == clamp8(row) * 9 + clamp8(col),
    {
        Coord { index: normalize_index(row) * 9 + normalize_index(col) }
    }

    /// The row that contains this cell, numbered from 0 to 8.
    pub fn parent_row(&self) -> (r: u8)
        requires
            self.wf(),
        ensures
            r == self.idx() / 9,
            r < 9,
    {
        self.index / 9
    }

    /// The column that contains this cell, numbered from 0 to 8.
    pub fn parent_col(&self) -> (r: u8)
        requires
            self.wf(),
        ensures
            r == self.idx() % 9,
            r < 9,
    {
        self.index % 9
    }

    /// The box that contains this cell, numbered from 0 to 8.
    pub fn parent_box(&self) -> (r: u8)
        requires
            self.wf(),
        ensures
            r == (self.idx() / 9 / 3) * 3 + (self.idx() % 9) / 3,
            r < 9,
    {
        let row = self.parent_row();
        let col = self.parent_col();
        (row / 3) * 3 + (col / 3)
    }

    pub fn next(self: &Self) -> (r: Option<Self>)
        requires
            self.wf(),
        ensures
            self.idx() < 80 ==> (r matches Some(c) && c.wf() && c.idx() == self.idx() + 1),
            self.idx() >= 80 ==> r is None,
    {
        if self.index < 80 {
            Some(Self { index: self.index + 1 })
        } else {
            None
        }
    }
}

pub fn normalize_index(index: u8) -> (r: u8)
    ensures
        r == clamp8(index),
        r <= 8,
{
    if index > 8 {
        8
    } else {
        index
    }
}

/// The linear index of cell `j` of row `h`.
pub open spec fn row_idx(h: int, j: int) -> int {
    h * 9 + j
}

/// The linear index of cell `j` of column `h`.
pub open spec fn col_idx(h: int, j: int) -> int {
    j * 9 + h
}

/// The linear index of cell `j` of box `h`, row-major within the box.
pub open spec fn box_idx(h: int, j: int) -> int {
    ((h / 3) * 3 + j / 3) * 9 + (h % 3) * 3 + j % 3
}

pub open spec fn row_seq(g: Seq<Cell>, h: int) -> Seq<Cell> {
    Seq::new(9, |j: int| g[row_idx(h, j)])
}

pub open spec fn col_seq(g: Seq<Cell>, h: int) -> Seq<Cell> {
    Seq::new(9, |j: int| g[col_idx(h, j)])
}

pub open spec fn box_seq(g: Seq<Cell>, h: int) -> Seq<Cell> {
    Seq::new(9, |j: int| g[box_idx(h, j)])
}

/// No fixed digit repeats within the house.
pub open spec fn house_ok(h: Seq<Cell>) -> bool {
    forall|i: int, j: int| 0 <= i < j < h.len() ==> !(h[i] is Fixed && h[i] == h[j])
}

/// Every row, column and box of the grid is free of repeated fixed digits.
pub open spec fn legal(g: Seq<Cell>) -> bool {
    forall|h: int|
        0 <= h < 9 ==> house_ok(#[trigger] row_seq(g, h)) && house_ok(col_seq(g, h)) && house_ok(
            box_seq(g, h),
        )
}

/// How many cells of the grid are fixed.
pub open spec fn count_fixed(g: Seq<Cell>) -> int
    decreases g.len(),
{
    if g.len() == 0 {
        0
    } else {
        count_fixed(g.drop_last()) + if g.last() is Fixed {
            1int
        } else {
            0int
        }
    }
}

pub open spec fn all_fixed(g: Seq<Cell>) -> bool {
    forall|i: int| 0 <= i < g.len() ==> g[i] is Fixed
}

/// Every fixed cell of `a` is fixed to the same digit in `b`.
pub open spec fn extends(a: Seq<Cell>, b: Seq<Cell>) -> bool {
    a.len() == b.len() && forall|i: int| 0 <= i < a.len() && a[i] is Fixed ==> b[i] == a[i]
}

/// How one cell may change under pruning or search: stay as it is, lose
/// candidates, or become fixed to one of its candidates.
pub open spec fn cell_evolves(a: Cell, b: Cell) -> bool {
    ||| b == a
    ||| match a {
        Cell::Empty(s) => match b {
            Cell::Empty(s2) => subset9(s2.bits, s.bits) && count9(s2.bits) < count9(s.bits),
            Cell::Fixed(n) => s.contains(n),
        },
        Cell::Fixed(_) => false,
    }
}

pub open spec fn evolves(a: Seq<Cell>, b: Seq<Cell>) -> bool {
    a.len() == b.len() && forall|i: int|
        0 <= i < a.len() ==> cell_evolves(#[trigger] a[i], #[trigger] b[i])
}

/// The termination measure of pruning: open cells weigh one more than
/// their candidate count, fixed cells weigh nothing.
pub open spec fn cell_weight(c: Cell) -> int {
    match c {
        Cell::Fixed(_) => 0,
        Cell::Empty(s) => count9(s.bits) + 1,
    }
}

pub open spec fn cells_weight(g: Seq<Cell>) -> int
    decreases g.len(),
{
    if g.len() == 0 {
        0
    } else {
        cells_weight(g.drop_last()) + cell_weight(g.last())
    }
}

pub proof fn lemma_evolves_trans(a: Seq<Cell>, b: Seq<Cell>, c: Seq<Cell>)
    requires
        evolves(a, b),
        evolves(b, c),
    ensures
        evolves(a, c),
{
    assert forall|i: int| 0 <= i < a.len() implies cell_evolves(#[trigger] a[i], #[trigger] c[i]) by {
        assert(cell_evolves(a[i], b[i]));
        assert(cell_evolves(b[i], c[i]));
    }
}

/// Cells only gain information: what is fixed stays fixed, so pruning and
/// search preserve every hint of the input.
pub proof fn lemma_evolves_extends(a: Seq<Cell>, b: Seq<Cell>)
    requires
        evolves(a, b),
    ensures
        extends(a, b),
{
    assert forall|i: int| 0 <= i < a.len() && a[i] is Fixed implies b[i] == a[i] by {
        assert(cell_evolves(a[i], b[i]));
    }
}

/// The count of fixed cells never goes down along a solve path.
pub proof fn lemma_extends_count_fixed(a: Seq<Cell>, b: Seq<Cell>)
    requires
        extends(a, b),
    ensures
        count_fixed(a) <= count_fixed(b),
    decreases a.len(),
{
    if a.len() > 0 {
        assert(extends(a.drop_last(), b.drop_last()));
        lemma_extends_count_fixed(a.drop_last(), b.drop_last());
        assert(a.last() is Fixed ==> b.last() == a.last());
    }
}

proof fn lemma_cell_evolves_weight(a: Cell, b: Cell)
    requires
        cell_evolves(a, b),
    ensures
        cell_weight(b) <= cell_weight(a),
        a != b ==> cell_weight(b) < cell_weight(a),
{
}

pub proof fn lemma_cells_weight_nonneg(g: Seq<Cell>)
    ensures
        cells_weight(g) >= 0,
    decreases g.len(),
{
    if g.len() > 0 {
        lemma_cells_weight_nonneg(g.drop_last());
    }
}

/// A changed grid weighs strictly less: the argument that the pruning
/// fixed point is reached in bounded steps.
pub proof fn lemma_evolves_weight(a: Seq<Cell>, b: Seq<Cell>)
    requires
        evolves(a, b),
    ensures
        cells_weight(b) <= cells_weight(a),
        a != b ==> cells_weight(b) < cells_weight(a),
    decreases a.len(),
{
    if a.len() == 0 {
        assert(a =~= b);
    } else {
        assert(evolves(a.drop_last(), b.drop_last()));
        lemma_evolves_weight(a.drop_last(), b.drop_last());
        assert(cell_evolves(a.last(), b.last()));
        lemma_cell_evolves_weight(a.last(), b.last());
        if a != b {
            if a.last() == b.last() && a.drop_last() == b.drop_last() {
                assert forall|i: int| 0 <= i < a.len() implies a[i] == b[i] by {
                    if i < a.len() - 1 {
                        assert(a.drop_last()[i] == a[i]);
                        assert(b.drop_last()[i] == b[i]);
                    }
                }
                assert(a =~= b);
            }
        }
    }
}

/// The digits fixed in a house, in cell order.
pub open spec fn fixed_digits_seq(h: Seq<Cell>) -> Seq<Number>
    decreases h.len(),
{
    if h.len() == 0 {
        Seq::empty()
    } else {
        let rest = fixed_digits_seq(h.drop_last());
        match h.last() {
            Cell::Fixed(n) => rest.push(n),
            Cell::Empty(_) => rest,
        }
    }
}

/// Digit `n` is fixed somewhere in the house.
pub open spec fn fixed_in_house(h: Seq<Cell>, n: Number) -> bool {
    exists|i: int| 0 <= i < h.len() && h[i] == Cell::Fixed(n)
}

pub proof fn lemma_fixed_digits_seq_contains(h: Seq<Cell>, n: Number)
    ensures
        fixed_digits_seq(h).contains(n) <==> fixed_in_house(h, n),
    decreases h.len(),
{
    if h.len() > 0 {
        lemma_fixed_digits_seq_contains(h.drop_last(), n);
        let rest = fixed_digits_seq(h.drop_last());
        let s = fixed_digits_seq(h);
        assert(s.contains(n) <==> (rest.contains(n) || h.last() == Cell::Fixed(n))) by {
            if rest.contains(n) {
                let i = choose|i: int| 0 <= i < rest.len() && rest[i] == n;
                assert(s[i] == n);
                assert(s.contains(n));
            }
            match h.last() {
                Cell::Fixed(m) => {
                    if m == n {
                        assert(s[rest.len() as int] == n);
                        assert(s.contains(n));
                    }
                    if s.contains(n) {
                        let i = choose|i: int| 0 <= i < s.len() && s[i] == n;
                        if i < rest.len() {
                            assert(rest[i] == n);
                            assert(rest.contains(n));
                        }
                    }
                },
                Cell::Empty(_) => {
                    assert(s == rest);
                },
            }
        }
        assert(fixed_in_house(h, n) <==> (fixed_in_house(h.drop_last(), n) || h.last()
            == Cell::Fixed(n))) by {
            if fixed_in_house(h.drop_last(), n) {
                let i = choose|i: int|
                    0 <= i < h.len() - 1 && h.drop_last()[i] == Cell::Fixed(n);
                assert(h[i] == Cell::Fixed(n));
            }
            if h.last() == Cell::Fixed(n) {
                assert(h[h.len() - 1] == Cell::Fixed(n));
            }
            if fixed_in_house(h, n) {
                let i = choose|i: int| 0 <= i < h.len() && h[i] == Cell::Fixed(n);
                if i < h.len() - 1 {
                    assert(h.drop_last()[i] == Cell::Fixed(n));
                }
            }
        }
    }
}

/// What one pass of `prune_house` makes of a cell: a fixed cell is kept;
/// an open cell loses every digit fixed in the house and is promoted if
/// one digit remains.
pub open spec fn spec_prune_cell(c: Cell, h: Seq<Cell>) -> Cell {
    match c {
        Cell::Fixed(_) => c,
        Cell::Empty(s) => {
            let b2 = remove_all(s.bits, fixed_digits_seq(h));
            match singleton_digit(b2) {
                Some(n) => Cell::Fixed(n),
                None => Cell::Empty(PossibleNums { bits: b2 }),
            }
        },
    }
}

/// What one pass of `prune_house` makes of a whole house.
pub open spec fn spec_prune_house(h: Seq<Cell>) -> Seq<Cell> {
    Seq::new(9, |i: int| spec_prune_cell(h[i], h))
}

/// The cells of `g` at the given positions, in order.
pub open spec fn extract(g: Seq<Cell>, idxs: Seq<int>) -> Seq<Cell> {
    Seq::new(idxs.len(), |j: int| g[idxs[j]])
}

/// `g` with position `idxs[j]` replaced by `vals[j]`, first to last.
pub open spec fn write_seq(g: Seq<Cell>, idxs: Seq<int>, vals: Seq<Cell>) -> Seq<Cell>
    decreases idxs.len(),
{
    if idxs.len() == 0 || vals.len() < idxs.len() {
        g
    } else {
        write_seq(g, idxs.drop_last(), vals.drop_last()).update(idxs.last(), vals.last())
    }
}

/// One house of `g`, given by its positions, pruned in place.
pub open spec fn prune_step(g: Seq<Cell>, idxs: Seq<int>) -> Seq<Cell> {
    write_seq(g, idxs, spec_prune_house(extract(g, idxs)))
}

pub open spec fn row_idxs(h: int) -> Seq<int> {
    Seq::new(9, |j: int| row_idx(h, j))
}

pub open spec fn col_idxs(h: int) -> Seq<int> {
    Seq::new(9, |j: int| col_idx(h, j))
}

pub open spec fn box_idxs(h: int) -> Seq<int> {
    Seq::new(9, |j: int| box_idx(h, j))
}

/// The first `i` row–column–box triples of one full pruning pass.
pub open spec fn prune_pass_upto(g: Seq<Cell>, i: int) -> Seq<Cell>
    decreases i,
{
    if i <= 0 {
        g
    } else {
        let g1 = prune_pass_upto(g, i - 1);
        let g2 = prune_step(g1, row_idxs(i - 1));
        let g3 = prune_step(g2, col_idxs(i - 1));
        prune_step(g3, box_idxs(i - 1))
    }
}

/// One full pruning pass: row 0, column 0, box 0, … , row 8, column 8,
/// box 8, each house pruned and written back in turn.
pub open spec fn prune_pass(g: Seq<Cell>) -> Seq<Cell> {
    prune_pass_upto(g, 9)
}

/// What `Grid::prune` computes: full passes repeated until one changes
/// nothing.
pub open spec fn spec_prune(g: Seq<Cell>) -> Seq<Cell>
    decreases cells_weight(g),
    when g.len() == 81
    via spec_prune_decreases
{
    let g1 = prune_pass(g);
    if g1 == g {
        g
    } else {
        spec_prune(g1)
    }
}

#[via_fn]
proof fn spec_prune_decreases(g: Seq<Cell>) {
    lemma_cells_weight_nonneg(g);
    lemma_cells_weight_nonneg(prune_pass(g));
    if g.len() == 81 {
        lemma_pass_evolves(g);
        if prune_pass(g) != g {
            lemma_evolves_weight(g, prune_pass(g));
        }
    }
}

/// A pruned cell is the same cell with digits removed, or promoted.
proof fn lemma_spec_prune_cell_evolves(c: Cell, h: Seq<Cell>)
    ensures
        cell_evolves(c, spec_prune_cell(c, h)),
{
    match c {
        Cell::Fixed(_) => {},
        Cell::Empty(s) => {
            let fds = fixed_digits_seq(h);
            let b2 = remove_all(s.bits, fds);
            lemma_remove_all_props(s.bits, fds);
            lemma_singleton_digit(b2);
            match singleton_digit(b2) {
                Some(n) => {
                    let k = (n.as_int() - 1) as u16;
                    assert(has_bit(b2, k)) by {
                        assert(k < 9 && b2 == 1u16 << k ==> b2 & (1u16 << k) != 0) by (bit_vector);
                    }
                    assert(s.contains(n));
                },
                None => {
                    if b2 == s.bits {
                        assert(PossibleNums { bits: b2 } == s);
                    }
                },
            }
        },
    }
}

/// The linear indices of a coordinate sequence.
pub open spec fn coord_idxs(cs: Seq<Coord>) -> Seq<int> {
    Seq::new(cs.len(), |j: int| cs[j].idx())
}

/// House positions: nine distinct places on the board.
pub open spec fn idxs_ok(idxs: Seq<int>) -> bool {
    &&& idxs.len() == 9
    &&& forall|j: int| 0 <= j < 9 ==> 0 <= #[trigger] idxs[j] < 81
    &&& forall|a: int, b: int| 0 <= a < b < 9 ==> idxs[a] != idxs[b]
}

proof fn lemma_write_seq_props(g: Seq<Cell>, idxs: Seq<int>, vals: Seq<Cell>)
    requires
        g.len() == 81,
        vals.len() == idxs.len(),
        idxs.len() <= 9,
        forall|j: int| 0 <= j < idxs.len() ==> 0 <= #[trigger] idxs[j] < 81,
        forall|a: int, b: int| 0 <= a < b < idxs.len() ==> idxs[a] != idxs[b],
    ensures
        write_seq(g, idxs, vals).len() == 81,
        forall|j: int|
            0 <= j < idxs.len() ==> write_seq(g, idxs, vals)[#[trigger] idxs[j]] == vals[j],
        forall|p: int|
            0 <= p < 81 && (forall|j: int| 0 <= j < idxs.len() ==> idxs[j] != p) ==> write_seq(
                g,
                idxs,
                vals,
            )[p] == g[p],
    decreases idxs.len(),
{
    if idxs.len() > 0 {
        lemma_write_seq_props(g, idxs.drop_last(), vals.drop_last());
        let w = write_seq(g, idxs.drop_last(), vals.drop_last());
        assert forall|j: int| 0 <= j < idxs.len() implies write_seq(g, idxs, vals)[
            #[trigger] idxs[j]] == vals[j] by {
            if j < idxs.len() - 1 {
                assert(idxs.drop_last()[j] == idxs[j]);
                assert(vals.drop_last()[j] == vals[j]);
                assert(idxs[j] != idxs.last());
            }
        }
        assert forall|p: int|
            0 <= p < 81 && (forall|j: int|
                0 <= j < idxs.len() ==> idxs[j] != p) implies write_seq(g, idxs, vals)[p]
            == g[p] by {
            assert(forall|j: int| 0 <= j < idxs.len() - 1 ==> idxs.drop_last()[j] != p);
        }
    }
}

proof fn lemma_prune_step_evolves(g: Seq<Cell>, idxs: Seq<int>)
    requires
        g.len() == 81,
        idxs_ok(idxs),
    ensures
        evolves(g, prune_step(g, idxs)),
{
    let h = extract(g, idxs);
    let vals = spec_prune_house(h);
    lemma_write_seq_props(g, idxs, vals);
    assert forall|p: int| 0 <= p < 81 implies cell_evolves(
        #[trigger] g[p],
        #[trigger] prune_step(g, idxs)[p],
    ) by {
        if exists|j: int| 0 <= j < 9 && idxs[j] == p {
            let j = choose|j: int| 0 <= j < 9 && idxs[j] == p;
            assert(prune_step(g, idxs)[p] == vals[j]);
            assert(vals[j] == spec_prune_cell(h[j], h));
            assert(h[j] == g[p]);
            lemma_spec_prune_cell_evolves(h[j], h);
        } else {
            assert(prune_step(g, idxs)[p] == g[p]);
        }
    }
}

proof fn lemma_house_idxs_ok(h: int)
    requires
        0 <= h < 9,
    ensures
        idxs_ok(row_idxs(h)),
        idxs_ok(col_idxs(h)),
        idxs_ok(box_idxs(h)),
{
    assert forall|a: int, b: int| 0 <= a < b < 9 implies box_idxs(h)[a] != box_idxs(h)[b] by {
        if a / 3 == b / 3 {
            assert(a % 3 != b % 3);
        } else {
            assert(box_idx(h, a) / 9 != box_idx(h, b) / 9);
        }
    }
}

/// One full pass only removes candidates and promotes forced cells.
proof fn lemma_pass_upto_evolves(g: Seq<Cell>, i: int)
    requires
        g.len() == 81,
        0 <= i <= 9,
    ensures
        evolves(g, prune_pass_upto(g, i)),
    decreases i,
{
    if i > 0 {
        lemma_pass_upto_evolves(g, i - 1);
        let g1 = prune_pass_upto(g, i - 1);
        let g2 = prune_step(g1, row_idxs(i - 1));
        let g3 = prune_step(g2, col_idxs(i - 1));
        lemma_house_idxs_ok(i - 1);
        lemma_prune_step_evolves(g1, row_idxs(i - 1));
        lemma_evolves_trans(g, g1, g2);
        lemma_prune_step_evolves(g2, col_idxs(i - 1));
        lemma_evolves_trans(g, g2, g3);
        lemma_prune_step_evolves(g3, box_idxs(i - 1));
        lemma_evolves_trans(g, g3, prune_pass_upto(g, i));
    }
}

proof fn lemma_pass_evolves(g: Seq<Cell>)
    ensures
        g.len() == 81 ==> evolves(g, prune_pass(g)),
{
    if g.len() == 81 {
        lemma_pass_upto_evolves(g, 9);
    }
}

/// The grid `Grid::prune` leaves behind is a fixed point: one more full
/// pass changes nothing.
pub proof fn lemma_prune_fixpoint(g: Seq<Cell>)
    requires
        g.len() == 81,
    ensures
        prune_pass(spec_prune(g)) == spec_prune(g),
    decreases cells_weight(g),
{
    lemma_cells_weight_nonneg(g);
    lemma_pass_evolves(g);
    let g1 = prune_pass(g);
    if g1 == g {
    } else {
        lemma_cells_weight_nonneg(g1);
        lemma_evolves_weight(g, g1);
        lemma_prune_fixpoint(g1);
    }
}

/// What `prune_parents` makes of a grid after a placement at linear
/// position `p`: the cell's row, column and box pruned, in that order.
pub open spec fn spec_prune_parents(g: Seq<Cell>, p: int) -> Seq<Cell> {
    prune_step(
        prune_step(prune_step(g, row_idxs(p / 9)), col_idxs(p % 9)),
        box_idxs((p / 9 / 3) * 3 + (p % 9) / 3),
    )
}

/// The outcome of the backtracking search from position `p` on: the
/// first solution under linear traversal and ascending candidate trials,
/// or nothing.
pub open spec fn spec_search(g: Seq<Cell>, p: int) -> Option<Seq<Cell>>
    decreases 81 - p, 10int,
    when 0 <= p <= 80
    via spec_search_decreases
{
    match g[p] {
        Cell::Fixed(_) => if p == 80 {
            Some(g)
        } else {
            spec_search(g, p + 1)
        },
        Cell::Empty(s) => spec_try(g, p, remaining_digits(s.bits, 0)),
    }
}

/// The search tries the candidate digits `ds` at position `p`, in order:
/// a locally legal digit is placed, the three touched houses are pruned,
/// and the search goes on at the next position; on failure the next
/// candidate is tried.
pub open spec fn spec_try(g: Seq<Cell>, p: int, ds: Seq<int>) -> Option<Seq<Cell>>
    decreases 81 - p, ds.len(),
    when 0 <= p <= 80
{
    if ds.len() == 0 {
        None
    } else {
        let num = digit_of((ds[0] - 1) as u16);
        if placement_ok(g, p, num) {
            let g2 = g.update(p, Cell::Fixed(num));
            if p == 80 {
                Some(g2)
            } else {
                match spec_search(spec_prune_parents(g2, p), p + 1) {
                    Some(sol) => Some(sol),
                    None => spec_try(g, p, ds.drop_first()),
                }
            }
        } else {
            spec_try(g, p, ds.drop_first())
        }
    }
}

#[via_fn]
proof fn spec_search_decreases(g: Seq<Cell>, p: int) {
    match g[p] {
        Cell::Empty(s) => {
            lemma_remaining_len(s.bits, 0);
        },
        Cell::Fixed(_) => {},
    }
}

/// Remove all fixed numbers in a house from the possible numbers
/// of empty cells in the house, and promote forced cells.
pub fn prune_house(house: &mut Vec<Cell>)
    requires
        old(house)@.len() == 9,
        forall|i: int| 0 <= i < 9 ==> (#[trigger] old(house)@[i]).wf(),
    ensures
        final(house)@.len() == 9,
        forall|i: int|
            0 <= i < 9 ==> final(house)@[i] == spec_prune_cell(
                old(house)@[i],
                old(house)@,
            ),
        forall|i: int| 0 <= i < 9 ==> (#[trigger] final(house)@[i]).wf(),
        forall|i: int| 0 <= i < 9 ==> cell_evolves(old(house)@[i], #[trigger] final(house)@[i]),
{
    let ghost h0 = old(house)@;
    let mut fixed_nums: Vec<Number> = Vec::new();
    let mut i: usize = 0;
    while i < 9
        invariant
            house@ == h0,
            h0.len() == 9,
            i <= 9,
            fixed_nums@ == fixed_digits_seq(h0.take(i as int)),
        decreases 9 - i,
    {
        let c = house[i];
        proof {
            assert(h0.take(i as int + 1).drop_last() =~= h0.take(i as int));
            assert(h0.take(i as int + 1).last() == h0[i as int]);
        }
        match c {
            Cell::Fixed(num) => fixed_nums.push(num),
            Cell::Empty(_) => {},
        }
        i += 1;
    }
    proof {
        assert(h0.take(9) =~= h0);
    }
    let ghost ns = fixed_digits_seq(h0);
    let mut j: usize = 0;
    while j < 9
        invariant
            house@.len() == 9,
            h0.len() == 9,
            j <= 9,
            fixed_nums@ == ns,
            ns == fixed_digits_seq(h0),
            forall|p: int| 0 <= p < 9 ==> (#[trigger] h0[p]).wf(),
            forall|p: int| j <= p < 9 ==> house@[p] == h0[p],
            forall|p: int| 0 <= p < j ==> house@[p] == spec_prune_cell(h0[p], h0),
            forall|p: int|
                0 <= p < j ==> (#[trigger] house@[p]).wf() && cell_evolves(h0[p], house@[p]),
        decreases 9 - j,
    {
        let c = house[j];
        match c {
            Cell::Fixed(_) => {},
            Cell::Empty(ps) => {
                let mut possible = ps;
                let ghost s0 = ps.bits;
                proof {
                    assert(ns.skip(0) =~= ns);
                }
                let mut t: usize = 0;
                while t < fixed_nums.len()
                    invariant
                        fixed_nums@ == ns,
                        t <= ns.len(),
                        s0 < 0x200,
                        possible.bits < 0x200,
                        remove_all(s0, ns) == remove_all(possible.bits, ns.skip(t as int)),
                    decreases ns.len() - t,
                {
                    let num = fixed_nums[t];
                    let ghost pre = possible.bits;
                    possible.remove(num);
                    proof {
                        assert(ns.skip(t as int).drop_first() =~= ns.skip(t as int + 1));
                        assert(ns.skip(t as int)[0] == ns[t as int]);
                    }
                    t += 1;
                }
                proof {
                    assert(ns.skip(ns.len() as int) =~= Seq::<Number>::empty());
                    assert(possible.bits == remove_all(s0, ns));
                    lemma_remove_all_props(s0, ns);
                }
                let sng = possible.single();
                match sng {
                    Some(num) => {
                        house.set(j, Cell::Fixed(num));
                        proof {
                            let b2 = remove_all(s0, ns);
                            lemma_shift_values();
                            lemma_singleton_digit(b2);
                            let kk = (num.as_int() - 1) as u16;
                            assert(has_bit(b2, kk)) by {
                                assert(kk < 9 && b2 == 1u16 << kk ==> b2 & (1u16 << kk)
                                    != 0) by (bit_vector);
                            }
                            assert(has_bit(s0, kk));
                            assert(ps.contains(num));
                            assert(cell_evolves(h0[j as int], house@[j as int]));
                        }
                    },
                    None => {
                        house.set(j, Cell::Empty(possible));
                        proof {
                            let b2 = remove_all(s0, ns);
                            lemma_singleton_digit(b2);
                            assert(house@[j as int] == spec_prune_cell(h0[j as int], h0));
                            if possible.bits == s0 {
                                assert(possible == ps);
                            }
                            assert(cell_evolves(h0[j as int], house@[j as int]));
                        }
                    },
                }
            },
        }
        j += 1;
    }
}

pub fn row_coords(row: u8) -> (r: Vec<Coord>)
    ensures
        r@.len() == 9,
        forall|j: int| 0 <= j < 9 ==> (#[trigger] r@[j]).wf() && r@[j].idx() == row_idx(
            clamp8(row),
            j,
        ),
        forall|a: int, b: int| 0 <= a < b < 9 ==> r@[a].idx() != r@[b].idx(),
{
    let row_index = normalize_index(row);
    let mut r: Vec<Coord> = Vec::new();
    let mut j: u8 = 0;
    while j < 9
        invariant
            j <= 9,
            r@.len() == j as int,
            row_index == clamp8(row),
            forall|a: int| 0 <= a < j ==> (#[trigger] r@[a]).wf() && r@[a].idx() == row_idx(
                clamp8(row),
                a,
            ),
        decreases 9 - j,
    {
        r.push(Coord::from_row_col(row_index, j));
        j += 1;
    }
    r
}

pub fn col_coords(col: u8) -> (r: Vec<Coord>)
    ensures
        r@.len() == 9,
        forall|j: int| 0 <= j < 9 ==> (#[trigger] r@[j]).wf() && r@[j].idx() == col_idx(
            clamp8(col),
            j,
        ),
        forall|a: int, b: int| 0 <= a < b < 9 ==> r@[a].idx() != r@[b].idx(),
{
    let col_index = normalize_index(col);
    let mut r: Vec<Coord> = Vec::new();
    let mut j: u8 = 0;
    while j < 9
        invariant
            j <= 9,
            r@.len() == j as int,
            col_index == clamp8(col),
            forall|a: int| 0 <= a < j ==> (#[trigger] r@[a]).wf() && r@[a].idx() == col_idx(
                clamp8(col),
                a,
            ),
        decreases 9 - j,
    {
        r.push(Coord::from_row_col(j, col_index));
        j += 1;
    }
    r
}

pub fn box_coords(box_: u8) -> (r: Vec<Coord>)
    ensures
        r@.len() == 9,
        forall|j: int| 0 <= j < 9 ==> (#[trigger] r@[j]).wf() && r@[j].idx() == box_idx(
            clamp8(box_),
            j,
        ),
        forall|a: int, b: int| 0 <= a < b < 9 ==> r@[a].idx() != r@[b].idx(),
{
    let box_index = normalize_index(box_);
    let row_start = (box_index / 3) * 3;
    let col_start = (box_index % 3) * 3;
    let mut r: Vec<Coord> = Vec::new();
    let mut j: u8 = 0;
    while j < 9
        invariant
            j <= 9,
            r@.len() == j as int,
            box_index == clamp8(box_),
            row_start == (box_index / 3) * 3,
            col_start == (box_index % 3) * 3,
            forall|a: int| 0 <= a < j ==> (#[trigger] r@[a]).wf() && r@[a].idx() == box_idx(
                clamp8(box_),
                a,
            ),
        decreases 9 - j,
    {
        let row = row_start + (j / 3);
        let col = col_start + (j % 3);
        r.push(Coord::from_row_col(row, col));
        j += 1;
    }
    proof {
        assert forall|a: int, b: int| 0 <= a < b < 9 implies r@[a].idx() != r@[b].idx() by {
            let h = clamp8(box_);
            if a / 3 == b / 3 {
                assert(a % 3 != b % 3);
            } else {
                assert(box_idx(h, a) / 9 != box_idx(h, b) / 9);
            }
        }
    }
    r
}

pub fn house_is_ok(house: &Vec<Cell>) -> (r: bool)
    requires
        house@.len() == 9,
    ensures
        r == house_ok(house@),
{
    let mut i: usize = 0;
    while i < 8
        invariant
            house@.len() == 9,
            i <= 8,
            forall|a: int, b: int|
                0 <= a < b < 9 && a < i ==> !(house@[a] is Fixed && house@[a] == house@[b]),
        decreases 8 - i,
    {
        let current = house[i];
        match current {
            Cell::Fixed(_) => {
                let mut j: usize = i + 1;
                while j < 9
                    invariant
                        house@.len() == 9,
                        i < j <= 9,
                        current == house@[i as int],
                        current is Fixed,
                        forall|b: int| i < b < j ==> house@[b] != current,
                    decreases 9 - j,
                {
                    if house[j] == current {
                        return false;
                    }
                    j += 1;
                }
            },
            Cell::Empty(_) => {},
        }
        i += 1;
    }
    true
}

/// The 81-cell board, row-major.
#[derive(Debug, Clone, PartialEq, Eq)]
pub struct Grid {
    cells: Vec<Cell>,
}

impl View for Grid {
    type V = Seq<Cell>;

    closed spec fn view(&self) -> Seq<Cell> {
        self.cells@
    }
}

impl Grid {
    /// A valid board: 81 cells, each well formed.
    pub open spec fn wf(self) -> bool {
        self@.len() == 81 && forall|i: int| 0 <= i < 81 ==> (#[trigger] self@[i]).wf()
    }

    pub fn get(&self, c: Coord) -> (r: Cell)
        requires
            self@.len() == 81,
            c.wf(),
        ensures
            r == self@[c.idx()],
    {
        self.cells[c.index as usize]
    }

    pub fn set(&mut self, c: Coord, cell: Cell)
        requires
            old(self)@.len() == 81,
            c.wf(),
        ensures
            final(self)@ == old(self)@.update(c.idx(), cell),
    {
        self.cells.set(c.index as usize, cell);
    }

    /// An identical board that the search can mutate freely.
    fn duplicate(&self) -> (r: Grid)
        ensures
            r@ == self@,
    {
        let mut cells: Vec<Cell> = Vec::new();
        let mut i: usize = 0;
        while i < self.cells.len()
            invariant
                i <= self.cells.len(),
                cells@ == self.cells@.take(i as int),
            decreases self.cells.len() - i,
        {
            cells.push(self.cells[i]);
            proof {
                assert(self.cells@.take(i as int + 1) =~= self.cells@.take(i as int).push(
                    self.cells@[i as int],
                ));
            }
            i += 1;
        }
        proof {
            assert(cells@ =~= self.cells@);
        }
        Grid { cells }
    }

    /// Cell-by-cell comparison.
    fn equals(&self, other: &Grid) -> (r: bool)
        requires
            self@.len() == 81,
            other@.len() == 81,
        ensures
            r <==> self@ == other@,
    {
        let mut i: usize = 0;
        while i < 81
            invariant
                i <= 81,
                self@.len() == 81,
                other@.len() == 81,
                forall|p: int| 0 <= p < i ==> self@[p] == other@[p],
            decreases 81 - i,
        {
            if self.cells[i] != other.cells[i] {
                proof {
                    assert(self@[i as int] != other@[i as int]);
                }
                return false;
            }
            i += 1;
        }
        proof {
            assert(self@ =~= other@);
        }
        true
    }

    pub fn get_row(&self, row_num: u8) -> (r: Vec<Cell>)
        requires
            self@.len() == 81,
        ensures
            r@ == row_seq(self@, clamp8(row_num)),
    {
        let coords = row_coords(row_num);
        self.read_house(&coords)
    }

    pub fn get_col(&self, col_num: u8) -> (r: Vec<Cell>)
        requires
            self@.len() == 81,
        ensures
            r@ == col_seq(self@, clamp8(col_num)),
    {
        let coords = col_coords(col_num);
        self.read_house(&coords)
    }

    pub fn get_box(&self, box_num: u8) -> (r: Vec<Cell>)
        requires
            self@.len() == 81,
        ensures
            r@ == box_seq(self@, clamp8(box_num)),
    {
        let coords = box_coords(box_num);
        self.read_house(&coords)
    }

    /// The nine cells at the given coordinates, in order.
    fn read_house(&self, coords: &Vec<Coord>) -> (r: Vec<Cell>)
        requires
            self@.len() == 81,
            coords@.len() == 9,
            forall|j: int| 0 <= j < 9 ==> (#[trigger] coords@[j]).wf(),
        ensures
            r@.len() == 9,
            forall|j: int| 0 <= j < 9 ==> r@[j] == self@[coords@[j].idx()],
    {
        let mut r: Vec<Cell> = Vec::new();
        let mut j: usize = 0;
        while j < 9
            invariant
                j <= 9,
                r@.len() == j as int,
                self@.len() == 81,
                coords@.len() == 9,
                forall|a: int| 0 <= a < 9 ==> (#[trigger] coords@[a]).wf(),
                forall|a: int| 0 <= a < j ==> r@[a] == self@[coords@[a].idx()],
            decreases 9 - j,
        {
            r.push(self.get(coords[j]));
            j += 1;
        }
        r
    }

    /// Writes the nine cells back to the given coordinates.
    fn write_house(&mut self, coords: &Vec<Coord>, house: &Vec<Cell>)
        requires
            old(self)@.len() == 81,
            coords@.len() == 9,
            house@.len() == 9,
            forall|j: int| 0 <= j < 9 ==> (#[trigger] coords@[j]).wf(),
            forall|a: int, b: int| 0 <= a < b < 9 ==> coords@[a].idx() != coords@[b].idx(),
        ensures
            final(self)@.len() == 81,
            final(self)@ == write_seq(old(self)@, coord_idxs(coords@), house@),
            forall|j: int| 0 <= j < 9 ==> final(self)@[coords@[j].idx()] == house@[j],
            forall|p: int|
                0 <= p < 81 && (forall|j: int| 0 <= j < 9 ==> coords@[j].idx() != p)
                    ==> final(self)@[p] == old(self)@[p],
    {
        let ghost idxs = coord_idxs(coords@);
        let mut j: usize = 0;
        proof {
            assert(idxs.take(0) =~= Seq::<int>::empty());
            assert(house@.take(0) =~= Seq::<Cell>::empty());
        }
        while j < 9
            invariant
                j <= 9,
                self@.len() == 81,
                coords@.len() == 9,
                house@.len() == 9,
                idxs == coord_idxs(coords@),
                forall|a: int| 0 <= a < 9 ==> (#[trigger] coords@[a]).wf(),
                forall|a: int, b: int| 0 <= a < b < 9 ==> coords@[a].idx() != coords@[b].idx(),
                self@ == write_seq(old(self)@, idxs.take(j as int), house@.take(j as int)),
                forall|a: int| 0 <= a < j ==> self@[coords@[a].idx()] == house@[a],
                forall|p: int|
                    0 <= p < 81 && (forall|a: int| 0 <= a < j ==> coords@[a].idx() != p)
                        ==> self@[p] == old(self)@[p],
            decreases 9 - j,
        {
            self.set(coords[j], house[j]);
            proof {
                assert(idxs.take(j as int + 1).drop_last() =~= idxs.take(j as int));
                assert(house@.take(j as int + 1).drop_last() =~= house@.take(j as int));
                assert(idxs.take(j as int + 1).last() == idxs[j as int]);
                assert(house@.take(j as int + 1).last() == house@[j as int]);
            }
            j += 1;
        }
        proof {
            assert(idxs.take(9) =~= idxs);
            assert(house@.take(9) =~= house@);
        }
    }

    /// Applies `prune_house` to the house at the given coordinates and
    /// writes the result back.
    fn prune_one_house(&mut self, coords: &Vec<Coord>)
        requires
            old(self).wf(),
            coords@.len() == 9,
            forall|j: int| 0 <= j < 9 ==> (#[trigger] coords@[j]).wf(),
            forall|a: int, b: int| 0 <= a < b < 9 ==> coords@[a].idx() != coords@[b].idx(),
        ensures
            final(self).wf(),
            evolves(old(self)@, final(self)@),
            final(self)@ == prune_step(old(self)@, coord_idxs(coords@)),
    {
        let mut house = self.read_house(coords);
        let ghost h0 = house@;
        prune_house(&mut house);
        self.write_house(coords, &house);
        proof {
            assert(h0 =~= extract(old(self)@, coord_idxs(coords@)));
            assert(house@ =~= spec_prune_house(h0));
            assert forall|p: int| 0 <= p < 81 implies cell_evolves(
                old(self)@[p],
                #[trigger] self@[p],
            ) && (#[trigger] self@[p]).wf() by {
                if exists|j: int| 0 <= j < 9 && coords@[j].idx() == p {
                    let j = choose|j: int| 0 <= j < 9 && coords@[j].idx() == p;
                    assert(h0[j] == old(self)@[p]);
                    assert(self@[p] == house@[j]);
                } else {
                    assert(self@[p] == old(self)@[p]);
                }
            }
        }
    }

    /// Reduces every open cell's candidates by all three kinds of house,
    /// over and over, until a full pass changes nothing.
    pub fn prune(&mut self)
        requires
            old(self).wf(),
        ensures
            final(self).wf(),
            evolves(old(self)@, final(self)@),
            final(self)@ == spec_prune(old(self)@),
        decreases cells_weight(old(self)@),
    {
        let ghost g0 = self@;
        let old_grid = self.duplicate();
        let mut i: u8 = 0;
        while i < 9
            invariant
                i <= 9,
                self.wf(),
                evolves(g0, self@),
                self@ == prune_pass_upto(g0, i as int),
            decreases 9 - i,
        {
            let ghost a = self@;
            let coords = row_coords(i);
            self.prune_one_house(&coords);
            proof {
                lemma_evolves_trans(g0, a, self@);
                assert(coord_idxs(coords@) =~= row_idxs(i as int));
            }
            let ghost a = self@;
            let coords = col_coords(i);
            self.prune_one_house(&coords);
            proof {
                lemma_evolves_trans(g0, a, self@);
                assert(coord_idxs(coords@) =~= col_idxs(i as int));
            }
            let ghost a = self@;
            let coords = box_coords(i);
            self.prune_one_house(&coords);
            proof {
                lemma_evolves_trans(g0, a, self@);
                assert(coord_idxs(coords@) =~= box_idxs(i as int));
                assert(self@ == prune_pass_upto(g0, i as int + 1));
            }
            i += 1;
        }
        proof {
            assert(self@ == prune_pass(g0));
        }
        if !self.equals(&old_grid) {
            proof {
                lemma_evolves_weight(g0, self@);
                lemma_cells_weight_nonneg(self@);
            }
            let ghost mid = self@;
            self.prune();
            proof {
                lemma_evolves_trans(g0, mid, self@);
            }
        }
    }

    /// Re-prunes just the row, column and box that contain `coord`.
    fn prune_parents(&mut self, coord: &Coord)
        requires
            old(self).wf(),
            coord.wf(),
        ensures
            final(self).wf(),
            evolves(old(self)@, final(self)@),
            final(self)@ == prune_step(
                prune_step(
                    prune_step(old(self)@, row_idxs(coord.idx() / 9)),
                    col_idxs(coord.idx() % 9),
                ),
                box_idxs((coord.idx() / 9 / 3) * 3 + (coord.idx() % 9) / 3),
            ),
    {
        let ghost g0 = self@;
        let coords = row_coords(coord.parent_row());
        self.prune_one_house(&coords);
        proof {
            assert(coord_idxs(coords@) =~= row_idxs(coord.idx() / 9));
        }
        let ghost a = self@;
        let coords = col_coords(coord.parent_col());
        self.prune_one_house(&coords);
        proof {
            lemma_evolves_trans(g0, a, self@);
            assert(coord_idxs(coords@) =~= col_idxs(coord.idx() % 9));
        }
        let ghost a = self@;
        let coords = box_coords(coord.parent_box());
        self.prune_one_house(&coords);
        proof {
            lemma_evolves_trans(g0, a, self@);
            assert(coord_idxs(coords@) =~= box_idxs((coord.idx() / 9 / 3) * 3 + (coord.idx() % 9)
                / 3));
        }
    }

    fn has_sufficient_hints(&self) -> (r: bool)
        requires
            self@.len() == 81,
        ensures
            r <==> count_fixed(self@) >= 17,
    {
        let mut count: usize = 0;
        let mut i: usize = 0;
        while i < 81
            invariant
                i <= 81,
                self@.len() == 81,
                count == count_fixed(self@.take(i as int)),
                count <= i,
            decreases 81 - i,
        {
            let c = self.cells[i];
            proof {
                assert(self@.take(i as int + 1).drop_last() =~= self@.take(i as int));
                assert(self@.take(i as int + 1).last() == self@[i as int]);
            }
            match c {
                Cell::Fixed(_) => {
                    count += 1;
                },
                Cell::Empty(_) => {},
            }
            i += 1;
        }
        proof {
            assert(self@.take(81) =~= self@);
        }
        count >= 17
    }

    pub fn is_legal(&self) -> (r: bool)
        requires
            self@.len() == 81,
        ensures
            r <==> legal(self@),
    {
        let mut h: u8 = 0;
        while h < 9
            invariant
                h <= 9,
                self@.len() == 81,
                forall|g: int| 0 <= g < h ==> house_ok(#[trigger] row_seq(self@, g)),
                forall|g: int| 0 <= g < h ==> house_ok(#[trigger] col_seq(self@, g)),
                forall|g: int| 0 <= g < h ==> house_ok(#[trigger] box_seq(self@, g)),
            decreases 9 - h,
        {
            let row = self.get_row(h);
            if !house_is_ok(&row) {
                return false;
            }
            let col = self.get_col(h);
            if !house_is_ok(&col) {
                return false;
            }
            let box_ = self.get_box(h);
            if !house_is_ok(&box_) {
                return false;
            }
            proof {
                assert forall|g: int| 0 <= g < h + 1 implies house_ok(
                    #[trigger] row_seq(self@, g),
                ) by {
                    if g == h {
                        assert(house_ok(row@));
                    }
                }
                assert forall|g: int| 0 <= g < h + 1 implies house_ok(
                    #[trigger] col_seq(self@, g),
                ) by {
                    if g == h {
                        assert(house_ok(col@));
                    }
                }
                assert forall|g: int| 0 <= g < h + 1 implies house_ok(
                    #[trigger] box_seq(self@, g),
                ) by {
                    if g == h {
                        assert(house_ok(box_@));
                    }
                }
            }
            h += 1;
        }
        true
    }

    /// Placing `num` at `coord` is allowed: the cell is open and the
    /// placement leaves the cell's row, column and box free of repeats.
    fn number_is_legal(&self, coord: Coord, num: Number) -> (r: bool)
        requires
            self@.len() == 81,
            coord.wf(),
        ensures
            r == placement_ok(self@, coord.idx(), num),
    {
        let current_cell = self.get(coord);
        match current_cell {
            Cell::Fixed(_) => false,
            Cell::Empty(_) => {
                let mut test_grid = self.duplicate();
                test_grid.set(coord, Cell::Fixed(num));
                let row = test_grid.get_row(coord.parent_row());
                let col = test_grid.get_col(coord.parent_col());
                let box_ = test_grid.get_box(coord.parent_box());
                house_is_ok(&row) && house_is_ok(&col) && house_is_ok(&box_)
            },
        }
    }
}

/// One rendered row of the board, between the vertical separators.
pub open spec fn render_row(h: Seq<Cell>) -> Seq<char> {
    "┃ "@ + seq![h[0].spec_char()] + " │ "@ + seq![h[1].spec_char()] + " │ "@ + seq![
        h[2].spec_char(),
    ] + " ┃ "@ + seq![h[3].spec_char()] + " │ "@ + seq![h[4].spec_char()] + " │ "@ + seq![
        h[5].spec_char(),
    ] + " ┃ "@ + seq![h[6].spec_char()] + " │ "@ + seq![h[7].spec_char()] + " │ "@ + seq![
        h[8].spec_char(),
    ] + " ┃\n"@
}

/// The full boxed diagram of a grid, without a trailing newline.
pub open spec fn render_grid(g: Seq<Cell>) -> Seq<char> {
    "┏━━━┯━━━┯━━━┳━━━┯━━━┯━━━┳━━━┯━━━┯━━━┓\n"@ + render_row(row_seq(g, 0))
        + "┠───┼───┼───╂───┼───┼───╂───┼───┼───┨\n"@ + render_row(row_seq(g, 1))
        + "┠───┼───┼───╂───┼───┼───╂───┼───┼───┨\n"@ + render_row(row_seq(g, 2))
        + "┣━━━┿━━━┿━━━╋━━━┿━━━┿━━━╋━━━┿━━━┿━━━┫\n"@ + render_row(row_seq(g, 3))
        + "┠───┼───┼───╂───┼───┼───╂───┼───┼───┨\n"@ + render_row(row_seq(g, 4))
        + "┠───┼───┼───╂───┼───┼───╂───┼───┼───┨\n"@ + render_row(row_seq(g, 5))
        + "┣━━━┿━━━┿━━━╋━━━┿━━━┿━━━╋━━━┿━━━┿━━━┫\n"@ + render_row(row_seq(g, 6))
        + "┠───┼───┼───╂───┼───┼───╂───┼───┼───┨\n"@ + render_row(row_seq(g, 7))
        + "┠───┼───┼───╂───┼───┼───╂───┼───┼───┨\n"@ + render_row(row_seq(g, 8))
        + "┗━━━┷━━━┷━━━┻━━━┷━━━┷━━━┻━━━┷━━━┷━━━┛"@
}

/// The one-character text a cell renders as.
fn cell_str(c: Cell) -> (r: &'static str)
    ensures
        r@ == seq![c.spec_char()],
{
    let r = match c {
        Cell::Fixed(Number::One) => "1",
        Cell::Fixed(Number::Two) => "2",
        Cell::Fixed(Number::Three) => "3",
        Cell::Fixed(Number::Four) => "4",
        Cell::Fixed(Number::Five) => "5",
        Cell::Fixed(Number::Six) => "6",
        Cell::Fixed(Number::Seven) => "7",
        Cell::Fixed(Number::Eight) => "8",
        Cell::Fixed(Number::Nine) => "9",
        Cell::Empty(_) => " ",
    };
    proof {
        reveal_strlit("1");
        reveal_strlit("2");
        reveal_strlit("3");
        reveal_strlit("4");
        reveal_strlit("5");
        reveal_strlit("6");
        reveal_strlit("7");
        reveal_strlit("8");
        reveal_strlit("9");
        reveal_strlit(" ");
        assert(r@ =~= seq![c.spec_char()]);
    }
    r
}

/// One row of the diagram, between its border lines.
fn format_row(row: &Vec<Cell>) -> (r: String)
    requires
        row@.len() == 9,
    ensures
        r@ == render_row(row@),
{
    let thin = " │ ";
    let thick = " ┃ ";
    let mut output = String::from_str("┃ ");
    output.append(cell_str(row[0]));
    output.append(thin);
    output.append(cell_str(row[1]));
    output.append(thin);
    output.append(cell_str(row[2]));
    output.append(thick);
    output.append(cell_str(row[3]));
    output.append(thin);
    output.append(cell_str(row[4]));
    output.append(thin);
    output.append(cell_str(row[5]));
    output.append(thick);
    output.append(cell_str(row[6]));
    output.append(thin);
    output.append(cell_str(row[7]));
    output.append(thin);
    output.append(cell_str(row[8]));
    output.append(" ┃\n");
    proof {
        assert(output@ =~= render_row(row@));
    }
    output
}

/// The cell a field of the input text denotes: its first character
/// decides; an empty field is an open cell.
pub open spec fn cell_of_field(f: Seq<char>) -> Cell {
    if f.len() == 0 {
        Cell::spec_empty()
    } else {
        Cell::spec_from_char(f[0])
    }
}

/// Cell `i` of the grid that a text denotes: fields fill cells in order,
/// extras are discarded, missing fields leave cells open.
pub open spec fn parsed_cell(s: Seq<char>, i: int) -> Cell {
    let f = crate::csv::fields(crate::csv::Sep::Field, s);
    if i < f.len() {
        cell_of_field(f[i])
    } else {
        Cell::spec_empty()
    }
}

impl Grid {
    /// Reads a grid from comma- and newline-separated text. Total: any
    /// input yields a grid.
    pub fn from_csv_str(input: &str) -> (r: Self)
        ensures
            r.wf(),
            forall|i: int| 0 <= i < 81 ==> r@[i] == parsed_cell(input@, i),
    {
        let ghost s = input@;
        let ghost fs = crate::csv::fields(crate::csv::Sep::Field, s);
        let n = input.unicode_len();
        let mut cells: Vec<Cell> = Vec::new();
        let mut i: usize = 0;
        while i < 81
            invariant
                i <= 81,
                cells@.len() == i as int,
                forall|q: int| 0 <= q < i ==> cells@[q] == Cell::spec_empty(),
            decreases 81 - i,
        {
            cells.push(Cell::init_empty());
            i += 1;
        }
        let mut p: usize = 0;
        let mut j: usize = 0;
        proof {
            assert(s.skip(0) =~= s);
        }
        loop
            invariant_except_break
                fs.subrange(j as int, fs.len() as int) == crate::csv::fields(
                    crate::csv::Sep::Field,
                    s.skip(p as int),
                ),
            invariant
                s == input@,
                p <= n,
                n == s.len(),
                j <= 81,
                j <= fs.len(),
                fs == crate::csv::fields(crate::csv::Sep::Field, s),
                cells@.len() == 81,
                forall|q: int| 0 <= q < j && q < 81 ==> cells@[q] == cell_of_field(fs[q]),
                forall|q: int| j <= q < 81 ==> cells@[q] == Cell::spec_empty(),
            ensures
                j == 81 || j as int == fs.len(),
            decreases n - p,
        {
            proof {
                crate::csv::lemma_fields_len(crate::csv::Sep::Field, s.skip(p as int));
                assert(fs.subrange(j as int, fs.len() as int).len() >= 1);
            }
            if j >= 81 {
                break ;
            }
            let q = crate::csv::scan_sep(crate::csv::Sep::Field, input, p, n);
            if q > p {
                let ch = input.get_char(p);
                cells.set(j, Cell::from_char(ch));
            }
            proof {
                let rest = s.skip(p as int);
                let i_rel = crate::csv::find_sep(crate::csv::Sep::Field, rest);
                assert(i_rel == q - p);
                let fr = crate::csv::fields(crate::csv::Sep::Field, rest);
                assert(fs[j as int] == fr[0]);
                assert(fr[0] == if 0 <= i_rel < rest.len() {
                    rest.take(i_rel)
                } else {
                    rest
                });
                assert(rest.take(i_rel) =~= s.subrange(p as int, q as int));
                if (q as int) < n {
                    assert(fr[0] =~= s.subrange(p as int, q as int));
                } else {
                    assert(rest =~= s.subrange(p as int, q as int));
                }
                assert(fs[j as int] =~= s.subrange(p as int, q as int));
                if q > p {
                    assert(fs[j as int][0] == s[p as int]);
                    assert(cells@[j as int] == cell_of_field(fs[j as int]));
                } else {
                    assert(fs[j as int].len() == 0);
                    assert(cells@[j as int] == cell_of_field(fs[j as int]));
                }
            }
            if q < n {
                proof {
                    let rest = s.skip(p as int);
                    let i_rel = q - p;
                    let fr = crate::csv::fields(crate::csv::Sep::Field, rest);
                    assert(rest.skip(i_rel + 1) =~= s.skip(q as int + 1));
                    assert(fr.subrange(1, fr.len() as int) =~= crate::csv::fields(
                        crate::csv::Sep::Field,
                        s.skip(q as int + 1),
                    ));
                    assert(fs.subrange(j as int + 1, fs.len() as int) =~= fr.subrange(
                        1,
                        fr.len() as int,
                    ));
                }
                p = q + 1;
                j += 1;
            } else {
                proof {
                    let rest = s.skip(p as int);
                    let fr = crate::csv::fields(crate::csv::Sep::Field, rest);
                    assert(fr.len() == 1);
                    assert(fs.len() == j + 1);
                }
                j += 1;
                break ;
            }
        }
        let r = Grid { cells };
        proof {
            assert forall|i: int| 0 <= i < 81 implies r@[i] == parsed_cell(s, i) by {
                if i >= fs.len() {
                    assert(r@[i] == Cell::spec_empty());
                }
            }
            assert forall|i: int| 0 <= i < 81 implies (#[trigger] r@[i]).wf() by {
                assert(r@[i] == parsed_cell(s, i));
            }
        }
        r
    }

    /// Draws the board as a boxed diagram, heavy lines between the
    /// three-row and three-column bands.
    pub fn pretty_print(&self) -> (r: String)
        requires
            self@.len() == 81,
        ensures
            r@ == render_grid(self@),
    {
        let line_top = "┏━━━┯━━━┯━━━┳━━━┯━━━┯━━━┳━━━┯━━━┯━━━┓\n";
        let line_mid_thin = "┠───┼───┼───╂───┼───┼───╂───┼───┼───┨\n";
        let line_mid_thick = "┣━━━┿━━━┿━━━╋━━━┿━━━┿━━━╋━━━┿━━━┿━━━┫\n";
        let line_bottom = "┗━━━┷━━━┷━━━┻━━━┷━━━┷━━━┻━━━┷━━━┷━━━┛";
        let mut output = String::from_str(line_top);
        let row = self.get_row(0);
        let row_str = format_row(&row);
        output.append(row_str.as_str());
        output.append(line_mid_thin);
        let row = self.get_row(1);
        let row_str = format_row(&row);
        output.append(row_str.as_str());
        output.append(line_mid_thin);
        let row = self.get_row(2);
        let row_str = format_row(&row);
        output.append(row_str.as_str());
        output.append(line_mid_thick);
        let row = self.get_row(3);
        let row_str = format_row(&row);
        output.append(row_str.as_str());
        output.append(line_mid_thin);
        let row = self.get_row(4);
        let row_str = format_row(&row);
        output.append(row_str.as_str());
        output.append(line_mid_thin);
        let row = self.get_row(5);
        let row_str = format_row(&row);
        output.append(row_str.as_str());
        output.append(line_mid_thick);
        let row = self.get_row(6);
        let row_str = format_row(&row);
        output.append(row_str.as_str());
        output.append(line_mid_thin);
        let row = self.get_row(7);
        let row_str = format_row(&row);
        output.append(row_str.as_str());
        output.append(line_mid_thin);
        let row = self.get_row(8);
        let row_str = format_row(&row);
        output.append(row_str.as_str());
        output.append(line_bottom);
        proof {
            assert(output@ =~= render_grid(self@));
        }
        output
    }

    /// Validates the grid, prunes it to a fixed point, and searches for a
    /// completion. On success the grid is replaced by the solution; on any
    /// failure it is left exactly as it was.
    ///
    /// The outcome is pinned to spec functions of the entry grid alone
    /// (`spec_prune`, `spec_search`), so solving the same grid twice
    /// yields identical results.
    pub fn solve(&mut self) -> (r: Result<(), SolveError>)
        requires
            old(self).wf(),
        ensures
            final(self).wf(),
            match r {
                Ok(()) => {
                    &&& all_fixed(final(self)@)
                    &&& extends(old(self)@, final(self)@)
                    &&& legal(old(self)@)
                    &&& count_fixed(old(self)@) >= 17
                    &&& Some(final(self)@) == spec_search(spec_prune(old(self)@), 0)
                },
                Err(e) => final(self)@ == old(self)@ && (match e {
                    SolveError::IllegalPuzzle => !legal(old(self)@),
                    SolveError::TooFewHints => legal(old(self)@) && count_fixed(old(self)@)
                        < 17,
                    SolveError::NoSolutionFound => legal(old(self)@) && count_fixed(old(self)@)
                        >= 17 && spec_search(spec_prune(old(self)@), 0) is None,
                }),
            },
    {
        if !self.is_legal() {
            return Err(SolveError::IllegalPuzzle);
        }
        if !self.has_sufficient_hints() {
            return Err(SolveError::TooFewHints);
        }
        let mut work = self.duplicate();
        work.prune();
        proof {
            lemma_evolves_extends(self@, work@);
        }
        match solve_helper(&work, Coord::first()) {
            Ok(solved) => {
                proof {
                    assert forall|i: int| 0 <= i < 81 && self@[i] is Fixed implies solved@[i]
                        == self@[i] by {
                        assert(work@[i] == self@[i]);
                    }
                }
                *self = solved;
                Ok(())
            },
            Err(err) => Err(err),
        }
    }

    pub fn rows(&self) -> (r: RowIterator)
        ensures
            r.grid_view() == self@,
            r.at() == 0,
    {
        RowIterator { grid: &self, row: 0 }
    }

    pub fn cols(&self) -> (r: ColIterator)
        ensures
            r.grid_view() == self@,
            r.at() == 0,
    {
        ColIterator { grid: &self, col: 0 }
    }

    pub fn boxes(&self) -> (r: BoxIterator)
        ensures
            r.grid_view() == self@,
            r.at() == 0,
    {
        BoxIterator { grid: &self, box_: 0 }
    }
}

/// Yields the nine rows of a grid, top to bottom.
pub struct RowIterator<'a> {
    grid: &'a Grid,
    row: u8,
}

impl<'a> RowIterator<'a> {
    pub closed spec fn grid_view(self) -> Seq<Cell> {
        self.grid@
    }

    /// The next house index to yield.
    pub closed spec fn at(self) -> int {
        self.row as int
    }

    pub fn next(&mut self) -> (r: Option<Vec<Cell>>)
        requires
            old(self).grid_view().len() == 81,
        ensures
            final(self).grid_view() == old(self).grid_view(),
            old(self).at() < 9 ==> (r matches Some(v) && v@ == row_seq(
                old(self).grid_view(),
                old(self).at(),
            ) && final(self).at() == old(self).at() + 1),
            old(self).at() >= 9 ==> r is None && final(self).at() == old(self).at(),
    {
        if self.row < 9 {
            let output = self.grid.get_row(self.row);
            self.row += 1;
            Some(output)
        } else {
            None
        }
    }
}

/// Yields the nine columns of a grid, left to right.
pub struct ColIterator<'a> {
    grid: &'a Grid,
    col: u8,
}

impl<'a> ColIterator<'a> {
    pub closed spec fn grid_view(self) -> Seq<Cell> {
        self.grid@
    }

    /// The next house index to yield.
    pub closed spec fn at(self) -> int {
        self.col as int
    }

    pub fn next(&mut self) -> (r: Option<Vec<Cell>>)
        requires
            old(self).grid_view().len() == 81,
        ensures
            final(self).grid_view() == old(self).grid_view(),
            old(self).at() < 9 ==> (r matches Some(v) && v@ == col_seq(
                old(self).grid_view(),
                old(self).at(),
            ) && final(self).at() == old(self).at() + 1),
            old(self).at() >= 9 ==> r is None && final(self).at() == old(self).at(),
    {
        if self.col < 9 {
            let output = self.grid.get_col(self.col);
            self.col += 1;
            Some(output)
        } else {
            None
        }
    }
}

/// Yields the nine boxes of a grid, row-major.
pub struct BoxIterator<'a> {
    grid: &'a Grid,
    box_: u8,
}

impl<'a> BoxIterator<'a> {
    pub closed spec fn grid_view(self) -> Seq<Cell> {
        self.grid@
    }

    /// The next house index to yield.
    pub closed spec fn at(self) -> int {
        self.box_ as int
    }

    pub fn next(&mut self) -> (r: Option<Vec<Cell>>)
        requires
            old(self).grid_view().len() == 81,
        ensures
            final(self).grid_view() == old(self).grid_view(),
            old(self).at() < 9 ==> (r matches Some(v) && v@ == box_seq(
                old(self).grid_view(),
                old(self).at(),
            ) && final(self).at() == old(self).at() + 1),
            old(self).at() >= 9 ==> r is None && final(self).at() == old(self).at(),
    {
        if self.box_ < 9 {
            let output = self.grid.get_box(self.box_);
            self.box_ += 1;
            Some(output)
        } else {
            None
        }
    }
}

/// A text whose every field is empty parses to a board of 81 open cells,
/// each holding the full candidate set.
pub proof fn lemma_parse_all_empty(s: Seq<char>)
    requires
        forall|k: int|
            0 <= k < crate::csv::fields(crate::csv::Sep::Field, s).len() ==> (
            #[trigger] crate::csv::fields(crate::csv::Sep::Field, s)[k]).len() == 0,
    ensures
        forall|i: int| 0 <= i < 81 ==> parsed_cell(s, i) == Cell::spec_empty(),
{
    assert forall|i: int| 0 <= i < 81 implies parsed_cell(s, i) == Cell::spec_empty() by {
        let f = crate::csv::fields(crate::csv::Sep::Field, s);
        if i < f.len() {
            assert(f[i].len() == 0);
        }
    }
}

/// Pruning a house deletes from every open cell each digit that was fixed
/// in the house on entry, and never promotes a cell to such a digit.
pub proof fn lemma_prune_house_sound(c: Cell, h: Seq<Cell>, n: Number)
    requires
        fixed_in_house(h, n),
    ensures
        match spec_prune_cell(c, h) {
            Cell::Empty(s2) => !s2.contains(n),
            Cell::Fixed(_) => true,
        },
        c is Empty ==> match spec_prune_cell(c, h) {
            Cell::Fixed(m) => m != n,
            Cell::Empty(_) => true,
        },
{
    match c {
        Cell::Fixed(_) => {},
        Cell::Empty(s) => {
            let fds = fixed_digits_seq(h);
            let b2 = remove_all(s.bits, fds);
            let k = (n.as_int() - 1) as u16;
            lemma_fixed_digits_seq_contains(h, n);
            assert(digit_of(k) == n);
            lemma_remove_all_has_bit(s.bits, fds, k);
            assert(!has_bit(b2, k));
            lemma_singleton_digit(b2);
            match singleton_digit(b2) {
                Some(m) => {
                    let km = (m.as_int() - 1) as u16;
                    assert(has_bit(1u16 << km, km)) by {
                        assert(km < 9 ==> (1u16 << km) & (1u16 << km) != 0) by (bit_vector);
                    }
                    assert(m != n);
                },
                None => {},
            }
        },
    }
}

/// After a house is pruned, no cell is left open with exactly one
/// candidate: such cells are promoted to fixed in the same call.
pub proof fn lemma_prune_house_promotes(c: Cell, h: Seq<Cell>)
    requires
        c.wf(),
    ensures
        match spec_prune_cell(c, h) {
            Cell::Empty(s2) => count9(s2.bits) != 1,
            Cell::Fixed(_) => true,
        },
{
    match c {
        Cell::Fixed(_) => {},
        Cell::Empty(s) => {
            let fds = fixed_digits_seq(h);
            let b2 = remove_all(s.bits, fds);
            lemma_remove_all_props(s.bits, fds);
            lemma_singleton_digit(b2);
            lemma_shift_values();
            assert(b2 < 0x200 && count9(b2) == 1 ==> (b2 == 1 || b2 == 2 || b2 == 4 || b2 == 8
                || b2 == 16 || b2 == 32 || b2 == 64 || b2 == 128 || b2 == 256)) by (bit_vector);
        },
    }
}

/// Digit `n` stands fixed somewhere among the first nine cells of `h`.
pub open spec fn house_has(h: Seq<Cell>, n: Number) -> bool {
    exists|j: int| 0 <= j < 9 && h[j] == Cell::Fixed(n)
}

/// The digit a fixed cell holds, or 0 for an open cell.
pub open spec fn cell_digit(c: Cell) -> int {
    match c {
        Cell::Fixed(n) => n.as_int(),
        Cell::Empty(_) => 0,
    }
}

/// The digits fixed among the first `m` cells of a house.
spec fn prefix_digits(h: Seq<Cell>, m: int) -> Set<int> {
    Set::new(|d: int| exists|j: int| 0 <= j < m && j < h.len() && cell_digit(#[trigger] h[j]) == d && d >= 1)
}

proof fn lemma_prefix_digits_card(h: Seq<Cell>, m: int)
    requires
        h.len() == 9,
        house_ok(h),
        forall|j: int| 0 <= j < 9 ==> h[j] is Fixed,
        0 <= m <= 9,
    ensures
        prefix_digits(h, m).finite(),
        prefix_digits(h, m).len() == m,
    decreases m,
{
    if m == 0 {
        assert(prefix_digits(h, 0) =~= Set::<int>::empty());
    } else {
        lemma_prefix_digits_card(h, m - 1);
        let d = cell_digit(h[m - 1]);
        assert(d >= 1);
        assert(prefix_digits(h, m) =~= prefix_digits(h, m - 1).insert(d));
        if prefix_digits(h, m - 1).contains(d) {
            let j = choose|j: int|
                0 <= j < m - 1 && j < h.len() && cell_digit(#[trigger] h[j]) == d && d >= 1;
            assert(h[j] == h[m - 1]);
            assert(false);
        }
    }
}

/// In a fully fixed house with no repeated digit, every digit 1..=9
/// appears, and exactly once.
pub proof fn lemma_complete_house_all_digits(h: Seq<Cell>)
    requires
        h.len() == 9,
        house_ok(h),
        forall|j: int| 0 <= j < 9 ==> h[j] is Fixed,
    ensures
        forall|n: Number| #[trigger] house_has(h, n),
        forall|n: Number, j1: int, j2: int|
            0 <= j1 < 9 && 0 <= j2 < 9 && h[j1] == Cell::Fixed(n) && h[j2] == Cell::Fixed(n)
                ==> j1 == j2,
{
    lemma_prefix_digits_card(h, 9);
    let dset = prefix_digits(h, 9);
    let range = vstd::set_lib::set_int_range(1, 10);
    vstd::set_lib::lemma_int_range(1, 10);
    assert(dset.subset_of(range));
    vstd::set_lib::lemma_subset_equality(dset, range);
    assert forall|n: Number| #[trigger] house_has(h, n) by {
        let d = n.as_int();
        assert(range.contains(d));
        assert(dset.contains(d));
        let j = choose|j: int|
            0 <= j < 9 && j < h.len() && cell_digit(#[trigger] h[j]) == d && d >= 1;
        assert(h[j] == Cell::Fixed(n));
        assert(house_has(h, n));
    }
    assert forall|n: Number, j1: int, j2: int|
        0 <= j1 < 9 && 0 <= j2 < 9 && h[j1] == Cell::Fixed(n) && h[j2] == Cell::Fixed(n) implies j1
        == j2 by {
        if j1 != j2 {
            assert(h[j1] == h[j2]);
        }
    }
}

/// Every house of a fully fixed, legal board holds each digit exactly
/// once: with `Grid::solve`'s promise that a solution is fully fixed,
/// this is what soundness of a solution asks of its houses.
pub proof fn lemma_solved_grid_houses(g: Seq<Cell>, h: int)
    requires
        g.len() == 81,
        all_fixed(g),
        legal(g),
        0 <= h < 9,
    ensures
        forall|n: Number| #[trigger] house_has(row_seq(g, h), n),
        forall|n: Number| #[trigger] house_has(col_seq(g, h), n),
        forall|n: Number| #[trigger] house_has(box_seq(g, h), n),
{
    assert forall|j: int| 0 <= j < 9 implies row_seq(g, h)[j] is Fixed by {
        assert(g[row_idx(h, j)] is Fixed);
    }
    assert forall|j: int| 0 <= j < 9 implies col_seq(g, h)[j] is Fixed by {
        assert(g[col_idx(h, j)] is Fixed);
    }
    assert forall|j: int| 0 <= j < 9 implies box_seq(g, h)[j] is Fixed by {
        assert(0 <= box_idx(h, j) < 81);
        assert(g[box_idx(h, j)] is Fixed);
    }
    lemma_complete_house_all_digits(row_seq(g, h));
    lemma_complete_house_all_digits(col_seq(g, h));
    lemma_complete_house_all_digits(box_seq(g, h));
}

// Error enums

/// Why a grid was not solved.
#[derive(Debug, Clone, Copy, PartialEq, Eq, Structural)]
pub enum SolveError {
    TooFewHints,
    IllegalPuzzle,
    NoSolutionFound,
}

/// Depth-first backtracking from `c` onward: cells are visited in linear
/// order, and the candidates of an open cell are tried in ascending digit
/// order, each checked for legality in its three houses before the search
/// recurses on a pruned copy.
fn solve_helper(grid: &Grid, c: Coord) -> (r: Result<Grid, SolveError>)
    requires
        grid.wf(),
        c.wf(),
        forall|i: int| 0 <= i < c.idx() ==> grid@[i] is Fixed,
    ensures
        match r {
            Ok(sol) => sol.wf() && all_fixed(sol@) && extends(grid@, sol@) && Some(sol@)
                == spec_search(grid@, c.idx()),
            Err(e) => e == SolveError::NoSolutionFound && spec_search(grid@, c.idx()) is None,
        },
    decreases 81 - c.idx(),
{
    match grid.get(c) {
        Cell::Fixed(_) => {
            match c.next() {
                Some(next_c) => {
                    proof {
                        assert(forall|i: int| 0 <= i < next_c.idx() ==> grid@[i] is Fixed);
                        assert(spec_search(grid@, c.idx()) == spec_search(grid@, c.idx() + 1));
                    }
                    solve_helper(grid, next_c)
                },
                None => {
                    proof {
                        assert(spec_search(grid@, c.idx()) == Some(grid@));
                    }
                    Ok(grid.duplicate())
                },
            }
        },
        Cell::Empty(possible_nums) => {
            let mut it = possible_nums.iter();
            loop
                invariant
                    grid.wf(),
                    c.wf(),
                    forall|i: int| 0 <= i < c.idx() ==> grid@[i] is Fixed,
                    it.index <= 9,
                    it.bits == possible_nums.bits,
                    grid@[c.idx()] == Cell::Empty(possible_nums),
                    spec_search(grid@, c.idx()) == spec_try(
                        grid@,
                        c.idx(),
                        remaining_digits(it.bits, it.index as int),
                    ),
                ensures
                    spec_search(grid@, c.idx()) is None,
                decreases 9 - it.index,
            {
                let ghost pre_it = it;
                match it.next() {
                    None => {
                        proof {
                            assert(remaining_digits(pre_it.bits, pre_it.index as int)
                                =~= Seq::<int>::empty());
                            assert(spec_try(grid@, c.idx(), Seq::<int>::empty()) is None);
                        }
                        break ;
                    },
                    Some(num) => {
                        let ghost ds = remaining_digits(pre_it.bits, pre_it.index as int);
                        proof {
                            lemma_digit_of_roundtrip(num);
                            assert(ds[0] == num.as_int());
                            assert(ds.drop_first() =~= remaining_digits(
                                it.bits,
                                it.index as int,
                            ));
                        }
                        if grid.number_is_legal(c, num) {
                            let mut new_grid = grid.duplicate();
                            new_grid.set(c, Cell::Fixed(num));
                            let ghost placed = new_grid@;
                            proof {
                                assert(extends(grid@, placed));
                            }
                            match c.next() {
                                Some(next_coord) => {
                                    new_grid.prune_parents(&c);
                                    proof {
                                        assert(new_grid@ == spec_prune_parents(
                                            placed,
                                            c.idx(),
                                        ));
                                        lemma_evolves_extends(placed, new_grid@);
                                        assert forall|i: int|
                                            0 <= i < next_coord.idx() implies new_grid@[i]
                                            is Fixed by {
                                            assert(placed[i] is Fixed);
                                            assert(cell_evolves(placed[i], new_grid@[i]));
                                        }
                                        assert forall|i: int|
                                            0 <= i < 81 && grid@[i] is Fixed implies new_grid@[i]
                                            == grid@[i] by {
                                            assert(placed[i] == grid@[i]);
                                        }
                                        assert(extends(grid@, new_grid@));
                                    }
                                    match solve_helper(&new_grid, next_coord) {
                                        Ok(solution) => {
                                            proof {
                                                assert forall|i: int|
                                                    0 <= i < 81 && grid@[i] is Fixed implies
                                                    solution@[i] == grid@[i] by {
                                                    assert(new_grid@[i] == grid@[i]);
                                                }
                                                assert(spec_try(grid@, c.idx(), ds) == Some(
                                                    solution@,
                                                ));
                                            }
                                            return Ok(solution);
                                        },
                                        Err(_) => {
                                            proof {
                                                assert(spec_try(grid@, c.idx(), ds) == spec_try(
                                                    grid@,
                                                    c.idx(),
                                                    ds.drop_first(),
                                                ));
                                            }
                                        },
                                    }
                                },
                                None => {
                                    proof {
                                        assert(all_fixed(new_grid@));
                                        assert(spec_try(grid@, c.idx(), ds) == Some(
                                            new_grid@,
                                        ));
                                    }
                                    return Ok(new_grid);
                                },
                            }
                        } else {
                            proof {
                                assert(spec_try(grid@, c.idx(), ds) == spec_try(
                                    grid@,
                                    c.idx(),
                                    ds.drop_first(),
                                ));
                            }
                        }
                    },
                }
            }
            Err(SolveError::NoSolutionFound)
        },
    }
}

/// A digit is recovered from its bit position.
proof fn lemma_digit_of_roundtrip(n: Number)
    ensures
        digit_of((n.as_int() - 1) as u16) == n,
{
}

/// Setting cell `p` of `g` to `num` keeps the cell's three houses free of
/// repeated fixed digits; only an open cell may be set.
pub open spec fn placement_ok(g: Seq<Cell>, p: int, num: Number) -> bool {
    &&& !(g[p] is Fixed)
    &&& {
        let g2 = g.update(p, Cell::Fixed(num));
        &&& house_ok(row_seq(g2, p / 9))
        &&& house_ok(col_seq(g2, p % 9))
        &&& house_ok(box_seq(g2, (p / 9 / 3) * 3 + (p % 9) / 3))
    }
}

} // verus!

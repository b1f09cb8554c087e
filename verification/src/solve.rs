use vstd::prelude::*;
use crate::number::Number;
use crate::possible_nums::{
    PossibleNums, digit_of, lemma_remaining_len, remaining_digits,
};

verus! {

/// One position of the board: a digit already decided, or the set of
/// digits still possible there.
#[derive(Clone, Copy, Debug, PartialEq, Eq, Hash, Structural)]
pub enum Cell {
    Fixed(Number),
    Empty(PossibleNums),
}

impl Cell {
    /// An open cell with every digit possible.
    pub open spec fn spec_empty() -> Cell {
        Cell::Empty(PossibleNums { bits: 0x1ff })
    }

    pub open spec fn spec_from_char(c: char) -> Cell {
        match Number::spec_from_char(c) {
            Some(n) => Cell::Fixed(n),
            None => Cell::spec_empty(),
        }
    }

    /// The character a cell renders as.
    pub open spec fn spec_char(self) -> char {
        match self {
            Cell::Fixed(n) => n.as_char(),
            Cell::Empty(_) => ' ',
        }
    }

    pub fn from_char(c: char) -> (r: Cell)
        ensures
            r == Cell::spec_from_char(c),
    {
        match Number::from_char(c) {
            Some(num) => Cell::Fixed(num),
            None => Self::init_empty(),
        }
    }

    pub fn to_char(self: &Self) -> (r: char)
        ensures
            r == self.spec_char(),
    {
        match self {
            Cell::Fixed(num) => num.to_char(),
            Cell::Empty(_) => ' ',
        }
    }

    pub fn init_empty() -> (r: Cell)
        ensures
            r == Cell::spec_empty(),
    {
        Cell::Empty(PossibleNums::all())
    }
}

/// A cell position: a row and a column, each in 0..=8.
#[derive(PartialEq, Eq, Clone, Copy, Debug, Structural)]
pub struct Coord {
    row: usize,
    col: usize,
}

impl Coord {
    pub closed spec fn wf(self) -> bool {
        self.row < 9 && self.col < 9
    }

    /// The position in row-major order, 0..=80.
    pub closed spec fn idx(self) -> int {
        self.row as int * 9 + self.col as int
    }

    /// The top-left cell, where the search starts.
    pub fn first() -> (c: Coord)
        ensures
            c.wf(),
            c.idx() == 0,
    {
        Coord { row: 0, col: 0 }
    }

    /// The cell after this one in row-major order, if any.
    pub fn next(self: &Self) -> (r: Option<Self>)
        requires
            self.wf(),
        ensures
            self.idx() < 80 ==> (r matches Some(c) && c.wf() && c.idx() == self.idx() + 1),
            self.idx() >= 80 ==> r is None,
    {
        if self.row == 8 && self.col == 8 {
            None
        } else if self.col == 8 {
            Some(Coord { row: self.row + 1, col: 0 })
        } else {
            Some(Coord { row: self.row, col: self.col + 1 })
        }
    }
}

/// The cell of `g` at linear position `p`.
pub open spec fn cell_at(g: Seq<Seq<Cell>>, p: int) -> Cell {
    g[p / 9][p % 9]
}

/// The nine cells of row `h`.
pub open spec fn row_of(g: Seq<Seq<Cell>>, h: int) -> Seq<Cell> {
    g[h]
}

/// The nine cells of column `h`, top to bottom.
pub open spec fn col_of(g: Seq<Seq<Cell>>, h: int) -> Seq<Cell> {
    Seq::new(9, |j: int| g[j][h])
}

/// The nine cells of box `h`, row-major within the box.
pub open spec fn box_of(g: Seq<Seq<Cell>>, h: int) -> Seq<Cell> {
    Seq::new(9, |j: int| g[(h / 3) * 3 + j / 3][(h % 3) * 3 + j % 3])
}

/// No fixed digit repeats within the house.
pub open spec fn house_ok(h: Seq<Cell>) -> bool {
    forall|i: int, j: int| 0 <= i < j < h.len() ==> !(h[i] is Fixed && h[i] == h[j])
}

/// Every row, column and box is free of repeated fixed digits.
pub open spec fn legal(g: Seq<Seq<Cell>>) -> bool {
    forall|h: int|
        0 <= h < 9 ==> house_ok(#[trigger] row_of(g, h)) && house_ok(col_of(g, h)) && house_ok(
            box_of(g, h),
        )
}

/// A valid board: nine rows of nine cells.
pub open spec fn grid_wf(g: Seq<Seq<Cell>>) -> bool {
    g.len() == 9 && forall|i: int| 0 <= i < 9 ==> (#[trigger] g[i]).len() == 9
}

/// Every cell is fixed.
pub open spec fn all_fixed(g: Seq<Seq<Cell>>) -> bool {
    forall|i: int, j: int| 0 <= i < 9 && 0 <= j < 9 ==> g[i][j] is Fixed
}

/// Every fixed cell of `a` is fixed to the same digit in `b`.
pub open spec fn extends(a: Seq<Seq<Cell>>, b: Seq<Seq<Cell>>) -> bool {
    forall|i: int, j: int|
        0 <= i < 9 && 0 <= j < 9 && (#[trigger] a[i][j]) is Fixed ==> b[i][j] == a[i][j]
}

/// How many cells of one row are fixed.
pub open spec fn count_fixed_row(row: Seq<Cell>) -> int
    decreases row.len(),
{
    if row.len() == 0 {
        0
    } else {
        count_fixed_row(row.drop_last()) + if row.last() is Fixed {
            1int
        } else {
            0int
        }
    }
}

/// How many cells of the board are fixed.
pub open spec fn count_fixed(g: Seq<Seq<Cell>>) -> int
    decreases g.len(),
{
    if g.len() == 0 {
        0
    } else {
        count_fixed(g.drop_last()) + count_fixed_row(g.last())
    }
}

/// The digits fixed in a house, in cell order.
pub open spec fn fixed_digits_seq(h: Seq<Cell>) -> Seq<Number>
    decreases h.len(),
{
    if h.len() == 0 {
        Seq::empty()
    } else {
        let rest = fixed_digits_seq(h.drop_last());
        match h.last() {
            Cell::Fixed(n) => rest.push(n),
            Cell::Empty(_) => rest,
        }
    }
}

pub fn house_is_ok(house: &Vec<Cell>) -> (r: bool)
    requires
        house@.len() == 9,
    ensures
        r == house_ok(house@),
{
    let mut i: usize = 0;
    while i < 8
        invariant
            house@.len() == 9,
            i <= 8,
            forall|a: int, b: int|
                0 <= a < b < 9 && a < i ==> !(house@[a] is Fixed && house@[a] == house@[b]),
        decreases 8 - i,
    {
        let current = house[i];
        match current {
            Cell::Fixed(_) => {
                let mut j: usize = i + 1;
                while j < 9
                    invariant
                        house@.len() == 9,
                        i < j <= 9,
                        current == house@[i as int],
                        current is Fixed,
                        forall|b: int| i < b < j ==> house@[b] != current,
                    decreases 9 - j,
                {
                    if house[j] == current {
                        return false;
                    }
                    j += 1;
                }
            },
            Cell::Empty(_) => {},
        }
        i += 1;
    }
    true
}

/// Remove all fixed numbers in a house from the possible numbers
/// of empty cells in the house. This variant does not promote.
pub fn prune_house(house: &mut Vec<Cell>)
    requires
        old(house)@.len() == 9,
    ensures
        final(house)@.len() == 9,
        forall|i: int|
            0 <= i < 9 ==> final(house)@[i] == match old(house)@[i] {
                Cell::Fixed(n) => Cell::Fixed(n),
                Cell::Empty(s) => Cell::Empty(
                    PossibleNums {
                        bits: crate::possible_nums::remove_all(
                            s.bits,
                            fixed_digits_seq(old(house)@),
                        ),
                    },
                ),
            },
{
    let ghost h0 = house@;
    let ghost ns = fixed_digits_seq(h0);
    let mut fixed_nums: Vec<Number> = Vec::new();
    let mut i: usize = 0;
    while i < 9
        invariant
            house@ == h0,
            h0.len() == 9,
            i <= 9,
            fixed_nums@ == fixed_digits_seq(h0.take(i as int)),
        decreases 9 - i,
    {
        let c = house[i];
        proof {
            assert(h0.take(i as int + 1).drop_last() =~= h0.take(i as int));
            assert(h0.take(i as int + 1).last() == h0[i as int]);
        }
        match c {
            Cell::Fixed(num) => fixed_nums.push(num),
            Cell::Empty(_) => {},
        }
        i += 1;
    }
    proof {
        assert(h0.take(9) =~= h0);
    }
    let mut j: usize = 0;
    while j < 9
        invariant
            house@.len() == 9,
            h0.len() == 9,
            j <= 9,
            fixed_nums@ == ns,
            ns == fixed_digits_seq(h0),
            forall|p: int| j <= p < 9 ==> house@[p] == h0[p],
            forall|p: int|
                0 <= p < j ==> house@[p] == match h0[p] {
                    Cell::Fixed(n) => Cell::Fixed(n),
                    Cell::Empty(s) => Cell::Empty(
                        PossibleNums { bits: crate::possible_nums::remove_all(s.bits, ns) },
                    ),
                },
        decreases 9 - j,
    {
        let c = house[j];
        match c {
            Cell::Fixed(_) => {},
            Cell::Empty(ps) => {
                let mut possible = ps;
                let ghost s0 = ps.bits;
                proof {
                    assert(ns.skip(0) =~= ns);
                }
                let mut t: usize = 0;
                while t < fixed_nums.len()
                    invariant
                        fixed_nums@ == ns,
                        t <= ns.len(),
                        crate::possible_nums::remove_all(s0, ns)
                            == crate::possible_nums::remove_all(
                            possible.bits,
                            ns.skip(t as int),
                        ),
                    decreases ns.len() - t,
                {
                    let num = fixed_nums[t];
                    possible.remove(num);
                    proof {
                        assert(ns.skip(t as int).drop_first() =~= ns.skip(t as int + 1));
                        assert(ns.skip(t as int)[0] == ns[t as int]);
                    }
                    t += 1;
                }
                proof {
                    assert(ns.skip(ns.len() as int) =~= Seq::<Number>::empty());
                }
                house.set(j, Cell::Empty(possible));
            },
        }
        j += 1;
    }
}

pub fn normalize_index(index: u8) -> (r: u8)
    ensures
        r == if index > 8 { 8u8 } else { index },
{
    if index > 8 {
        8
    } else {
        index
    }
}

/// The board with the cell at linear position `p` replaced.
pub open spec fn update_at(g: Seq<Seq<Cell>>, p: int, c: Cell) -> Seq<Seq<Cell>> {
    g.update(p / 9, g[p / 9].update(p % 9, c))
}

/// The outcome of the backtracking search from position `p` on: the
/// first solution under linear traversal and ascending candidate trials,
/// or nothing.
pub open spec fn spec_search(g: Seq<Seq<Cell>>, p: int) -> Option<Seq<Seq<Cell>>>
    decreases 81 - p, 10int,
    when 0 <= p <= 80
    via spec_search_decreases
{
    match cell_at(g, p) {
        Cell::Fixed(_) => if p == 80 {
            Some(g)
        } else {
            spec_search(g, p + 1)
        },
        Cell::Empty(s) => spec_try(g, p, remaining_digits(s.bits, 0)),
    }
}

/// The search tries the candidate digits `ds` at position `p` in order:
/// each is placed, the whole board is checked for legality, and the
/// search goes on at the next position; on failure the next candidate is
/// tried.
pub open spec fn spec_try(g: Seq<Seq<Cell>>, p: int, ds: Seq<int>) -> Option<Seq<Seq<Cell>>>
    decreases 81 - p, ds.len(),
    when 0 <= p <= 80
{
    if ds.len() == 0 {
        None
    } else {
        let num = digit_of((ds[0] - 1) as u16);
        let g2 = update_at(g, p, Cell::Fixed(num));
        if legal(g2) {
            if p == 80 {
                Some(g2)
            } else {
                match spec_search(g2, p + 1) {
                    Some(sol) => Some(sol),
                    None => spec_try(g, p, ds.drop_first()),
                }
            }
        } else {
            spec_try(g, p, ds.drop_first())
        }
    }
}

#[via_fn]
proof fn spec_search_decreases(g: Seq<Seq<Cell>>, p: int) {
    match cell_at(g, p) {
        Cell::Empty(s) => {
            lemma_remaining_len(s.bits, 0);
        },
        Cell::Fixed(_) => {},
    }
}

/// A digit is recovered from its bit position.
proof fn lemma_digit_of_roundtrip(n: Number)
    ensures
        digit_of((n.as_int() - 1) as u16) == n,
{
}

/// The 9×9 board as nine rows of nine cells.
#[derive(Debug, Clone)]
pub struct Grid {
    cells: Vec<Vec<Cell>>,
}

impl View for Grid {
    type V = Seq<Seq<Cell>>;

    closed spec fn view(&self) -> Seq<Seq<Cell>> {
        self.cells@.map_values(|v: Vec<Cell>| v@)
    }
}

/// Each stored row's view is the corresponding row of the board's view.
proof fn lemma_grid_rows(g: &Grid)
    requires
        grid_wf(g@),
    ensures
        g.cells@.len() == 9,
        forall|i: int| 0 <= i < 9 ==> (#[trigger] g.cells@[i])@ == g@[i],
        forall|i: int| 0 <= i < 9 ==> (#[trigger] g.cells@[i])@.len() == 9,
{
    assert forall|i: int| 0 <= i < 9 implies (#[trigger] g.cells@[i])@ == g@[i] by {
        assert(g@[i] == g.cells@[i]@);
    }
}

impl Grid {
    pub open spec fn wf(self) -> bool {
        grid_wf(self@)
    }

    /// An identical board that the search can mutate freely.
    fn duplicate(&self) -> (r: Grid)
        requires
            self.wf(),
        ensures
            r@ == self@,
            r.wf(),
    {
        let mut cells: Vec<Vec<Cell>> = Vec::new();
        let mut i: usize = 0;
        while i < 9
            invariant
                self.wf(),
                i <= 9,
                cells@.len() == i as int,
                forall|a: int| 0 <= a < i ==> (#[trigger] cells@[a])@ == self@[a],
            decreases 9 - i,
        {
            let mut row: Vec<Cell> = Vec::new();
            let mut j: usize = 0;
            while j < 9
                invariant
                    self.wf(),
                    i < 9,
                    j <= 9,
                    row@.len() == j as int,
                    forall|b: int| 0 <= b < j ==> row@[b] == self@[i as int][b],
                decreases 9 - j,
            {
                proof {
                    lemma_grid_rows(self);
                }
                row.push(self.cells[i][j]);
                j += 1;
            }
            proof {
                assert(row@ =~= self@[i as int]);
            }
            cells.push(row);
            i += 1;
        }
        let r = Grid { cells };
        proof {
            assert(r@ =~= self@);
        }
        r
    }

    /// Replaces the cell at `c`.
    fn set_at(&mut self, c: Coord, cell: Cell)
        requires
            old(self).wf(),
            c.wf(),
        ensures
            final(self).wf(),
            final(self)@ == old(self)@.update(
                c.idx() / 9,
                old(self)@[c.idx() / 9].update(c.idx() % 9, cell),
            ),
    {
        let mut new_row: Vec<Cell> = Vec::new();
        let mut j: usize = 0;
        while j < 9
            invariant
                old(self).wf(),
                self@ == old(self)@,
                c.wf(),
                j <= 9,
                new_row@.len() == j as int,
                forall|b: int|
                    0 <= b < j ==> new_row@[b] == if b == c.idx() % 9 {
                        cell
                    } else {
                        old(self)@[c.idx() / 9][b]
                    },
            decreases 9 - j,
        {
            proof {
                lemma_grid_rows(self);
            }
            if j == c.col {
                new_row.push(cell);
            } else {
                new_row.push(self.cells[c.row][j]);
            }
            j += 1;
        }
        proof {
            assert(new_row@ =~= old(self)@[c.idx() / 9].update(c.idx() % 9, cell));
        }
        proof {
            lemma_grid_rows(self);
        }
        self.cells.set(c.row, new_row);
        proof {
            assert(self@ =~= old(self)@.update(
                c.idx() / 9,
                old(self)@[c.idx() / 9].update(c.idx() % 9, cell),
            ));
        }
    }

    fn sufficient_hints(&self) -> (r: bool)
        requires
            self.wf(),
        ensures
            r <==> count_fixed(self@) >= 17,
    {
        let mut count: usize = 0;
        let mut i: usize = 0;
        while i < 9
            invariant
                self.wf(),
                i <= 9,
                count == count_fixed(self@.take(i as int)),
                count <= 81 * i,
            decreases 9 - i,
        {
            let mut j: usize = 0;
            while j < 9
                invariant
                    self.wf(),
                    i < 9,
                    j <= 9,
                    count == count_fixed(self@.take(i as int)) + count_fixed_row(
                        self@[i as int].take(j as int),
                    ),
                    count <= 81 * i + j,
                decreases 9 - j,
            {
                proof {
                    lemma_grid_rows(self);
                }
                let c = self.cells[i][j];
                proof {
                    let row = self@[i as int];
                    assert(row.take(j as int + 1).drop_last() =~= row.take(j as int));
                    assert(row.take(j as int + 1).last() == row[j as int]);
                    crate::smart_backtrack::lemma_cells_weight_nonneg(Seq::empty());
                }
                match c {
                    Cell::Fixed(_) => {
                        count += 1;
                    },
                    Cell::Empty(_) => {},
                }
                j += 1;
            }
            proof {
                assert(self@.take(i as int + 1).drop_last() =~= self@.take(i as int));
                assert(self@.take(i as int + 1).last() == self@[i as int]);
                assert(self@[i as int].take(9) =~= self@[i as int]);
            }
            i += 1;
        }
        proof {
            assert(self@.take(9) =~= self@);
        }
        count >= 17
    }

    pub fn is_legal(&self) -> (r: bool)
        requires
            self.wf(),
        ensures
            r <==> legal(self@),
    {
        let mut h: usize = 0;
        while h < 9
            invariant
                self.wf(),
                h <= 9,
                forall|g: int| 0 <= g < h ==> house_ok(#[trigger] row_of(self@, g)),
                forall|g: int| 0 <= g < h ==> house_ok(#[trigger] col_of(self@, g)),
                forall|g: int| 0 <= g < h ==> house_ok(#[trigger] box_of(self@, g)),
            decreases 9 - h,
        {
            let row = self.read_row(h);
            if !house_is_ok(&row) {
                return false;
            }
            let col = self.read_col(h);
            if !house_is_ok(&col) {
                return false;
            }
            let box_ = self.read_box(h);
            if !house_is_ok(&box_) {
                return false;
            }
            proof {
                assert forall|g: int| 0 <= g < h + 1 implies house_ok(
                    #[trigger] row_of(self@, g),
                ) by {
                    if g == h {
                        assert(house_ok(row@));
                    }
                }
                assert forall|g: int| 0 <= g < h + 1 implies house_ok(
                    #[trigger] col_of(self@, g),
                ) by {
                    if g == h {
                        assert(house_ok(col@));
                    }
                }
                assert forall|g: int| 0 <= g < h + 1 implies house_ok(
                    #[trigger] box_of(self@, g),
                ) by {
                    if g == h {
                        assert(house_ok(box_@));
                    }
                }
            }
            h += 1;
        }
        true
    }

    fn read_row(&self, h: usize) -> (r: Vec<Cell>)
        requires
            self.wf(),
            h < 9,
        ensures
            r@ == row_of(self@, h as int),
    {
        let mut r: Vec<Cell> = Vec::new();
        let mut j: usize = 0;
        while j < 9
            invariant
                self.wf(),
                h < 9,
                j <= 9,
                r@.len() == j as int,
                forall|b: int| 0 <= b < j ==> r@[b] == self@[h as int][b],
            decreases 9 - j,
        {
            proof {
                lemma_grid_rows(self);
            }
            r.push(self.cells[h][j]);
            j += 1;
        }
        proof {
            assert(r@ =~= row_of(self@, h as int));
        }
        r
    }

    fn read_col(&self, h: usize) -> (r: Vec<Cell>)
        requires
            self.wf(),
            h < 9,
        ensures
            r@ == col_of(self@, h as int),
    {
        let mut r: Vec<Cell> = Vec::new();
        let mut j: usize = 0;
        while j < 9
            invariant
                self.wf(),
                h < 9,
                j <= 9,
                r@.len() == j as int,
                forall|b: int| 0 <= b < j ==> r@[b] == self@[b][h as int],
            decreases 9 - j,
        {
            proof {
                lemma_grid_rows(self);
            }
            r.push(self.cells[j][h]);
            j += 1;
        }
        proof {
            assert(r@ =~= col_of(self@, h as int));
        }
        r
    }

    fn read_box(&self, h: usize) -> (r: Vec<Cell>)
        requires
            self.wf(),
            h < 9,
        ensures
            r@ == box_of(self@, h as int),
    {
        let row_start = (h / 3) * 3;
        let col_start = (h % 3) * 3;
        let mut r: Vec<Cell> = Vec::new();
        let mut j: usize = 0;
        while j < 9
            invariant
                self.wf(),
                h < 9,
                row_start == (h / 3) * 3,
                col_start == (h % 3) * 3,
                j <= 9,
                r@.len() == j as int,
                forall|b: int|
                    0 <= b < j ==> r@[b] == self@[(h as int / 3) * 3 + b / 3][(h as int % 3) * 3
                        + b % 3],
            decreases 9 - j,
        {
            proof {
                lemma_grid_rows(self);
            }
            r.push(self.cells[row_start + j / 3][col_start + j % 3]);
            j += 1;
        }
        proof {
            assert(r@ =~= box_of(self@, h as int));
        }
        r
    }

    /// Reads and validates a grid: rows separated by newline, cells by
    /// comma. A grid with a repeated fixed digit in a house, or with
    /// fewer than 17 hints, is rejected.
    pub fn from_csv_str(input: &str) -> (r: Result<Self, GridParseError>)
        ensures
            match r {
                Ok(g) => {
                    &&& g.wf()
                    &&& g@ == parsed_grid(input@)
                    &&& legal(g@)
                    &&& count_fixed(g@) >= 17
                },
                Err(GridParseError::IllegalPuzzle) => !legal(parsed_grid(input@)),
                Err(GridParseError::TooFewHints) => legal(parsed_grid(input@)) && count_fixed(
                    parsed_grid(input@),
                ) < 17,
            },
    {
        let ghost s = input@;
        let ghost rows_f = crate::csv::fields(crate::csv::Sep::Line, s);
        let n = input.unicode_len();
        let mut cells: Vec<Vec<Cell>> = Vec::new();
        let mut i: usize = 0;
        while i < 9
            invariant
                i <= 9,
                cells@.len() == i as int,
                forall|a: int|
                    0 <= a < i ==> (#[trigger] cells@[a])@ == Seq::new(
                        9,
                        |j: int| Cell::spec_empty(),
                    ),
            decreases 9 - i,
        {
            let mut row: Vec<Cell> = Vec::new();
            let mut j: usize = 0;
            while j < 9
                invariant
                    j <= 9,
                    row@.len() == j as int,
                    forall|b: int| 0 <= b < j ==> row@[b] == Cell::spec_empty(),
                decreases 9 - j,
            {
                row.push(Cell::init_empty());
                j += 1;
            }
            proof {
                assert(row@ =~= Seq::new(9, |j: int| Cell::spec_empty()));
            }
            cells.push(row);
            i += 1;
        }
        let mut p: usize = 0;
        let mut i: usize = 0;
        proof {
            assert(s.skip(0) =~= s);
        }
        loop
            invariant_except_break
                rows_f.subrange(i as int, rows_f.len() as int) == crate::csv::fields(
                    crate::csv::Sep::Line,
                    s.skip(p as int),
                ),
            invariant
                s == input@,
                p <= n,
                n == s.len(),
                i <= 9,
                i <= rows_f.len(),
                rows_f == crate::csv::fields(crate::csv::Sep::Line, s),
                cells@.len() == 9,
                forall|a: int| 0 <= a < i ==> (#[trigger] cells@[a])@ == parsed_row(rows_f[a]),
                forall|a: int|
                    i <= a < 9 ==> (#[trigger] cells@[a])@ == Seq::new(
                        9,
                        |j: int| Cell::spec_empty(),
                    ),
            ensures
                i == 9 || i as int == rows_f.len(),
            decreases n - p,
        {
            proof {
                crate::csv::lemma_fields_len(crate::csv::Sep::Line, s.skip(p as int));
                assert(rows_f.subrange(i as int, rows_f.len() as int).len() >= 1);
            }
            if i >= 9 {
                break ;
            }
            let q = crate::csv::scan_sep(crate::csv::Sep::Line, input, p, n);
            let row_text = input.substring_char(p, q);
            let rowv = parse_row(row_text);
            cells.set(i, rowv);
            proof {
                let rest = s.skip(p as int);
                let i_rel = crate::csv::find_sep(crate::csv::Sep::Line, rest);
                assert(i_rel == q - p);
                let fr = crate::csv::fields(crate::csv::Sep::Line, rest);
                assert(rows_f[i as int] == fr[0]);
                assert(rest.take(i_rel) =~= s.subrange(p as int, q as int));
                if (q as int) < n {
                    assert(fr[0] =~= s.subrange(p as int, q as int));
                } else {
                    assert(rest =~= s.subrange(p as int, q as int));
                }
                assert(rows_f[i as int] =~= s.subrange(p as int, q as int));
                assert(row_text@ == s.subrange(p as int, q as int));
                assert(cells@[i as int]@ == parsed_row(rows_f[i as int]));
            }
            if q < n {
                proof {
                    let rest = s.skip(p as int);
                    let i_rel = q - p;
                    let fr = crate::csv::fields(crate::csv::Sep::Line, rest);
                    assert(rest.skip(i_rel + 1) =~= s.skip(q as int + 1));
                    assert(fr.subrange(1, fr.len() as int) =~= crate::csv::fields(
                        crate::csv::Sep::Line,
                        s.skip(q as int + 1),
                    ));
                    assert(rows_f.subrange(i as int + 1, rows_f.len() as int) =~= fr.subrange(
                        1,
                        fr.len() as int,
                    ));
                }
                p = q + 1;
                i += 1;
            } else {
                proof {
                    let rest = s.skip(p as int);
                    let fr = crate::csv::fields(crate::csv::Sep::Line, rest);
                    assert(fr.len() == 1);
                    assert(rows_f.len() == i + 1);
                }
                i += 1;
                break ;
            }
        }
        let g = Grid { cells };
        proof {
            assert forall|a: int| 0 <= a < 9 implies g@[a] == parsed_grid(s)[a] by {
                assert(g@[a] == cells@[a]@);
                if a >= rows_f.len() {
                    assert(g@[a] =~= Seq::new(9, |j: int| Cell::spec_empty()));
                }
            }
            assert(g@ =~= parsed_grid(s));
        }
        if !g.is_legal() {
            Err(GridParseError::IllegalPuzzle)
        } else if !g.sufficient_hints() {
            Err(GridParseError::TooFewHints)
        } else {
            Ok(g)
        }
    }

    /// Searches for a completion of a validated grid by backtracking. The
    /// input grid is consumed; a solution extends it cell for cell, and a
    /// legal input yields a legal solution. The outcome is pinned to a
    /// spec function of the entry grid alone (`spec_search`), so solving
    /// the same grid twice yields identical results.
    pub fn solve(self) -> (r: Result<Grid, SolveError>)
        requires
            self.wf(),
        ensures
            match r {
                Ok(sol) => {
                    &&& sol.wf()
                    &&& all_fixed(sol@)
                    &&& extends(self@, sol@)
                    &&& legal(self@) ==> legal(sol@)
                    &&& Some(sol@) == spec_search(self@, 0)
                },
                Err(e) => e == SolveError::NoSolutionFound && spec_search(self@, 0) is None,
            },
    {
        self.solve_helper(Coord::first())
    }

    fn solve_helper(&self, c: Coord) -> (r: Result<Grid, SolveError>)
        requires
            self.wf(),
            c.wf(),
            forall|p: int| 0 <= p < c.idx() ==> cell_at(self@, p) is Fixed,
        ensures
            match r {
                Ok(sol) => {
                    &&& sol.wf()
                    &&& all_fixed(sol@)
                    &&& extends(self@, sol@)
                    &&& legal(self@) ==> legal(sol@)
                    &&& Some(sol@) == spec_search(self@, c.idx())
                },
                Err(e) => e == SolveError::NoSolutionFound && spec_search(self@, c.idx())
                    is None,
            },
        decreases 81 - c.idx(),
    {
        proof {
            lemma_grid_rows(self);
        }
        let cell = self.cells[c.row][c.col];
        proof {
            assert(cell == cell_at(self@, c.idx()));
        }
        match cell {
            Cell::Fixed(_) => {
                match c.next() {
                    Some(next_c) => {
                        proof {
                            assert forall|p: int| 0 <= p < next_c.idx() implies cell_at(self@, p)
                                is Fixed by {}
                            assert(spec_search(self@, c.idx()) == spec_search(
                                self@,
                                c.idx() + 1,
                            ));
                        }
                        self.solve_helper(next_c)
                    },
                    None => {
                        proof {
                            assert forall|i: int, j: int|
                                0 <= i < 9 && 0 <= j < 9 implies self@[i][j] is Fixed by {
                                let p = i * 9 + j;
                                assert(p / 9 == i && p % 9 == j);
                                if p < 80 {
                                    assert(cell_at(self@, p) is Fixed);
                                } else {
                                    assert(p == 80);
                                    assert(cell_at(self@, 80) is Fixed);
                                }
                            }
                            assert(spec_search(self@, c.idx()) == Some(self@));
                        }
                        Ok(self.duplicate())
                    },
                }
            },
            Cell::Empty(possible) => {
                let mut it = possible.iter();
                loop
                    invariant
                        self.wf(),
                        c.wf(),
                        cell_at(self@, c.idx()) == Cell::Empty(possible),
                        forall|p: int| 0 <= p < c.idx() ==> cell_at(self@, p) is Fixed,
                        it.index <= 9,
                        it.bits == possible.bits,
                        spec_search(self@, c.idx()) == spec_try(
                            self@,
                            c.idx(),
                            remaining_digits(it.bits, it.index as int),
                        ),
                    ensures
                        spec_search(self@, c.idx()) is None,
                    decreases 9 - it.index,
                {
                    let ghost pre_it = it;
                    match it.next() {
                        None => {
                            proof {
                                assert(remaining_digits(pre_it.bits, pre_it.index as int)
                                    =~= Seq::<int>::empty());
                                assert(spec_try(self@, c.idx(), Seq::<int>::empty()) is None);
                            }
                            break ;
                        },
                        Some(num) => {
                            let ghost ds = remaining_digits(pre_it.bits, pre_it.index as int);
                            proof {
                                lemma_digit_of_roundtrip(num);
                                assert(ds[0] == num.as_int());
                                assert(ds.drop_first() =~= remaining_digits(
                                    it.bits,
                                    it.index as int,
                                ));
                            }
                            let mut g2 = self.duplicate();
                            g2.set_at(c, Cell::Fixed(num));
                            proof {
                                assert(g2@ == update_at(self@, c.idx(), Cell::Fixed(num)));
                                assert(extends(self@, g2@));
                                assert forall|p: int|
                                    0 <= p < c.idx() + 1 implies cell_at(g2@, p) is Fixed by {
                                    if p < c.idx() {
                                        assert(cell_at(self@, p) is Fixed);
                                        assert(p / 9 != c.idx() / 9 || p % 9 != c.idx() % 9);
                                    }
                                }
                            }
                            if g2.is_legal() {
                                match c.next() {
                                    Some(next_c) => {
                                        match g2.solve_helper(next_c) {
                                            Ok(sol) => {
                                                proof {
                                                    assert forall|i: int, j: int|
                                                        0 <= i < 9 && 0 <= j < 9 && (
                                                        #[trigger] self@[i][j]) is Fixed implies
                                                        sol@[i][j] == self@[i][j] by {
                                                        assert(g2@[i][j] == self@[i][j]);
                                                    }
                                                    assert(spec_try(self@, c.idx(), ds) == Some(
                                                        sol@,
                                                    ));
                                                }
                                                return Ok(sol);
                                            },
                                            Err(_) => {
                                                proof {
                                                    assert(spec_try(self@, c.idx(), ds)
                                                        == spec_try(
                                                        self@,
                                                        c.idx(),
                                                        ds.drop_first(),
                                                    ));
                                                }
                                            },
                                        }
                                    },
                                    None => {
                                        proof {
                                            assert forall|i: int, j: int|
                                                0 <= i < 9 && 0 <= j < 9 implies g2@[i][j]
                                                is Fixed by {
                                                let p = i * 9 + j;
                                                assert(p / 9 == i && p % 9 == j);
                                                if p < 80 {
                                                    assert(cell_at(g2@, p) is Fixed);
                                                } else {
                                                    assert(cell_at(g2@, 80) is Fixed);
                                                }
                                            }
                                            assert(spec_try(self@, c.idx(), ds) == Some(g2@));
                                        }
                                        return Ok(g2);
                                    },
                                }
                            } else {
                                proof {
                                    assert(spec_try(self@, c.idx(), ds) == spec_try(
                                        self@,
                                        c.idx(),
                                        ds.drop_first(),
                                    ));
                                }
                            }
                        },
                    }
                }
                Err(SolveError::NoSolutionFound)
            },
        }
    }

    #[allow(dead_code)]
    fn prune(&mut self)
        ensures
            final(self)@ == old(self)@,
    {
    }

    pub fn rows(&self) -> (r: RowIterator)
        requires
            self.wf(),
        ensures
            r.grid_view() == self@,
            r.at() == 0,
    {
        RowIterator { grid: self.duplicate(), index: 0 }
    }

    pub fn cols(&self) -> (r: ColIterator)
        requires
            self.wf(),
        ensures
            r.grid_view() == self@,
            r.at() == 0,
    {
        ColIterator { grid: self.duplicate(), index: 0 }
    }

    pub fn boxes(&self) -> (r: BoxIterator)
        requires
            self.wf(),
        ensures
            r.grid_view() == self@,
            r.at() == 0,
    {
        BoxIterator { grid: self.duplicate(), index: 0 }
    }

    /// Draws the board as a boxed diagram, heavy lines between the
    /// three-row and three-column bands.
    pub fn pretty_print(&self) -> (r: String)
        requires
            self.wf(),
        ensures
            r@ == render_grid(self@),
    {
        let line_top = "┏━━━┯━━━┯━━━┳━━━┯━━━┯━━━┳━━━┯━━━┯━━━┓\n";
        let line_mid_thin = "┠───┼───┼───╂───┼───┼───╂───┼───┼───┨\n";
        let line_mid_thick = "┣━━━┿━━━┿━━━╋━━━┿━━━┿━━━╋━━━┿━━━┿━━━┫\n";
        let line_bottom = "┗━━━┷━━━┷━━━┻━━━┷━━━┷━━━┻━━━┷━━━┷━━━┛";
        let mut output = String::from_str(line_top);
        let row = self.read_row(0);
        let row_str = format_row(&row);
        output.append(row_str.as_str());
        output.append(line_mid_thin);
        let row = self.read_row(1);
        let row_str = format_row(&row);
        output.append(row_str.as_str());
        output.append(line_mid_thin);
        let row = self.read_row(2);
        let row_str = format_row(&row);
        output.append(row_str.as_str());
        output.append(line_mid_thick);
        let row = self.read_row(3);
        let row_str = format_row(&row);
        output.append(row_str.as_str());
        output.append(line_mid_thin);
        let row = self.read_row(4);
        let row_str = format_row(&row);
        output.append(row_str.as_str());
        output.append(line_mid_thin);
        let row = self.read_row(5);
        let row_str = format_row(&row);
        output.append(row_str.as_str());
        output.append(line_mid_thick);
        let row = self.read_row(6);
        let row_str = format_row(&row);
        output.append(row_str.as_str());
        output.append(line_mid_thin);
        let row = self.read_row(7);
        let row_str = format_row(&row);
        output.append(row_str.as_str());
        output.append(line_mid_thin);
        let row = self.read_row(8);
        let row_str = format_row(&row);
        output.append(row_str.as_str());
        output.append(line_bottom);
        proof {
            assert(output@ =~= render_grid(self@));
        }
        output
    }
}

/// The cell a field of the input text denotes: its first character
/// decides; an empty field is an open cell.
pub open spec fn cell_of_field(f: Seq<char>) -> Cell {
    if f.len() == 0 {
        Cell::spec_empty()
    } else {
        Cell::spec_from_char(f[0])
    }
}

/// The row of cells a line of the input denotes: comma-separated fields
/// fill cells left to right, extras are discarded, missing fields leave
/// cells open.
pub open spec fn parsed_row(rs: Seq<char>) -> Seq<Cell> {
    Seq::new(
        9,
        |j: int|
            {
                let cs = crate::csv::fields(crate::csv::Sep::Comma, rs);
                if j < cs.len() {
                    cell_of_field(cs[j])
                } else {
                    Cell::spec_empty()
                }
            },
    )
}

/// The board a text denotes: newline-separated lines fill rows top to
/// bottom, extras are discarded, missing lines leave rows open.
pub open spec fn parsed_grid(s: Seq<char>) -> Seq<Seq<Cell>> {
    Seq::new(
        9,
        |i: int|
            {
                let rows = crate::csv::fields(crate::csv::Sep::Line, s);
                if i < rows.len() {
                    parsed_row(rows[i])
                } else {
                    Seq::new(9, |j: int| Cell::spec_empty())
                }
            },
    )
}

/// Reads one row of the board from one line of the input.
fn parse_row(input: &str) -> (r: Vec<Cell>)
    ensures
        r@ == parsed_row(input@),
{
    let ghost s = input@;
    let ghost fs = crate::csv::fields(crate::csv::Sep::Comma, s);
    let n = input.unicode_len();
    let mut cells: Vec<Cell> = Vec::new();
    let mut i: usize = 0;
    while i < 9
        invariant
            i <= 9,
            cells@.len() == i as int,
            forall|q: int| 0 <= q < i ==> cells@[q] == Cell::spec_empty(),
        decreases 9 - i,
    {
        cells.push(Cell::init_empty());
        i += 1;
    }
    let mut p: usize = 0;
    let mut j: usize = 0;
    proof {
        assert(s.skip(0) =~= s);
    }
    loop
        invariant_except_break
            fs.subrange(j as int, fs.len() as int) == crate::csv::fields(
                crate::csv::Sep::Comma,
                s.skip(p as int),
            ),
        invariant
            s == input@,
            p <= n,
            n == s.len(),
            j <= 9,
            j <= fs.len(),
            fs == crate::csv::fields(crate::csv::Sep::Comma, s),
            cells@.len() == 9,
            forall|q: int| 0 <= q < j && q < 9 ==> cells@[q] == cell_of_field(fs[q]),
            forall|q: int| j <= q < 9 ==> cells@[q] == Cell::spec_empty(),
        ensures
            j == 9 || j as int == fs.len(),
        decreases n - p,
    {
        proof {
            crate::csv::lemma_fields_len(crate::csv::Sep::Comma, s.skip(p as int));
            assert(fs.subrange(j as int, fs.len() as int).len() >= 1);
        }
        if j >= 9 {
            break ;
        }
        let q = crate::csv::scan_sep(crate::csv::Sep::Comma, input, p, n);
        if q > p {
            let ch = input.get_char(p);
            cells.set(j, Cell::from_char(ch));
        }
        proof {
            let rest = s.skip(p as int);
            let i_rel = crate::csv::find_sep(crate::csv::Sep::Comma, rest);
            assert(i_rel == q - p);
            let fr = crate::csv::fields(crate::csv::Sep::Comma, rest);
            assert(fs[j as int] == fr[0]);
            assert(rest.take(i_rel) =~= s.subrange(p as int, q as int));
            if (q as int) < n {
                assert(fr[0] =~= s.subrange(p as int, q as int));
            } else {
                assert(rest =~= s.subrange(p as int, q as int));
            }
            assert(fs[j as int] =~= s.subrange(p as int, q as int));
            if q > p {
                assert(fs[j as int][0] == s[p as int]);
                assert(cells@[j as int] == cell_of_field(fs[j as int]));
            } else {
                assert(fs[j as int].len() == 0);
                assert(cells@[j as int] == cell_of_field(fs[j as int]));
            }
        }
        if q < n {
            proof {
                let rest = s.skip(p as int);
                let i_rel = q - p;
                let fr = crate::csv::fields(crate::csv::Sep::Comma, rest);
                assert(rest.skip(i_rel + 1) =~= s.skip(q as int + 1));
                assert(fr.subrange(1, fr.len() as int) =~= crate::csv::fields(
                    crate::csv::Sep::Comma,
                    s.skip(q as int + 1),
                ));
                assert(fs.subrange(j as int + 1, fs.len() as int) =~= fr.subrange(
                    1,
                    fr.len() as int,
                ));
            }
            p = q + 1;
            j += 1;
        } else {
            proof {
                let rest = s.skip(p as int);
                let fr = crate::csv::fields(crate::csv::Sep::Comma, rest);
                assert(fr.len() == 1);
                assert(fs.len() == j + 1);
            }
            j += 1;
            break ;
        }
    }
    proof {
        assert forall|q: int| 0 <= q < 9 implies cells@[q] == parsed_row(s)[q] by {
            if q >= fs.len() {
                assert(cells@[q] == Cell::spec_empty());
            }
        }
        assert(cells@ =~= parsed_row(s));
    }
    cells
}

/// One rendered row of the board, between the vertical separators.
pub open spec fn render_row(h: Seq<Cell>) -> Seq<char> {
    "┃ "@ + seq![h[0].spec_char()] + " │ "@ + seq![h[1].spec_char()] + " │ "@ + seq![
        h[2].spec_char(),
    ] + " ┃ "@ + seq![h[3].spec_char()] + " │ "@ + seq![h[4].spec_char()] + " │ "@ + seq![
        h[5].spec_char(),
    ] + " ┃ "@ + seq![h[6].spec_char()] + " │ "@ + seq![h[7].spec_char()] + " │ "@ + seq![
        h[8].spec_char(),
    ] + " ┃\n"@
}

/// The full boxed diagram of a grid, without a trailing newline.
pub open spec fn render_grid(g: Seq<Seq<Cell>>) -> Seq<char> {
    "┏━━━┯━━━┯━━━┳━━━┯━━━┯━━━┳━━━┯━━━┯━━━┓\n"@ + render_row(row_of(g, 0))
        + "┠───┼───┼───╂───┼───┼───╂───┼───┼───┨\n"@ + render_row(row_of(g, 1))
        + "┠───┼───┼───╂───┼───┼───╂───┼───┼───┨\n"@ + render_row(row_of(g, 2))
        + "┣━━━┿━━━┿━━━╋━━━┿━━━┿━━━╋━━━┿━━━┿━━━┫\n"@ + render_row(row_of(g, 3))
        + "┠───┼───┼───╂───┼───┼───╂───┼───┼───┨\n"@ + render_row(row_of(g, 4))
        + "┠───┼───┼───╂───┼───┼───╂───┼───┼───┨\n"@ + render_row(row_of(g, 5))
        + "┣━━━┿━━━┿━━━╋━━━┿━━━┿━━━╋━━━┿━━━┿━━━┫\n"@ + render_row(row_of(g, 6))
        + "┠───┼───┼───╂───┼───┼───╂───┼───┼───┨\n"@ + render_row(row_of(g, 7))
        + "┠───┼───┼───╂───┼───┼───╂───┼───┼───┨\n"@ + render_row(row_of(g, 8))
        + "┗━━━┷━━━┷━━━┻━━━┷━━━┷━━━┻━━━┷━━━┷━━━┛"@
}

/// The one-character text a cell renders as.
fn cell_str(c: Cell) -> (r: &'static str)
    ensures
        r@ == seq![c.spec_char()],
{
    let r = match c {
        Cell::Fixed(Number::One) => "1",
        Cell::Fixed(Number::Two) => "2",
        Cell::Fixed(Number::Three) => "3",
        Cell::Fixed(Number::Four) => "4",
        Cell::Fixed(Number::Five) => "5",
        Cell::Fixed(Number::Six) => "6",
        Cell::Fixed(Number::Seven) => "7",
        Cell::Fixed(Number::Eight) => "8",
        Cell::Fixed(Number::Nine) => "9",
        Cell::Empty(_) => " ",
    };
    proof {
        reveal_strlit("1");
        reveal_strlit("2");
        reveal_strlit("3");
        reveal_strlit("4");
        reveal_strlit("5");
        reveal_strlit("6");
        reveal_strlit("7");
        reveal_strlit("8");
        reveal_strlit("9");
        reveal_strlit(" ");
        assert(r@ =~= seq![c.spec_char()]);
    }
    r
}

/// One row of the diagram, between its border lines.
fn format_row(row: &Vec<Cell>) -> (r: String)
    requires
        row@.len() == 9,
    ensures
        r@ == render_row(row@),
{
    let thin = " │ ";
    let thick = " ┃ ";
    let mut output = String::from_str("┃ ");
    output.append(cell_str(row[0]));
    output.append(thin);
    output.append(cell_str(row[1]));
    output.append(thin);
    output.append(cell_str(row[2]));
    output.append(thick);
    output.append(cell_str(row[3]));
    output.append(thin);
    output.append(cell_str(row[4]));
    output.append(thin);
    output.append(cell_str(row[5]));
    output.append(thick);
    output.append(cell_str(row[6]));
    output.append(thin);
    output.append(cell_str(row[7]));
    output.append(thin);
    output.append(cell_str(row[8]));
    output.append(" ┃\n");
    proof {
        assert(output@ =~= render_row(row@));
    }
    output
}

/// Yields the nine rows of a snapshot of a grid, top to bottom.
pub struct RowIterator {
    grid: Grid,
    index: u8,
}

impl RowIterator {
    pub closed spec fn grid_view(self) -> Seq<Seq<Cell>> {
        self.grid@
    }

    /// The next house index to yield.
    pub closed spec fn at(self) -> int {
        self.index as int
    }

    pub fn next(&mut self) -> (r: Option<Vec<Cell>>)
        requires
            grid_wf(old(self).grid_view()),
        ensures
            final(self).grid_view() == old(self).grid_view(),
            old(self).at() < 9 ==> (r matches Some(v) && v@ == row_of(
                old(self).grid_view(),
                old(self).at(),
            ) && final(self).at() == old(self).at() + 1),
            old(self).at() >= 9 ==> r is None && final(self).at() == old(self).at(),
    {
        if self.index < 9 {
            let output = self.grid.read_row(self.index as usize);
            self.index += 1;
            Some(output)
        } else {
            None
        }
    }
}

/// Yields the nine columns of a snapshot of a grid, left to right.
pub struct ColIterator {
    grid: Grid,
    index: u8,
}

impl ColIterator {
    pub closed spec fn grid_view(self) -> Seq<Seq<Cell>> {
        self.grid@
    }

    /// The next house index to yield.
    pub closed spec fn at(self) -> int {
        self.index as int
    }

    pub fn next(&mut self) -> (r: Option<Vec<Cell>>)
        requires
            grid_wf(old(self).grid_view()),
        ensures
            final(self).grid_view() == old(self).grid_view(),
            old(self).at() < 9 ==> (r matches Some(v) && v@ == col_of(
                old(self).grid_view(),
                old(self).at(),
            ) && final(self).at() == old(self).at() + 1),
            old(self).at() >= 9 ==> r is None && final(self).at() == old(self).at(),
    {
        if self.index < 9 {
            let output = self.grid.read_col(self.index as usize);
            self.index += 1;
            Some(output)
        } else {
            None
        }
    }
}

/// Yields the nine boxes of a snapshot of a grid, row-major.
pub struct BoxIterator {
    grid: Grid,
    index: u8,
}

impl BoxIterator {
    pub closed spec fn grid_view(self) -> Seq<Seq<Cell>> {
        self.grid@
    }

    /// The next house index to yield.
    pub closed spec fn at(self) -> int {
        self.index as int
    }

    pub fn next(&mut self) -> (r: Option<Vec<Cell>>)
        requires
            grid_wf(old(self).grid_view()),
        ensures
            final(self).grid_view() == old(self).grid_view(),
            old(self).at() < 9 ==> (r matches Some(v) && v@ == box_of(
                old(self).grid_view(),
                old(self).at(),
            ) && final(self).at() == old(self).at() + 1),
            old(self).at() >= 9 ==> r is None && final(self).at() == old(self).at(),
    {
        if self.index < 9 {
            let output = self.grid.read_box(self.index as usize);
            self.index += 1;
            Some(output)
        } else {
            None
        }
    }
}

// Error enums

/// Why a validated grid was not solved.
#[derive(Debug, Clone, Copy, PartialEq, Eq, Structural)]
pub enum SolveError {
    NoSolutionFound,
}

/// Why a text was not accepted as a puzzle.
#[derive(Debug, Clone, Copy, PartialEq, Eq, Structural)]
pub enum GridParseError {
    TooFewHints,
    IllegalPuzzle,
}

} // verus!

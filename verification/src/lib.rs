//! A verified solver for standard 9x9 Sudoku puzzles.
//!
//! The solver lifts a partially filled board into a tracker of remaining
//! candidate digits, reduces the tracker to a fixed point with a family of
//! elimination rules driven by a priority work queue, and branches on an
//! undecided cell when deduction alone does not finish the board. Every
//! board returned by [`Board::solve`] is proved to satisfy the three Sudoku
//! constraints and to extend the input board.

use vstd::prelude::*;

pub mod api;
pub mod availset;
pub mod coordinates;
mod deductive;
mod remaining;
pub mod trace;
pub mod zones;

verus! {

/// A Sudoku board value: a digit in the range 1..=9.
#[derive(Clone, Copy, Debug, PartialEq, Eq, Hash, Structural)]
pub struct Val(u8);

impl Val {
    /// True when the inner digit is in the valid range 1..=9.
    pub closed spec fn wf(self) -> bool {
        1 <= self.0 <= 9
    }

    /// The digit as a mathematical integer, 1..=9.
    pub closed spec fn spec_val(self) -> int {
        self.0 as int
    }

    /// The digit value holding the given integer.
    pub closed spec fn new_spec(d: int) -> Val {
        Val(d as u8)
    }

    /// The digit value of an in-range integer carries that integer.
    pub proof fn lemma_new_spec(d: int)
        ensures
            1 <= d <= 9 ==> Val::new_spec(d).wf() && Val::new_spec(d).spec_val() == d,
    {
    }

    /// A well-formed digit is determined by its integer value.
    pub proof fn lemma_val_injective(a: Val, b: Val)
        ensures
            a.spec_val() == b.spec_val() ==> a == b,
            a.wf() ==> 1 <= a.spec_val() <= 9,
    {
    }

    /// Create a new Val with the given digit.
    pub fn new(val: u8) -> (r: Val)
        requires
            1 <= val <= 9,
        ensures
            r.wf() && r.spec_val() == val,
            r == Val::new_spec(val as int),
    {
        Val(val)
    }

    /// Get the digit as a u8.
    pub fn val(self) -> (r: u8)
        ensures
            r == self.spec_val(),
    {
        self.0
    }

    /// The 0-based flat index of this digit.
    pub fn idx(self) -> (r: usize)
        requires
            self.wf(),
        ensures
            r == self.spec_val() - 1,
    {
        (self.0 - 1) as usize
    }

    /// The digit with the given 0-based flat index.
    pub fn from_idx(idx: usize) -> (r: Val)
        requires
            idx < 9,
        ensures
            r.wf() && r.spec_val() == idx + 1,
    {
        Val(idx as u8 + 1)
    }

    /// All nine digits, in ascending order.
    pub fn values() -> (r: Vec<Val>)
        ensures
            r@.len() == 9,
            forall|i: int| 0 <= i < 9 ==> (#[trigger] r@[i]).wf() && r@[i].spec_val() == i + 1,
    {
        let mut vals: Vec<Val> = Vec::new();
        let mut d: u8 = 1;
        while d <= 9
            invariant
                1 <= d <= 10,
                vals@.len() == d - 1,
                forall|i: int| 0 <= i < d - 1 ==> (#[trigger] vals@[i]).wf() && vals@[i].spec_val() == i + 1,
            decreases 10 - d,
        {
            vals.push(Val(d));
            d = d + 1;
        }
        vals
    }
}

/// The number of cells named by the zone `zs` whose value on board `b` is
/// the digit `d`.
pub open spec fn board_zone_count(b: Seq<Option<Val>>, zs: Seq<int>, d: int) -> int
    decreases zs.len(),
{
    if zs.len() == 0 {
        0
    } else {
        board_zone_count(b, zs.drop_last(), d) + if b[zs.last()] matches Some(v) && v.spec_val()
            == d {
            1int
        } else {
            0int
        }
    }
}

/// A board view is well formed: 81 cells, every set cell a digit 1..=9.
pub open spec fn board_wf(b: Seq<Option<Val>>) -> bool {
    &&& b.len() == 81
    &&& forall|i: int| 0 <= i < 81 ==> ((#[trigger] b[i]) matches Some(v) ==> v.wf())
}

/// Every cell of the board holds a digit.
pub open spec fn board_filled(b: Seq<Option<Val>>) -> bool {
    forall|i: int| 0 <= i < 81 ==> (#[trigger] b[i]) is Some
}

/// The board is a complete, valid Sudoku solution: every cell holds a
/// digit and every row, column and sector holds each digit exactly once.
pub open spec fn board_solved(b: Seq<Option<Val>>) -> bool {
    &&& board_wf(b)
    &&& board_filled(b)
    &&& forall|z: int, d: int|
        0 <= z < 9 && 1 <= d <= 9 ==> #[trigger] board_zone_count(b, zones::row_cells(z), d) == 1
    &&& forall|z: int, d: int|
        0 <= z < 9 && 1 <= d <= 9 ==> #[trigger] board_zone_count(b, zones::col_cells(z), d) == 1
    &&& forall|z: int, d: int|
        0 <= z < 9 && 1 <= d <= 9 ==> #[trigger] board_zone_count(b, zones::sector_cells(z), d)
            == 1
}

/// Board `b` agrees with board `b0` on every cell that `b0` pins.
pub open spec fn board_extends(b: Seq<Option<Val>>, b0: Seq<Option<Val>>) -> bool {
    forall|i: int| 0 <= i < 81 && (#[trigger] b0[i]) is Some ==> b[i] == b0[i]
}

/// A Sudoku board: 81 cells in row-major order, each blank or holding a
/// digit 1..=9.
#[derive(Clone, Debug, PartialEq, Eq, Hash)]
pub struct Board {
    cells: Vec<Option<Val>>,
}

impl Board {
    /// The cells of the board, row-major.
    pub closed spec fn view(self) -> Seq<Option<Val>> {
        self.cells@
    }

    /// The board has 81 well-formed cells.
    pub open spec fn wf(self) -> bool {
        board_wf(self@)
    }

    /// Create a new board with no cell specified.
    pub fn new() -> (r: Board)
        ensures
            r.wf(),
            forall|i: int| 0 <= i < 81 ==> r@[i] is None,
    {
        let mut cells: Vec<Option<Val>> = Vec::new();
        let mut i: usize = 0;
        while i < 81
            invariant
                i <= 81,
                cells@.len() == i,
                forall|j: int| 0 <= j < i ==> cells@[j] is None,
            decreases 81 - i,
        {
            cells.push(None);
            i = i + 1;
        }
        Board { cells }
    }

    /// Build a board from its 81 cells, row-major.
    pub fn from_cells(cells: Vec<Option<Val>>) -> (r: Result<Board, availset::IncorrectSize>)
        requires
            forall|i: int|
                0 <= i < cells@.len() ==> ((#[trigger] cells@[i]) matches Some(v) ==> v.wf()),
        ensures
            match r {
                Ok(b) => cells@.len() == 81 && b.wf() && b@ == cells@,
                Err(e) => cells@.len() != 81 && e.expected == 81 && e.actual == cells@.len(),
            },
    {
        if cells.len() == 81 {
            Ok(Board { cells })
        } else {
            Err(availset::IncorrectSize { expected: 81, actual: cells.len() })
        }
    }

    /// Manually specify the value of a position.
    pub fn specify(&mut self, coord: coordinates::Coord, val: Val)
        requires
            old(self).wf(),
            coord.wf(),
            val.wf(),
        ensures
            final(self).wf(),
            final(self)@ == old(self)@.update(coord.spec_idx(), Some(val)),
    {
        let i = coord.idx();
        self.cells.set(i, Some(val));
    }

    /// Manually clear the value of a position.
    pub fn clear(&mut self, coord: coordinates::Coord)
        requires
            old(self).wf(),
            coord.wf(),
        ensures
            final(self).wf(),
            final(self)@ == old(self)@.update(coord.spec_idx(), None::<Val>),
    {
        let i = coord.idx();
        self.cells.set(i, None);
    }

    /// Get the value at a coordinate, if set.
    pub fn get(&self, coord: coordinates::Coord) -> (r: Option<Val>)
        requires
            self.wf(),
            coord.wf(),
        ensures
            r == self@[coord.spec_idx()],
    {
        self.cells[coord.idx()]
    }

    /// Get the value at a flat cell index, if set.
    pub fn get_idx(&self, i: usize) -> (r: Option<Val>)
        requires
            self.wf(),
            i < 81,
        ensures
            r == self@[i as int],
    {
        self.cells[i]
    }

    /// The 81 cells of the board in row-major order.
    pub fn row_major(&self) -> (r: Vec<Option<Val>>)
        requires
            self.wf(),
        ensures
            r@ == self@,
    {
        let mut out: Vec<Option<Val>> = Vec::new();
        let mut i: usize = 0;
        while i < 81
            invariant
                self.wf(),
                i <= 81,
                out@.len() == i,
                forall|j: int| 0 <= j < i ==> out@[j] == self@[j],
            decreases 81 - i,
        {
            out.push(self.cells[i]);
            i = i + 1;
        }
        proof {
            assert(out@ =~= self@);
        }
        out
    }

    /// The nine cells of the given row, in column order.
    pub fn row(&self, row: coordinates::Row) -> (r: Vec<Option<Val>>)
        requires
            self.wf(),
            row.wf(),
        ensures
            r@.len() == 9,
            forall|k: int| 0 <= k < 9 ==> r@[k] == self@[row.spec_idx() * 9 + k],
    {
        let base = row.idx() * 9;
        let mut out: Vec<Option<Val>> = Vec::new();
        let mut k: usize = 0;
        while k < 9
            invariant
                self.wf(),
                row.wf(),
                base == row.spec_idx() * 9,
                k <= 9,
                out@.len() == k,
                forall|j: int| 0 <= j < k ==> out@[j] == self@[row.spec_idx() * 9 + j],
            decreases 9 - k,
        {
            out.push(self.cells[base + k]);
            k = k + 1;
        }
        out
    }

    /// The nine cells of the given column, in row order.
    pub fn col(&self, col: coordinates::Col) -> (r: Vec<Option<Val>>)
        requires
            self.wf(),
            col.wf(),
        ensures
            r@.len() == 9,
            forall|k: int| 0 <= k < 9 ==> r@[k] == self@[k * 9 + col.spec_idx()],
    {
        let base = col.idx();
        let mut out: Vec<Option<Val>> = Vec::new();
        let mut k: usize = 0;
        while k < 9
            invariant
                self.wf(),
                col.wf(),
                base == col.spec_idx(),
                k <= 9,
                out@.len() == k,
                forall|j: int| 0 <= j < k ==> out@[j] == self@[j * 9 + col.spec_idx()],
            decreases 9 - k,
        {
            out.push(self.cells[k * 9 + base]);
            k = k + 1;
        }
        out
    }
}

/// Two distinct cells of the board share one of the three Sudoku zones.
pub open spec fn same_board_zone(i: int, j: int) -> bool {
    ||| zones::row_of(i) == zones::row_of(j)
    ||| zones::col_of(i) == zones::col_of(j)
    ||| zones::sector_of(i) == zones::sector_of(j)
}

/// Two distinct cells of one zone are pinned to the same digit: a direct
/// contradiction of the Sudoku constraints.
pub open spec fn board_has_conflict(b: Seq<Option<Val>>) -> bool {
    exists|i: int, j: int|
        {
            &&& 0 <= i < 81 && 0 <= j < 81 && i != j
            &&& same_board_zone(i, j)
            &&& #[trigger] b[i] is Some
            &&& #[trigger] b[j] is Some
            &&& b[i]->Some_0.spec_val() == b[j]->Some_0.spec_val()
        }
}

/// The board pins digit `d` on some other cell sharing a zone with `i`.
pub open spec fn board_pins_near(b: Seq<Option<Val>>, i: int, d: int) -> bool {
    exists|j: int|
        {
            &&& 0 <= j < 81 && j != i
            &&& same_board_zone(i, j)
            &&& #[trigger] b[j] is Some
            &&& b[j]->Some_0.spec_val() == d
        }
}

/// Some blank cell already sees all nine digits pinned among the cells
/// that share one of its zones, so it cannot be filled.
pub open spec fn board_has_impossible_cell(b: Seq<Option<Val>>) -> bool {
    exists|i: int|
        {
            &&& 0 <= i < 81
            &&& #[trigger] b[i] is None
            &&& forall|d: int| 1 <= d <= 9 ==> #[trigger] board_pins_near(b, i, d)
        }
}

/// Board zone counts only look at the zone's cells; a cell the zone names
/// that holds `d` makes the count at least one, and two such cells make it
/// at least two.
proof fn lemma_board_zone_count_member(b: Seq<Option<Val>>, zs: Seq<int>, i: int, d: int)
    requires
        zs.contains(i),
        b[i] is Some,
        b[i]->Some_0.spec_val() == d,
    ensures
        board_zone_count(b, zs, d) >= 1,
    decreases zs.len(),
{
    lemma_board_zone_count_bounds(b, zs.drop_last(), d);
    if zs.last() != i {
        let j = choose|j: int| 0 <= j < zs.len() && zs[j] == i;
        assert(zs.drop_last()[j] == i);
        lemma_board_zone_count_member(b, zs.drop_last(), i, d);
    }
}

proof fn lemma_board_zone_count_bounds(b: Seq<Option<Val>>, zs: Seq<int>, d: int)
    ensures
        0 <= board_zone_count(b, zs, d) <= zs.len(),
    decreases zs.len(),
{
    if zs.len() > 0 {
        lemma_board_zone_count_bounds(b, zs.drop_last(), d);
    }
}

/// A positive board zone count names a cell of the zone holding the
/// digit.
proof fn lemma_board_zone_count_exists(b: Seq<Option<Val>>, zs: Seq<int>, d: int)
    requires
        board_zone_count(b, zs, d) >= 1,
    ensures
        exists|j: int|
            0 <= j < zs.len() && (#[trigger] b[zs[j]]) is Some && b[zs[j]]->Some_0.spec_val() == d,
    decreases zs.len(),
{
    if zs.len() > 0 {
        if b[zs.last()] matches Some(v) && v.spec_val() == d {
            assert(b[zs[zs.len() - 1]] is Some && b[zs[zs.len() - 1]]->Some_0.spec_val() == d);
        } else {
            lemma_board_zone_count_exists(b, zs.drop_last(), d);
            let j = choose|j: int|
                0 <= j < zs.drop_last().len() && (#[trigger] b[zs.drop_last()[j]]) is Some
                    && b[zs.drop_last()[j]]->Some_0.spec_val() == d;
            assert(b[zs[j]] is Some && b[zs[j]]->Some_0.spec_val() == d);
        }
    }
}

proof fn lemma_board_zone_count_two(b: Seq<Option<Val>>, zs: Seq<int>, i1: int, i2: int, d: int)
    requires
        zones::zone_wf(zs),
        zs.contains(i1),
        zs.contains(i2),
        i1 != i2,
        b[i1] is Some && b[i1]->Some_0.spec_val() == d,
        b[i2] is Some && b[i2]->Some_0.spec_val() == d,
    ensures
        board_zone_count(b, zs, d) >= 2,
    decreases zs.len(),
{
    let zsp = zs.drop_last();
    if zs.last() == i1 {
        let j = choose|j: int| 0 <= j < zs.len() && zs[j] == i2;
        assert(j < zs.len() - 1);
        assert(zsp[j] == i2);
        lemma_board_zone_count_member(b, zsp, i2, d);
    } else if zs.last() == i2 {
        let j = choose|j: int| 0 <= j < zs.len() && zs[j] == i1;
        assert(j < zs.len() - 1);
        assert(zsp[j] == i1);
        lemma_board_zone_count_member(b, zsp, i1, d);
    } else {
        let j1 = choose|j: int| 0 <= j < zs.len() && zs[j] == i1;
        let j2 = choose|j: int| 0 <= j < zs.len() && zs[j] == i2;
        assert(zsp[j1] == i1);
        assert(zsp[j2] == i2);
        assert(zones::zone_wf(zsp));
        lemma_board_zone_count_two(b, zsp, i1, i2, d);
        lemma_board_zone_count_bounds(b, zsp, d);
    }
}

/// Two equal pins in one zone rule out every solved extension.
pub proof fn lemma_conflict_unsolvable(b0: Seq<Option<Val>>, b: Seq<Option<Val>>)
    requires
        b0.len() == 81,
        board_has_conflict(b0),
    ensures
        !(board_solved(b) && board_extends(b, b0)),
{
    if !(board_solved(b) && board_extends(b, b0)) {
        return ;
    }
    let (i, j): (int, int) = choose|i: int, j: int|
        {
            &&& 0 <= i < 81 && 0 <= j < 81 && i != j
            &&& same_board_zone(i, j)
            &&& #[trigger] b0[i] is Some
            &&& #[trigger] b0[j] is Some
            &&& b0[i]->Some_0.spec_val() == b0[j]->Some_0.spec_val()
        };
    let d = b0[i]->Some_0.spec_val();
    assert(b[i] == b0[i] && b[j] == b0[j]);
    assert(board_wf(b));
    assert(1 <= d <= 9) by {
        assert(b[i] is Some && b[i]->Some_0.wf());
    }
    zones::lemma_cell_decompose(i);
    zones::lemma_cell_decompose(j);
    if zones::row_of(i) == zones::row_of(j) {
        let z = zones::row_of(i);
        zones::lemma_zone_shapes(z);
        zones::lemma_row_membership(z, i);
        zones::lemma_row_membership(z, j);
        lemma_board_zone_count_two(b, zones::row_cells(z), i, j, d);
    } else if zones::col_of(i) == zones::col_of(j) {
        let z = zones::col_of(i);
        zones::lemma_zone_shapes(z);
        zones::lemma_col_membership(z, i);
        zones::lemma_col_membership(z, j);
        lemma_board_zone_count_two(b, zones::col_cells(z), i, j, d);
    } else {
        let z = zones::sector_of(i);
        zones::lemma_zone_shapes(z);
        zones::lemma_sector_membership(z, i);
        zones::lemma_sector_membership(z, j);
        lemma_board_zone_count_two(b, zones::sector_cells(z), i, j, d);
    }
}

/// A blank cell that already sees all nine digits rules out every solved
/// extension.
pub proof fn lemma_impossible_cell_unsolvable(b0: Seq<Option<Val>>, b: Seq<Option<Val>>)
    requires
        b0.len() == 81,
        board_has_impossible_cell(b0),
    ensures
        !(board_solved(b) && board_extends(b, b0)),
{
    if !(board_solved(b) && board_extends(b, b0)) {
        return ;
    }
    let i = choose|i: int|
        {
            &&& 0 <= i < 81
            &&& #[trigger] b0[i] is None
            &&& forall|d: int| 1 <= d <= 9 ==> #[trigger] board_pins_near(b0, i, d)
        };
    assert(b[i] is Some);
    let v = b[i]->Some_0;
    assert(v.wf());
    let d = v.spec_val();
    assert(board_pins_near(b0, i, d));
    let j = choose|j: int|
        {
            &&& 0 <= j < 81 && j != i
            &&& same_board_zone(i, j)
            &&& #[trigger] b0[j] is Some
            &&& b0[j]->Some_0.spec_val() == d
        };
    assert(b[j] == b0[j]);
    zones::lemma_cell_decompose(i);
    zones::lemma_cell_decompose(j);
    if zones::row_of(i) == zones::row_of(j) {
        let z = zones::row_of(i);
        zones::lemma_zone_shapes(z);
        zones::lemma_row_membership(z, i);
        zones::lemma_row_membership(z, j);
        lemma_board_zone_count_two(b, zones::row_cells(z), i, j, d);
    } else if zones::col_of(i) == zones::col_of(j) {
        let z = zones::col_of(i);
        zones::lemma_zone_shapes(z);
        zones::lemma_col_membership(z, i);
        zones::lemma_col_membership(z, j);
        lemma_board_zone_count_two(b, zones::col_cells(z), i, j, d);
    } else {
        let z = zones::sector_of(i);
        zones::lemma_zone_shapes(z);
        zones::lemma_sector_membership(z, i);
        zones::lemma_sector_membership(z, j);
        lemma_board_zone_count_two(b, zones::sector_cells(z), i, j, d);
    }
}

/// In a consistent, nonempty tracker whose counters all read one, every
/// cell is down to a single candidate.
proof fn lemma_solved_all_single(t: crate::remaining::RemainingTracker)
    requires
        t.wf(),
        t.all_nonempty(),
        t.spec_is_solved(),
    ensures
        forall|i: int| 0 <= i < 81 ==> (#[trigger] t.cells()[i]).count() == 1,
{
    let cells = t.cells();
    assert forall|i: int| 0 <= i < 81 implies (#[trigger] cells[i]).count() == 1 by {
        zones::lemma_cell_decompose(i);
        let z = zones::row_of(i);
        zones::lemma_zone_shapes(z);
        assert forall|d: int| 1 <= d <= 9 implies #[trigger] zones::zone_count(
            cells,
            zones::row_cells(z),
            d,
        ) == 1 by {
            assert(t.rows_seq()[z].count_of(d) == 1);
        }
        zones::lemma_zone_count_sum_all_ones(cells, zones::row_cells(z), 9);
        zones::lemma_zone_count_sum_swap(cells, zones::row_cells(z));
        assert(forall|j: int|
            0 <= j < 9 ==> cells[#[trigger] zones::row_cells(z)[j]].count() >= 1);
        zones::lemma_cells_size_sum_ones(cells, zones::row_cells(z));
        assert(zones::row_cells(z)[zones::col_of(i)] == i);
        assert(cells[zones::row_cells(z)[zones::col_of(i)]].count() == 1);
    }
}

/// Relates a tracker read-out to the board predicates: reading a solved,
/// consistent, nonempty tracker out yields a solved board that extends
/// every board whose pins the tracker respects.
proof fn lemma_solved_readout(
    t: crate::remaining::RemainingTracker,
    b: Seq<Option<Val>>,
    pins: Seq<Option<Val>>,
)
    requires
        t.wf(),
        t.all_nonempty(),
        t.spec_is_solved(),
        crate::remaining::cells_respect_pins(t.cells(), pins),
        pins.len() == 81,
        board_wf(pins),
        b.len() == 81,
        forall|i: int|
            0 <= i < 81 ==> match #[trigger] b[i] {
                Some(v) => t.cells()[i].count() == 1 && v.wf() && t.cells()[i].has(v.spec_val()),
                None => t.cells()[i].count() != 1,
            },
    ensures
        board_wf(b),
        board_solved(b),
        board_extends(b, pins),
{
    let cells = t.cells();
    lemma_solved_all_single(t);
    assert(board_wf(b));
    assert(board_filled(b));
    assert forall|z: int, d: int| 0 <= z < 9 && 1 <= d <= 9 implies #[trigger] board_zone_count(
        b,
        zones::row_cells(z),
        d,
    ) == 1 by {
        zones::lemma_zone_shapes(z);
        lemma_readout_zone_count(cells, b, zones::row_cells(z), d);
        assert(t.rows_seq()[z].count_of(d) == 1);
    }
    assert forall|z: int, d: int| 0 <= z < 9 && 1 <= d <= 9 implies #[trigger] board_zone_count(
        b,
        zones::col_cells(z),
        d,
    ) == 1 by {
        zones::lemma_zone_shapes(z);
        lemma_readout_zone_count(cells, b, zones::col_cells(z), d);
        assert(t.cols_seq()[z].count_of(d) == 1);
    }
    assert forall|z: int, d: int| 0 <= z < 9 && 1 <= d <= 9 implies #[trigger] board_zone_count(
        b,
        zones::sector_cells(z),
        d,
    ) == 1 by {
        zones::lemma_zone_shapes(z);
        lemma_readout_zone_count(cells, b, zones::sector_cells(z), d);
        assert(t.sectors_seq()[z].count_of(d) == 1);
    }
    assert forall|i: int| 0 <= i < 81 && (#[trigger] pins[i]) is Some implies b[i] == pins[i] by {
        let p = pins[i]->Some_0;
        let v = b[i]->Some_0;
        assert(cells[i].has(v.spec_val()));
        assert(v.spec_val() == p.spec_val());
        Val::lemma_val_injective(v, p);
    }
}

/// On a read-out of all-singleton cells, counting a digit on the board or
/// in the candidate sets gives the same number.
proof fn lemma_readout_zone_count(
    cells: Seq<availset::AvailSet>,
    b: Seq<Option<Val>>,
    zs: Seq<int>,
    d: int,
)
    requires
        forall|j: int| 0 <= j < zs.len() ==> 0 <= #[trigger] zs[j] < 81,
        b.len() == 81,
        forall|i: int|
            0 <= i < 81 ==> match #[trigger] b[i] {
                Some(v) => cells[i].count() == 1 && v.wf() && cells[i].has(v.spec_val()),
                None => cells[i].count() != 1,
            },
        forall|i: int| 0 <= i < 81 ==> (#[trigger] cells[i]).count() == 1,
    ensures
        board_zone_count(b, zs, d) == zones::zone_count(cells, zs, d),
    decreases zs.len(),
{
    if zs.len() > 0 {
        lemma_readout_zone_count(cells, b, zs.drop_last(), d);
        let i = zs.last();
        assert(b[i] is Some);
        let v = b[i]->Some_0;
        availset::AvailSet::lemma_count_facts(cells[i]);
        if cells[i].has(d) && d != v.spec_val() {
            assert(cells[i].count() >= 2);
        }
    }
}

/// When every cell of the board is pinned, the candidate sets a tracker
/// starts from count a digit exactly as the board does.
proof fn lemma_filled_zone_count(
    b: Seq<Option<Val>>,
    cells: Seq<availset::AvailSet>,
    zs: Seq<int>,
    d: int,
)
    requires
        forall|j: int| 0 <= j < zs.len() ==> 0 <= #[trigger] zs[j] < 81,
        b.len() == 81,
        board_filled(b),
        forall|i: int, dd: int|
            0 <= i < 81 ==> ((#[trigger] cells[i].has(dd)) <==> (1 <= dd <= 9 && (match b[i] {
                Some(v) => dd == v.spec_val(),
                None => true,
            }))),
        1 <= d <= 9,
    ensures
        zones::zone_count(cells, zs, d) == board_zone_count(b, zs, d),
    decreases zs.len(),
{
    if zs.len() > 0 {
        lemma_filled_zone_count(b, cells, zs.drop_last(), d);
        let i = zs.last();
        assert(b[i] is Some);
        assert(cells[i].has(d) <==> b[i]->Some_0.spec_val() == d);
    }
}

/// Total measure of a stack of trackers, dominated by the candidate count
/// of each entry: popping one tracker always outweighs pushing any number
/// of strictly smaller successors.
spec fn stack_measure(s: Seq<crate::remaining::RemainingTracker>) -> int
    decreases s.len(),
{
    if s.len() == 0 {
        0
    } else {
        stack_measure(s.drop_last()) + vstd::arithmetic::power::pow(
            10,
            zones::total_size(s.last().cells()) as nat,
        )
    }
}

proof fn lemma_stack_measure_push(
    s: Seq<crate::remaining::RemainingTracker>,
    x: crate::remaining::RemainingTracker,
)
    ensures
        stack_measure(s.push(x)) == stack_measure(s) + vstd::arithmetic::power::pow(
            10,
            zones::total_size(x.cells()) as nat,
        ),
{
    assert(s.push(x).drop_last() =~= s);
    assert(s.push(x).last() == x);
}

proof fn lemma_stack_measure_nonneg(s: Seq<crate::remaining::RemainingTracker>)
    ensures
        stack_measure(s) >= 0,
    decreases s.len(),
{
    if s.len() > 0 {
        lemma_stack_measure_nonneg(s.drop_last());
        vstd::arithmetic::power::lemma_pow_positive(
            10,
            zones::total_size(s.last().cells()) as nat,
        );
    }
}

impl Board {
    /// Attempt to solve this board. Any returned board satisfies the
    /// three Sudoku constraints and agrees with this board on every
    /// pinned cell; a board that already breaks the constraints gets
    /// `None`; a solved board comes back unchanged.
    pub fn solve(&self) -> (r: Option<Board>)
        requires
            self.wf(),
        ensures
            match r {
                Some(b) => b.wf() && board_solved(b@) && board_extends(b@, self@),
                None => true,
            },
            board_solved(self@) && r is Some ==> (r->Some_0)@ == self@,
            board_solved(self@) ==> r is Some,
            (exists|s: Seq<Option<Val>>| board_solved(s) && #[trigger] board_extends(s, self@))
                ==> r is Some,
            board_has_conflict(self@) ==> r is None,
            board_has_impossible_cell(self@) ==> r is None,
            board_known_unsolveable(self@) ==> r is None,
    {
        let tracker = crate::remaining::RemainingTracker::new(self);
        let ghost t0 = tracker;
        proof {
            assert forall|s: Seq<Option<Val>>|
                board_solved(s) && #[trigger] board_extends(s, self@) implies
                crate::remaining::cells_admit(t0.cells(), s) by {
                assert forall|j: int|
                    0 <= j < 81 implies #[trigger] t0.cells()[j].has(
                    crate::remaining::solution_digit(s, j),
                ) by {
                    assert(s[j] is Some);
                    let v = s[j]->Some_0;
                    assert(v.wf());
                    Val::lemma_val_injective(v, v);
                    if self@[j] is Some {
                        assert(s[j] == self@[j]);
                    }
                }
            }
            if board_solved(self@) {
                let cells = t0.cells();
                assert forall|z: int, d: int| 0 <= z < 9 && 1 <= d <= 9 implies (
                #[trigger] t0.rows_seq()[z].count_of(d)) == 1 by {
                    zones::lemma_zone_shapes(z);
                    lemma_filled_zone_count(self@, cells, zones::row_cells(z), d);
                }
                assert forall|z: int, d: int| 0 <= z < 9 && 1 <= d <= 9 implies (
                #[trigger] t0.cols_seq()[z].count_of(d)) == 1 by {
                    zones::lemma_zone_shapes(z);
                    lemma_filled_zone_count(self@, cells, zones::col_cells(z), d);
                }
                assert forall|z: int, d: int| 0 <= z < 9 && 1 <= d <= 9 implies (
                #[trigger] t0.sectors_seq()[z].count_of(d)) == 1 by {
                    zones::lemma_zone_shapes(z);
                    lemma_filled_zone_count(self@, cells, zones::sector_cells(z), d);
                }
                assert(crate::deductive::solved_state(t0));
            }
        }
        let mut stack: Vec<crate::remaining::RemainingTracker> = Vec::new();
        stack.push(tracker);
        proof {
            assert forall|s: Seq<Option<Val>>|
                board_solved(s) && #[trigger] board_extends(s, self@) implies exists|k: int|
                0 <= k < stack@.len() && #[trigger] crate::remaining::cells_admit(
                    stack@[k].cells(),
                    s,
                ) by {
                assert(stack@[0] == t0);
                assert(crate::remaining::cells_admit(stack@[0].cells(), s));
            }
        }
        loop
            invariant
                self.wf(),
                forall|k: int|
                    0 <= k < stack@.len() ==> (#[trigger] stack@[k]).wf()
                        && stack@[k].all_nonempty() && crate::remaining::cells_respect_pins(
                        stack@[k].cells(),
                        self@,
                    ),
                board_solved(self@) ==> crate::deductive::solved_state(t0) && stack@.len() == 1
                    && stack@[0] == t0,
                forall|s: Seq<Option<Val>>|
                    board_solved(s) && #[trigger] board_extends(s, self@) ==> exists|k: int|
                        0 <= k < stack@.len() && #[trigger] crate::remaining::cells_admit(
                            stack@[k].cells(),
                            s,
                        ),
            ensures
                !board_solved(self@),
                !(exists|s: Seq<Option<Val>>|
                    board_solved(s) && #[trigger] board_extends(s, self@)),
            decreases stack_measure(stack@),
        {
            proof {
                lemma_stack_measure_nonneg(stack@);
            }
            let ghost pre_stack = stack@;
            let next = match stack.pop() {
                Some(n) => n,
                None => {
                    proof {
                        assert(!board_solved(self@));
                        assert forall|s: Seq<Option<Val>>|
                            board_solved(s) && #[trigger] board_extends(s, self@) implies false by {
                        }
                    }
                    break ;
                },
            };
            let ghost m0 = stack_measure(stack@);
            let ghost gnext = next.cells();
            let ghost tn = zones::total_size(gnext);
            proof {
                assert(pre_stack.drop_last() =~= stack@);
                assert(pre_stack.last() == next);
                assert(stack_measure(pre_stack) == m0 + vstd::arithmetic::power::pow(
                    10,
                    tn as nat,
                ));
                lemma_stack_measure_nonneg(stack@);
                zones::lemma_cells_size_sum_nonneg(gnext, zones::all_cells());
                vstd::arithmetic::power::lemma_pow_positive(10, tn as nat);
                assert(forall|j: int| 0 <= j < 81 ==> (#[trigger] gnext[j]).count() >= 1);
                zones::lemma_all_cells(0);
                assert forall|j: int|
                    0 <= j < zones::all_cells().len() implies gnext[#[trigger] zones::all_cells()[j]].count()
                    >= 1 by {
                    assert(0 <= zones::all_cells()[j] < 81);
                }
                zones::lemma_cells_size_sum_lower(gnext, zones::all_cells());
                assert(tn >= 81);
                assert forall|s: Seq<Option<Val>>|
                    board_solved(s) && #[trigger] board_extends(s, self@) implies ((exists|k: int|
                    0 <= k < stack@.len() && #[trigger] crate::remaining::cells_admit(
                        stack@[k].cells(),
                        s,
                    )) || crate::remaining::cells_admit(gnext, s)) by {
                    let k = choose|k: int|
                        0 <= k < pre_stack.len() && #[trigger] crate::remaining::cells_admit(
                            pre_stack[k].cells(),
                            s,
                        );
                    if k < pre_stack.len() - 1 {
                        assert(stack@[k] == pre_stack[k]);
                        assert(crate::remaining::cells_admit(stack@[k].cells(), s));
                    } else {
                        assert(pre_stack[k] == next);
                    }
                }
            }
            let (reduced_opt, _tracer) = crate::deductive::reduce(
                next,
                trace::NopDeductiveTracer,
            );
            let reduced = match reduced_opt {
                Some(t) => t,
                None => {
                    proof {
                        assert(stack_measure(stack@) < stack_measure(pre_stack));
                        assert(!board_solved(self@));
                        assert forall|s: Seq<Option<Val>>|
                            board_solved(s) && #[trigger] board_extends(s, self@) implies exists|
                            k: int,
                        |
                            0 <= k < stack@.len() && #[trigger] crate::remaining::cells_admit(
                                stack@[k].cells(),
                                s,
                            ) by {
                            if crate::remaining::cells_admit(gnext, s) {
                                assert(reduced_opt is Some);
                            }
                        }
                    }
                    continue ;
                },
            };
            proof {
                crate::remaining::lemma_respect_mono(reduced.cells(), gnext, self@);
            }
            if reduced.is_solved() {
                let b = reduced.to_board();
                proof {
                    lemma_solved_readout(reduced, b@, self@);
                    if board_has_conflict(self@) {
                        lemma_conflict_unsolvable(self@, b@);
                    }
                    if board_has_impossible_cell(self@) {
                        lemma_impossible_cell_unsolvable(self@, b@);
                    }
                    if board_known_unsolveable(self@) {
                        lemma_missing_unsolvable(self@, b@);
                    }
                    if board_solved(self@) {
                        assert(b@ =~= self@);
                    }
                }
                return Some(b);
            }
            proof {
                assert(!board_solved(self@));
                assert(!reduced.spec_is_solved());
            }
            let mut children = reduced.specify_one();
            let ghost pm = vstd::arithmetic::power::pow(10, (tn - 1) as nat);
            proof {
                assert(zones::total_size(reduced.cells()) <= tn);
                vstd::arithmetic::power::lemma_pow_positive(10, (tn - 1) as nat);
            }
            let ghost n_children = children@.len() as int;
            while children.len() > 0
                invariant
                    self.wf(),
                    n_children <= 9,
                    tn >= 1,
                    pm == vstd::arithmetic::power::pow(10, (tn - 1) as nat),
                    pm >= 1,
                    forall|k: int|
                        0 <= k < children@.len() ==> (#[trigger] children@[k]).wf()
                            && children@[k].all_nonempty() && crate::remaining::cells_subset(
                            children@[k].cells(),
                            reduced.cells(),
                        ) && zones::total_size(children@[k].cells()) < zones::total_size(
                            reduced.cells(),
                        ),
                    zones::total_size(reduced.cells()) <= tn,
                    crate::remaining::cells_subset(reduced.cells(), gnext),
                    crate::remaining::cells_respect_pins(gnext, self@),
                    forall|k: int|
                        0 <= k < stack@.len() ==> (#[trigger] stack@[k]).wf()
                            && stack@[k].all_nonempty() && crate::remaining::cells_respect_pins(
                            stack@[k].cells(),
                            self@,
                        ),
                    stack_measure(stack@) <= m0 + (n_children - children@.len()) * pm,
                    children@.len() <= n_children,
                    forall|s: Seq<Option<Val>>|
                        board_solved(s) && #[trigger] board_extends(s, self@) ==> ((exists|k: int|
                            0 <= k < stack@.len() && #[trigger] crate::remaining::cells_admit(
                                stack@[k].cells(),
                                s,
                            )) || (exists|kk: int|
                            0 <= kk < children@.len() && #[trigger] crate::remaining::cells_admit(
                                children@[kk].cells(),
                                s,
                            ))),
                decreases children@.len(),
            {
                let ghost clen0 = children@.len() as int;
                let ghost pre_children = children@;
                let ghost pre_push = stack@;
                let child = children.remove(0);
                proof {
                    assert((n_children - (clen0 - 1)) * pm == (n_children - clen0) * pm + pm)
                        by (nonlinear_arith);
                    crate::remaining::lemma_subset_trans(child.cells(), reduced.cells(), gnext);
                    crate::remaining::lemma_respect_mono(child.cells(), gnext, self@);
                    lemma_stack_measure_push(stack@, child);
                    zones::lemma_cells_size_sum_nonneg(child.cells(), zones::all_cells());
                    assert(zones::total_size(child.cells()) <= tn - 1);
                    vstd::arithmetic::power::lemma_pow_increases(
                        10,
                        zones::total_size(child.cells()) as nat,
                        (tn - 1) as nat,
                    );
                }
                stack.push(child);
                proof {
                    assert forall|s: Seq<Option<Val>>|
                        board_solved(s) && #[trigger] board_extends(s, self@) implies ((exists|
                        k: int,
                    |
                        0 <= k < stack@.len() && #[trigger] crate::remaining::cells_admit(
                            stack@[k].cells(),
                            s,
                        )) || (exists|kk: int|
                        0 <= kk < children@.len() && #[trigger] crate::remaining::cells_admit(
                            children@[kk].cells(),
                            s,
                        ))) by {
                        if exists|kk: int|
                            0 <= kk < pre_children.len()
                                && #[trigger] crate::remaining::cells_admit(
                                pre_children[kk].cells(),
                                s,
                            ) {
                            let kk = choose|kk: int|
                                0 <= kk < pre_children.len()
                                    && #[trigger] crate::remaining::cells_admit(
                                    pre_children[kk].cells(),
                                    s,
                                );
                            if kk == 0 {
                                assert(pre_children[0] == child);
                                assert(stack@[stack@.len() - 1] == child);
                                assert(crate::remaining::cells_admit(
                                    stack@[stack@.len() - 1].cells(),
                                    s,
                                ));
                            } else {
                                assert(children@[kk - 1] == pre_children[kk]);
                                assert(crate::remaining::cells_admit(
                                    children@[kk - 1].cells(),
                                    s,
                                ));
                            }
                        } else {
                            let k = choose|k: int|
                                0 <= k < pre_push.len()
                                    && #[trigger] crate::remaining::cells_admit(
                                    pre_push[k].cells(),
                                    s,
                                );
                            assert(stack@[k] == pre_push[k]);
                            assert(crate::remaining::cells_admit(stack@[k].cells(), s));
                        }
                    }
                }
            }
            proof {
                assert(stack_measure(stack@) <= m0 + 9 * pm) by (nonlinear_arith)
                    requires
                        stack_measure(stack@) <= m0 + n_children * pm,
                        n_children <= 9,
                        pm >= 1,
                {
                }
                vstd::arithmetic::power::lemma_pow_adds(10, (tn - 1) as nat, 1);
                vstd::arithmetic::power::lemma_pow1(10);
                assert(vstd::arithmetic::power::pow(10, tn as nat) == pm * 10);
                lemma_stack_measure_nonneg(stack@);
                assert(0 <= stack_measure(stack@) < stack_measure(pre_stack));
            }
        }
        None
    }
}

/// Every cell of a board's zone is pinned to some digit other than `d`.
pub open spec fn board_zone_missing(b: Seq<Option<Val>>, zs: Seq<int>, d: int) -> bool {
    forall|j: int|
        0 <= j < zs.len() ==> (#[trigger] b[zs[j]]) is Some && b[zs[j]]->Some_0.spec_val() != d
}

/// Some row, column or sector has every cell pinned to a digit other than
/// some digit `d`: that zone can never hold `d`.
pub open spec fn board_known_unsolveable(b: Seq<Option<Val>>) -> bool {
    ||| exists|z: int, d: int|
        0 <= z < 9 && 1 <= d <= 9 && #[trigger] board_zone_missing(b, zones::row_cells(z), d)
    ||| exists|z: int, d: int|
        0 <= z < 9 && 1 <= d <= 9 && #[trigger] board_zone_missing(b, zones::col_cells(z), d)
    ||| exists|z: int, d: int|
        0 <= z < 9 && 1 <= d <= 9 && #[trigger] board_zone_missing(b, zones::sector_cells(z), d)
}

/// A counter's available-digit count is below nine exactly when some digit
/// has run out.
proof fn lemma_counter_avail_missing(c: availset::AvailCounter)
    ensures
        crate::remaining::counter_avail_count(c) < 9 <==> exists|d: int|
            1 <= d <= 9 && #[trigger] c.count_of(d) == 0,
{
    if exists|d: int| 1 <= d <= 9 && #[trigger] c.count_of(d) == 0 {
        let d0 = choose|d: int| 1 <= d <= 9 && #[trigger] c.count_of(d) == 0;
        lemma_counter_avail_hole(c, d0, 9);
    }
    if crate::remaining::counter_avail_count(c) < 9 {
        if forall|d: int| 1 <= d <= 9 ==> (#[trigger] c.count_of(d)) != 0 {
            lemma_counter_avail_full(c, 9);
        }
    }
}

proof fn lemma_counter_avail_full(c: availset::AvailCounter, dmax: int)
    requires
        0 <= dmax <= 9,
        forall|d: int| 1 <= d <= 9 ==> (#[trigger] c.count_of(d)) != 0,
    ensures
        crate::remaining::counter_avail_upto(c, dmax) == dmax,
    decreases dmax,
{
    if dmax > 0 {
        lemma_counter_avail_full(c, dmax - 1);
        assert(c.count_of(dmax) != 0);
        assert(c.count_of(dmax) >= 0) by {
            availset::AvailCounter::lemma_count_of_nonneg(c, dmax);
        }
        assert(crate::remaining::counter_avail_upto(c, dmax)
            == crate::remaining::counter_avail_upto(c, dmax - 1) + 1);
    }
}

proof fn lemma_counter_avail_hole(c: availset::AvailCounter, d0: int, dmax: int)
    requires
        1 <= d0 <= dmax,
        c.count_of(d0) == 0,
    ensures
        crate::remaining::counter_avail_upto(c, dmax) <= dmax - 1,
    decreases dmax,
{
    lemma_counter_avail_bounds(c, dmax - 1);
    if d0 < dmax {
        lemma_counter_avail_hole(c, d0, dmax - 1);
    }
}

proof fn lemma_counter_avail_bounds(c: availset::AvailCounter, dmax: int)
    ensures
        0 <= crate::remaining::counter_avail_upto(c, dmax) <= if dmax >= 0 {
            dmax
        } else {
            0
        },
    decreases dmax,
{
    if dmax > 0 {
        lemma_counter_avail_bounds(c, dmax - 1);
    }
}

/// A zone count of zero means no cell of the zone admits the digit.
proof fn lemma_zone_count_zero(cells: Seq<availset::AvailSet>, zs: Seq<int>, d: int)
    ensures
        zones::zone_count(cells, zs, d) == 0 <==> (forall|j: int|
            0 <= j < zs.len() ==> !cells[#[trigger] zs[j]].has(d)),
    decreases zs.len(),
{
    if zs.len() > 0 {
        lemma_zone_count_zero(cells, zs.drop_last(), d);
        zones::lemma_zone_count_bounds(cells, zs.drop_last(), d);
        if zones::zone_count(cells, zs, d) == 0 {
            assert forall|j: int| 0 <= j < zs.len() implies !cells[#[trigger] zs[j]].has(d) by {
                if j < zs.len() - 1 {
                    assert(!cells[zs.drop_last()[j]].has(d));
                }
            }
        }
        if forall|j: int| 0 <= j < zs.len() ==> !cells[#[trigger] zs[j]].has(d) {
            assert forall|j: int|
                0 <= j < zs.drop_last().len() implies !cells[#[trigger] zs.drop_last()[j]].has(
                d,
            ) by {
                assert(!cells[zs[j]].has(d));
            }
            assert(!cells[zs[zs.len() - 1]].has(d));
        }
    }
}

/// On a freshly built tracker, a zone's count of `d` is zero exactly when
/// the board pins every cell of the zone to another digit.
proof fn lemma_initial_zone_missing(
    b: Seq<Option<Val>>,
    cells: Seq<availset::AvailSet>,
    zs: Seq<int>,
    d: int,
)
    requires
        forall|j: int| 0 <= j < zs.len() ==> 0 <= #[trigger] zs[j] < 81,
        b.len() == 81,
        forall|i: int, dd: int|
            0 <= i < 81 ==> ((#[trigger] cells[i].has(dd)) <==> (1 <= dd <= 9 && (match b[i] {
                Some(v) => dd == v.spec_val(),
                None => true,
            }))),
        1 <= d <= 9,
    ensures
        zones::zone_count(cells, zs, d) == 0 <==> board_zone_missing(b, zs, d),
{
    lemma_zone_count_zero(cells, zs, d);
    assert forall|j: int| 0 <= j < zs.len() implies (!cells[#[trigger] zs[j]].has(d) <==> (
    b[zs[j]] is Some && b[zs[j]]->Some_0.spec_val() != d)) by {
        assert(cells[zs[j]].has(d) <==> (1 <= d <= 9 && (match b[zs[j]] {
            Some(v) => d == v.spec_val(),
            None => true,
        })));
    }
}

proof fn lemma_board_zone_count_missing(b: Seq<Option<Val>>, zs: Seq<int>, d: int)
    requires
        forall|j: int|
            0 <= j < zs.len() ==> (#[trigger] b[zs[j]]) is Some && b[zs[j]]->Some_0.spec_val() != d,
    ensures
        board_zone_count(b, zs, d) == 0,
    decreases zs.len(),
{
    if zs.len() > 0 {
        assert forall|j: int|
            0 <= j < zs.drop_last().len() implies (#[trigger] b[zs.drop_last()[j]]) is Some
            && b[zs.drop_last()[j]]->Some_0.spec_val() != d by {
            assert(b[zs[j]] is Some && b[zs[j]]->Some_0.spec_val() != d);
        }
        lemma_board_zone_count_missing(b, zs.drop_last(), d);
        assert(b[zs[zs.len() - 1]] is Some && b[zs[zs.len() - 1]]->Some_0.spec_val() != d);
    }
}

/// A zone pinned shut without some digit rules out every solved
/// extension.
pub proof fn lemma_missing_unsolvable(b0: Seq<Option<Val>>, b: Seq<Option<Val>>)
    requires
        b0.len() == 81,
        board_known_unsolveable(b0),
    ensures
        !(board_solved(b) && board_extends(b, b0)),
{
    if !(board_solved(b) && board_extends(b, b0)) {
        return ;
    }
    if exists|z: int, d: int|
        0 <= z < 9 && 1 <= d <= 9 && #[trigger] board_zone_missing(b0, zones::row_cells(z), d) {
        let (z, d): (int, int) = choose|z: int, d: int|
            0 <= z < 9 && 1 <= d <= 9 && #[trigger] board_zone_missing(b0, zones::row_cells(z), d);
        zones::lemma_zone_shapes(z);
        assert forall|j: int|
            0 <= j < zones::row_cells(z).len() implies (#[trigger] b[zones::row_cells(z)[j]])
            is Some && b[zones::row_cells(z)[j]]->Some_0.spec_val() != d by {
            assert(b0[zones::row_cells(z)[j]] is Some);
            assert(b[zones::row_cells(z)[j]] == b0[zones::row_cells(z)[j]]);
        }
        lemma_board_zone_count_missing(b, zones::row_cells(z), d);
    } else if exists|z: int, d: int|
        0 <= z < 9 && 1 <= d <= 9 && #[trigger] board_zone_missing(b0, zones::col_cells(z), d) {
        let (z, d): (int, int) = choose|z: int, d: int|
            0 <= z < 9 && 1 <= d <= 9 && #[trigger] board_zone_missing(b0, zones::col_cells(z), d);
        zones::lemma_zone_shapes(z);
        assert forall|j: int|
            0 <= j < zones::col_cells(z).len() implies (#[trigger] b[zones::col_cells(z)[j]])
            is Some && b[zones::col_cells(z)[j]]->Some_0.spec_val() != d by {
            assert(b0[zones::col_cells(z)[j]] is Some);
            assert(b[zones::col_cells(z)[j]] == b0[zones::col_cells(z)[j]]);
        }
        lemma_board_zone_count_missing(b, zones::col_cells(z), d);
    } else {
        let (z, d): (int, int) = choose|z: int, d: int|
            0 <= z < 9 && 1 <= d <= 9 && #[trigger] board_zone_missing(
                b0,
                zones::sector_cells(z),
                d,
            );
        zones::lemma_zone_shapes(z);
        assert forall|j: int|
            0 <= j < zones::sector_cells(z).len() implies (#[trigger] b[zones::sector_cells(
                z,
            )[j]]) is Some && b[zones::sector_cells(z)[j]]->Some_0.spec_val() != d by {
            assert(b0[zones::sector_cells(z)[j]] is Some);
            assert(b[zones::sector_cells(z)[j]] == b0[zones::sector_cells(z)[j]]);
        }
        lemma_board_zone_count_missing(b, zones::sector_cells(z), d);
    }
}

impl Board {
    /// Whether the board is a complete, valid solution.
    pub fn is_solved(&self) -> (r: bool)
        requires
            self.wf(),
        ensures
            r == board_solved(self@),
    {
        let tracker = crate::remaining::RemainingTracker::new(self);
        let r = tracker.is_solved();
        proof {
            let cells = tracker.cells();
            if r {
                lemma_solved_all_single(tracker);
                assert forall|i: int| 0 <= i < 81 implies (#[trigger] self@[i]) is Some by {
                    if self@[i] is None {
                        assert(cells[i].has(1) && cells[i].has(2));
                        availset::AvailSet::lemma_count_facts(cells[i]);
                    }
                }
                assert forall|z: int, d: int|
                    0 <= z < 9 && 1 <= d <= 9 implies #[trigger] board_zone_count(
                    self@,
                    zones::row_cells(z),
                    d,
                ) == 1 by {
                    zones::lemma_zone_shapes(z);
                    lemma_filled_zone_count(self@, cells, zones::row_cells(z), d);
                    assert(tracker.rows_seq()[z].count_of(d) == 1);
                }
                assert forall|z: int, d: int|
                    0 <= z < 9 && 1 <= d <= 9 implies #[trigger] board_zone_count(
                    self@,
                    zones::col_cells(z),
                    d,
                ) == 1 by {
                    zones::lemma_zone_shapes(z);
                    lemma_filled_zone_count(self@, cells, zones::col_cells(z), d);
                    assert(tracker.cols_seq()[z].count_of(d) == 1);
                }
                assert forall|z: int, d: int|
                    0 <= z < 9 && 1 <= d <= 9 implies #[trigger] board_zone_count(
                    self@,
                    zones::sector_cells(z),
                    d,
                ) == 1 by {
                    zones::lemma_zone_shapes(z);
                    lemma_filled_zone_count(self@, cells, zones::sector_cells(z), d);
                    assert(tracker.sectors_seq()[z].count_of(d) == 1);
                }
            }
            if board_solved(self@) {
                assert forall|z: int, d: int| 0 <= z < 9 && 1 <= d <= 9 implies (
                #[trigger] tracker.rows_seq()[z].count_of(d)) == 1 by {
                    zones::lemma_zone_shapes(z);
                    lemma_filled_zone_count(self@, cells, zones::row_cells(z), d);
                }
                assert forall|z: int, d: int| 0 <= z < 9 && 1 <= d <= 9 implies (
                #[trigger] tracker.cols_seq()[z].count_of(d)) == 1 by {
                    zones::lemma_zone_shapes(z);
                    lemma_filled_zone_count(self@, cells, zones::col_cells(z), d);
                }
                assert forall|z: int, d: int| 0 <= z < 9 && 1 <= d <= 9 implies (
                #[trigger] tracker.sectors_seq()[z].count_of(d)) == 1 by {
                    zones::lemma_zone_shapes(z);
                    lemma_filled_zone_count(self@, cells, zones::sector_cells(z), d);
                }
                assert(r);
            }
        }
        r
    }

    /// Whether the board is already known to be unsolveable: some row,
    /// column or sector has every cell pinned and is missing a digit.
    pub fn known_unsolveable(&self) -> (r: bool)
        requires
            self.wf(),
        ensures
            r == board_known_unsolveable(self@),
    {
        let tracker = crate::remaining::RemainingTracker::new(self);
        let r = tracker.known_unsolveable();
        proof {
            let cells = tracker.cells();
            assert(!(exists|i: int|
                0 <= i < 81 && (#[trigger] cells[i]).count() == 0)) by {
                assert(forall|i: int| 0 <= i < 81 ==> (#[trigger] cells[i]).count() >= 1);
            }
            assert forall|z: int|
                0 <= z < 9 implies ((crate::remaining::counter_avail_count(
                #[trigger] tracker.rows_seq()[z],
            ) < 9) <==> exists|d: int|
                1 <= d <= 9 && #[trigger] board_zone_missing(self@, zones::row_cells(z), d)) by {
                lemma_counter_avail_missing(tracker.rows_seq()[z]);
                zones::lemma_zone_shapes(z);
                if crate::remaining::counter_avail_count(tracker.rows_seq()[z]) < 9 {
                    let d0 = choose|d: int|
                        1 <= d <= 9 && #[trigger] tracker.rows_seq()[z].count_of(d) == 0;
                    lemma_initial_zone_missing(self@, cells, zones::row_cells(z), d0);
                    assert(board_zone_missing(self@, zones::row_cells(z), d0));
                }
                if exists|d: int|
                    1 <= d <= 9 && #[trigger] board_zone_missing(self@, zones::row_cells(z), d) {
                    let d0 = choose|d: int|
                        1 <= d <= 9 && #[trigger] board_zone_missing(self@, zones::row_cells(z), d);
                    lemma_initial_zone_missing(self@, cells, zones::row_cells(z), d0);
                    assert(tracker.rows_seq()[z].count_of(d0) == 0);
                }
                assert forall|d: int| 1 <= d <= 9 implies ((#[trigger] tracker.rows_seq()[z].count_of(
                    d,
                ) == 0) <==> board_zone_missing(self@, zones::row_cells(z), d)) by {
                    lemma_initial_zone_missing(self@, cells, zones::row_cells(z), d);
                }
            }
            assert forall|z: int|
                0 <= z < 9 implies ((crate::remaining::counter_avail_count(
                #[trigger] tracker.cols_seq()[z],
            ) < 9) <==> exists|d: int|
                1 <= d <= 9 && #[trigger] board_zone_missing(self@, zones::col_cells(z), d)) by {
                lemma_counter_avail_missing(tracker.cols_seq()[z]);
                zones::lemma_zone_shapes(z);
                if crate::remaining::counter_avail_count(tracker.cols_seq()[z]) < 9 {
                    let d0 = choose|d: int|
                        1 <= d <= 9 && #[trigger] tracker.cols_seq()[z].count_of(d) == 0;
                    lemma_initial_zone_missing(self@, cells, zones::col_cells(z), d0);
                    assert(board_zone_missing(self@, zones::col_cells(z), d0));
                }
                if exists|d: int|
                    1 <= d <= 9 && #[trigger] board_zone_missing(self@, zones::col_cells(z), d) {
                    let d0 = choose|d: int|
                        1 <= d <= 9 && #[trigger] board_zone_missing(self@, zones::col_cells(z), d);
                    lemma_initial_zone_missing(self@, cells, zones::col_cells(z), d0);
                    assert(tracker.cols_seq()[z].count_of(d0) == 0);
                }
                assert forall|d: int| 1 <= d <= 9 implies ((#[trigger] tracker.cols_seq()[z].count_of(
                    d,
                ) == 0) <==> board_zone_missing(self@, zones::col_cells(z), d)) by {
                    lemma_initial_zone_missing(self@, cells, zones::col_cells(z), d);
                }
            }
            assert forall|z: int|
                0 <= z < 9 implies ((crate::remaining::counter_avail_count(
                #[trigger] tracker.sectors_seq()[z],
            ) < 9) <==> exists|d: int|
                1 <= d <= 9 && #[trigger] board_zone_missing(self@, zones::sector_cells(z), d)) by {
                lemma_counter_avail_missing(tracker.sectors_seq()[z]);
                zones::lemma_zone_shapes(z);
                if crate::remaining::counter_avail_count(tracker.sectors_seq()[z]) < 9 {
                    let d0 = choose|d: int|
                        1 <= d <= 9 && #[trigger] tracker.sectors_seq()[z].count_of(d) == 0;
                    lemma_initial_zone_missing(self@, cells, zones::sector_cells(z), d0);
                    assert(board_zone_missing(self@, zones::sector_cells(z), d0));
                }
                if exists|d: int|
                    1 <= d <= 9 && #[trigger] board_zone_missing(self@, zones::sector_cells(z), d) {
                    let d0 = choose|d: int|
                        1 <= d <= 9 && #[trigger] board_zone_missing(self@, zones::sector_cells(z), d);
                    lemma_initial_zone_missing(self@, cells, zones::sector_cells(z), d0);
                    assert(tracker.sectors_seq()[z].count_of(d0) == 0);
                }
                assert forall|d: int| 1 <= d <= 9 implies ((
                #[trigger] tracker.sectors_seq()[z].count_of(d) == 0) <==> board_zone_missing(
                    self@,
                    zones::sector_cells(z),
                    d,
                )) by {
                    lemma_initial_zone_missing(self@, cells, zones::sector_cells(z), d);
                }
            }
            if r {
                if exists|z: int|
                    0 <= z < 9 && crate::remaining::counter_avail_count(
                        #[trigger] tracker.rows_seq()[z],
                    ) < 9 {
                    let z0 = choose|z: int|
                        0 <= z < 9 && crate::remaining::counter_avail_count(
                            #[trigger] tracker.rows_seq()[z],
                        ) < 9;
                    assert(exists|d: int|
                        1 <= d <= 9 && #[trigger] board_zone_missing(
                            self@,
                            zones::row_cells(z0),
                            d,
                        ));
                } else if exists|z: int|
                    0 <= z < 9 && crate::remaining::counter_avail_count(
                        #[trigger] tracker.cols_seq()[z],
                    ) < 9 {
                    let z0 = choose|z: int|
                        0 <= z < 9 && crate::remaining::counter_avail_count(
                            #[trigger] tracker.cols_seq()[z],
                        ) < 9;
                    assert(exists|d: int|
                        1 <= d <= 9 && #[trigger] board_zone_missing(
                            self@,
                            zones::col_cells(z0),
                            d,
                        ));
                } else {
                    let z0 = choose|z: int|
                        0 <= z < 9 && crate::remaining::counter_avail_count(
                            #[trigger] tracker.sectors_seq()[z],
                        ) < 9;
                    assert(exists|d: int|
                        1 <= d <= 9 && #[trigger] board_zone_missing(
                            self@,
                            zones::sector_cells(z0),
                            d,
                        ));
                }
            }
            if board_known_unsolveable(self@) {
                if exists|z: int, d: int|
                    0 <= z < 9 && 1 <= d <= 9 && #[trigger] board_zone_missing(
                        self@,
                        zones::row_cells(z),
                        d,
                    ) {
                    let (z0, d0): (int, int) = choose|z: int, d: int|
                        0 <= z < 9 && 1 <= d <= 9 && #[trigger] board_zone_missing(
                            self@,
                            zones::row_cells(z),
                            d,
                        );
                    assert(crate::remaining::counter_avail_count(tracker.rows_seq()[z0]) < 9);
                } else if exists|z: int, d: int|
                    0 <= z < 9 && 1 <= d <= 9 && #[trigger] board_zone_missing(
                        self@,
                        zones::col_cells(z),
                        d,
                    ) {
                    let (z0, d0): (int, int) = choose|z: int, d: int|
                        0 <= z < 9 && 1 <= d <= 9 && #[trigger] board_zone_missing(
                            self@,
                            zones::col_cells(z),
                            d,
                        );
                    assert(crate::remaining::counter_avail_count(tracker.cols_seq()[z0]) < 9);
                } else {
                    let (z0, d0): (int, int) = choose|z: int, d: int|
                        0 <= z < 9 && 1 <= d <= 9 && #[trigger] board_zone_missing(
                            self@,
                            zones::sector_cells(z),
                            d,
                        );
                    assert(crate::remaining::counter_avail_count(tracker.sectors_seq()[z0]) < 9);
                }
            }
        }
        r
    }
}

} // verus!

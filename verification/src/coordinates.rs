//! Coordinate types for the 9x9 board: rows, columns, 3x3 sectors, the
//! three-cell intersections of a sector with a row or column, and single
//! cells.
//!
//! Every type exposes its flat index, the list of its member cells and a
//! membership test; the flat index orders each family of zones and is the
//! order in which the reducer visits them.

use vstd::prelude::*;

verus! {

/// Error used when creating a coordinate type from a number that is out of
/// range.
#[derive(Clone, Copy, Debug, PartialEq, Eq, Structural)]
pub struct OutOfRange(pub u8);

/// The `k`-th value of `0..9` with `skip` left out, for `k` in `0..8`.
pub open spec fn skip9(k: int, skip: int) -> int {
    if k < skip {
        k
    } else {
        k + 1
    }
}

/// The `j`-th member (0 or 1) of the triple `base..base + 3` with `skip`
/// left out.
pub open spec fn other_in_triple(base: int, skip: int, j: int) -> int {
    if j == 0 {
        if base == skip {
            base + 1
        } else {
            base
        }
    } else {
        if base + 2 == skip {
            base + 1
        } else {
            base + 2
        }
    }
}

/// A single row of the board: the nine cells that share a y coordinate.
#[derive(Clone, Copy, Debug, Default, PartialEq, Eq, Hash, PartialOrd, Ord, Structural)]
pub struct Row(u8);

/// A single column of the board: the nine cells that share an x coordinate.
#[derive(Clone, Copy, Debug, Default, PartialEq, Eq, Hash, Structural)]
pub struct Col(u8);

/// Coordinates of a single cell on the board.
#[derive(Clone, Copy, Debug, Default, PartialEq, Eq, Hash, Structural)]
pub struct Coord {
    row: Row,
    col: Col,
}

/// A single 3x3 sector of the board.
#[derive(Clone, Copy, Debug, Default, PartialEq, Eq, Hash, Structural)]
pub struct Sector {
    base_row: u8,
    base_col: u8,
}

/// The three cells where a sector meets a row.
#[derive(Clone, Copy, Debug, Default, PartialEq, Eq, Hash, PartialOrd, Ord, Structural)]
pub struct SectorRow {
    row: Row,
    base_col: u8,
}

/// The three cells where a sector meets a column.
#[derive(Clone, Copy, Debug, Default, PartialEq, Eq, Hash, Structural)]
pub struct SectorCol {
    base_row: u8,
    col: Col,
}

impl Row {
    /// The row index is below nine.
    pub open spec fn wf(self) -> bool {
        0 <= self.spec_idx() < 9
    }

    /// The 0-based index of this row.
    pub closed spec fn spec_idx(self) -> int {
        self.0 as int
    }

    /// Construct a row with the given index.
    pub fn new(val: u8) -> (r: Row)
        requires
            val < 9,
        ensures
            r.wf() && r.spec_idx() == val,
    {
        Row(val)
    }

    /// Fallible constructor from a raw index.
    pub fn try_new(val: u8) -> (r: Result<Row, OutOfRange>)
        ensures
            match r {
                Ok(row) => val < 9 && row.wf() && row.spec_idx() == val,
                Err(e) => val >= 9 && e.0 == val,
            },
    {
        if val < 9 {
            Ok(Row(val))
        } else {
            Err(OutOfRange(val))
        }
    }

    /// Unwrap the inner index.
    pub fn inner(self) -> (r: u8)
        ensures
            r == self.spec_idx(),
    {
        self.0
    }

    /// The flat index of this row.
    pub fn idx(self) -> (r: usize)
        requires
            self.wf(),
        ensures
            r == self.spec_idx(),
    {
        self.0 as usize
    }

    /// The row with the given flat index.
    pub fn from_idx(idx: usize) -> (r: Row)
        requires
            idx < 9,
        ensures
            r.wf() && r.spec_idx() == idx,
    {
        Row(idx as u8)
    }

    /// All nine rows, in index order.
    pub fn values() -> (r: Vec<Row>)
        ensures
            r@.len() == 9,
            forall|i: int| 0 <= i < 9 ==> (#[trigger] r@[i]).wf() && r@[i].spec_idx() == i,
    {
        let mut rows: Vec<Row> = Vec::new();
        let mut i: u8 = 0;
        while i < 9
            invariant
                i <= 9,
                rows@.len() == i,
                forall|j: int| 0 <= j < i ==> (#[trigger] rows@[j]).wf() && rows@[j].spec_idx() == j,
            decreases 9 - i,
        {
            rows.push(Row(i));
            i = i + 1;
        }
        rows
    }

    /// The nine cells of this row, in column order.
    pub fn coords(self) -> (r: Vec<Coord>)
        requires
            self.wf(),
        ensures
            r@.len() == 9,
            forall|k: int|
                0 <= k < 9 ==> (#[trigger] r@[k]).wf() && r@[k].spec_row() == self.spec_idx()
                    && r@[k].spec_col() == k,
    {
        let mut cells: Vec<Coord> = Vec::new();
        let mut c: u8 = 0;
        while c < 9
            invariant
                self.wf(),
                c <= 9,
                cells@.len() == c,
                forall|k: int|
                    0 <= k < c ==> (#[trigger] cells@[k]).wf() && cells@[k].spec_row()
                        == self.spec_idx() && cells@[k].spec_col() == k,
            decreases 9 - c,
        {
            cells.push(Coord { row: self, col: Col(c) });
            c = c + 1;
        }
        cells
    }

    /// Whether this row contains the given cell.
    pub fn contains(self, coord: Coord) -> (r: bool)
        requires
            self.wf(),
            coord.wf(),
        ensures
            r <==> coord.spec_row() == self.spec_idx(),
    {
        coord.row().inner() == self.0
    }

    /// The base row of the sectors that contain this row.
    pub fn sector_base(self) -> (r: Row)
        requires
            self.wf(),
        ensures
            r.wf() && r.spec_idx() == self.spec_idx() - self.spec_idx() % 3,
    {
        Row(self.0 - self.0 % 3)
    }

    /// The three sector-rows lying within this row, in column order.
    pub fn sector_rows(self) -> (r: Vec<SectorRow>)
        requires
            self.wf(),
        ensures
            r@.len() == 3,
            forall|k: int|
                0 <= k < 3 ==> (#[trigger] r@[k]).wf() && r@[k].spec_row() == self.spec_idx()
                    && r@[k].spec_base_col() == 3 * k,
    {
        let mut out: Vec<SectorRow> = Vec::new();
        let mut k: u8 = 0;
        while k < 3
            invariant
                self.wf(),
                k <= 3,
                out@.len() == k,
                forall|j: int|
                    0 <= j < k ==> (#[trigger] out@[j]).wf() && out@[j].spec_row() == self.spec_idx()
                        && out@[j].spec_base_col() == 3 * j,
            decreases 3 - k,
        {
            out.push(SectorRow { row: self, base_col: 3 * k });
            k = k + 1;
        }
        out
    }
}

impl Col {
    /// The column index is below nine.
    pub open spec fn wf(self) -> bool {
        0 <= self.spec_idx() < 9
    }

    /// The 0-based index of this column.
    pub closed spec fn spec_idx(self) -> int {
        self.0 as int
    }

    /// Construct a column with the given index.
    pub fn new(val: u8) -> (r: Col)
        requires
            val < 9,
        ensures
            r.wf() && r.spec_idx() == val,
    {
        Col(val)
    }

    /// Fallible constructor from a raw index.
    pub fn try_new(val: u8) -> (r: Result<Col, OutOfRange>)
        ensures
            match r {
                Ok(col) => val < 9 && col.wf() && col.spec_idx() == val,
                Err(e) => val >= 9 && e.0 == val,
            },
    {
        if val < 9 {
            Ok(Col(val))
        } else {
            Err(OutOfRange(val))
        }
    }

    /// Unwrap the inner index.
    pub fn inner(self) -> (r: u8)
        ensures
            r == self.spec_idx(),
    {
        self.0
    }

    /// The flat index of this column.
    pub fn idx(self) -> (r: usize)
        requires
            self.wf(),
        ensures
            r == self.spec_idx(),
    {
        self.0 as usize
    }

    /// The column with the given flat index.
    pub fn from_idx(idx: usize) -> (r: Col)
        requires
            idx < 9,
        ensures
            r.wf() && r.spec_idx() == idx,
    {
        Col(idx as u8)
    }

    /// All nine columns, in index order.
    pub fn values() -> (r: Vec<Col>)
        ensures
            r@.len() == 9,
            forall|i: int| 0 <= i < 9 ==> (#[trigger] r@[i]).wf() && r@[i].spec_idx() == i,
    {
        let mut cols: Vec<Col> = Vec::new();
        let mut i: u8 = 0;
        while i < 9
            invariant
                i <= 9,
                cols@.len() == i,
                forall|j: int| 0 <= j < i ==> (#[trigger] cols@[j]).wf() && cols@[j].spec_idx() == j,
            decreases 9 - i,
        {
            cols.push(Col(i));
            i = i + 1;
        }
        cols
    }

    /// The nine cells of this column, in row order.
    pub fn coords(self) -> (r: Vec<Coord>)
        requires
            self.wf(),
        ensures
            r@.len() == 9,
            forall|k: int|
                0 <= k < 9 ==> (#[trigger] r@[k]).wf() && r@[k].spec_col() == self.spec_idx()
                    && r@[k].spec_row() == k,
    {
        let mut cells: Vec<Coord> = Vec::new();
        let mut rr: u8 = 0;
        while rr < 9
            invariant
                self.wf(),
                rr <= 9,
                cells@.len() == rr,
                forall|k: int|
                    0 <= k < rr ==> (#[trigger] cells@[k]).wf() && cells@[k].spec_col()
                        == self.spec_idx() && cells@[k].spec_row() == k,
            decreases 9 - rr,
        {
            cells.push(Coord { row: Row(rr), col: self });
            rr = rr + 1;
        }
        cells
    }

    /// Whether this column contains the given cell.
    pub fn contains(self, coord: Coord) -> (r: bool)
        requires
            self.wf(),
            coord.wf(),
        ensures
            r <==> coord.spec_col() == self.spec_idx(),
    {
        coord.col().inner() == self.0
    }

    /// The base column of the sectors that contain this column.
    pub fn sector_base(self) -> (r: Col)
        requires
            self.wf(),
        ensures
            r.wf() && r.spec_idx() == self.spec_idx() - self.spec_idx() % 3,
    {
        Col(self.0 - self.0 % 3)
    }

    /// The three sector-columns lying within this column, in row order.
    pub fn sector_cols(self) -> (r: Vec<SectorCol>)
        requires
            self.wf(),
        ensures
            r@.len() == 3,
            forall|k: int|
                0 <= k < 3 ==> (#[trigger] r@[k]).wf() && r@[k].spec_col() == self.spec_idx()
                    && r@[k].spec_base_row() == 3 * k,
    {
        let mut out: Vec<SectorCol> = Vec::new();
        let mut k: u8 = 0;
        while k < 3
            invariant
                self.wf(),
                k <= 3,
                out@.len() == k,
                forall|j: int|
                    0 <= j < k ==> (#[trigger] out@[j]).wf() && out@[j].spec_col() == self.spec_idx()
                        && out@[j].spec_base_row() == 3 * j,
            decreases 3 - k,
        {
            out.push(SectorCol { base_row: 3 * k, col: self });
            k = k + 1;
        }
        out
    }
}

impl Coord {
    /// Both coordinates are in range.
    pub open spec fn wf(self) -> bool {
        0 <= self.spec_row() < 9 && 0 <= self.spec_col() < 9
    }

    /// The 0-based row index of this cell.
    pub closed spec fn spec_row(self) -> int {
        self.row.spec_idx()
    }

    /// The 0-based column index of this cell.
    pub closed spec fn spec_col(self) -> int {
        self.col.spec_idx()
    }

    /// The flat row-major index of this cell.
    pub open spec fn spec_idx(self) -> int {
        self.spec_row() * 9 + self.spec_col()
    }

    /// Construct a new coordinate from its row and column.
    pub fn new(row: Row, col: Col) -> (r: Coord)
        requires
            row.wf(),
            col.wf(),
        ensures
            r.wf() && r.spec_row() == row.spec_idx() && r.spec_col() == col.spec_idx(),
    {
        Coord { row, col }
    }

    /// The row of this coordinate.
    pub fn row(self) -> (r: Row)
        requires
            self.wf(),
        ensures
            r.wf() && r.spec_idx() == self.spec_row(),
    {
        self.row
    }

    /// The column of this coordinate.
    pub fn col(self) -> (r: Col)
        requires
            self.wf(),
        ensures
            r.wf() && r.spec_idx() == self.spec_col(),
    {
        self.col
    }

    /// Replace the row of this coordinate.
    pub fn set_row(&mut self, row: Row)
        requires
            old(self).wf(),
            row.wf(),
        ensures
            final(self).wf(),
            final(self).spec_row() == row.spec_idx(),
            final(self).spec_col() == old(self).spec_col(),
    {
        self.row = row;
    }

    /// Replace the column of this coordinate.
    pub fn set_col(&mut self, col: Col)
        requires
            old(self).wf(),
            col.wf(),
        ensures
            final(self).wf(),
            final(self).spec_col() == col.spec_idx(),
            final(self).spec_row() == old(self).spec_row(),
    {
        self.col = col;
    }

    /// The sector that contains this cell.
    pub fn sector(self) -> (r: Sector)
        requires
            self.wf(),
        ensures
            r.wf(),
            r.spec_base_row() == self.spec_row() - self.spec_row() % 3,
            r.spec_base_col() == self.spec_col() - self.spec_col() % 3,
    {
        Sector::containing(self)
    }

    /// The sector-row that contains this cell.
    pub fn sector_row(self) -> (r: SectorRow)
        requires
            self.wf(),
        ensures
            r.wf(),
            r.spec_row() == self.spec_row(),
            r.spec_base_col() == self.spec_col() - self.spec_col() % 3,
    {
        SectorRow::containing(self)
    }

    /// The sector-column that contains this cell.
    pub fn sector_col(self) -> (r: SectorCol)
        requires
            self.wf(),
        ensures
            r.wf(),
            r.spec_col() == self.spec_col(),
            r.spec_base_row() == self.spec_row() - self.spec_row() % 3,
    {
        SectorCol::containing(self)
    }

    /// The flat index of this cell.
    pub fn idx(self) -> (r: usize)
        requires
            self.wf(),
        ensures
            r == self.spec_idx(),
    {
        self.row.idx() * 9 + self.col.idx()
    }

    /// The cell with the given flat index.
    pub fn from_idx(idx: usize) -> (r: Coord)
        requires
            idx < 81,
        ensures
            r.wf() && r.spec_idx() == idx,
    {
        Coord { row: Row((idx / 9) as u8), col: Col((idx % 9) as u8) }
    }

    /// All 81 cells, in flat index order.
    pub fn values() -> (r: Vec<Coord>)
        ensures
            r@.len() == 81,
            forall|i: int| 0 <= i < 81 ==> (#[trigger] r@[i]).wf() && r@[i].spec_idx() == i,
    {
        let mut cells: Vec<Coord> = Vec::new();
        let mut i: usize = 0;
        while i < 81
            invariant
                i <= 81,
                cells@.len() == i,
                forall|j: int| 0 <= j < i ==> (#[trigger] cells@[j]).wf() && cells@[j].spec_idx() == j,
            decreases 81 - i,
        {
            cells.push(Coord::from_idx(i));
            i = i + 1;
        }
        cells
    }

    /// The member cells of this coordinate seen as a one-cell zone.
    pub fn coords(self) -> (r: Vec<Coord>)
        requires
            self.wf(),
        ensures
            r@.len() == 1,
            r@[0] == self,
    {
        vec![self]
    }

    /// True when `other` shares a row, column or sector with `self` and is
    /// not `self`.
    pub open spec fn spec_neighbor(self, other: Coord) -> bool {
        other != self && (other.spec_row() == self.spec_row() || other.spec_col()
            == self.spec_col() || (other.spec_row() - other.spec_row() % 3 == self.spec_row()
            - self.spec_row() % 3 && other.spec_col() - other.spec_col() % 3 == self.spec_col()
            - self.spec_col() % 3))
    }

    /// All 20 cells in the same row, column or sector as this cell: the
    /// eight others of its row, the eight others of its column, then the
    /// four remaining sector cells.
    pub fn neighbors(self) -> (r: Vec<Coord>)
        requires
            self.wf(),
        ensures
            r@.len() == 20,
            forall|i: int| 0 <= i < 20 ==> (#[trigger] r@[i]).wf() && self.spec_neighbor(r@[i]),
            forall|k: int|
                0 <= k < 8 ==> (#[trigger] r@[k]).spec_row() == self.spec_row() && r@[k].spec_col()
                    == skip9(k, self.spec_col()),
            forall|k: int|
                0 <= k < 8 ==> (#[trigger] r@[8 + k]).spec_col() == self.spec_col()
                    && r@[8 + k].spec_row() == skip9(k, self.spec_row()),
            forall|j: int|
                0 <= j < 4 ==> (#[trigger] r@[16 + j]).spec_row() == other_in_triple(
                    self.spec_row() - self.spec_row() % 3,
                    self.spec_row(),
                    j / 2,
                ) && r@[16 + j].spec_col() == other_in_triple(
                    self.spec_col() - self.spec_col() % 3,
                    self.spec_col(),
                    j % 2,
                ),
    {
        let mut out: Vec<Coord> = Vec::new();
        let row = self.row.0;
        let col = self.col.0;
        let mut k: u8 = 0;
        while k < 8
            invariant
                self.wf(),
                row == self.spec_row(),
                col == self.spec_col(),
                k <= 8,
                out@.len() == k,
                forall|j: int|
                    0 <= j < k ==> (#[trigger] out@[j]).wf() && out@[j].spec_row()
                        == self.spec_row() && out@[j].spec_col() == skip9(j, self.spec_col())
                        && self.spec_neighbor(out@[j]),
            decreases 8 - k,
        {
            let c = if k < col {
                k
            } else {
                k + 1
            };
            out.push(Coord { row: Row(row), col: Col(c) });
            k = k + 1;
        }
        let mut k: u8 = 0;
        while k < 8
            invariant
                self.wf(),
                row == self.spec_row(),
                col == self.spec_col(),
                k <= 8,
                out@.len() == 8 + k,
                forall|j: int|
                    0 <= j < 8 ==> (#[trigger] out@[j]).wf() && out@[j].spec_row()
                        == self.spec_row() && out@[j].spec_col() == skip9(j, self.spec_col())
                        && self.spec_neighbor(out@[j]),
                forall|j: int|
                    0 <= j < k ==> (#[trigger] out@[8 + j]).wf() && out@[8 + j].spec_col()
                        == self.spec_col() && out@[8 + j].spec_row() == skip9(j, self.spec_row())
                        && self.spec_neighbor(out@[8 + j]),
            decreases 8 - k,
        {
            let rr = if k < row {
                k
            } else {
                k + 1
            };
            out.push(Coord { row: Row(rr), col: Col(col) });
            k = k + 1;
        }
        proof {
            assert forall|i: int| 0 <= i < 16 implies (#[trigger] out@[i]).wf()
                && self.spec_neighbor(out@[i]) by {
                if i >= 8 {
                    assert(out@[8 + (i - 8)].wf() && self.spec_neighbor(out@[8 + (i - 8)]));
                }
            }
        }
        let base_row = row - row % 3;
        let base_col = col - col % 3;
        let mut j: u8 = 0;
        while j < 4
            invariant
                self.wf(),
                row == self.spec_row(),
                col == self.spec_col(),
                base_row == self.spec_row() - self.spec_row() % 3,
                base_col == self.spec_col() - self.spec_col() % 3,
                j <= 4,
                out@.len() == 16 + j,
                forall|i: int|
                    0 <= i < 16 + j ==> (#[trigger] out@[i]).wf() && self.spec_neighbor(out@[i]),
                forall|i: int|
                    0 <= i < 8 ==> (#[trigger] out@[i]).spec_row() == self.spec_row()
                        && out@[i].spec_col() == skip9(i, self.spec_col()),
                forall|i: int|
                    0 <= i < 8 ==> (#[trigger] out@[8 + i]).spec_col() == self.spec_col()
                        && out@[8 + i].spec_row() == skip9(i, self.spec_row()),
                forall|i: int|
                    0 <= i < j ==> (#[trigger] out@[16 + i]).spec_row() == other_in_triple(
                        self.spec_row() - self.spec_row() % 3,
                        self.spec_row(),
                        i / 2,
                    ) && out@[16 + i].spec_col() == other_in_triple(
                        self.spec_col() - self.spec_col() % 3,
                        self.spec_col(),
                        i % 2,
                    ),
            decreases 4 - j,
        {
            let rr = if j / 2 == 0 {
                if base_row == row {
                    base_row + 1
                } else {
                    base_row
                }
            } else {
                if base_row + 2 == row {
                    base_row + 1
                } else {
                    base_row + 2
                }
            };
            let cc = if j % 2 == 0 {
                if base_col == col {
                    base_col + 1
                } else {
                    base_col
                }
            } else {
                if base_col + 2 == col {
                    base_col + 1
                } else {
                    base_col + 2
                }
            };
            out.push(Coord { row: Row(rr), col: Col(cc) });
            j = j + 1;
        }
        out
    }
}

impl Sector {
    /// Both base coordinates are multiples of three below nine.
    pub open spec fn wf(self) -> bool {
        &&& 0 <= self.spec_base_row() < 9
        &&& self.spec_base_row() % 3 == 0
        &&& 0 <= self.spec_base_col() < 9
        &&& self.spec_base_col() % 3 == 0
    }

    /// The first row of this sector.
    pub closed spec fn spec_base_row(self) -> int {
        self.base_row as int
    }

    /// The first column of this sector.
    pub closed spec fn spec_base_col(self) -> int {
        self.base_col as int
    }

    /// The flat index of this sector.
    pub open spec fn spec_idx(self) -> int {
        self.spec_base_row() + self.spec_base_col() / 3
    }

    /// The first row of this sector.
    pub fn base_row(self) -> (r: Row)
        requires
            self.wf(),
        ensures
            r.wf() && r.spec_idx() == self.spec_base_row(),
    {
        Row::new(self.base_row)
    }

    /// The first column of this sector.
    pub fn base_col(self) -> (r: Col)
        requires
            self.wf(),
        ensures
            r.wf() && r.spec_idx() == self.spec_base_col(),
    {
        Col::new(self.base_col)
    }

    /// The sector that contains the given cell.
    pub fn containing(coord: Coord) -> (r: Sector)
        requires
            coord.wf(),
        ensures
            r.wf(),
            r.spec_base_row() == coord.spec_row() - coord.spec_row() % 3,
            r.spec_base_col() == coord.spec_col() - coord.spec_col() % 3,
    {
        let row = coord.row().inner();
        let col = coord.col().inner();
        Sector { base_row: row - row % 3, base_col: col - col % 3 }
    }

    /// Whether this sector contains the given cell.
    pub fn contains(self, coord: Coord) -> (r: bool)
        requires
            self.wf(),
            coord.wf(),
        ensures
            r <==> (coord.spec_row() - coord.spec_row() % 3 == self.spec_base_row()
                && coord.spec_col() - coord.spec_col() % 3 == self.spec_base_col()),
    {
        let row = coord.row().inner();
        let col = coord.col().inner();
        row - row % 3 == self.base_row && col - col % 3 == self.base_col
    }

    /// The flat index of this sector.
    pub fn idx(self) -> (r: usize)
        requires
            self.wf(),
        ensures
            r == self.spec_idx(),
    {
        (self.base_row + self.base_col / 3) as usize
    }

    /// The sector with the given flat index.
    pub fn from_idx(idx: usize) -> (r: Sector)
        requires
            idx < 9,
        ensures
            r.wf() && r.spec_idx() == idx,
    {
        let idx = idx as u8;
        let col = idx % 3;
        Sector { base_row: idx - col, base_col: col * 3 }
    }

    /// All nine sectors, in index order.
    pub fn values() -> (r: Vec<Sector>)
        ensures
            r@.len() == 9,
            forall|i: int| 0 <= i < 9 ==> (#[trigger] r@[i]).wf() && r@[i].spec_idx() == i,
    {
        let mut out: Vec<Sector> = Vec::new();
        let mut i: usize = 0;
        while i < 9
            invariant
                i <= 9,
                out@.len() == i,
                forall|j: int| 0 <= j < i ==> (#[trigger] out@[j]).wf() && out@[j].spec_idx() == j,
            decreases 9 - i,
        {
            out.push(Sector::from_idx(i));
            i = i + 1;
        }
        out
    }

    /// The nine cells of this sector, rows first.
    pub fn coords(self) -> (r: Vec<Coord>)
        requires
            self.wf(),
        ensures
            r@.len() == 9,
            forall|k: int|
                0 <= k < 9 ==> (#[trigger] r@[k]).wf() && r@[k].spec_row() == self.spec_base_row()
                    + k / 3 && r@[k].spec_col() == self.spec_base_col() + k % 3,
    {
        let mut cells: Vec<Coord> = Vec::new();
        let mut k: u8 = 0;
        while k < 9
            invariant
                self.wf(),
                k <= 9,
                cells@.len() == k,
                forall|j: int|
                    0 <= j < k ==> (#[trigger] cells@[j]).wf() && cells@[j].spec_row()
                        == self.spec_base_row() + j / 3 && cells@[j].spec_col()
                        == self.spec_base_col() + j % 3,
            decreases 9 - k,
        {
            cells.push(Coord { row: Row(self.base_row + k / 3), col: Col(self.base_col + k % 3) });
            k = k + 1;
        }
        cells
    }

    /// The three sector-rows of this sector, topmost first.
    pub fn rows(self) -> (r: Vec<SectorRow>)
        requires
            self.wf(),
        ensures
            r@.len() == 3,
            forall|k: int|
                0 <= k < 3 ==> (#[trigger] r@[k]).wf() && r@[k].spec_row() == self.spec_base_row()
                    + k && r@[k].spec_base_col() == self.spec_base_col(),
    {
        let mut out: Vec<SectorRow> = Vec::new();
        let mut k: u8 = 0;
        while k < 3
            invariant
                self.wf(),
                k <= 3,
                out@.len() == k,
                forall|j: int|
                    0 <= j < k ==> (#[trigger] out@[j]).wf() && out@[j].spec_row()
                        == self.spec_base_row() + j && out@[j].spec_base_col()
                        == self.spec_base_col(),
            decreases 3 - k,
        {
            out.push(SectorRow { row: Row(self.base_row + k), base_col: self.base_col });
            k = k + 1;
        }
        out
    }

    /// The three sector-columns of this sector, leftmost first.
    pub fn cols(self) -> (r: Vec<SectorCol>)
        requires
            self.wf(),
        ensures
            r@.len() == 3,
            forall|k: int|
                0 <= k < 3 ==> (#[trigger] r@[k]).wf() && r@[k].spec_col() == self.spec_base_col()
                    + k && r@[k].spec_base_row() == self.spec_base_row(),
    {
        let mut out: Vec<SectorCol> = Vec::new();
        let mut k: u8 = 0;
        while k < 3
            invariant
                self.wf(),
                k <= 3,
                out@.len() == k,
                forall|j: int|
                    0 <= j < k ==> (#[trigger] out@[j]).wf() && out@[j].spec_col()
                        == self.spec_base_col() + j && out@[j].spec_base_row()
                        == self.spec_base_row(),
            decreases 3 - k,
        {
            out.push(SectorCol { base_row: self.base_row, col: Col(self.base_col + k) });
            k = k + 1;
        }
        out
    }
}

impl SectorRow {
    /// The row is in range and the base column is a multiple of three.
    pub open spec fn wf(self) -> bool {
        &&& 0 <= self.spec_row() < 9
        &&& 0 <= self.spec_base_col() < 9
        &&& self.spec_base_col() % 3 == 0
    }

    /// The row this sector-row lies in.
    pub closed spec fn spec_row(self) -> int {
        self.row.spec_idx()
    }

    /// The first column of the sector this sector-row lies in.
    pub closed spec fn spec_base_col(self) -> int {
        self.base_col as int
    }

    /// The flat index of this sector-row: row-major over rows, then the
    /// sector column band.
    pub open spec fn spec_idx(self) -> int {
        self.spec_row() * 3 + self.spec_base_col() / 3
    }

    /// Construct the sector-row of a row and the sector band starting at
    /// the given base column.
    pub fn new(row: Row, base_col: Col) -> (r: SectorRow)
        requires
            row.wf(),
            base_col.wf(),
            base_col.spec_idx() % 3 == 0,
        ensures
            r.wf() && r.spec_row() == row.spec_idx() && r.spec_base_col() == base_col.spec_idx(),
    {
        SectorRow { row, base_col: base_col.inner() }
    }

    /// The sector-row that contains the given cell.
    pub fn containing(coord: Coord) -> (r: SectorRow)
        requires
            coord.wf(),
        ensures
            r.wf(),
            r.spec_row() == coord.spec_row(),
            r.spec_base_col() == coord.spec_col() - coord.spec_col() % 3,
    {
        let col = coord.col().inner();
        SectorRow { row: coord.row(), base_col: col - col % 3 }
    }

    /// The sector this sector-row is part of.
    pub fn sector(self) -> (r: Sector)
        requires
            self.wf(),
        ensures
            r.wf(),
            r.spec_base_row() == self.spec_row() - self.spec_row() % 3,
            r.spec_base_col() == self.spec_base_col(),
    {
        let row = self.row.inner();
        Sector { base_row: row - row % 3, base_col: self.base_col }
    }

    /// The row this sector-row is part of.
    pub fn row(self) -> (r: Row)
        requires
            self.wf(),
        ensures
            r.wf() && r.spec_idx() == self.spec_row(),
    {
        self.row
    }

    /// The base column of the sector this sector-row is part of.
    pub fn base_col(self) -> (r: Col)
        requires
            self.wf(),
        ensures
            r.wf() && r.spec_idx() == self.spec_base_col(),
    {
        Col::new(self.base_col)
    }

    /// The flat index of this sector-row.
    pub fn idx(self) -> (r: usize)
        requires
            self.wf(),
        ensures
            r == self.spec_idx(),
    {
        (self.row.inner() * 3 + self.base_col / 3) as usize
    }

    /// The sector-row with the given flat index.
    pub fn from_idx(idx: usize) -> (r: SectorRow)
        requires
            idx < 27,
        ensures
            r.wf() && r.spec_idx() == idx,
    {
        let idx = idx as u8;
        SectorRow { row: Row(idx / 3), base_col: (idx % 3) * 3 }
    }

    /// All 27 sector-rows, in index order.
    pub fn values() -> (r: Vec<SectorRow>)
        ensures
            r@.len() == 27,
            forall|i: int| 0 <= i < 27 ==> (#[trigger] r@[i]).wf() && r@[i].spec_idx() == i,
    {
        let mut out: Vec<SectorRow> = Vec::new();
        let mut i: usize = 0;
        while i < 27
            invariant
                i <= 27,
                out@.len() == i,
                forall|j: int| 0 <= j < i ==> (#[trigger] out@[j]).wf() && out@[j].spec_idx() == j,
            decreases 27 - i,
        {
            out.push(SectorRow::from_idx(i));
            i = i + 1;
        }
        out
    }

    /// The three cells of this sector-row, in column order.
    pub fn coords(self) -> (r: Vec<Coord>)
        requires
            self.wf(),
        ensures
            r@.len() == 3,
            forall|k: int|
                0 <= k < 3 ==> (#[trigger] r@[k]).wf() && r@[k].spec_row() == self.spec_row()
                    && r@[k].spec_col() == self.spec_base_col() + k,
    {
        let mut cells: Vec<Coord> = Vec::new();
        let mut k: u8 = 0;
        while k < 3
            invariant
                self.wf(),
                k <= 3,
                cells@.len() == k,
                forall|j: int|
                    0 <= j < k ==> (#[trigger] cells@[j]).wf() && cells@[j].spec_row()
                        == self.spec_row() && cells@[j].spec_col() == self.spec_base_col() + j,
            decreases 3 - k,
        {
            cells.push(Coord { row: self.row, col: Col(self.base_col + k) });
            k = k + 1;
        }
        cells
    }

    /// Whether this sector-row contains the given cell.
    pub fn contains(self, coord: Coord) -> (r: bool)
        requires
            self.wf(),
            coord.wf(),
        ensures
            r <==> (coord.spec_row() == self.spec_row() && coord.spec_col() - coord.spec_col() % 3
                == self.spec_base_col()),
    {
        let col = coord.col().inner();
        coord.row().inner() == self.row.inner() && col - col % 3 == self.base_col
    }

    /// The two other sector-rows of the same row, in column order.
    pub fn row_neighbors(self) -> (r: Vec<SectorRow>)
        requires
            self.wf(),
        ensures
            r@.len() == 2,
            forall|j: int|
                0 <= j < 2 ==> (#[trigger] r@[j]).wf() && r@[j].spec_row() == self.spec_row()
                    && r@[j].spec_base_col() == 3 * other_in_triple(
                    0,
                    self.spec_base_col() / 3,
                    j,
                ),
    {
        let band = self.base_col / 3;
        let b0 = if band == 0 { 1 } else { 0 };
        let b1 = if band == 2 { 1 } else { 2 };
        let mut out: Vec<SectorRow> = Vec::new();
        out.push(SectorRow { row: self.row, base_col: b0 * 3 });
        out.push(SectorRow { row: self.row, base_col: b1 * 3 });
        out
    }

    /// The two other sector-rows of the same sector, in row order.
    pub fn sector_neighbors(self) -> (r: Vec<SectorRow>)
        requires
            self.wf(),
        ensures
            r@.len() == 2,
            forall|j: int|
                0 <= j < 2 ==> (#[trigger] r@[j]).wf() && r@[j].spec_base_col()
                    == self.spec_base_col() && r@[j].spec_row() == other_in_triple(
                    self.spec_row() - self.spec_row() % 3,
                    self.spec_row(),
                    j,
                ),
    {
        let row = self.row.inner();
        let base_row = row - row % 3;
        let r0 = if base_row == row { base_row + 1 } else { base_row };
        let r1 = if base_row + 2 == row { base_row + 1 } else { base_row + 2 };
        let mut out: Vec<SectorRow> = Vec::new();
        out.push(SectorRow { row: Row(r0), base_col: self.base_col });
        out.push(SectorRow { row: Row(r1), base_col: self.base_col });
        out
    }

    /// The two row neighbours followed by the two sector neighbours.
    pub fn neighbors(self) -> (r: Vec<SectorRow>)
        requires
            self.wf(),
        ensures
            r@.len() == 4,
            forall|j: int|
                0 <= j < 2 ==> (#[trigger] r@[j]).wf() && r@[j].spec_row() == self.spec_row()
                    && r@[j].spec_base_col() == 3 * other_in_triple(
                    0,
                    self.spec_base_col() / 3,
                    j,
                ),
            forall|j: int|
                0 <= j < 2 ==> (#[trigger] r@[2 + j]).wf() && r@[2 + j].spec_base_col()
                    == self.spec_base_col() && r@[2 + j].spec_row() == other_in_triple(
                    self.spec_row() - self.spec_row() % 3,
                    self.spec_row(),
                    j,
                ),
    {
        let mut out = self.row_neighbors();
        let mut more = self.sector_neighbors();
        let s0 = more[0];
        let s1 = more[1];
        out.push(s0);
        out.push(s1);
        out
    }
}

impl SectorCol {
    /// The column is in range and the base row is a multiple of three.
    pub open spec fn wf(self) -> bool {
        &&& 0 <= self.spec_col() < 9
        &&& 0 <= self.spec_base_row() < 9
        &&& self.spec_base_row() % 3 == 0
    }

    /// The column this sector-column lies in.
    pub closed spec fn spec_col(self) -> int {
        self.col.spec_idx()
    }

    /// The first row of the sector this sector-column lies in.
    pub closed spec fn spec_base_row(self) -> int {
        self.base_row as int
    }

    /// The flat index of this sector-column: sector-major, then the column
    /// within the sector.
    pub open spec fn spec_idx(self) -> int {
        (self.spec_base_row() + self.spec_col() / 3) * 3 + self.spec_col() % 3
    }

    /// Construct the sector-column of a column and the sector band starting
    /// at the given base row.
    pub fn new(base_row: Row, col: Col) -> (r: SectorCol)
        requires
            base_row.wf(),
            col.wf(),
            base_row.spec_idx() % 3 == 0,
        ensures
            r.wf() && r.spec_col() == col.spec_idx() && r.spec_base_row() == base_row.spec_idx(),
    {
        SectorCol { base_row: base_row.inner(), col }
    }

    /// The sector-column that contains the given cell.
    pub fn containing(coord: Coord) -> (r: SectorCol)
        requires
            coord.wf(),
        ensures
            r.wf(),
            r.spec_col() == coord.spec_col(),
            r.spec_base_row() == coord.spec_row() - coord.spec_row() % 3,
    {
        let row = coord.row().inner();
        SectorCol { base_row: row - row % 3, col: coord.col() }
    }

    /// The sector this sector-column is part of.
    pub fn sector(self) -> (r: Sector)
        requires
            self.wf(),
        ensures
            r.wf(),
            r.spec_base_row() == self.spec_base_row(),
            r.spec_base_col() == self.spec_col() - self.spec_col() % 3,
    {
        let col = self.col.inner();
        Sector { base_row: self.base_row, base_col: col - col % 3 }
    }

    /// The column this sector-column is part of.
    pub fn col(self) -> (r: Col)
        requires
            self.wf(),
        ensures
            r.wf() && r.spec_idx() == self.spec_col(),
    {
        self.col
    }

    /// The base row of the sector this sector-column is part of.
    pub fn base_row(self) -> (r: Row)
        requires
            self.wf(),
        ensures
            r.wf() && r.spec_idx() == self.spec_base_row(),
    {
        Row::new(self.base_row)
    }

    /// The flat index of this sector-column.
    pub fn idx(self) -> (r: usize)
        requires
            self.wf(),
        ensures
            r == self.spec_idx(),
    {
        ((self.base_row + self.col.inner() / 3) * 3 + self.col.inner() % 3) as usize
    }

    /// The sector-column with the given flat index.
    pub fn from_idx(idx: usize) -> (r: SectorCol)
        requires
            idx < 27,
        ensures
            r.wf() && r.spec_idx() == idx,
    {
        let idx = idx as u8;
        let sector = idx / 3;
        let rel = idx % 3;
        let base_col = (sector % 3) * 3;
        SectorCol { base_row: sector - sector % 3, col: Col(base_col + rel) }
    }

    /// All 27 sector-columns, in index order.
    pub fn values() -> (r: Vec<SectorCol>)
        ensures
            r@.len() == 27,
            forall|i: int| 0 <= i < 27 ==> (#[trigger] r@[i]).wf() && r@[i].spec_idx() == i,
    {
        let mut out: Vec<SectorCol> = Vec::new();
        let mut i: usize = 0;
        while i < 27
            invariant
                i <= 27,
                out@.len() == i,
                forall|j: int| 0 <= j < i ==> (#[trigger] out@[j]).wf() && out@[j].spec_idx() == j,
            decreases 27 - i,
        {
            out.push(SectorCol::from_idx(i));
            i = i + 1;
        }
        out
    }

    /// The three cells of this sector-column, in row order.
    pub fn coords(self) -> (r: Vec<Coord>)
        requires
            self.wf(),
        ensures
            r@.len() == 3,
            forall|k: int|
                0 <= k < 3 ==> (#[trigger] r@[k]).wf() && r@[k].spec_col() == self.spec_col()
                    && r@[k].spec_row() == self.spec_base_row() + k,
    {
        let mut cells: Vec<Coord> = Vec::new();
        let mut k: u8 = 0;
        while k < 3
            invariant
                self.wf(),
                k <= 3,
                cells@.len() == k,
                forall|j: int|
                    0 <= j < k ==> (#[trigger] cells@[j]).wf() && cells@[j].spec_col()
                        == self.spec_col() && cells@[j].spec_row() == self.spec_base_row() + j,
            decreases 3 - k,
        {
            cells.push(Coord { row: Row(self.base_row + k), col: self.col });
            k = k + 1;
        }
        cells
    }

    /// Whether this sector-column contains the given cell.
    pub fn contains(self, coord: Coord) -> (r: bool)
        requires
            self.wf(),
            coord.wf(),
        ensures
            r <==> (coord.spec_col() == self.spec_col() && coord.spec_row() - coord.spec_row() % 3
                == self.spec_base_row()),
    {
        let row = coord.row().inner();
        coord.col().inner() == self.col.inner() && row - row % 3 == self.base_row
    }

    /// The two other sector-columns of the same column, in row order.
    pub fn col_neighbors(self) -> (r: Vec<SectorCol>)
        requires
            self.wf(),
        ensures
            r@.len() == 2,
            forall|j: int|
                0 <= j < 2 ==> (#[trigger] r@[j]).wf() && r@[j].spec_col() == self.spec_col()
                    && r@[j].spec_base_row() == 3 * other_in_triple(
                    0,
                    self.spec_base_row() / 3,
                    j,
                ),
    {
        let band = self.base_row / 3;
        let b0 = if band == 0 { 1 } else { 0 };
        let b1 = if band == 2 { 1 } else { 2 };
        let mut out: Vec<SectorCol> = Vec::new();
        out.push(SectorCol { base_row: b0 * 3, col: self.col });
        out.push(SectorCol { base_row: b1 * 3, col: self.col });
        out
    }

    /// The two other sector-columns of the same sector, in column order.
    pub fn sector_neighbors(self) -> (r: Vec<SectorCol>)
        requires
            self.wf(),
        ensures
            r@.len() == 2,
            forall|j: int|
                0 <= j < 2 ==> (#[trigger] r@[j]).wf() && r@[j].spec_base_row()
                    == self.spec_base_row() && r@[j].spec_col() == other_in_triple(
                    self.spec_col() - self.spec_col() % 3,
                    self.spec_col(),
                    j,
                ),
    {
        let col = self.col.inner();
        let base_col = col - col % 3;
        let c0 = if base_col == col { base_col + 1 } else { base_col };
        let c1 = if base_col + 2 == col { base_col + 1 } else { base_col + 2 };
        let mut out: Vec<SectorCol> = Vec::new();
        out.push(SectorCol { base_row: self.base_row, col: Col(c0) });
        out.push(SectorCol { base_row: self.base_row, col: Col(c1) });
        out
    }

    /// The two column neighbours followed by the two sector neighbours.
    pub fn neighbors(self) -> (r: Vec<SectorCol>)
        requires
            self.wf(),
        ensures
            r@.len() == 4,
            forall|j: int|
                0 <= j < 2 ==> (#[trigger] r@[j]).wf() && r@[j].spec_col() == self.spec_col()
                    && r@[j].spec_base_row() == 3 * other_in_triple(
                    0,
                    self.spec_base_row() / 3,
                    j,
                ),
            forall|j: int|
                0 <= j < 2 ==> (#[trigger] r@[2 + j]).wf() && r@[2 + j].spec_base_row()
                    == self.spec_base_row() && r@[2 + j].spec_col() == other_in_triple(
                    self.spec_col() - self.spec_col() % 3,
                    self.spec_col(),
                    j,
                ),
    {
        let mut out = self.col_neighbors();
        let more = self.sector_neighbors();
        let s0 = more[0];
        let s1 = more[1];
        out.push(s0);
        out.push(s1);
        out
    }
}

/// Every cell sharing a row, column or sector with `c` appears in
/// `c.neighbors()`: the list of twenty is complete.
pub proof fn lemma_neighbors_complete(c: Coord, ns: Seq<Coord>, j: Coord)
    requires
        c.wf(),
        j.wf(),
        c.spec_neighbor(j),
        ns.len() == 20,
        forall|k: int|
            0 <= k < 8 ==> (#[trigger] ns[k]).spec_row() == c.spec_row() && ns[k].spec_col()
                == skip9(k, c.spec_col()),
        forall|k: int|
            0 <= k < 8 ==> (#[trigger] ns[8 + k]).spec_col() == c.spec_col() && ns[8 + k].spec_row()
                == skip9(k, c.spec_row()),
        forall|k: int|
            0 <= k < 4 ==> (#[trigger] ns[16 + k]).spec_row() == other_in_triple(
                c.spec_row() - c.spec_row() % 3,
                c.spec_row(),
                k / 2,
            ) && ns[16 + k].spec_col() == other_in_triple(
                c.spec_col() - c.spec_col() % 3,
                c.spec_col(),
                k % 2,
            ),
    ensures
        exists|k: int| 0 <= k < 20 && #[trigger] ns[k] == j,
{
    let cr = c.spec_row();
    let cc = c.spec_col();
    let jr = j.spec_row();
    let jc = j.spec_col();
    if jr == cr {
        let k = if jc < cc {
            jc
        } else {
            jc - 1
        };
        assert(jc != cc) by {
            if jc == cc {
                lemma_coord_eq(j, c);
            }
        }
        assert(0 <= k < 8 && skip9(k, cc) == jc);
        assert(ns[k].spec_row() == jr && ns[k].spec_col() == jc);
        lemma_coord_eq(ns[k], j);
        assert(ns[k] == j);
    } else if jc == cc {
        let k = if jr < cr {
            jr
        } else {
            jr - 1
        };
        assert(0 <= k < 8 && skip9(k, cr) == jr);
        assert(ns[8 + k].spec_row() == jr && ns[8 + k].spec_col() == jc);
        lemma_coord_eq(ns[8 + k], j);
        assert(ns[8 + k] == j);
    } else {
        assert(jr - jr % 3 == cr - cr % 3 && jc - jc % 3 == cc - cc % 3);
        let kr: int = if jr == other_in_triple(cr - cr % 3, cr, 0) {
            0
        } else {
            1
        };
        let kc: int = if jc == other_in_triple(cc - cc % 3, cc, 0) {
            0
        } else {
            1
        };
        assert(jr == other_in_triple(cr - cr % 3, cr, kr)) by {
            assert(jr != cr);
        }
        assert(jc == other_in_triple(cc - cc % 3, cc, kc)) by {
            assert(jc != cc);
        }
        let k = kr * 2 + kc;
        assert(0 <= k < 4 && k / 2 == kr && k % 2 == kc);
        assert(ns[16 + k].spec_row() == jr && ns[16 + k].spec_col() == jc);
        lemma_coord_eq(ns[16 + k], j);
        assert(ns[16 + k] == j);
    }
}

/// The coordinate with the given row and column indices.
pub closed spec fn coord_spec(r: int, c: int) -> Coord {
    Coord { row: Row(r as u8), col: Col(c as u8) }
}

/// An in-range specification coordinate carries its indices.
pub proof fn lemma_coord_spec(r: int, c: int)
    requires
        0 <= r < 9,
        0 <= c < 9,
    ensures
        coord_spec(r, c).wf(),
        coord_spec(r, c).spec_row() == r,
        coord_spec(r, c).spec_col() == c,
{
}

/// A cell coordinate is determined by its row and column indices.
pub proof fn lemma_coord_eq(a: Coord, b: Coord)
    ensures
        (a.spec_row() == b.spec_row() && a.spec_col() == b.spec_col()) ==> a == b,
{
}

} // verus!

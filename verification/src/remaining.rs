//! The remaining-possibilities tracker: the solver's working state.
//!
//! The authoritative store is one candidate [`AvailSet`] per cell. Five
//! derived indexes — per row, column, sector, sector-row and sector-column
//! counters — record, for each digit, how many cells of the zone still
//! admit it. The consistency law [`RemainingTracker::wf`] equates every
//! counter with the count over the cells; the constructor establishes it
//! and every mutation here preserves it.

use vstd::prelude::*;

use crate::availset::AvailCounter;
use crate::availset::AvailSet;
use crate::zones::col_cells;
use crate::zones::col_of;
use crate::zones::lemma_cell_decompose;
use crate::zones::lemma_col_membership;
use crate::zones::lemma_row_membership;
use crate::zones::lemma_scol_membership;
use crate::zones::lemma_sector_membership;
use crate::zones::lemma_srow_membership;
use crate::zones::lemma_zone_count_full;
use crate::zones::lemma_zone_count_member;
use crate::zones::lemma_zone_shapes;
use crate::zones::row_cells;
use crate::zones::row_of;
use crate::zones::scol_cells;
use crate::zones::scol_of;
use crate::zones::sector_cells;
use crate::zones::sector_of;
use crate::zones::srow_cells;
use crate::zones::srow_of;
use crate::zones::total_size;
use crate::zones::zone_count;
use crate::Board;
use crate::Val;

verus! {

/// Candidate sets `a` admit, cell by cell, no digit that `b` does not.
pub open spec fn cells_subset(a: Seq<AvailSet>, b: Seq<AvailSet>) -> bool {
    forall|i: int, d: int| 0 <= i < 81 && #[trigger] a[i].has(d) ==> b[i].has(d)
}

/// The digit a complete board assigns to cell `i`.
pub open spec fn solution_digit(s: Seq<Option<Val>>, i: int) -> int {
    s[i]->Some_0.spec_val()
}

/// The candidate sets still admit the complete board `s`: every cell's
/// set holds the digit `s` assigns there.
pub open spec fn cells_admit(cells: Seq<AvailSet>, s: Seq<Option<Val>>) -> bool {
    forall|i: int| 0 <= i < 81 ==> #[trigger] cells[i].has(solution_digit(s, i))
}

/// Cell `i` is the first cell, in flat order, still holding more than one
/// candidate.
pub open spec fn first_undecided(cells: Seq<AvailSet>, i: int) -> bool {
    &&& 0 <= i < 81
    &&& cells[i].count() > 1
    &&& forall|j: int| 0 <= j < i ==> (#[trigger] cells[j]).count() <= 1
}

/// The candidate sets alone already show a dead end: some cell is out of
/// candidates, or some row, column or sector has no cell left for some
/// digit.
pub open spec fn cells_known_unsolveable(cells: Seq<AvailSet>) -> bool {
    ||| exists|i: int| 0 <= i < 81 && (#[trigger] cells[i]).count() == 0
    ||| exists|z: int, d: int|
        0 <= z < 9 && 1 <= d <= 9 && #[trigger] zone_count(cells, row_cells(z), d) == 0
    ||| exists|z: int, d: int|
        0 <= z < 9 && 1 <= d <= 9 && #[trigger] zone_count(cells, col_cells(z), d) == 0
    ||| exists|z: int, d: int|
        0 <= z < 9 && 1 <= d <= 9 && #[trigger] zone_count(cells, sector_cells(z), d) == 0
}

/// The child pins the branch cell `i` to one of its candidates and is
/// not a visible dead end.
pub open spec fn child_pins(cells: Seq<AvailSet>, child: RemainingTracker, i: int) -> bool {
    exists|d: int|
        1 <= d <= 9 && cells[i].has(d) && child.cells() == cells.update(
            i,
            #[trigger] AvailSet::only_spec(d),
        ) && !cells_known_unsolveable(child.cells())
}

/// Every child pins the branch cell `i` to one of its candidates and is
/// not a visible dead end.
pub open spec fn children_pin_cell(
    cells: Seq<AvailSet>,
    children: Seq<RemainingTracker>,
    i: int,
) -> bool {
    forall|k: int| 0 <= k < children.len() ==> #[trigger] child_pins(cells, children[k], i)
}

/// A candidate of the branch cell `i` yields a child exactly when pinning
/// it leaves no visible dead end.
pub open spec fn children_cover_candidates(
    cells: Seq<AvailSet>,
    children: Seq<RemainingTracker>,
    i: int,
) -> bool {
    forall|d: int|
        1 <= d <= 9 && cells[i].has(d) ==> ((exists|k: int|
            0 <= k < children.len() && (#[trigger] children[k].cells()) == cells.update(
                i,
                AvailSet::only_spec(d),
            )) <==> !cells_known_unsolveable(#[trigger] cells.update(i, AvailSet::only_spec(d))))
}

/// The children pin the branch cell `i` to strictly increasing digits.
pub open spec fn children_ascending(
    cells: Seq<AvailSet>,
    children: Seq<RemainingTracker>,
    i: int,
) -> bool {
    forall|k1: int, k2: int, d1: int, d2: int|
        0 <= k1 < k2 < children.len() && 1 <= d1 <= 9 && 1 <= d2 <= 9 && (
        #[trigger] children[k1].cells()) == cells.update(i, #[trigger] AvailSet::only_spec(d1)) && (
        #[trigger] children[k2].cells()) == cells.update(i, #[trigger] AvailSet::only_spec(d2))
            ==> d1 < d2
}

/// Candidate sets `cells` admit only the pinned digit wherever the board
/// `pins` holds one.
pub open spec fn cells_respect_pins(cells: Seq<AvailSet>, pins: Seq<Option<Val>>) -> bool {
    forall|i: int, d: int|
        0 <= i < 81 && #[trigger] cells[i].has(d) && pins[i] is Some ==> d
            == pins[i]->Some_0.spec_val()
}

/// Counter readings after one elimination: the size of the cell's
/// candidate set and, for each of the five zones containing the cell, the
/// zone's remaining count of the eliminated digit.
pub struct ElimCounts {
    /// Candidates left in the cell.
    pub cell: usize,
    /// Count of the digit left in the cell's row.
    pub row: u8,
    /// Count of the digit left in the cell's column.
    pub col: u8,
    /// Count of the digit left in the cell's sector.
    pub sector: u8,
    /// Count of the digit left in the cell's sector-row.
    pub srow: u8,
    /// Count of the digit left in the cell's sector-column.
    pub scol: u8,
}

/// What a single-cell elimination did.
pub enum ElimOutcome {
    /// The digit was not in the cell's candidate set; nothing changed.
    Unchanged,
    /// The digit was removed; the five zone counters were decremented.
    Removed(ElimCounts),
}

/// Tracks the candidate digits remaining in every cell of a board, with
/// one derived counter index per zone family.
pub(crate) struct RemainingTracker {
    board: Vec<AvailSet>,
    rows: Vec<AvailCounter>,
    cols: Vec<AvailCounter>,
    sectors: Vec<AvailCounter>,
    sector_rows: Vec<AvailCounter>,
    sector_cols: Vec<AvailCounter>,
}

impl RemainingTracker {
    /// The candidate set of every cell, row-major.
    pub closed spec fn cells(self) -> Seq<AvailSet> {
        self.board@
    }

    /// The nine row counters.
    pub closed spec fn rows_seq(self) -> Seq<AvailCounter> {
        self.rows@
    }

    /// The nine column counters.
    pub closed spec fn cols_seq(self) -> Seq<AvailCounter> {
        self.cols@
    }

    /// The nine sector counters.
    pub closed spec fn sectors_seq(self) -> Seq<AvailCounter> {
        self.sectors@
    }

    /// The twenty-seven sector-row counters.
    pub closed spec fn srows_seq(self) -> Seq<AvailCounter> {
        self.sector_rows@
    }

    /// The twenty-seven sector-column counters.
    pub closed spec fn scols_seq(self) -> Seq<AvailCounter> {
        self.sector_cols@
    }

    /// Shape of the tracker: 81 well-formed cells and the five counter
    /// vectors at their fixed lengths.
    pub open spec fn shape_wf(self) -> bool {
        &&& self.cells().len() == 81
        &&& forall|i: int| 0 <= i < 81 ==> (#[trigger] self.cells()[i]).wf()
        &&& self.rows_seq().len() == 9
        &&& forall|z: int| 0 <= z < 9 ==> (#[trigger] self.rows_seq()[z]).wf()
        &&& self.cols_seq().len() == 9
        &&& forall|z: int| 0 <= z < 9 ==> (#[trigger] self.cols_seq()[z]).wf()
        &&& self.sectors_seq().len() == 9
        &&& forall|z: int| 0 <= z < 9 ==> (#[trigger] self.sectors_seq()[z]).wf()
        &&& self.srows_seq().len() == 27
        &&& forall|z: int| 0 <= z < 27 ==> (#[trigger] self.srows_seq()[z]).wf()
        &&& self.scols_seq().len() == 27
        &&& forall|z: int| 0 <= z < 27 ==> (#[trigger] self.scols_seq()[z]).wf()
    }

    /// The consistency law: every zone counter equals, digit by digit, the
    /// number of the zone's cells that still admit the digit.
    pub open spec fn counts_consistent(self) -> bool {
        &&& forall|z: int, d: int|
            0 <= z < 9 && 1 <= d <= 9 ==> (#[trigger] self.rows_seq()[z].count_of(d)) == zone_count(
                self.cells(),
                row_cells(z),
                d,
            )
        &&& forall|z: int, d: int|
            0 <= z < 9 && 1 <= d <= 9 ==> (#[trigger] self.cols_seq()[z].count_of(d)) == zone_count(
                self.cells(),
                col_cells(z),
                d,
            )
        &&& forall|z: int, d: int|
            0 <= z < 9 && 1 <= d <= 9 ==> (#[trigger] self.sectors_seq()[z].count_of(d))
                == zone_count(self.cells(), sector_cells(z), d)
        &&& forall|z: int, d: int|
            0 <= z < 27 && 1 <= d <= 9 ==> (#[trigger] self.srows_seq()[z].count_of(d))
                == zone_count(self.cells(), srow_cells(z), d)
        &&& forall|z: int, d: int|
            0 <= z < 27 && 1 <= d <= 9 ==> (#[trigger] self.scols_seq()[z].count_of(d))
                == zone_count(self.cells(), scol_cells(z), d)
    }

    /// Well-formed tracker: correct shape and the consistency law.
    pub open spec fn wf(self) -> bool {
        self.shape_wf() && self.counts_consistent()
    }

    /// No cell's candidate set is empty.
    pub open spec fn all_nonempty(self) -> bool {
        forall|i: int| 0 <= i < 81 ==> (#[trigger] self.cells()[i]).count() >= 1
    }

    /// The candidate set of one cell.
    pub fn cell(&self, i: usize) -> (r: AvailSet)
        requires
            self.wf(),
            i < 81,
        ensures
            r == self.cells()[i as int],
    {
        self.board[i]
    }

    /// The count of digit `v` in the counter of row `z`.
    pub fn row_count_of(&self, z: usize, v: Val) -> (r: u8)
        requires
            self.wf(),
            z < 9,
            v.wf(),
        ensures
            r == self.rows_seq()[z as int].count_of(v.spec_val()),
    {
        self.rows[z].get(v)
    }

    /// The count of digit `v` in the counter of column `z`.
    pub fn col_count_of(&self, z: usize, v: Val) -> (r: u8)
        requires
            self.wf(),
            z < 9,
            v.wf(),
        ensures
            r == self.cols_seq()[z as int].count_of(v.spec_val()),
    {
        self.cols[z].get(v)
    }

    /// The count of digit `v` in the counter of sector `z`.
    pub fn sector_count_of(&self, z: usize, v: Val) -> (r: u8)
        requires
            self.wf(),
            z < 9,
            v.wf(),
        ensures
            r == self.sectors_seq()[z as int].count_of(v.spec_val()),
    {
        self.sectors[z].get(v)
    }

    /// The count of digit `v` in the counter of sector-row `z`.
    pub fn srow_count_of(&self, z: usize, v: Val) -> (r: u8)
        requires
            self.wf(),
            z < 27,
            v.wf(),
        ensures
            r == self.srows_seq()[z as int].count_of(v.spec_val()),
    {
        self.sector_rows[z].get(v)
    }

    /// The count of digit `v` in the counter of sector-column `z`.
    pub fn scol_count_of(&self, z: usize, v: Val) -> (r: u8)
        requires
            self.wf(),
            z < 27,
            v.wf(),
        ensures
            r == self.scols_seq()[z as int].count_of(v.spec_val()),
    {
        self.sector_cols[z].get(v)
    }

    /// The set of digits still available somewhere in row `z`.
    pub fn row_avail(&self, z: usize) -> (r: AvailSet)
        requires
            self.wf(),
            z < 9,
        ensures
            r.wf(),
            forall|d: int| r.has(d) <==> 1 <= d <= 9 && self.rows_seq()[z as int].count_of(d) > 0,
    {
        self.rows[z].avail()
    }

    /// The set of digits still available somewhere in column `z`.
    pub fn col_avail(&self, z: usize) -> (r: AvailSet)
        requires
            self.wf(),
            z < 9,
        ensures
            r.wf(),
            forall|d: int| r.has(d) <==> 1 <= d <= 9 && self.cols_seq()[z as int].count_of(d) > 0,
    {
        self.cols[z].avail()
    }

    /// The set of digits still available somewhere in sector `z`.
    pub fn sector_avail(&self, z: usize) -> (r: AvailSet)
        requires
            self.wf(),
            z < 9,
        ensures
            r.wf(),
            forall|d: int|
                r.has(d) <==> 1 <= d <= 9 && self.sectors_seq()[z as int].count_of(d) > 0,
    {
        self.sectors[z].avail()
    }

    /// The set of digits still available somewhere in sector-row `z`.
    pub fn srow_avail(&self, z: usize) -> (r: AvailSet)
        requires
            self.wf(),
            z < 27,
        ensures
            r.wf(),
            forall|d: int| r.has(d) <==> 1 <= d <= 9 && self.srows_seq()[z as int].count_of(d) > 0,
    {
        self.sector_rows[z].avail()
    }

    /// The set of digits still available somewhere in sector-column `z`.
    pub fn scol_avail(&self, z: usize) -> (r: AvailSet)
        requires
            self.wf(),
            z < 27,
        ensures
            r.wf(),
            forall|d: int| r.has(d) <==> 1 <= d <= 9 && self.scols_seq()[z as int].count_of(d) > 0,
    {
        self.sector_cols[z].avail()
    }

    /// The set of digits with exactly one possible cell left in row `z`.
    pub fn row_singles(&self, z: usize) -> (r: AvailSet)
        requires
            self.wf(),
            z < 9,
        ensures
            r.wf(),
            forall|d: int| r.has(d) <==> 1 <= d <= 9 && self.rows_seq()[z as int].count_of(d) == 1,
    {
        self.rows[z].singles()
    }

    /// The set of digits with exactly one possible cell left in column `z`.
    pub fn col_singles(&self, z: usize) -> (r: AvailSet)
        requires
            self.wf(),
            z < 9,
        ensures
            r.wf(),
            forall|d: int| r.has(d) <==> 1 <= d <= 9 && self.cols_seq()[z as int].count_of(d) == 1,
    {
        self.cols[z].singles()
    }

    /// The set of digits with exactly one possible cell left in sector `z`.
    pub fn sector_singles(&self, z: usize) -> (r: AvailSet)
        requires
            self.wf(),
            z < 9,
        ensures
            r.wf(),
            forall|d: int|
                r.has(d) <==> 1 <= d <= 9 && self.sectors_seq()[z as int].count_of(d) == 1,
    {
        self.sectors[z].singles()
    }

    /// Construct a tracker from a board: a pinned cell keeps only its
    /// digit, every blank cell admits all nine.
    pub fn new(board: &Board) -> (r: RemainingTracker)
        requires
            board.wf(),
        ensures
            r.wf(),
            r.all_nonempty(),
            cells_respect_pins(r.cells(), board@),
            forall|i: int, d: int|
                0 <= i < 81 ==> ((#[trigger] r.cells()[i].has(d)) <==> (1 <= d <= 9 && (
                match board@[i] {
                    Some(v) => d == v.spec_val(),
                    None => true,
                }))),
    {
        let mut board_sets: Vec<AvailSet> = Vec::new();
        let mut i: usize = 0;
        while i < 81
            invariant
                i <= 81,
                board_sets@.len() == i,
                forall|j: int|
                    0 <= j < i ==> (#[trigger] board_sets@[j]).wf() && board_sets@[j].count() == 9
                        && (forall|d: int| board_sets@[j].has(d) <==> 1 <= d <= 9),
            decreases 81 - i,
        {
            board_sets.push(AvailSet::all());
            i = i + 1;
        }
        let mut tracker = RemainingTracker {
            board: board_sets,
            rows: Self::counter_vec(9),
            cols: Self::counter_vec(9),
            sectors: Self::counter_vec(9),
            sector_rows: Self::counter_vec_3(27),
            sector_cols: Self::counter_vec_3(27),
        };
        proof {
            assert forall|z: int, d: int| 0 <= z < 9 && 1 <= d <= 9 implies (
            #[trigger] tracker.rows_seq()[z].count_of(d)) == zone_count(
                tracker.cells(),
                row_cells(z),
                d,
            ) by {
                lemma_zone_shapes(z);
                assert(forall|j: int|
                    0 <= j < row_cells(z).len() ==> tracker.cells()[#[trigger] row_cells(z)[j]].has(
                    d));
                lemma_zone_count_full(tracker.cells(), row_cells(z), d);
            }
            assert forall|z: int, d: int| 0 <= z < 9 && 1 <= d <= 9 implies (
            #[trigger] tracker.cols_seq()[z].count_of(d)) == zone_count(
                tracker.cells(),
                col_cells(z),
                d,
            ) by {
                lemma_zone_shapes(z);
                assert(forall|j: int|
                    0 <= j < col_cells(z).len() ==> tracker.cells()[#[trigger] col_cells(z)[j]].has(
                    d));
                lemma_zone_count_full(tracker.cells(), col_cells(z), d);
            }
            assert forall|z: int, d: int| 0 <= z < 9 && 1 <= d <= 9 implies (
            #[trigger] tracker.sectors_seq()[z].count_of(d)) == zone_count(
                tracker.cells(),
                sector_cells(z),
                d,
            ) by {
                lemma_zone_shapes(z);
                assert(forall|j: int|
                    0 <= j < sector_cells(z).len() ==> tracker.cells()[#[trigger] sector_cells(
                        z,
                    )[j]].has(d));
                lemma_zone_count_full(tracker.cells(), sector_cells(z), d);
            }
            assert forall|z: int, d: int| 0 <= z < 27 && 1 <= d <= 9 implies (
            #[trigger] tracker.srows_seq()[z].count_of(d)) == zone_count(
                tracker.cells(),
                srow_cells(z),
                d,
            ) by {
                lemma_zone_shapes(z);
                assert(forall|j: int|
                    0 <= j < srow_cells(z).len() ==> tracker.cells()[#[trigger] srow_cells(
                        z,
                    )[j]].has(d));
                lemma_zone_count_full(tracker.cells(), srow_cells(z), d);
            }
            assert forall|z: int, d: int| 0 <= z < 27 && 1 <= d <= 9 implies (
            #[trigger] tracker.scols_seq()[z].count_of(d)) == zone_count(
                tracker.cells(),
                scol_cells(z),
                d,
            ) by {
                lemma_zone_shapes(z);
                assert(forall|j: int|
                    0 <= j < scol_cells(z).len() ==> tracker.cells()[#[trigger] scol_cells(
                        z,
                    )[j]].has(d));
                lemma_zone_count_full(tracker.cells(), scol_cells(z), d);
            }
        }
        let mut i: usize = 0;
        while i < 81
            invariant
                board.wf(),
                tracker.wf(),
                tracker.all_nonempty(),
                forall|j: int, d: int|
                    0 <= j < 81 ==> ((#[trigger] tracker.cells()[j].has(d)) <==> (1 <= d <= 9 && (
                    if j < i {
                        match board@[j] {
                            Some(v) => d == v.spec_val(),
                            None => true,
                        }
                    } else {
                        true
                    }))),
            decreases 81 - i,
        {
            match board.get_idx(i) {
                Some(v) => {
                    tracker.specify_cell(i, v);
                },
                None => {},
            }
            i = i + 1;
        }
        tracker
    }

    /// A vector of `n` counters, all at nine of each digit.
    fn counter_vec(n: usize) -> (r: Vec<AvailCounter>)
        ensures
            r@.len() == n,
            forall|z: int|
                0 <= z < n ==> (#[trigger] r@[z]).wf() && forall|d: int|
                    1 <= d <= 9 ==> r@[z].count_of(d) == 9,
    {
        let mut out: Vec<AvailCounter> = Vec::new();
        let mut i: usize = 0;
        while i < n
            invariant
                i <= n,
                out@.len() == i,
                forall|z: int|
                    0 <= z < i ==> (#[trigger] out@[z]).wf() && forall|d: int|
                        1 <= d <= 9 ==> out@[z].count_of(d) == 9,
            decreases n - i,
        {
            out.push(AvailCounter::with_count(9));
            i = i + 1;
        }
        out
    }

    /// A vector of `n` counters, all at three of each digit.
    fn counter_vec_3(n: usize) -> (r: Vec<AvailCounter>)
        ensures
            r@.len() == n,
            forall|z: int|
                0 <= z < n ==> (#[trigger] r@[z]).wf() && forall|d: int|
                    1 <= d <= 9 ==> r@[z].count_of(d) == 3,
    {
        let mut out: Vec<AvailCounter> = Vec::new();
        let mut i: usize = 0;
        while i < n
            invariant
                i <= n,
                out@.len() == i,
                forall|z: int|
                    0 <= z < i ==> (#[trigger] out@[z]).wf() && forall|d: int|
                        1 <= d <= 9 ==> out@[z].count_of(d) == 3,
            decreases n - i,
        {
            out.push(AvailCounter::with_count(3));
            i = i + 1;
        }
        out
    }

    /// Narrow the candidate set of cell `i` to the single digit `v`,
    /// updating the five zone counters to match.
    #[verifier::rlimit(60)]
    pub fn specify_cell(&mut self, i: usize, v: Val)
        requires
            old(self).wf(),
            i < 81,
            v.wf(),
            old(self).cells()[i as int].has(v.spec_val()),
        ensures
            final(self).wf(),
            forall|j: int| 0 <= j < 81 && j != i ==> final(self).cells()[j] == old(self).cells()[j],
            forall|d: int| final(self).cells()[i as int].has(d) <==> d == v.spec_val(),
            final(self).cells()[i as int].count() == 1,
            cells_subset(final(self).cells(), old(self).cells()),
            old(self).all_nonempty() ==> final(self).all_nonempty(),
            total_size(final(self).cells()) == total_size(old(self).cells()) - (old(
                self,
            ).cells()[i as int].count() - 1),
    {
        let cell = self.board[i];
        let only = AvailSet::only(v);
        let removed = cell.difference(only);
        self.board.set(i, only);
        let ghost oldt = *old(self);
        let ghost newcells = self.board@;
        proof {
            assert(newcells =~= oldt.cells().update(i as int, only));
            lemma_cell_decompose(i as int);
            crate::zones::lemma_cell_update_zone_counts(oldt.cells(), newcells, i as int, only);
        }
        let ri = i / 9;
        let ci = i % 9;
        let si = (ri / 3) * 3 + ci / 3;
        let sri = ri * 3 + ci / 3;
        let sci = si * 3 + ci % 3;
        let rc = &mut self.rows[ri];
        rc.sub_all(removed);
        let cc = &mut self.cols[ci];
        cc.sub_all(removed);
        let sc = &mut self.sectors[si];
        sc.sub_all(removed);
        let src = &mut self.sector_rows[sri];
        src.sub_all(removed);
        let scc = &mut self.sector_cols[sci];
        scc.sub_all(removed);
        proof {
            let oc = oldt.cells();
            assert forall|z: int, d: int| 0 <= z < 9 && 1 <= d <= 9 implies (
            #[trigger] self.rows_seq()[z].count_of(d)) == zone_count(newcells, row_cells(z), d) by {
                if z == ri {
                    if removed.has(d) {
                        lemma_zone_shapes(z);
                        crate::zones::lemma_row_membership(z, i as int);
                        lemma_zone_count_member(oc, row_cells(z), i as int, d);
                    }
                }
            }
            assert forall|z: int, d: int| 0 <= z < 9 && 1 <= d <= 9 implies (
            #[trigger] self.cols_seq()[z].count_of(d)) == zone_count(newcells, col_cells(z), d) by {
                if z == ci {
                    if removed.has(d) {
                        lemma_zone_shapes(z);
                        crate::zones::lemma_col_membership(z, i as int);
                        lemma_zone_count_member(oc, col_cells(z), i as int, d);
                    }
                }
            }
            assert forall|z: int, d: int| 0 <= z < 9 && 1 <= d <= 9 implies (
            #[trigger] self.sectors_seq()[z].count_of(d)) == zone_count(
                newcells,
                sector_cells(z),
                d,
            ) by {
                if z == si {
                    if removed.has(d) {
                        lemma_zone_shapes(z);
                        crate::zones::lemma_sector_membership(z, i as int);
                        lemma_zone_count_member(oc, sector_cells(z), i as int, d);
                    }
                }
            }
            assert forall|z: int, d: int| 0 <= z < 27 && 1 <= d <= 9 implies (
            #[trigger] self.srows_seq()[z].count_of(d)) == zone_count(
                newcells,
                srow_cells(z),
                d,
            ) by {
                if z == sri {
                    if removed.has(d) {
                        lemma_zone_shapes(z);
                        crate::zones::lemma_srow_membership(z, i as int);
                        lemma_zone_count_member(oc, srow_cells(z), i as int, d);
                    }
                }
            }
            assert forall|z: int, d: int| 0 <= z < 27 && 1 <= d <= 9 implies (
            #[trigger] self.scols_seq()[z].count_of(d)) == zone_count(
                newcells,
                scol_cells(z),
                d,
            ) by {
                if z == sci {
                    if removed.has(d) {
                        lemma_zone_shapes(z);
                        crate::zones::lemma_scol_membership(z, i as int);
                        lemma_zone_count_member(oc, scol_cells(z), i as int, d);
                    }
                }
            }
            crate::availset::AvailSet::lemma_count_facts(self.cells()[i as int]);
        }
    }
    /// Remove digit `v` from the candidate set of cell `i`, decrementing
    /// the counters of the five zones that contain the cell. A no-op when
    /// the cell does not admit the digit.
    #[verifier::rlimit(80)]
    pub fn eliminate(&mut self, i: usize, v: Val) -> (r: ElimOutcome)
        requires
            old(self).wf(),
            i < 81,
            v.wf(),
        ensures
            match r {
                ElimOutcome::Unchanged => *final(self) == *old(self) && !old(
                    self,
                ).cells()[i as int].has(v.spec_val()),
                ElimOutcome::Removed(c) => {
                    &&& old(self).cells()[i as int].has(v.spec_val())
                    &&& final(self).wf()
                    &&& forall|j: int|
                        0 <= j < 81 && j != i ==> final(self).cells()[j] == old(self).cells()[j]
                    &&& forall|d: int|
                        final(self).cells()[i as int].has(d) <==> old(self).cells()[i as int].has(d)
                            && d != v.spec_val()
                    &&& final(self).cells()[i as int].count() == old(self).cells()[i as int].count()
                        - 1
                    &&& c.cell == final(self).cells()[i as int].count()
                    &&& c.row == final(self).rows_seq()[row_of(i as int)].count_of(v.spec_val())
                    &&& c.col == final(self).cols_seq()[col_of(i as int)].count_of(v.spec_val())
                    &&& c.sector == final(self).sectors_seq()[sector_of(i as int)].count_of(
                        v.spec_val(),
                    )
                    &&& c.srow == final(self).srows_seq()[srow_of(i as int)].count_of(v.spec_val())
                    &&& c.scol == final(self).scols_seq()[scol_of(i as int)].count_of(v.spec_val())
                    &&& cells_subset(final(self).cells(), old(self).cells())
                    &&& total_size(final(self).cells()) == total_size(old(self).cells()) - 1
                },
            },
    {
        let cell = self.board[i];
        if !cell.contains(v) {
            return ElimOutcome::Unchanged;
        }
        let mut nc = cell;
        nc.remove(v);
        self.board.set(i, nc);
        let ghost oldt = *old(self);
        let ghost newcells = self.board@;
        proof {
            assert(newcells =~= oldt.cells().update(i as int, nc));
            lemma_cell_decompose(i as int);
            crate::zones::lemma_cell_update_zone_counts(oldt.cells(), newcells, i as int, nc);
            lemma_zone_shapes(row_of(i as int));
            lemma_zone_shapes(srow_of(i as int));
            lemma_row_membership(row_of(i as int), i as int);
            lemma_col_membership(col_of(i as int), i as int);
            lemma_sector_membership(sector_of(i as int), i as int);
            lemma_srow_membership(srow_of(i as int), i as int);
            lemma_scol_membership(scol_of(i as int), i as int);
            lemma_zone_count_member(oldt.cells(), row_cells(row_of(i as int)), i as int, v.spec_val());
            lemma_zone_count_member(oldt.cells(), col_cells(col_of(i as int)), i as int, v.spec_val());
            lemma_zone_count_member(
                oldt.cells(),
                sector_cells(sector_of(i as int)),
                i as int,
                v.spec_val(),
            );
            lemma_zone_count_member(
                oldt.cells(),
                srow_cells(srow_of(i as int)),
                i as int,
                v.spec_val(),
            );
            lemma_zone_count_member(
                oldt.cells(),
                scol_cells(scol_of(i as int)),
                i as int,
                v.spec_val(),
            );
        }
        let ri = i / 9;
        let ci = i % 9;
        let si = (ri / 3) * 3 + ci / 3;
        let sri = ri * 3 + ci / 3;
        let sci = si * 3 + ci % 3;
        let rc = &mut self.rows[ri];
        let row_n = match rc.remove(v) {
            Some(n) => n,
            None => {
                proof {
                    assert(false);
                }
                0
            },
        };
        let cc = &mut self.cols[ci];
        let col_n = match cc.remove(v) {
            Some(n) => n,
            None => {
                proof {
                    assert(false);
                }
                0
            },
        };
        let sc = &mut self.sectors[si];
        let sector_n = match sc.remove(v) {
            Some(n) => n,
            None => {
                proof {
                    assert(false);
                }
                0
            },
        };
        let src = &mut self.sector_rows[sri];
        let srow_n = match src.remove(v) {
            Some(n) => n,
            None => {
                proof {
                    assert(false);
                }
                0
            },
        };
        let scc = &mut self.sector_cols[sci];
        let scol_n = match scc.remove(v) {
            Some(n) => n,
            None => {
                proof {
                    assert(false);
                }
                0
            },
        };
        let cell_n = {
            let c = self.board[i];
            c.len()
        };
        proof {
            let oc = oldt.cells();
            let vv = v.spec_val();
            assert forall|z: int, d: int| 0 <= z < 9 && 1 <= d <= 9 implies (
            #[trigger] self.rows_seq()[z].count_of(d)) == zone_count(newcells, row_cells(z), d) by {
                if z == ri && d != vv {
                    assert(zone_count(newcells, row_cells(z), d) == zone_count(oc, row_cells(z), d));
                }
            }
            assert forall|z: int, d: int| 0 <= z < 9 && 1 <= d <= 9 implies (
            #[trigger] self.cols_seq()[z].count_of(d)) == zone_count(newcells, col_cells(z), d) by {
                if z == ci && d != vv {
                    assert(zone_count(newcells, col_cells(z), d) == zone_count(oc, col_cells(z), d));
                }
            }
            assert forall|z: int, d: int| 0 <= z < 9 && 1 <= d <= 9 implies (
            #[trigger] self.sectors_seq()[z].count_of(d)) == zone_count(
                newcells,
                sector_cells(z),
                d,
            ) by {
                if z == si && d != vv {
                    assert(zone_count(newcells, sector_cells(z), d) == zone_count(
                        oc,
                        sector_cells(z),
                        d,
                    ));
                }
            }
            assert forall|z: int, d: int| 0 <= z < 27 && 1 <= d <= 9 implies (
            #[trigger] self.srows_seq()[z].count_of(d)) == zone_count(newcells, srow_cells(z), d) by {
                if z == sri && d != vv {
                    assert(zone_count(newcells, srow_cells(z), d) == zone_count(
                        oc,
                        srow_cells(z),
                        d,
                    ));
                }
            }
            assert forall|z: int, d: int| 0 <= z < 27 && 1 <= d <= 9 implies (
            #[trigger] self.scols_seq()[z].count_of(d)) == zone_count(newcells, scol_cells(z), d) by {
                if z == sci && d != vv {
                    assert(zone_count(newcells, scol_cells(z), d) == zone_count(
                        oc,
                        scol_cells(z),
                        d,
                    ));
                }
            }
        }
        ElimOutcome::Removed(
            ElimCounts {
                cell: cell_n,
                row: row_n,
                col: col_n,
                sector: sector_n,
                srow: srow_n,
                scol: scol_n,
            },
        )
    }
}

/// Number of digits in `1..=d` whose count in the counter is positive.
pub open spec fn counter_avail_upto(c: AvailCounter, d: int) -> int
    decreases d,
{
    if d <= 0 {
        0
    } else {
        counter_avail_upto(c, d - 1) + if c.count_of(d) > 0 {
            1int
        } else {
            0int
        }
    }
}

/// Number of digits whose count in the counter is positive.
pub open spec fn counter_avail_count(c: AvailCounter) -> int {
    counter_avail_upto(c, 9)
}

/// A set holding exactly the digits with positive count has the counter's
/// available-digit count as its size.
pub(crate) proof fn lemma_avail_set_count(s: AvailSet, c: AvailCounter, d: int)
    requires
        forall|t: int| #[trigger] s.has(t) <==> 1 <= t <= 9 && c.count_of(t) > 0,
        0 <= d <= 9,
    ensures
        crate::availset::count_upto(s.mask(), d) == counter_avail_upto(c, d),
    decreases d,
{
    if d > 0 {
        lemma_avail_set_count(s, c, d - 1);
        assert(crate::availset::digit_in(s.mask(), d) <==> s.has(d));
    }
}

impl RemainingTracker {
    /// The tracker is known to be unsolveable from its current state: some
    /// cell has no candidate left, or some row, column or sector has fewer
    /// than nine distinct digits still available.
    pub open spec fn spec_known_unsolveable(self) -> bool {
        ||| exists|i: int| 0 <= i < 81 && (#[trigger] self.cells()[i]).count() == 0
        ||| exists|z: int| 0 <= z < 9 && counter_avail_count(#[trigger] self.rows_seq()[z]) < 9
        ||| exists|z: int| 0 <= z < 9 && counter_avail_count(#[trigger] self.cols_seq()[z]) < 9
        ||| exists|z: int| 0 <= z < 9 && counter_avail_count(#[trigger] self.sectors_seq()[z]) < 9
    }

    /// Whether the tracker is known to be unsolveable from its current
    /// state.
    pub fn known_unsolveable(&self) -> (r: bool)
        requires
            self.wf(),
        ensures
            r == self.spec_known_unsolveable(),
    {
        let mut i: usize = 0;
        while i < 81
            invariant
                self.wf(),
                i <= 81,
                forall|j: int| 0 <= j < i ==> (#[trigger] self.cells()[j]).count() != 0,
            decreases 81 - i,
        {
            if self.board[i].is_empty() {
                return true;
            }
            i = i + 1;
        }
        let mut z: usize = 0;
        while z < 9
            invariant
                self.wf(),
                z <= 9,
                forall|y: int| 0 <= y < z ==> counter_avail_count(#[trigger] self.rows_seq()[y]) >= 9,
            decreases 9 - z,
        {
            let avail = self.row_avail(z);
            proof {
                lemma_avail_set_count(avail, self.rows_seq()[z as int], 9);
            }
            if avail.len() < 9 {
                return true;
            }
            z = z + 1;
        }
        let mut z: usize = 0;
        while z < 9
            invariant
                self.wf(),
                z <= 9,
                forall|y: int| 0 <= y < z ==> counter_avail_count(#[trigger] self.cols_seq()[y]) >= 9,
            decreases 9 - z,
        {
            let avail = self.col_avail(z);
            proof {
                lemma_avail_set_count(avail, self.cols_seq()[z as int], 9);
            }
            if avail.len() < 9 {
                return true;
            }
            z = z + 1;
        }
        let mut z: usize = 0;
        while z < 9
            invariant
                self.wf(),
                z <= 9,
                forall|y: int|
                    0 <= y < z ==> counter_avail_count(#[trigger] self.sectors_seq()[y]) >= 9,
            decreases 9 - z,
        {
            let avail = self.sector_avail(z);
            proof {
                lemma_avail_set_count(avail, self.sectors_seq()[z as int], 9);
            }
            if avail.len() < 9 {
                return true;
            }
            z = z + 1;
        }
        false
    }

    /// The tracker describes a solved board: every row, column and sector
    /// counter holds exactly one of each digit.
    pub open spec fn spec_is_solved(self) -> bool {
        &&& forall|z: int, d: int|
            0 <= z < 9 && 1 <= d <= 9 ==> (#[trigger] self.rows_seq()[z].count_of(d)) == 1
        &&& forall|z: int, d: int|
            0 <= z < 9 && 1 <= d <= 9 ==> (#[trigger] self.cols_seq()[z].count_of(d)) == 1
        &&& forall|z: int, d: int|
            0 <= z < 9 && 1 <= d <= 9 ==> (#[trigger] self.sectors_seq()[z].count_of(d)) == 1
    }

    /// Whether the tracker describes a solved board.
    pub fn is_solved(&self) -> (r: bool)
        requires
            self.wf(),
        ensures
            r == self.spec_is_solved(),
    {
        let mut z: usize = 0;
        while z < 9
            invariant
                self.wf(),
                z <= 9,
                forall|y: int, d: int|
                    0 <= y < z && 1 <= d <= 9 ==> (#[trigger] self.rows_seq()[y].count_of(d)) == 1,
                forall|y: int, d: int|
                    0 <= y < z && 1 <= d <= 9 ==> (#[trigger] self.cols_seq()[y].count_of(d)) == 1,
                forall|y: int, d: int|
                    0 <= y < z && 1 <= d <= 9 ==> (#[trigger] self.sectors_seq()[y].count_of(d))
                        == 1,
            decreases 9 - z,
        {
            let mut dd: u8 = 1;
            while dd <= 9
                invariant
                    self.wf(),
                    z < 9,
                    1 <= dd <= 10,
                    forall|d: int|
                        1 <= d < dd ==> (#[trigger] self.rows_seq()[z as int].count_of(d)) == 1,
                    forall|d: int|
                        1 <= d < dd ==> (#[trigger] self.cols_seq()[z as int].count_of(d)) == 1,
                    forall|d: int|
                        1 <= d < dd ==> (#[trigger] self.sectors_seq()[z as int].count_of(d)) == 1,
                decreases 10 - dd,
            {
                let v = Val::new(dd);
                if self.row_count_of(z, v) != 1 || self.col_count_of(z, v) != 1
                    || self.sector_count_of(z, v) != 1 {
                    return false;
                }
                dd = dd + 1;
            }
            z = z + 1;
        }
        true
    }

    /// Read the tracker out to a board: every singleton cell becomes its
    /// digit, every other cell stays blank.
    pub fn to_board(&self) -> (b: Board)
        requires
            self.wf(),
        ensures
            b.wf(),
            forall|i: int|
                0 <= i < 81 ==> match #[trigger] b@[i] {
                    Some(v) => self.cells()[i].count() == 1 && v.wf() && self.cells()[i].has(
                        v.spec_val(),
                    ),
                    None => self.cells()[i].count() != 1,
                },
    {
        let mut cells: Vec<Option<Val>> = Vec::new();
        let mut i: usize = 0;
        while i < 81
            invariant
                self.wf(),
                i <= 81,
                cells@.len() == i,
                forall|j: int|
                    0 <= j < i ==> match #[trigger] cells@[j] {
                        Some(v) => self.cells()[j].count() == 1 && v.wf() && self.cells()[j].has(
                            v.spec_val(),
                        ),
                        None => self.cells()[j].count() != 1,
                    },
            decreases 81 - i,
        {
            cells.push(self.board[i].get_single());
            i = i + 1;
        }
        match Board::from_cells(cells) {
            Ok(b) => b,
            Err(_) => {
                proof {
                    assert(false);
                }
                Board::new()
            },
        }
    }

    /// An identical copy of this tracker.
    pub fn duplicate(&self) -> (r: RemainingTracker)
        requires
            self.wf(),
        ensures
            r.wf(),
            r.cells() == self.cells(),
            forall|z: int, d: int|
                0 <= z < 9 && 1 <= d <= 9 ==> (#[trigger] r.rows_seq()[z].count_of(d))
                    == self.rows_seq()[z].count_of(d) && (#[trigger] r.cols_seq()[z].count_of(d))
                    == self.cols_seq()[z].count_of(d) && (#[trigger] r.sectors_seq()[z].count_of(d))
                    == self.sectors_seq()[z].count_of(d),
            forall|z: int, d: int|
                0 <= z < 27 && 1 <= d <= 9 ==> (#[trigger] r.srows_seq()[z].count_of(d))
                    == self.srows_seq()[z].count_of(d) && (#[trigger] r.scols_seq()[z].count_of(d))
                    == self.scols_seq()[z].count_of(d),
    {
        let mut board: Vec<AvailSet> = Vec::new();
        let mut i: usize = 0;
        while i < 81
            invariant
                self.wf(),
                i <= 81,
                board@.len() == i,
                forall|j: int| 0 <= j < i ==> board@[j] == self.cells()[j],
            decreases 81 - i,
        {
            board.push(self.board[i]);
            i = i + 1;
        }
        proof {
            assert(board@ =~= self.cells());
        }
        let rows = Self::dup_counters(&self.rows);
        let cols = Self::dup_counters(&self.cols);
        let sectors = Self::dup_counters(&self.sectors);
        let sector_rows = Self::dup_counters(&self.sector_rows);
        let sector_cols = Self::dup_counters(&self.sector_cols);
        RemainingTracker { board, rows, cols, sectors, sector_rows, sector_cols }
    }

    /// A copy of a vector of counters, count for count.
    fn dup_counters(src: &Vec<AvailCounter>) -> (r: Vec<AvailCounter>)
        requires
            forall|z: int| 0 <= z < src@.len() ==> (#[trigger] src@[z]).wf(),
        ensures
            r@.len() == src@.len(),
            forall|z: int|
                0 <= z < src@.len() ==> (#[trigger] r@[z]).wf() && forall|d: int|
                    1 <= d <= 9 ==> r@[z].count_of(d) == src@[z].count_of(d),
    {
        let mut out: Vec<AvailCounter> = Vec::new();
        let mut i: usize = 0;
        while i < src.len()
            invariant
                forall|z: int| 0 <= z < src@.len() ==> (#[trigger] src@[z]).wf(),
                i <= src@.len(),
                out@.len() == i,
                forall|z: int|
                    0 <= z < i ==> (#[trigger] out@[z]).wf() && forall|d: int|
                        1 <= d <= 9 ==> out@[z].count_of(d) == src@[z].count_of(d),
            decreases src@.len() - i,
        {
            out.push(src[i].duplicate());
            i = i + 1;
        }
        out
    }

    /// Find the first cell with more than one candidate and return one
    /// copy of this tracker per candidate digit, in digit order, with that
    /// cell pinned to the digit; copies already known unsolveable are left
    /// out. Returns no copies when every cell is already decided.
    #[verifier::rlimit(100)]
    #[verifier::spinoff_prover]
    pub fn specify_one(&self) -> (r: Vec<RemainingTracker>)
        requires
            self.wf(),
            self.all_nonempty(),
        ensures
            r@.len() <= 9,
            forall|k: int|
                0 <= k < r@.len() ==> (#[trigger] r@[k]).wf() && r@[k].all_nonempty()
                    && cells_subset(r@[k].cells(), self.cells()) && total_size(r@[k].cells())
                    < total_size(self.cells()),
            forall|s: Seq<Option<Val>>|
                crate::board_solved(s) && #[trigger] cells_admit(self.cells(), s)
                    && !self.spec_is_solved() ==> exists|kk: int|
                    0 <= kk < r@.len() && #[trigger] cells_admit(r@[kk].cells(), s),
            (forall|j: int| 0 <= j < 81 ==> (#[trigger] self.cells()[j]).count() <= 1) ==> r@.len()
                == 0,
            forall|i: int|
                #[trigger] first_undecided(self.cells(), i) ==> children_pin_cell(
                    self.cells(),
                    r@,
                    i,
                ) && children_cover_candidates(self.cells(), r@, i) && children_ascending(
                    self.cells(),
                    r@,
                    i,
                ),
    {
        let mut out: Vec<RemainingTracker> = Vec::new();
        let mut i: usize = 0;
        let mut found: usize = 81;
        while i < 81 && found == 81
            invariant
                self.wf(),
                i <= 81,
                found == 81 || (found == i && i < 81 && self.cells()[i as int].count() > 1),
                found == 81 ==> forall|j: int|
                    0 <= j < i ==> (#[trigger] self.cells()[j]).count() <= 1,
                found != 81 ==> forall|j: int|
                    0 <= j < found ==> (#[trigger] self.cells()[j]).count() <= 1,
            decreases 81 - i, (if found == 81 { 1int } else { 0int }),
        {
            if self.board[i].len() > 1 {
                found = i;
            } else {
                i = i + 1;
            }
        }
        if found == 81 {
            proof {
                assert forall|s: Seq<Option<Val>>|
                    crate::board_solved(s) && #[trigger] cells_admit(self.cells(), s)
                        && !self.spec_is_solved() implies false by {
                    let cells = self.cells();
                    assert forall|j: int|
                        0 <= j < 81 implies match #[trigger] s[j] {
                        Some(v) => cells[j].count() == 1 && v.wf() && cells[j].has(v.spec_val()),
                        None => cells[j].count() != 1,
                    } by {
                        assert(s[j] is Some);
                        assert(cells[j].has(solution_digit(s, j)));
                        crate::availset::AvailSet::lemma_count_facts(cells[j]);
                        assert(cells[j].count() == 1);
                    }
                    assert(forall|j: int| 0 <= j < 81 ==> (#[trigger] cells[j]).count() == 1);
                    assert forall|z: int, d: int| 0 <= z < 9 && 1 <= d <= 9 implies (
                    #[trigger] self.rows_seq()[z].count_of(d)) == 1 by {
                        lemma_zone_shapes(z);
                        crate::lemma_readout_zone_count(cells, s, row_cells(z), d);
                    }
                    assert forall|z: int, d: int| 0 <= z < 9 && 1 <= d <= 9 implies (
                    #[trigger] self.cols_seq()[z].count_of(d)) == 1 by {
                        lemma_zone_shapes(z);
                        crate::lemma_readout_zone_count(cells, s, col_cells(z), d);
                    }
                    assert forall|z: int, d: int| 0 <= z < 9 && 1 <= d <= 9 implies (
                    #[trigger] self.sectors_seq()[z].count_of(d)) == 1 by {
                        lemma_zone_shapes(z);
                        crate::lemma_readout_zone_count(cells, s, sector_cells(z), d);
                    }
                    assert(self.spec_is_solved());
                }
                assert forall|i2: int| #[trigger] first_undecided(self.cells(), i2) implies false by {
                    assert(self.cells()[i2].count() <= 1);
                }
            }
            return out;
        }
        let i = found;
        assert(i < 81 && self.cells()[i as int].count() > 1);
        proof {
            assert(first_undecided(self.cells(), i as int));
            assert forall|i2: int| #[trigger] first_undecided(self.cells(), i2) implies i2
                == i as int by {
                if i2 < i {
                    assert(self.cells()[i2].count() <= 1);
                } else if i2 > i {
                    assert(self.cells()[i as int].count() <= 1);
                }
            }
        }
        let avail = self.board[i];
        let ghost mut digits: Seq<int> = Seq::empty();
        let mut dd: u8 = 1;
        while dd <= 9
            invariant
                self.wf(),
                self.all_nonempty(),
                i < 81,
                avail == self.cells()[i as int],
                avail.count() > 1,
                1 <= dd <= 10,
                out@.len() < dd,
                digits.len() == out@.len(),
                forall|k: int|
                    0 <= k < out@.len() ==> (#[trigger] out@[k]).wf() && out@[k].all_nonempty()
                        && cells_subset(out@[k].cells(), self.cells()) && total_size(
                        out@[k].cells(),
                    ) < total_size(self.cells()),
                forall|s: Seq<Option<Val>>|
                    crate::board_solved(s) && #[trigger] cells_admit(self.cells(), s)
                        && solution_digit(s, i as int) < dd ==> exists|kk: int|
                        0 <= kk < out@.len() && #[trigger] cells_admit(out@[kk].cells(), s),
                forall|k: int|
                    0 <= k < out@.len() ==> 1 <= #[trigger] digits[k] < dd
                        && self.cells()[i as int].has(digits[k]) && out@[k].cells()
                        == self.cells().update(i as int, AvailSet::only_spec(digits[k]))
                        && !cells_known_unsolveable(out@[k].cells()),
                forall|k1: int, k2: int| 0 <= k1 < k2 < digits.len() ==> digits[k1] < digits[k2],
                forall|d: int|
                    1 <= d < dd && self.cells()[i as int].has(d) ==> ((exists|k: int|
                        0 <= k < out@.len() && (#[trigger] out@[k].cells())
                            == self.cells().update(i as int, AvailSet::only_spec(d))) <==> !cells_known_unsolveable(
                        #[trigger] self.cells().update(i as int, AvailSet::only_spec(d)),
                    )),
            decreases 10 - dd,
        {
            let v = Val::new(dd);
            if avail.contains(v) {
                let mut copy = self.duplicate();
                copy.specify_cell(i, v);
                proof {
                    assert(cells_subset(copy.cells(), self.cells()));
                    AvailSet::lemma_only_spec(dd as int);
                    AvailSet::lemma_ext(
                        copy.cells()[i as int],
                        AvailSet::only_spec(dd as int),
                    );
                    assert(copy.cells() =~= self.cells().update(
                        i as int,
                        AvailSet::only_spec(dd as int),
                    ));
                    assert forall|s: Seq<Option<Val>>|
                        crate::board_solved(s) && #[trigger] cells_admit(self.cells(), s)
                            && solution_digit(s, i as int) == dd implies cells_admit(
                        copy.cells(),
                        s,
                    ) by {
                        assert forall|j: int|
                            0 <= j < 81 implies #[trigger] copy.cells()[j].has(
                            solution_digit(s, j),
                        ) by {
                            assert(self.cells()[j].has(solution_digit(s, j)));
                        }
                    }
                }
                let ku = copy.known_unsolveable();
                proof {
                    copy.lemma_ku_of_cells();
                }
                if !ku {
                    let ghost prev = out@;
                    out.push(copy);
                    proof {
                        digits = digits.push(dd as int);
                        assert forall|s: Seq<Option<Val>>|
                            crate::board_solved(s) && #[trigger] cells_admit(self.cells(), s)
                                && solution_digit(s, i as int) < dd + 1 implies exists|kk: int|
                            0 <= kk < out@.len() && #[trigger] cells_admit(out@[kk].cells(), s) by {
                            if solution_digit(s, i as int) == dd {
                                assert(out@[out@.len() - 1] == copy);
                                assert(cells_admit(out@[out@.len() - 1].cells(), s));
                            } else {
                                let kk = choose|kk: int|
                                    0 <= kk < prev.len() && #[trigger] cells_admit(
                                        prev[kk].cells(),
                                        s,
                                    );
                                assert(out@[kk] == prev[kk]);
                                assert(cells_admit(out@[kk].cells(), s));
                            }
                        }
                        assert(digits[digits.len() - 1] == dd as int && out@[out@.len() - 1]
                            == copy);
                        assert forall|d: int|
                            1 <= d < dd + 1 && self.cells()[i as int].has(d) implies ((exists|
                            k: int,
                        |
                            0 <= k < out@.len() && (#[trigger] out@[k].cells())
                                == self.cells().update(
                                i as int,
                                AvailSet::only_spec(d),
                            )) <==> !cells_known_unsolveable(
                            #[trigger] self.cells().update(i as int, AvailSet::only_spec(d)),
                        )) by {
                            if d == dd {
                                assert(out@[out@.len() - 1].cells() == self.cells().update(
                                    i as int,
                                    AvailSet::only_spec(dd as int),
                                ));
                                assert(!cells_known_unsolveable(copy.cells()));
                            } else {
                                if exists|k: int|
                                    0 <= k < out@.len() && (#[trigger] out@[k].cells())
                                        == self.cells().update(
                                        i as int,
                                        AvailSet::only_spec(d),
                                    ) {
                                    let k = choose|k: int|
                                        0 <= k < out@.len() && (#[trigger] out@[k].cells())
                                            == self.cells().update(
                                            i as int,
                                            AvailSet::only_spec(d),
                                        );
                                    if k == out@.len() - 1 {
                                        lemma_pin_digit_unique(
                                            self.cells(),
                                            i as int,
                                            d,
                                            dd as int,
                                        );
                                    } else {
                                        assert(prev[k] == out@[k]);
                                        assert(prev[k].cells() == self.cells().update(
                                            i as int,
                                            AvailSet::only_spec(d),
                                        ));
                                    }
                                }
                                if !cells_known_unsolveable(
                                    self.cells().update(i as int, AvailSet::only_spec(d)),
                                ) {
                                    let k = choose|k: int|
                                        0 <= k < prev.len() && (#[trigger] prev[k].cells())
                                            == self.cells().update(
                                            i as int,
                                            AvailSet::only_spec(d),
                                        );
                                    assert(out@[k] == prev[k]);
                                    assert(out@[k].cells() == self.cells().update(
                                        i as int,
                                        AvailSet::only_spec(d),
                                    ));
                                }
                            }
                        }
                    }
                } else {
                    proof {
                        assert forall|s: Seq<Option<Val>>|
                            crate::board_solved(s) && #[trigger] cells_admit(self.cells(), s)
                                && solution_digit(s, i as int) == dd implies false by {
                            assert(cells_admit(copy.cells(), s));
                            crate::deductive::lemma_admit_not_ku(copy, s);
                        }
                        assert forall|k: int|
                            0 <= k < out@.len() implies (#[trigger] out@[k].cells())
                            != self.cells().update(i as int, AvailSet::only_spec(dd as int)) by {
                            if out@[k].cells() == self.cells().update(
                                i as int,
                                AvailSet::only_spec(dd as int),
                            ) {
                                lemma_pin_digit_unique(
                                    self.cells(),
                                    i as int,
                                    digits[k],
                                    dd as int,
                                );
                            }
                        }
                        assert(cells_known_unsolveable(
                            self.cells().update(i as int, AvailSet::only_spec(dd as int)),
                        ));
                    }
                }
            } else {
                proof {
                    assert forall|s: Seq<Option<Val>>|
                        crate::board_solved(s) && #[trigger] cells_admit(self.cells(), s)
                            && solution_digit(s, i as int) == dd implies false by {
                        assert(self.cells()[i as int].has(solution_digit(s, i as int)));
                    }
                }
            }
            dd = dd + 1;
        }
        proof {
            assert forall|k: int|
                0 <= k < out@.len() implies exists|d: int|
                1 <= d <= 9 && self.cells()[i as int].has(d) && (#[trigger] out@[k].cells())
                    == self.cells().update(i as int, AvailSet::only_spec(d))
                    && !cells_known_unsolveable(out@[k].cells()) by {
                AvailSet::lemma_only_spec(digits[k]);
                assert(1 <= digits[k] <= 9 && self.cells()[i as int].has(digits[k])
                    && out@[k].cells() == self.cells().update(
                    i as int,
                    AvailSet::only_spec(digits[k]),
                ) && !cells_known_unsolveable(out@[k].cells()));
            }
            assert forall|k1: int, k2: int, d1: int, d2: int|
                0 <= k1 < k2 < out@.len() && 1 <= d1 <= 9 && 1 <= d2 <= 9 && (
                #[trigger] out@[k1].cells()) == self.cells().update(
                    i as int,
                    #[trigger] AvailSet::only_spec(d1),
                ) && (#[trigger] out@[k2].cells()) == self.cells().update(
                    i as int,
                    #[trigger] AvailSet::only_spec(d2),
                ) implies d1 < d2 by {
                lemma_pin_digit_unique(self.cells(), i as int, d1, digits[k1]);
                lemma_pin_digit_unique(self.cells(), i as int, d2, digits[k2]);
            }
            lemma_children_pin(self.cells(), out@, i as int, digits);
            assert(children_pin_cell(self.cells(), out@, i as int));
            assert(children_cover_candidates(self.cells(), out@, i as int));
            assert(children_ascending(self.cells(), out@, i as int));
            assert forall|i2: int| #[trigger] first_undecided(self.cells(), i2) implies
                children_pin_cell(self.cells(), out@, i2) && children_cover_candidates(
                self.cells(),
                out@,
                i2,
            ) && children_ascending(self.cells(), out@, i2) by {
                assert(i2 == i as int);
            }
        }
        proof {
            assert forall|s: Seq<Option<Val>>|
                crate::board_solved(s) && #[trigger] cells_admit(self.cells(), s)
                    && !self.spec_is_solved() implies exists|kk: int|
                0 <= kk < out@.len() && #[trigger] cells_admit(out@[kk].cells(), s) by {
                assert(s[i as int] is Some);
                let vi = s[i as int]->Some_0;
                assert(vi.wf());
                Val::lemma_val_injective(vi, vi);
                assert(1 <= solution_digit(s, i as int) <= 9);
            }
        }
        out
    }
}

/// Respecting a board's pins survives narrowing the candidate sets.
pub proof fn lemma_respect_mono(a: Seq<AvailSet>, b: Seq<AvailSet>, pins: Seq<Option<Val>>)
    requires
        cells_subset(a, b),
        cells_respect_pins(b, pins),
    ensures
        cells_respect_pins(a, pins),
{
    assert forall|i: int, d: int|
        0 <= i < 81 && #[trigger] a[i].has(d) && pins[i] is Some implies d
        == pins[i]->Some_0.spec_val() by {
        assert(b[i].has(d));
    }
}

/// Cellwise subsetting of candidate sets is transitive.
pub proof fn lemma_subset_trans(a: Seq<AvailSet>, b: Seq<AvailSet>, c: Seq<AvailSet>)
    requires
        cells_subset(a, b),
        cells_subset(b, c),
    ensures
        cells_subset(a, c),
{
    assert forall|i: int, d: int| 0 <= i < 81 && #[trigger] a[i].has(d) implies c[i].has(d) by {
        assert(b[i].has(d));
    }
}

impl RemainingTracker {
    /// A snapshot of the per-cell candidate sets, for tracing.
    pub fn snapshot(&self) -> (r: crate::trace::Remaining)
        requires
            self.wf(),
        ensures
            r.wf(),
            r@ == self.cells(),
    {
        let mut sets: Vec<AvailSet> = Vec::new();
        let mut i: usize = 0;
        while i < 81
            invariant
                self.wf(),
                i <= 81,
                sets@.len() == i,
                forall|j: int| 0 <= j < i ==> (#[trigger] sets@[j]) == self.cells()[j],
                forall|j: int| 0 <= j < i ==> (#[trigger] sets@[j]).wf(),
            decreases 81 - i,
        {
            sets.push(self.board[i]);
            i = i + 1;
        }
        proof {
            assert(sets@ =~= self.cells());
        }
        crate::trace::Remaining::of_cells(sets)
    }
}

/// The recorded branch digits justify the per-child pinning claim.
#[verifier::rlimit(60)]
#[verifier::spinoff_prover]
proof fn lemma_children_pin(
    cells: Seq<AvailSet>,
    children: Seq<RemainingTracker>,
    i: int,
    digs: Seq<int>,
)
    requires
        0 <= i < cells.len(),
        digs.len() == children.len(),
        forall|k: int|
            0 <= k < children.len() ==> 1 <= #[trigger] digs[k] <= 9 && cells[i].has(digs[k]) && (
            children[k].cells()) == cells.update(i, AvailSet::only_spec(digs[k]))
                && !cells_known_unsolveable(children[k].cells()),
    ensures
        children_pin_cell(cells, children, i),
        children_ascending(cells, children, i) <== (forall|k1: int, k2: int|
            0 <= k1 < k2 < digs.len() ==> digs[k1] < digs[k2]),
{
    assert forall|k: int| 0 <= k < children.len() implies #[trigger] child_pins(
        cells,
        children[k],
        i,
    ) by {
        AvailSet::lemma_only_spec(digs[k]);
        assert(1 <= digs[k] <= 9 && cells[i].has(digs[k]) && children[k].cells() == cells.update(
            i,
            AvailSet::only_spec(digs[k]),
        ) && !cells_known_unsolveable(children[k].cells()));
    }
    if forall|k1: int, k2: int| 0 <= k1 < k2 < digs.len() ==> digs[k1] < digs[k2] {
        assert forall|k1: int, k2: int, d1: int, d2: int|
            0 <= k1 < k2 < children.len() && 1 <= d1 <= 9 && 1 <= d2 <= 9 && (
            #[trigger] children[k1].cells()) == cells.update(
                i,
                #[trigger] AvailSet::only_spec(d1),
            ) && (#[trigger] children[k2].cells()) == cells.update(
                i,
                #[trigger] AvailSet::only_spec(d2),
            ) implies d1 < d2 by {
            lemma_pin_digit_unique(cells, i, d1, digs[k1]);
            lemma_pin_digit_unique(cells, i, d2, digs[k2]);
        }
    }
}

/// A cell pinned by an update determines the pinned digit.
proof fn lemma_pin_digit_unique(cells: Seq<AvailSet>, i: int, d1: int, d2: int)
    requires
        0 <= i < cells.len(),
        1 <= d1 <= 9,
        1 <= d2 <= 9,
        cells.update(i, AvailSet::only_spec(d1)) == cells.update(i, AvailSet::only_spec(d2)),
    ensures
        d1 == d2,
{
    AvailSet::lemma_only_spec(d1);
    AvailSet::lemma_only_spec(d2);
    assert(cells.update(i, AvailSet::only_spec(d1))[i] == AvailSet::only_spec(d1));
    assert(cells.update(i, AvailSet::only_spec(d2))[i] == AvailSet::only_spec(d2));
    assert(AvailSet::only_spec(d1) == AvailSet::only_spec(d2));
    assert(AvailSet::only_spec(d1).has(d1));
    assert(AvailSet::only_spec(d2).has(d1));
}

impl RemainingTracker {
    /// Under the consistency law, the counter-based dead-end test agrees
    /// with the candidate sets.
    pub proof fn lemma_ku_of_cells(self)
        requires
            self.wf(),
        ensures
            self.spec_known_unsolveable() <==> cells_known_unsolveable(self.cells()),
    {
        if self.spec_known_unsolveable() {
            if exists|i: int| 0 <= i < 81 && (#[trigger] self.cells()[i]).count() == 0 {
            } else if exists|z: int|
                0 <= z < 9 && counter_avail_count(#[trigger] self.rows_seq()[z]) < 9 {
                let z = choose|z: int|
                    0 <= z < 9 && counter_avail_count(#[trigger] self.rows_seq()[z]) < 9;
                crate::lemma_counter_avail_missing(self.rows_seq()[z]);
                let d = choose|d: int| 1 <= d <= 9 && #[trigger] self.rows_seq()[z].count_of(d) == 0;
                assert(zone_count(self.cells(), row_cells(z), d) == 0);
            } else if exists|z: int|
                0 <= z < 9 && counter_avail_count(#[trigger] self.cols_seq()[z]) < 9 {
                let z = choose|z: int|
                    0 <= z < 9 && counter_avail_count(#[trigger] self.cols_seq()[z]) < 9;
                crate::lemma_counter_avail_missing(self.cols_seq()[z]);
                let d = choose|d: int| 1 <= d <= 9 && #[trigger] self.cols_seq()[z].count_of(d) == 0;
                assert(zone_count(self.cells(), col_cells(z), d) == 0);
            } else {
                let z = choose|z: int|
                    0 <= z < 9 && counter_avail_count(#[trigger] self.sectors_seq()[z]) < 9;
                crate::lemma_counter_avail_missing(self.sectors_seq()[z]);
                let d = choose|d: int|
                    1 <= d <= 9 && #[trigger] self.sectors_seq()[z].count_of(d) == 0;
                assert(zone_count(self.cells(), sector_cells(z), d) == 0);
            }
        }
        if cells_known_unsolveable(self.cells()) {
            if exists|i: int| 0 <= i < 81 && (#[trigger] self.cells()[i]).count() == 0 {
            } else if exists|z: int, d: int|
                0 <= z < 9 && 1 <= d <= 9 && #[trigger] zone_count(self.cells(), row_cells(z), d)
                    == 0 {
                let (z, d): (int, int) = choose|z: int, d: int|
                    0 <= z < 9 && 1 <= d <= 9 && #[trigger] zone_count(
                        self.cells(),
                        row_cells(z),
                        d,
                    ) == 0;
                crate::lemma_counter_avail_missing(self.rows_seq()[z]);
                assert(self.rows_seq()[z].count_of(d) == 0);
            } else if exists|z: int, d: int|
                0 <= z < 9 && 1 <= d <= 9 && #[trigger] zone_count(self.cells(), col_cells(z), d)
                    == 0 {
                let (z, d): (int, int) = choose|z: int, d: int|
                    0 <= z < 9 && 1 <= d <= 9 && #[trigger] zone_count(
                        self.cells(),
                        col_cells(z),
                        d,
                    ) == 0;
                crate::lemma_counter_avail_missing(self.cols_seq()[z]);
                assert(self.cols_seq()[z].count_of(d) == 0);
            } else {
                let (z, d): (int, int) = choose|z: int, d: int|
                    0 <= z < 9 && 1 <= d <= 9 && #[trigger] zone_count(
                        self.cells(),
                        sector_cells(z),
                        d,
                    ) == 0;
                crate::lemma_counter_avail_missing(self.sectors_seq()[z]);
                assert(self.sectors_seq()[z].count_of(d) == 0);
            }
        }
    }
}

} // verus!

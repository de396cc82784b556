//! Tools for tracing how a solution was reached.
//!
//! A [`DeductiveTracer`] observes every deduction of the reducer together
//! with a snapshot of the per-cell candidate sets; a [`Tracer`] assembles
//! deductions into a search tree with guesses as inner nodes. The no-op
//! implementations record nothing and cost nothing.

use vstd::prelude::*;

use crate::availset::AvailSet;
use crate::coordinates::Col;
use crate::coordinates::Coord;
use crate::coordinates::Row;
use crate::coordinates::Sector;
use crate::coordinates::SectorCol;
use crate::coordinates::SectorRow;
use crate::Board;
use crate::Val;

verus! {

/// Snapshot of what was remaining at each cell when a deduction fired.
#[derive(Clone, Debug, PartialEq, Eq)]
pub struct Remaining {
    sets: Vec<AvailSet>,
}

impl Remaining {
    /// The 81 candidate sets, row-major.
    pub closed spec fn view(self) -> Seq<AvailSet> {
        self.sets@
    }

    /// 81 well-formed candidate sets.
    pub open spec fn wf(self) -> bool {
        self@.len() == 81 && forall|i: int| 0 <= i < 81 ==> (#[trigger] self@[i]).wf()
    }

    /// Wrap 81 candidate sets as a snapshot.
    pub fn from_sets(sets: Vec<AvailSet>) -> (r: Result<Remaining, crate::availset::IncorrectSize>)
        requires
            forall|i: int| 0 <= i < sets@.len() ==> (#[trigger] sets@[i]).wf(),
        ensures
            match r {
                Ok(rem) => sets@.len() == 81 && rem.wf() && rem@ == sets@,
                Err(e) => sets@.len() != 81 && e.expected == 81 && e.actual == sets@.len(),
            },
    {
        if sets.len() == 81 {
            Ok(Remaining { sets })
        } else {
            Err(crate::availset::IncorrectSize { expected: 81, actual: sets.len() })
        }
    }

    /// Wrap exactly 81 candidate sets as a snapshot.
    pub fn of_cells(sets: Vec<AvailSet>) -> (r: Remaining)
        requires
            sets@.len() == 81,
            forall|i: int| 0 <= i < 81 ==> (#[trigger] sets@[i]).wf(),
        ensures
            r.wf(),
            r@ == sets@,
    {
        Remaining { sets }
    }

    /// The candidate set recorded for one cell.
    pub fn get(&self, i: usize) -> (r: AvailSet)
        requires
            self.wf(),
            i < 81,
        ensures
            r == self@[i as int],
    {
        self.sets[i]
    }

    /// A board holding only the cells whose recorded candidate set is a
    /// single digit.
    pub fn board(&self) -> (b: Board)
        requires
            self.wf(),
        ensures
            b.wf(),
            forall|i: int|
                0 <= i < 81 ==> match #[trigger] b@[i] {
                    Some(v) => self@[i].count() == 1 && v.wf() && self@[i].has(v.spec_val()),
                    None => self@[i].count() != 1,
                },
    {
        let mut cells: Vec<Option<Val>> = Vec::new();
        let mut i: usize = 0;
        while i < 81
            invariant
                self.wf(),
                i <= 81,
                cells@.len() == i,
                forall|j: int|
                    0 <= j < i ==> match #[trigger] cells@[j] {
                        Some(v) => self@[j].count() == 1 && v.wf() && self@[j].has(v.spec_val()),
                        None => self@[j].count() != 1,
                    },
            decreases 81 - i,
        {
            cells.push(self.sets[i].get_single());
            i = i + 1;
        }
        match Board::from_cells(cells) {
            Ok(b) => b,
            Err(_) => {
                proof {
                    assert(false);
                }
                Board::new()
            },
        }
    }
}

/// Reason the board cannot be solved from the current state.
#[derive(Clone, Copy, Debug, PartialEq, Eq)]
pub enum UnsolveableReason {
    /// There are no more possible digits for the given cell.
    Empty { pos: Coord },
    /// In the given row the given digits each had one cell left, and it
    /// was the same cell.
    RowValsMustShare { pos: Row, vals: AvailSet },
    /// In the given column the given digits each had one cell left, and
    /// it was the same cell.
    ColValsMustShare { pos: Col, vals: AvailSet },
    /// In the given sector the given digits each had one cell left, and
    /// it was the same cell.
    SecValsMustShare { pos: Sector, vals: AvailSet },
    /// The last possible cell for the digit was eliminated from the row.
    RowMissingVal { pos: Row, val: Val },
    /// The last possible cell for the digit was eliminated from the
    /// column.
    ColMissingVal { pos: Col, val: Val },
    /// The last possible cell for the digit was eliminated from the
    /// sector.
    SecMissingVal { pos: Sector, val: Val },
    /// Too many digits were eliminated from the sector-row.
    SecRowTooFewVals { pos: SectorRow },
    /// Too many digits were eliminated from the sector-column.
    SecColTooFewVals { pos: SectorCol },
}

/// Reason a deduction could be performed.
#[derive(Clone, Copy, Debug, PartialEq, Eq)]
pub enum DeductionReason {
    /// State of the board before any deduction.
    InitialState,
    /// The cell had one digit left, eliminated from all its neighbours.
    CoordNeighbors { pos: Coord, val: Val },
    /// The digits each had one cell left in the row, so every other digit
    /// could be eliminated from those cells.
    UniqueInRow { pos: Row, vals: AvailSet },
    /// The digits each had one cell left in the column.
    UniqueInCol { pos: Col, vals: AvailSet },
    /// The digits each had one cell left in the sector.
    UniqueInSector { pos: Sector, vals: AvailSet },
    /// The sector-row has exactly three digits left, eliminated from the
    /// rest of its sector and row.
    SecRowTriple { pos: SectorRow, vals: AvailSet },
    /// The sector-column has exactly three digits left, eliminated from
    /// the rest of its sector and column.
    SecColTriple { pos: SectorCol, vals: AvailSet },
    /// The sector-row is the only place of its sector for the digits, so
    /// they were eliminated from the rest of the row.
    SecOnlyRow { pos: SectorRow, vals: AvailSet },
    /// The sector-column is the only place of its sector for the digits.
    SecOnlyCol { pos: SectorCol, vals: AvailSet },
    /// The sector-row is the only place of its row for the digits, so
    /// they were eliminated from the rest of the sector.
    RowOnlySec { pos: SectorRow, vals: AvailSet },
    /// The sector-column is the only place of its column for the digits.
    ColOnlySec { pos: SectorCol, vals: AvailSet },
    /// The board was proved unsolveable for the given reason.
    Unsolveable(UnsolveableReason),
}

/// The cause and the result of a single deduction.
#[derive(Clone, Debug, PartialEq, Eq)]
pub struct Deduction {
    /// Why the reducer could act.
    pub reason: DeductionReason,
    /// What was left at each cell after the step.
    pub remaining: Remaining,
}

/// Records the steps used during deductive reduction.
pub trait DeductiveTracer {
    /// Record a deduction and the reason why it happened.
    fn deduce(&mut self, reason: DeductionReason, remaining: Remaining);
}

/// Deductive tracer that records nothing.
#[derive(Clone, Copy, Debug, Default)]
pub struct NopDeductiveTracer;

impl DeductiveTracer for NopDeductiveTracer {
    fn deduce(&mut self, _reason: DeductionReason, _remaining: Remaining) {
    }
}

/// Deductive tracer that keeps every deduction, in order.
#[derive(Clone, Debug, Default, PartialEq, Eq)]
pub struct DeductionLog {
    /// The recorded deductions, oldest first.
    pub deductions: Vec<Deduction>,
}

impl DeductiveTracer for DeductionLog {
    fn deduce(&mut self, reason: DeductionReason, remaining: Remaining)
        ensures
            final(self).deductions@ == old(self).deductions@.push(
                Deduction { reason, remaining },
            ),
    {
        self.deductions.push(Deduction { reason, remaining });
    }
}

/// Records steps used during solving as a tree of puzzles.
pub trait Tracer: Sized {
    /// Type of tracer used for deductive steps.
    type Deductive: DeductiveTracer;

    /// Whether children may still be added to this node.
    spec fn can_add_child(&self) -> bool;

    /// Get a deductive tracer.
    fn deductive_tracer() -> Self::Deductive;

    /// Construct a trace node for a solution.
    fn solution(deduction: Self::Deductive) -> Self;

    /// Construct a trace node for a deduction that proved unsolveable.
    fn unsolveable(deduction: Self::Deductive) -> Self;

    /// Construct an incomplete guess node, to be filled with the attempts
    /// made below it.
    fn guess(deduction: Self::Deductive) -> (r: Self)
        ensures
            r.can_add_child(),
    ;

    /// Add a child to a guess node.
    fn add_child(&mut self, child: Self)
        requires
            old(self).can_add_child(),
        ensures
            final(self).can_add_child(),
    ;
}

/// Tracer that records nothing.
#[derive(Clone, Copy, Debug, Default)]
pub struct NopTracer;

impl Tracer for NopTracer {
    type Deductive = NopDeductiveTracer;

    open spec fn can_add_child(&self) -> bool {
        true
    }

    fn deductive_tracer() -> Self::Deductive {
        NopDeductiveTracer
    }

    fn solution(_deduction: Self::Deductive) -> Self {
        NopTracer
    }

    fn unsolveable(_deduction: Self::Deductive) -> Self {
        NopTracer
    }

    fn guess(_deduction: Self::Deductive) -> (r: Self) {
        NopTracer
    }

    fn add_child(&mut self, _child: Self) {
    }
}

/// Tracer that records the entire search tree.
#[derive(Debug, PartialEq, Eq)]
pub enum TraceTree {
    /// A node that reached a solution; the last deduction shows the
    /// solved board.
    Solution {
        /// The deductions leading to the solution.
        deduction: Vec<Deduction>,
    },
    /// A node that proved unsolveable; the last deduction shows why.
    Unsolveable {
        /// The deductions leading to the contradiction.
        deduction: Vec<Deduction>,
    },
    /// A node that required guesses.
    Guess {
        /// The deductions leading to the point where guessing started.
        deduction: Vec<Deduction>,
        /// The guesses tried below this node, in order.
        guesses: Vec<TraceTree>,
    },
}

impl Tracer for TraceTree {
    type Deductive = DeductionLog;

    open spec fn can_add_child(&self) -> bool {
        self is Guess
    }

    fn deductive_tracer() -> Self::Deductive {
        DeductionLog { deductions: Vec::new() }
    }

    fn solution(deduction: Self::Deductive) -> Self {
        TraceTree::Solution { deduction: deduction.deductions }
    }

    fn unsolveable(deduction: Self::Deductive) -> Self {
        TraceTree::Unsolveable { deduction: deduction.deductions }
    }

    fn guess(deduction: Self::Deductive) -> (r: Self) {
        TraceTree::Guess { deduction: deduction.deductions, guesses: Vec::new() }
    }

    fn add_child(&mut self, child: Self) {
        match self {
            TraceTree::Guess { guesses, .. } => {
                guesses.push(child);
            },
            _ => {
                proof {
                    assert(false);
                }
            },
        }
    }
}

} // verus!

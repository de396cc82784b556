//! The deductive reducer: a fixed-point worklist over the tracker.
//!
//! Work items are [`ReduceStep`] events, totally ordered by rule kind and
//! then by the target zone's flat index. The queue keeps at most one copy
//! of each step and always hands out the smallest pending one, which makes
//! propagation deterministic. Each step consults and mutates the tracker
//! through [`RemainingTracker::eliminate`], which preserves the
//! consistency law, so the law holds after every reducer step.

use vstd::prelude::*;

use crate::availset::AvailSet;
use crate::coordinates::Col;
use crate::coordinates::Coord;
use crate::coordinates::Row;
use crate::coordinates::Sector;
use crate::coordinates::SectorCol;
use crate::coordinates::SectorRow;
use crate::remaining::cells_subset;
use crate::remaining::ElimOutcome;
use crate::remaining::RemainingTracker;
use crate::trace::DeductionReason;
use crate::trace::DeductiveTracer;
use crate::trace::UnsolveableReason;
use crate::zones::total_size;
use crate::Val;

verus! {

/// A pending unit of deductive work, keyed by the zone it concerns.
///
/// The numeric payloads are flat indices: cells count to 81, rows,
/// columns and sectors to 9, sector-rows and sector-columns to 27.
pub(crate) enum ReduceStep {
    /// The cell changed to a single candidate: clear that digit from its
    /// neighbours.
    CoordSingularized(usize),
    /// Some digit has one cell left in the row.
    RowValsSingularized(usize),
    /// Some digit has one cell left in the column.
    ColValsSingularized(usize),
    /// Some digit has one cell left in the sector.
    SecValsSingularized(usize),
    /// The sector-row has exactly three digits left.
    SecRowTripleized(usize),
    /// The sector-column has exactly three digits left.
    SecColTripleized(usize),
    /// The sector-row is the only place of its row for some digit.
    RowOnlySec(usize),
    /// The sector-row is the only place of its sector for some digit.
    SecOnlyRow(usize),
    /// The sector-column is the only place of its column for some digit.
    ColOnlySec(usize),
    /// The sector-column is the only place of its sector for some digit.
    SecOnlyCol(usize),
}

impl ReduceStep {
    /// The payload is in range for the step's zone family.
    pub(crate) open spec fn wf(self) -> bool {
        match self {
            ReduceStep::CoordSingularized(c) => c < 81,
            ReduceStep::RowValsSingularized(z) => z < 9,
            ReduceStep::ColValsSingularized(z) => z < 9,
            ReduceStep::SecValsSingularized(z) => z < 9,
            ReduceStep::SecRowTripleized(t) => t < 27,
            ReduceStep::SecColTripleized(t) => t < 27,
            ReduceStep::RowOnlySec(t) => t < 27,
            ReduceStep::SecOnlyRow(t) => t < 27,
            ReduceStep::ColOnlySec(t) => t < 27,
            ReduceStep::SecOnlyCol(t) => t < 27,
        }
    }

    /// The step's position in the priority order: rule kind first, then
    /// the zone's flat index.
    pub(crate) open spec fn spec_slot(self) -> int {
        match self {
            ReduceStep::CoordSingularized(c) => c as int,
            ReduceStep::RowValsSingularized(z) => 81 + z as int,
            ReduceStep::ColValsSingularized(z) => 90 + z as int,
            ReduceStep::SecValsSingularized(z) => 99 + z as int,
            ReduceStep::SecRowTripleized(t) => 108 + t as int,
            ReduceStep::SecColTripleized(t) => 135 + t as int,
            ReduceStep::RowOnlySec(t) => 162 + t as int,
            ReduceStep::SecOnlyRow(t) => 189 + t as int,
            ReduceStep::ColOnlySec(t) => 216 + t as int,
            ReduceStep::SecOnlyCol(t) => 243 + t as int,
        }
    }

    /// The step's priority slot.
    pub(crate) fn slot(&self) -> (r: usize)
        requires
            self.wf(),
        ensures
            r == self.spec_slot(),
            r < 270,
    {
        match self {
            ReduceStep::CoordSingularized(c) => *c,
            ReduceStep::RowValsSingularized(z) => 81 + *z,
            ReduceStep::ColValsSingularized(z) => 90 + *z,
            ReduceStep::SecValsSingularized(z) => 99 + *z,
            ReduceStep::SecRowTripleized(t) => 108 + *t,
            ReduceStep::SecColTripleized(t) => 135 + *t,
            ReduceStep::RowOnlySec(t) => 162 + *t,
            ReduceStep::SecOnlyRow(t) => 189 + *t,
            ReduceStep::ColOnlySec(t) => 216 + *t,
            ReduceStep::SecOnlyCol(t) => 243 + *t,
        }
    }

    /// The step stored at a priority slot.
    pub(crate) fn from_slot(slot: usize) -> (r: ReduceStep)
        requires
            slot < 270,
        ensures
            r.wf(),
            r.spec_slot() == slot,
    {
        if slot < 81 {
            ReduceStep::CoordSingularized(slot)
        } else if slot < 90 {
            ReduceStep::RowValsSingularized(slot - 81)
        } else if slot < 99 {
            ReduceStep::ColValsSingularized(slot - 90)
        } else if slot < 108 {
            ReduceStep::SecValsSingularized(slot - 99)
        } else if slot < 135 {
            ReduceStep::SecRowTripleized(slot - 108)
        } else if slot < 162 {
            ReduceStep::SecColTripleized(slot - 135)
        } else if slot < 189 {
            ReduceStep::RowOnlySec(slot - 162)
        } else if slot < 216 {
            ReduceStep::SecOnlyRow(slot - 189)
        } else if slot < 243 {
            ReduceStep::ColOnlySec(slot - 216)
        } else {
            ReduceStep::SecOnlyCol(slot - 243)
        }
    }
}

/// Number of set entries among the first `n` of `q`.
pub(crate) open spec fn count_true(q: Seq<bool>, n: int) -> int
    decreases n,
{
    if n <= 0 {
        0
    } else {
        count_true(q, n - 1) + if q[n - 1] {
            1int
        } else {
            0int
        }
    }
}

proof fn lemma_count_true_bounds(q: Seq<bool>, n: int)
    ensures
        0 <= count_true(q, n) <= if n >= 0 { n } else { 0 },
    decreases n,
{
    if n > 0 {
        lemma_count_true_bounds(q, n - 1);
    }
}

proof fn lemma_count_true_update(q: Seq<bool>, s: int, b: bool, n: int)
    requires
        0 <= s < q.len(),
        n <= q.len(),
    ensures
        count_true(q.update(s, b), n) == count_true(q, n) + if s < n {
            (if b { 1int } else { 0int }) - (if q[s] { 1int } else { 0int })
        } else {
            0int
        },
    decreases n,
{
    if n > 0 {
        lemma_count_true_update(q, s, b, n - 1);
    }
}

proof fn lemma_count_true_none(q: Seq<bool>, n: int)
    requires
        forall|j: int| 0 <= j < n ==> !q[j],
    ensures
        count_true(q, n) == 0,
    decreases n,
{
    if n > 0 {
        lemma_count_true_none(q, n - 1);
    }
}

/// The reducer's work queue: a dense pending flag per priority slot, so
/// duplicate entries collapse and draining pops the smallest first.
pub(crate) struct ReduceQueue {
    pending: Vec<bool>,
}

impl ReduceQueue {
    /// The pending flag of every slot.
    pub(crate) closed spec fn slots(self) -> Seq<bool> {
        self.pending@
    }

    /// One flag per priority slot.
    pub(crate) open spec fn wf(self) -> bool {
        self.slots().len() == 270
    }

    /// Whether the slot is pending.
    pub(crate) open spec fn has(self, s: int) -> bool {
        self.slots()[s]
    }

    /// Number of pending steps.
    pub(crate) open spec fn count(self) -> int {
        count_true(self.slots(), 270)
    }

    /// An empty queue.
    pub(crate) fn new() -> (r: ReduceQueue)
        ensures
            r.wf(),
            forall|s: int| 0 <= s < 270 ==> !r.has(s),
            r.count() == 0,
    {
        let mut pending: Vec<bool> = Vec::new();
        let mut i: usize = 0;
        while i < 270
            invariant
                i <= 270,
                pending@.len() == i,
                forall|j: int| 0 <= j < i ==> !pending@[j],
            decreases 270 - i,
        {
            pending.push(false);
            i = i + 1;
        }
        let r = ReduceQueue { pending };
        proof {
            lemma_count_true_none(r.slots(), 270);
        }
        r
    }

    /// Add a step to the queue if it is not already there.
    pub(crate) fn push(&mut self, step: ReduceStep)
        requires
            old(self).wf(),
            step.wf(),
        ensures
            final(self).wf(),
            final(self).has(step.spec_slot()),
            forall|s: int|
                0 <= s < 270 && s != step.spec_slot() ==> final(self).has(s) == old(self).has(s),
            final(self).count() == old(self).count() + if old(self).has(step.spec_slot()) {
                0int
            } else {
                1int
            },
            final(self).count() <= 270,
    {
        let s = step.slot();
        proof {
            lemma_count_true_update(self.slots(), s as int, true, 270);
            lemma_count_true_bounds(self.slots().update(s as int, true), 270);
        }
        self.pending.set(s, true);
    }

    /// Remove and return the smallest pending step, if any.
    pub(crate) fn pop(&mut self) -> (r: Option<ReduceStep>)
        requires
            old(self).wf(),
        ensures
            final(self).wf(),
            match r {
                Some(st) => {
                    &&& st.wf()
                    &&& 0 <= st.spec_slot() < 270
                    &&& old(self).has(st.spec_slot())
                    &&& forall|s: int| 0 <= s < st.spec_slot() ==> !old(self).has(s)
                    &&& !final(self).has(st.spec_slot())
                    &&& forall|s: int|
                        0 <= s < 270 && s != st.spec_slot() ==> final(self).has(s) == old(self).has(
                        s)
                    &&& final(self).count() == old(self).count() - 1
                },
                None => {
                    &&& *final(self) == *old(self)
                    &&& forall|s: int| 0 <= s < 270 ==> !old(self).has(s)
                    &&& old(self).count() == 0
                },
            },
    {
        let mut i: usize = 0;
        while i < 270
            invariant
                self.wf(),
                *self == *old(self),
                i <= 270,
                forall|j: int| 0 <= j < i ==> !self.has(j),
            decreases 270 - i,
        {
            if self.pending[i] {
                proof {
                    lemma_count_true_update(self.slots(), i as int, false, 270);
                }
                self.pending.set(i, false);
                return Some(ReduceStep::from_slot(i));
            }
            i = i + 1;
        }
        proof {
            assert forall|j: int| 0 <= j < 270 implies !self.slots()[j] by {
                assert(!self.has(j));
            }
            lemma_count_true_none(self.slots(), 270);
        }
        None
    }
}

/// The step from `(pre_t, pre_q)` to `(post_t, post_q)` kept the tracker
/// invariants, only narrowed candidate sets, and either eliminated at
/// least one candidate or left the tracker and the queue exactly as they
/// were.
pub(crate) open spec fn progressed(
    pre_t: RemainingTracker,
    pre_q: ReduceQueue,
    post_t: RemainingTracker,
    post_q: ReduceQueue,
) -> bool {
    &&& post_t.wf()
    &&& post_t.all_nonempty()
    &&& post_q.wf()
    &&& cells_subset(post_t.cells(), pre_t.cells())
    &&& total_size(post_t.cells()) <= total_size(pre_t.cells())
    &&& post_q.count() <= 270
    &&& (total_size(post_t.cells()) == total_size(pre_t.cells()) ==> post_t == pre_t && post_q
        == pre_q)
}

proof fn lemma_progress_trans(
    t0: RemainingTracker,
    q0: ReduceQueue,
    t1: RemainingTracker,
    q1: ReduceQueue,
    t2: RemainingTracker,
    q2: ReduceQueue,
)
    requires
        progressed(t0, q0, t1, q1),
        progressed(t1, q1, t2, q2),
    ensures
        progressed(t0, q0, t2, q2),
{
    crate::remaining::lemma_subset_trans(t2.cells(), t1.cells(), t0.cells());
}

/// Applies the reduction rules until the queue drains or a contradiction
/// is found, reporting each deduction to the tracer.
struct DeductiveReducer<T> {
    remaining: RemainingTracker,
    queue: ReduceQueue,
    tracer: T,
}

impl<T: DeductiveTracer> DeductiveReducer<T> {
    /// The tracker invariants and the queue shape hold.
    spec fn inv(self) -> bool {
        &&& self.remaining.wf()
        &&& self.remaining.all_nonempty()
        &&& self.queue.wf()
        &&& self.queue.count() <= 270
    }

    /// Record the current state of the board with the given reason.
    fn deduce(&mut self, reason: DeductionReason)
        requires
            old(self).remaining.wf(),
        ensures
            final(self).remaining == old(self).remaining,
            final(self).queue == old(self).queue,
    {
        let snapshot = self.remaining.snapshot();
        self.tracer.deduce(reason, snapshot);
    }

    /// Record that the board was proved unsolveable.
    fn fail(&mut self, reason: UnsolveableReason)
        requires
            old(self).remaining.wf(),
        ensures
            final(self).remaining == old(self).remaining,
            final(self).queue == old(self).queue,
    {
        let snapshot = self.remaining.snapshot();
        self.tracer.deduce(DeductionReason::Unsolveable(reason), snapshot);
    }

    /// Eliminate the digit from one cell, enqueueing the follow-up steps
    /// that the zone decrement rules call for. Returns whether the cell
    /// changed, or an error when the board was proved unsolveable.
    fn eliminate(&mut self, i: usize, v: Val) -> (r: Result<bool, ()>)
        requires
            old(self).inv(),
            i < 81,
            v.wf(),
        ensures
            match r {
                Ok(changed) => {
                    &&& final(self).inv()
                    &&& progressed(
                        old(self).remaining,
                        old(self).queue,
                        final(self).remaining,
                        final(self).queue,
                    )
                    &&& changed == old(self).remaining.cells()[i as int].has(v.spec_val())
                    &&& total_size(final(self).remaining.cells()) == total_size(
                        old(self).remaining.cells(),
                    ) - if changed {
                        1int
                    } else {
                        0int
                    }
                },
                Err(e) => true,
            },
            !old(self).remaining.cells()[i as int].has(v.spec_val()) ==> (r is Ok && *final(self)
                == *old(self)),
            forall|s: Seq<Option<Val>>|
                crate::board_solved(s) && #[trigger] crate::remaining::cells_admit(
                    old(self).remaining.cells(),
                    s,
                ) && crate::remaining::solution_digit(s, i as int) != v.spec_val() ==> (r is Ok
                && crate::remaining::cells_admit(final(self).remaining.cells(), s)),
            r is Err ==> {
                &&& old(self).remaining.cells()[i as int].has(v.spec_val())
                &&& final(self).remaining.wf()
                &&& forall|j: int|
                    0 <= j < 81 && j != i ==> final(self).remaining.cells()[j] == old(
                        self,
                    ).remaining.cells()[j]
                &&& forall|d: int|
                    final(self).remaining.cells()[i as int].has(d) <==> old(
                        self,
                    ).remaining.cells()[i as int].has(d) && d != v.spec_val()
                &&& {
                    ||| final(self).remaining.cells()[i as int].count() == 0
                    ||| final(self).remaining.rows_seq()[crate::zones::row_of(i as int)].count_of(
                        v.spec_val(),
                    ) == 0
                    ||| final(self).remaining.cols_seq()[crate::zones::col_of(i as int)].count_of(
                        v.spec_val(),
                    ) == 0
                    ||| final(self).remaining.sectors_seq()[crate::zones::sector_of(
                        i as int,
                    )].count_of(v.spec_val()) == 0
                    ||| (final(self).remaining.srows_seq()[crate::zones::srow_of(
                        i as int,
                    )].count_of(v.spec_val()) == 0
                        && crate::remaining::counter_avail_count(
                        final(self).remaining.srows_seq()[crate::zones::srow_of(i as int)],
                    ) < 3)
                    ||| (final(self).remaining.scols_seq()[crate::zones::scol_of(
                        i as int,
                    )].count_of(v.spec_val()) == 0
                        && crate::remaining::counter_avail_count(
                        final(self).remaining.scols_seq()[crate::zones::scol_of(i as int)],
                    ) < 3)
                }
            },
            (r is Ok && old(self).remaining.cells()[i as int].has(v.spec_val())) ==> forall|
                sl: int,
            |
                0 <= sl < 270 ==> (#[trigger] final(self).queue.has(sl) <==> old(self).queue.has(
                    sl,
                ) || elim_enqueued(final(self).remaining, i as int, v.spec_val(), sl)),
            r is Ok ==> forall|j: int|
                0 <= j < 81 && j != i ==> final(self).remaining.cells()[j] == old(
                    self,
                ).remaining.cells()[j],
            r is Ok ==> forall|d: int|
                final(self).remaining.cells()[i as int].has(d) <==> old(
                    self,
                ).remaining.cells()[i as int].has(d) && d != v.spec_val(),
            (r is Ok && old(self).remaining.cells()[i as int].has(v.spec_val())) ==> {
                &&& final(self).remaining.cells()[i as int].count() >= 1
                &&& final(self).remaining.rows_seq()[crate::zones::row_of(i as int)].count_of(
                    v.spec_val(),
                ) >= 1
                &&& final(self).remaining.cols_seq()[crate::zones::col_of(i as int)].count_of(
                    v.spec_val(),
                ) >= 1
                &&& final(self).remaining.sectors_seq()[crate::zones::sector_of(i as int)].count_of(
                    v.spec_val(),
                ) >= 1
                &&& (final(self).remaining.srows_seq()[crate::zones::srow_of(i as int)].count_of(
                    v.spec_val(),
                ) == 0 ==> crate::remaining::counter_avail_count(
                    final(self).remaining.srows_seq()[crate::zones::srow_of(i as int)],
                ) >= 3)
                &&& (final(self).remaining.scols_seq()[crate::zones::scol_of(i as int)].count_of(
                    v.spec_val(),
                ) == 0 ==> crate::remaining::counter_avail_count(
                    final(self).remaining.scols_seq()[crate::zones::scol_of(i as int)],
                ) >= 3)
            },
    {
        let outcome = self.remaining.eliminate(i, v);
        match outcome {
            ElimOutcome::Unchanged => Ok(false),
            ElimOutcome::Removed(c) => {
                proof {
                    assert forall|s: Seq<Option<Val>>|
                        crate::board_solved(s) && #[trigger] crate::remaining::cells_admit(
                            old(self).remaining.cells(),
                            s,
                        ) && crate::remaining::solution_digit(s, i as int)
                        != v.spec_val() implies crate::remaining::cells_admit(
                        self.remaining.cells(),
                        s,
                    ) by {
                        assert forall|j: int|
                            0 <= j < 81 implies #[trigger] self.remaining.cells()[j].has(
                            crate::remaining::solution_digit(s, j),
                        ) by {
                            assert(old(self).remaining.cells()[j].has(
                                crate::remaining::solution_digit(s, j),
                            ));
                        }
                    }
                }
                if c.cell == 0 {
                    proof {
                        assert forall|s: Seq<Option<Val>>|
                            crate::board_solved(s) && #[trigger] crate::remaining::cells_admit(
                                old(self).remaining.cells(),
                                s,
                            ) && crate::remaining::solution_digit(s, i as int)
                            != v.spec_val() implies false by {
                            assert(crate::remaining::cells_admit(self.remaining.cells(), s));
                            assert(self.remaining.cells()[i as int].has(
                                crate::remaining::solution_digit(s, i as int),
                            ));
                            crate::availset::AvailSet::lemma_count_facts(
                                self.remaining.cells()[i as int],
                            );
                        }
                    }
                    self.fail(UnsolveableReason::Empty { pos: Coord::from_idx(i) });
                    return Err(());
                }
                if c.cell == 1 {
                    self.queue.push(ReduceStep::CoordSingularized(i));
                }
                let ri = i / 9;
                let ci = i % 9;
                let si = (ri / 3) * 3 + ci / 3;
                let sri = ri * 3 + ci / 3;
                let sci = si * 3 + ci % 3;
                if c.row == 0 {
                    proof {
                        assert forall|s: Seq<Option<Val>>|
                            crate::board_solved(s) && #[trigger] crate::remaining::cells_admit(
                                old(self).remaining.cells(),
                                s,
                            ) && crate::remaining::solution_digit(s, i as int)
                            != v.spec_val() implies false by {
                            assert(crate::remaining::cells_admit(self.remaining.cells(), s));
                            lemma_admit_zone_counts(
                                self.remaining,
                                s,
                                ri as int,
                                v.spec_val(),
                            );
                        }
                    }
                    self.fail(UnsolveableReason::RowMissingVal { pos: Row::from_idx(ri), val: v });
                    return Err(());
                }
                if c.row == 1 {
                    self.queue.push(ReduceStep::RowValsSingularized(ri));
                }
                if c.col == 0 {
                    proof {
                        assert forall|s: Seq<Option<Val>>|
                            crate::board_solved(s) && #[trigger] crate::remaining::cells_admit(
                                old(self).remaining.cells(),
                                s,
                            ) && crate::remaining::solution_digit(s, i as int)
                            != v.spec_val() implies false by {
                            assert(crate::remaining::cells_admit(self.remaining.cells(), s));
                            lemma_admit_zone_counts(
                                self.remaining,
                                s,
                                ci as int,
                                v.spec_val(),
                            );
                        }
                    }
                    self.fail(UnsolveableReason::ColMissingVal { pos: Col::from_idx(ci), val: v });
                    return Err(());
                }
                if c.col == 1 {
                    self.queue.push(ReduceStep::ColValsSingularized(ci));
                }
                if c.sector == 0 {
                    proof {
                        assert forall|s: Seq<Option<Val>>|
                            crate::board_solved(s) && #[trigger] crate::remaining::cells_admit(
                                old(self).remaining.cells(),
                                s,
                            ) && crate::remaining::solution_digit(s, i as int)
                            != v.spec_val() implies false by {
                            assert(crate::remaining::cells_admit(self.remaining.cells(), s));
                            lemma_admit_zone_counts(
                                self.remaining,
                                s,
                                si as int,
                                v.spec_val(),
                            );
                        }
                    }
                    self.fail(
                        UnsolveableReason::SecMissingVal { pos: Sector::from_idx(si), val: v },
                    );
                    return Err(());
                }
                if c.sector == 1 {
                    self.queue.push(ReduceStep::SecValsSingularized(si));
                }
                if c.srow == 0 {
                    let ghost pre = *self;
                    match self.srow_follow_ups(sri, si, v) {
                        Ok(u) => u,
                        Err(e) => {
                            proof {
                                assert forall|s: Seq<Option<Val>>|
                                    crate::board_solved(s)
                                        && #[trigger] crate::remaining::cells_admit(
                                        old(self).remaining.cells(),
                                        s,
                                    ) && crate::remaining::solution_digit(s, i as int)
                                    != v.spec_val() implies false by {
                                    assert(crate::remaining::cells_admit(
                                        pre.remaining.cells(),
                                        s,
                                    ));
                                }
                            }
                            return Err(e);
                        },
                    }
                }
                if c.scol == 0 {
                    let ghost pre2 = *self;
                    match self.scol_follow_ups(sci, si, ci, v) {
                        Ok(u) => u,
                        Err(e) => {
                            proof {
                                assert forall|s: Seq<Option<Val>>|
                                    crate::board_solved(s)
                                        && #[trigger] crate::remaining::cells_admit(
                                        old(self).remaining.cells(),
                                        s,
                                    ) && crate::remaining::solution_digit(s, i as int)
                                    != v.spec_val() implies false by {
                                    assert(crate::remaining::cells_admit(
                                        pre2.remaining.cells(),
                                        s,
                                    ));
                                }
                            }
                            return Err(e);
                        },
                    }
                }
                proof {
                    assert forall|sl: int|
                        0 <= sl < 270 implies (#[trigger] self.queue.has(sl) <==> old(
                        self,
                    ).queue.has(sl) || elim_enqueued(
                        self.remaining,
                        i as int,
                        v.spec_val(),
                        sl,
                    )) by {
                        assert(crate::zones::row_of(i as int) == ri as int);
                        assert(crate::zones::col_of(i as int) == ci as int);
                        assert(crate::zones::sector_of(i as int) == si as int);
                        assert(crate::zones::srow_of(i as int) == sri as int);
                        assert(crate::zones::scol_of(i as int) == sci as int);
                    }
                }
                Ok(true)
            },
        }
    }

    /// Follow-up work after the last copy of a digit left a sector-row:
    /// abort or enqueue by the sector-row's remaining spread, and enqueue
    /// the confinement checks of its four neighbours.
    #[verifier::rlimit(100)]
    #[verifier::spinoff_prover]
    fn srow_follow_ups(&mut self, sri: usize, si: usize, v: Val) -> (r: Result<(), ()>)
        requires
            old(self).remaining.wf(),
            old(self).queue.wf(),
            old(self).queue.count() <= 270,
            sri < 27,
            si < 9,
            si == ((sri as int / 3) / 3) * 3 + sri as int % 3,
            v.wf(),
        ensures
            final(self).remaining == old(self).remaining,
            final(self).queue.wf(),
            match r {
                Ok(u) => final(self).queue.count() <= 270,
                Err(e) => true,
            },
            forall|s: Seq<Option<Val>>|
                crate::board_solved(s) && #[trigger] crate::remaining::cells_admit(
                    old(self).remaining.cells(),
                    s,
                ) ==> r is Ok,
            r is Err ==> crate::remaining::counter_avail_count(
                old(self).remaining.srows_seq()[sri as int],
            ) < 3,
            r is Ok ==> crate::remaining::counter_avail_count(
                old(self).remaining.srows_seq()[sri as int],
            ) >= 3,
            r is Ok ==> forall|sl: int|
                0 <= sl < 270 ==> (#[trigger] final(self).queue.has(sl) <==> old(self).queue.has(
                    sl,
                ) || srow_pushes(old(self).remaining, sri as int, v.spec_val(), sl)),
    {
        let avail = self.remaining.srow_avail(sri);
        proof {
            crate::remaining::lemma_avail_set_count(
                avail,
                self.remaining.srows_seq()[sri as int],
                9,
            );
        }
        let n = avail.len();
        if n < 3 {
            proof {
                assert forall|s: Seq<Option<Val>>|
                    crate::board_solved(s) && #[trigger] crate::remaining::cells_admit(
                        old(self).remaining.cells(),
                        s,
                    ) implies false by {
                    lemma_admit_srow_three(old(self).remaining, s, sri as int);
                    let (d1, d2, d3): (int, int, int) = choose|d1: int, d2: int, d3: int|
                        {
                            &&& 1 <= d1 <= 9 && 1 <= d2 <= 9 && 1 <= d3 <= 9
                            &&& d1 != d2 && d1 != d3 && d2 != d3
                            &&& (#[trigger] old(self).remaining.srows_seq()[sri as int].count_of(
                                d1,
                            )) >= 1
                            &&& (#[trigger] old(self).remaining.srows_seq()[sri as int].count_of(
                                d2,
                            )) >= 1
                            &&& (#[trigger] old(self).remaining.srows_seq()[sri as int].count_of(
                                d3,
                            )) >= 1
                        };
                    assert(avail.has(d1) && avail.has(d2) && avail.has(d3));
                    crate::availset::lemma_count_distinct_members(avail.mask(), seq![d1, d2, d3]);
                }
            }
            self.fail(UnsolveableReason::SecRowTooFewVals { pos: SectorRow::from_idx(sri) });
            return Err(());
        }
        if n == 3 {
            self.queue.push(ReduceStep::SecRowTripleized(sri));
        }
        let band = sri % 3;
        let rowz = sri / 3;
        let b0: usize = if band == 0 {
            1
        } else {
            0
        };
        let b1: usize = if band == 2 {
            1
        } else {
            2
        };
        let nb0 = rowz * 3 + b0;
        let nb1 = rowz * 3 + b1;
        if self.remaining.srow_count_of(nb0, v) == self.remaining.row_count_of(rowz, v) {
            self.queue.push(ReduceStep::RowOnlySec(nb0));
        }
        if self.remaining.srow_count_of(nb1, v) == self.remaining.row_count_of(rowz, v) {
            self.queue.push(ReduceStep::RowOnlySec(nb1));
        }
        let base_row = rowz - rowz % 3;
        let r0 = if base_row == rowz {
            base_row + 1
        } else {
            base_row
        };
        let r1 = if base_row + 2 == rowz {
            base_row + 1
        } else {
            base_row + 2
        };
        let sb0 = r0 * 3 + band;
        let sb1 = r1 * 3 + band;
        if self.remaining.srow_count_of(sb0, v) == self.remaining.sector_count_of(si, v) {
            self.queue.push(ReduceStep::SecOnlyRow(sb0));
        }
        if self.remaining.srow_count_of(sb1, v) == self.remaining.sector_count_of(si, v) {
            self.queue.push(ReduceStep::SecOnlyRow(sb1));
        }
        proof {
            let sri_s = sri as int;
            assert(crate::coordinates::other_in_triple(0, sri_s % 3, 0) == b0 as int);
            assert(crate::coordinates::other_in_triple(0, sri_s % 3, 1) == b1 as int);
            assert(crate::coordinates::other_in_triple(
                sri_s / 3 - (sri_s / 3) % 3,
                sri_s / 3,
                0,
            ) == r0 as int);
            assert(crate::coordinates::other_in_triple(
                sri_s / 3 - (sri_s / 3) % 3,
                sri_s / 3,
                1,
            ) == r1 as int);
            assert((sri_s / 3 / 3) * 3 + sri_s % 3 == si as int);
            assert forall|sl: int|
                0 <= sl < 270 implies (#[trigger] self.queue.has(sl) <==> old(self).queue.has(sl)
                || srow_pushes(old(self).remaining, sri_s, v.spec_val(), sl)) by {
            }
        }
        Ok(())
    }

    /// Follow-up work after the last copy of a digit left a sector-column.
    #[verifier::rlimit(100)]
    #[verifier::spinoff_prover]
    fn scol_follow_ups(&mut self, sci: usize, si: usize, ci: usize, v: Val) -> (r: Result<(), ()>)
        requires
            old(self).remaining.wf(),
            old(self).queue.wf(),
            old(self).queue.count() <= 270,
            sci < 27,
            si < 9,
            ci < 9,
            si == sci as int / 3,
            ci == ((sci as int / 3) % 3) * 3 + sci as int % 3,
            v.wf(),
        ensures
            final(self).remaining == old(self).remaining,
            final(self).queue.wf(),
            match r {
                Ok(u) => final(self).queue.count() <= 270,
                Err(e) => true,
            },
            forall|s: Seq<Option<Val>>|
                crate::board_solved(s) && #[trigger] crate::remaining::cells_admit(
                    old(self).remaining.cells(),
                    s,
                ) ==> r is Ok,
            r is Err ==> crate::remaining::counter_avail_count(
                old(self).remaining.scols_seq()[sci as int],
            ) < 3,
            r is Ok ==> crate::remaining::counter_avail_count(
                old(self).remaining.scols_seq()[sci as int],
            ) >= 3,
            r is Ok ==> forall|sl: int|
                0 <= sl < 270 ==> (#[trigger] final(self).queue.has(sl) <==> old(self).queue.has(
                    sl,
                ) || scol_pushes(old(self).remaining, sci as int, v.spec_val(), sl)),
    {
        let avail = self.remaining.scol_avail(sci);
        proof {
            crate::remaining::lemma_avail_set_count(
                avail,
                self.remaining.scols_seq()[sci as int],
                9,
            );
        }
        let n = avail.len();
        if n < 3 {
            proof {
                assert forall|s: Seq<Option<Val>>|
                    crate::board_solved(s) && #[trigger] crate::remaining::cells_admit(
                        old(self).remaining.cells(),
                        s,
                    ) implies false by {
                    lemma_admit_scol_three(old(self).remaining, s, sci as int);
                    let (d1, d2, d3): (int, int, int) = choose|d1: int, d2: int, d3: int|
                        {
                            &&& 1 <= d1 <= 9 && 1 <= d2 <= 9 && 1 <= d3 <= 9
                            &&& d1 != d2 && d1 != d3 && d2 != d3
                            &&& (#[trigger] old(self).remaining.scols_seq()[sci as int].count_of(
                                d1,
                            )) >= 1
                            &&& (#[trigger] old(self).remaining.scols_seq()[sci as int].count_of(
                                d2,
                            )) >= 1
                            &&& (#[trigger] old(self).remaining.scols_seq()[sci as int].count_of(
                                d3,
                            )) >= 1
                        };
                    assert(avail.has(d1) && avail.has(d2) && avail.has(d3));
                    crate::availset::lemma_count_distinct_members(avail.mask(), seq![d1, d2, d3]);
                }
            }
            self.fail(UnsolveableReason::SecColTooFewVals { pos: SectorCol::from_idx(sci) });
            return Err(());
        }
        if n == 3 {
            self.queue.push(ReduceStep::SecColTripleized(sci));
        }
        let rel = sci % 3;
        let sector = sci / 3;
        let colband = sector / 3;
        let cb0: usize = if colband == 0 {
            1
        } else {
            0
        };
        let cb1: usize = if colband == 2 {
            1
        } else {
            2
        };
        let nb0 = (cb0 * 3 + sector % 3) * 3 + rel;
        let nb1 = (cb1 * 3 + sector % 3) * 3 + rel;
        if self.remaining.scol_count_of(nb0, v) == self.remaining.col_count_of(ci, v) {
            self.queue.push(ReduceStep::ColOnlySec(nb0));
        }
        if self.remaining.scol_count_of(nb1, v) == self.remaining.col_count_of(ci, v) {
            self.queue.push(ReduceStep::ColOnlySec(nb1));
        }
        let rel0: usize = if rel == 0 {
            1
        } else {
            0
        };
        let rel1: usize = if rel == 2 {
            1
        } else {
            2
        };
        let sb0 = sector * 3 + rel0;
        let sb1 = sector * 3 + rel1;
        if self.remaining.scol_count_of(sb0, v) == self.remaining.sector_count_of(si, v) {
            self.queue.push(ReduceStep::SecOnlyCol(sb0));
        }
        if self.remaining.scol_count_of(sb1, v) == self.remaining.sector_count_of(si, v) {
            self.queue.push(ReduceStep::SecOnlyCol(sb1));
        }
        proof {
            let sci_s = sci as int;
            assert(crate::coordinates::other_in_triple(0, (sci_s / 3) / 3, 0) == cb0 as int);
            assert(crate::coordinates::other_in_triple(0, (sci_s / 3) / 3, 1) == cb1 as int);
            assert(crate::coordinates::other_in_triple(0, sci_s % 3, 0) == rel0 as int);
            assert(crate::coordinates::other_in_triple(0, sci_s % 3, 1) == rel1 as int);
            assert(((sci_s / 3) % 3) * 3 + sci_s % 3 == ci as int);
            assert(sci_s / 3 == si as int);
            assert forall|sl: int|
                0 <= sl < 270 implies (#[trigger] self.queue.has(sl) <==> old(self).queue.has(sl)
                || scol_pushes(old(self).remaining, sci_s, v.spec_val(), sl)) by {
            }
        }
        Ok(())
    }

    /// Eliminate every digit of `vals` from cell `i`. Returns the set of
    /// digits that were actually removed.
    #[verifier::rlimit(60)]
    #[verifier::spinoff_prover]
    fn eliminate_set(&mut self, i: usize, vals: AvailSet) -> (r: Result<AvailSet, ()>)
        requires
            old(self).inv(),
            i < 81,
            vals.wf(),
        ensures
            match r {
                Ok(removed) => {
                    &&& removed.wf()
                    &&& final(self).inv()
                    &&& progressed(
                        old(self).remaining,
                        old(self).queue,
                        final(self).remaining,
                        final(self).queue,
                    )
                    &&& total_size(final(self).remaining.cells()) == total_size(
                        old(self).remaining.cells(),
                    ) - removed.count()
                },
                Err(e) => true,
            },
            (forall|d: int| vals.has(d) ==> !old(self).remaining.cells()[i as int].has(d)) ==> (
            r is Ok && *final(self) == *old(self)),
            forall|s: Seq<Option<Val>>|
                crate::board_solved(s) && #[trigger] crate::remaining::cells_admit(
                    old(self).remaining.cells(),
                    s,
                ) && !vals.has(crate::remaining::solution_digit(s, i as int)) ==> (r is Ok
                && crate::remaining::cells_admit(final(self).remaining.cells(), s)),
            r is Ok ==> forall|j: int|
                0 <= j < 81 && j != i ==> final(self).remaining.cells()[j] == old(
                    self,
                ).remaining.cells()[j],
            r is Ok ==> forall|d: int|
                final(self).remaining.cells()[i as int].has(d) <==> old(
                    self,
                ).remaining.cells()[i as int].has(d) && !vals.has(d),
    {
        let mut removed = AvailSet::none();
        let mut dd: u8 = 1;
        while dd <= 9
            invariant
                old(self).inv(),
                i < 81,
                vals.wf(),
                removed.wf(),
                1 <= dd <= 10,
                self.inv(),
                progressed(old(self).remaining, old(self).queue, self.remaining, self.queue),
                total_size(self.remaining.cells()) == total_size(old(self).remaining.cells())
                    - removed.count(),
                forall|d: int| #[trigger] removed.has(d) ==> d < dd,
                (forall|d: int| vals.has(d) ==> !old(self).remaining.cells()[i as int].has(d))
                    ==> *self == *old(self),
                forall|s: Seq<Option<Val>>|
                    crate::board_solved(s) && #[trigger] crate::remaining::cells_admit(
                        old(self).remaining.cells(),
                        s,
                    ) && !vals.has(crate::remaining::solution_digit(s, i as int))
                    ==> crate::remaining::cells_admit(self.remaining.cells(), s),
                forall|j: int|
                    0 <= j < 81 && j != i ==> self.remaining.cells()[j] == old(
                        self,
                    ).remaining.cells()[j],
                forall|d: int|
                    self.remaining.cells()[i as int].has(d) <==> old(
                        self,
                    ).remaining.cells()[i as int].has(d) && !(vals.has(d) && d < dd),
            decreases 10 - dd,
        {
            let v = Val::new(dd);
            if vals.contains(v) {
                let ghost pre_t = self.remaining;
                let ghost pre_q = self.queue;
                let changed = match self.eliminate(i, v) {
                    Ok(c) => c,
                    Err(e) => {
                        proof {
                            assert forall|s: Seq<Option<Val>>|
                                crate::board_solved(s) && #[trigger] crate::remaining::cells_admit(
                                    old(self).remaining.cells(),
                                    s,
                                ) && !vals.has(
                                    crate::remaining::solution_digit(s, i as int),
                                ) implies false by {
                                assert(crate::remaining::cells_admit(pre_t.cells(), s));
                                assert(crate::remaining::solution_digit(s, i as int)
                                    != v.spec_val());
                            }
                        }
                        return Err(e);
                    },
                };
                proof {
                    assert forall|s: Seq<Option<Val>>|
                        crate::board_solved(s) && #[trigger] crate::remaining::cells_admit(
                            old(self).remaining.cells(),
                            s,
                        ) && !vals.has(
                            crate::remaining::solution_digit(s, i as int),
                        ) implies crate::remaining::cells_admit(self.remaining.cells(), s) by {
                        assert(crate::remaining::cells_admit(pre_t.cells(), s));
                        assert(crate::remaining::solution_digit(s, i as int) != v.spec_val());
                    }
                }
                proof {
                    lemma_progress_trans(
                        old(self).remaining,
                        old(self).queue,
                        pre_t,
                        pre_q,
                        self.remaining,
                        self.queue,
                    );
                }
                if changed {
                    removed.add(v);
                }
            }
            proof {
                let dd0 = dd as int;
                assert forall|d: int|
                    (self.remaining.cells()[i as int].has(d) <==> old(
                        self,
                    ).remaining.cells()[i as int].has(d) && !(vals.has(d) && d < dd0 + 1)) by {
                    assert(v.spec_val() == dd0);
                }
            }
            dd = dd + 1;
        }
        Ok(removed)
    }

    /// A cell has one digit left: eliminate that digit from its twenty
    /// neighbours.
    #[verifier::rlimit(60)]
    #[verifier::spinoff_prover]
    fn coord_singularized(&mut self, c: usize) -> (r: Result<(), ()>)
        requires
            old(self).inv(),
            c < 81,
        ensures
            match r {
                Ok(u) => final(self).inv() && progressed(
                    old(self).remaining,
                    old(self).queue,
                    final(self).remaining,
                    final(self).queue,
                ),
                Err(e) => true,
            },
            solved_state(old(self).remaining) ==> (r is Ok && final(self).remaining == old(
                self,
            ).remaining),
            forall|s: Seq<Option<Val>>|
                crate::board_solved(s) && #[trigger] crate::remaining::cells_admit(
                    old(self).remaining.cells(),
                    s,
                ) ==> (r is Ok && crate::remaining::cells_admit(final(self).remaining.cells(), s)),
            (r is Ok && old(self).remaining.cells()[c as int].count() != 1) ==> final(self).remaining
                == old(self).remaining,
            (r is Ok && old(self).remaining.cells()[c as int].count() == 1) ==> forall|
                j: int,
                d: int,
            |
                0 <= j < 81 && 1 <= d <= 9 ==> ((#[trigger] final(self).remaining.cells()[j].has(d))
                    <==> old(self).remaining.cells()[j].has(d) && !(j != c
                    && crate::same_board_zone(j, c as int)
                    && old(self).remaining.cells()[c as int].has(d))),
    {
        let cell = self.remaining.cell(c);
        let val = match cell.get_single() {
            Some(v) => v,
            None => {
                return Ok(());
            },
        };
        let coord = Coord::from_idx(c);
        let neighbors = coord.neighbors();
        let mut any = false;
        let mut k: usize = 0;
        while k < neighbors.len()
            invariant
                old(self).inv(),
                val.wf(),
                c < 81,
                old(self).remaining.cells()[c as int].has(val.spec_val()),
                old(self).remaining.cells()[c as int].count() == 1,
                coord.wf() && coord.spec_idx() == c,
                neighbors@.len() == 20,
                forall|j: int|
                    0 <= j < 20 ==> (#[trigger] neighbors@[j]).wf() && coord.spec_neighbor(
                        neighbors@[j],
                    ),
                k <= 20,
                self.inv(),
                progressed(old(self).remaining, old(self).queue, self.remaining, self.queue),
                !any ==> self.remaining == old(self).remaining && self.queue == old(self).queue,
                solved_state(old(self).remaining) ==> *self == *old(self) && !any,
                forall|s: Seq<Option<Val>>|
                    crate::board_solved(s) && #[trigger] crate::remaining::cells_admit(
                        old(self).remaining.cells(),
                        s,
                    ) ==> crate::remaining::cells_admit(self.remaining.cells(), s),
                forall|j: int, d: int|
                    0 <= j < 81 && 1 <= d <= 9 ==> ((#[trigger] self.remaining.cells()[j].has(d))
                        <==> old(self).remaining.cells()[j].has(d) && !(d == val.spec_val()
                        && exists|kk: int|
                        0 <= kk < k && (#[trigger] neighbors@[kk]).spec_idx() == j)),
            decreases 20 - k,
        {
            let n = neighbors[k].idx();
            proof {
                assert(neighbors@[k as int].spec_idx() < 81);
                let nk = neighbors@[k as int];
                let ni = nk.spec_idx();
                let ci = c as int;
                crate::zones::lemma_cell_decompose(ni);
                crate::zones::lemma_cell_decompose(ci);
                assert(crate::zones::row_of(ni) == nk.spec_row() && crate::zones::col_of(ni)
                    == nk.spec_col());
                assert(crate::zones::row_of(ci) == coord.spec_row() && crate::zones::col_of(ci)
                    == coord.spec_col());
                assert(ni != ci) by {
                    if ni == ci {
                        crate::coordinates::lemma_coord_eq(nk, coord);
                    }
                }
                if !(crate::zones::row_of(ci) == crate::zones::row_of(ni) || crate::zones::col_of(
                    ci,
                ) == crate::zones::col_of(ni)) {
                    assert(nk.spec_row() - nk.spec_row() % 3 == coord.spec_row() - coord.spec_row()
                        % 3 && nk.spec_col() - nk.spec_col() % 3 == coord.spec_col()
                        - coord.spec_col() % 3);
                    assert(crate::zones::sector_of(ci) == crate::zones::sector_of(ni));
                }
                if solved_state(old(self).remaining) {
                    lemma_solved_absent(old(self).remaining, ci, ni, val.spec_val());
                }
                assert forall|s: Seq<Option<Val>>|
                    crate::board_solved(s) && #[trigger] crate::remaining::cells_admit(
                        old(self).remaining.cells(),
                        s,
                    ) implies crate::remaining::solution_digit(s, ni) != val.spec_val() by {
                    let sc = crate::remaining::solution_digit(s, ci);
                    assert(old(self).remaining.cells()[ci].has(sc));
                    crate::availset::AvailSet::lemma_count_facts(old(self).remaining.cells()[ci]);
                    assert(sc == val.spec_val());
                    if crate::remaining::solution_digit(s, ni) == val.spec_val() {
                        if crate::zones::row_of(ci) == crate::zones::row_of(ni) {
                            let z = crate::zones::row_of(ci);
                            crate::zones::lemma_zone_shapes(z);
                            crate::zones::lemma_row_membership(z, ci);
                            crate::zones::lemma_row_membership(z, ni);
                            crate::lemma_board_zone_count_two(
                                s,
                                crate::zones::row_cells(z),
                                ci,
                                ni,
                                val.spec_val(),
                            );
                        } else if crate::zones::col_of(ci) == crate::zones::col_of(ni) {
                            let z = crate::zones::col_of(ci);
                            crate::zones::lemma_zone_shapes(z);
                            crate::zones::lemma_col_membership(z, ci);
                            crate::zones::lemma_col_membership(z, ni);
                            crate::lemma_board_zone_count_two(
                                s,
                                crate::zones::col_cells(z),
                                ci,
                                ni,
                                val.spec_val(),
                            );
                        } else {
                            let z = crate::zones::sector_of(ci);
                            crate::zones::lemma_zone_shapes(z);
                            crate::zones::lemma_sector_membership(z, ci);
                            crate::zones::lemma_sector_membership(z, ni);
                            crate::lemma_board_zone_count_two(
                                s,
                                crate::zones::sector_cells(z),
                                ci,
                                ni,
                                val.spec_val(),
                            );
                        }
                    }
                }
            }
            let ghost pre_t = self.remaining;
            let ghost pre_q = self.queue;
            let changed = match self.eliminate(n, val) {
                Ok(c2) => c2,
                Err(e) => {
                    proof {
                        assert forall|s: Seq<Option<Val>>|
                            crate::board_solved(s) && #[trigger] crate::remaining::cells_admit(
                                old(self).remaining.cells(),
                                s,
                            ) implies false by {
                            assert(crate::remaining::cells_admit(pre_t.cells(), s));
                        }
                    }
                    return Err(e);
                },
            };
            proof {
                assert forall|s: Seq<Option<Val>>|
                    crate::board_solved(s) && #[trigger] crate::remaining::cells_admit(
                        old(self).remaining.cells(),
                        s,
                    ) implies crate::remaining::cells_admit(self.remaining.cells(), s) by {
                    assert(crate::remaining::cells_admit(pre_t.cells(), s));
                }
            }
            proof {
                lemma_progress_trans(
                    old(self).remaining,
                    old(self).queue,
                    pre_t,
                    pre_q,
                    self.remaining,
                    self.queue,
                );
            }
            proof {
                let ghost kk0 = k as int;
                assert forall|j: int, d: int|
                    0 <= j < 81 && 1 <= d <= 9 implies ((#[trigger] self.remaining.cells()[j].has(
                    d)) <==> old(self).remaining.cells()[j].has(d) && !(d == val.spec_val()
                    && exists|kk: int|
                    0 <= kk < kk0 + 1 && (#[trigger] neighbors@[kk]).spec_idx() == j)) by {
                    if j == n && d == val.spec_val() {
                        assert(neighbors@[kk0].spec_idx() == j);
                    } else {
                        if exists|kk: int|
                            0 <= kk < kk0 + 1 && (#[trigger] neighbors@[kk]).spec_idx() == j {
                            let kk = choose|kk: int|
                                0 <= kk < kk0 + 1 && (#[trigger] neighbors@[kk]).spec_idx() == j;
                            if kk < kk0 {
                                assert(exists|kk2: int|
                                    0 <= kk2 < kk0 && (#[trigger] neighbors@[kk2]).spec_idx()
                                        == j);
                            }
                        }
                    }
                }
            }
            if changed {
                any = true;
            }
            k = k + 1;
        }
        proof {
            assert forall|j: int, d: int|
                0 <= j < 81 && 1 <= d <= 9 implies ((#[trigger] self.remaining.cells()[j].has(d))
                <==> old(self).remaining.cells()[j].has(d) && !(j != c
                && crate::same_board_zone(j, c as int)
                && old(self).remaining.cells()[c as int].has(d))) by {
                crate::zones::lemma_cell_decompose(j);
                crate::zones::lemma_cell_decompose(c as int);
                crate::availset::AvailSet::lemma_count_facts(old(self).remaining.cells()[c as int]);
                assert(old(self).remaining.cells()[c as int].has(d) <==> d == val.spec_val());
                if exists|kk: int| 0 <= kk < 20 && (#[trigger] neighbors@[kk]).spec_idx() == j {
                    let kk = choose|kk: int|
                        0 <= kk < 20 && (#[trigger] neighbors@[kk]).spec_idx() == j;
                    let nk = neighbors@[kk];
                    assert(crate::zones::row_of(j) == nk.spec_row() && crate::zones::col_of(j)
                        == nk.spec_col());
                    assert(j != c) by {
                        if j == c as int {
                            crate::coordinates::lemma_coord_eq(nk, coord);
                        }
                    }
                    if !(nk.spec_row() == coord.spec_row() || nk.spec_col() == coord.spec_col()) {
                        assert(crate::zones::sector_of(j) == crate::zones::sector_of(c as int));
                    }
                    assert(crate::same_board_zone(j, c as int));
                }
                if j != c && crate::same_board_zone(j, c as int) {
                    let jc = crate::coordinates::coord_spec(
                        crate::zones::row_of(j),
                        crate::zones::col_of(j),
                    );
                    crate::coordinates::lemma_coord_spec(
                        crate::zones::row_of(j),
                        crate::zones::col_of(j),
                    );
                    assert(jc.spec_idx() == j);
                    assert(coord.spec_neighbor(jc)) by {
                        assert(jc != coord) by {
                            if jc == coord {
                                assert(jc.spec_row() == coord.spec_row() && jc.spec_col()
                                    == coord.spec_col());
                            }
                        }
                        if crate::zones::sector_of(j) == crate::zones::sector_of(c as int) {
                            assert(crate::zones::row_of(j) / 3 == crate::zones::row_of(c as int)
                                / 3 && crate::zones::col_of(j) / 3 == crate::zones::col_of(
                                c as int,
                            ) / 3);
                        }
                    }
                    crate::coordinates::lemma_neighbors_complete(coord, neighbors@, jc);
                    let kk = choose|kk: int| 0 <= kk < 20 && #[trigger] neighbors@[kk] == jc;
                    assert(neighbors@[kk].spec_idx() == j);
                }
            }
        }
        if any {
            self.deduce(DeductionReason::CoordNeighbors { pos: coord, val });
        }
        Ok(())
    }
}

impl<T: DeductiveTracer> DeductiveReducer<T> {
    /// Eliminate every digit of `vals` from the three cells of sector-row
    /// `t`. Returns the set of digits removed from at least one cell.
    fn eliminate_set_in_srow(&mut self, t: usize, vals: AvailSet) -> (r: Result<AvailSet, ()>)
        requires
            old(self).inv(),
            t < 27,
            vals.wf(),
        ensures
            match r {
                Ok(removed) => removed.wf() && final(self).inv() && progressed(
                    old(self).remaining,
                    old(self).queue,
                    final(self).remaining,
                    final(self).queue,
                ),
                Err(e) => true,
            },
            (forall|ii: int, d: int|
                crate::zones::srow_cells(t as int).contains(ii) && vals.has(d)
                    ==> !old(self).remaining.cells()[ii].has(d)) ==> (r is Ok && *final(self)
                == *old(self)),
            forall|s: Seq<Option<Val>>|
                crate::board_solved(s) && #[trigger] crate::remaining::cells_admit(
                    old(self).remaining.cells(),
                    s,
                ) && (forall|ii: int|
                    crate::zones::srow_cells(t as int).contains(ii) ==> !vals.has(
                        #[trigger] crate::remaining::solution_digit(s, ii),
                    )) ==> (r is Ok && crate::remaining::cells_admit(
                    final(self).remaining.cells(),
                    s,
                )),
            r is Ok ==> forall|jj: int, d: int|
                0 <= jj < 81 && 1 <= d <= 9 ==> ((#[trigger] final(self).remaining.cells()[jj].has(
                    d,
                )) <==> old(self).remaining.cells()[jj].has(d) && !(crate::zones::srow_of(jj)
                    == t as int && vals.has(d))),
    {
        let base = (t / 3) * 9 + (t % 3) * 3;
        let mut removed = AvailSet::none();
        let mut j: usize = 0;
        while j < 3
            invariant
                old(self).inv(),
                t < 27,
                base == (t / 3) * 9 + (t % 3) * 3,
                base + 3 <= 81,
                vals.wf(),
                removed.wf(),
                j <= 3,
                self.inv(),
                progressed(old(self).remaining, old(self).queue, self.remaining, self.queue),
                (forall|ii: int, d: int|
                    crate::zones::srow_cells(t as int).contains(ii) && vals.has(d) ==> !old(
                        self,
                    ).remaining.cells()[ii].has(d)) ==> *self == *old(self),
                forall|s: Seq<Option<Val>>|
                    crate::board_solved(s) && #[trigger] crate::remaining::cells_admit(
                        old(self).remaining.cells(),
                        s,
                    ) && (forall|ii: int|
                        crate::zones::srow_cells(t as int).contains(ii) ==> !vals.has(
                            #[trigger] crate::remaining::solution_digit(s, ii),
                        )) ==> crate::remaining::cells_admit(self.remaining.cells(), s),
                forall|jj: int, d: int|
                    0 <= jj < 81 && 1 <= d <= 9 ==> ((#[trigger] self.remaining.cells()[jj].has(d))
                        <==> old(self).remaining.cells()[jj].has(d) && !(base as int <= jj < base
                        as int + j && vals.has(d))),
            decreases 3 - j,
        {
            proof {
                assert(crate::zones::srow_cells(t as int)[j as int] == base + j);
                assert(crate::zones::srow_cells(t as int).contains((base + j) as int));
            }
            let ghost pre_t = self.remaining;
            let ghost pre_q = self.queue;
            let part = match self.eliminate_set(base + j, vals) {
                Ok(p) => p,
                Err(e) => {
                    proof {
                        assert forall|s: Seq<Option<Val>>|
                            crate::board_solved(s) && #[trigger] crate::remaining::cells_admit(
                                old(self).remaining.cells(),
                                s,
                            ) && (forall|ii: int|
                                crate::zones::srow_cells(t as int).contains(ii) ==> !vals.has(
                                    #[trigger] crate::remaining::solution_digit(s, ii),
                                )) implies false by {
                            assert(crate::remaining::cells_admit(pre_t.cells(), s));
                            assert(!vals.has(
                                crate::remaining::solution_digit(s, (base + j) as int),
                            ));
                        }
                    }
                    return Err(e);
                },
            };
            proof {
                assert forall|s: Seq<Option<Val>>|
                    crate::board_solved(s) && #[trigger] crate::remaining::cells_admit(
                        old(self).remaining.cells(),
                        s,
                    ) && (forall|ii: int|
                        crate::zones::srow_cells(t as int).contains(ii) ==> !vals.has(
                            #[trigger] crate::remaining::solution_digit(s, ii),
                        )) implies crate::remaining::cells_admit(self.remaining.cells(), s) by {
                    assert(crate::remaining::cells_admit(pre_t.cells(), s));
                    assert(!vals.has(crate::remaining::solution_digit(s, (base + j) as int)));
                }
            }
            proof {
                lemma_progress_trans(
                    old(self).remaining,
                    old(self).queue,
                    pre_t,
                    pre_q,
                    self.remaining,
                    self.queue,
                );
            }
            removed = removed.union(part);
            j = j + 1;
        }
        proof {
            let t0 = t as int;
            let b0 = base as int;
            assert forall|jj: int, d: int|
                0 <= jj < 81 && 1 <= d <= 9 implies ((#[trigger] self.remaining.cells()[jj].has(d))
                <==> old(self).remaining.cells()[jj].has(d) && !(crate::zones::srow_of(jj) == t0
                && vals.has(d))) by {
                crate::zones::lemma_cell_decompose(jj);
                if b0 <= jj < b0 + 3 {
                    assert(crate::zones::row_of(jj) == t0 / 3);
                    assert(crate::zones::col_of(jj) / 3 == t0 % 3);
                    assert(crate::zones::srow_of(jj) == t0);
                }
                if crate::zones::srow_of(jj) == t0 {
                    assert(crate::zones::row_of(jj) == t0 / 3 && crate::zones::col_of(jj) / 3 == t0
                        % 3);
                    assert(b0 <= jj < b0 + 3);
                }
            }
        }
        Ok(removed)
    }

    /// Eliminate every digit of `vals` from the three cells of
    /// sector-column `t`. Returns the set of digits removed from at least
    /// one cell.
    fn eliminate_set_in_scol(&mut self, t: usize, vals: AvailSet) -> (r: Result<AvailSet, ()>)
        requires
            old(self).inv(),
            t < 27,
            vals.wf(),
        ensures
            match r {
                Ok(removed) => removed.wf() && final(self).inv() && progressed(
                    old(self).remaining,
                    old(self).queue,
                    final(self).remaining,
                    final(self).queue,
                ),
                Err(e) => true,
            },
            (forall|ii: int, d: int|
                crate::zones::scol_cells(t as int).contains(ii) && vals.has(d)
                    ==> !old(self).remaining.cells()[ii].has(d)) ==> (r is Ok && *final(self)
                == *old(self)),
            forall|s: Seq<Option<Val>>|
                crate::board_solved(s) && #[trigger] crate::remaining::cells_admit(
                    old(self).remaining.cells(),
                    s,
                ) && (forall|ii: int|
                    crate::zones::scol_cells(t as int).contains(ii) ==> !vals.has(
                        #[trigger] crate::remaining::solution_digit(s, ii),
                    )) ==> (r is Ok && crate::remaining::cells_admit(
                    final(self).remaining.cells(),
                    s,
                )),
            r is Ok ==> forall|jj: int, d: int|
                0 <= jj < 81 && 1 <= d <= 9 ==> ((#[trigger] final(self).remaining.cells()[jj].has(
                    d,
                )) <==> old(self).remaining.cells()[jj].has(d) && !(crate::zones::scol_of(jj)
                    == t as int && vals.has(d))),
    {
        let col = ((t / 3) % 3) * 3 + t % 3;
        let base_row = ((t / 3) / 3) * 3;
        let mut removed = AvailSet::none();
        let mut j: usize = 0;
        while j < 3
            invariant
                old(self).inv(),
                t < 27,
                col == ((t as int / 3) % 3) * 3 + t as int % 3,
                base_row == ((t as int / 3) / 3) * 3,
                col < 9,
                base_row <= 6,
                vals.wf(),
                removed.wf(),
                j <= 3,
                self.inv(),
                progressed(old(self).remaining, old(self).queue, self.remaining, self.queue),
                (forall|ii: int, d: int|
                    crate::zones::scol_cells(t as int).contains(ii) && vals.has(d) ==> !old(
                        self,
                    ).remaining.cells()[ii].has(d)) ==> *self == *old(self),
                forall|s: Seq<Option<Val>>|
                    crate::board_solved(s) && #[trigger] crate::remaining::cells_admit(
                        old(self).remaining.cells(),
                        s,
                    ) && (forall|ii: int|
                        crate::zones::scol_cells(t as int).contains(ii) ==> !vals.has(
                            #[trigger] crate::remaining::solution_digit(s, ii),
                        )) ==> crate::remaining::cells_admit(self.remaining.cells(), s),
                forall|jj: int, d: int|
                    0 <= jj < 81 && 1 <= d <= 9 ==> ((#[trigger] self.remaining.cells()[jj].has(d))
                        <==> old(self).remaining.cells()[jj].has(d) && !(jj % 9 == col as int
                        && base_row as int * 9 <= jj < (base_row + j) as int * 9 && vals.has(d))),
            decreases 3 - j,
        {
            proof {
                assert(crate::zones::scol_cells(t as int)[j as int] == (base_row + j) * 9 + col);
                assert(crate::zones::scol_cells(t as int).contains(((base_row + j) * 9 + col) as int));
            }
            let ghost pre_t = self.remaining;
            let ghost pre_q = self.queue;
            let part = match self.eliminate_set((base_row + j) * 9 + col, vals) {
                Ok(p) => p,
                Err(e) => {
                    proof {
                        assert forall|s: Seq<Option<Val>>|
                            crate::board_solved(s) && #[trigger] crate::remaining::cells_admit(
                                old(self).remaining.cells(),
                                s,
                            ) && (forall|ii: int|
                                crate::zones::scol_cells(t as int).contains(ii) ==> !vals.has(
                                    #[trigger] crate::remaining::solution_digit(s, ii),
                                )) implies false by {
                            assert(crate::remaining::cells_admit(pre_t.cells(), s));
                            assert(!vals.has(
                                crate::remaining::solution_digit(
                                    s,
                                    ((base_row + j) * 9 + col) as int,
                                ),
                            ));
                        }
                    }
                    return Err(e);
                },
            };
            proof {
                assert forall|s: Seq<Option<Val>>|
                    crate::board_solved(s) && #[trigger] crate::remaining::cells_admit(
                        old(self).remaining.cells(),
                        s,
                    ) && (forall|ii: int|
                        crate::zones::scol_cells(t as int).contains(ii) ==> !vals.has(
                            #[trigger] crate::remaining::solution_digit(s, ii),
                        )) implies crate::remaining::cells_admit(self.remaining.cells(), s) by {
                    assert(crate::remaining::cells_admit(pre_t.cells(), s));
                    assert(!vals.has(
                        crate::remaining::solution_digit(s, ((base_row + j) * 9 + col) as int),
                    ));
                }
            }
            proof {
                lemma_progress_trans(
                    old(self).remaining,
                    old(self).queue,
                    pre_t,
                    pre_q,
                    self.remaining,
                    self.queue,
                );
            }
            removed = removed.union(part);
            j = j + 1;
        }
        proof {
            let t0 = t as int;
            let c0 = col as int;
            let br = base_row as int;
            assert forall|jj: int, d: int|
                0 <= jj < 81 && 1 <= d <= 9 implies ((#[trigger] self.remaining.cells()[jj].has(d))
                <==> old(self).remaining.cells()[jj].has(d) && !(crate::zones::scol_of(jj) == t0
                && vals.has(d))) by {
                crate::zones::lemma_cell_decompose(jj);
                if jj % 9 == c0 && br * 9 <= jj < (br + 3) * 9 {
                    assert(br <= crate::zones::row_of(jj) < br + 3);
                    assert(crate::zones::row_of(jj) / 3 == (t0 / 3) / 3);
                    assert(crate::zones::col_of(jj) / 3 == (t0 / 3) % 3);
                    assert(crate::zones::sector_of(jj) == t0 / 3);
                    assert(crate::zones::col_of(jj) % 3 == t0 % 3);
                    assert(crate::zones::scol_of(jj) == t0);
                }
                if crate::zones::scol_of(jj) == t0 {
                    assert(crate::zones::sector_of(jj) == t0 / 3 && crate::zones::col_of(jj) % 3
                        == t0 % 3);
                    assert(crate::zones::row_of(jj) / 3 == (t0 / 3) / 3
                        && crate::zones::col_of(jj) / 3 == (t0 / 3) % 3);
                    assert(crate::zones::col_of(jj) == c0);
                    assert(br <= crate::zones::row_of(jj) < br + 3);
                    assert(jj % 9 == c0 && br * 9 <= jj < (br + 3) * 9);
                }
            }
        }
        Ok(removed)
    }

    /// Some digits have one cell left in row `z`: pin those cells down to
    /// them.
    #[verifier::rlimit(100)]
    #[verifier::spinoff_prover]
    fn row_vals_singularized(&mut self, z: usize) -> (r: Result<(), ()>)
        requires
            old(self).inv(),
            z < 9,
        ensures
            match r {
                Ok(u) => final(self).inv() && progressed(
                    old(self).remaining,
                    old(self).queue,
                    final(self).remaining,
                    final(self).queue,
                ),
                Err(e) => true,
            },
            solved_state(old(self).remaining) ==> (r is Ok && final(self).remaining == old(
                self,
            ).remaining),
            forall|s: Seq<Option<Val>>|
                crate::board_solved(s) && #[trigger] crate::remaining::cells_admit(
                    old(self).remaining.cells(),
                    s,
                ) ==> (r is Ok && crate::remaining::cells_admit(final(self).remaining.cells(), s)),
            r is Ok ==> forall|j: int, d: int|
                0 <= j < 81 && 1 <= d <= 9 ==> ((#[trigger] final(self).remaining.cells()[j].has(
                    d,
                )) <==> old(self).remaining.cells()[j].has(d) && !(crate::zones::row_of(j)
                    == z as int && row_home(old(self).remaining, z as int, j)
                    && old(self).remaining.rows_seq()[z as int].count_of(d) != 1)),
    {
        let singles = self.remaining.row_singles(z);
        let mut deduced = AvailSet::none();
        let mut k: usize = 0;
        while k < 9
            invariant
                old(self).inv(),
                z < 9,
                singles.wf(),
                forall|d: int|
                    #[trigger] singles.has(d) <==> 1 <= d <= 9 && old(
                        self,
                    ).remaining.rows_seq()[z as int].count_of(d) == 1,
                deduced.wf(),
                k <= 9,
                self.inv(),
                progressed(old(self).remaining, old(self).queue, self.remaining, self.queue),
                solved_state(old(self).remaining) ==> *self == *old(self),
                forall|s: Seq<Option<Val>>|
                    crate::board_solved(s) && #[trigger] crate::remaining::cells_admit(
                        old(self).remaining.cells(),
                        s,
                    ) ==> crate::remaining::cells_admit(self.remaining.cells(), s),
                forall|j: int, d: int|
                    0 <= j < 81 && 1 <= d <= 9 ==> ((#[trigger] self.remaining.cells()[j].has(d))
                        <==> old(self).remaining.cells()[j].has(d) && !(z as int * 9 <= j < z as int
                        * 9 + k && row_home(old(self).remaining, z as int, j)
                        && old(self).remaining.rows_seq()[z as int].count_of(d) != 1)),
            decreases 9 - k,
        {
            let ci = z * 9 + k;
            let ghost entry_t = self.remaining;
            let rem = self.remaining.cell(ci);
            let matches = rem.intersect(singles);
            proof {
                if solved_state(old(self).remaining) {
                    crate::lemma_solved_all_single(old(self).remaining);
                    assert(rem.count() == 1);
                    assert forall|d: int| #[trigger] matches.has(d) <==> rem.has(d) by {
                        if rem.has(d) {
                            assert(1 <= d <= 9);
                            assert(singles.has(d));
                        }
                    }
                    AvailSet::lemma_ext(matches, rem);
                }
            }
            if !matches.is_empty() {
                if !matches.is_single() {
                    proof {
                        crate::availset::AvailSet::lemma_count_facts(matches);
                        assert forall|s: Seq<Option<Val>>|
                            crate::board_solved(s) && #[trigger] crate::remaining::cells_admit(
                                old(self).remaining.cells(),
                                s,
                            ) implies false by {
                            crate::availset::lemma_members_exist(matches.mask());
                            let (m1, m2): (int, int) = choose|m1: int, m2: int|
                                m1 != m2 && #[trigger] crate::availset::digit_in(matches.mask(), m1)
                                    && #[trigger] crate::availset::digit_in(matches.mask(), m2);
                            assert(matches.has(m1) && matches.has(m2));
                            assert(crate::zones::row_of(ci as int) == z);
                            lemma_unique_home_row(old(self).remaining, s, z as int, m1, ci as int);
                            lemma_unique_home_row(old(self).remaining, s, z as int, m2, ci as int);
                        }
                    }
                    self.fail(
                        UnsolveableReason::RowValsMustShare { pos: Row::from_idx(z), vals: matches },
                    );
                    return Err(());
                }
                let others = rem.difference(singles);
                proof {
                    assert forall|s: Seq<Option<Val>>|
                        crate::board_solved(s) && #[trigger] crate::remaining::cells_admit(
                            old(self).remaining.cells(),
                            s,
                        ) implies !others.has(
                        crate::remaining::solution_digit(s, ci as int),
                    ) by {
                        crate::availset::AvailSet::lemma_count_facts(matches);
                        crate::availset::lemma_members_exist(matches.mask());
                        let m = choose|m: int| #[trigger] crate::availset::digit_in(matches.mask(), m);
                        assert(matches.has(m));
                        assert(crate::zones::row_of(ci as int) == z);
                        lemma_unique_home_row(old(self).remaining, s, z as int, m, ci as int);
                        assert(crate::remaining::solution_digit(s, ci as int) == m);
                        assert(singles.has(m));
                    }
                }
                proof {
                    if solved_state(old(self).remaining) {
                        assert forall|d: int| !(#[trigger] others.has(d)) by {
                            if others.has(d) {
                                assert(rem.has(d) && 1 <= d <= 9);
                                assert(singles.has(d));
                            }
                        }
                    }
                }
                let ghost pre_t = self.remaining;
                let ghost pre_q = self.queue;
                let el = match self.eliminate_set(ci, others) {
                    Ok(e) => e,
                    Err(e) => {
                        proof {
                            assert forall|s: Seq<Option<Val>>|
                                crate::board_solved(s) && #[trigger] crate::remaining::cells_admit(
                                    old(self).remaining.cells(),
                                    s,
                                ) implies false by {
                                assert(crate::remaining::cells_admit(pre_t.cells(), s));
                            }
                        }
                        return Err(e);
                    },
                };
                proof {
                    lemma_progress_trans(
                        old(self).remaining,
                        old(self).queue,
                        pre_t,
                        pre_q,
                        self.remaining,
                        self.queue,
                    );
                    assert forall|s: Seq<Option<Val>>|
                        crate::board_solved(s) && #[trigger] crate::remaining::cells_admit(
                            old(self).remaining.cells(),
                            s,
                        ) implies crate::remaining::cells_admit(self.remaining.cells(), s) by {
                        assert(crate::remaining::cells_admit(pre_t.cells(), s));
                    }
                }
                if !el.is_empty() {
                    deduced = deduced.union(matches);
                }
            }
            proof {
                let ci0 = ci as int;
                assert forall|j: int, d: int|
                    0 <= j < 81 && 1 <= d <= 9 implies ((#[trigger] self.remaining.cells()[j].has(
                    d)) <==> old(self).remaining.cells()[j].has(d) && !(z as int * 9 <= j < z as int
                    * 9 + (k + 1) && row_home(old(self).remaining, z as int, j)
                    && old(self).remaining.rows_seq()[z as int].count_of(d) != 1)) by {
                    if j == ci0 {
                        assert forall|d2: int|
                            1 <= d2 <= 9 implies (rem.has(d2) <==> old(
                            self,
                        ).remaining.cells()[ci0].has(d2)) by {
                            assert(entry_t.cells()[ci0].has(d2) <==> old(
                                self,
                            ).remaining.cells()[ci0].has(d2));
                        }
                        if row_home(old(self).remaining, z as int, j) {
                            let d0 = choose|d0: int|
                                1 <= d0 <= 9 && old(self).remaining.cells()[j].has(d0)
                                    && #[trigger] old(self).remaining.rows_seq()[z as int].count_of(
                                    d0,
                                ) == 1;
                            assert(rem.has(d0));
                            assert(singles.has(d0));
                            assert(matches.has(d0));
                            assert(z as int * 9 <= j < z as int * 9 + (k + 1));
                            assert(entry_t.cells()[ci0].has(d) <==> old(
                                self,
                            ).remaining.cells()[ci0].has(d));
                            assert(self.remaining.cells()[ci0].has(d) ==> entry_t.cells()[ci0].has(
                                d,
                            ) && singles.has(d));
                            assert(entry_t.cells()[ci0].has(d) && singles.has(d)
                                ==> self.remaining.cells()[ci0].has(d));
                        } else {
                            assert forall|d2: int| 1 <= d2 <= 9 implies !matches.has(d2) by {
                                if matches.has(d2) {
                                    assert(old(self).remaining.cells()[j].has(d2));
                                    assert(old(self).remaining.rows_seq()[z as int].count_of(d2)
                                        == 1);
                                }
                            }
                        }
                    }
                }
            }
            k = k + 1;
        }
        proof {
            assert forall|j: int, d: int|
                0 <= j < 81 && 1 <= d <= 9 implies ((#[trigger] self.remaining.cells()[j].has(d))
                <==> old(self).remaining.cells()[j].has(d) && !(crate::zones::row_of(j) == z as int
                && row_home(old(self).remaining, z as int, j)
                && old(self).remaining.rows_seq()[z as int].count_of(d) != 1)) by {
                crate::zones::lemma_cell_decompose(j);
            }
        }
        if !deduced.is_empty() {
            self.deduce(DeductionReason::UniqueInRow { pos: Row::from_idx(z), vals: deduced });
        }
        Ok(())
    }

    /// Some digits have one cell left in column `z`: pin those cells down
    /// to them.
    #[verifier::rlimit(60)]
    #[verifier::spinoff_prover]
    fn col_vals_singularized(&mut self, z: usize) -> (r: Result<(), ()>)
        requires
            old(self).inv(),
            z < 9,
        ensures
            match r {
                Ok(u) => final(self).inv() && progressed(
                    old(self).remaining,
                    old(self).queue,
                    final(self).remaining,
                    final(self).queue,
                ),
                Err(e) => true,
            },
            solved_state(old(self).remaining) ==> (r is Ok && final(self).remaining == old(
                self,
            ).remaining),
            forall|s: Seq<Option<Val>>|
                crate::board_solved(s) && #[trigger] crate::remaining::cells_admit(
                    old(self).remaining.cells(),
                    s,
                ) ==> (r is Ok && crate::remaining::cells_admit(final(self).remaining.cells(), s)),
            r is Ok ==> forall|j: int, d: int|
                0 <= j < 81 && 1 <= d <= 9 ==> ((#[trigger] final(self).remaining.cells()[j].has(
                    d,
                )) <==> old(self).remaining.cells()[j].has(d) && !(crate::zones::col_of(j)
                    == z as int && col_home(old(self).remaining, z as int, j)
                    && old(self).remaining.cols_seq()[z as int].count_of(d) != 1)),
    {
        let singles = self.remaining.col_singles(z);
        let mut deduced = AvailSet::none();
        let mut k: usize = 0;
        while k < 9
            invariant
                old(self).inv(),
                z < 9,
                singles.wf(),
                forall|d: int|
                    #[trigger] singles.has(d) <==> 1 <= d <= 9 && old(
                        self,
                    ).remaining.cols_seq()[z as int].count_of(d) == 1,
                deduced.wf(),
                k <= 9,
                self.inv(),
                progressed(old(self).remaining, old(self).queue, self.remaining, self.queue),
                solved_state(old(self).remaining) ==> *self == *old(self),
                forall|s: Seq<Option<Val>>|
                    crate::board_solved(s) && #[trigger] crate::remaining::cells_admit(
                        old(self).remaining.cells(),
                        s,
                    ) ==> crate::remaining::cells_admit(self.remaining.cells(), s),
                forall|j: int, d: int|
                    0 <= j < 81 && 1 <= d <= 9 ==> ((#[trigger] self.remaining.cells()[j].has(d))
                        <==> old(self).remaining.cells()[j].has(d) && !(j % 9 == z as int && j < k
                        as int * 9 && col_home(old(self).remaining, z as int, j)
                        && old(self).remaining.cols_seq()[z as int].count_of(d) != 1)),
            decreases 9 - k,
        {
            let ci = k * 9 + z;
            let ghost entry_t = self.remaining;
            let rem = self.remaining.cell(ci);
            let matches = rem.intersect(singles);
            proof {
                if solved_state(old(self).remaining) {
                    crate::lemma_solved_all_single(old(self).remaining);
                    assert(rem.count() == 1);
                    assert forall|d: int| #[trigger] matches.has(d) <==> rem.has(d) by {
                        if rem.has(d) {
                            assert(1 <= d <= 9);
                            assert(singles.has(d));
                        }
                    }
                    AvailSet::lemma_ext(matches, rem);
                }
            }
            if !matches.is_empty() {
                if !matches.is_single() {
                    proof {
                        crate::availset::AvailSet::lemma_count_facts(matches);
                        assert forall|s: Seq<Option<Val>>|
                            crate::board_solved(s) && #[trigger] crate::remaining::cells_admit(
                                old(self).remaining.cells(),
                                s,
                            ) implies false by {
                            crate::availset::lemma_members_exist(matches.mask());
                            let (m1, m2): (int, int) = choose|m1: int, m2: int|
                                m1 != m2 && #[trigger] crate::availset::digit_in(matches.mask(), m1)
                                    && #[trigger] crate::availset::digit_in(matches.mask(), m2);
                            assert(matches.has(m1) && matches.has(m2));
                            assert(crate::zones::col_of(ci as int) == z);
                            lemma_unique_home_col(old(self).remaining, s, z as int, m1, ci as int);
                            lemma_unique_home_col(old(self).remaining, s, z as int, m2, ci as int);
                        }
                    }
                    self.fail(
                        UnsolveableReason::ColValsMustShare { pos: Col::from_idx(z), vals: matches },
                    );
                    return Err(());
                }
                let others = rem.difference(singles);
                proof {
                    assert forall|s: Seq<Option<Val>>|
                        crate::board_solved(s) && #[trigger] crate::remaining::cells_admit(
                            old(self).remaining.cells(),
                            s,
                        ) implies !others.has(
                        crate::remaining::solution_digit(s, ci as int),
                    ) by {
                        crate::availset::AvailSet::lemma_count_facts(matches);
                        crate::availset::lemma_members_exist(matches.mask());
                        let m = choose|m: int| #[trigger] crate::availset::digit_in(matches.mask(), m);
                        assert(matches.has(m));
                        assert(crate::zones::col_of(ci as int) == z);
                        lemma_unique_home_col(old(self).remaining, s, z as int, m, ci as int);
                        assert(crate::remaining::solution_digit(s, ci as int) == m);
                        assert(singles.has(m));
                    }
                }
                proof {
                    if solved_state(old(self).remaining) {
                        assert forall|d: int| !(#[trigger] others.has(d)) by {
                            if others.has(d) {
                                assert(rem.has(d) && 1 <= d <= 9);
                                assert(singles.has(d));
                            }
                        }
                    }
                }
                let ghost pre_t = self.remaining;
                let ghost pre_q = self.queue;
                let el = match self.eliminate_set(ci, others) {
                    Ok(e) => e,
                    Err(e) => {
                        proof {
                            assert forall|s: Seq<Option<Val>>|
                                crate::board_solved(s) && #[trigger] crate::remaining::cells_admit(
                                    old(self).remaining.cells(),
                                    s,
                                ) implies false by {
                                assert(crate::remaining::cells_admit(pre_t.cells(), s));
                            }
                        }
                        return Err(e);
                    },
                };
                proof {
                    lemma_progress_trans(
                        old(self).remaining,
                        old(self).queue,
                        pre_t,
                        pre_q,
                        self.remaining,
                        self.queue,
                    );
                    assert forall|s: Seq<Option<Val>>|
                        crate::board_solved(s) && #[trigger] crate::remaining::cells_admit(
                            old(self).remaining.cells(),
                            s,
                        ) implies crate::remaining::cells_admit(self.remaining.cells(), s) by {
                        assert(crate::remaining::cells_admit(pre_t.cells(), s));
                    }
                }
                if !el.is_empty() {
                    deduced = deduced.union(matches);
                }
            }
            proof {
                let ci0 = ci as int;
                assert forall|j: int, d: int|
                    0 <= j < 81 && 1 <= d <= 9 implies ((#[trigger] self.remaining.cells()[j].has(
                    d)) <==> old(self).remaining.cells()[j].has(d) && !(j % 9 == z as int && j < (k
                    + 1) as int * 9 && col_home(old(self).remaining, z as int, j)
                    && old(self).remaining.cols_seq()[z as int].count_of(d) != 1)) by {
                    if j == ci0 {
                        assert forall|d2: int|
                            1 <= d2 <= 9 implies (rem.has(d2) <==> old(
                            self,
                        ).remaining.cells()[ci0].has(d2)) by {
                            assert(entry_t.cells()[ci0].has(d2) <==> old(
                                self,
                            ).remaining.cells()[ci0].has(d2));
                        }
                        if col_home(old(self).remaining, z as int, j) {
                            let d0 = choose|d0: int|
                                1 <= d0 <= 9 && old(self).remaining.cells()[j].has(d0)
                                    && #[trigger] old(self).remaining.cols_seq()[z as int].count_of(
                                    d0,
                                ) == 1;
                            assert(rem.has(d0));
                            assert(singles.has(d0));
                            assert(matches.has(d0));
                            assert(j % 9 == z as int && j < (k + 1) as int * 9);
                            assert(entry_t.cells()[ci0].has(d) <==> old(
                                self,
                            ).remaining.cells()[ci0].has(d));
                            assert(self.remaining.cells()[ci0].has(d) ==> entry_t.cells()[ci0].has(
                                d,
                            ) && singles.has(d));
                            assert(entry_t.cells()[ci0].has(d) && singles.has(d)
                                ==> self.remaining.cells()[ci0].has(d));
                        } else {
                            assert forall|d2: int| 1 <= d2 <= 9 implies !matches.has(d2) by {
                                if matches.has(d2) {
                                    assert(old(self).remaining.cells()[j].has(d2));
                                    assert(old(self).remaining.cols_seq()[z as int].count_of(d2)
                                        == 1);
                                }
                            }
                        }
                    } else {
                        if j % 9 == z as int && j < (k + 1) as int * 9 && j != ci0 {
                            assert(j < k as int * 9);
                        }
                    }
                }
            }
            k = k + 1;
        }
        proof {
            assert forall|j: int, d: int|
                0 <= j < 81 && 1 <= d <= 9 implies ((#[trigger] self.remaining.cells()[j].has(d))
                <==> old(self).remaining.cells()[j].has(d) && !(crate::zones::col_of(j) == z as int
                && col_home(old(self).remaining, z as int, j)
                && old(self).remaining.cols_seq()[z as int].count_of(d) != 1)) by {
            }
        }
        if !deduced.is_empty() {
            self.deduce(DeductionReason::UniqueInCol { pos: Col::from_idx(z), vals: deduced });
        }
        Ok(())
    }

    /// Some digits have one cell left in sector `z`: pin those cells down
    /// to them.
    #[verifier::rlimit(60)]
    #[verifier::spinoff_prover]
    fn sec_vals_singularized(&mut self, z: usize) -> (r: Result<(), ()>)
        requires
            old(self).inv(),
            z < 9,
        ensures
            match r {
                Ok(u) => final(self).inv() && progressed(
                    old(self).remaining,
                    old(self).queue,
                    final(self).remaining,
                    final(self).queue,
                ),
                Err(e) => true,
            },
            solved_state(old(self).remaining) ==> (r is Ok && final(self).remaining == old(
                self,
            ).remaining),
            forall|s: Seq<Option<Val>>|
                crate::board_solved(s) && #[trigger] crate::remaining::cells_admit(
                    old(self).remaining.cells(),
                    s,
                ) ==> (r is Ok && crate::remaining::cells_admit(final(self).remaining.cells(), s)),
            r is Ok ==> forall|j: int, d: int|
                0 <= j < 81 && 1 <= d <= 9 ==> ((#[trigger] final(self).remaining.cells()[j].has(
                    d,
                )) <==> old(self).remaining.cells()[j].has(d) && !(crate::zones::sector_of(j)
                    == z as int && sector_home(old(self).remaining, z as int, j)
                    && old(self).remaining.sectors_seq()[z as int].count_of(d) != 1)),
    {
        let singles = self.remaining.sector_singles(z);
        let mut deduced = AvailSet::none();
        let mut k: usize = 0;
        while k < 9
            invariant
                old(self).inv(),
                z < 9,
                singles.wf(),
                forall|d: int|
                    #[trigger] singles.has(d) <==> 1 <= d <= 9 && old(
                        self,
                    ).remaining.sectors_seq()[z as int].count_of(d) == 1,
                deduced.wf(),
                k <= 9,
                self.inv(),
                progressed(old(self).remaining, old(self).queue, self.remaining, self.queue),
                solved_state(old(self).remaining) ==> *self == *old(self),
                forall|s: Seq<Option<Val>>|
                    crate::board_solved(s) && #[trigger] crate::remaining::cells_admit(
                        old(self).remaining.cells(),
                        s,
                    ) ==> crate::remaining::cells_admit(self.remaining.cells(), s),
                forall|j: int, d: int|
                    0 <= j < 81 && 1 <= d <= 9 ==> ((#[trigger] self.remaining.cells()[j].has(d))
                        <==> old(self).remaining.cells()[j].has(d) && !(crate::zones::sector_of(j)
                        == z as int && (crate::zones::row_of(j) % 3) * 3 + crate::zones::col_of(j)
                        % 3 < k as int && sector_home(old(self).remaining, z as int, j)
                        && old(self).remaining.sectors_seq()[z as int].count_of(d) != 1)),
            decreases 9 - k,
        {
            let ci = ((z / 3) * 3 + k / 3) * 9 + (z % 3) * 3 + k % 3;
            assert(ci < 81);
            let ghost entry_t = self.remaining;
            let rem = self.remaining.cell(ci);
            let matches = rem.intersect(singles);
            proof {
                if solved_state(old(self).remaining) {
                    crate::lemma_solved_all_single(old(self).remaining);
                    assert(rem.count() == 1);
                    assert forall|d: int| #[trigger] matches.has(d) <==> rem.has(d) by {
                        if rem.has(d) {
                            assert(1 <= d <= 9);
                            assert(singles.has(d));
                        }
                    }
                    AvailSet::lemma_ext(matches, rem);
                }
            }
            if !matches.is_empty() {
                if !matches.is_single() {
                    proof {
                        crate::availset::AvailSet::lemma_count_facts(matches);
                        assert forall|s: Seq<Option<Val>>|
                            crate::board_solved(s) && #[trigger] crate::remaining::cells_admit(
                                old(self).remaining.cells(),
                                s,
                            ) implies false by {
                            crate::availset::lemma_members_exist(matches.mask());
                            let (m1, m2): (int, int) = choose|m1: int, m2: int|
                                m1 != m2 && #[trigger] crate::availset::digit_in(matches.mask(), m1)
                                    && #[trigger] crate::availset::digit_in(matches.mask(), m2);
                            assert(matches.has(m1) && matches.has(m2));
                            assert(crate::zones::sector_of(ci as int) == z);
                            lemma_unique_home_sector(old(self).remaining, s, z as int, m1, ci as int);
                            lemma_unique_home_sector(old(self).remaining, s, z as int, m2, ci as int);
                        }
                    }
                    self.fail(
                        UnsolveableReason::SecValsMustShare {
                            pos: Sector::from_idx(z),
                            vals: matches,
                        },
                    );
                    return Err(());
                }
                let others = rem.difference(singles);
                proof {
                    assert forall|s: Seq<Option<Val>>|
                        crate::board_solved(s) && #[trigger] crate::remaining::cells_admit(
                            old(self).remaining.cells(),
                            s,
                        ) implies !others.has(
                        crate::remaining::solution_digit(s, ci as int),
                    ) by {
                        crate::availset::AvailSet::lemma_count_facts(matches);
                        crate::availset::lemma_members_exist(matches.mask());
                        let m = choose|m: int| #[trigger] crate::availset::digit_in(matches.mask(), m);
                        assert(matches.has(m));
                        assert(crate::zones::sector_of(ci as int) == z);
                        lemma_unique_home_sector(old(self).remaining, s, z as int, m, ci as int);
                        assert(crate::remaining::solution_digit(s, ci as int) == m);
                        assert(singles.has(m));
                    }
                }
                proof {
                    if solved_state(old(self).remaining) {
                        assert forall|d: int| !(#[trigger] others.has(d)) by {
                            if others.has(d) {
                                assert(rem.has(d) && 1 <= d <= 9);
                                assert(singles.has(d));
                            }
                        }
                    }
                }
                let ghost pre_t = self.remaining;
                let ghost pre_q = self.queue;
                let el = match self.eliminate_set(ci, others) {
                    Ok(e) => e,
                    Err(e) => {
                        proof {
                            assert forall|s: Seq<Option<Val>>|
                                crate::board_solved(s) && #[trigger] crate::remaining::cells_admit(
                                    old(self).remaining.cells(),
                                    s,
                                ) implies false by {
                                assert(crate::remaining::cells_admit(pre_t.cells(), s));
                            }
                        }
                        return Err(e);
                    },
                };
                proof {
                    lemma_progress_trans(
                        old(self).remaining,
                        old(self).queue,
                        pre_t,
                        pre_q,
                        self.remaining,
                        self.queue,
                    );
                    assert forall|s: Seq<Option<Val>>|
                        crate::board_solved(s) && #[trigger] crate::remaining::cells_admit(
                            old(self).remaining.cells(),
                            s,
                        ) implies crate::remaining::cells_admit(self.remaining.cells(), s) by {
                        assert(crate::remaining::cells_admit(pre_t.cells(), s));
                    }
                }
                if !el.is_empty() {
                    deduced = deduced.union(matches);
                }
            }
            proof {
                let ci0 = ci as int;
                let z0 = z as int;
                let k0 = k as int;
                assert(crate::zones::row_of(ci0) == (z0 / 3) * 3 + k0 / 3);
                assert(crate::zones::col_of(ci0) == (z0 % 3) * 3 + k0 % 3);
                assert(crate::zones::sector_of(ci0) == z0);
                assert((crate::zones::row_of(ci0) % 3) * 3 + crate::zones::col_of(ci0) % 3 == k0);
                assert forall|j: int, d: int|
                    0 <= j < 81 && 1 <= d <= 9 implies ((#[trigger] self.remaining.cells()[j].has(
                    d)) <==> old(self).remaining.cells()[j].has(d) && !(crate::zones::sector_of(j)
                    == z0 && (crate::zones::row_of(j) % 3) * 3 + crate::zones::col_of(j) % 3 < k0
                    + 1 && sector_home(old(self).remaining, z0, j)
                    && old(self).remaining.sectors_seq()[z0].count_of(d) != 1)) by {
                    if j == ci0 {
                        assert forall|d2: int|
                            1 <= d2 <= 9 implies (rem.has(d2) <==> old(
                            self,
                        ).remaining.cells()[ci0].has(d2)) by {
                            assert(entry_t.cells()[ci0].has(d2) <==> old(
                                self,
                            ).remaining.cells()[ci0].has(d2));
                        }
                        if sector_home(old(self).remaining, z0, j) {
                            let d0 = choose|d0: int|
                                1 <= d0 <= 9 && old(self).remaining.cells()[j].has(d0)
                                    && #[trigger] old(
                                    self,
                                ).remaining.sectors_seq()[z0].count_of(d0) == 1;
                            assert(rem.has(d0));
                            assert(singles.has(d0));
                            assert(matches.has(d0));
                            assert(entry_t.cells()[ci0].has(d) <==> old(
                                self,
                            ).remaining.cells()[ci0].has(d));
                            assert(self.remaining.cells()[ci0].has(d) ==> entry_t.cells()[ci0].has(
                                d,
                            ) && singles.has(d));
                            assert(entry_t.cells()[ci0].has(d) && singles.has(d)
                                ==> self.remaining.cells()[ci0].has(d));
                        } else {
                            assert forall|d2: int| 1 <= d2 <= 9 implies !matches.has(d2) by {
                                if matches.has(d2) {
                                    assert(old(self).remaining.cells()[j].has(d2));
                                    assert(old(self).remaining.sectors_seq()[z0].count_of(d2)
                                        == 1);
                                }
                            }
                        }
                    } else {
                        if crate::zones::sector_of(j) == z0 && (crate::zones::row_of(j) % 3) * 3
                            + crate::zones::col_of(j) % 3 < k0 + 1 {
                            crate::zones::lemma_cell_decompose(j);
                            if (crate::zones::row_of(j) % 3) * 3 + crate::zones::col_of(j) % 3
                                == k0 {
                                assert(crate::zones::row_of(j) % 3 == k0 / 3
                                    && crate::zones::col_of(j) % 3 == k0 % 3);
                                assert(crate::zones::row_of(j) / 3 == z0 / 3
                                    && crate::zones::col_of(j) / 3 == z0 % 3);
                                assert(crate::zones::row_of(j) == (z0 / 3) * 3 + k0 / 3);
                                assert(crate::zones::col_of(j) == (z0 % 3) * 3 + k0 % 3);
                                assert(j == ci0);
                            }
                            assert((crate::zones::row_of(j) % 3) * 3 + crate::zones::col_of(j) % 3
                                < k0);
                        }
                    }
                }
            }
            k = k + 1;
        }
        proof {
            assert forall|j: int, d: int|
                0 <= j < 81 && 1 <= d <= 9 implies ((#[trigger] self.remaining.cells()[j].has(d))
                <==> old(self).remaining.cells()[j].has(d) && !(crate::zones::sector_of(j)
                == z as int && sector_home(old(self).remaining, z as int, j)
                && old(self).remaining.sectors_seq()[z as int].count_of(d) != 1)) by {
                assert((crate::zones::row_of(j) % 3) * 3 + crate::zones::col_of(j) % 3 < 9);
            }
        }
        if !deduced.is_empty() {
            self.deduce(
                DeductionReason::UniqueInSector { pos: Sector::from_idx(z), vals: deduced },
            );
        }
        Ok(())
    }

    /// Sector-row `t` holds exactly its three remaining digits: clear them
    /// from the rest of its row and of its sector.
    #[verifier::rlimit(60)]
    #[verifier::spinoff_prover]
    fn secrow_tripleized(&mut self, t: usize) -> (r: Result<(), ()>)
        requires
            old(self).inv(),
            t < 27,
        ensures
            match r {
                Ok(u) => final(self).inv() && progressed(
                    old(self).remaining,
                    old(self).queue,
                    final(self).remaining,
                    final(self).queue,
                ),
                Err(e) => true,
            },
            solved_state(old(self).remaining) ==> (r is Ok && final(self).remaining == old(
                self,
            ).remaining),
            forall|s: Seq<Option<Val>>|
                crate::board_solved(s) && #[trigger] crate::remaining::cells_admit(
                    old(self).remaining.cells(),
                    s,
                ) ==> (r is Ok && crate::remaining::cells_admit(final(self).remaining.cells(), s)),
            r is Ok ==> forall|j: int, d: int|
                0 <= j < 81 && 1 <= d <= 9 ==> ((#[trigger] final(self).remaining.cells()[j].has(
                    d,
                )) <==> old(self).remaining.cells()[j].has(d)
                    && !(crate::remaining::counter_avail_count(
                    old(self).remaining.srows_seq()[t as int],
                ) == 3 && old(self).remaining.srows_seq()[t as int].count_of(d) > 0
                    && srow_sibling(t as int, crate::zones::srow_of(j)))),
    {
        let vals = self.remaining.srow_avail(t);
        proof {
            crate::remaining::lemma_avail_set_count(
                vals,
                self.remaining.srows_seq()[t as int],
                9,
            );
        }
        if vals.len() != 3 {
            return Ok(());
        }
        let band = t % 3;
        let rowz = t / 3;
        let b0: usize = if band == 0 {
            1
        } else {
            0
        };
        let b1: usize = if band == 2 {
            1
        } else {
            2
        };
        let base_row = rowz - rowz % 3;
        let r0 = if base_row == rowz {
            base_row + 1
        } else {
            base_row
        };
        let r1 = if base_row + 2 == rowz {
            base_row + 1
        } else {
            base_row + 2
        };
        let neighbors: [usize; 4] = [rowz * 3 + b0, rowz * 3 + b1, r0 * 3 + band, r1 * 3 + band];
        let mut eliminated = AvailSet::none();
        let mut k: usize = 0;
        while k < 4
            invariant
                old(self).inv(),
                t < 27,
                vals.wf(),
                forall|d: int|
                    #[trigger] vals.has(d) <==> 1 <= d <= 9 && old(
                        self,
                    ).remaining.srows_seq()[t as int].count_of(d) > 0,
                eliminated.wf(),
                forall|j: int| 0 <= j < 4 ==> neighbors@[j] < 27,
                band == t as int % 3 && rowz == t as int / 3,
                b0 < 3 && b1 < 3 && b0 != band && b1 != band,
                r0 < 9 && r1 < 9 && r0 != rowz && r1 != rowz,
                r0 as int / 3 == rowz as int / 3 && r1 as int / 3 == rowz as int / 3,
                neighbors@[0] == rowz * 3 + b0 && neighbors@[1] == rowz * 3 + b1,
                neighbors@[2] == r0 * 3 + band && neighbors@[3] == r1 * 3 + band,
                vals.count() == 3,
                k <= 4,
                self.inv(),
                progressed(old(self).remaining, old(self).queue, self.remaining, self.queue),
                solved_state(old(self).remaining) ==> *self == *old(self),
                forall|s: Seq<Option<Val>>|
                    crate::board_solved(s) && #[trigger] crate::remaining::cells_admit(
                        old(self).remaining.cells(),
                        s,
                    ) ==> crate::remaining::cells_admit(self.remaining.cells(), s),
                forall|j: int, d: int|
                    0 <= j < 81 && 1 <= d <= 9 ==> ((#[trigger] self.remaining.cells()[j].has(d))
                        <==> old(self).remaining.cells()[j].has(d) && !(vals.has(d) && exists|
                        kk: int,
                    |
                        0 <= kk < k && crate::zones::srow_of(j) == (
                        #[trigger] neighbors@[kk]) as int)),
            decreases 4 - k,
        {
            proof {
                let nb = neighbors@[k as int] as int;
                let tt = t as int;
                assert(nb != tt && (nb / 3 == tt / 3 || ((tt / 3) / 3) * 3 + tt % 3 == ((nb / 3)
                    / 3) * 3 + nb % 3));
                if solved_state(old(self).remaining) {
                    assert forall|ii: int, d: int|
                        crate::zones::srow_cells(nb).contains(ii) && vals.has(d) implies !(
                        #[trigger] old(self).remaining.cells()[ii].has(d)) by {
                        assert(crate::zones::zone_count(
                            old(self).remaining.cells(),
                            crate::zones::srow_cells(tt),
                            d,
                        ) >= 1);
                        lemma_solved_srow_absent(old(self).remaining, tt, nb, ii, d);
                    }
                }
                assert forall|s: Seq<Option<Val>>|
                    crate::board_solved(s) && #[trigger] crate::remaining::cells_admit(
                        old(self).remaining.cells(),
                        s,
                    ) implies (forall|ii: int|
                    crate::zones::srow_cells(nb).contains(ii) ==> !vals.has(
                        #[trigger] crate::remaining::solution_digit(s, ii),
                    )) by {
                    assert forall|ii: int|
                        crate::zones::srow_cells(nb).contains(ii) implies !vals.has(
                        #[trigger] crate::remaining::solution_digit(s, ii),
                    ) by {
                        lemma_trip_srow_absent(old(self).remaining, s, tt, nb, ii, vals);
                    }
                }
            }
            let ghost pre_t = self.remaining;
            let ghost pre_q = self.queue;
            let part = match self.eliminate_set_in_srow(neighbors[k], vals) {
                Ok(p) => p,
                Err(e) => {
                    proof {
                        assert forall|s: Seq<Option<Val>>|
                            crate::board_solved(s) && #[trigger] crate::remaining::cells_admit(
                                old(self).remaining.cells(),
                                s,
                            ) implies false by {
                            assert(crate::remaining::cells_admit(pre_t.cells(), s));
                        }
                    }
                    return Err(e);
                },
            };
            proof {
                lemma_progress_trans(
                    old(self).remaining,
                    old(self).queue,
                    pre_t,
                    pre_q,
                    self.remaining,
                    self.queue,
                );
                assert forall|s: Seq<Option<Val>>|
                    crate::board_solved(s) && #[trigger] crate::remaining::cells_admit(
                        old(self).remaining.cells(),
                        s,
                    ) implies crate::remaining::cells_admit(self.remaining.cells(), s) by {
                    assert(crate::remaining::cells_admit(pre_t.cells(), s));
                }
            }
            proof {
                let kk0 = k as int;
                assert forall|j: int, d: int|
                    0 <= j < 81 && 1 <= d <= 9 implies ((#[trigger] self.remaining.cells()[j].has(
                    d)) <==> old(self).remaining.cells()[j].has(d) && !(vals.has(d) && exists|
                    kk: int,
                |
                    0 <= kk < kk0 + 1 && crate::zones::srow_of(j) == (
                    #[trigger] neighbors@[kk]) as int)) by {
                    if crate::zones::srow_of(j) == neighbors@[kk0] as int && vals.has(d) {
                        assert(0 <= kk0 < kk0 + 1 && crate::zones::srow_of(j) == (
                        #[trigger] neighbors@[kk0]) as int);
                    } else {
                        if exists|kk: int|
                            0 <= kk < kk0 + 1 && crate::zones::srow_of(j) == (
                            #[trigger] neighbors@[kk]) as int {
                            let kk = choose|kk: int|
                                0 <= kk < kk0 + 1 && crate::zones::srow_of(j) == (
                                #[trigger] neighbors@[kk]) as int;
                            if kk < kk0 {
                                assert(exists|kk2: int|
                                    0 <= kk2 < kk0 && crate::zones::srow_of(j) == (
                                    #[trigger] neighbors@[kk2]) as int);
                            }
                        }
                    }
                }
            }
            eliminated = eliminated.union(part);
            k = k + 1;
        }
        proof {
            let t0 = t as int;
            assert forall|j: int, d: int|
                0 <= j < 81 && 1 <= d <= 9 implies ((#[trigger] self.remaining.cells()[j].has(d))
                <==> old(self).remaining.cells()[j].has(d)
                && !(crate::remaining::counter_avail_count(old(self).remaining.srows_seq()[t0])
                == 3 && old(self).remaining.srows_seq()[t0].count_of(d) > 0 && srow_sibling(
                t0,
                crate::zones::srow_of(j),
            ))) by {
                crate::zones::lemma_cell_decompose(j);
                let nbp = crate::zones::srow_of(j);
                assert(0 <= nbp < 27);
                if exists|kk: int| 0 <= kk < 4 && nbp == (#[trigger] neighbors@[kk]) as int {
                    let kk = choose|kk: int|
                        0 <= kk < 4 && nbp == (#[trigger] neighbors@[kk]) as int;
                    assert(srow_sibling(t0, nbp));
                }
                if srow_sibling(t0, nbp) {
                    if nbp / 3 == t0 / 3 {
                        assert(nbp % 3 == b0 as int || nbp % 3 == b1 as int);
                        assert(nbp == (rowz * 3 + b0) as int || nbp == (rowz * 3 + b1) as int);
                        assert(nbp == neighbors@[0] as int || nbp == neighbors@[1] as int);
                        assert(exists|kk: int|
                            0 <= kk < 4 && nbp == (#[trigger] neighbors@[kk]) as int);
                    } else {
                        assert(nbp % 3 == band as int);
                        assert((nbp / 3) / 3 == rowz as int / 3);
                        assert(base_row as int == 3 * (rowz as int / 3));
                        assert(nbp / 3 == r0 as int || nbp / 3 == r1 as int);
                        assert(nbp == (r0 * 3 + band) as int || nbp == (r1 * 3 + band) as int);
                        assert(nbp == neighbors@[2] as int || nbp == neighbors@[3] as int);
                        assert(exists|kk: int|
                            0 <= kk < 4 && nbp == (#[trigger] neighbors@[kk]) as int);
                    }
                }
            }
        }
        if !eliminated.is_empty() {
            self.deduce(
                DeductionReason::SecRowTriple { pos: SectorRow::from_idx(t), vals: eliminated },
            );
        }
        Ok(())
    }

    /// Sector-column `t` holds exactly its three remaining digits: clear
    /// them from the rest of its column and of its sector.
    #[verifier::rlimit(60)]
    #[verifier::spinoff_prover]
    fn seccol_tripleized(&mut self, t: usize) -> (r: Result<(), ()>)
        requires
            old(self).inv(),
            t < 27,
        ensures
            match r {
                Ok(u) => final(self).inv() && progressed(
                    old(self).remaining,
                    old(self).queue,
                    final(self).remaining,
                    final(self).queue,
                ),
                Err(e) => true,
            },
            solved_state(old(self).remaining) ==> (r is Ok && final(self).remaining == old(
                self,
            ).remaining),
            forall|s: Seq<Option<Val>>|
                crate::board_solved(s) && #[trigger] crate::remaining::cells_admit(
                    old(self).remaining.cells(),
                    s,
                ) ==> (r is Ok && crate::remaining::cells_admit(final(self).remaining.cells(), s)),
            r is Ok ==> forall|j: int, d: int|
                0 <= j < 81 && 1 <= d <= 9 ==> ((#[trigger] final(self).remaining.cells()[j].has(
                    d,
                )) <==> old(self).remaining.cells()[j].has(d)
                    && !(crate::remaining::counter_avail_count(
                    old(self).remaining.scols_seq()[t as int],
                ) == 3 && old(self).remaining.scols_seq()[t as int].count_of(d) > 0
                    && scol_sibling(t as int, crate::zones::scol_of(j)))),
    {
        let vals = self.remaining.scol_avail(t);
        proof {
            crate::remaining::lemma_avail_set_count(
                vals,
                self.remaining.scols_seq()[t as int],
                9,
            );
        }
        if vals.len() != 3 {
            return Ok(());
        }
        let rel = t % 3;
        let sector = t / 3;
        let colband = sector / 3;
        let cb0: usize = if colband == 0 {
            1
        } else {
            0
        };
        let cb1: usize = if colband == 2 {
            1
        } else {
            2
        };
        let rel0: usize = if rel == 0 {
            1
        } else {
            0
        };
        let rel1: usize = if rel == 2 {
            1
        } else {
            2
        };
        let neighbors: [usize; 4] = [
            (cb0 * 3 + sector % 3) * 3 + rel,
            (cb1 * 3 + sector % 3) * 3 + rel,
            sector * 3 + rel0,
            sector * 3 + rel1,
        ];
        let mut eliminated = AvailSet::none();
        let mut k: usize = 0;
        while k < 4
            invariant
                old(self).inv(),
                t < 27,
                vals.wf(),
                forall|d: int|
                    #[trigger] vals.has(d) <==> 1 <= d <= 9 && old(
                        self,
                    ).remaining.scols_seq()[t as int].count_of(d) > 0,
                eliminated.wf(),
                forall|j: int| 0 <= j < 4 ==> neighbors@[j] < 27,
                rel == t as int % 3 && sector == t as int / 3 && colband == sector as int / 3,
                cb0 < 3 && cb1 < 3 && cb0 != colband && cb1 != colband,
                rel0 < 3 && rel1 < 3 && rel0 != rel && rel1 != rel,
                neighbors@[0] == (cb0 * 3 + sector % 3) * 3 + rel,
                neighbors@[1] == (cb1 * 3 + sector % 3) * 3 + rel,
                neighbors@[2] == sector * 3 + rel0 && neighbors@[3] == sector * 3 + rel1,
                vals.count() == 3,
                k <= 4,
                self.inv(),
                progressed(old(self).remaining, old(self).queue, self.remaining, self.queue),
                solved_state(old(self).remaining) ==> *self == *old(self),
                forall|s: Seq<Option<Val>>|
                    crate::board_solved(s) && #[trigger] crate::remaining::cells_admit(
                        old(self).remaining.cells(),
                        s,
                    ) ==> crate::remaining::cells_admit(self.remaining.cells(), s),
                forall|j: int, d: int|
                    0 <= j < 81 && 1 <= d <= 9 ==> ((#[trigger] self.remaining.cells()[j].has(d))
                        <==> old(self).remaining.cells()[j].has(d) && !(vals.has(d) && exists|
                        kk: int,
                    |
                        0 <= kk < k && crate::zones::scol_of(j) == (
                        #[trigger] neighbors@[kk]) as int)),
            decreases 4 - k,
        {
            proof {
                let nb = neighbors@[k as int] as int;
                let tt = t as int;
                assert(nb != tt && (((tt / 3) % 3) * 3 + tt % 3 == ((nb / 3) % 3) * 3 + nb % 3 || tt
                    / 3 == nb / 3));
                if solved_state(old(self).remaining) {
                    assert forall|ii: int, d: int|
                        crate::zones::scol_cells(nb).contains(ii) && vals.has(d) implies !(
                        #[trigger] old(self).remaining.cells()[ii].has(d)) by {
                        assert(crate::zones::zone_count(
                            old(self).remaining.cells(),
                            crate::zones::scol_cells(tt),
                            d,
                        ) >= 1);
                        lemma_solved_scol_absent(old(self).remaining, tt, nb, ii, d);
                    }
                }
                assert forall|s: Seq<Option<Val>>|
                    crate::board_solved(s) && #[trigger] crate::remaining::cells_admit(
                        old(self).remaining.cells(),
                        s,
                    ) implies (forall|ii: int|
                    crate::zones::scol_cells(nb).contains(ii) ==> !vals.has(
                        #[trigger] crate::remaining::solution_digit(s, ii),
                    )) by {
                    assert forall|ii: int|
                        crate::zones::scol_cells(nb).contains(ii) implies !vals.has(
                        #[trigger] crate::remaining::solution_digit(s, ii),
                    ) by {
                        lemma_trip_scol_absent(old(self).remaining, s, tt, nb, ii, vals);
                    }
                }
            }
            let ghost pre_t = self.remaining;
            let ghost pre_q = self.queue;
            let part = match self.eliminate_set_in_scol(neighbors[k], vals) {
                Ok(p) => p,
                Err(e) => {
                    proof {
                        assert forall|s: Seq<Option<Val>>|
                            crate::board_solved(s) && #[trigger] crate::remaining::cells_admit(
                                old(self).remaining.cells(),
                                s,
                            ) implies false by {
                            assert(crate::remaining::cells_admit(pre_t.cells(), s));
                        }
                    }
                    return Err(e);
                },
            };
            proof {
                lemma_progress_trans(
                    old(self).remaining,
                    old(self).queue,
                    pre_t,
                    pre_q,
                    self.remaining,
                    self.queue,
                );
                assert forall|s: Seq<Option<Val>>|
                    crate::board_solved(s) && #[trigger] crate::remaining::cells_admit(
                        old(self).remaining.cells(),
                        s,
                    ) implies crate::remaining::cells_admit(self.remaining.cells(), s) by {
                    assert(crate::remaining::cells_admit(pre_t.cells(), s));
                }
            }
            proof {
                let kk0 = k as int;
                assert forall|j: int, d: int|
                    0 <= j < 81 && 1 <= d <= 9 implies ((#[trigger] self.remaining.cells()[j].has(
                    d)) <==> old(self).remaining.cells()[j].has(d) && !(vals.has(d) && exists|
                    kk: int,
                |
                    0 <= kk < kk0 + 1 && crate::zones::scol_of(j) == (
                    #[trigger] neighbors@[kk]) as int)) by {
                    if crate::zones::scol_of(j) == neighbors@[kk0] as int && vals.has(d) {
                        assert(0 <= kk0 < kk0 + 1 && crate::zones::scol_of(j) == (
                        #[trigger] neighbors@[kk0]) as int);
                    } else {
                        if exists|kk: int|
                            0 <= kk < kk0 + 1 && crate::zones::scol_of(j) == (
                            #[trigger] neighbors@[kk]) as int {
                            let kk = choose|kk: int|
                                0 <= kk < kk0 + 1 && crate::zones::scol_of(j) == (
                                #[trigger] neighbors@[kk]) as int;
                            if kk < kk0 {
                                assert(exists|kk2: int|
                                    0 <= kk2 < kk0 && crate::zones::scol_of(j) == (
                                    #[trigger] neighbors@[kk2]) as int);
                            }
                        }
                    }
                }
            }
            eliminated = eliminated.union(part);
            k = k + 1;
        }
        proof {
            let t0 = t as int;
            assert forall|j: int, d: int|
                0 <= j < 81 && 1 <= d <= 9 implies ((#[trigger] self.remaining.cells()[j].has(d))
                <==> old(self).remaining.cells()[j].has(d)
                && !(crate::remaining::counter_avail_count(old(self).remaining.scols_seq()[t0])
                == 3 && old(self).remaining.scols_seq()[t0].count_of(d) > 0 && scol_sibling(
                t0,
                crate::zones::scol_of(j),
            ))) by {
                crate::zones::lemma_cell_decompose(j);
                let nbp = crate::zones::scol_of(j);
                assert(0 <= nbp < 27);
                if exists|kk: int| 0 <= kk < 4 && nbp == (#[trigger] neighbors@[kk]) as int {
                    let kk = choose|kk: int|
                        0 <= kk < 4 && nbp == (#[trigger] neighbors@[kk]) as int;
                    assert(scol_sibling(t0, nbp));
                }
                if scol_sibling(t0, nbp) {
                    if nbp / 3 == t0 / 3 {
                        assert(nbp % 3 == rel0 as int || nbp % 3 == rel1 as int);
                        assert(nbp == (sector * 3 + rel0) as int || nbp == (sector * 3
                            + rel1) as int);
                        assert(nbp == neighbors@[2] as int || nbp == neighbors@[3] as int);
                        assert(exists|kk: int|
                            0 <= kk < 4 && nbp == (#[trigger] neighbors@[kk]) as int);
                    } else {
                        assert(nbp % 3 == rel as int);
                        assert((nbp / 3) % 3 == sector as int % 3);
                        assert((nbp / 3) / 3 == cb0 as int || (nbp / 3) / 3 == cb1 as int);
                        assert(nbp / 3 == (cb0 * 3 + sector % 3) as int || nbp / 3 == (cb1 * 3
                            + sector % 3) as int);
                        assert(nbp == neighbors@[0] as int || nbp == neighbors@[1] as int);
                        assert(exists|kk: int|
                            0 <= kk < 4 && nbp == (#[trigger] neighbors@[kk]) as int);
                    }
                }
            }
        }
        if !eliminated.is_empty() {
            self.deduce(
                DeductionReason::SecColTriple { pos: SectorCol::from_idx(t), vals: eliminated },
            );
        }
        Ok(())
    }

    /// The digits of sector-row `t` whose count equals the count in the
    /// whole row.
    fn srow_row_confined(&self, t: usize) -> (r: AvailSet)
        requires
            self.remaining.wf(),
            t < 27,
        ensures
            r.wf(),
            forall|d: int|
                #[trigger] r.has(d) <==> 1 <= d <= 9 && self.remaining.srows_seq()[t as int].count_of(
                    d,
                ) == self.remaining.rows_seq()[t as int / 3].count_of(d),
    {
        let rowz = t / 3;
        let mut uniques = AvailSet::none();
        let mut dd: u8 = 1;
        while dd <= 9
            invariant
                self.remaining.wf(),
                t < 27,
                rowz == t / 3,
                rowz < 9,
                uniques.wf(),
                1 <= dd <= 10,
                forall|d: int|
                    #[trigger] uniques.has(d) <==> 1 <= d < dd && self.remaining.srows_seq()[t as int].count_of(
                        d,
                    ) == self.remaining.rows_seq()[t as int / 3].count_of(d),
            decreases 10 - dd,
        {
            let v = Val::new(dd);
            if self.remaining.srow_count_of(t, v) == self.remaining.row_count_of(rowz, v) {
                uniques.add(v);
            }
            dd = dd + 1;
        }
        uniques
    }

    /// The digits of sector-row `t` whose count equals the count in the
    /// whole sector.
    fn srow_sector_confined(&self, t: usize) -> (r: AvailSet)
        requires
            self.remaining.wf(),
            t < 27,
        ensures
            r.wf(),
            forall|d: int|
                #[trigger] r.has(d) <==> 1 <= d <= 9 && self.remaining.srows_seq()[t as int].count_of(
                    d,
                ) == self.remaining.sectors_seq()[((t as int / 3) / 3) * 3 + t as int % 3].count_of(
                    d,
                ),
    {
        let si = ((t / 3) / 3) * 3 + t % 3;
        let mut uniques = AvailSet::none();
        let mut dd: u8 = 1;
        while dd <= 9
            invariant
                self.remaining.wf(),
                t < 27,
                si == ((t as int / 3) / 3) * 3 + t as int % 3,
                si < 9,
                uniques.wf(),
                1 <= dd <= 10,
                forall|d: int|
                    #[trigger] uniques.has(d) <==> 1 <= d < dd
                        && self.remaining.srows_seq()[t as int].count_of(d)
                        == self.remaining.sectors_seq()[si as int].count_of(d),
            decreases 10 - dd,
        {
            let v = Val::new(dd);
            if self.remaining.srow_count_of(t, v) == self.remaining.sector_count_of(si, v) {
                uniques.add(v);
            }
            dd = dd + 1;
        }
        uniques
    }

    /// The digits of sector-column `t` whose count equals the count in the
    /// whole column.
    fn scol_col_confined(&self, t: usize) -> (r: AvailSet)
        requires
            self.remaining.wf(),
            t < 27,
        ensures
            r.wf(),
            forall|d: int|
                #[trigger] r.has(d) <==> 1 <= d <= 9 && self.remaining.scols_seq()[t as int].count_of(
                    d,
                ) == self.remaining.cols_seq()[((t as int / 3) % 3) * 3 + t as int % 3].count_of(d),
    {
        let col = ((t / 3) % 3) * 3 + t % 3;
        let mut uniques = AvailSet::none();
        let mut dd: u8 = 1;
        while dd <= 9
            invariant
                self.remaining.wf(),
                t < 27,
                col == ((t as int / 3) % 3) * 3 + t as int % 3,
                col < 9,
                uniques.wf(),
                1 <= dd <= 10,
                forall|d: int|
                    #[trigger] uniques.has(d) <==> 1 <= d < dd
                        && self.remaining.scols_seq()[t as int].count_of(d)
                        == self.remaining.cols_seq()[col as int].count_of(d),
            decreases 10 - dd,
        {
            let v = Val::new(dd);
            if self.remaining.scol_count_of(t, v) == self.remaining.col_count_of(col, v) {
                uniques.add(v);
            }
            dd = dd + 1;
        }
        uniques
    }

    /// The digits of sector-column `t` whose count equals the count in the
    /// whole sector.
    fn scol_sector_confined(&self, t: usize) -> (r: AvailSet)
        requires
            self.remaining.wf(),
            t < 27,
        ensures
            r.wf(),
            forall|d: int|
                #[trigger] r.has(d) <==> 1 <= d <= 9 && self.remaining.scols_seq()[t as int].count_of(
                    d,
                ) == self.remaining.sectors_seq()[t as int / 3].count_of(d),
    {
        let si = t / 3;
        let mut uniques = AvailSet::none();
        let mut dd: u8 = 1;
        while dd <= 9
            invariant
                self.remaining.wf(),
                t < 27,
                si == t as int / 3,
                si < 9,
                uniques.wf(),
                1 <= dd <= 10,
                forall|d: int|
                    #[trigger] uniques.has(d) <==> 1 <= d < dd
                        && self.remaining.scols_seq()[t as int].count_of(d)
                        == self.remaining.sectors_seq()[si as int].count_of(d),
            decreases 10 - dd,
        {
            let v = Val::new(dd);
            if self.remaining.scol_count_of(t, v) == self.remaining.sector_count_of(si, v) {
                uniques.add(v);
            }
            dd = dd + 1;
        }
        uniques
    }

    /// Sector-row `t` is the only place of its row for some digits: clear
    /// them from the rest of the sector.
    #[verifier::rlimit(60)]
    #[verifier::spinoff_prover]
    fn row_only_sec(&mut self, t: usize) -> (r: Result<(), ()>)
        requires
            old(self).inv(),
            t < 27,
        ensures
            match r {
                Ok(u) => final(self).inv() && progressed(
                    old(self).remaining,
                    old(self).queue,
                    final(self).remaining,
                    final(self).queue,
                ),
                Err(e) => true,
            },
            solved_state(old(self).remaining) ==> (r is Ok && final(self).remaining == old(
                self,
            ).remaining),
            forall|s: Seq<Option<Val>>|
                crate::board_solved(s) && #[trigger] crate::remaining::cells_admit(
                    old(self).remaining.cells(),
                    s,
                ) ==> (r is Ok && crate::remaining::cells_admit(final(self).remaining.cells(), s)),
            r is Ok ==> forall|j: int, d: int|
                0 <= j < 81 && 1 <= d <= 9 ==> ((#[trigger] final(self).remaining.cells()[j].has(
                    d,
                )) <==> old(self).remaining.cells()[j].has(d)
                    && !(old(self).remaining.srows_seq()[t as int].count_of(d) == old(
                    self,
                ).remaining.rows_seq()[t as int / 3].count_of(d) && srow_sector_mate(
                    t as int,
                    crate::zones::srow_of(j),
                ))),
    {
        let uniques = self.srow_row_confined(t);
        let band = t % 3;
        let rowz = t / 3;
        let base_row = rowz - rowz % 3;
        let r0 = if base_row == rowz {
            base_row + 1
        } else {
            base_row
        };
        let r1 = if base_row + 2 == rowz {
            base_row + 1
        } else {
            base_row + 2
        };
        proof {
            if solved_state(old(self).remaining) {
                let tt = t as int;
                let nb0 = (r0 * 3 + band) as int;
                let nb1 = (r1 * 3 + band) as int;
                assert forall|ii: int, d: int|
                    (crate::zones::srow_cells(nb0).contains(ii) || crate::zones::srow_cells(nb1).contains(ii))
                        && uniques.has(d) implies !(
                    #[trigger] old(self).remaining.cells()[ii].has(d)) by {
                    assert(old(self).remaining.srows_seq()[tt].count_of(d) == old(
                        self,
                    ).remaining.rows_seq()[tt / 3].count_of(d));
                    assert(old(self).remaining.rows_seq()[tt / 3].count_of(d) == 1);
                    assert(crate::zones::zone_count(
                        old(self).remaining.cells(),
                        crate::zones::srow_cells(tt),
                        d,
                    ) >= 1);
                    assert(nb0 != tt && ((tt / 3) / 3) * 3 + tt % 3 == ((nb0 / 3) / 3) * 3 + nb0
                        % 3);
                    assert(nb1 != tt && ((tt / 3) / 3) * 3 + tt % 3 == ((nb1 / 3) / 3) * 3 + nb1
                        % 3);
                    if crate::zones::srow_cells(nb0).contains(ii) {
                        lemma_solved_srow_absent(old(self).remaining, tt, nb0, ii, d);
                    } else {
                        lemma_solved_srow_absent(old(self).remaining, tt, nb1, ii, d);
                    }
                }
            }
        }
        proof {
            let tt = t as int;
            let nb0 = (r0 * 3 + band) as int;
            let nb1 = (r1 * 3 + band) as int;
            assert forall|s: Seq<Option<Val>>|
                crate::board_solved(s) && #[trigger] crate::remaining::cells_admit(
                    old(self).remaining.cells(),
                    s,
                ) implies ((forall|ii: int|
                crate::zones::srow_cells(nb0).contains(ii) ==> !uniques.has(
                    #[trigger] crate::remaining::solution_digit(s, ii),
                )) && (forall|ii: int|
                crate::zones::srow_cells(nb1).contains(ii) ==> !uniques.has(
                    #[trigger] crate::remaining::solution_digit(s, ii),
                ))) by {
                assert forall|ii: int|
                    (crate::zones::srow_cells(nb0).contains(ii) || crate::zones::srow_cells(nb1).contains(
                        ii,
                    )) implies !uniques.has(#[trigger] crate::remaining::solution_digit(s, ii)) by {
                    let d = crate::remaining::solution_digit(s, ii);
                    if uniques.has(d) {
                        if crate::zones::srow_cells(nb0).contains(ii) {
                            lemma_confined_row_absent(old(self).remaining, s, tt, nb0, ii, d);
                        } else {
                            lemma_confined_row_absent(old(self).remaining, s, tt, nb1, ii, d);
                        }
                    }
                }
            }
        }
        let ghost pre_t0 = self.remaining;
        let ghost pre_q0 = self.queue;
        let first = match self.eliminate_set_in_srow(r0 * 3 + band, uniques) {
            Ok(p) => p,
            Err(e) => {
                proof {
                    assert forall|s: Seq<Option<Val>>|
                        crate::board_solved(s) && #[trigger] crate::remaining::cells_admit(
                            old(self).remaining.cells(),
                            s,
                        ) implies false by {
                        assert(crate::remaining::cells_admit(pre_t0.cells(), s));
                    }
                }
                return Err(e);
            },
        };
        let ghost pre_t1 = self.remaining;
        let ghost pre_q1 = self.queue;
        let second = match self.eliminate_set_in_srow(r1 * 3 + band, uniques) {
            Ok(p) => p,
            Err(e) => {
                proof {
                    assert forall|s: Seq<Option<Val>>|
                        crate::board_solved(s) && #[trigger] crate::remaining::cells_admit(
                            old(self).remaining.cells(),
                            s,
                        ) implies false by {
                        assert(crate::remaining::cells_admit(pre_t0.cells(), s));
                        assert(crate::remaining::cells_admit(pre_t1.cells(), s));
                    }
                }
                return Err(e);
            },
        };
        proof {
            lemma_progress_trans(pre_t0, pre_q0, pre_t1, pre_q1, self.remaining, self.queue);
            assert forall|s: Seq<Option<Val>>|
                crate::board_solved(s) && #[trigger] crate::remaining::cells_admit(
                    old(self).remaining.cells(),
                    s,
                ) implies crate::remaining::cells_admit(self.remaining.cells(), s) by {
                assert(crate::remaining::cells_admit(pre_t0.cells(), s));
                assert(crate::remaining::cells_admit(pre_t1.cells(), s));
            }
        }
        proof {
            let t0 = t as int;
            let nb0 = (r0 * 3 + band) as int;
            let nb1 = (r1 * 3 + band) as int;
            assert forall|j: int, d: int|
                0 <= j < 81 && 1 <= d <= 9 implies ((#[trigger] self.remaining.cells()[j].has(d))
                <==> old(self).remaining.cells()[j].has(d)
                && !(old(self).remaining.srows_seq()[t0].count_of(d) == old(
                self,
            ).remaining.rows_seq()[t0 / 3].count_of(d) && srow_sector_mate(
                t0,
                crate::zones::srow_of(j),
            ))) by {
                crate::zones::lemma_cell_decompose(j);
                let nbp = crate::zones::srow_of(j);
                assert(0 <= nbp < 27);
                if srow_sector_mate(t0, nbp) {
                    assert(nbp % 3 == band as int);
                    assert((nbp / 3) / 3 == rowz as int / 3);
                    assert(base_row as int == 3 * (rowz as int / 3));
                    assert(nbp / 3 == r0 as int || nbp / 3 == r1 as int);
                    assert(nbp == nb0 || nbp == nb1);
                }
                if nbp == nb0 || nbp == nb1 {
                    assert(srow_sector_mate(t0, nbp));
                }
            }
        }
        let deduced = first.union(second);
        if !deduced.is_empty() {
            self.deduce(
                DeductionReason::RowOnlySec { pos: SectorRow::from_idx(t), vals: deduced },
            );
        }
        Ok(())
    }

    /// Sector-row `t` is the only place of its sector for some digits:
    /// clear them from the rest of the row.
    #[verifier::rlimit(60)]
    #[verifier::spinoff_prover]
    fn sec_only_row(&mut self, t: usize) -> (r: Result<(), ()>)
        requires
            old(self).inv(),
            t < 27,
        ensures
            match r {
                Ok(u) => final(self).inv() && progressed(
                    old(self).remaining,
                    old(self).queue,
                    final(self).remaining,
                    final(self).queue,
                ),
                Err(e) => true,
            },
            solved_state(old(self).remaining) ==> (r is Ok && final(self).remaining == old(
                self,
            ).remaining),
            forall|s: Seq<Option<Val>>|
                crate::board_solved(s) && #[trigger] crate::remaining::cells_admit(
                    old(self).remaining.cells(),
                    s,
                ) ==> (r is Ok && crate::remaining::cells_admit(final(self).remaining.cells(), s)),
            r is Ok ==> forall|j: int, d: int|
                0 <= j < 81 && 1 <= d <= 9 ==> ((#[trigger] final(self).remaining.cells()[j].has(
                    d,
                )) <==> old(self).remaining.cells()[j].has(d)
                    && !(old(self).remaining.srows_seq()[t as int].count_of(d) == old(
                    self,
                ).remaining.sectors_seq()[((t as int / 3) / 3) * 3 + t as int % 3].count_of(d)
                    && srow_row_mate(t as int, crate::zones::srow_of(j)))),
    {
        let uniques = self.srow_sector_confined(t);
        let band = t % 3;
        let rowz = t / 3;
        let b0: usize = if band == 0 {
            1
        } else {
            0
        };
        let b1: usize = if band == 2 {
            1
        } else {
            2
        };
        proof {
            if solved_state(old(self).remaining) {
                let tt = t as int;
                let nb0 = (rowz * 3 + b0) as int;
                let nb1 = (rowz * 3 + b1) as int;
                assert forall|ii: int, d: int|
                    (crate::zones::srow_cells(nb0).contains(ii) || crate::zones::srow_cells(nb1).contains(ii))
                        && uniques.has(d) implies !(
                    #[trigger] old(self).remaining.cells()[ii].has(d)) by {
                    assert(old(self).remaining.srows_seq()[tt].count_of(d) == old(
                        self,
                    ).remaining.sectors_seq()[((tt / 3) / 3) * 3 + tt % 3].count_of(d));
                    assert(old(self).remaining.sectors_seq()[((tt / 3) / 3) * 3 + tt
                        % 3].count_of(d) == 1);
                    assert(crate::zones::zone_count(
                        old(self).remaining.cells(),
                        crate::zones::srow_cells(tt),
                        d,
                    ) >= 1);
                    assert(nb0 != tt && nb0 / 3 == tt / 3);
                    assert(nb1 != tt && nb1 / 3 == tt / 3);
                    if crate::zones::srow_cells(nb0).contains(ii) {
                        lemma_solved_srow_absent(old(self).remaining, tt, nb0, ii, d);
                    } else {
                        lemma_solved_srow_absent(old(self).remaining, tt, nb1, ii, d);
                    }
                }
            }
        }
        proof {
            let tt = t as int;
            let nb0 = (rowz * 3 + b0) as int;
            let nb1 = (rowz * 3 + b1) as int;
            assert forall|s: Seq<Option<Val>>|
                crate::board_solved(s) && #[trigger] crate::remaining::cells_admit(
                    old(self).remaining.cells(),
                    s,
                ) implies ((forall|ii: int|
                crate::zones::srow_cells(nb0).contains(ii) ==> !uniques.has(
                    #[trigger] crate::remaining::solution_digit(s, ii),
                )) && (forall|ii: int|
                crate::zones::srow_cells(nb1).contains(ii) ==> !uniques.has(
                    #[trigger] crate::remaining::solution_digit(s, ii),
                ))) by {
                assert forall|ii: int|
                    (crate::zones::srow_cells(nb0).contains(ii) || crate::zones::srow_cells(nb1).contains(
                        ii,
                    )) implies !uniques.has(#[trigger] crate::remaining::solution_digit(s, ii)) by {
                    let d = crate::remaining::solution_digit(s, ii);
                    if uniques.has(d) {
                        if crate::zones::srow_cells(nb0).contains(ii) {
                            lemma_confined_sec_row_absent(old(self).remaining, s, tt, nb0, ii, d);
                        } else {
                            lemma_confined_sec_row_absent(old(self).remaining, s, tt, nb1, ii, d);
                        }
                    }
                }
            }
        }
        let ghost pre_t0 = self.remaining;
        let ghost pre_q0 = self.queue;
        let first = match self.eliminate_set_in_srow(rowz * 3 + b0, uniques) {
            Ok(p) => p,
            Err(e) => {
                proof {
                    assert forall|s: Seq<Option<Val>>|
                        crate::board_solved(s) && #[trigger] crate::remaining::cells_admit(
                            old(self).remaining.cells(),
                            s,
                        ) implies false by {
                        assert(crate::remaining::cells_admit(pre_t0.cells(), s));
                    }
                }
                return Err(e);
            },
        };
        let ghost pre_t1 = self.remaining;
        let ghost pre_q1 = self.queue;
        let second = match self.eliminate_set_in_srow(rowz * 3 + b1, uniques) {
            Ok(p) => p,
            Err(e) => {
                proof {
                    assert forall|s: Seq<Option<Val>>|
                        crate::board_solved(s) && #[trigger] crate::remaining::cells_admit(
                            old(self).remaining.cells(),
                            s,
                        ) implies false by {
                        assert(crate::remaining::cells_admit(pre_t0.cells(), s));
                        assert(crate::remaining::cells_admit(pre_t1.cells(), s));
                    }
                }
                return Err(e);
            },
        };
        proof {
            lemma_progress_trans(pre_t0, pre_q0, pre_t1, pre_q1, self.remaining, self.queue);
            assert forall|s: Seq<Option<Val>>|
                crate::board_solved(s) && #[trigger] crate::remaining::cells_admit(
                    old(self).remaining.cells(),
                    s,
                ) implies crate::remaining::cells_admit(self.remaining.cells(), s) by {
                assert(crate::remaining::cells_admit(pre_t0.cells(), s));
                assert(crate::remaining::cells_admit(pre_t1.cells(), s));
            }
        }
        proof {
            let t0 = t as int;
            let nb0 = (rowz * 3 + b0) as int;
            let nb1 = (rowz * 3 + b1) as int;
            assert forall|j: int, d: int|
                0 <= j < 81 && 1 <= d <= 9 implies ((#[trigger] self.remaining.cells()[j].has(d))
                <==> old(self).remaining.cells()[j].has(d)
                && !(old(self).remaining.srows_seq()[t0].count_of(d) == old(
                self,
            ).remaining.sectors_seq()[((t0 / 3) / 3) * 3 + t0 % 3].count_of(d) && srow_row_mate(
                t0,
                crate::zones::srow_of(j),
            ))) by {
                crate::zones::lemma_cell_decompose(j);
                let nbp = crate::zones::srow_of(j);
                assert(0 <= nbp < 27);
                if srow_row_mate(t0, nbp) {
                    assert(nbp / 3 == rowz as int);
                    assert(nbp % 3 == b0 as int || nbp % 3 == b1 as int);
                    assert(nbp == nb0 || nbp == nb1);
                }
                if nbp == nb0 || nbp == nb1 {
                    assert(srow_row_mate(t0, nbp));
                }
            }
        }
        let deduced = first.union(second);
        if !deduced.is_empty() {
            self.deduce(
                DeductionReason::SecOnlyRow { pos: SectorRow::from_idx(t), vals: deduced },
            );
        }
        Ok(())
    }

    /// Sector-column `t` is the only place of its column for some digits:
    /// clear them from the rest of the sector.
    #[verifier::rlimit(60)]
    #[verifier::spinoff_prover]
    fn col_only_sec(&mut self, t: usize) -> (r: Result<(), ()>)
        requires
            old(self).inv(),
            t < 27,
        ensures
            match r {
                Ok(u) => final(self).inv() && progressed(
                    old(self).remaining,
                    old(self).queue,
                    final(self).remaining,
                    final(self).queue,
                ),
                Err(e) => true,
            },
            solved_state(old(self).remaining) ==> (r is Ok && final(self).remaining == old(
                self,
            ).remaining),
            forall|s: Seq<Option<Val>>|
                crate::board_solved(s) && #[trigger] crate::remaining::cells_admit(
                    old(self).remaining.cells(),
                    s,
                ) ==> (r is Ok && crate::remaining::cells_admit(final(self).remaining.cells(), s)),
            r is Ok ==> forall|j: int, d: int|
                0 <= j < 81 && 1 <= d <= 9 ==> ((#[trigger] final(self).remaining.cells()[j].has(
                    d,
                )) <==> old(self).remaining.cells()[j].has(d)
                    && !(old(self).remaining.scols_seq()[t as int].count_of(d) == old(
                    self,
                ).remaining.cols_seq()[((t as int / 3) % 3) * 3 + t as int % 3].count_of(d)
                    && scol_sector_mate(t as int, crate::zones::scol_of(j)))),
    {
        let uniques = self.scol_col_confined(t);
        let rel = t % 3;
        let sector = t / 3;
        let rel0: usize = if rel == 0 {
            1
        } else {
            0
        };
        let rel1: usize = if rel == 2 {
            1
        } else {
            2
        };
        proof {
            if solved_state(old(self).remaining) {
                let tt = t as int;
                let nb0 = (sector * 3 + rel0) as int;
                let nb1 = (sector * 3 + rel1) as int;
                assert forall|ii: int, d: int|
                    (crate::zones::scol_cells(nb0).contains(ii) || crate::zones::scol_cells(nb1).contains(ii))
                        && uniques.has(d) implies !(
                    #[trigger] old(self).remaining.cells()[ii].has(d)) by {
                    assert(old(self).remaining.scols_seq()[tt].count_of(d) == old(
                        self,
                    ).remaining.cols_seq()[((tt / 3) % 3) * 3 + tt % 3].count_of(d));
                    assert(old(self).remaining.cols_seq()[((tt / 3) % 3) * 3 + tt % 3].count_of(d)
                        == 1);
                    assert(crate::zones::zone_count(
                        old(self).remaining.cells(),
                        crate::zones::scol_cells(tt),
                        d,
                    ) >= 1);
                    assert(nb0 != tt && tt / 3 == nb0 / 3);
                    assert(nb1 != tt && tt / 3 == nb1 / 3);
                    if crate::zones::scol_cells(nb0).contains(ii) {
                        lemma_solved_scol_absent(old(self).remaining, tt, nb0, ii, d);
                    } else {
                        lemma_solved_scol_absent(old(self).remaining, tt, nb1, ii, d);
                    }
                }
            }
        }
        proof {
            let tt = t as int;
            let nb0 = (sector * 3 + rel0) as int;
            let nb1 = (sector * 3 + rel1) as int;
            assert forall|s: Seq<Option<Val>>|
                crate::board_solved(s) && #[trigger] crate::remaining::cells_admit(
                    old(self).remaining.cells(),
                    s,
                ) implies ((forall|ii: int|
                crate::zones::scol_cells(nb0).contains(ii) ==> !uniques.has(
                    #[trigger] crate::remaining::solution_digit(s, ii),
                )) && (forall|ii: int|
                crate::zones::scol_cells(nb1).contains(ii) ==> !uniques.has(
                    #[trigger] crate::remaining::solution_digit(s, ii),
                ))) by {
                assert forall|ii: int|
                    (crate::zones::scol_cells(nb0).contains(ii) || crate::zones::scol_cells(nb1).contains(
                        ii,
                    )) implies !uniques.has(#[trigger] crate::remaining::solution_digit(s, ii)) by {
                    let d = crate::remaining::solution_digit(s, ii);
                    if uniques.has(d) {
                        if crate::zones::scol_cells(nb0).contains(ii) {
                            lemma_confined_col_absent(old(self).remaining, s, tt, nb0, ii, d);
                        } else {
                            lemma_confined_col_absent(old(self).remaining, s, tt, nb1, ii, d);
                        }
                    }
                }
            }
        }
        let ghost pre_t0 = self.remaining;
        let ghost pre_q0 = self.queue;
        let first = match self.eliminate_set_in_scol(sector * 3 + rel0, uniques) {
            Ok(p) => p,
            Err(e) => {
                proof {
                    assert forall|s: Seq<Option<Val>>|
                        crate::board_solved(s) && #[trigger] crate::remaining::cells_admit(
                            old(self).remaining.cells(),
                            s,
                        ) implies false by {
                        assert(crate::remaining::cells_admit(pre_t0.cells(), s));
                    }
                }
                return Err(e);
            },
        };
        let ghost pre_t1 = self.remaining;
        let ghost pre_q1 = self.queue;
        let second = match self.eliminate_set_in_scol(sector * 3 + rel1, uniques) {
            Ok(p) => p,
            Err(e) => {
                proof {
                    assert forall|s: Seq<Option<Val>>|
                        crate::board_solved(s) && #[trigger] crate::remaining::cells_admit(
                            old(self).remaining.cells(),
                            s,
                        ) implies false by {
                        assert(crate::remaining::cells_admit(pre_t0.cells(), s));
                        assert(crate::remaining::cells_admit(pre_t1.cells(), s));
                    }
                }
                return Err(e);
            },
        };
        proof {
            lemma_progress_trans(pre_t0, pre_q0, pre_t1, pre_q1, self.remaining, self.queue);
            assert forall|s: Seq<Option<Val>>|
                crate::board_solved(s) && #[trigger] crate::remaining::cells_admit(
                    old(self).remaining.cells(),
                    s,
                ) implies crate::remaining::cells_admit(self.remaining.cells(), s) by {
                assert(crate::remaining::cells_admit(pre_t0.cells(), s));
                assert(crate::remaining::cells_admit(pre_t1.cells(), s));
            }
        }
        proof {
            let t0 = t as int;
            let nb0 = (sector * 3 + rel0) as int;
            let nb1 = (sector * 3 + rel1) as int;
            assert forall|j: int, d: int|
                0 <= j < 81 && 1 <= d <= 9 implies ((#[trigger] self.remaining.cells()[j].has(d))
                <==> old(self).remaining.cells()[j].has(d)
                && !(old(self).remaining.scols_seq()[t0].count_of(d) == old(
                self,
            ).remaining.cols_seq()[((t0 / 3) % 3) * 3 + t0 % 3].count_of(d) && scol_sector_mate(
                t0,
                crate::zones::scol_of(j),
            ))) by {
                crate::zones::lemma_cell_decompose(j);
                let nbp = crate::zones::scol_of(j);
                assert(0 <= nbp < 27);
                if scol_sector_mate(t0, nbp) {
                    assert(nbp / 3 == sector as int);
                    assert(nbp % 3 == rel0 as int || nbp % 3 == rel1 as int);
                    assert(nbp == nb0 || nbp == nb1);
                }
                if nbp == nb0 || nbp == nb1 {
                    assert(scol_sector_mate(t0, nbp));
                }
            }
        }
        let deduced = first.union(second);
        if !deduced.is_empty() {
            self.deduce(
                DeductionReason::ColOnlySec { pos: SectorCol::from_idx(t), vals: deduced },
            );
        }
        Ok(())
    }

    /// Sector-column `t` is the only place of its sector for some digits:
    /// clear them from the rest of the column.
    #[verifier::rlimit(60)]
    #[verifier::spinoff_prover]
    fn sec_only_col(&mut self, t: usize) -> (r: Result<(), ()>)
        requires
            old(self).inv(),
            t < 27,
        ensures
            match r {
                Ok(u) => final(self).inv() && progressed(
                    old(self).remaining,
                    old(self).queue,
                    final(self).remaining,
                    final(self).queue,
                ),
                Err(e) => true,
            },
            solved_state(old(self).remaining) ==> (r is Ok && final(self).remaining == old(
                self,
            ).remaining),
            forall|s: Seq<Option<Val>>|
                crate::board_solved(s) && #[trigger] crate::remaining::cells_admit(
                    old(self).remaining.cells(),
                    s,
                ) ==> (r is Ok && crate::remaining::cells_admit(final(self).remaining.cells(), s)),
            r is Ok ==> forall|j: int, d: int|
                0 <= j < 81 && 1 <= d <= 9 ==> ((#[trigger] final(self).remaining.cells()[j].has(
                    d,
                )) <==> old(self).remaining.cells()[j].has(d)
                    && !(old(self).remaining.scols_seq()[t as int].count_of(d) == old(
                    self,
                ).remaining.sectors_seq()[t as int / 3].count_of(d) && scol_col_mate(
                    t as int,
                    crate::zones::scol_of(j),
                ))),
    {
        let uniques = self.scol_sector_confined(t);
        let rel = t % 3;
        let sector = t / 3;
        let colband = sector / 3;
        let cb0: usize = if colband == 0 {
            1
        } else {
            0
        };
        let cb1: usize = if colband == 2 {
            1
        } else {
            2
        };
        proof {
            if solved_state(old(self).remaining) {
                let tt = t as int;
                let nb0 = ((cb0 * 3 + sector % 3) * 3 + rel) as int;
                let nb1 = ((cb1 * 3 + sector % 3) * 3 + rel) as int;
                assert forall|ii: int, d: int|
                    (crate::zones::scol_cells(nb0).contains(ii) || crate::zones::scol_cells(nb1).contains(ii))
                        && uniques.has(d) implies !(
                    #[trigger] old(self).remaining.cells()[ii].has(d)) by {
                    assert(old(self).remaining.scols_seq()[tt].count_of(d) == old(
                        self,
                    ).remaining.sectors_seq()[tt / 3].count_of(d));
                    assert(old(self).remaining.sectors_seq()[tt / 3].count_of(d) == 1);
                    assert(crate::zones::zone_count(
                        old(self).remaining.cells(),
                        crate::zones::scol_cells(tt),
                        d,
                    ) >= 1);
                    assert(nb0 != tt && ((tt / 3) % 3) * 3 + tt % 3 == ((nb0 / 3) % 3) * 3 + nb0
                        % 3);
                    assert(nb1 != tt && ((tt / 3) % 3) * 3 + tt % 3 == ((nb1 / 3) % 3) * 3 + nb1
                        % 3);
                    if crate::zones::scol_cells(nb0).contains(ii) {
                        lemma_solved_scol_absent(old(self).remaining, tt, nb0, ii, d);
                    } else {
                        lemma_solved_scol_absent(old(self).remaining, tt, nb1, ii, d);
                    }
                }
            }
        }
        proof {
            let tt = t as int;
            let nb0 = ((cb0 * 3 + sector % 3) * 3 + rel) as int;
            let nb1 = ((cb1 * 3 + sector % 3) * 3 + rel) as int;
            assert forall|s: Seq<Option<Val>>|
                crate::board_solved(s) && #[trigger] crate::remaining::cells_admit(
                    old(self).remaining.cells(),
                    s,
                ) implies ((forall|ii: int|
                crate::zones::scol_cells(nb0).contains(ii) ==> !uniques.has(
                    #[trigger] crate::remaining::solution_digit(s, ii),
                )) && (forall|ii: int|
                crate::zones::scol_cells(nb1).contains(ii) ==> !uniques.has(
                    #[trigger] crate::remaining::solution_digit(s, ii),
                ))) by {
                assert forall|ii: int|
                    (crate::zones::scol_cells(nb0).contains(ii) || crate::zones::scol_cells(nb1).contains(
                        ii,
                    )) implies !uniques.has(#[trigger] crate::remaining::solution_digit(s, ii)) by {
                    let d = crate::remaining::solution_digit(s, ii);
                    if uniques.has(d) {
                        if crate::zones::scol_cells(nb0).contains(ii) {
                            lemma_confined_sec_col_absent(old(self).remaining, s, tt, nb0, ii, d);
                        } else {
                            lemma_confined_sec_col_absent(old(self).remaining, s, tt, nb1, ii, d);
                        }
                    }
                }
            }
        }
        let ghost pre_t0 = self.remaining;
        let ghost pre_q0 = self.queue;
        let first = match self.eliminate_set_in_scol((cb0 * 3 + sector % 3) * 3 + rel, uniques) {
            Ok(p) => p,
            Err(e) => {
                proof {
                    assert forall|s: Seq<Option<Val>>|
                        crate::board_solved(s) && #[trigger] crate::remaining::cells_admit(
                            old(self).remaining.cells(),
                            s,
                        ) implies false by {
                        assert(crate::remaining::cells_admit(pre_t0.cells(), s));
                    }
                }
                return Err(e);
            },
        };
        let ghost pre_t1 = self.remaining;
        let ghost pre_q1 = self.queue;
        let second = match self.eliminate_set_in_scol((cb1 * 3 + sector % 3) * 3 + rel, uniques) {
            Ok(p) => p,
            Err(e) => {
                proof {
                    assert forall|s: Seq<Option<Val>>|
                        crate::board_solved(s) && #[trigger] crate::remaining::cells_admit(
                            old(self).remaining.cells(),
                            s,
                        ) implies false by {
                        assert(crate::remaining::cells_admit(pre_t0.cells(), s));
                        assert(crate::remaining::cells_admit(pre_t1.cells(), s));
                    }
                }
                return Err(e);
            },
        };
        proof {
            lemma_progress_trans(pre_t0, pre_q0, pre_t1, pre_q1, self.remaining, self.queue);
            assert forall|s: Seq<Option<Val>>|
                crate::board_solved(s) && #[trigger] crate::remaining::cells_admit(
                    old(self).remaining.cells(),
                    s,
                ) implies crate::remaining::cells_admit(self.remaining.cells(), s) by {
                assert(crate::remaining::cells_admit(pre_t0.cells(), s));
                assert(crate::remaining::cells_admit(pre_t1.cells(), s));
            }
        }
        proof {
            let t0 = t as int;
            let nb0 = ((cb0 * 3 + sector % 3) * 3 + rel) as int;
            let nb1 = ((cb1 * 3 + sector % 3) * 3 + rel) as int;
            assert forall|j: int, d: int|
                0 <= j < 81 && 1 <= d <= 9 implies ((#[trigger] self.remaining.cells()[j].has(d))
                <==> old(self).remaining.cells()[j].has(d)
                && !(old(self).remaining.scols_seq()[t0].count_of(d) == old(
                self,
            ).remaining.sectors_seq()[t0 / 3].count_of(d) && scol_col_mate(
                t0,
                crate::zones::scol_of(j),
            ))) by {
                crate::zones::lemma_cell_decompose(j);
                let nbp = crate::zones::scol_of(j);
                assert(0 <= nbp < 27);
                if scol_col_mate(t0, nbp) {
                    assert(nbp % 3 == rel as int);
                    assert((nbp / 3) % 3 == sector as int % 3);
                    assert((nbp / 3) / 3 == cb0 as int || (nbp / 3) / 3 == cb1 as int);
                    assert(nbp / 3 == (cb0 * 3 + sector % 3) as int || nbp / 3 == (cb1 * 3 + sector
                        % 3) as int);
                    assert(nbp == nb0 || nbp == nb1);
                }
                if nbp == nb0 || nbp == nb1 {
                    assert(scol_col_mate(t0, nbp));
                }
            }
        }
        let deduced = first.union(second);
        if !deduced.is_empty() {
            self.deduce(
                DeductionReason::SecOnlyCol { pos: SectorCol::from_idx(t), vals: deduced },
            );
        }
        Ok(())
    }

    /// Drain the queue, applying each step in priority order, until the
    /// queue is empty or a contradiction is found.
    fn run(&mut self) -> (r: Result<(), ()>)
        requires
            old(self).inv(),
        ensures
            match r {
                Ok(u) => final(self).inv() && cells_subset(
                    final(self).remaining.cells(),
                    old(self).remaining.cells(),
                ) && total_size(final(self).remaining.cells()) <= total_size(
                    old(self).remaining.cells(),
                ),
                Err(e) => true,
            },
            solved_state(old(self).remaining) ==> (r is Ok && final(self).remaining == old(
                self,
            ).remaining),
            forall|s: Seq<Option<Val>>|
                crate::board_solved(s) && #[trigger] crate::remaining::cells_admit(
                    old(self).remaining.cells(),
                    s,
                ) ==> (r is Ok && crate::remaining::cells_admit(final(self).remaining.cells(), s)),
            r is Ok ==> forall|sl: int| 0 <= sl < 270 ==> !final(self).queue.has(sl),
    {
        self.deduce(DeductionReason::InitialState);
        loop
            invariant
                old(self).inv(),
                self.inv(),
                cells_subset(self.remaining.cells(), old(self).remaining.cells()),
                total_size(self.remaining.cells()) <= total_size(old(self).remaining.cells()),
                solved_state(old(self).remaining) ==> self.remaining == old(self).remaining,
                forall|s: Seq<Option<Val>>|
                    crate::board_solved(s) && #[trigger] crate::remaining::cells_admit(
                        old(self).remaining.cells(),
                        s,
                    ) ==> crate::remaining::cells_admit(self.remaining.cells(), s),
            ensures
                forall|sl: int| 0 <= sl < 270 ==> !self.queue.has(sl),
            decreases total_size(self.remaining.cells()) * 271 + self.queue.count(),
        {
            proof {
                crate::zones::lemma_cells_size_sum_nonneg(
                    self.remaining.cells(),
                    crate::zones::all_cells(),
                );
                lemma_count_true_bounds(self.queue.slots(), 270);
            }
            let next = self.queue.pop();
            let step = match next {
                Some(st) => st,
                None => {
                    break ;
                },
            };
            let ghost pre_t = self.remaining;
            let ghost pre_q = self.queue;
            let outcome = match step {
                ReduceStep::CoordSingularized(c) => self.coord_singularized(c),
                ReduceStep::RowValsSingularized(z) => self.row_vals_singularized(z),
                ReduceStep::ColValsSingularized(z) => self.col_vals_singularized(z),
                ReduceStep::SecValsSingularized(z) => self.sec_vals_singularized(z),
                ReduceStep::SecRowTripleized(t) => self.secrow_tripleized(t),
                ReduceStep::SecColTripleized(t) => self.seccol_tripleized(t),
                ReduceStep::RowOnlySec(t) => self.row_only_sec(t),
                ReduceStep::SecOnlyRow(t) => self.sec_only_row(t),
                ReduceStep::ColOnlySec(t) => self.col_only_sec(t),
                ReduceStep::SecOnlyCol(t) => self.sec_only_col(t),
            };
            match outcome {
                Ok(u) => u,
                Err(e) => {
                    proof {
                        assert forall|s: Seq<Option<Val>>|
                            crate::board_solved(s) && #[trigger] crate::remaining::cells_admit(
                                old(self).remaining.cells(),
                                s,
                            ) implies false by {
                            assert(crate::remaining::cells_admit(pre_t.cells(), s));
                        }
                    }
                    return Err(e);
                },
            }
            proof {
                assert forall|s: Seq<Option<Val>>|
                    crate::board_solved(s) && #[trigger] crate::remaining::cells_admit(
                        old(self).remaining.cells(),
                        s,
                    ) implies crate::remaining::cells_admit(self.remaining.cells(), s) by {
                    assert(crate::remaining::cells_admit(pre_t.cells(), s));
                }
                crate::remaining::lemma_subset_trans(
                    self.remaining.cells(),
                    pre_t.cells(),
                    old(self).remaining.cells(),
                );
                crate::zones::lemma_cells_size_sum_nonneg(
                    self.remaining.cells(),
                    crate::zones::all_cells(),
                );
                lemma_count_true_bounds(self.queue.slots(), 270);
                if total_size(self.remaining.cells()) == total_size(pre_t.cells()) {
                    assert(self.queue == pre_q);
                    assert(self.queue.count() == pre_q.count());
                } else {
                    assert(total_size(self.remaining.cells()) <= total_size(pre_t.cells()) - 1);
                    assert(total_size(self.remaining.cells()) * 271 + self.queue.count()
                        <= total_size(pre_t.cells()) * 271 - 271 + 270);
                }
            }
        }
        Ok(())
    }
}

/// Sector-row `nb` shares its row or its sector with sector-row `t`.
pub(crate) open spec fn srow_sibling(t: int, nb: int) -> bool {
    nb != t && (nb / 3 == t / 3 || ((nb / 3) / 3) * 3 + nb % 3 == ((t / 3) / 3) * 3 + t % 3)
}

/// Sector-column `nb` shares its column or its sector with sector-column
/// `t`.
pub(crate) open spec fn scol_sibling(t: int, nb: int) -> bool {
    nb != t && (((nb / 3) % 3) * 3 + nb % 3 == ((t / 3) % 3) * 3 + t % 3 || nb / 3 == t / 3)
}

/// Sector-rows `t` and `nb` lie in the same sector but differ.
pub(crate) open spec fn srow_sector_mate(t: int, nb: int) -> bool {
    nb != t && ((nb / 3) / 3) * 3 + nb % 3 == ((t / 3) / 3) * 3 + t % 3
}

/// Sector-rows `t` and `nb` lie in the same row but differ.
pub(crate) open spec fn srow_row_mate(t: int, nb: int) -> bool {
    nb != t && nb / 3 == t / 3
}

/// Sector-columns `t` and `nb` lie in the same sector but differ.
pub(crate) open spec fn scol_sector_mate(t: int, nb: int) -> bool {
    nb != t && nb / 3 == t / 3
}

/// Sector-columns `t` and `nb` lie in the same column but differ.
pub(crate) open spec fn scol_col_mate(t: int, nb: int) -> bool {
    nb != t && ((nb / 3) % 3) * 3 + nb % 3 == ((t / 3) % 3) * 3 + t % 3
}

/// Cell `j` holds a digit that is down to its last cell in row `z`.
pub(crate) open spec fn row_home(t: RemainingTracker, z: int, j: int) -> bool {
    exists|d: int|
        1 <= d <= 9 && t.cells()[j].has(d) && #[trigger] t.rows_seq()[z].count_of(d) == 1
}

/// Cell `j` holds a digit that is down to its last cell in column `z`.
pub(crate) open spec fn col_home(t: RemainingTracker, z: int, j: int) -> bool {
    exists|d: int|
        1 <= d <= 9 && t.cells()[j].has(d) && #[trigger] t.cols_seq()[z].count_of(d) == 1
}

/// Cell `j` holds a digit that is down to its last cell in sector `z`.
pub(crate) open spec fn sector_home(t: RemainingTracker, z: int, j: int) -> bool {
    exists|d: int|
        1 <= d <= 9 && t.cells()[j].has(d) && #[trigger] t.sectors_seq()[z].count_of(d) == 1
}

/// Some digit has exactly one cell left in row `z`.
pub(crate) open spec fn seed_row_visit(t: RemainingTracker, z: int) -> bool {
    exists|d: int| 1 <= d <= 9 && #[trigger] t.rows_seq()[z].count_of(d) == 1
}

/// Some digit has exactly one cell left in column `z`.
pub(crate) open spec fn seed_col_visit(t: RemainingTracker, z: int) -> bool {
    exists|d: int| 1 <= d <= 9 && #[trigger] t.cols_seq()[z].count_of(d) == 1
}

/// Some digit has exactly one cell left in sector `z`.
pub(crate) open spec fn seed_sector_visit(t: RemainingTracker, z: int) -> bool {
    exists|d: int| 1 <= d <= 9 && #[trigger] t.sectors_seq()[z].count_of(d) == 1
}

/// Sector-row `z` already holds all of its row's copies of some digit.
pub(crate) open spec fn seed_row_confined(t: RemainingTracker, z: int) -> bool {
    exists|d: int|
        1 <= d <= 9 && #[trigger] t.srows_seq()[z].count_of(d) == t.rows_seq()[z / 3].count_of(d)
}

/// Sector-row `z` already holds all of its sector's copies of some digit.
pub(crate) open spec fn seed_sec_row_confined(t: RemainingTracker, z: int) -> bool {
    exists|d: int|
        1 <= d <= 9 && #[trigger] t.srows_seq()[z].count_of(d) == t.sectors_seq()[((z / 3) / 3) * 3
            + z % 3].count_of(d)
}

/// Sector-column `z` already holds all of its column's copies of some
/// digit.
pub(crate) open spec fn seed_col_confined(t: RemainingTracker, z: int) -> bool {
    exists|d: int|
        1 <= d <= 9 && #[trigger] t.scols_seq()[z].count_of(d) == t.cols_seq()[((z / 3) % 3) * 3 + z
            % 3].count_of(d)
}

/// Sector-column `z` already holds all of its sector's copies of some
/// digit.
pub(crate) open spec fn seed_sec_col_confined(t: RemainingTracker, z: int) -> bool {
    exists|d: int|
        1 <= d <= 9 && #[trigger] t.scols_seq()[z].count_of(d) == t.sectors_seq()[z / 3].count_of(d)
}

/// What the initial scan enqueues at each priority slot: a singular-cell
/// visit per singleton cell, a zone visit wherever a digit is down to one
/// cell, a size-match visit wherever a sector-line is down to three
/// available digits, and a confinement visit wherever a sector-line
/// already holds all of its row's, column's or sector's copies of some
/// digit.
pub(crate) open spec fn seeded(t: RemainingTracker, sl: int) -> bool {
    if 0 <= sl < 81 {
        t.cells()[sl].count() == 1
    } else if 81 <= sl < 90 {
        seed_row_visit(t, sl - 81)
    } else if 90 <= sl < 99 {
        seed_col_visit(t, sl - 90)
    } else if 99 <= sl < 108 {
        seed_sector_visit(t, sl - 99)
    } else if 108 <= sl < 135 {
        crate::remaining::counter_avail_count(t.srows_seq()[sl - 108]) == 3
    } else if 135 <= sl < 162 {
        crate::remaining::counter_avail_count(t.scols_seq()[sl - 135]) == 3
    } else if 162 <= sl < 189 {
        seed_row_confined(t, sl - 162)
    } else if 189 <= sl < 216 {
        seed_sec_row_confined(t, sl - 189)
    } else if 216 <= sl < 243 {
        seed_col_confined(t, sl - 216)
    } else {
        seed_sec_col_confined(t, sl - 243)
    }
}

/// Seed the queue with every reduction that the tracker's current state
/// already justifies: exactly the slots of [`seeded`].
fn build_queue(remaining: &RemainingTracker) -> (q: ReduceQueue)
    requires
        remaining.wf(),
    ensures
        q.wf(),
        q.count() <= 270,
        forall|sl: int| 0 <= sl < 270 ==> (#[trigger] q.has(sl) <==> seeded(*remaining, sl)),
{
    let mut queue = ReduceQueue::new();
    let mut i: usize = 0;
    while i < 81
        invariant
            remaining.wf(),
            i <= 81,
            queue.wf(),
            queue.count() <= 270,
            forall|sl: int| 0 <= sl < i ==> (#[trigger] queue.has(sl) <==> seeded(*remaining, sl)),
            forall|sl: int| i <= sl < 270 ==> !(#[trigger] queue.has(sl)),
        decreases 81 - i,
    {
        if remaining.cell(i).len() == 1 {
            queue.push(ReduceStep::CoordSingularized(i));
        }
        i = i + 1;
    }
    let mut z: usize = 0;
    while z < 9
        invariant
            remaining.wf(),
            z <= 9,
            queue.wf(),
            queue.count() <= 270,
            forall|sl: int| 0 <= sl < 81 ==> (#[trigger] queue.has(sl) <==> seeded(*remaining, sl)),
            forall|z2: int|
                0 <= z2 < 9 ==> (#[trigger] queue.has(81 + z2) <==> z2 < z && seed_row_visit(
                    *remaining,
                    z2,
                )),
            forall|z2: int|
                0 <= z2 < 9 ==> (#[trigger] queue.has(90 + z2) <==> z2 < z && seed_col_visit(
                    *remaining,
                    z2,
                )),
            forall|z2: int|
                0 <= z2 < 9 ==> (#[trigger] queue.has(99 + z2) <==> z2 < z && seed_sector_visit(
                    *remaining,
                    z2,
                )),
            forall|sl: int| 108 <= sl < 270 ==> !(#[trigger] queue.has(sl)),
        decreases 9 - z,
    {
        let rs = remaining.row_singles(z);
        let rse = rs.is_empty();
        if !rse {
            queue.push(ReduceStep::RowValsSingularized(z));
        }
        proof {
            if !rse {
                assert(exists|d: int| 1 <= d <= 9 && rs.has(d)) by {
                    assert(!(forall|d: int| 1 <= d <= 9 ==> !rs.has(d)));
                }
                let d0 = choose|d: int| 1 <= d <= 9 && rs.has(d);
                assert(remaining.rows_seq()[z as int].count_of(d0) == 1);
                assert(seed_row_visit(*remaining, z as int));
            } else {
                if seed_row_visit(*remaining, z as int) {
                    let d0 = choose|d: int|
                        1 <= d <= 9 && #[trigger] remaining.rows_seq()[z as int].count_of(d) == 1;
                    assert(rs.has(d0));
                }
            }
        }
        let cs = remaining.col_singles(z);
        let cse = cs.is_empty();
        if !cse {
            queue.push(ReduceStep::ColValsSingularized(z));
        }
        proof {
            if !cse {
                assert(exists|d: int| 1 <= d <= 9 && cs.has(d)) by {
                    assert(!(forall|d: int| 1 <= d <= 9 ==> !cs.has(d)));
                }
                let d0 = choose|d: int| 1 <= d <= 9 && cs.has(d);
                assert(remaining.cols_seq()[z as int].count_of(d0) == 1);
                assert(seed_col_visit(*remaining, z as int));
            } else {
                if seed_col_visit(*remaining, z as int) {
                    let d0 = choose|d: int|
                        1 <= d <= 9 && #[trigger] remaining.cols_seq()[z as int].count_of(d) == 1;
                    assert(cs.has(d0));
                }
            }
        }
        let ss = remaining.sector_singles(z);
        let sse = ss.is_empty();
        if !sse {
            queue.push(ReduceStep::SecValsSingularized(z));
        }
        proof {
            if !sse {
                assert(exists|d: int| 1 <= d <= 9 && ss.has(d)) by {
                    assert(!(forall|d: int| 1 <= d <= 9 ==> !ss.has(d)));
                }
                let d0 = choose|d: int| 1 <= d <= 9 && ss.has(d);
                assert(remaining.sectors_seq()[z as int].count_of(d0) == 1);
                assert(seed_sector_visit(*remaining, z as int));
            } else {
                if seed_sector_visit(*remaining, z as int) {
                    let d0 = choose|d: int|
                        1 <= d <= 9 && #[trigger] remaining.sectors_seq()[z as int].count_of(d)
                            == 1;
                    assert(ss.has(d0));
                }
            }
        }
        proof {
            assert(queue.has(81 + z as int) <==> seed_row_visit(*remaining, z as int));
            assert(queue.has(90 + z as int) <==> seed_col_visit(*remaining, z as int));
            assert(queue.has(99 + z as int) <==> seed_sector_visit(*remaining, z as int));
        }
        z = z + 1;
    }
    proof {
        assert forall|sl: int| 81 <= sl < 108 implies (#[trigger] queue.has(sl) <==> seeded(
            *remaining,
            sl,
        )) by {
            if sl < 90 {
                assert(queue.has(81 + (sl - 81)) <==> (sl - 81) < 9 && seed_row_visit(
                    *remaining,
                    sl - 81,
                ));
            } else if sl < 99 {
                assert(queue.has(90 + (sl - 90)) <==> (sl - 90) < 9 && seed_col_visit(
                    *remaining,
                    sl - 90,
                ));
            } else {
                assert(queue.has(99 + (sl - 99)) <==> (sl - 99) < 9 && seed_sector_visit(
                    *remaining,
                    sl - 99,
                ));
            }
        }
    }
    let mut t: usize = 0;
    while t < 27
        invariant
            remaining.wf(),
            t <= 27,
            queue.wf(),
            queue.count() <= 270,
            forall|sl: int| 0 <= sl < 108 ==> (#[trigger] queue.has(sl) <==> seeded(*remaining, sl)),
            forall|t2: int|
                0 <= t2 < 27 ==> (#[trigger] queue.has(108 + t2) <==> t2 < t
                    && crate::remaining::counter_avail_count(remaining.srows_seq()[t2]) == 3),
            forall|t2: int|
                0 <= t2 < 27 ==> (#[trigger] queue.has(135 + t2) <==> t2 < t
                    && crate::remaining::counter_avail_count(remaining.scols_seq()[t2]) == 3),
            forall|t2: int|
                0 <= t2 < 27 ==> (#[trigger] queue.has(162 + t2) <==> t2 < t && seed_row_confined(
                    *remaining,
                    t2,
                )),
            forall|t2: int|
                0 <= t2 < 27 ==> (#[trigger] queue.has(189 + t2) <==> t2 < t
                    && seed_sec_row_confined(*remaining, t2)),
            forall|t2: int|
                0 <= t2 < 27 ==> (#[trigger] queue.has(216 + t2) <==> t2 < t && seed_col_confined(
                    *remaining,
                    t2,
                )),
            forall|t2: int|
                0 <= t2 < 27 ==> (#[trigger] queue.has(243 + t2) <==> t2 < t
                    && seed_sec_col_confined(*remaining, t2)),
        decreases 27 - t,
    {
        let sravail = remaining.srow_avail(t);
        proof {
            crate::remaining::lemma_avail_set_count(sravail, remaining.srows_seq()[t as int], 9);
        }
        if sravail.len() == 3 {
            queue.push(ReduceStep::SecRowTripleized(t));
        }
        let scavail = remaining.scol_avail(t);
        proof {
            crate::remaining::lemma_avail_set_count(scavail, remaining.scols_seq()[t as int], 9);
        }
        if scavail.len() == 3 {
            queue.push(ReduceStep::SecColTripleized(t));
        }
        let rowz = t / 3;
        let srow_sec = ((t / 3) / 3) * 3 + t % 3;
        let scol_col = ((t / 3) % 3) * 3 + t % 3;
        let scol_sec = t / 3;
        let mut dd: u8 = 1;
        while dd <= 9
            invariant
                remaining.wf(),
                t < 27,
                rowz == t as int / 3,
                srow_sec == ((t as int / 3) / 3) * 3 + t as int % 3,
                scol_col == ((t as int / 3) % 3) * 3 + t as int % 3,
                scol_sec == t as int / 3,
                rowz < 9,
                srow_sec < 9,
                scol_col < 9,
                scol_sec < 9,
                1 <= dd <= 10,
                queue.wf(),
                queue.count() <= 270,
                forall|sl: int|
                    0 <= sl < 108 ==> (#[trigger] queue.has(sl) <==> seeded(*remaining, sl)),
                forall|t2: int|
                    0 <= t2 < 27 && t2 != t ==> (#[trigger] queue.has(108 + t2) <==> t2 < t
                        && crate::remaining::counter_avail_count(remaining.srows_seq()[t2]) == 3),
                forall|t2: int|
                    0 <= t2 < 27 && t2 != t ==> (#[trigger] queue.has(135 + t2) <==> t2 < t
                        && crate::remaining::counter_avail_count(remaining.scols_seq()[t2]) == 3),
                forall|t2: int|
                    0 <= t2 < 27 && t2 != t ==> (#[trigger] queue.has(162 + t2) <==> t2 < t
                        && seed_row_confined(*remaining, t2)),
                forall|t2: int|
                    0 <= t2 < 27 && t2 != t ==> (#[trigger] queue.has(189 + t2) <==> t2 < t
                        && seed_sec_row_confined(*remaining, t2)),
                forall|t2: int|
                    0 <= t2 < 27 && t2 != t ==> (#[trigger] queue.has(216 + t2) <==> t2 < t
                        && seed_col_confined(*remaining, t2)),
                forall|t2: int|
                    0 <= t2 < 27 && t2 != t ==> (#[trigger] queue.has(243 + t2) <==> t2 < t
                        && seed_sec_col_confined(*remaining, t2)),
                queue.has(108 + t as int) <==> crate::remaining::counter_avail_count(
                    remaining.srows_seq()[t as int],
                ) == 3,
                queue.has(135 + t as int) <==> crate::remaining::counter_avail_count(
                    remaining.scols_seq()[t as int],
                ) == 3,
                queue.has(162 + t as int) <==> exists|d: int|
                    1 <= d < dd && #[trigger] remaining.srows_seq()[t as int].count_of(d)
                        == remaining.rows_seq()[t as int / 3].count_of(d),
                queue.has(189 + t as int) <==> exists|d: int|
                    1 <= d < dd && #[trigger] remaining.srows_seq()[t as int].count_of(d)
                        == remaining.sectors_seq()[((t as int / 3) / 3) * 3 + t as int
                        % 3].count_of(d),
                queue.has(216 + t as int) <==> exists|d: int|
                    1 <= d < dd && #[trigger] remaining.scols_seq()[t as int].count_of(d)
                        == remaining.cols_seq()[((t as int / 3) % 3) * 3 + t as int % 3].count_of(
                        d,
                    ),
                queue.has(243 + t as int) <==> exists|d: int|
                    1 <= d < dd && #[trigger] remaining.scols_seq()[t as int].count_of(d)
                        == remaining.sectors_seq()[t as int / 3].count_of(d),
            decreases 10 - dd,
        {
            let v = Val::new(dd);
            if remaining.srow_count_of(t, v) == remaining.row_count_of(rowz, v) {
                queue.push(ReduceStep::RowOnlySec(t));
            }
            if remaining.srow_count_of(t, v) == remaining.sector_count_of(srow_sec, v) {
                queue.push(ReduceStep::SecOnlyRow(t));
            }
            if remaining.scol_count_of(t, v) == remaining.col_count_of(scol_col, v) {
                queue.push(ReduceStep::ColOnlySec(t));
            }
            if remaining.scol_count_of(t, v) == remaining.sector_count_of(scol_sec, v) {
                queue.push(ReduceStep::SecOnlyCol(t));
            }
            dd = dd + 1;
        }
        proof {
            assert(queue.has(162 + t as int) <==> seed_row_confined(*remaining, t as int));
            assert(queue.has(189 + t as int) <==> seed_sec_row_confined(*remaining, t as int));
            assert(queue.has(216 + t as int) <==> seed_col_confined(*remaining, t as int));
            assert(queue.has(243 + t as int) <==> seed_sec_col_confined(*remaining, t as int));
        }
        t = t + 1;
    }
    proof {
        assert forall|sl: int| 108 <= sl < 270 implies (#[trigger] queue.has(sl) <==> seeded(
            *remaining,
            sl,
        )) by {
            if sl < 135 {
                assert(queue.has(108 + (sl - 108)) <==> (sl - 108) < 27
                    && crate::remaining::counter_avail_count(remaining.srows_seq()[sl - 108])
                    == 3);
            } else if sl < 162 {
                assert(queue.has(135 + (sl - 135)) <==> (sl - 135) < 27
                    && crate::remaining::counter_avail_count(remaining.scols_seq()[sl - 135])
                    == 3);
            } else if sl < 189 {
                assert(queue.has(162 + (sl - 162)) <==> (sl - 162) < 27 && seed_row_confined(
                    *remaining,
                    sl - 162,
                ));
            } else if sl < 216 {
                assert(queue.has(189 + (sl - 189)) <==> (sl - 189) < 27 && seed_sec_row_confined(
                    *remaining,
                    sl - 189,
                ));
            } else if sl < 243 {
                assert(queue.has(216 + (sl - 216)) <==> (sl - 216) < 27 && seed_col_confined(
                    *remaining,
                    sl - 216,
                ));
            } else {
                assert(queue.has(243 + (sl - 243)) <==> (sl - 243) < 27 && seed_sec_col_confined(
                    *remaining,
                    sl - 243,
                ));
            }
        }
    }
    queue
}

/// Reduce the tracker to a fixed point. Returns the saturated tracker, or
/// `None` when a contradiction was found, together with the tracer.
pub(crate) fn reduce<T: DeductiveTracer>(remaining: RemainingTracker, tracer: T) -> (r: (
    Option<RemainingTracker>,
    T,
))
    requires
        remaining.wf(),
        remaining.all_nonempty(),
    ensures
        match r.0 {
            Some(t) => t.wf() && t.all_nonempty() && cells_subset(t.cells(), remaining.cells())
                && total_size(t.cells()) <= total_size(remaining.cells()),
            None => true,
        },
        solved_state(remaining) ==> r.0 == Some(remaining),
        forall|s: Seq<Option<Val>>|
            crate::board_solved(s) && #[trigger] crate::remaining::cells_admit(
                remaining.cells(),
                s,
            ) ==> (r.0 is Some && crate::remaining::cells_admit(r.0->Some_0.cells(), s)),
        r.0 is None ==> !(exists|s: Seq<Option<Val>>|
            crate::board_solved(s) && #[trigger] crate::remaining::cells_admit(
                remaining.cells(),
                s,
            )),
{
    let queue = build_queue(&remaining);
    let mut reducer = DeductiveReducer { remaining, queue, tracer };
    match reducer.run() {
        Ok(u) => {
            let DeductiveReducer { remaining: rem, queue: _, tracer: tr } = reducer;
            (Some(rem), tr)
        },
        Err(e) => {
            let DeductiveReducer { remaining: _, queue: _, tracer: tr } = reducer;
            (None, tr)
        },
    }
}

/// A consistent, nonempty tracker whose row, column and sector counters
/// all read one: a solved position.
pub(crate) open spec fn solved_state(t: RemainingTracker) -> bool {
    t.wf() && t.all_nonempty() && t.spec_is_solved()
}

/// In a solved tracker, a digit held by one cell is absent from every
/// other cell that shares a row, column or sector with it.
proof fn lemma_solved_absent(t: RemainingTracker, ci: int, ni: int, d: int)
    requires
        solved_state(t),
        0 <= ci < 81,
        0 <= ni < 81,
        ci != ni,
        crate::zones::row_of(ci) == crate::zones::row_of(ni) || crate::zones::col_of(ci)
            == crate::zones::col_of(ni) || crate::zones::sector_of(ci) == crate::zones::sector_of(
            ni,
        ),
        t.cells()[ci].has(d),
        1 <= d <= 9,
    ensures
        !t.cells()[ni].has(d),
{
    let cells = t.cells();
    crate::zones::lemma_cell_decompose(ci);
    crate::zones::lemma_cell_decompose(ni);
    if cells[ni].has(d) {
        if crate::zones::row_of(ci) == crate::zones::row_of(ni) {
            let z = crate::zones::row_of(ci);
            crate::zones::lemma_zone_shapes(z);
            crate::zones::lemma_row_membership(z, ci);
            crate::zones::lemma_row_membership(z, ni);
            assert(t.rows_seq()[z].count_of(d) == 1);
            crate::zones::lemma_zone_count_two(cells, crate::zones::row_cells(z), ci, ni, d);
        } else if crate::zones::col_of(ci) == crate::zones::col_of(ni) {
            let z = crate::zones::col_of(ci);
            crate::zones::lemma_zone_shapes(z);
            crate::zones::lemma_col_membership(z, ci);
            crate::zones::lemma_col_membership(z, ni);
            assert(t.cols_seq()[z].count_of(d) == 1);
            crate::zones::lemma_zone_count_two(cells, crate::zones::col_cells(z), ci, ni, d);
        } else {
            let z = crate::zones::sector_of(ci);
            crate::zones::lemma_zone_shapes(z);
            crate::zones::lemma_sector_membership(z, ci);
            crate::zones::lemma_sector_membership(z, ni);
            assert(t.sectors_seq()[z].count_of(d) == 1);
            crate::zones::lemma_zone_count_two(cells, crate::zones::sector_cells(z), ci, ni, d);
        }
    }
}

/// In a solved tracker, a digit still counted in one sector-row is absent
/// from every cell of a different sector-row that shares its row or its
/// sector.
proof fn lemma_solved_srow_absent(t: RemainingTracker, src: int, nb: int, ii: int, d: int)
    requires
        solved_state(t),
        0 <= src < 27,
        0 <= nb < 27,
        nb != src,
        src / 3 == nb / 3 || ((src / 3) / 3) * 3 + src % 3 == ((nb / 3) / 3) * 3 + nb % 3,
        crate::zones::srow_cells(nb).contains(ii),
        crate::zones::zone_count(t.cells(), crate::zones::srow_cells(src), d) >= 1,
        1 <= d <= 9,
    ensures
        0 <= ii < 81,
        !t.cells()[ii].has(d),
{
    let cells = t.cells();
    crate::zones::lemma_zone_shapes(src);
    crate::zones::lemma_zone_shapes(nb);
    crate::zones::lemma_zone_count_exists(cells, crate::zones::srow_cells(src), d);
    let j = choose|j: int|
        0 <= j < crate::zones::srow_cells(src).len() && cells[#[trigger] crate::zones::srow_cells(
            src,
        )[j]].has(d);
    let y = crate::zones::srow_cells(src)[j];
    assert(0 <= y < 81 && 0 <= ii < 81);
    crate::zones::lemma_srow_membership(src, y);
    crate::zones::lemma_srow_membership(nb, ii);
    crate::zones::lemma_cell_decompose(y);
    crate::zones::lemma_cell_decompose(ii);
    assert(crate::zones::srow_of(y) == src && crate::zones::srow_of(ii) == nb);
    assert(y != ii);
    if src / 3 == nb / 3 {
        assert(crate::zones::row_of(y) == crate::zones::row_of(ii));
    } else {
        assert(crate::zones::sector_of(y) == ((src / 3) / 3) * 3 + src % 3);
        assert(crate::zones::sector_of(ii) == ((nb / 3) / 3) * 3 + nb % 3);
    }
    lemma_solved_absent(t, y, ii, d);
}

/// In a solved tracker, a digit still counted in one sector-column is
/// absent from every cell of a different sector-column that shares its
/// column or its sector.
proof fn lemma_solved_scol_absent(t: RemainingTracker, src: int, nb: int, ii: int, d: int)
    requires
        solved_state(t),
        0 <= src < 27,
        0 <= nb < 27,
        nb != src,
        ((src / 3) % 3) * 3 + src % 3 == ((nb / 3) % 3) * 3 + nb % 3 || src / 3 == nb / 3,
        crate::zones::scol_cells(nb).contains(ii),
        crate::zones::zone_count(t.cells(), crate::zones::scol_cells(src), d) >= 1,
        1 <= d <= 9,
    ensures
        0 <= ii < 81,
        !t.cells()[ii].has(d),
{
    let cells = t.cells();
    crate::zones::lemma_zone_shapes(src);
    crate::zones::lemma_zone_shapes(nb);
    crate::zones::lemma_zone_count_exists(cells, crate::zones::scol_cells(src), d);
    let j = choose|j: int|
        0 <= j < crate::zones::scol_cells(src).len() && cells[#[trigger] crate::zones::scol_cells(
            src,
        )[j]].has(d);
    let y = crate::zones::scol_cells(src)[j];
    assert(0 <= y < 81 && 0 <= ii < 81);
    crate::zones::lemma_scol_membership(src, y);
    crate::zones::lemma_scol_membership(nb, ii);
    crate::zones::lemma_cell_decompose(y);
    crate::zones::lemma_cell_decompose(ii);
    assert(crate::zones::scol_of(y) == src && crate::zones::scol_of(ii) == nb);
    assert(y != ii);
    if ((src / 3) % 3) * 3 + src % 3 == ((nb / 3) % 3) * 3 + nb % 3 {
        assert(crate::zones::col_of(y) == ((crate::zones::scol_of(y) / 3) % 3) * 3
            + crate::zones::scol_of(y) % 3);
        assert(crate::zones::col_of(ii) == ((crate::zones::scol_of(ii) / 3) % 3) * 3
            + crate::zones::scol_of(ii) % 3);
        assert(crate::zones::col_of(y) == crate::zones::col_of(ii));
    } else {
        assert(crate::zones::sector_of(y) == src / 3 && crate::zones::sector_of(ii) == nb / 3);
    }
    lemma_solved_absent(t, y, ii, d);
}

/// Any complete board the candidate sets admit keeps every row, column
/// and sector counter of its digits above zero.
proof fn lemma_admit_zone_counts(t: RemainingTracker, s: Seq<Option<Val>>, z: int, d: int)
    requires
        t.wf(),
        crate::board_solved(s),
        crate::remaining::cells_admit(t.cells(), s),
        0 <= z < 9,
        1 <= d <= 9,
    ensures
        t.rows_seq()[z].count_of(d) >= 1,
        t.cols_seq()[z].count_of(d) >= 1,
        t.sectors_seq()[z].count_of(d) >= 1,
{
    crate::zones::lemma_zone_shapes(z);
    assert(crate::board_zone_count(s, crate::zones::row_cells(z), d) == 1);
    crate::lemma_board_zone_count_exists(s, crate::zones::row_cells(z), d);
    let j1 = choose|j: int|
        0 <= j < crate::zones::row_cells(z).len() && (#[trigger] s[crate::zones::row_cells(z)[j]])
            is Some && s[crate::zones::row_cells(z)[j]]->Some_0.spec_val() == d;
    let x1 = crate::zones::row_cells(z)[j1];
    assert(crate::remaining::solution_digit(s, x1) == d);
    assert(t.cells()[x1].has(d));
    assert(crate::zones::row_cells(z).contains(x1));
    crate::zones::lemma_zone_count_member(t.cells(), crate::zones::row_cells(z), x1, d);
    assert(crate::board_zone_count(s, crate::zones::col_cells(z), d) == 1);
    crate::lemma_board_zone_count_exists(s, crate::zones::col_cells(z), d);
    let j2 = choose|j: int|
        0 <= j < crate::zones::col_cells(z).len() && (#[trigger] s[crate::zones::col_cells(z)[j]])
            is Some && s[crate::zones::col_cells(z)[j]]->Some_0.spec_val() == d;
    let x2 = crate::zones::col_cells(z)[j2];
    assert(crate::remaining::solution_digit(s, x2) == d);
    assert(t.cells()[x2].has(d));
    assert(crate::zones::col_cells(z).contains(x2));
    crate::zones::lemma_zone_count_member(t.cells(), crate::zones::col_cells(z), x2, d);
    assert(crate::board_zone_count(s, crate::zones::sector_cells(z), d) == 1);
    crate::lemma_board_zone_count_exists(s, crate::zones::sector_cells(z), d);
    let j3 = choose|j: int|
        0 <= j < crate::zones::sector_cells(z).len() && (#[trigger] s[crate::zones::sector_cells(
            z,
        )[j]]) is Some && s[crate::zones::sector_cells(z)[j]]->Some_0.spec_val() == d;
    let x3 = crate::zones::sector_cells(z)[j3];
    assert(crate::remaining::solution_digit(s, x3) == d);
    assert(t.cells()[x3].has(d));
    assert(crate::zones::sector_cells(z).contains(x3));
    crate::zones::lemma_zone_count_member(t.cells(), crate::zones::sector_cells(z), x3, d);
}

/// Under an admitted complete board, a sector-row's counters keep at
/// least three distinct digits available: the board's digits of its three
/// cells.
proof fn lemma_admit_srow_three(t: RemainingTracker, s: Seq<Option<Val>>, ti: int)
    requires
        t.wf(),
        crate::board_solved(s),
        crate::remaining::cells_admit(t.cells(), s),
        0 <= ti < 27,
    ensures
        exists|d1: int, d2: int, d3: int|
            {
                &&& 1 <= d1 <= 9 && 1 <= d2 <= 9 && 1 <= d3 <= 9
                &&& d1 != d2 && d1 != d3 && d2 != d3
                &&& (#[trigger] t.srows_seq()[ti].count_of(d1)) >= 1
                &&& (#[trigger] t.srows_seq()[ti].count_of(d2)) >= 1
                &&& (#[trigger] t.srows_seq()[ti].count_of(d3)) >= 1
            },
{
    let zs = crate::zones::srow_cells(ti);
    crate::zones::lemma_zone_shapes(ti);
    let y0 = zs[0];
    let y1 = zs[1];
    let y2 = zs[2];
    let d0 = crate::remaining::solution_digit(s, y0);
    let d1 = crate::remaining::solution_digit(s, y1);
    let d2 = crate::remaining::solution_digit(s, y2);
    assert(s[y0] is Some && s[y1] is Some && s[y2] is Some);
    Val::lemma_val_injective(s[y0]->Some_0, s[y0]->Some_0);
    Val::lemma_val_injective(s[y1]->Some_0, s[y1]->Some_0);
    Val::lemma_val_injective(s[y2]->Some_0, s[y2]->Some_0);
    let z = ti / 3;
    crate::zones::lemma_zone_shapes(z);
    crate::zones::lemma_cell_decompose(y0);
    crate::zones::lemma_cell_decompose(y1);
    crate::zones::lemma_cell_decompose(y2);
    crate::zones::lemma_srow_membership(ti, y0);
    crate::zones::lemma_srow_membership(ti, y1);
    crate::zones::lemma_srow_membership(ti, y2);
    crate::zones::lemma_row_membership(z, y0);
    crate::zones::lemma_row_membership(z, y1);
    crate::zones::lemma_row_membership(z, y2);
    if d0 == d1 {
        crate::lemma_board_zone_count_two(s, crate::zones::row_cells(z), y0, y1, d0);
    }
    if d0 == d2 {
        crate::lemma_board_zone_count_two(s, crate::zones::row_cells(z), y0, y2, d0);
    }
    if d1 == d2 {
        crate::lemma_board_zone_count_two(s, crate::zones::row_cells(z), y1, y2, d1);
    }
    assert(t.cells()[y0].has(d0) && t.cells()[y1].has(d1) && t.cells()[y2].has(d2));
    crate::zones::lemma_zone_count_member(t.cells(), zs, y0, d0);
    crate::zones::lemma_zone_count_member(t.cells(), zs, y1, d1);
    crate::zones::lemma_zone_count_member(t.cells(), zs, y2, d2);
    assert(t.srows_seq()[ti].count_of(d0) >= 1 && t.srows_seq()[ti].count_of(d1) >= 1
        && t.srows_seq()[ti].count_of(d2) >= 1);
}

/// The sector-column analogue of the three-digit guarantee.
proof fn lemma_admit_scol_three(t: RemainingTracker, s: Seq<Option<Val>>, ti: int)
    requires
        t.wf(),
        crate::board_solved(s),
        crate::remaining::cells_admit(t.cells(), s),
        0 <= ti < 27,
    ensures
        exists|d1: int, d2: int, d3: int|
            {
                &&& 1 <= d1 <= 9 && 1 <= d2 <= 9 && 1 <= d3 <= 9
                &&& d1 != d2 && d1 != d3 && d2 != d3
                &&& (#[trigger] t.scols_seq()[ti].count_of(d1)) >= 1
                &&& (#[trigger] t.scols_seq()[ti].count_of(d2)) >= 1
                &&& (#[trigger] t.scols_seq()[ti].count_of(d3)) >= 1
            },
{
    let zs = crate::zones::scol_cells(ti);
    crate::zones::lemma_zone_shapes(ti);
    let y0 = zs[0];
    let y1 = zs[1];
    let y2 = zs[2];
    let d0 = crate::remaining::solution_digit(s, y0);
    let d1 = crate::remaining::solution_digit(s, y1);
    let d2 = crate::remaining::solution_digit(s, y2);
    assert(s[y0] is Some && s[y1] is Some && s[y2] is Some);
    Val::lemma_val_injective(s[y0]->Some_0, s[y0]->Some_0);
    Val::lemma_val_injective(s[y1]->Some_0, s[y1]->Some_0);
    Val::lemma_val_injective(s[y2]->Some_0, s[y2]->Some_0);
    crate::zones::lemma_cell_decompose(y0);
    crate::zones::lemma_cell_decompose(y1);
    crate::zones::lemma_cell_decompose(y2);
    crate::zones::lemma_scol_membership(ti, y0);
    crate::zones::lemma_scol_membership(ti, y1);
    crate::zones::lemma_scol_membership(ti, y2);
    let c = crate::zones::col_of(y0);
    crate::zones::lemma_zone_shapes(c);
    crate::zones::lemma_col_membership(c, y0);
    crate::zones::lemma_col_membership(c, y1);
    crate::zones::lemma_col_membership(c, y2);
    if d0 == d1 {
        crate::lemma_board_zone_count_two(s, crate::zones::col_cells(c), y0, y1, d0);
    }
    if d0 == d2 {
        crate::lemma_board_zone_count_two(s, crate::zones::col_cells(c), y0, y2, d0);
    }
    if d1 == d2 {
        crate::lemma_board_zone_count_two(s, crate::zones::col_cells(c), y1, y2, d1);
    }
    assert(t.cells()[y0].has(d0) && t.cells()[y1].has(d1) && t.cells()[y2].has(d2));
    crate::zones::lemma_zone_count_member(t.cells(), zs, y0, d0);
    crate::zones::lemma_zone_count_member(t.cells(), zs, y1, d1);
    crate::zones::lemma_zone_count_member(t.cells(), zs, y2, d2);
    assert(t.scols_seq()[ti].count_of(d0) >= 1 && t.scols_seq()[ti].count_of(d1) >= 1
        && t.scols_seq()[ti].count_of(d2) >= 1);
}

/// When a digit has exactly one candidate cell left in a row and that
/// cell still offers it, any admitted complete board must place the digit
/// there.
proof fn lemma_unique_home_row(t: RemainingTracker, s: Seq<Option<Val>>, z: int, m: int, ci: int)
    requires
        t.wf(),
        crate::board_solved(s),
        crate::remaining::cells_admit(t.cells(), s),
        0 <= z < 9,
        1 <= m <= 9,
        t.rows_seq()[z].count_of(m) == 1,
        0 <= ci < 81,
        crate::zones::row_of(ci) == z,
        t.cells()[ci].has(m),
    ensures
        crate::remaining::solution_digit(s, ci) == m,
{
    crate::zones::lemma_zone_shapes(z);
    assert(crate::board_zone_count(s, crate::zones::row_cells(z), m) == 1);
    crate::lemma_board_zone_count_exists(s, crate::zones::row_cells(z), m);
    let j = choose|j: int|
        0 <= j < crate::zones::row_cells(z).len() && (#[trigger] s[crate::zones::row_cells(z)[j]])
            is Some && s[crate::zones::row_cells(z)[j]]->Some_0.spec_val() == m;
    let x = crate::zones::row_cells(z)[j];
    assert(crate::remaining::solution_digit(s, x) == m);
    assert(t.cells()[x].has(m));
    assert(crate::zones::row_cells(z).contains(x));
    crate::zones::lemma_row_membership(z, ci);
    if x != ci {
        crate::zones::lemma_zone_count_two(t.cells(), crate::zones::row_cells(z), x, ci, m);
    }
}

/// The column analogue of the unique-home property.
proof fn lemma_unique_home_col(t: RemainingTracker, s: Seq<Option<Val>>, z: int, m: int, ci: int)
    requires
        t.wf(),
        crate::board_solved(s),
        crate::remaining::cells_admit(t.cells(), s),
        0 <= z < 9,
        1 <= m <= 9,
        t.cols_seq()[z].count_of(m) == 1,
        0 <= ci < 81,
        crate::zones::col_of(ci) == z,
        t.cells()[ci].has(m),
    ensures
        crate::remaining::solution_digit(s, ci) == m,
{
    crate::zones::lemma_zone_shapes(z);
    assert(crate::board_zone_count(s, crate::zones::col_cells(z), m) == 1);
    crate::lemma_board_zone_count_exists(s, crate::zones::col_cells(z), m);
    let j = choose|j: int|
        0 <= j < crate::zones::col_cells(z).len() && (#[trigger] s[crate::zones::col_cells(z)[j]])
            is Some && s[crate::zones::col_cells(z)[j]]->Some_0.spec_val() == m;
    let x = crate::zones::col_cells(z)[j];
    assert(crate::remaining::solution_digit(s, x) == m);
    assert(t.cells()[x].has(m));
    assert(crate::zones::col_cells(z).contains(x));
    crate::zones::lemma_col_membership(z, ci);
    if x != ci {
        crate::zones::lemma_zone_count_two(t.cells(), crate::zones::col_cells(z), x, ci, m);
    }
}

/// The sector analogue of the unique-home property.
proof fn lemma_unique_home_sector(t: RemainingTracker, s: Seq<Option<Val>>, z: int, m: int, ci: int)
    requires
        t.wf(),
        crate::board_solved(s),
        crate::remaining::cells_admit(t.cells(), s),
        0 <= z < 9,
        1 <= m <= 9,
        t.sectors_seq()[z].count_of(m) == 1,
        0 <= ci < 81,
        crate::zones::sector_of(ci) == z,
        t.cells()[ci].has(m),
    ensures
        crate::remaining::solution_digit(s, ci) == m,
{
    crate::zones::lemma_zone_shapes(z);
    assert(crate::board_zone_count(s, crate::zones::sector_cells(z), m) == 1);
    crate::lemma_board_zone_count_exists(s, crate::zones::sector_cells(z), m);
    let j = choose|j: int|
        0 <= j < crate::zones::sector_cells(z).len() && (#[trigger] s[crate::zones::sector_cells(
            z,
        )[j]]) is Some && s[crate::zones::sector_cells(z)[j]]->Some_0.spec_val() == m;
    let x = crate::zones::sector_cells(z)[j];
    assert(crate::remaining::solution_digit(s, x) == m);
    assert(t.cells()[x].has(m));
    assert(crate::zones::sector_cells(z).contains(x));
    crate::zones::lemma_sector_membership(z, ci);
    if x != ci {
        crate::zones::lemma_zone_count_two(t.cells(), crate::zones::sector_cells(z), x, ci, m);
    }
}

/// When a sector-row is down to exactly three available digits, any
/// admitted complete board uses those digits inside it, so they cannot
/// appear in a different sector-row of the same row or sector.
proof fn lemma_trip_srow_absent(
    t: RemainingTracker,
    s: Seq<Option<Val>>,
    ti: int,
    nb: int,
    ii: int,
    vals: AvailSet,
)
    requires
        t.wf(),
        crate::board_solved(s),
        crate::remaining::cells_admit(t.cells(), s),
        0 <= ti < 27,
        0 <= nb < 27,
        nb != ti,
        ti / 3 == nb / 3 || ((ti / 3) / 3) * 3 + ti % 3 == ((nb / 3) / 3) * 3 + nb % 3,
        crate::zones::srow_cells(nb).contains(ii),
        vals.wf(),
        vals.count() == 3,
        forall|d: int| #[trigger] vals.has(d) <==> 1 <= d <= 9 && t.srows_seq()[ti].count_of(d) > 0,
    ensures
        0 <= ii < 81,
        !vals.has(crate::remaining::solution_digit(s, ii)),
{
    let zs = crate::zones::srow_cells(ti);
    crate::zones::lemma_zone_shapes(ti);
    crate::zones::lemma_zone_shapes(nb);
    let y0 = zs[0];
    let y1 = zs[1];
    let y2 = zs[2];
    let e0 = crate::remaining::solution_digit(s, y0);
    let e1 = crate::remaining::solution_digit(s, y1);
    let e2 = crate::remaining::solution_digit(s, y2);
    assert(s[y0] is Some && s[y1] is Some && s[y2] is Some);
    Val::lemma_val_injective(s[y0]->Some_0, s[y0]->Some_0);
    Val::lemma_val_injective(s[y1]->Some_0, s[y1]->Some_0);
    Val::lemma_val_injective(s[y2]->Some_0, s[y2]->Some_0);
    crate::zones::lemma_cell_decompose(y0);
    crate::zones::lemma_cell_decompose(y1);
    crate::zones::lemma_cell_decompose(y2);
    crate::zones::lemma_srow_membership(ti, y0);
    crate::zones::lemma_srow_membership(ti, y1);
    crate::zones::lemma_srow_membership(ti, y2);
    let z = ti / 3;
    crate::zones::lemma_zone_shapes(z);
    crate::zones::lemma_row_membership(z, y0);
    crate::zones::lemma_row_membership(z, y1);
    crate::zones::lemma_row_membership(z, y2);
    if e0 == e1 {
        crate::lemma_board_zone_count_two(s, crate::zones::row_cells(z), y0, y1, e0);
    }
    if e0 == e2 {
        crate::lemma_board_zone_count_two(s, crate::zones::row_cells(z), y0, y2, e0);
    }
    if e1 == e2 {
        crate::lemma_board_zone_count_two(s, crate::zones::row_cells(z), y1, y2, e1);
    }
    assert(t.cells()[y0].has(e0) && t.cells()[y1].has(e1) && t.cells()[y2].has(e2));
    crate::zones::lemma_zone_count_member(t.cells(), zs, y0, e0);
    crate::zones::lemma_zone_count_member(t.cells(), zs, y1, e1);
    crate::zones::lemma_zone_count_member(t.cells(), zs, y2, e2);
    assert(vals.has(e0) && vals.has(e1) && vals.has(e2));
    crate::zones::lemma_cell_decompose(ii);
    crate::zones::lemma_srow_membership(nb, ii);
    let d = crate::remaining::solution_digit(s, ii);
    if vals.has(d) {
        if d != e0 && d != e1 && d != e2 {
            crate::availset::lemma_count_distinct_members(vals.mask(), seq![e0, e1, e2, d]);
        }
        let y = if d == e0 {
            y0
        } else if d == e1 {
            y1
        } else {
            y2
        };
        assert(crate::remaining::solution_digit(s, y) == d && ii != y);
        if ti / 3 == nb / 3 {
            crate::zones::lemma_row_membership(z, ii);
            crate::lemma_board_zone_count_two(s, crate::zones::row_cells(z), y, ii, d);
        } else {
            let sec = crate::zones::sector_of(y);
            crate::zones::lemma_zone_shapes(sec);
            crate::zones::lemma_sector_membership(sec, y);
            crate::zones::lemma_sector_membership(sec, ii);
            crate::lemma_board_zone_count_two(s, crate::zones::sector_cells(sec), y, ii, d);
        }
    }
}

/// The sector-column analogue of the three-digit confinement.
proof fn lemma_trip_scol_absent(
    t: RemainingTracker,
    s: Seq<Option<Val>>,
    ti: int,
    nb: int,
    ii: int,
    vals: AvailSet,
)
    requires
        t.wf(),
        crate::board_solved(s),
        crate::remaining::cells_admit(t.cells(), s),
        0 <= ti < 27,
        0 <= nb < 27,
        nb != ti,
        ((ti / 3) % 3) * 3 + ti % 3 == ((nb / 3) % 3) * 3 + nb % 3 || ti / 3 == nb / 3,
        crate::zones::scol_cells(nb).contains(ii),
        vals.wf(),
        vals.count() == 3,
        forall|d: int| #[trigger] vals.has(d) <==> 1 <= d <= 9 && t.scols_seq()[ti].count_of(d) > 0,
    ensures
        0 <= ii < 81,
        !vals.has(crate::remaining::solution_digit(s, ii)),
{
    let zs = crate::zones::scol_cells(ti);
    crate::zones::lemma_zone_shapes(ti);
    crate::zones::lemma_zone_shapes(nb);
    let y0 = zs[0];
    let y1 = zs[1];
    let y2 = zs[2];
    let e0 = crate::remaining::solution_digit(s, y0);
    let e1 = crate::remaining::solution_digit(s, y1);
    let e2 = crate::remaining::solution_digit(s, y2);
    assert(s[y0] is Some && s[y1] is Some && s[y2] is Some);
    Val::lemma_val_injective(s[y0]->Some_0, s[y0]->Some_0);
    Val::lemma_val_injective(s[y1]->Some_0, s[y1]->Some_0);
    Val::lemma_val_injective(s[y2]->Some_0, s[y2]->Some_0);
    crate::zones::lemma_cell_decompose(y0);
    crate::zones::lemma_cell_decompose(y1);
    crate::zones::lemma_cell_decompose(y2);
    crate::zones::lemma_scol_membership(ti, y0);
    crate::zones::lemma_scol_membership(ti, y1);
    crate::zones::lemma_scol_membership(ti, y2);
    let c = crate::zones::col_of(y0);
    crate::zones::lemma_zone_shapes(c);
    crate::zones::lemma_col_membership(c, y0);
    crate::zones::lemma_col_membership(c, y1);
    crate::zones::lemma_col_membership(c, y2);
    if e0 == e1 {
        crate::lemma_board_zone_count_two(s, crate::zones::col_cells(c), y0, y1, e0);
    }
    if e0 == e2 {
        crate::lemma_board_zone_count_two(s, crate::zones::col_cells(c), y0, y2, e0);
    }
    if e1 == e2 {
        crate::lemma_board_zone_count_two(s, crate::zones::col_cells(c), y1, y2, e1);
    }
    assert(t.cells()[y0].has(e0) && t.cells()[y1].has(e1) && t.cells()[y2].has(e2));
    crate::zones::lemma_zone_count_member(t.cells(), zs, y0, e0);
    crate::zones::lemma_zone_count_member(t.cells(), zs, y1, e1);
    crate::zones::lemma_zone_count_member(t.cells(), zs, y2, e2);
    assert(vals.has(e0) && vals.has(e1) && vals.has(e2));
    crate::zones::lemma_cell_decompose(ii);
    crate::zones::lemma_scol_membership(nb, ii);
    let d = crate::remaining::solution_digit(s, ii);
    if vals.has(d) {
        if d != e0 && d != e1 && d != e2 {
            crate::availset::lemma_count_distinct_members(vals.mask(), seq![e0, e1, e2, d]);
        }
        let y = if d == e0 {
            y0
        } else if d == e1 {
            y1
        } else {
            y2
        };
        assert(crate::remaining::solution_digit(s, y) == d && ii != y);
        if ((ti / 3) % 3) * 3 + ti % 3 == ((nb / 3) % 3) * 3 + nb % 3 {
            assert(crate::zones::col_of(ii) == c);
            crate::zones::lemma_col_membership(c, ii);
            crate::lemma_board_zone_count_two(s, crate::zones::col_cells(c), y, ii, d);
        } else {
            let sec = crate::zones::sector_of(y);
            crate::zones::lemma_zone_shapes(sec);
            crate::zones::lemma_sector_membership(sec, y);
            crate::zones::lemma_sector_membership(sec, ii);
            crate::lemma_board_zone_count_two(s, crate::zones::sector_cells(sec), y, ii, d);
        }
    }
}

/// A digit confined within its row to one sector-row cannot, on any
/// admitted complete board, sit in another sector-row of the same sector.
proof fn lemma_confined_row_absent(
    t: RemainingTracker,
    s: Seq<Option<Val>>,
    ti: int,
    nb: int,
    ii: int,
    d: int,
)
    requires
        t.wf(),
        crate::board_solved(s),
        crate::remaining::cells_admit(t.cells(), s),
        0 <= ti < 27,
        0 <= nb < 27,
        nb != ti,
        ((ti / 3) / 3) * 3 + ti % 3 == ((nb / 3) / 3) * 3 + nb % 3,
        crate::zones::srow_cells(nb).contains(ii),
        1 <= d <= 9,
        t.srows_seq()[ti].count_of(d) == t.rows_seq()[ti / 3].count_of(d),
    ensures
        crate::remaining::solution_digit(s, ii) != d,
{
    if crate::remaining::solution_digit(s, ii) != d {
        return ;
    }
    let z = ti / 3;
    crate::zones::lemma_zone_shapes(z);
    crate::zones::lemma_zone_shapes(ti);
    crate::zones::lemma_zone_shapes(nb);
    assert(crate::board_zone_count(s, crate::zones::row_cells(z), d) == 1);
    crate::lemma_board_zone_count_exists(s, crate::zones::row_cells(z), d);
    let j = choose|j: int|
        0 <= j < crate::zones::row_cells(z).len() && (#[trigger] s[crate::zones::row_cells(z)[j]])
            is Some && s[crate::zones::row_cells(z)[j]]->Some_0.spec_val() == d;
    let x = crate::zones::row_cells(z)[j];
    assert(crate::remaining::solution_digit(s, x) == d);
    assert(t.cells()[x].has(d));
    crate::zones::lemma_cell_decompose(x);
    crate::zones::lemma_srow_membership(crate::zones::srow_of(x), x);
    crate::zones::lemma_row_split(t.cells(), z, d);
    crate::zones::lemma_zone_count_bounds(t.cells(), crate::zones::srow_cells(3 * z), d);
    crate::zones::lemma_zone_count_bounds(t.cells(), crate::zones::srow_cells(3 * z + 1), d);
    crate::zones::lemma_zone_count_bounds(t.cells(), crate::zones::srow_cells(3 * z + 2), d);
    assert(crate::zones::srow_of(x) == ti) by {
        assert(crate::zones::row_of(x) == z);
        assert(crate::zones::srow_of(x) / 3 == z);
        if crate::zones::srow_of(x) != ti {
            crate::zones::lemma_zone_count_member(
                t.cells(),
                crate::zones::srow_cells(crate::zones::srow_of(x)),
                x,
                d,
            );
            assert(crate::zones::zone_count(t.cells(), crate::zones::srow_cells(ti), d)
                == t.srows_seq()[ti].count_of(d));
        }
    }
    crate::zones::lemma_cell_decompose(ii);
    crate::zones::lemma_srow_membership(nb, ii);
    assert(ii != x);
    let sec = crate::zones::sector_of(x);
    crate::zones::lemma_zone_shapes(sec);
    crate::zones::lemma_sector_membership(sec, x);
    crate::zones::lemma_sector_membership(sec, ii);
    crate::lemma_board_zone_count_two(s, crate::zones::sector_cells(sec), x, ii, d);
}

/// A digit confined within its sector to one sector-row cannot, on any
/// admitted complete board, sit in another sector-row of the same row.
proof fn lemma_confined_sec_row_absent(
    t: RemainingTracker,
    s: Seq<Option<Val>>,
    ti: int,
    nb: int,
    ii: int,
    d: int,
)
    requires
        t.wf(),
        crate::board_solved(s),
        crate::remaining::cells_admit(t.cells(), s),
        0 <= ti < 27,
        0 <= nb < 27,
        nb != ti,
        nb / 3 == ti / 3,
        crate::zones::srow_cells(nb).contains(ii),
        1 <= d <= 9,
        t.srows_seq()[ti].count_of(d) == t.sectors_seq()[((ti / 3) / 3) * 3 + ti % 3].count_of(d),
    ensures
        crate::remaining::solution_digit(s, ii) != d,
{
    if crate::remaining::solution_digit(s, ii) != d {
        return ;
    }
    let sec = ((ti / 3) / 3) * 3 + ti % 3;
    crate::zones::lemma_zone_shapes(sec);
    crate::zones::lemma_zone_shapes(ti);
    crate::zones::lemma_zone_shapes(nb);
    assert(crate::board_zone_count(s, crate::zones::sector_cells(sec), d) == 1);
    crate::lemma_board_zone_count_exists(s, crate::zones::sector_cells(sec), d);
    let j = choose|j: int|
        0 <= j < crate::zones::sector_cells(sec).len() && (#[trigger] s[crate::zones::sector_cells(
            sec,
        )[j]]) is Some && s[crate::zones::sector_cells(sec)[j]]->Some_0.spec_val() == d;
    let x = crate::zones::sector_cells(sec)[j];
    assert(crate::remaining::solution_digit(s, x) == d);
    assert(t.cells()[x].has(d));
    crate::zones::lemma_cell_decompose(x);
    crate::zones::lemma_srow_membership(crate::zones::srow_of(x), x);
    crate::zones::lemma_sector_membership(sec, x);
    crate::zones::lemma_sector_split_srows(t.cells(), sec, d);
    crate::zones::lemma_zone_count_bounds(
        t.cells(),
        crate::zones::srow_cells(((sec / 3) * 3) * 3 + sec % 3),
        d,
    );
    crate::zones::lemma_zone_count_bounds(
        t.cells(),
        crate::zones::srow_cells(((sec / 3) * 3 + 1) * 3 + sec % 3),
        d,
    );
    crate::zones::lemma_zone_count_bounds(
        t.cells(),
        crate::zones::srow_cells(((sec / 3) * 3 + 2) * 3 + sec % 3),
        d,
    );
    assert(crate::zones::srow_of(x) == ti) by {
        assert(crate::zones::sector_of(x) == sec);
        assert(((crate::zones::srow_of(x) / 3) / 3) * 3 + crate::zones::srow_of(x) % 3 == sec);
        assert(ti == ((sec / 3) * 3 + (ti / 3) % 3) * 3 + sec % 3);
        assert(crate::zones::srow_of(x) == ((sec / 3) * 3 + (crate::zones::srow_of(x) / 3) % 3) * 3
            + sec % 3);
        if crate::zones::srow_of(x) != ti {
            crate::zones::lemma_zone_count_member(
                t.cells(),
                crate::zones::srow_cells(crate::zones::srow_of(x)),
                x,
                d,
            );
            assert(crate::zones::zone_count(t.cells(), crate::zones::srow_cells(ti), d)
                == t.srows_seq()[ti].count_of(d));
        }
    }
    crate::zones::lemma_cell_decompose(ii);
    crate::zones::lemma_srow_membership(nb, ii);
    assert(ii != x);
    let z = ti / 3;
    crate::zones::lemma_zone_shapes(z);
    crate::zones::lemma_row_membership(z, x);
    crate::zones::lemma_row_membership(z, ii);
    crate::lemma_board_zone_count_two(s, crate::zones::row_cells(z), x, ii, d);
}

/// A digit confined within its column to one sector-column cannot, on any
/// admitted complete board, sit in another sector-column of the same
/// sector.
#[verifier::rlimit(100)]
#[verifier::spinoff_prover]
proof fn lemma_confined_col_absent(
    t: RemainingTracker,
    s: Seq<Option<Val>>,
    ti: int,
    nb: int,
    ii: int,
    d: int,
)
    requires
        t.wf(),
        crate::board_solved(s),
        crate::remaining::cells_admit(t.cells(), s),
        0 <= ti < 27,
        0 <= nb < 27,
        nb != ti,
        nb / 3 == ti / 3,
        crate::zones::scol_cells(nb).contains(ii),
        1 <= d <= 9,
        t.scols_seq()[ti].count_of(d) == t.cols_seq()[((ti / 3) % 3) * 3 + ti % 3].count_of(d),
    ensures
        crate::remaining::solution_digit(s, ii) != d,
{
    if crate::remaining::solution_digit(s, ii) != d {
        return ;
    }
    let c = ((ti / 3) % 3) * 3 + ti % 3;
    crate::zones::lemma_zone_shapes(c);
    crate::zones::lemma_zone_shapes(ti);
    crate::zones::lemma_zone_shapes(nb);
    assert(crate::board_zone_count(s, crate::zones::col_cells(c), d) == 1);
    crate::lemma_board_zone_count_exists(s, crate::zones::col_cells(c), d);
    let j = choose|j: int|
        0 <= j < crate::zones::col_cells(c).len() && (#[trigger] s[crate::zones::col_cells(c)[j]])
            is Some && s[crate::zones::col_cells(c)[j]]->Some_0.spec_val() == d;
    let x = crate::zones::col_cells(c)[j];
    assert(crate::remaining::solution_digit(s, x) == d);
    assert(t.cells()[x].has(d));
    crate::zones::lemma_cell_decompose(x);
    crate::zones::lemma_scol_membership(crate::zones::scol_of(x), x);
    crate::zones::lemma_col_split(t.cells(), c, d);
    crate::zones::lemma_zone_count_bounds(
        t.cells(),
        crate::zones::scol_cells((c / 3) * 3 + c % 3),
        d,
    );
    crate::zones::lemma_zone_count_bounds(
        t.cells(),
        crate::zones::scol_cells((3 + c / 3) * 3 + c % 3),
        d,
    );
    crate::zones::lemma_zone_count_bounds(
        t.cells(),
        crate::zones::scol_cells((6 + c / 3) * 3 + c % 3),
        d,
    );
    assert(crate::zones::scol_of(x) == ti) by {
        assert(crate::zones::col_of(x) == c);
        assert(((crate::zones::scol_of(x) / 3) % 3) * 3 + crate::zones::scol_of(x) % 3 == c);
        assert(ti == ((ti / 3) / 3 * 3 + c / 3) * 3 + c % 3);
        assert(crate::zones::scol_of(x) == ((crate::zones::scol_of(x) / 3) / 3 * 3 + c / 3) * 3 + c
            % 3);
        if crate::zones::scol_of(x) != ti {
            crate::zones::lemma_zone_count_member(
                t.cells(),
                crate::zones::scol_cells(crate::zones::scol_of(x)),
                x,
                d,
            );
            assert(crate::zones::zone_count(t.cells(), crate::zones::scol_cells(ti), d)
                == t.scols_seq()[ti].count_of(d));
        }
    }
    crate::zones::lemma_cell_decompose(ii);
    crate::zones::lemma_scol_membership(nb, ii);
    assert(ii != x);
    let sec = crate::zones::sector_of(x);
    crate::zones::lemma_zone_shapes(sec);
    crate::zones::lemma_sector_membership(sec, x);
    crate::zones::lemma_sector_membership(sec, ii);
    crate::lemma_board_zone_count_two(s, crate::zones::sector_cells(sec), x, ii, d);
}

/// A digit confined within its sector to one sector-column cannot, on any
/// admitted complete board, sit in another sector-column of the same
/// column.
proof fn lemma_confined_sec_col_absent(
    t: RemainingTracker,
    s: Seq<Option<Val>>,
    ti: int,
    nb: int,
    ii: int,
    d: int,
)
    requires
        t.wf(),
        crate::board_solved(s),
        crate::remaining::cells_admit(t.cells(), s),
        0 <= ti < 27,
        0 <= nb < 27,
        nb != ti,
        ((nb / 3) % 3) * 3 + nb % 3 == ((ti / 3) % 3) * 3 + ti % 3,
        crate::zones::scol_cells(nb).contains(ii),
        1 <= d <= 9,
        t.scols_seq()[ti].count_of(d) == t.sectors_seq()[ti / 3].count_of(d),
    ensures
        crate::remaining::solution_digit(s, ii) != d,
{
    if crate::remaining::solution_digit(s, ii) != d {
        return ;
    }
    let sec = ti / 3;
    crate::zones::lemma_zone_shapes(sec);
    crate::zones::lemma_zone_shapes(ti);
    crate::zones::lemma_zone_shapes(nb);
    assert(crate::board_zone_count(s, crate::zones::sector_cells(sec), d) == 1);
    crate::lemma_board_zone_count_exists(s, crate::zones::sector_cells(sec), d);
    let j = choose|j: int|
        0 <= j < crate::zones::sector_cells(sec).len() && (#[trigger] s[crate::zones::sector_cells(
            sec,
        )[j]]) is Some && s[crate::zones::sector_cells(sec)[j]]->Some_0.spec_val() == d;
    let x = crate::zones::sector_cells(sec)[j];
    assert(crate::remaining::solution_digit(s, x) == d);
    assert(t.cells()[x].has(d));
    crate::zones::lemma_cell_decompose(x);
    crate::zones::lemma_scol_membership(crate::zones::scol_of(x), x);
    crate::zones::lemma_sector_membership(sec, x);
    crate::zones::lemma_sector_split_scols(t.cells(), sec, d);
    crate::zones::lemma_zone_count_bounds(t.cells(), crate::zones::scol_cells(sec * 3), d);
    crate::zones::lemma_zone_count_bounds(t.cells(), crate::zones::scol_cells(sec * 3 + 1), d);
    crate::zones::lemma_zone_count_bounds(t.cells(), crate::zones::scol_cells(sec * 3 + 2), d);
    assert(crate::zones::scol_of(x) == ti) by {
        assert(crate::zones::sector_of(x) == sec);
        assert(crate::zones::scol_of(x) / 3 == sec);
        if crate::zones::scol_of(x) != ti {
            crate::zones::lemma_zone_count_member(
                t.cells(),
                crate::zones::scol_cells(crate::zones::scol_of(x)),
                x,
                d,
            );
            assert(crate::zones::zone_count(t.cells(), crate::zones::scol_cells(ti), d)
                == t.scols_seq()[ti].count_of(d));
        }
    }
    crate::zones::lemma_cell_decompose(ii);
    crate::zones::lemma_scol_membership(nb, ii);
    assert(ii != x);
    let c = crate::zones::col_of(x);
    crate::zones::lemma_zone_shapes(c);
    crate::zones::lemma_col_membership(c, x);
    assert(crate::zones::col_of(ii) == c);
    crate::zones::lemma_col_membership(c, ii);
    crate::lemma_board_zone_count_two(s, crate::zones::col_cells(c), x, ii, d);
}

/// A tracker that admits a complete board is never known unsolveable.
pub(crate) proof fn lemma_admit_not_ku(t: RemainingTracker, s: Seq<Option<Val>>)
    requires
        t.wf(),
        crate::board_solved(s),
        crate::remaining::cells_admit(t.cells(), s),
    ensures
        !t.spec_known_unsolveable(),
{
    assert forall|i: int| 0 <= i < 81 implies (#[trigger] t.cells()[i]).count() != 0 by {
        assert(t.cells()[i].has(crate::remaining::solution_digit(s, i)));
        crate::availset::AvailSet::lemma_count_facts(t.cells()[i]);
    }
    assert forall|z: int|
        0 <= z < 9 implies crate::remaining::counter_avail_count(#[trigger] t.rows_seq()[z])
        >= 9 by {
        crate::lemma_counter_avail_missing(t.rows_seq()[z]);
        if crate::remaining::counter_avail_count(t.rows_seq()[z]) < 9 {
            let d = choose|d: int| 1 <= d <= 9 && #[trigger] t.rows_seq()[z].count_of(d) == 0;
            lemma_admit_zone_counts(t, s, z, d);
        }
    }
    assert forall|z: int|
        0 <= z < 9 implies crate::remaining::counter_avail_count(#[trigger] t.cols_seq()[z])
        >= 9 by {
        crate::lemma_counter_avail_missing(t.cols_seq()[z]);
        if crate::remaining::counter_avail_count(t.cols_seq()[z]) < 9 {
            let d = choose|d: int| 1 <= d <= 9 && #[trigger] t.cols_seq()[z].count_of(d) == 0;
            lemma_admit_zone_counts(t, s, z, d);
        }
    }
    assert forall|z: int|
        0 <= z < 9 implies crate::remaining::counter_avail_count(#[trigger] t.sectors_seq()[z])
        >= 9 by {
        crate::lemma_counter_avail_missing(t.sectors_seq()[z]);
        if crate::remaining::counter_avail_count(t.sectors_seq()[z]) < 9 {
            let d = choose|d: int| 1 <= d <= 9 && #[trigger] t.sectors_seq()[z].count_of(d) == 0;
            lemma_admit_zone_counts(t, s, z, d);
        }
    }
}

/// The steps that the sector-row follow-up work enqueues after the last
/// copy of digit `vd` left sector-row `sri`: its size-match visit when
/// exactly three digits remain, and each neighbouring sector-line whose
/// count of `vd` now matches its whole row or sector.
pub(crate) open spec fn srow_pushes(t: RemainingTracker, sri: int, vd: int, sl: int) -> bool {
    let rowz = sri / 3;
    let band = sri % 3;
    let nb0 = rowz * 3 + crate::coordinates::other_in_triple(0, band, 0);
    let nb1 = rowz * 3 + crate::coordinates::other_in_triple(0, band, 1);
    let base_row = rowz - rowz % 3;
    let sb0 = crate::coordinates::other_in_triple(base_row, rowz, 0) * 3 + band;
    let sb1 = crate::coordinates::other_in_triple(base_row, rowz, 1) * 3 + band;
    ||| (sl == 108 + sri && crate::remaining::counter_avail_count(t.srows_seq()[sri]) == 3)
    ||| (sl == 162 + nb0 && t.srows_seq()[nb0].count_of(vd) == t.rows_seq()[rowz].count_of(vd))
    ||| (sl == 162 + nb1 && t.srows_seq()[nb1].count_of(vd) == t.rows_seq()[rowz].count_of(vd))
    ||| (sl == 189 + sb0 && t.srows_seq()[sb0].count_of(vd) == t.sectors_seq()[(rowz / 3) * 3
        + band].count_of(vd))
    ||| (sl == 189 + sb1 && t.srows_seq()[sb1].count_of(vd) == t.sectors_seq()[(rowz / 3) * 3
        + band].count_of(vd))
}

/// The sector-column analogue of [`srow_pushes`].
pub(crate) open spec fn scol_pushes(t: RemainingTracker, sci: int, vd: int, sl: int) -> bool {
    let sector = sci / 3;
    let rel = sci % 3;
    let colband = sector / 3;
    let colz = (sector % 3) * 3 + rel;
    let nb0 = (crate::coordinates::other_in_triple(0, colband, 0) * 3 + sector % 3) * 3 + rel;
    let nb1 = (crate::coordinates::other_in_triple(0, colband, 1) * 3 + sector % 3) * 3 + rel;
    let sb0 = sector * 3 + crate::coordinates::other_in_triple(0, rel, 0);
    let sb1 = sector * 3 + crate::coordinates::other_in_triple(0, rel, 1);
    ||| (sl == 135 + sci && crate::remaining::counter_avail_count(t.scols_seq()[sci]) == 3)
    ||| (sl == 216 + nb0 && t.scols_seq()[nb0].count_of(vd) == t.cols_seq()[colz].count_of(vd))
    ||| (sl == 216 + nb1 && t.scols_seq()[nb1].count_of(vd) == t.cols_seq()[colz].count_of(vd))
    ||| (sl == 243 + sb0 && t.scols_seq()[sb0].count_of(vd) == t.sectors_seq()[sector].count_of(
        vd,
    ))
    ||| (sl == 243 + sb1 && t.scols_seq()[sb1].count_of(vd) == t.sectors_seq()[sector].count_of(
        vd,
    ))
}

/// Everything one elimination enqueues, as a function of the tracker it
/// leaves behind: the cell's singular visit when one candidate remains,
/// each zone's singularised visit when the digit is down to one cell, and
/// the sector-line follow-ups when the digit left a sector-line entirely.
pub(crate) open spec fn elim_enqueued(t: RemainingTracker, i: int, vd: int, sl: int) -> bool {
    ||| (sl == i && t.cells()[i].count() == 1)
    ||| (sl == 81 + crate::zones::row_of(i) && t.rows_seq()[crate::zones::row_of(i)].count_of(vd)
        == 1)
    ||| (sl == 90 + crate::zones::col_of(i) && t.cols_seq()[crate::zones::col_of(i)].count_of(vd)
        == 1)
    ||| (sl == 99 + crate::zones::sector_of(i) && t.sectors_seq()[crate::zones::sector_of(
        i,
    )].count_of(vd) == 1)
    ||| (t.srows_seq()[crate::zones::srow_of(i)].count_of(vd) == 0 && srow_pushes(
        t,
        crate::zones::srow_of(i),
        vd,
        sl,
    ))
    ||| (t.scols_seq()[crate::zones::scol_of(i)].count_of(vd) == 0 && scol_pushes(
        t,
        crate::zones::scol_of(i),
        vd,
        sl,
    ))
}

} // verus!

//! Specification-level description of the board's zones.
//!
//! A zone is a list of flat cell indices: one of the nine rows, nine
//! columns, nine sectors, twenty-seven sector-rows or twenty-seven
//! sector-columns. The counting functions here give, for a vector of
//! per-cell candidate sets, how many cells of a zone still admit a digit;
//! the tracker's consistency law equates those counts with its stored
//! counters.

use vstd::prelude::*;

use crate::availset::AvailSet;

verus! {

/// Flat indices of the cells of row `r`, left to right.
pub open spec fn row_cells(r: int) -> Seq<int> {
    Seq::new(9, |k: int| r * 9 + k)
}

/// Flat indices of the cells of column `c`, top to bottom.
pub open spec fn col_cells(c: int) -> Seq<int> {
    Seq::new(9, |k: int| k * 9 + c)
}

/// Flat indices of the cells of sector `s`, rows first.
pub open spec fn sector_cells(s: int) -> Seq<int> {
    Seq::new(9, |k: int| ((s / 3) * 3 + k / 3) * 9 + (s % 3) * 3 + k % 3)
}

/// Flat indices of the cells of sector-row `t`, left to right.
pub open spec fn srow_cells(t: int) -> Seq<int> {
    Seq::new(3, |k: int| (t / 3) * 9 + (t % 3) * 3 + k)
}

/// Flat indices of the cells of sector-column `t`, top to bottom.
pub open spec fn scol_cells(t: int) -> Seq<int> {
    Seq::new(3, |k: int| (((t / 3) / 3) * 3 + k) * 9 + ((t / 3) % 3) * 3 + t % 3)
}

/// Row index of the cell with flat index `i`.
pub open spec fn row_of(i: int) -> int {
    i / 9
}

/// Column index of the cell with flat index `i`.
pub open spec fn col_of(i: int) -> int {
    i % 9
}

/// Sector index of the cell with flat index `i`.
pub open spec fn sector_of(i: int) -> int {
    (row_of(i) / 3) * 3 + col_of(i) / 3
}

/// Sector-row index of the cell with flat index `i`.
pub open spec fn srow_of(i: int) -> int {
    row_of(i) * 3 + col_of(i) / 3
}

/// Sector-column index of the cell with flat index `i`.
pub open spec fn scol_of(i: int) -> int {
    sector_of(i) * 3 + col_of(i) % 3
}

/// A zone is a list of valid, pairwise distinct cell indices.
pub open spec fn zone_wf(zs: Seq<int>) -> bool {
    &&& forall|j: int| 0 <= j < zs.len() ==> 0 <= #[trigger] zs[j] < 81
    &&& forall|j1: int, j2: int| 0 <= j1 < j2 < zs.len() ==> zs[j1] != zs[j2]
}

/// Number of cells of zone `zs` whose candidate set in `cells` admits `d`.
pub open spec fn zone_count(cells: Seq<AvailSet>, zs: Seq<int>, d: int) -> int
    decreases zs.len(),
{
    if zs.len() == 0 {
        0
    } else {
        zone_count(cells, zs.drop_last(), d) + if cells[zs.last()].has(d) {
            1int
        } else {
            0int
        }
    }
}

/// Every row, column and sector zone is well formed, and membership in a
/// zone is equivalent to the cell's zone index matching.
pub proof fn lemma_zone_shapes(z: int)
    ensures
        0 <= z < 9 ==> zone_wf(row_cells(z)) && row_cells(z).len() == 9,
        0 <= z < 9 ==> zone_wf(col_cells(z)) && col_cells(z).len() == 9,
        0 <= z < 9 ==> zone_wf(sector_cells(z)) && sector_cells(z).len() == 9,
        0 <= z < 27 ==> zone_wf(srow_cells(z)) && srow_cells(z).len() == 3,
        0 <= z < 27 ==> zone_wf(scol_cells(z)) && scol_cells(z).len() == 3,
{
}

/// The row and column of a flat cell index recombine to the index, and all
/// derived zone indices are in range.
pub proof fn lemma_cell_decompose(i: int)
    requires
        0 <= i < 81,
    ensures
        i == row_of(i) * 9 + col_of(i),
        0 <= row_of(i) < 9,
        0 <= col_of(i) < 9,
        0 <= sector_of(i) < 9,
        0 <= srow_of(i) < 27,
        0 <= scol_of(i) < 27,
        row_of(i) == (row_of(i) / 3) * 3 + row_of(i) % 3,
        col_of(i) == (col_of(i) / 3) * 3 + col_of(i) % 3,
        sector_of(i) / 3 == row_of(i) / 3,
        sector_of(i) % 3 == col_of(i) / 3,
        srow_of(i) / 3 == row_of(i),
        srow_of(i) % 3 == col_of(i) / 3,
        scol_of(i) / 3 == sector_of(i),
        scol_of(i) % 3 == col_of(i) % 3,
{
    let r = row_of(i);
    let c = col_of(i);
    assert(i == r * 9 + c);
    assert(0 <= r < 9 && 0 <= c < 9);
    assert(((r / 3) * 3 + c / 3) / 3 == r / 3);
    assert(((r / 3) * 3 + c / 3) % 3 == c / 3);
    assert((r * 3 + c / 3) / 3 == r);
    assert((r * 3 + c / 3) % 3 == c / 3);
    assert((sector_of(i) * 3 + c % 3) / 3 == sector_of(i));
    assert((sector_of(i) * 3 + c % 3) % 3 == c % 3);
}

/// A cell index is in a row zone exactly when its row index matches.
pub proof fn lemma_row_membership(z: int, i: int)
    requires
        0 <= i < 81,
        0 <= z < 9,
    ensures
        row_cells(z).contains(i) <==> row_of(i) == z,
{
    lemma_cell_decompose(i);
    if row_of(i) == z {
        assert(row_cells(z)[col_of(i)] == i);
    }
    if row_cells(z).contains(i) {
        let k = choose|k: int| 0 <= k < 9 && row_cells(z)[k] == i;
        assert(i == z * 9 + k);
    }
}

/// A cell index is in a column zone exactly when its column index matches.
pub proof fn lemma_col_membership(z: int, i: int)
    requires
        0 <= i < 81,
        0 <= z < 9,
    ensures
        col_cells(z).contains(i) <==> col_of(i) == z,
{
    lemma_cell_decompose(i);
    if col_of(i) == z {
        assert(col_cells(z)[row_of(i)] == i);
    }
    if col_cells(z).contains(i) {
        let k = choose|k: int| 0 <= k < 9 && col_cells(z)[k] == i;
        assert(i == k * 9 + z);
    }
}

/// A cell index is in a sector zone exactly when its sector index matches.
pub proof fn lemma_sector_membership(z: int, i: int)
    requires
        0 <= i < 81,
        0 <= z < 9,
    ensures
        sector_cells(z).contains(i) <==> sector_of(i) == z,
{
    lemma_cell_decompose(i);
    let r = row_of(i);
    let c = col_of(i);
    if sector_of(i) == z {
        let k = (r % 3) * 3 + c % 3;
        assert(0 <= k < 9);
        assert(k / 3 == r % 3 && k % 3 == c % 3);
        assert(sector_cells(z)[k] == ((z / 3) * 3 + k / 3) * 9 + (z % 3) * 3 + k % 3);
        assert(((z / 3) * 3 + k / 3) * 9 + (z % 3) * 3 + k % 3 == ((r / 3) * 3 + r % 3) * 9 + (c
            / 3) * 3 + c % 3);
        assert(((r / 3) * 3 + r % 3) * 9 + (c / 3) * 3 + c % 3 == i);
    }
    if sector_cells(z).contains(i) {
        let k = choose|k: int| 0 <= k < 9 && sector_cells(z)[k] == i;
        let rr = (z / 3) * 3 + k / 3;
        let cc = (z % 3) * 3 + k % 3;
        assert(i == rr * 9 + cc);
        assert(0 <= rr < 9 && 0 <= cc < 9);
        assert(r == rr && c == cc);
        assert(r / 3 == z / 3 && c / 3 == z % 3);
    }
}

/// A cell index is in a sector-row zone exactly when its sector-row index
/// matches.
pub proof fn lemma_srow_membership(z: int, i: int)
    requires
        0 <= i < 81,
        0 <= z < 27,
    ensures
        srow_cells(z).contains(i) <==> srow_of(i) == z,
{
    lemma_cell_decompose(i);
    let r = row_of(i);
    let c = col_of(i);
    if srow_of(i) == z {
        let k = c % 3;
        assert(srow_cells(z)[k] == (z / 3) * 9 + (z % 3) * 3 + k);
        assert((z / 3) * 9 + (z % 3) * 3 + k == r * 9 + (c / 3) * 3 + c % 3);
    }
    if srow_cells(z).contains(i) {
        let k = choose|k: int| 0 <= k < 3 && srow_cells(z)[k] == i;
        assert(i == (z / 3) * 9 + (z % 3) * 3 + k);
        assert(0 <= (z % 3) * 3 + k < 9);
        assert(r == z / 3 && c == (z % 3) * 3 + k);
        assert(c / 3 == z % 3);
    }
}

/// A cell index is in a sector-column zone exactly when its sector-column
/// index matches.
pub proof fn lemma_scol_membership(z: int, i: int)
    requires
        0 <= i < 81,
        0 <= z < 27,
    ensures
        scol_cells(z).contains(i) <==> scol_of(i) == z,
{
    lemma_cell_decompose(i);
    let r = row_of(i);
    let c = col_of(i);
    if scol_of(i) == z {
        let k = r % 3;
        assert(scol_cells(z)[k] == (((z / 3) / 3) * 3 + k) * 9 + ((z / 3) % 3) * 3 + z % 3);
        assert(z / 3 == sector_of(i) && z % 3 == c % 3);
        assert((((z / 3) / 3) * 3 + k) * 9 + ((z / 3) % 3) * 3 + z % 3 == ((r / 3) * 3 + r % 3) * 9
            + (c / 3) * 3 + c % 3);
    }
    if scol_cells(z).contains(i) {
        let k = choose|k: int| 0 <= k < 3 && scol_cells(z)[k] == i;
        let rr = ((z / 3) / 3) * 3 + k;
        let cc = ((z / 3) % 3) * 3 + z % 3;
        assert(i == rr * 9 + cc);
        assert(0 <= rr < 9 && 0 <= cc < 9);
        assert(r == rr && c == cc);
        assert(r / 3 == (z / 3) / 3);
        assert(c / 3 == (z / 3) % 3);
        assert(c % 3 == z % 3);
        assert(sector_of(i) == z / 3);
    }
}

/// Zone counts lie between zero and the zone's size.
pub proof fn lemma_zone_count_bounds(cells: Seq<AvailSet>, zs: Seq<int>, d: int)
    ensures
        0 <= zone_count(cells, zs, d) <= zs.len(),
    decreases zs.len(),
{
    if zs.len() > 0 {
        lemma_zone_count_bounds(cells, zs.drop_last(), d);
    }
}


/// Updating one cell moves a zone count by the change at that cell, when
/// the zone names the cell, and not at all otherwise.
pub proof fn lemma_zone_count_update(
    cells: Seq<AvailSet>,
    zs: Seq<int>,
    i: int,
    x: AvailSet,
    d: int,
)
    requires
        zone_wf(zs),
        0 <= i < cells.len(),
        cells.len() == 81,
    ensures
        zone_count(cells.update(i, x), zs, d) == zone_count(cells, zs, d) + if zs.contains(i) {
            (if x.has(d) {
                1int
            } else {
                0int
            }) - (if cells[i].has(d) {
                1int
            } else {
                0int
            })
        } else {
            0int
        },
    decreases zs.len(),
{
    if zs.len() > 0 {
        let zsp = zs.drop_last();
        let lastv = zs[zs.len() - 1];
        assert(zs.last() == lastv);
        assert(zone_wf(zsp));
        lemma_zone_count_update(cells, zsp, i, x, d);
        if lastv == i {
            assert(zs.contains(i));
            assert(!zsp.contains(i)) by {
                if zsp.contains(i) {
                    let j2 = choose|j2: int| 0 <= j2 < zsp.len() && zsp[j2] == i;
                    assert(zs[j2] == i && zs[zs.len() - 1] == i);
                }
            }
            assert(cells.update(i, x)[lastv] == x);
        } else {
            assert(cells.update(i, x)[lastv] == cells[lastv]);
            assert(zsp.contains(i) <==> zs.contains(i)) by {
                if zsp.contains(i) {
                    let j2 = choose|j2: int| 0 <= j2 < zsp.len() && zsp[j2] == i;
                    assert(zs[j2] == i);
                }
                if zs.contains(i) {
                    let j = choose|j: int| 0 <= j < zs.len() && zs[j] == i;
                    assert(j < zs.len() - 1);
                    assert(zsp[j] == i);
                }
            }
        }
    }
}

/// A zone whose count of `d` is positive names a cell that admits `d`.
pub proof fn lemma_zone_count_member(cells: Seq<AvailSet>, zs: Seq<int>, i: int, d: int)
    requires
        zs.contains(i),
        cells[i].has(d),
    ensures
        zone_count(cells, zs, d) >= 1,
    decreases zs.len(),
{
    lemma_zone_count_bounds(cells, zs.drop_last(), d);
    if zs.last() != i {
        let j = choose|j: int| 0 <= j < zs.len() && zs[j] == i;
        assert(zs.drop_last()[j] == i);
        lemma_zone_count_member(cells, zs.drop_last(), i, d);
    }
}

/// Two distinct cells of a zone that both admit `d` force a count of at
/// least two.
pub proof fn lemma_zone_count_two(cells: Seq<AvailSet>, zs: Seq<int>, i1: int, i2: int, d: int)
    requires
        zone_wf(zs),
        zs.contains(i1),
        zs.contains(i2),
        i1 != i2,
        cells[i1].has(d),
        cells[i2].has(d),
    ensures
        zone_count(cells, zs, d) >= 2,
    decreases zs.len(),
{
    let zsp = zs.drop_last();
    if zs.last() == i1 {
        let j = choose|j: int| 0 <= j < zs.len() && zs[j] == i2;
        assert(j < zs.len() - 1);
        assert(zsp[j] == i2);
        lemma_zone_count_member(cells, zsp, i2, d);
    } else if zs.last() == i2 {
        let j = choose|j: int| 0 <= j < zs.len() && zs[j] == i1;
        assert(j < zs.len() - 1);
        assert(zsp[j] == i1);
        lemma_zone_count_member(cells, zsp, i1, d);
    } else {
        let j1 = choose|j: int| 0 <= j < zs.len() && zs[j] == i1;
        let j2 = choose|j: int| 0 <= j < zs.len() && zs[j] == i2;
        assert(zsp[j1] == i1);
        assert(zsp[j2] == i2);
        assert(zone_wf(zsp));
        lemma_zone_count_two(cells, zsp, i1, i2, d);
        lemma_zone_count_bounds(cells, zsp, d);
    }
}

/// The flat indices of all 81 cells.
pub open spec fn all_cells() -> Seq<int> {
    Seq::new(81, |i: int| i)
}

/// Total number of candidates left across the whole board.
pub open spec fn total_size(cells: Seq<AvailSet>) -> int {
    cells_size_sum(cells, all_cells())
}

/// The all-cells zone is well formed and names every cell.
pub proof fn lemma_all_cells(i: int)
    ensures
        zone_wf(all_cells()),
        all_cells().len() == 81,
        0 <= i < 81 ==> all_cells().contains(i),
{
    if 0 <= i < 81 {
        assert(all_cells()[i] == i);
    }
}

/// A zone all of whose cells admit `d` counts its full size.
pub proof fn lemma_zone_count_full(cells: Seq<AvailSet>, zs: Seq<int>, d: int)
    requires
        forall|j: int| 0 <= j < zs.len() ==> cells[#[trigger] zs[j]].has(d),
    ensures
        zone_count(cells, zs, d) == zs.len(),
    decreases zs.len(),
{
    if zs.len() > 0 {
        lemma_zone_count_full(cells, zs.drop_last(), d);
    }
}

/// Updating one cell moves the summed sizes by the change at that cell.
pub proof fn lemma_cells_size_sum_update(cells: Seq<AvailSet>, zs: Seq<int>, i: int, x: AvailSet)
    requires
        zone_wf(zs),
        0 <= i < cells.len(),
        cells.len() == 81,
    ensures
        cells_size_sum(cells.update(i, x), zs) == cells_size_sum(cells, zs) + if zs.contains(i) {
            x.count() - cells[i].count()
        } else {
            0int
        },
    decreases zs.len(),
{
    if zs.len() > 0 {
        let zsp = zs.drop_last();
        let lastv = zs[zs.len() - 1];
        assert(zs.last() == lastv);
        assert(zone_wf(zsp));
        lemma_cells_size_sum_update(cells, zsp, i, x);
        if lastv == i {
            assert(zs.contains(i));
            assert(!zsp.contains(i)) by {
                if zsp.contains(i) {
                    let j2 = choose|j2: int| 0 <= j2 < zsp.len() && zsp[j2] == i;
                    assert(zs[j2] == i && zs[zs.len() - 1] == i);
                }
            }
            assert(cells.update(i, x)[lastv] == x);
        } else {
            assert(cells.update(i, x)[lastv] == cells[lastv]);
            assert(zsp.contains(i) <==> zs.contains(i)) by {
                if zsp.contains(i) {
                    let j2 = choose|j2: int| 0 <= j2 < zsp.len() && zsp[j2] == i;
                    assert(zs[j2] == i);
                }
                if zs.contains(i) {
                    let j = choose|j: int| 0 <= j < zs.len() && zs[j] == i;
                    assert(j < zs.len() - 1);
                    assert(zsp[j] == i);
                }
            }
        }
    }
}


/// How every zone count of every family moves when one cell's candidate
/// set is replaced: the five zones containing the cell move by the change
/// at the cell, all others stay.
pub proof fn lemma_cell_update_zone_counts(
    cells: Seq<AvailSet>,
    newcells: Seq<AvailSet>,
    i: int,
    x: AvailSet,
)
    requires
        cells.len() == 81,
        0 <= i < 81,
        newcells == cells.update(i, x),
    ensures
        forall|z: int, d: int|
            0 <= z < 9 ==> #[trigger] zone_count(newcells, row_cells(z), d) == zone_count(
                cells,
                row_cells(z),
                d,
            ) + if z == row_of(i) {
                (if x.has(d) {
                    1int
                } else {
                    0int
                }) - (if cells[i].has(d) {
                    1int
                } else {
                    0int
                })
            } else {
                0int
            },
        forall|z: int, d: int|
            0 <= z < 9 ==> #[trigger] zone_count(newcells, col_cells(z), d) == zone_count(
                cells,
                col_cells(z),
                d,
            ) + if z == col_of(i) {
                (if x.has(d) {
                    1int
                } else {
                    0int
                }) - (if cells[i].has(d) {
                    1int
                } else {
                    0int
                })
            } else {
                0int
            },
        forall|z: int, d: int|
            0 <= z < 9 ==> #[trigger] zone_count(newcells, sector_cells(z), d) == zone_count(
                cells,
                sector_cells(z),
                d,
            ) + if z == sector_of(i) {
                (if x.has(d) {
                    1int
                } else {
                    0int
                }) - (if cells[i].has(d) {
                    1int
                } else {
                    0int
                })
            } else {
                0int
            },
        forall|z: int, d: int|
            0 <= z < 27 ==> #[trigger] zone_count(newcells, srow_cells(z), d) == zone_count(
                cells,
                srow_cells(z),
                d,
            ) + if z == srow_of(i) {
                (if x.has(d) {
                    1int
                } else {
                    0int
                }) - (if cells[i].has(d) {
                    1int
                } else {
                    0int
                })
            } else {
                0int
            },
        forall|z: int, d: int|
            0 <= z < 27 ==> #[trigger] zone_count(newcells, scol_cells(z), d) == zone_count(
                cells,
                scol_cells(z),
                d,
            ) + if z == scol_of(i) {
                (if x.has(d) {
                    1int
                } else {
                    0int
                }) - (if cells[i].has(d) {
                    1int
                } else {
                    0int
                })
            } else {
                0int
            },
        total_size(newcells) == total_size(cells) + x.count() - cells[i].count(),
{
    lemma_cell_decompose(i);
    assert forall|z: int, d: int| 0 <= z < 9 implies #[trigger] zone_count(
        newcells,
        row_cells(z),
        d,
    ) == zone_count(cells, row_cells(z), d) + if z == row_of(i) {
        (if x.has(d) {
            1int
        } else {
            0int
        }) - (if cells[i].has(d) {
            1int
        } else {
            0int
        })
    } else {
        0int
    } by {
        lemma_zone_shapes(z);
        lemma_row_membership(z, i);
        lemma_zone_count_update(cells, row_cells(z), i, x, d);
    }
    assert forall|z: int, d: int| 0 <= z < 9 implies #[trigger] zone_count(
        newcells,
        col_cells(z),
        d,
    ) == zone_count(cells, col_cells(z), d) + if z == col_of(i) {
        (if x.has(d) {
            1int
        } else {
            0int
        }) - (if cells[i].has(d) {
            1int
        } else {
            0int
        })
    } else {
        0int
    } by {
        lemma_zone_shapes(z);
        lemma_col_membership(z, i);
        lemma_zone_count_update(cells, col_cells(z), i, x, d);
    }
    assert forall|z: int, d: int| 0 <= z < 9 implies #[trigger] zone_count(
        newcells,
        sector_cells(z),
        d,
    ) == zone_count(cells, sector_cells(z), d) + if z == sector_of(i) {
        (if x.has(d) {
            1int
        } else {
            0int
        }) - (if cells[i].has(d) {
            1int
        } else {
            0int
        })
    } else {
        0int
    } by {
        lemma_zone_shapes(z);
        lemma_sector_membership(z, i);
        lemma_zone_count_update(cells, sector_cells(z), i, x, d);
    }
    assert forall|z: int, d: int| 0 <= z < 27 implies #[trigger] zone_count(
        newcells,
        srow_cells(z),
        d,
    ) == zone_count(cells, srow_cells(z), d) + if z == srow_of(i) {
        (if x.has(d) {
            1int
        } else {
            0int
        }) - (if cells[i].has(d) {
            1int
        } else {
            0int
        })
    } else {
        0int
    } by {
        lemma_zone_shapes(z);
        lemma_srow_membership(z, i);
        lemma_zone_count_update(cells, srow_cells(z), i, x, d);
    }
    assert forall|z: int, d: int| 0 <= z < 27 implies #[trigger] zone_count(
        newcells,
        scol_cells(z),
        d,
    ) == zone_count(cells, scol_cells(z), d) + if z == scol_of(i) {
        (if x.has(d) {
            1int
        } else {
            0int
        }) - (if cells[i].has(d) {
            1int
        } else {
            0int
        })
    } else {
        0int
    } by {
        lemma_zone_shapes(z);
        lemma_scol_membership(z, i);
        lemma_zone_count_update(cells, scol_cells(z), i, x, d);
    }
    lemma_all_cells(i);
    lemma_cells_size_sum_update(cells, all_cells(), i, x);
}

/// Summed candidate-set sizes are never negative.
pub proof fn lemma_cells_size_sum_nonneg(cells: Seq<AvailSet>, zs: Seq<int>)
    ensures
        cells_size_sum(cells, zs) >= 0,
    decreases zs.len(),
{
    if zs.len() > 0 {
        lemma_cells_size_sum_nonneg(cells, zs.drop_last());
        crate::availset::lemma_count_digits_bounds(cells[zs.last()].mask());
    }
}

/// Sum of a zone's counts over the digits `1..=dmax`.
pub open spec fn zone_count_sum(cells: Seq<AvailSet>, zs: Seq<int>, dmax: int) -> int
    decreases dmax,
{
    if dmax <= 0 {
        0
    } else {
        zone_count_sum(cells, zs, dmax - 1) + zone_count(cells, zs, dmax)
    }
}

/// Sum of the candidate-set sizes of a zone's cells.
pub open spec fn cells_size_sum(cells: Seq<AvailSet>, zs: Seq<int>) -> int
    decreases zs.len(),
{
    if zs.len() == 0 {
        0
    } else {
        cells_size_sum(cells, zs.drop_last()) + cells[zs.last()].count()
    }
}

proof fn lemma_zone_count_sum_peel(cells: Seq<AvailSet>, zs: Seq<int>, dmax: int)
    requires
        zs.len() > 0,
        0 <= dmax <= 9,
    ensures
        zone_count_sum(cells, zs, dmax) == zone_count_sum(cells, zs.drop_last(), dmax)
            + crate::availset::count_upto(cells[zs.last()].mask(), dmax),
    decreases dmax,
{
    if dmax > 0 {
        lemma_zone_count_sum_peel(cells, zs, dmax - 1);
    }
}

/// Counting zone membership digit by digit or cell by cell gives the same
/// total.
pub proof fn lemma_zone_count_sum_swap(cells: Seq<AvailSet>, zs: Seq<int>)
    ensures
        zone_count_sum(cells, zs, 9) == cells_size_sum(cells, zs),
    decreases zs.len(),
{
    if zs.len() == 0 {
        lemma_zone_count_sum_empty(cells, zs, 9);
    } else {
        lemma_zone_count_sum_peel(cells, zs, 9);
        lemma_zone_count_sum_swap(cells, zs.drop_last());
    }
}

proof fn lemma_zone_count_sum_empty(cells: Seq<AvailSet>, zs: Seq<int>, dmax: int)
    requires
        zs.len() == 0,
    ensures
        zone_count_sum(cells, zs, dmax) == 0,
    decreases dmax,
{
    if dmax > 0 {
        lemma_zone_count_sum_empty(cells, zs, dmax - 1);
    }
}

/// A zone whose nine per-digit counts are all one has count sum nine.
pub proof fn lemma_zone_count_sum_all_ones(cells: Seq<AvailSet>, zs: Seq<int>, dmax: int)
    requires
        0 <= dmax <= 9,
        forall|d: int| 1 <= d <= 9 ==> #[trigger] zone_count(cells, zs, d) == 1,
    ensures
        zone_count_sum(cells, zs, dmax) == dmax,
    decreases dmax,
{
    if dmax > 0 {
        lemma_zone_count_sum_all_ones(cells, zs, dmax - 1);
    }
}

/// The cell sizes of a zone are at least its size when every cell is
/// nonempty.
pub proof fn lemma_cells_size_sum_lower(cells: Seq<AvailSet>, zs: Seq<int>)
    requires
        forall|j: int| 0 <= j < zs.len() ==> cells[#[trigger] zs[j]].count() >= 1,
    ensures
        cells_size_sum(cells, zs) >= zs.len(),
    decreases zs.len(),
{
    if zs.len() > 0 {
        lemma_cells_size_sum_lower(cells, zs.drop_last());
    }
}

/// If every cell of a zone is nonempty and the sizes sum to the zone's
/// size, each cell holds exactly one digit.
pub proof fn lemma_cells_size_sum_ones(cells: Seq<AvailSet>, zs: Seq<int>)
    requires
        forall|j: int| 0 <= j < zs.len() ==> cells[#[trigger] zs[j]].count() >= 1,
        cells_size_sum(cells, zs) == zs.len(),
    ensures
        forall|j: int| 0 <= j < zs.len() ==> cells[#[trigger] zs[j]].count() == 1,
    decreases zs.len(),
{
    if zs.len() > 0 {
        let zsp = zs.drop_last();
        lemma_cells_size_sum_lower(cells, zsp);
        assert(cells[zs.last()].count() == 1);
        lemma_cells_size_sum_ones(cells, zsp);
        assert forall|j: int| 0 <= j < zs.len() implies cells[#[trigger] zs[j]].count() == 1 by {
            if j < zs.len() - 1 {
                assert(cells[zsp[j]].count() == 1);
            }
        }
    }
}

/// A zone with a positive count of `d` names at least one cell that
/// admits `d`.
pub proof fn lemma_zone_count_exists(cells: Seq<AvailSet>, zs: Seq<int>, d: int)
    requires
        zone_count(cells, zs, d) >= 1,
    ensures
        exists|j: int| 0 <= j < zs.len() && cells[#[trigger] zs[j]].has(d),
    decreases zs.len(),
{
    if zs.len() > 0 {
        if cells[zs.last()].has(d) {
            assert(cells[zs[zs.len() - 1]].has(d));
        } else {
            lemma_zone_count_exists(cells, zs.drop_last(), d);
            let j = choose|j: int|
                0 <= j < zs.drop_last().len() && cells[#[trigger] zs.drop_last()[j]].has(d);
            assert(cells[zs[j]].has(d));
        }
    }
}


/// A zone count of a three-cell zone, written out cell by cell.
proof fn lemma_zone_count3(cells: Seq<AvailSet>, zs: Seq<int>, d: int)
    requires
        zs.len() == 3,
    ensures
        zone_count(cells, zs, d) == (if cells[zs[0]].has(d) { 1int } else { 0int }) + (
        if cells[zs[1]].has(d) {
            1int
        } else {
            0int
        }) + (if cells[zs[2]].has(d) {
            1int
        } else {
            0int
        }),
{
    let z2 = zs.drop_last();
    let z1 = z2.drop_last();
    let z0 = z1.drop_last();
    assert(z2[0] == zs[0] && z2[1] == zs[1]);
    assert(z1[0] == zs[0]);
    assert(z0.len() == 0);
    assert(zone_count(cells, z0, d) == 0);
    assert(zone_count(cells, z1, d) == zone_count(cells, z0, d) + (if cells[z1.last()].has(d) {
        1int
    } else {
        0int
    }));
    assert(zone_count(cells, z2, d) == zone_count(cells, z1, d) + (if cells[z2.last()].has(d) {
        1int
    } else {
        0int
    }));
    assert(zone_count(cells, zs, d) == zone_count(cells, z2, d) + (if cells[zs.last()].has(d) {
        1int
    } else {
        0int
    }));
    assert(z1.last() == zs[0] && z2.last() == zs[1] && zs.last() == zs[2]);
}

/// A zone count of a nine-cell zone, written out cell by cell.
proof fn lemma_zone_count9(cells: Seq<AvailSet>, zs: Seq<int>, d: int)
    ensures
        zs.len() == 9 ==> zone_count(cells, zs, d) == (if cells[zs[0]].has(d) { 1int } else { 0int })
            + (if cells[zs[1]].has(d) { 1int } else { 0int }) + (if cells[zs[2]].has(d) {
            1int
        } else {
            0int
        }) + (if cells[zs[3]].has(d) { 1int } else { 0int }) + (if cells[zs[4]].has(d) {
            1int
        } else {
            0int
        }) + (if cells[zs[5]].has(d) { 1int } else { 0int }) + (if cells[zs[6]].has(d) {
            1int
        } else {
            0int
        }) + (if cells[zs[7]].has(d) { 1int } else { 0int }) + (if cells[zs[8]].has(d) {
            1int
        } else {
            0int
        }),
{
    if zs.len() == 9 {
        let z8 = zs.drop_last();
        let z7 = z8.drop_last();
        let z6 = z7.drop_last();
        let z5 = z6.drop_last();
        let z4 = z5.drop_last();
        let z3 = z4.drop_last();
        let z2 = z3.drop_last();
        let z1 = z2.drop_last();
        let z0 = z1.drop_last();
        assert(z0.len() == 0);
        assert(zone_count(cells, z0, d) == 0);
        assert(z1.last() == zs[0] && z2.last() == zs[1] && z3.last() == zs[2] && z4.last() == zs[3]
            && z5.last() == zs[4] && z6.last() == zs[5] && z7.last() == zs[6] && z8.last() == zs[7]
            && zs.last() == zs[8]);
        assert(zone_count(cells, z1, d) == zone_count(cells, z0, d) + (if cells[z1.last()].has(d) {
            1int
        } else {
            0int
        }));
        assert(zone_count(cells, z2, d) == zone_count(cells, z1, d) + (if cells[z2.last()].has(d) {
            1int
        } else {
            0int
        }));
        assert(zone_count(cells, z3, d) == zone_count(cells, z2, d) + (if cells[z3.last()].has(d) {
            1int
        } else {
            0int
        }));
        assert(zone_count(cells, z4, d) == zone_count(cells, z3, d) + (if cells[z4.last()].has(d) {
            1int
        } else {
            0int
        }));
        assert(zone_count(cells, z5, d) == zone_count(cells, z4, d) + (if cells[z5.last()].has(d) {
            1int
        } else {
            0int
        }));
        assert(zone_count(cells, z6, d) == zone_count(cells, z5, d) + (if cells[z6.last()].has(d) {
            1int
        } else {
            0int
        }));
        assert(zone_count(cells, z7, d) == zone_count(cells, z6, d) + (if cells[z7.last()].has(d) {
            1int
        } else {
            0int
        }));
        assert(zone_count(cells, z8, d) == zone_count(cells, z7, d) + (if cells[z8.last()].has(d) {
            1int
        } else {
            0int
        }));
        assert(zone_count(cells, zs, d) == zone_count(cells, z8, d) + (if cells[zs.last()].has(d) {
            1int
        } else {
            0int
        }));
        assert(forall|j: int| 0 <= j < 8 ==> z8[j] == zs[j]);
        assert(forall|j: int| 0 <= j < 7 ==> z7[j] == zs[j]);
        assert(forall|j: int| 0 <= j < 6 ==> z6[j] == zs[j]);
        assert(forall|j: int| 0 <= j < 5 ==> z5[j] == zs[j]);
        assert(forall|j: int| 0 <= j < 4 ==> z4[j] == zs[j]);
        assert(forall|j: int| 0 <= j < 3 ==> z3[j] == zs[j]);
        assert(forall|j: int| 0 <= j < 2 ==> z2[j] == zs[j]);
        assert(forall|j: int| 0 <= j < 1 ==> z1[j] == zs[j]);
    }
}

/// A row's count of a digit is the sum of the counts of its three
/// sector-rows.
pub proof fn lemma_row_split(cells: Seq<AvailSet>, z: int, d: int)
    requires
        0 <= z < 9,
    ensures
        zone_count(cells, row_cells(z), d) == zone_count(cells, srow_cells(3 * z), d) + zone_count(
            cells,
            srow_cells(3 * z + 1),
            d,
        ) + zone_count(cells, srow_cells(3 * z + 2), d),
{
    lemma_zone_count9(cells, row_cells(z), d);
    lemma_zone_count3(cells, srow_cells(3 * z), d);
    lemma_zone_count3(cells, srow_cells(3 * z + 1), d);
    lemma_zone_count3(cells, srow_cells(3 * z + 2), d);
    assert(forall|b: int, j: int|
        0 <= b < 3 && 0 <= j < 3 ==> #[trigger] srow_cells(3 * z + b)[j] == row_cells(z)[b * 3 + j]);
}

/// A column's count of a digit is the sum of the counts of its three
/// sector-columns.
pub proof fn lemma_col_split(cells: Seq<AvailSet>, c: int, d: int)
    requires
        0 <= c < 9,
    ensures
        zone_count(cells, col_cells(c), d) == zone_count(cells, scol_cells((c / 3) * 3 + c % 3), d)
            + zone_count(cells, scol_cells((3 + c / 3) * 3 + c % 3), d) + zone_count(
            cells,
            scol_cells((6 + c / 3) * 3 + c % 3),
            d,
        ),
{
    lemma_zone_count9(cells, col_cells(c), d);
    lemma_zone_count3(cells, scol_cells((c / 3) * 3 + c % 3), d);
    lemma_zone_count3(cells, scol_cells((3 + c / 3) * 3 + c % 3), d);
    lemma_zone_count3(cells, scol_cells((6 + c / 3) * 3 + c % 3), d);
    assert(forall|b: int, j: int|
        0 <= b < 3 && 0 <= j < 3 ==> #[trigger] scol_cells((3 * b + c / 3) * 3 + c % 3)[j]
            == col_cells(c)[b * 3 + j]);
}

/// A sector's count of a digit is the sum of the counts of its three
/// sector-rows.
pub proof fn lemma_sector_split_srows(cells: Seq<AvailSet>, s: int, d: int)
    requires
        0 <= s < 9,
    ensures
        zone_count(cells, sector_cells(s), d) == zone_count(
            cells,
            srow_cells(((s / 3) * 3) * 3 + s % 3),
            d,
        ) + zone_count(cells, srow_cells(((s / 3) * 3 + 1) * 3 + s % 3), d) + zone_count(
            cells,
            srow_cells(((s / 3) * 3 + 2) * 3 + s % 3),
            d,
        ),
{
    lemma_zone_count9(cells, sector_cells(s), d);
    lemma_zone_count3(cells, srow_cells(((s / 3) * 3) * 3 + s % 3), d);
    lemma_zone_count3(cells, srow_cells(((s / 3) * 3 + 1) * 3 + s % 3), d);
    lemma_zone_count3(cells, srow_cells(((s / 3) * 3 + 2) * 3 + s % 3), d);
    assert(forall|b: int, j: int|
        0 <= b < 3 && 0 <= j < 3 ==> #[trigger] srow_cells(((s / 3) * 3 + b) * 3 + s % 3)[j]
            == sector_cells(s)[b * 3 + j]);
}

/// A sector's count of a digit is the sum of the counts of its three
/// sector-columns.
pub proof fn lemma_sector_split_scols(cells: Seq<AvailSet>, s: int, d: int)
    requires
        0 <= s < 9,
    ensures
        zone_count(cells, sector_cells(s), d) == zone_count(cells, scol_cells(s * 3), d)
            + zone_count(cells, scol_cells(s * 3 + 1), d) + zone_count(
            cells,
            scol_cells(s * 3 + 2),
            d,
        ),
{
    lemma_zone_count9(cells, sector_cells(s), d);
    lemma_zone_count3(cells, scol_cells(s * 3), d);
    lemma_zone_count3(cells, scol_cells(s * 3 + 1), d);
    lemma_zone_count3(cells, scol_cells(s * 3 + 2), d);
    assert(forall|b: int, j: int|
        0 <= b < 3 && 0 <= j < 3 ==> #[trigger] scol_cells(s * 3 + b)[j] == sector_cells(s)[j * 3
            + b]);
}

} // verus!

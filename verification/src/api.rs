//! The solve request: a 9x9 grid of optional digits in, a full 9x9 grid
//! out.
//!
//! This is the computational half of a network facade: it validates the
//! shape and the values of a request, runs the solver, and shapes the
//! answer. Reading the request and writing the response stay outside the
//! library.

use vstd::prelude::*;

use crate::board_solved;
use crate::coordinates::Col;
use crate::coordinates::Coord;
use crate::coordinates::Row;
use crate::Board;
use crate::Val;

verus! {

/// Why a request was rejected before solving.
#[derive(Clone, Copy, Debug, PartialEq, Eq, Structural)]
pub enum BadRequest {
    /// The request does not have nine rows.
    WrongRowCount {
        /// The number of rows supplied.
        rows: usize,
    },
    /// The first row of the wrong width.
    WrongColCount {
        /// The index of the offending row.
        row: usize,
        /// The number of columns that row supplied.
        cols: usize,
    },
    /// The first value outside 1..=9, scanning rows first.
    BadValue {
        /// The row of the offending value.
        row: usize,
        /// The column of the offending value.
        col: usize,
        /// The value supplied.
        val: u8,
    },
}

/// Why a request produced no grid.
#[derive(Clone, Copy, Debug, PartialEq, Eq, Structural)]
pub enum SolveFailure {
    /// The request was malformed.
    BadRequest(BadRequest),
    /// The request was well formed but the puzzle has no solution.
    NoSolution,
}

/// The request is nine rows of nine cells, each blank or a digit 1..=9.
pub open spec fn request_wf(rows: Seq<Seq<Option<u8>>>) -> bool {
    &&& rows.len() == 9
    &&& forall|r: int| 0 <= r < 9 ==> (#[trigger] rows[r]).len() == 9
    &&& forall|r: int, c: int|
        0 <= r < 9 && 0 <= c < 9 ==> ((#[trigger] rows[r][c]) matches Some(v) ==> 1 <= v <= 9)
}

/// The board agrees with every digit the request pins.
pub open spec fn board_matches_request(b: Seq<Option<Val>>, rows: Seq<Seq<Option<u8>>>) -> bool {
    forall|r: int, c: int|
        0 <= r < 9 && 0 <= c < 9 ==> match #[trigger] rows[r][c] {
            Some(v) => b[r * 9 + c] is Some && b[r * 9 + c]->Some_0.spec_val() == v,
            None => true,
        }
}

/// The answer grid spells out the digits of the board, row-major.
pub open spec fn grid_encodes_board(grid: Seq<Vec<u8>>, b: Seq<Option<Val>>) -> bool {
    &&& grid.len() == 9
    &&& forall|r: int| 0 <= r < 9 ==> (#[trigger] grid[r])@.len() == 9
    &&& forall|r: int, c: int|
        0 <= r < 9 && 0 <= c < 9 ==> b[r * 9 + c] is Some && (#[trigger] grid[r]@[c])
            == b[r * 9 + c]->Some_0.spec_val()
}

/// Validate a 9x9 request of optional digits, solve it, and return the
/// solved grid; rejects a malformed request, and reports when no solution
/// exists.
pub fn solve(rows: &Vec<Vec<Option<u8>>>) -> (r: Result<Vec<Vec<u8>>, SolveFailure>)
    ensures
        match r {
            Ok(grid) => request_wf(rows@.map_values(|row: Vec<Option<u8>>| row@)) && exists|
                b: Seq<Option<Val>>,
            |
                #[trigger] board_solved(b) && board_matches_request(
                    b,
                    rows@.map_values(|row: Vec<Option<u8>>| row@),
                ) && grid_encodes_board(grid@, b),
            Err(SolveFailure::BadRequest(BadRequest::WrongRowCount { rows: n })) => rows@.len() != 9
                && n == rows@.len(),
            Err(SolveFailure::BadRequest(BadRequest::WrongColCount { row, cols })) => {
                let req = rows@.map_values(|rw: Vec<Option<u8>>| rw@);
                &&& req.len() == 9
                &&& row < 9
                &&& req[row as int].len() != 9
                &&& cols == req[row as int].len()
                &&& forall|j: int| 0 <= j < row ==> (#[trigger] req[j]).len() == 9
            },
            Err(SolveFailure::BadRequest(BadRequest::BadValue { row, col, val })) => {
                let req = rows@.map_values(|rw: Vec<Option<u8>>| rw@);
                &&& req.len() == 9
                &&& forall|j: int| 0 <= j < 9 ==> (#[trigger] req[j]).len() == 9
                &&& row < 9 && col < 9
                &&& req[row as int][col as int] == Some(val)
                &&& !(1 <= val <= 9)
                &&& forall|j: int, c: int|
                    0 <= j < row && 0 <= c < 9 ==> ((#[trigger] req[j][c]) matches Some(v) ==> 1
                        <= v <= 9)
                &&& forall|c: int|
                    0 <= c < col ==> ((#[trigger] req[row as int][c]) matches Some(v) ==> 1 <= v
                        <= 9)
            },
            Err(SolveFailure::NoSolution) => request_wf(
                rows@.map_values(|row: Vec<Option<u8>>| row@),
            ) && !(exists|b: Seq<Option<Val>>|
                #[trigger] board_solved(b) && board_matches_request(
                    b,
                    rows@.map_values(|row: Vec<Option<u8>>| row@),
                )),
        },
{
    let ghost req = rows@.map_values(|row: Vec<Option<u8>>| row@);
    proof {
        assert(req.len() == rows@.len());
    }
    if rows.len() != 9 {
        return Err(SolveFailure::BadRequest(BadRequest::WrongRowCount { rows: rows.len() }));
    }
    let mut r: usize = 0;
    while r < 9
        invariant
            rows@.len() == 9,
            req == rows@.map_values(|row: Vec<Option<u8>>| row@),
            r <= 9,
            forall|j: int| 0 <= j < r ==> (#[trigger] rows@[j])@.len() == 9,
        decreases 9 - r,
    {
        if rows[r].len() != 9 {
            proof {
                assert(req[r as int] == rows@[r as int]@);
                assert forall|j: int| 0 <= j < r implies (#[trigger] req[j]).len() == 9 by {
                    assert(req[j] == rows@[j]@);
                }
            }
            return Err(
                SolveFailure::BadRequest(BadRequest::WrongColCount { row: r, cols: rows[r].len() }),
            );
        }
        r = r + 1;
    }
    let mut board = Board::new();
    let mut r: usize = 0;
    while r < 9
        invariant
            rows@.len() == 9,
            req == rows@.map_values(|row: Vec<Option<u8>>| row@),
            forall|j: int| 0 <= j < 9 ==> (#[trigger] rows@[j])@.len() == 9,
            r <= 9,
            board.wf(),
            forall|j: int, c: int|
                0 <= j < r && 0 <= c < 9 ==> ((#[trigger] rows@[j]@[c]) matches Some(v) ==> 1 <= v
                    <= 9),
            forall|j: int, c: int|
                0 <= j < 9 && 0 <= c < 9 ==> (#[trigger] board@[j * 9 + c]) == (if j < r {
                    match rows@[j]@[c] {
                        Some(v) => Some(Val::new_spec(v as int)),
                        None => None,
                    }
                } else {
                    None
                }),
        decreases 9 - r,
    {
        let mut c: usize = 0;
        while c < 9
            invariant
                rows@.len() == 9,
                req == rows@.map_values(|row: Vec<Option<u8>>| row@),
                forall|j: int| 0 <= j < 9 ==> (#[trigger] rows@[j])@.len() == 9,
                r < 9,
                c <= 9,
                board.wf(),
                forall|j: int, cc: int|
                    0 <= j < r && 0 <= cc < 9 ==> ((#[trigger] rows@[j]@[cc]) matches Some(v) ==> 1
                        <= v <= 9),
                forall|cc: int|
                    0 <= cc < c ==> ((#[trigger] rows@[r as int]@[cc]) matches Some(v) ==> 1 <= v
                        <= 9),
                forall|j: int, cc: int|
                    0 <= j < 9 && 0 <= cc < 9 ==> (#[trigger] board@[j * 9 + cc]) == (if j < r || (j
                        == r && cc < c) {
                        match rows@[j]@[cc] {
                            Some(v) => Some(Val::new_spec(v as int)),
                            None => None,
                        }
                    } else {
                        None
                    }),
            decreases 9 - c,
        {
            match rows[r][c] {
                Some(v) => {
                    if v < 1 || v > 9 {
                        proof {
                            assert(req[r as int] == rows@[r as int]@);
                            assert(req[r as int][c as int] == Some(v));
                            assert forall|j: int| 0 <= j < 9 implies (#[trigger] req[j]).len()
                                == 9 by {
                                assert(req[j] == rows@[j]@);
                            }
                            assert forall|j: int, cc: int|
                                0 <= j < r && 0 <= cc < 9 implies ((#[trigger] req[j][cc]) matches
                            Some(vv) ==> 1 <= vv <= 9) by {
                                assert(req[j] == rows@[j]@);
                                assert(rows@[j]@[cc] matches Some(vv) ==> 1 <= vv <= 9);
                            }
                            assert forall|cc: int|
                                0 <= cc < c implies ((#[trigger] req[r as int][cc]) matches Some(
                            vv) ==> 1 <= vv <= 9) by {
                                assert(req[r as int] == rows@[r as int]@);
                                assert(rows@[r as int]@[cc] matches Some(vv) ==> 1 <= vv <= 9);
                            }
                        }
                        return Err(
                            SolveFailure::BadRequest(BadRequest::BadValue { row: r, col: c, val: v }),
                        );
                    }
                    let coord = Coord::new(Row::new(r as u8), Col::new(c as u8));
                    board.specify(coord, Val::new(v));
                },
                None => {},
            }
            c = c + 1;
            proof {
                assert forall|j: int, cc: int|
                    0 <= j < 9 && 0 <= cc < 9 implies (#[trigger] board@[j * 9 + cc]) == (if j < r
                        || (j == r && cc < c) {
                        match rows@[j]@[cc] {
                            Some(v) => Some(Val::new_spec(v as int)),
                            None => None,
                        }
                    } else {
                        None
                    }) by {
                    if j != r || cc != c - 1 {
                        assert(j * 9 + cc != (r as int) * 9 + (c - 1));
                    }
                }
            }
        }
        r = r + 1;
    }
    proof {
        assert(request_wf(req)) by {
            assert forall|j: int| 0 <= j < 9 implies (#[trigger] req[j]).len() == 9 by {
                assert(req[j] == rows@[j]@);
            }
            assert forall|j: int, c: int|
                0 <= j < 9 && 0 <= c < 9 implies ((#[trigger] req[j][c]) matches Some(v) ==> 1 <= v
                <= 9) by {
                assert(req[j] == rows@[j]@);
            }
        }
    }
    proof {
        assert forall|b: Seq<Option<Val>>|
            #[trigger] board_solved(b) && board_matches_request(b, req) implies
            crate::board_extends(b, board@) by {
            assert forall|i: int| 0 <= i < 81 && (#[trigger] board@[i]) is Some implies b[i]
                == board@[i] by {
                let j = i / 9;
                let c = i % 9;
                assert(0 <= j < 9 && 0 <= c < 9 && i == j * 9 + c);
                assert(board@[j * 9 + c] == (match rows@[j]@[c] {
                    Some(v) => Some(Val::new_spec(v as int)),
                    None => None,
                }));
                assert(req[j] == rows@[j]@);
                let v = rows@[j]@[c]->Some_0;
                Val::lemma_new_spec(v as int);
                assert(b[j * 9 + c] is Some && b[j * 9 + c]->Some_0.spec_val() == v);
                Val::lemma_val_injective(b[j * 9 + c]->Some_0, Val::new_spec(v as int));
            }
        }
    }
    match board.solve() {
        Some(solution) => {
            proof {
                assert(board_matches_request(solution@, req)) by {
                    assert forall|j: int, c: int| 0 <= j < 9 && 0 <= c < 9 implies match (
                    #[trigger] req[j][c]) {
                        Some(v) => solution@[j * 9 + c] is Some && solution@[j * 9
                            + c]->Some_0.spec_val() == v,
                        None => true,
                    } by {
                        assert(board@[j * 9 + c] == (match rows@[j]@[c] {
                            Some(v) => Some(Val::new_spec(v as int)),
                            None => None,
                        }));
                        assert(req[j] == rows@[j]@);
                        if req[j][c] is Some {
                            assert(solution@[j * 9 + c] == board@[j * 9 + c]);
                        }
                    }
                }
            }
            let mut grid: Vec<Vec<u8>> = Vec::new();
            let mut j: usize = 0;
            while j < 9
                invariant
                    solution.wf(),
                    board_solved(solution@),
                    j <= 9,
                    grid@.len() == j,
                    forall|jj: int| 0 <= jj < j ==> (#[trigger] grid@[jj])@.len() == 9,
                    forall|jj: int, c: int|
                        0 <= jj < j && 0 <= c < 9 ==> solution@[jj * 9 + c] is Some && (
                        #[trigger] grid@[jj]@[c]) == solution@[jj * 9 + c]->Some_0.spec_val(),
                decreases 9 - j,
            {
                let mut line: Vec<u8> = Vec::new();
                let mut c: usize = 0;
                while c < 9
                    invariant
                        solution.wf(),
                        board_solved(solution@),
                        j < 9,
                        c <= 9,
                        line@.len() == c,
                        forall|cc: int|
                            0 <= cc < c ==> solution@[j * 9 + cc] is Some && (#[trigger] line@[cc])
                                == solution@[j * 9 + cc]->Some_0.spec_val(),
                    decreases 9 - c,
                {
                    match solution.get_idx(j * 9 + c) {
                        Some(v) => {
                            line.push(v.val());
                        },
                        None => {
                            proof {
                                assert(false);
                            }
                        },
                    }
                    c = c + 1;
                }
                grid.push(line);
                j = j + 1;
            }
            proof {
                assert(board_solved(solution@) && board_matches_request(solution@, req)
                    && grid_encodes_board(grid@, solution@));
            }
            Ok(grid)
        },
        None => {
            proof {
                if exists|b: Seq<Option<Val>>|
                    #[trigger] board_solved(b) && board_matches_request(b, req) {
                    let b = choose|b: Seq<Option<Val>>|
                        #[trigger] board_solved(b) && board_matches_request(b, req);
                    assert(crate::board_extends(b, board@));
                }
            }
            Err(SolveFailure::NoSolution)
        },
    }
}

} // verus!

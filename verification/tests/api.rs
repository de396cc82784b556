use sudoku_solver::api::solve;
use sudoku_solver::api::BadRequest;
use sudoku_solver::api::SolveFailure;

/// Turn an 11-line grid into the request shape the facade accepts.
fn request_from(rows: [&str; 11]) -> Vec<Vec<Option<u8>>> {
    let mut out = Vec::new();
    for (li, line) in rows.iter().enumerate() {
        if li == 3 || li == 7 {
            continue;
        }
        let bytes = line.as_bytes();
        let mut row = Vec::new();
        for (bi, &ch) in bytes.iter().enumerate() {
            if bi == 3 || bi == 7 {
                continue;
            }
            match ch {
                b'1'..=b'9' => row.push(Some(ch - b'0')),
                _ => row.push(None),
            }
        }
        out.push(row);
    }
    out
}

#[test]
fn api_solves_a_puzzle() {
    let request = request_from([
        "   |1  |   ",
        "   | 58|6 1",
        "8 1|36 | 9 ",
        "---+---+---",
        "5  |   |4 3",
        "  3|6 1|8  ",
        "6 4|   |  7",
        "---+---+---",
        " 3 | 84|5 6",
        "1 5|72 |   ",
        "   |  3|   ",
    ]);
    let expected = vec![
        vec![4, 6, 7, 1, 9, 2, 3, 8, 5],
        vec![3, 2, 9, 4, 5, 8, 6, 7, 1],
        vec![8, 5, 1, 3, 6, 7, 2, 9, 4],
        vec![5, 1, 8, 2, 7, 9, 4, 6, 3],
        vec![2, 7, 3, 6, 4, 1, 8, 5, 9],
        vec![6, 9, 4, 8, 3, 5, 1, 2, 7],
        vec![7, 3, 2, 9, 8, 4, 5, 1, 6],
        vec![1, 4, 5, 7, 2, 6, 9, 3, 8],
        vec![9, 8, 6, 5, 1, 3, 7, 4, 2],
    ];
    assert_eq!(solve(&request), Ok(expected));
}

#[test]
fn api_rejects_wrong_row_count() {
    let request: Vec<Vec<Option<u8>>> = vec![vec![None; 9]; 8];
    assert_eq!(
        solve(&request),
        Err(SolveFailure::BadRequest(BadRequest::WrongRowCount { rows: 8 }))
    );
}

#[test]
fn api_rejects_wrong_col_count() {
    let mut request: Vec<Vec<Option<u8>>> = vec![vec![None; 9]; 9];
    request[4] = vec![None; 7];
    assert_eq!(
        solve(&request),
        Err(SolveFailure::BadRequest(BadRequest::WrongColCount { row: 4, cols: 7 }))
    );
}

#[test]
fn api_rejects_out_of_range_value() {
    let mut request: Vec<Vec<Option<u8>>> = vec![vec![None; 9]; 9];
    request[2][6] = Some(12);
    assert_eq!(
        solve(&request),
        Err(SolveFailure::BadRequest(BadRequest::BadValue { row: 2, col: 6, val: 12 }))
    );
}

#[test]
fn api_reports_no_solution() {
    let request = request_from([
        "349|   |65 ",
        " 5 |8 7|  3",
        "   |46 |   ",
        "---+---+---",
        "27 |   |   ",
        "  4|5 1|8  ",
        "   |   | 32",
        "---+---+---",
        "   | 42|   ",
        "9  |3 6| 2 ",
        " 27|   |31 ",
    ]);
    assert_eq!(solve(&request), Err(SolveFailure::NoSolution));
}

use sudoku_solver::coordinates::Col;
use sudoku_solver::coordinates::Coord;
use sudoku_solver::coordinates::Row;
use sudoku_solver::Board;
use sudoku_solver::Val;

/// Build a board from an 11-line grid: digits `1`..`9`, spaces for blanks,
/// `|` as column separators, and `---+---+---` at lines 3 and 7.
fn board_from(rows: [&str; 11]) -> Board {
    assert!(rows[3] == "---+---+---" && rows[7] == "---+---+---");
    let mut board = Board::new();
    let mut r = 0u8;
    for (li, line) in rows.iter().enumerate() {
        if li == 3 || li == 7 {
            continue;
        }
        let bytes = line.as_bytes();
        assert!(bytes.len() == 11);
        assert!(bytes[3] == b'|' && bytes[7] == b'|');
        let mut c = 0u8;
        for (bi, &ch) in bytes.iter().enumerate() {
            if bi == 3 || bi == 7 {
                continue;
            }
            match ch {
                b'1'..=b'9' => {
                    board.specify(Coord::new(Row::new(r), Col::new(c)), Val::new(ch - b'0'));
                }
                b' ' => {}
                _ => panic!("unsupported val: {}", ch),
            }
            c += 1;
        }
        r += 1;
    }
    board
}

#[test]
fn solve_puzzle1() {
    let board = board_from([
        "   |1  |   ",
        "   | 58|6 1",
        "8 1|36 | 9 ",
        "---+---+---",
        "5  |   |4 3",
        "  3|6 1|8  ",
        "6 4|   |  7",
        "---+---+---",
        " 3 | 84|5 6",
        "1 5|72 |   ",
        "   |  3|   ",
    ]);
    let expected = board_from([
        "467|192|385",
        "329|458|671",
        "851|367|294",
        "---+---+---",
        "518|279|463",
        "273|641|859",
        "694|835|127",
        "---+---+---",
        "732|984|516",
        "145|726|938",
        "986|513|742",
    ]);
    let res = board.solve();
    assert_eq!(res, Some(expected));
}

#[test]
fn solve_puzzle2() {
    let board = board_from([
        "   |8  | 14",
        "1 6|4  |75 ",
        " 47|53 |   ",
        "---+---+---",
        "9  | 5 | 62",
        "   |7 9|   ",
        "63 | 4 |  5",
        "---+---+---",
        "   | 87|34 ",
        " 14|  5|6 9",
        "89 |  4|   ",
    ]);
    let expected = board_from([
        "359|876|214",
        "186|492|753",
        "247|531|896",
        "---+---+---",
        "978|153|462",
        "425|769|138",
        "631|248|975",
        "---+---+---",
        "562|987|341",
        "714|325|689",
        "893|614|527",
    ]);
    let res = board.solve();
    assert_eq!(res, Some(expected));
}

#[test]
fn solve_puzzle3() {
    let board = board_from([
        " 49|   |65 ",
        " 5 |8 7|  3",
        "   |46 |   ",
        "---+---+---",
        "27 |   |   ",
        "  4|5 1|8  ",
        "   |   | 32",
        "---+---+---",
        "   | 42|   ",
        "9  |3 6| 2 ",
        " 27|   |31 ",
    ]);
    let expected = board_from([
        "749|213|658",
        "156|897|243",
        "832|465|971",
        "---+---+---",
        "278|634|195",
        "394|521|867",
        "615|789|432",
        "---+---+---",
        "563|142|789",
        "981|376|524",
        "427|958|316",
    ]);
    let res = board.solve();
    assert_eq!(res, Some(expected));
}

#[test]
fn solve_bad() {
    let board = board_from([
        "349|   |65 ",
        " 5 |8 7|  3",
        "   |46 |   ",
        "---+---+---",
        "27 |   |   ",
        "  4|5 1|8  ",
        "   |   | 32",
        "---+---+---",
        "   | 42|   ",
        "9  |3 6| 2 ",
        " 27|   |31 ",
    ]);
    let res = board.solve();
    assert_eq!(res, None);
}

#[test]
fn solve_empty() {
    let res = Board::new().solve();
    assert!(res.is_some());
}

#[test]
fn solve_empty_is_valid() {
    let res = Board::new().solve().expect("empty board should solve");
    assert!(res.is_solved());
}

#[test]
fn solve_solved_board_unchanged() {
    let solved = board_from([
        "467|192|385",
        "329|458|671",
        "851|367|294",
        "---+---+---",
        "518|279|463",
        "273|641|859",
        "694|835|127",
        "---+---+---",
        "732|984|516",
        "145|726|938",
        "986|513|742",
    ]);
    let res = solved.solve();
    assert_eq!(res, Some(solved));
}

#[test]
fn solve_deterministic() {
    let board = board_from([
        " 49|   |65 ",
        " 5 |8 7|  3",
        "   |46 |   ",
        "---+---+---",
        "27 |   |   ",
        "  4|5 1|8  ",
        "   |   | 32",
        "---+---+---",
        "   | 42|   ",
        "9  |3 6| 2 ",
        " 27|   |31 ",
    ]);
    let first = board.solve();
    let second = board.solve();
    assert_eq!(first, second);
    let empty_first = Board::new().solve();
    let empty_second = Board::new().solve();
    assert_eq!(empty_first, empty_second);
}

#[test]
fn is_solved_and_known_unsolveable() {
    let solved = board_from([
        "467|192|385",
        "329|458|671",
        "851|367|294",
        "---+---+---",
        "518|279|463",
        "273|641|859",
        "694|835|127",
        "---+---+---",
        "732|984|516",
        "145|726|938",
        "986|513|742",
    ]);
    assert!(solved.is_solved());
    assert!(!solved.known_unsolveable());
    let empty = Board::new();
    assert!(!empty.is_solved());
    assert!(!empty.known_unsolveable());
    let mut broken = solved;
    // Pin the top-left cell to the digit already held by its right
    // neighbour: row 0 now has no cell left for the digit 4.
    broken.specify(Coord::new(Row::new(0), Col::new(0)), Val::new(6));
    assert!(!broken.is_solved());
    assert!(broken.known_unsolveable());
    assert_eq!(broken.solve(), None);
}

#[test]
fn board_cells_round_trip() {
    let board = board_from([
        " 49|   |65 ",
        " 5 |8 7|  3",
        "   |46 |   ",
        "---+---+---",
        "27 |   |   ",
        "  4|5 1|8  ",
        "   |   | 32",
        "---+---+---",
        "   | 42|   ",
        "9  |3 6| 2 ",
        " 27|   |31 ",
    ]);
    let cells = board.row_major();
    assert_eq!(cells.len(), 81);
    let rebuilt = Board::from_cells(cells).unwrap();
    assert_eq!(rebuilt, board);
    assert_eq!(board.get(Coord::new(Row::new(0), Col::new(1))), Some(Val::new(4)));
    assert_eq!(board.get(Coord::new(Row::new(0), Col::new(0))), None);
    let first_row = board.row(Row::new(0));
    assert_eq!(first_row[1], Some(Val::new(4)));
    let second_col = board.col(Col::new(1));
    assert_eq!(second_col[0], Some(Val::new(4)));
    assert_eq!(Board::from_cells(vec![None; 80]).unwrap_err().actual, 80);
}

#[test]
fn impossible_cell_returns_none() {
    // The top-left cell is blank, its row pins the digits 2..=9, and its
    // column pins 1: no digit remains possible for it.
    let board = board_from([
        " 23|456|789",
        "1  |   |   ",
        "   |   |   ",
        "---+---+---",
        "   |   |   ",
        "   |   |   ",
        "   |   |   ",
        "---+---+---",
        "   |   |   ",
        "   |   |   ",
        "   |   |   ",
    ]);
    assert_eq!(board.solve(), None);
}

use sudoku_solver::availset::AvailSet;
use sudoku_solver::trace::Remaining;
use sudoku_solver::Val;

#[test]
fn remaining_board_reads_out_singletons() {
    let mut sets = Vec::new();
    for i in 0..81 {
        if i == 0 {
            sets.push(AvailSet::only(Val::new(5)));
        } else {
            sets.push(AvailSet::all());
        }
    }
    let remaining = Remaining::from_sets(sets).unwrap();
    let board = remaining.board();
    let cells = board.row_major();
    assert_eq!(cells[0], Some(Val::new(5)));
    for i in 1..81 {
        assert_eq!(cells[i], None);
    }
    assert_eq!(remaining.get(0), AvailSet::only(Val::new(5)));
    assert_eq!(Remaining::from_sets(vec![AvailSet::all(); 3]).unwrap_err().expected, 81);
}

use sudoku_solver::coordinates::Col;
use sudoku_solver::coordinates::Coord;
use sudoku_solver::coordinates::Row;
use sudoku_solver::coordinates::Sector;
use sudoku_solver::coordinates::SectorCol;
use sudoku_solver::coordinates::SectorRow;
use sudoku_solver::Val;

#[test]
fn val_indexes() {
    let vals: Vec<_> = (1..=9).map(Val::new).collect();
    let expected: Vec<usize> = (0..9).collect();
    let result: Vec<_> = vals.iter().map(|val| val.idx()).collect();
    assert_eq!(result, expected);
}

#[test]
fn vals() {
    let expected: Vec<_> = (1..=9).map(Val::new).collect();
    let result = Val::values();
    assert_eq!(result, expected);
}

#[test]
fn row_iter() {
    for r in 0..9 {
        let row = Row::new(r);
        let expected: Vec<_> = (0..9).map(|c| Coord::new(Row::new(r), Col::new(c))).collect();
        let result = row.coords();
        assert_eq!(result, expected);
    }
}

#[test]
fn rows_iter() {
    let mut expected = Vec::with_capacity(9);
    for r in 0..9 {
        expected.push(Row::new(r));
    }
    let result = Row::values();
    assert_eq!(result, expected);
    let mut sorted = result.clone();
    sorted.sort();
    assert_eq!(result, sorted);
    for (idx, val) in result.iter().enumerate() {
        assert_eq!(val.idx(), idx);
    }
}

#[test]
fn col_iter() {
    for c in 0..9 {
        let col = Col::new(c);
        let expected: Vec<_> = (0..9).map(|r| Coord::new(Row::new(r), Col::new(c))).collect();
        let result = col.coords();
        assert_eq!(result, expected);
    }
}

#[test]
fn cols_iter() {
    let mut expected = Vec::with_capacity(9);
    for c in 0..9 {
        expected.push(Col::new(c));
    }
    let result = Col::values();
    assert_eq!(result, expected);
    for (idx, val) in result.iter().enumerate() {
        assert_eq!(val.idx(), idx);
    }
}

#[test]
fn coord_iter() {
    for r in 0..9 {
        for c in 0..9 {
            let coord = Coord::new(Row::new(r), Col::new(c));
            let result = coord.coords();
            assert_eq!(result, vec![coord]);
        }
    }
}

#[test]
fn coords_iter() {
    let mut expected = Vec::with_capacity(81);
    for r in 0..9 {
        for c in 0..9 {
            expected.push(Coord::new(Row::new(r), Col::new(c)));
        }
    }
    let result = Coord::values();
    assert_eq!(result, expected);
    for (idx, val) in result.iter().enumerate() {
        assert_eq!(val.idx(), idx);
    }
}

#[test]
fn coord_neighbors() {
    for r in 0..9u8 {
        for c in 0..9u8 {
            let mut expected = Vec::with_capacity(20);
            for cc in 0..9 {
                if cc != c {
                    expected.push(Coord::new(Row::new(r), Col::new(cc)));
                }
            }
            for rr in 0..9 {
                if rr != r {
                    expected.push(Coord::new(Row::new(rr), Col::new(c)));
                }
            }
            for rr in ((r - (r % 3))..).take(3) {
                for cc in ((c - (c % 3))..).take(3) {
                    if rr != r && cc != c {
                        expected.push(Coord::new(Row::new(rr), Col::new(cc)));
                    }
                }
            }
            let result = Coord::new(Row::new(r), Col::new(c)).neighbors();
            assert_eq!(result.len(), 20);
            assert_eq!(result, expected);
        }
    }
}

#[test]
fn sector_iter() {
    for r in 0..9u8 {
        for c in 0..9u8 {
            let sector = Sector::containing(Coord::new(Row::new(r), Col::new(c)));
            let baser = match r {
                0 | 1 | 2 => 0,
                3 | 4 | 5 => 3,
                6 | 7 | 8 => 6,
                _ => unreachable!(),
            };
            let basec = match c {
                0 | 1 | 2 => 0,
                3 | 4 | 5 => 3,
                6 | 7 | 8 => 6,
                _ => unreachable!(),
            };
            let offsets: &[(u8, u8)] = &[
                (0, 0),
                (0, 1),
                (0, 2),
                (1, 0),
                (1, 1),
                (1, 2),
                (2, 0),
                (2, 1),
                (2, 2),
            ];
            let expected: Vec<_> = offsets
                .iter()
                .map(|&(offr, offc)| Coord::new(Row::new(baser + offr), Col::new(basec + offc)))
                .collect();
            let result = sector.coords();
            assert_eq!(result, expected);
        }
    }
}

#[test]
fn sectors_iter() {
    let mut expected = Vec::with_capacity(9);
    for r in (0..9).step_by(3) {
        for c in (0..9).step_by(3) {
            expected.push(Sector::containing(Coord::new(Row::new(r), Col::new(c))));
        }
    }
    let result = Sector::values();
    assert_eq!(result, expected);
    for (idx, val) in result.iter().enumerate() {
        assert_eq!(val.idx(), idx);
    }
}

#[test]
fn rowsec_iter() {
    for r in 0..9u8 {
        for bc in (0..9u8).step_by(3) {
            let secrow = SectorRow::new(Row::new(r), Col::new(bc));
            let mut expected = Vec::with_capacity(3);
            for c in (bc..).take(3) {
                expected.push(Coord::new(Row::new(r), Col::new(c)));
            }
            let result = secrow.coords();
            assert_eq!(result, expected);
        }
    }
}

#[test]
fn rowsecs_iter() {
    let mut expected = Vec::with_capacity(27);
    for r in 0..9u8 {
        for bc in (0..9u8).step_by(3) {
            expected.push(SectorRow::new(Row::new(r), Col::new(bc)));
        }
    }
    let result = SectorRow::values();
    assert_eq!(result, expected);
    let mut sorted = result.clone();
    sorted.sort();
    assert_eq!(result, sorted);
    for (idx, val) in result.iter().enumerate() {
        assert_eq!(val.idx(), idx);
    }
}

#[test]
fn rowsec_neighbors() {
    for r in 0..9u8 {
        for bc in (0..9u8).step_by(3) {
            let secrow = SectorRow::new(Row::new(r), Col::new(bc));
            let mut expected = Vec::with_capacity(4);
            for bcc in (0..9u8).step_by(3) {
                if bcc != bc {
                    expected.push(SectorRow::new(Row::new(r), Col::new(bcc)));
                }
            }
            for rr in (r - r % 3..).take(3) {
                if rr != r {
                    expected.push(SectorRow::new(Row::new(rr), Col::new(bc)));
                }
            }
            let result = secrow.neighbors();
            assert_eq!(result.len(), 4);
            assert_eq!(result, expected);
        }
    }
}

#[test]
fn colsec_iter() {
    for br in (0..9u8).step_by(3) {
        for bc in (0..9u8).step_by(3) {
            for rc in 0..3u8 {
                let seccol = SectorCol::new(Row::new(br), Col::new(bc + rc));
                let mut expected = Vec::with_capacity(3);
                for r in (br..).take(3) {
                    expected.push(Coord::new(Row::new(r), Col::new(bc + rc)));
                }
                let result = seccol.coords();
                assert_eq!(result, expected);
            }
        }
    }
}

#[test]
fn colsecs_iter() {
    let mut expected = Vec::with_capacity(27);
    for br in (0..9u8).step_by(3) {
        for bc in (0..9u8).step_by(3) {
            for rc in 0..3u8 {
                expected.push(SectorCol::new(Row::new(br), Col::new(bc + rc)));
            }
        }
    }
    let result = SectorCol::values();
    assert_eq!(result, expected);
    for (idx, val) in result.iter().enumerate() {
        assert_eq!(val.idx(), idx);
    }
}

#[test]
fn colsec_neighbors() {
    for br in (0..9u8).step_by(3) {
        for bc in (0..9u8).step_by(3) {
            for rc in 0..3u8 {
                let seccol = SectorCol::new(Row::new(br), Col::new(bc + rc));
                let mut expected = Vec::with_capacity(4);
                for brr in (0..9u8).step_by(3) {
                    if brr != br {
                        expected.push(SectorCol::new(Row::new(brr), Col::new(bc + rc)));
                    }
                }
                for rcc in 0..3u8 {
                    if rcc != rc {
                        expected.push(SectorCol::new(Row::new(br), Col::new(bc + rcc)));
                    }
                }
                let result = seccol.neighbors();
                assert_eq!(result.len(), 4);
                assert_eq!(result, expected);
            }
        }
    }
}

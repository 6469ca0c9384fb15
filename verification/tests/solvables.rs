use sudoku_solver::Position;
use sudoku_solver::SudokuBoard;

#[test]
fn nonet1_check() {
    let solvables = SudokuBoard::get_solvables();

    let expected = [
        Position { row: 0, col: 0 },
        Position { row: 0, col: 1 },
        Position { row: 0, col: 2 },
        Position { row: 1, col: 0 },
        Position { row: 1, col: 1 },
        Position { row: 1, col: 2 },
        Position { row: 2, col: 0 },
        Position { row: 2, col: 1 },
        Position { row: 2, col: 2 },
    ];

    for i in 0..9 {
        assert_eq!(solvables[18][i].row, expected[i].row);
        assert_eq!(solvables[18][i].col, expected[i].col);
    }
}

#[test]
fn nonet9_check() {
    let solvables = SudokuBoard::get_solvables();

    let expected = [
        Position { row: 6, col: 6 },
        Position { row: 6, col: 7 },
        Position { row: 6, col: 8 },
        Position { row: 7, col: 6 },
        Position { row: 7, col: 7 },
        Position { row: 7, col: 8 },
        Position { row: 8, col: 6 },
        Position { row: 8, col: 7 },
        Position { row: 8, col: 8 },
    ];

    for i in 0..9 {
        assert_eq!(solvables[26][i].row, expected[i].row);
        assert_eq!(solvables[26][i].col, expected[i].col);
    }
}

#[test]
fn tile_4_1_check() {
    let all_solvables = SudokuBoard::get_solvables();
    let tile_solvables = SudokuBoard::get_solvables_for(4, 1);

    for i in 0..9 {
        assert_eq!(all_solvables[4][i].row, tile_solvables[0][i].row);
        assert_eq!(all_solvables[4][i].col, tile_solvables[0][i].col);
    }
    for i in 0..9 {
        assert_eq!(all_solvables[10][i].row, tile_solvables[1][i].row);
        assert_eq!(all_solvables[10][i].col, tile_solvables[1][i].col);
    }
    for i in 0..9 {
        assert_eq!(all_solvables[21][i].row, tile_solvables[2][i].row);
        assert_eq!(all_solvables[21][i].col, tile_solvables[2][i].col);
    }
}

#[test]
fn tile_7_5_check() {
    let all_solvables = SudokuBoard::get_solvables();
    let tile_solvables = SudokuBoard::get_solvables_for(7, 5);

    for i in 0..9 {
        assert_eq!(all_solvables[7][i].row, tile_solvables[0][i].row);
        assert_eq!(all_solvables[7][i].col, tile_solvables[0][i].col);
    }
    for i in 0..9 {
        assert_eq!(all_solvables[14][i].row, tile_solvables[1][i].row);
        assert_eq!(all_solvables[14][i].col, tile_solvables[1][i].col);
    }
    for i in 0..9 {
        assert_eq!(all_solvables[25][i].row, tile_solvables[2][i].row);
        assert_eq!(all_solvables[25][i].col, tile_solvables[2][i].col);
    }
}

#[test]
fn every_group_has_nine_distinct_cells() {
    let solvables = SudokuBoard::get_solvables();
    assert_eq!(solvables.len(), 27);
    for g in 0..27 {
        assert_eq!(solvables[g].len(), 9);
        for a in 0..9 {
            for b in 0..9 {
                if a != b {
                    let pa = solvables[g][a];
                    let pb = solvables[g][b];
                    assert!(pa.row != pb.row || pa.col != pb.col);
                }
            }
        }
    }
}

#[test]
fn every_cell_in_three_groups() {
    let solvables = SudokuBoard::get_solvables();
    for row in 0..9 {
        for col in 0..9 {
            let mut owners = Vec::new();
            for g in 0..27 {
                if solvables[g].iter().any(|p| p.row == row && p.col == col) {
                    owners.push(g);
                }
            }
            assert_eq!(owners, vec![row, 9 + col, 18 + (row / 3) * 3 + col / 3]);
        }
    }
}

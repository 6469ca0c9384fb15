use sudoku_solver::get_valid_states;
use sudoku_solver::is_solved;
use sudoku_solver::solve;
use sudoku_solver::Branch;
use sudoku_solver::ParseError;
use sudoku_solver::SudokuBoard;
use sudoku_solver::TileSuperpos;

fn lines_of(rows: &[&str]) -> Vec<Vec<u8>> {
    rows.iter().map(|r| r.as_bytes().to_vec()).collect()
}

fn board_from(rows: &[&str; 9]) -> SudokuBoard {
    SudokuBoard::from_lines(&lines_of(rows)).unwrap()
}

const PUZZLE: [&str; 9] = [
    "530070000",
    "600195000",
    "098000060",
    "800060003",
    "400803001",
    "700020006",
    "060000280",
    "000419005",
    "000080079",
];

const SOLUTION: [&str; 9] = [
    "534678912",
    "672195348",
    "198342567",
    "859761423",
    "426853791",
    "713924856",
    "961537284",
    "287419635",
    "345286179",
];

fn digit_at(rows: &[&str; 9], row: usize, col: usize) -> u8 {
    rows[row].as_bytes()[col] - b'0'
}

#[test]
fn known_puzzle_solves_to_unique_solution() {
    let mut board = board_from(&PUZZLE);
    assert!(solve(&mut board).is_ok());
    assert!(is_solved(&board));
    for row in 0..9 {
        for col in 0..9 {
            assert_eq!(board.get_tile_value(row, col), digit_at(&SOLUTION, row, col));
            let given = digit_at(&PUZZLE, row, col);
            if given != 0 {
                assert_eq!(board.get_tile_value(row, col), given);
            }
        }
    }
}

#[test]
fn solve_is_idempotent_on_solved_grid() {
    let mut board = board_from(&SOLUTION);
    assert!(is_solved(&board));
    assert!(solve(&mut board).is_ok());
    for row in 0..9 {
        for col in 0..9 {
            assert_eq!(board.get_tile_value(row, col), digit_at(&SOLUTION, row, col));
        }
    }
}

#[test]
fn single_missing_cell_is_filled() {
    let mut rows = SOLUTION;
    rows[4] = "426803791";
    let mut board = board_from(&rows);
    assert!(!is_solved(&board));
    assert_eq!(board.get_tile_value(4, 4), 0);
    assert!(solve(&mut board).is_ok());
    assert!(is_solved(&board));
    assert_eq!(board.get_tile_value(4, 4), 5);
}

#[test]
fn duplicate_in_row_is_unsatisfiable() {
    let mut rows = SOLUTION;
    // Two cells of row 0 now both hold 5.
    rows[0] = "554678912";
    let mut board = board_from(&rows);
    assert!(!is_solved(&board));
    assert!(solve(&mut board).is_err());
}

#[test]
fn empty_grid_solves_to_valid_completion() {
    let rows = ["000000000"; 9];
    let mut board = board_from(&rows);
    assert!(solve(&mut board).is_ok());
    assert!(is_solved(&board));
}

#[test]
fn candidates_exclude_values_seen_by_cell() {
    let board = board_from(&PUZZLE);
    // Row 0 holds {5, 3, 7}, column 2 holds {8}, the top-left box holds
    // {5, 3, 6, 9, 8}: only 1, 2 and 4 remain for cell (0, 2).
    let t = get_valid_states(&board, 0, 2);
    assert_eq!(t.row, 0);
    assert_eq!(t.col, 2);
    assert_eq!(t.options, vec![1, 2, 4]);
}

#[test]
fn candidates_of_blocked_cell_are_empty() {
    let mut rows = SOLUTION;
    rows[4] = "426803791";
    let mut board = board_from(&rows);
    // Cell (4, 4) has exactly one candidate in the one-hole grid.
    assert_eq!(get_valid_states(&board, 4, 4).options, vec![5]);
    // Empty a second cell of the same row and give the first cell that
    // row's only free value: the second cell is left with no candidate.
    board.set_tile_value(4, 5, 0);
    board.set_tile_value(4, 4, 3);
    assert_eq!(get_valid_states(&board, 4, 5).options, Vec::<u8>::new());
}

#[test]
fn is_solved_rejects_incomplete_and_conflicting_grids() {
    assert!(!is_solved(&board_from(&PUZZLE)));
    let mut rows = SOLUTION;
    rows[0] = "554678912";
    assert!(!is_solved(&board_from(&rows)));
    assert!(is_solved(&board_from(&SOLUTION)));
}

#[test]
fn branch_walks_its_candidates_in_order() {
    let board = board_from(&PUZZLE);
    let tile = TileSuperpos { row: 0, col: 2, options: vec![1, 2, 4] };
    let mut branch = Branch::new(&tile, &board);
    assert!(branch.has_next());
    assert_eq!(branch.next(), 1);
    assert_eq!(branch.next(), 2);
    assert!(branch.has_next());
    assert_eq!(branch.next(), 4);
    assert!(!branch.has_next());
}

#[test]
fn branch_snapshot_is_independent_of_live_grid() {
    let mut board = board_from(&PUZZLE);
    let tile = TileSuperpos { row: 0, col: 2, options: vec![1, 2, 4] };
    let branch = Branch::new(&tile, &board);
    board.set_tile_value(0, 2, 4);
    assert_eq!(board.get_tile_value(0, 2), 4);
    assert_eq!(branch.board_state.get_tile_value(0, 2), 0);
}

#[test]
fn board_clone_is_independent() {
    let mut board = board_from(&PUZZLE);
    let copy = board.clone();
    board.set_tile_value(0, 2, 9);
    assert_eq!(copy.get_tile_value(0, 2), 0);
    assert_eq!(copy.get_tile_value(0, 0), 5);
}

#[test]
fn tile_superpos_clone_keeps_fields() {
    let tile = TileSuperpos { row: 3, col: 7, options: vec![2, 6, 9] };
    let copy = tile.clone();
    assert_eq!(copy.row, 3);
    assert_eq!(copy.col, 7);
    assert_eq!(copy.options, vec![2, 6, 9]);
}

#[test]
fn get_and_set_tile_value_roundtrip() {
    let mut board = board_from(&PUZZLE);
    assert_eq!(board.get_tile_value(0, 0), 5);
    assert_eq!(board.get_tile_value(2, 1), 9);
    board.set_tile_value(8, 8, 3);
    assert_eq!(board.get_tile_value(8, 8), 3);
}

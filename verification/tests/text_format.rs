use sudoku_solver::ParseError;
use sudoku_solver::SudokuBoard;

fn lines_of(rows: &[&str]) -> Vec<Vec<u8>> {
    rows.iter().map(|r| r.as_bytes().to_vec()).collect()
}

const SOLUTION: [&str; 9] = [
    "534678912",
    "672195348",
    "198342567",
    "859761423",
    "426853791",
    "713924856",
    "961537284",
    "287419635",
    "345286179",
];

#[test]
fn from_lines_reads_digits_row_major() {
    let board = SudokuBoard::from_lines(&lines_of(&SOLUTION)).unwrap();
    assert_eq!(board.get_tile_value(0, 0), 5);
    assert_eq!(board.get_tile_value(0, 8), 2);
    assert_eq!(board.get_tile_value(4, 4), 5);
    assert_eq!(board.get_tile_value(8, 8), 9);
}

#[test]
fn from_lines_ignores_padding_and_extra_lines() {
    let rows = [
        "530070000 trailing text",
        "600195000x",
        "098000060 ",
        "800060003..",
        "400803001!",
        "700020006 1",
        "060000280  ",
        "000419005\t",
        "000080079 9",
        "extra line",
        "another extra line",
    ];
    let board = SudokuBoard::from_lines(&lines_of(&rows)).unwrap();
    assert_eq!(board.get_tile_value(0, 0), 5);
    assert_eq!(board.get_tile_value(2, 1), 9);
    assert_eq!(board.get_tile_value(8, 7), 7);
}

#[test]
fn from_lines_rejects_missing_rows() {
    let rows = [
        "530070000",
        "600195000",
        "098000060",
        "800060003",
        "400803001",
        "700020006",
        "060000280",
        "000419005",
    ];
    assert_eq!(SudokuBoard::from_lines(&lines_of(&rows)).unwrap_err(), ParseError::MissingRows);
}

#[test]
fn from_lines_rejects_short_row() {
    let mut rows = SOLUTION;
    rows[3] = "85976";
    assert_eq!(
        SudokuBoard::from_lines(&lines_of(&rows)).unwrap_err(),
        ParseError::ShortRow { row: 3 }
    );
}

#[test]
fn from_lines_rejects_non_digit() {
    let mut rows = SOLUTION;
    rows[2] = "19a342567";
    assert_eq!(
        SudokuBoard::from_lines(&lines_of(&rows)).unwrap_err(),
        ParseError::BadDigit { row: 2, col: 2 }
    );
}

#[test]
fn rendering_draws_full_grid_with_rulers() {
    let board = SudokuBoard::from_lines(&lines_of(&SOLUTION)).unwrap();
    let expected = "534|678|912\n672|195|348\n198|342|567\n-----------\n859|761|423\n426|853|791\n713|924|856\n-----------\n961|537|284\n287|419|635\n345|286|179\n";
    assert_eq!(board.as_string(), expected);
}

#[test]
fn rendering_shows_empty_cells_as_blanks() {
    let rows = [
        "530070000",
        "600195000",
        "098000060",
        "800060003",
        "400803001",
        "700020006",
        "060000280",
        "000419005",
        "000080079",
    ];
    let board = SudokuBoard::from_lines(&lines_of(&rows)).unwrap();
    let expected = "53 | 7 |   \n6  |195|   \n 98|   | 6 \n-----------\n8  | 6 |  3\n4  |8 3|  1\n7  | 2 |  6\n-----------\n 6 |   |28 \n   |419|  5\n   | 8 | 79\n";
    assert_eq!(board.as_string(), expected);
}

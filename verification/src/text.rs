//! The text boundary: decoding a grid from lines of digit bytes, and
//! rendering a grid for display.

use vstd::prelude::*;
use vstd::string::StringExecFns;

use crate::board::cell_index;
use crate::board::SudokuBoard;

verus! {

/// An ASCII decimal digit.
pub open spec fn is_digit(b: u8) -> bool {
    48 <= b <= 57
}

/// A usable input line: at least 9 bytes, the first 9 of them digits;
/// anything after the ninth byte is ignored padding.
pub open spec fn row_well_formed(line: Seq<u8>) -> bool {
    line.len() >= 9 && forall|c: int| 0 <= c < 9 ==> is_digit(#[trigger] line[c])
}

/// Where a malformed puzzle text first goes wrong.
#[derive(Debug, Clone, Copy, PartialEq, Eq, Structural)]
pub enum ParseError {
    /// Fewer than 9 lines were supplied.
    MissingRows,
    /// The first offending line holds fewer than 9 bytes.
    ShortRow { row: usize },
    /// The first offending byte is not a decimal digit.
    BadDigit { row: usize, col: usize },
}

impl SudokuBoard {
    /// Decodes a grid from 9 lines of at least 9 digit bytes each ('0' for
    /// an empty cell); lines beyond the ninth and bytes beyond the ninth of
    /// each line are ignored. Reports the first malformed place, scanning
    /// lines in order and each line's first 9 bytes left to right.
    pub fn from_lines(lines: &Vec<Vec<u8>>) -> (r: Result<SudokuBoard, ParseError>)
        ensures
            r is Ok <==> (lines@.len() >= 9 && forall|rr: int|
                0 <= rr < 9 ==> row_well_formed(#[trigger] lines@[rr]@)),
            match r {
                Result::Ok(b) => b.wf() && forall|rr: int, cc: int|
                    0 <= rr < 9 && 0 <= cc < 9 ==> b@[cell_index(rr, cc)] + 48 == #[trigger] lines@[rr]@[cc],
                Result::Err(ParseError::MissingRows) => lines@.len() < 9,
                Result::Err(ParseError::ShortRow { row }) => row < 9 && lines@.len() >= 9
                    && lines@[row as int]@.len() < 9 && forall|rr: int|
                    0 <= rr < row as int ==> row_well_formed(#[trigger] lines@[rr]@),
                Result::Err(ParseError::BadDigit { row, col }) => row < 9 && col < 9
                    && lines@.len() >= 9 && lines@[row as int]@.len() >= 9 && !is_digit(
                    lines@[row as int]@[col as int],
                ) && (forall|rr: int| 0 <= rr < row as int ==> row_well_formed(
                    #[trigger] lines@[rr]@,
                )) && forall|cc: int|
                    0 <= cc < col as int ==> is_digit(#[trigger] lines@[row as int]@[cc]),
            },
    {
        if lines.len() < 9 {
            return Err(ParseError::MissingRows);
        }
        let mut board: Vec<u8> = Vec::new();
        let mut row: usize = 0;
        while row < 9
            invariant
                row <= 9,
                lines@.len() >= 9,
                board@.len() == row * 9,
                forall|rr: int| 0 <= rr < row as int ==> row_well_formed(#[trigger] lines@[rr]@),
                forall|rr: int, cc: int|
                    0 <= rr < row as int && 0 <= cc < 9 ==> board@[cell_index(rr, cc)] + 48
                        == #[trigger] lines@[rr]@[cc],
                forall|i: int| 0 <= i < board@.len() ==> #[trigger] board@[i] <= 9,
            decreases 9 - row,
        {
            let line = &lines[row];
            if line.len() < 9 {
                return Err(ParseError::ShortRow { row });
            }
            let mut col: usize = 0;
            while col < 9
                invariant
                    row < 9,
                    col <= 9,
                    lines@.len() >= 9,
                    lines@[row as int]@.len() >= 9,
                    line@ == lines@[row as int]@,
                    board@.len() == row * 9 + col,
                    forall|rr: int|
                        0 <= rr < row as int ==> row_well_formed(#[trigger] lines@[rr]@),
                    forall|rr: int, cc: int|
                        0 <= rr < row as int && 0 <= cc < 9 ==> board@[cell_index(rr, cc)] + 48
                            == #[trigger] lines@[rr]@[cc],
                    forall|cc: int|
                        0 <= cc < col as int ==> is_digit(#[trigger] lines@[row as int]@[cc])
                            && board@[cell_index(row as int, cc)] + 48 == lines@[row as int]@[cc],
                    forall|i: int| 0 <= i < board@.len() ==> #[trigger] board@[i] <= 9,
                decreases 9 - col,
            {
                let b = line[col];
                if b < 48 || b > 57 {
                    return Err(ParseError::BadDigit { row, col });
                }
                board.push(b - 48);
                col += 1;
            }
            row += 1;
        }
        let r = SudokuBoard::from_cells(board);
        proof {
            assert forall|rr: int, cc: int|
                0 <= rr < 9 && 0 <= cc < 9 implies r@[cell_index(rr, cc)] + 48
                == #[trigger] lines@[rr]@[cc] by {
            }
        }
        Ok(r)
    }
}

/// The character shown for one cell: its digit, or a blank when empty.
pub open spec fn cell_char(v: u8) -> char {
    if v == 0 {
        ' '
    } else {
        ((v + 48) as u8) as char
    }
}

/// One rendered cell, with the vertical separator after columns 2 and 5.
pub open spec fn rendered_cell(s: Seq<u8>, r: int, c: int) -> Seq<char> {
    seq![cell_char(s[cell_index(r, c)])] + if c == 2 || c == 5 {
        seq!['|']
    } else {
        Seq::empty()
    }
}

/// The first n rendered cells of one row.
pub open spec fn rendered_row_prefix(s: Seq<u8>, r: int, n: int) -> Seq<char>
    decreases n,
{
    if n <= 0 {
        Seq::empty()
    } else {
        rendered_row_prefix(s, r, n - 1) + rendered_cell(s, r, n - 1)
    }
}

/// The horizontal separator drawn after rows 2 and 5.
pub open spec fn dashes_line() -> Seq<char> {
    seq!['-', '-', '-', '-', '-', '-', '-', '-', '-', '-', '-', '\n']
}

/// One rendered row: its 9 cells with separators, a newline, and the dashed
/// line after rows 2 and 5.
pub open spec fn rendered_row(s: Seq<u8>, r: int) -> Seq<char> {
    rendered_row_prefix(s, r, 9) + seq!['\n'] + if r == 2 || r == 5 {
        dashes_line()
    } else {
        Seq::empty()
    }
}

/// The first n rendered rows.
pub open spec fn rendered_prefix(s: Seq<u8>, n: int) -> Seq<char>
    decreases n,
{
    if n <= 0 {
        Seq::empty()
    } else {
        rendered_prefix(s, n - 1) + rendered_row(s, n - 1)
    }
}

/// The full 9-line text drawing of a grid, with the standard 3x3 rulers.
pub open spec fn rendered(s: Seq<u8>) -> Seq<char> {
    rendered_prefix(s, 9)
}

/// Appends the display character of one cell value.
fn push_cell_char(out: &mut String, v: u8)
    requires
        v <= 9,
    ensures
        final(out)@ == old(out)@ + seq![cell_char(v)],
{
    match v {
        0 => {
            out.append(" ");
            proof {
                reveal_strlit(" ");
            }
        },
        1 => {
            out.append("1");
            proof {
                reveal_strlit("1");
            }
        },
        2 => {
            out.append("2");
            proof {
                reveal_strlit("2");
            }
        },
        3 => {
            out.append("3");
            proof {
                reveal_strlit("3");
            }
        },
        4 => {
            out.append("4");
            proof {
                reveal_strlit("4");
            }
        },
        5 => {
            out.append("5");
            proof {
                reveal_strlit("5");
            }
        },
        6 => {
            out.append("6");
            proof {
                reveal_strlit("6");
            }
        },
        7 => {
            out.append("7");
            proof {
                reveal_strlit("7");
            }
        },
        8 => {
            out.append("8");
            proof {
                reveal_strlit("8");
            }
        },
        _ => {
            out.append("9");
            proof {
                reveal_strlit("9");
            }
        },
    }
    proof {
        assert(out@ =~= old(out)@ + seq![cell_char(v)]);
    }
}

impl SudokuBoard {
    /// Renders the grid as the standard 9-line drawing: blanks for empty
    /// cells, '|' after columns 2 and 5, and a dashed line after rows 2
    /// and 5.
    pub fn as_string(&self) -> (out: String)
        requires
            self.wf(),
        ensures
            out@ == rendered(self@),
    {
        let ghost s = self@;
        let mut out_str = String::new();

        let mut row: usize = 0;
        while row < 9
            invariant
                row <= 9,
                self.wf(),
                s == self@,
                out_str@ == rendered_prefix(s, row as int),
            decreases 9 - row,
        {
            let mut col: usize = 0;
            while col < 9
                invariant
                    row < 9,
                    col <= 9,
                    self.wf(),
                    s == self@,
                    out_str@ == rendered_prefix(s, row as int) + rendered_row_prefix(
                        s,
                        row as int,
                        col as int,
                    ),
                decreases 9 - col,
            {
                let cur_val = self.get_tile_value(row, col);
                push_cell_char(&mut out_str, cur_val);
                if col == 2 || col == 5 {
                    out_str.append("|");
                    proof {
                        reveal_strlit("|");
                    }
                }
                proof {
                    assert(out_str@ =~= rendered_prefix(s, row as int) + rendered_row_prefix(
                        s,
                        row as int,
                        col as int + 1,
                    ));
                }
                col += 1;
            }
            out_str.append("\n");
            proof {
                reveal_strlit("\n");
            }
            if row == 2 || row == 5 {
                out_str.append("-----------\n");
                proof {
                    reveal_strlit("-----------\n");
                }
            }
            proof {
                assert(out_str@ =~= rendered_prefix(s, row as int + 1));
            }
            row += 1;
        }
        out_str
    }
}

} // verus!

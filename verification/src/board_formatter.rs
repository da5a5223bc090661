//! Rendering boards as text: the plain board dump and the hint-decorated
//! view a console shows.

use vstd::prelude::*;

use crate::board::{Board, Vec2};
use crate::cell::Cell;

verus! {

/// The two characters a cell is drawn as.
pub open spec fn cell_chars(c: Cell) -> Seq<char> {
    match c {
        Cell::Block => seq!['\u{2588}', '\u{2588}'],
        Cell::Blank => seq![' ', ' '],
        Cell::Crash => seq!['C', 'C'],
        Cell::Unknown => seq!['?', '?'],
    }
}

/// The two characters of a cell, as a string.
fn cell_str(c: Cell) -> (r: &'static str)
    ensures
        r@ == cell_chars(c),
{
    match c {
        Cell::Block => {
            proof {
                reveal_strlit("\u{2588}\u{2588}");
            }
            "\u{2588}\u{2588}"
        },
        Cell::Blank => {
            proof {
                reveal_strlit("  ");
            }
            "  "
        },
        Cell::Crash => {
            proof {
                reveal_strlit("CC");
            }
            "CC"
        },
        Cell::Unknown => {
            proof {
                reveal_strlit("??");
            }
            "??"
        },
    }
}

/// One rendered line of cells: each cell's characters and a space.
pub open spec fn render_cells(s: Seq<Cell>) -> Seq<char>
    decreases s.len(),
{
    if s.len() == 0 {
        Seq::empty()
    } else {
        cell_chars(s[0]) + seq![' '] + render_cells(s.skip(1))
    }
}

/// The rendered rows of a board from row `r` down, one line each.
pub open spec fn render_board(b: &Board<Cell>, r: int) -> Seq<char>
    decreases b.rows() - r,
{
    if r < 0 || r >= b.rows() {
        Seq::empty()
    } else {
        render_cells(b.row_seq(r)) + seq!['\n'] + render_board(b, r + 1)
    }
}

impl Board<Cell> {
    /// The whole board as text: one line per row, two characters and a
    /// space per cell.
    pub fn to_string(&self) -> (r: String)
        requires
            self.wf(),
        ensures
            r@ == render_board(self, 0),
    {
        let mut result = String::new();
        let rows = self.size().row;
        let cols = self.size().column;
        let mut row: usize = 0;
        proof {
            assert(result@ + render_board(self, 0) =~= render_board(self, 0));
        }
        while row < rows
            invariant
                self.wf(),
                rows == self.rows(),
                cols == self.cols(),
                row <= rows,
                render_board(self, 0) == result@ + render_board(self, row as int),
            decreases rows - row,
        {
            let ghost row_cells = self.row_seq(row as int);
            let ghost at_row_start = result@;
            let mut col: usize = 0;
            proof {
                assert(row_cells.skip(0) =~= row_cells);
            }
            while col < cols
                invariant
                    self.wf(),
                    rows == self.rows(),
                    cols == self.cols(),
                    row < rows,
                    col <= cols,
                    row_cells == self.row_seq(row as int),
                    at_row_start + render_cells(row_cells) == result@ + render_cells(
                        row_cells.skip(col as int),
                    ),
                decreases cols - col,
            {
                let c = *self.value(Vec2 { row, column: col });
                result.append(cell_str(c));
                result.append(" ");
                col = col + 1;
                proof {
                    reveal_strlit(" ");
                    let rest = row_cells.skip(col - 1);
                    assert(rest[0] == row_cells[col - 1]);
                    assert(rest.skip(1) =~= row_cells.skip(col as int));
                    assert(render_cells(rest) == cell_chars(rest[0]) + seq![' '] + render_cells(
                        rest.skip(1),
                    ));
                    assert(" "@ =~= seq![' ']);
                    assert(at_row_start + render_cells(row_cells) =~= result@ + render_cells(
                        row_cells.skip(col as int),
                    ));
                }
            }
            result.append("\n");
            row = row + 1;
            proof {
                reveal_strlit("\n");
                assert("\n"@ =~= seq!['\n']);
                assert(row_cells.skip(cols as int) =~= Seq::<Cell>::empty());
                assert(render_cells(row_cells.skip(cols as int)) =~= Seq::<char>::empty());
                assert(at_row_start + render_cells(row_cells) =~= result@.take(
                    result@.len() - 1,
                ));
                assert(render_board(self, row - 1) == render_cells(row_cells) + seq!['\n']
                    + render_board(self, row as int));
                assert(render_board(self, 0) =~= result@ + render_board(self, row as int));
            }
        }
        proof {
            assert(render_board(self, rows as int) =~= Seq::<char>::empty());
            assert(render_board(self, 0) =~= result@);
        }
        result
    }
}

/// The decimal digits of `n`, most significant first.
pub open spec fn dec_chars(n: nat) -> Seq<char>
    decreases n,
{
    if n < 10 {
        seq![digit_char(n)]
    } else {
        dec_chars(n / 10) + seq![digit_char(n % 10)]
    }
}

pub open spec fn digit_char(d: nat) -> char {
    if d == 0 {
        '0'
    } else if d == 1 {
        '1'
    } else if d == 2 {
        '2'
    } else if d == 3 {
        '3'
    } else if d == 4 {
        '4'
    } else if d == 5 {
        '5'
    } else if d == 6 {
        '6'
    } else if d == 7 {
        '7'
    } else if d == 8 {
        '8'
    } else {
        '9'
    }
}

/// One decimal digit as a string.
fn digit_str(d: usize) -> (r: &'static str)
    requires
        d < 10,
    ensures
        r@ == seq![digit_char(d as nat)],
{
    proof {
        reveal_strlit("0");
        reveal_strlit("1");
        reveal_strlit("2");
        reveal_strlit("3");
        reveal_strlit("4");
        reveal_strlit("5");
        reveal_strlit("6");
        reveal_strlit("7");
        reveal_strlit("8");
        reveal_strlit("9");
    }
    let r = match d {
        0 => "0",
        1 => "1",
        2 => "2",
        3 => "3",
        4 => "4",
        5 => "5",
        6 => "6",
        7 => "7",
        8 => "8",
        _ => "9",
    };
    proof {
        assert(r@ =~= seq![digit_char(d as nat)]);
    }
    r
}

/// `n` written in decimal.
pub fn usize_to_string(n: usize) -> (r: String)
    ensures
        r@ == dec_chars(n as nat),
    decreases n,
{
    if n < 10 {
        let mut s = String::new();
        s.append(digit_str(n));
        proof {
            assert(s@ =~= seq![digit_char(n as nat)]);
        }
        s
    } else {
        let mut s = usize_to_string(n / 10);
        s.append(digit_str(n % 10));
        proof {
            assert(s@ =~= dec_chars((n / 10) as nat) + seq![digit_char((n % 10) as nat)]);
        }
        s
    }
}

/// Renders a board together with its hints: the column hints stacked above
/// the grid, each row's hint to its left, every cell drawn twice as wide and
/// twice as tall.  The layout is for human eyes and carries no contract
/// beyond producing some text.
pub struct BoardFormatter {
    board: Board<Cell>,
    row_hints: Vec<Vec<usize>>,
    column_hints: Vec<Vec<usize>>,
}

impl BoardFormatter {
    pub closed spec fn wf(&self) -> bool {
        self.board.wf()
    }

    pub fn new(board: Board<Cell>, row_hints: Vec<Vec<usize>>, column_hints: Vec<Vec<usize>>) -> (r:
        BoardFormatter)
        requires
            board.wf(),
        ensures
            r.wf(),
    {
        BoardFormatter { board, row_hints, column_hints }
    }

    /// Append `n`, left-justified to at least four characters.
    fn write_padded_number(result: &mut String, n: usize) {
        let text = usize_to_string(n);
        let digits = text.as_str().unicode_len();
        result.append(text.as_str());
        let mut fill = digits;
        while fill < 4
            decreases 4 - fill,
        {
            result.append(" ");
            fill = fill + 1;
        }
    }

    /// The stacked column hints, bottom-aligned over their columns.
    fn write_column_hints(&self, result: &mut String, max_row_hint_len: usize, max_col_hint_len: usize)
        requires
            old(result)@.len() >= 0,
    {
        let mut i: usize = 0;
        while i < max_col_hint_len
            decreases max_col_hint_len - i,
        {
            let mut pad: usize = 0;
            while pad < max_row_hint_len
                decreases max_row_hint_len - pad,
            {
                result.append("    ");
                pad = pad + 1;
            }
            let mut c: usize = 0;
            while c < self.column_hints.len()
                decreases self.column_hints@.len() - c,
            {
                let hint = &self.column_hints[c];
                let hint_len = hint.len();
                if hint_len <= max_col_hint_len && i < max_col_hint_len - hint_len {
                    result.append("    ");
                } else if hint_len <= max_col_hint_len {
                    let hint_index = i - (max_col_hint_len - hint_len);
                    if hint_index < hint_len {
                        Self::write_padded_number(result, hint[hint_index]);
                    } else {
                        result.append("    ");
                    }
                } else {
                    result.append("    ");
                }
                c = c + 1;
            }
            result.append("\n");
            i = i + 1;
        }
    }

    /// The grid, one doubled line per row, with the row's hint in front.
    fn write_board_content(&self, result: &mut String, max_row_hint_len: usize)
        requires
            self.wf(),
    {
        let rows = self.board.size().row;
        let cols = self.board.size().column;
        let mut row: usize = 0;
        while row < rows
            invariant
                self.wf(),
                rows == self.board.rows(),
                cols == self.board.cols(),
                row <= rows,
            decreases rows - row,
        {
            // the hint, padded to the hint column width
            let mut written: usize = 0;
            if row < self.row_hints.len() {
                let hint = &self.row_hints[row];
                let mut j: usize = 0;
                while j < hint.len()
                    invariant
                        written <= usize::MAX / 2,
                    decreases hint@.len() - j,
                {
                    if j > 0 {
                        result.append(" ");
                    }
                    Self::write_padded_number(result, hint[j]);
                    if written < usize::MAX / 2 {
                        written = written + 1;
                    }
                    j = j + 1;
                }
            }
            let mut pad = written;
            while pad < max_row_hint_len
                decreases max_row_hint_len - pad,
            {
                result.append("    ");
                pad = pad + 1;
            }

            // the cells, twice, for a square look
            let mut pass: usize = 0;
            while pass < 2
                invariant
                    self.wf(),
                    rows == self.board.rows(),
                    cols == self.board.cols(),
                    row < rows,
                    pass <= 2,
                decreases 2 - pass,
            {
                if pass == 1 {
                    let mut pad2: usize = 0;
                    while pad2 < max_row_hint_len
                        decreases max_row_hint_len - pad2,
                    {
                        result.append("    ");
                        pad2 = pad2 + 1;
                    }
                }
                let mut col: usize = 0;
                while col < cols
                    invariant
                        self.wf(),
                        rows == self.board.rows(),
                        cols == self.board.cols(),
                        row < rows,
                        col <= cols,
                    decreases cols - col,
                {
                    let c = *self.board.value(Vec2 { row, column: col });
                    result.append(cell_str(c));
                    result.append(cell_str(c));
                    col = col + 1;
                }
                result.append("\n");
                pass = pass + 1;
            }
            row = row + 1;
        }
    }

    /// The whole decorated rendering.
    pub fn to_string(&self) -> (r: String)
        requires
            self.wf(),
    {
        let mut result = String::new();

        let mut max_row_hint_len: usize = 0;
        let mut i: usize = 0;
        while i < self.row_hints.len()
            invariant
                max_row_hint_len <= usize::MAX,
            decreases self.row_hints@.len() - i,
        {
            let l = self.row_hints[i].len();
            if l > max_row_hint_len {
                max_row_hint_len = l;
            }
            i = i + 1;
        }
        let mut max_col_hint_len: usize = 0;
        let mut j: usize = 0;
        while j < self.column_hints.len()
            decreases self.column_hints@.len() - j,
        {
            let l = self.column_hints[j].len();
            if l > max_col_hint_len {
                max_col_hint_len = l;
            }
            j = j + 1;
        }

        self.write_column_hints(&mut result, max_row_hint_len, max_col_hint_len);
        result.append("\n");
        self.write_board_content(&mut result, max_row_hint_len);
        result
    }
}

} // verus!

//! Points, cells and boards as text.

use crate::board::Board;
use crate::board::Cell;
use crate::board::Content;
use crate::board::KnowledgeState;
use crate::board::Point;
use crate::interaction::all_digits;
use crate::interaction::decimal;
use crate::interaction::is_digit;
use crate::interaction::number_written;
use vstd::prelude::*;
use vstd::string::*;

verus! {

/// The digit that writes the number `d`, for `d` below ten.
pub open spec fn digit_text(d: nat) -> Seq<char> {
    if d == 0 {
        "0"@
    } else if d == 1 {
        "1"@
    } else if d == 2 {
        "2"@
    } else if d == 3 {
        "3"@
    } else if d == 4 {
        "4"@
    } else if d == 5 {
        "5"@
    } else if d == 6 {
        "6"@
    } else if d == 7 {
        "7"@
    } else if d == 8 {
        "8"@
    } else {
        "9"@
    }
}

/// The number `n` written in base ten, without leading zeros.
pub open spec fn decimal_text(n: nat) -> Seq<char>
    decreases n,
{
    if n < 10 {
        digit_text(n)
    } else {
        decimal_text(n / 10) + digit_text(n % 10)
    }
}

/// A digit is one character, and it writes its number.
pub proof fn lemma_digit_text(d: nat)
    requires
        d < 10,
    ensures
        digit_text(d).len() == 1,
        is_digit(digit_text(d)[0]),
        digit_text(d)[0] as int - '0' as int == d,
{
    reveal_strlit("0");
    reveal_strlit("1");
    reveal_strlit("2");
    reveal_strlit("3");
    reveal_strlit("4");
    reveal_strlit("5");
    reveal_strlit("6");
    reveal_strlit("7");
    reveal_strlit("8");
    reveal_strlit("9");
}

/// What is written of a number reads as that number again.
pub proof fn lemma_written_reads_back(n: usize)
    ensures
        decimal_text(n as nat).len() > 0,
        all_digits(decimal_text(n as nat)),
        decimal(decimal_text(n as nat)) == n,
        number_written(decimal_text(n as nat)) == Some(n),
    decreases n,
{
    let text = decimal_text(n as nat);
    if n < 10 {
        lemma_digit_text(n as nat);
        assert(text.drop_last() =~= Seq::<char>::empty());
        assert(decimal(text.drop_last()) == 0);
    } else {
        let head = decimal_text((n / 10) as nat);
        let tail = digit_text((n % 10) as nat);
        lemma_written_reads_back(n / 10);
        lemma_digit_text((n % 10) as nat);
        assert(text == head + tail);
        assert(text.drop_last() =~= head);
        assert(text.last() == tail[0]);
        assert forall|i: int| 0 <= i < text.len() implies is_digit(#[trigger] text[i]) by {
            if i < head.len() {
                assert(text[i] == head[i]);
            }
        }
    }
}

/// The sign of a cell: a flag, a box for an unknown cell, `X` for a revealed
/// mine, `_` for a revealed cell without a mine around it, and otherwise the
/// number of the mines around it.
pub open spec fn cell_text(cell: Cell) -> Seq<char> {
    match (cell.knowledge, cell.content) {
        (KnowledgeState::Flag, _) => "▶"@,
        (KnowledgeState::Unknown, _) => "□"@,
        (KnowledgeState::Known, Content::Mine) => "X"@,
        (KnowledgeState::Known, Content::Empty) => if cell.mined_neighbor_count == 0 {
            "_"@
        } else {
            decimal_text(cell.mined_neighbor_count as nat)
        },
    }
}

/// A point as text: `Point(row,column)`.
pub open spec fn point_text(point: Point) -> Seq<char> {
    "Point("@ + decimal_text(point.0 as nat) + ","@ + decimal_text(point.1 as nat) + ")"@
}

/// The numbers below `n`, written one after the other.
pub open spec fn numbers_text(n: int) -> Seq<char>
    decreases n,
{
    if n <= 0 {
        Seq::empty()
    } else {
        numbers_text(n - 1) + decimal_text((n - 1) as nat)
    }
}

/// The signs of `n` cells, from the cell with number `from` on.
pub open spec fn cells_text(cells: Seq<Cell>, from: int, n: int) -> Seq<char>
    decreases n,
{
    if n <= 0 {
        Seq::empty()
    } else {
        cells_text(cells, from, n - 1) + cell_text(cells[from + n - 1])
    }
}

/// The first `rows` rows of a board of `width` columns: each row is its
/// number, a blank, the signs of its cells, and a line break.
pub open spec fn rows_text(cells: Seq<Cell>, width: int, rows: int) -> Seq<char>
    decreases rows,
{
    if rows <= 0 {
        Seq::empty()
    } else {
        rows_text(cells, width, rows - 1) + decimal_text((rows - 1) as nat) + " "@ + cells_text(
            cells,
            (rows - 1) * width,
            width,
        ) + "\n"@
    }
}

/// A board as text: a line with the numbers of the columns, then the rows.
pub open spec fn board_text(board: &Board) -> Seq<char> {
    "  "@ + numbers_text(board.size.width as int) + "\n"@ + rows_text(
        board.field@,
        board.size.width as int,
        board.size.height as int,
    )
}

/// The digit that writes `d`.
fn digit_str(d: usize) -> (text: &'static str)
    requires
        d < 10,
    ensures
        text@ == digit_text(d as nat),
{
    if d == 0 {
        "0"
    } else if d == 1 {
        "1"
    } else if d == 2 {
        "2"
    } else if d == 3 {
        "3"
    } else if d == 4 {
        "4"
    } else if d == 5 {
        "5"
    } else if d == 6 {
        "6"
    } else if d == 7 {
        "7"
    } else if d == 8 {
        "8"
    } else {
        "9"
    }
}

/// The number `n` written in base ten.
pub fn number_text(n: usize) -> (text: String)
    ensures
        text@ == decimal_text(n as nat),
    decreases n,
{
    if n < 10 {
        String::from_str(digit_str(n))
    } else {
        let mut text = number_text(n / 10);
        text.append(digit_str(n % 10));
        text
    }
}

impl Point {
    /// The point as text: `Point(row,column)`.
    pub fn to_text(&self) -> (text: String)
        ensures
            text@ == point_text(*self),
    {
        let mut text = String::from_str("Point(");
        let row = number_text(self.0);
        text.append(row.as_str());
        text.append(",");
        let column = number_text(self.1);
        text.append(column.as_str());
        text.append(")");
        text
    }
}

impl Cell {
    /// The sign of the cell.
    pub fn to_str(&self) -> (text: String)
        ensures
            text@ == cell_text(*self),
    {
        match (self.knowledge, self.content) {
            (KnowledgeState::Flag, _) => String::from_str("▶"),
            (KnowledgeState::Unknown, _) => String::from_str("□"),
            (KnowledgeState::Known, Content::Mine) => String::from_str("X"),
            (KnowledgeState::Known, Content::Empty) => {
                if self.mined_neighbor_count == 0 {
                    String::from_str("_")
                } else {
                    number_text(self.mined_neighbor_count)
                }
            },
        }
    }
}

impl Board {
    /// The board as text: a line with the numbers of the columns, then row
    /// by row the number of the row and the signs of its cells.
    pub fn to_text(&self) -> (text: String)
        requires
            self.well_shaped(),
        ensures
            text@ == board_text(self),
    {
        let width = self.size.width;
        let height = self.size.height;
        let ghost cells = self.field@;
        let mut result = String::from_str("  ");
        let mut i: usize = 0;
        while i < width
            invariant
                i <= width,
                result@ == "  "@ + numbers_text(i as int),
            decreases width - i,
        {
            let number = number_text(i);
            result.append(number.as_str());
            proof {
                assert(result@ =~= "  "@ + numbers_text(i + 1));
            }
            i = i + 1;
        }
        result.append("\n");
        let ghost head = result@;
        let mut x: usize = 0;
        let mut i: usize = 0;
        while i < height
            invariant
                width == self.size.width,
                height == self.size.height,
                cells == self.field@,
                cells.len() == width * height,
                i <= height,
                x == i * width,
                result@ == head + rows_text(cells, width as int, i as int),
            decreases height - i,
        {
            let ghost before = result@;
            let number = number_text(i);
            result.append(number.as_str());
            result.append(" ");
            let ghost start = result@;
            let mut j: usize = 0;
            while j < width
                invariant
                    width == self.size.width,
                    cells == self.field@,
                    cells.len() == width * height,
                    i < height,
                    j <= width,
                    x == i * width + j,
                    result@ == start + cells_text(cells, i * width, j as int),
                decreases width - j,
            {
                proof {
                    assert(i * width + j < width * height) by (nonlinear_arith)
                        requires
                            i < height,
                            j < width,
                    ;
                    assert(x < self.field.len());
                }
                let sign = self.field[x].to_str();
                result.append(sign.as_str());
                proof {
                    assert(cells[i * width + (j + 1) - 1] == cells[x as int]);
                    assert(result@ =~= start + cells_text(cells, i * width, j + 1));
                }
                x = x + 1;
                j = j + 1;
            }
            result.append("\n");
            proof {
                assert((i + 1) * width == i * width + width) by (nonlinear_arith);
                assert(((i + 1) - 1) * width == i * width);
                assert(result@ =~= head + rows_text(cells, width as int, i + 1)) by {
                    assert(rows_text(cells, width as int, i + 1) =~= rows_text(
                        cells,
                        width as int,
                        i as int,
                    ) + decimal_text(i as nat) + " "@ + cells_text(cells, i * width, width as int)
                        + "\n"@);
                }
            }
            i = i + 1;
        }
        result
    }
}

} // verus!

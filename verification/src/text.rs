//! Text: numbers in decimal, boards as three lines, the edges of the search
//! graph, and the record that a search writes them to.

use vstd::prelude::*;
use vstd::string::*;
use crate::board::{cell_of, grid, on_board, place, Board};

verus! {

/// `String::push` of the standard library, which appends one character to the
/// end of the string and leaves the rest as it was.
pub assume_specification[ String::push ](s: &mut String, ch: char)
    ensures
        final(s)@ == old(s)@.push(ch),
;

/// The character of a decimal digit.
pub open spec fn digit_char(d: int) -> char {
    if d == 0 {
        '0'
    } else if d == 1 {
        '1'
    } else if d == 2 {
        '2'
    } else if d == 3 {
        '3'
    } else if d == 4 {
        '4'
    } else if d == 5 {
        '5'
    } else if d == 6 {
        '6'
    } else if d == 7 {
        '7'
    } else if d == 8 {
        '8'
    } else {
        '9'
    }
}

/// A natural number in decimal, without leading zeros.
pub open spec fn digits(n: nat) -> Seq<char>
    decreases n,
{
    if n < 10 {
        seq![digit_char(n as int)]
    } else {
        digits(n / 10).push(digit_char((n % 10) as int))
    }
}

/// An integer in decimal, with a minus sign where it is negative.
pub open spec fn decimal(n: int) -> Seq<char> {
    if n < 0 {
        seq!['-'] + digits((-n) as nat)
    } else {
        digits(n as nat)
    }
}

fn digit_of(d: u32) -> (c: char)
    requires
        d < 10,
    ensures
        c == digit_char(d as int),
{
    if d == 0 {
        '0'
    } else if d == 1 {
        '1'
    } else if d == 2 {
        '2'
    } else if d == 3 {
        '3'
    } else if d == 4 {
        '4'
    } else if d == 5 {
        '5'
    } else if d == 6 {
        '6'
    } else if d == 7 {
        '7'
    } else if d == 8 {
        '8'
    } else {
        '9'
    }
}

fn push_digits(out: &mut String, n: u32)
    ensures
        final(out)@ == old(out)@ + digits(n as nat),
    decreases n,
{
    if n >= 10 {
        push_digits(out, n / 10);
    }
    out.push(digit_of(n % 10));
    assert(out@ =~= old(out)@ + digits(n as nat));
}

/// Appends `n` in decimal to `out`.
pub fn push_decimal(out: &mut String, n: i16)
    ensures
        final(out)@ == old(out)@ + decimal(n as int),
{
    let wide: i32 = n as i32;
    if wide < 0 {
        out.push('-');
        push_digits(out, (-wide) as u32);
        assert(out@ =~= old(out)@ + decimal(n as int));
    } else {
        push_digits(out, wide as u32);
    }
}

/// How a cell is shown: `_` where it is free, `X` and `O` for the two sides,
/// nothing at all for a mark that belongs to nobody.
pub open spec fn cell_text(mark: i16) -> Seq<char> {
    if mark == 0 {
        seq!['_']
    } else if mark == 1 {
        seq!['X']
    } else if mark == 2 {
        seq!['O']
    } else {
        Seq::<char>::empty()
    }
}

/// A row of the board as text: its three cells and a line feed.
pub open spec fn row_text(g: Seq<i16>, row: int) -> Seq<char> {
    cell_text(g[3 * row]) + cell_text(g[3 * row + 1]) + cell_text(g[3 * row + 2]) + seq!['\n']
}

/// A board as text: its three rows, each followed by a line feed.
pub open spec fn board_text(g: Seq<i16>) -> Seq<char> {
    row_text(g, 0) + row_text(g, 1) + row_text(g, 2)
}

/// The first `n` rows as text.
spec fn rows_text(g: Seq<i16>, n: int) -> Seq<char>
    decreases n,
{
    if n <= 0 {
        Seq::<char>::empty()
    } else {
        rows_text(g, n - 1) + row_text(g, n - 1)
    }
}

/// The first `n` cells of a row as text.
spec fn cells_text(g: Seq<i16>, row: int, n: int) -> Seq<char>
    decreases n,
{
    if n <= 0 {
        Seq::<char>::empty()
    } else {
        cells_text(g, row, n - 1) + cell_text(g[3 * row + n - 1])
    }
}

/// The board as three lines of text.
pub fn board_to_string(board: Board) -> (result: String)
    ensures
        result@ == board_text(grid(board)),
{
    let ghost g = grid(board);
    let mut result = String::new();
    let mut i: usize = 0;
    while i < 3
        invariant
            i <= 3,
            g == grid(board),
            result@ == rows_text(g, i as int),
        decreases 3 - i,
    {
        let mut j: usize = 0;
        assert(result@ =~= rows_text(g, i as int) + cells_text(g, i as int, 0));
        while j < 3
            invariant
                i < 3,
                j <= 3,
                g == grid(board),
                result@ == rows_text(g, i as int) + cells_text(g, i as int, j as int),
            decreases 3 - j,
        {
            let ghost before = result@;
            let cell = board[i][j];
            assert(cell == g[3 * i + j]);
            if cell == 0 {
                result.push('_');
            } else if cell == 1 {
                result.push('X');
            } else if cell == 2 {
                result.push('O');
            }
            assert(result@ =~= before + cell_text(cell));
            assert(result@ =~= rows_text(g, i as int) + cells_text(g, i as int, j + 1));
            j += 1;
        }
        result.push('\n');
        assert(result@ =~= rows_text(g, i + 1)) by {
            reveal_with_fuel(cells_text, 4);
            assert(cells_text(g, i as int, 3) + seq!['\n'] =~= row_text(g, i as int));
        }
        i += 1;
    }
    assert(rows_text(g, 3) =~= board_text(g)) by {
        reveal_with_fuel(rows_text, 4);
    }
    result
}

/// The board as text once `figure` stands in the cell that `move_` names.
pub fn board_to_string_move(board: Board, move_: [usize; 2], figure: i16) -> (result: String)
    requires
        on_board(move_),
    ensures
        result@ == board_text(grid(board).update(cell_of(move_), figure)),
{
    let new_board = place(board, move_[0], move_[1], figure);
    board_to_string(new_board)
}

/// One edge of the search graph: from one board to another, with a score.
pub open spec fn edge_text(from: Seq<i16>, to: Seq<i16>, score: int) -> Seq<char> {
    "\""@ + board_text(from) + "\" -> \""@ + board_text(to) + "\" [label=\""@ + decimal(score)
        + "\"]\n"@
}

/// Appends to `f` the edge from `board` to `new_board` with its score, as one
/// line.
pub fn write_board(f: &mut String, board: Board, new_board: Board, score: i16)
    ensures
        final(f)@ == old(f)@ + edge_text(grid(board), grid(new_board), score as int),
{
    let from = board_to_string(board);
    let to = board_to_string(new_board);
    f.append("\"");
    f.append(from.as_str());
    f.append("\" -> \"");
    f.append(to.as_str());
    f.append("\" [label=\"");
    push_decimal(f, score);
    f.append("\"]\n");
    assert(f@ =~= old(f)@ + edge_text(grid(board), grid(new_board), score as int));
}

/// What a record holds, where there is one.
pub open spec fn shown(file: Option<String>) -> Option<Seq<char>> {
    match file {
        Some(s) => Some(s@),
        None => None,
    }
}

/// A record with `text` appended; no record stays no record.
pub open spec fn with_text(before: Option<Seq<char>>, text: Seq<char>) -> Option<Seq<char>> {
    match before {
        Some(s) => Some(s + text),
        None => None,
    }
}

/// Appending one text and then another appends the two in a row.
pub proof fn lemma_with_text_twice(before: Option<Seq<char>>, a: Seq<char>, b: Seq<char>)
    ensures
        with_text(with_text(before, a), b) == with_text(before, a + b),
        with_text(before, Seq::<char>::empty()) == before,
{
    match before {
        Some(s) => {
            assert(s + a + b =~= s + (a + b));
            assert(s + Seq::<char>::empty() =~= s);
        },
        None => {},
    }
}

} // verus!

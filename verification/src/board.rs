//! The 3×3 board: its cells, its lines, the winner and the free cells.

use vstd::prelude::*;

verus! {

/// A board, row by row. A cell holds 0 when it is free, 1 for an `X` and 2
/// for an `O`; any other number is a mark that belongs to nobody.
pub type Board = [[i16; 3]; 3];

/// The nine cells of a board in row-major order: cell `3 * row + col`.
pub open spec fn grid(board: Board) -> Seq<i16> {
    Seq::new(9, |k: int| board[k / 3][k % 3])
}

/// The number of cells among the first `n` that hold a mark.
pub open spec fn marks_before(g: Seq<i16>, n: int) -> int
    decreases n,
{
    if n <= 0 {
        0
    } else {
        marks_before(g, n - 1) + if g[n - 1] != 0 { 1int } else { 0int }
    }
}

/// The number of cells that hold a mark.
pub open spec fn marks(g: Seq<i16>) -> int {
    marks_before(g, 9)
}

/// The number of free cells.
pub open spec fn free_cells(g: Seq<i16>) -> int {
    9 - marks(g)
}

/// Cell `k` is free.
pub open spec fn is_free(g: Seq<i16>, k: int) -> bool {
    0 <= k < 9 && g[k] == 0
}

/// Some cell is free.
pub open spec fn has_free_cell(g: Seq<i16>) -> bool {
    exists|k: int| is_free(g, k)
}

proof fn lemma_marks_before(g: Seq<i16>, n: int)
    requires
        0 <= n <= 9,
    ensures
        0 <= marks_before(g, n) <= n,
        marks_before(g, n) == n <==> forall|k: int| 0 <= k < n ==> g[k] != 0,
    decreases n,
{
    if n > 0 {
        lemma_marks_before(g, n - 1);
    }
}

proof fn lemma_marks_before_update(g: Seq<i16>, k: int, mark: i16, n: int)
    requires
        g.len() == 9,
        is_free(g, k),
        mark != 0,
        0 <= n <= 9,
    ensures
        marks_before(g.update(k, mark), n) == marks_before(g, n) + if k < n { 1int } else { 0int },
    decreases n,
{
    if n > 0 {
        lemma_marks_before_update(g, k, mark, n - 1);
    }
}

/// A board holds between none and nine marks, and nine exactly where no
/// cell is free.
pub proof fn lemma_marks_range(g: Seq<i16>)
    ensures
        0 <= marks(g) <= 9,
        0 <= free_cells(g) <= 9,
        free_cells(g) == 0 <==> forall|k: int| 0 <= k < 9 ==> g[k] != 0,
        free_cells(g) > 0 <==> has_free_cell(g),
{
    lemma_marks_before(g, 9);
    if free_cells(g) > 0 {
        let k = choose|k: int| 0 <= k < 9 && !(g[k] != 0);
        assert(is_free(g, k));
    }
}

/// A mark set on a free cell makes one mark more and one free cell less.
pub proof fn lemma_mark_taken(g: Seq<i16>, k: int, mark: i16)
    requires
        g.len() == 9,
        is_free(g, k),
        mark != 0,
    ensures
        marks(g.update(k, mark)) == marks(g) + 1,
        free_cells(g.update(k, mark)) == free_cells(g) - 1,
        0 <= free_cells(g.update(k, mark)),
{
    lemma_marks_before_update(g, k, mark, 9);
    lemma_marks_range(g.update(k, mark));
}

/// The three cells of line `l`: rows first, then columns, then the two
/// diagonals.
pub open spec fn line(l: int) -> (int, int, int) {
    if l == 0 {
        (0, 1, 2)
    } else if l == 1 {
        (3, 4, 5)
    } else if l == 2 {
        (6, 7, 8)
    } else if l == 3 {
        (0, 3, 6)
    } else if l == 4 {
        (1, 4, 7)
    } else if l == 5 {
        (2, 5, 8)
    } else if l == 6 {
        (0, 4, 8)
    } else {
        (2, 4, 6)
    }
}

/// Line `l` holds three times the mark `mark`.
pub open spec fn line_full_of(g: Seq<i16>, l: int, mark: i16) -> bool {
    g[line(l).0] == mark && g[line(l).1] == mark && g[line(l).2] == mark
}

/// The winner as seen from line `l` on: 1 where the first complete line is
/// of `X`, -1 where it is of `O`, 0 where no line is complete.
pub open spec fn winner_from(g: Seq<i16>, l: int) -> int
    decreases 8 - l,
{
    if l >= 8 {
        0
    } else if line_full_of(g, l, 1) {
        1
    } else if line_full_of(g, l, 2) {
        -1
    } else {
        winner_from(g, l + 1)
    }
}

/// The winner of a board: 1 for `X`, -1 for `O`, 0 for nobody.
pub open spec fn winner(g: Seq<i16>) -> int {
    winner_from(g, 0)
}

/// The board with `mark` in cell (`row`, `col`).
pub fn place(board: Board, row: usize, col: usize, mark: i16) -> (next: Board)
    requires
        row < 3,
        col < 3,
    ensures
        grid(next) == grid(board).update(3 * row + col, mark),
{
    let mut next = board;
    let mut line = board[row];
    line[col] = mark;
    next[row] = line;
    assert(grid(next) =~= grid(board).update(3 * row + col, mark));
    next
}

/// The cell that a move names: `3 * row + col`.
pub open spec fn cell_of(m: [usize; 2]) -> int {
    3 * m[0] + m[1]
}

/// A move names a cell of the board.
pub open spec fn on_board(m: [usize; 2]) -> bool {
    m[0] < 3 && m[1] < 3
}

/// Some line holds three times the mark `mark`.
pub open spec fn has_line(g: Seq<i16>, mark: i16) -> bool {
    exists|l: int| 0 <= l < 8 && line_full_of(g, l, mark)
}

/// What `winner` says in terms of complete lines: it names a side only where
/// that side has a complete line, and nobody exactly where no line is
/// complete. Where only one side has a complete line, it names that side.
pub proof fn lemma_winner_lines(g: Seq<i16>)
    ensures
        winner(g) == 1 || winner(g) == -1 || winner(g) == 0,
        winner(g) == 1 ==> has_line(g, 1),
        winner(g) == -1 ==> has_line(g, 2),
        winner(g) == 0 <==> !has_line(g, 1) && !has_line(g, 2),
        has_line(g, 1) && !has_line(g, 2) ==> winner(g) == 1,
        has_line(g, 2) && !has_line(g, 1) ==> winner(g) == -1,
{
    lemma_winner_from(g, 0);
}

proof fn lemma_winner_from(g: Seq<i16>, l: int)
    requires
        0 <= l <= 8,
    ensures
        winner_from(g, l) == 1 || winner_from(g, l) == -1 || winner_from(g, l) == 0,
        winner_from(g, l) == 1 ==> exists|m: int| l <= m < 8 && line_full_of(g, m, 1),
        winner_from(g, l) == -1 ==> exists|m: int| l <= m < 8 && line_full_of(g, m, 2),
        winner_from(g, l) == 0 ==> forall|m: int|
            l <= m < 8 ==> !line_full_of(g, m, 1) && !line_full_of(g, m, 2),
    decreases 8 - l,
{
    if l < 8 {
        lemma_winner_from(g, l + 1);
        if line_full_of(g, l, 1) {
        } else if line_full_of(g, l, 2) {
        } else {
            if winner_from(g, l) == 1 {
                let m = choose|m: int| l + 1 <= m < 8 && line_full_of(g, m, 1);
                assert(l <= m < 8 && line_full_of(g, m, 1));
            }
            if winner_from(g, l) == -1 {
                let m = choose|m: int| l + 1 <= m < 8 && line_full_of(g, m, 2);
                assert(l <= m < 8 && line_full_of(g, m, 2));
            }
        }
    }
}

/// The cells of line `l`, as numbers from 0 to 8.
fn line_cells(l: usize) -> (c: [usize; 3])
    requires
        l < 8,
    ensures
        c[0] == line(l as int).0,
        c[1] == line(l as int).1,
        c[2] == line(l as int).2,
        c[0] < 9 && c[1] < 9 && c[2] < 9,
{
    if l == 0 {
        [0, 1, 2]
    } else if l == 1 {
        [3, 4, 5]
    } else if l == 2 {
        [6, 7, 8]
    } else if l == 3 {
        [0, 3, 6]
    } else if l == 4 {
        [1, 4, 7]
    } else if l == 5 {
        [2, 5, 8]
    } else if l == 6 {
        [0, 4, 8]
    } else {
        [2, 4, 6]
    }
}

/// The winner of the board: 1 where the first complete line, rows before
/// columns before diagonals, is of `X`; -1 where it is of `O`; 0 where no
/// line is complete, be the board full or not.
pub fn check_winner(board: Board) -> (w: i16)
    ensures
        w == winner(grid(board)),
        w == 1 || w == -1 || w == 0,
        w == 1 ==> has_line(grid(board), 1),
        w == -1 ==> has_line(grid(board), 2),
        w == 0 <==> !has_line(grid(board), 1) && !has_line(grid(board), 2),
        has_line(grid(board), 1) && !has_line(grid(board), 2) ==> w == 1,
        has_line(grid(board), 2) && !has_line(grid(board), 1) ==> w == -1,
{
    let ghost g = grid(board);
    proof {
        lemma_winner_lines(g);
    }
    let mut l: usize = 0;
    while l < 8
        invariant
            l <= 8,
            g == grid(board),
            winner(g) == winner_from(g, l as int),
        decreases 8 - l,
    {
        let cells = line_cells(l);
        let mut x_count: usize = 0;
        let mut o_count: usize = 0;
        let mut n: usize = 0;
        while n < 3
            invariant
                n <= 3,
                g == grid(board),
                cells[0] < 9 && cells[1] < 9 && cells[2] < 9,
                x_count <= n,
                o_count <= n,
                x_count == n <==> forall|t: int| 0 <= t < n ==> g[cells[t] as int] == 1,
                o_count == n <==> forall|t: int| 0 <= t < n ==> g[cells[t] as int] == 2,
            decreases 3 - n,
        {
            let k = cells[n];
            let mark = board[k / 3][k % 3];
            assert(mark == g[k as int]);
            if mark == 1 {
                x_count += 1;
            } else if mark == 2 {
                o_count += 1;
            }
            n += 1;
        }
        assert(x_count == 3 <==> line_full_of(g, l as int, 1));
        assert(o_count == 3 <==> line_full_of(g, l as int, 2));
        if x_count == 3 {
            return 1;
        } else if o_count == 3 {
            return -1;
        }
        l += 1;
    }
    0
}

/// Whether no cell of the board is free.
pub fn is_full(board: Board) -> (full: bool)
    ensures
        full == (free_cells(grid(board)) == 0),
{
    count_marks(board) == 9
}

/// The number of cells of the board that hold a mark.
pub fn count_marks(board: Board) -> (n: usize)
    ensures
        n == marks(grid(board)),
        n <= 9,
{
    let ghost g = grid(board);
    let mut n: usize = 0;
    let mut k: usize = 0;
    while k < 9
        invariant
            k <= 9,
            n <= k,
            g == grid(board),
            n == marks_before(g, k as int),
        decreases 9 - k,
    {
        if board[k / 3][k % 3] != 0 {
            n += 1;
        }
        k += 1;
    }
    n
}

/// The free cells of the board as moves, row by row and from left to right
/// within a row.
pub fn get_allowed_moves(board: Board) -> (moves: Vec<[usize; 2]>)
    ensures
        moves@.len() == free_cells(grid(board)),
        forall|i: int| 0 <= i < moves@.len() ==> on_board(#[trigger] moves@[i]),
        forall|i: int| 0 <= i < moves@.len() ==> grid(board)[cell_of(#[trigger] moves@[i])] == 0,
        forall|i: int, j: int|
            0 <= i < j < moves@.len() ==> cell_of(#[trigger] moves@[i]) < cell_of(
                #[trigger] moves@[j],
            ),
        forall|k: int|
            0 <= k < 9 && grid(board)[k] == 0 ==> exists|i: int|
                0 <= i < moves@.len() && cell_of(#[trigger] moves@[i]) == k,
{
    let ghost g = grid(board);
    let mut allowed_moves: Vec<[usize; 2]> = Vec::new();
    let mut i: usize = 0;
    while i < 3
        invariant
            i <= 3,
            g == grid(board),
            allowed_moves@.len() == 3 * i - marks_before(g, 3 * i),
            forall|t: int| 0 <= t < allowed_moves@.len() ==> on_board(#[trigger] allowed_moves@[t]),
            forall|t: int|
                0 <= t < allowed_moves@.len() ==> g[cell_of(#[trigger] allowed_moves@[t])] == 0,
            forall|t: int|
                0 <= t < allowed_moves@.len() ==> cell_of(#[trigger] allowed_moves@[t]) < 3 * i,
            forall|t: int, u: int|
                0 <= t < u < allowed_moves@.len() ==> cell_of(#[trigger] allowed_moves@[t])
                    < cell_of(#[trigger] allowed_moves@[u]),
            forall|k: int|
                0 <= k < 3 * i && g[k] == 0 ==> exists|t: int|
                    0 <= t < allowed_moves@.len() && cell_of(#[trigger] allowed_moves@[t]) == k,
        decreases 3 - i,
    {
        let mut j: usize = 0;
        while j < 3
            invariant
                i < 3,
                j <= 3,
                g == grid(board),
                allowed_moves@.len() == 3 * i + j - marks_before(g, 3 * i + j),
                forall|t: int|
                    0 <= t < allowed_moves@.len() ==> on_board(#[trigger] allowed_moves@[t]),
                forall|t: int|
                    0 <= t < allowed_moves@.len() ==> g[cell_of(#[trigger] allowed_moves@[t])]
                        == 0,
                forall|t: int|
                    0 <= t < allowed_moves@.len() ==> cell_of(#[trigger] allowed_moves@[t]) < 3
                        * i + j,
                forall|t: int, u: int|
                    0 <= t < u < allowed_moves@.len() ==> cell_of(#[trigger] allowed_moves@[t])
                        < cell_of(#[trigger] allowed_moves@[u]),
                forall|k: int|
                    0 <= k < 3 * i + j && g[k] == 0 ==> exists|t: int|
                        0 <= t < allowed_moves@.len() && cell_of(#[trigger] allowed_moves@[t])
                            == k,
            decreases 3 - j,
        {
            let ghost before = allowed_moves@;
            assert(g[3 * i + j] == board[i as int][j as int]);
            if board[i][j] == 0 {
                allowed_moves.push([i, j]);
                assert(allowed_moves@[before.len() as int] == [i, j]);
                assert(cell_of(allowed_moves@[before.len() as int]) == 3 * i + j);
                assert forall|k: int| 0 <= k < 3 * i + j + 1 && g[k] == 0 implies exists|t: int|
                    0 <= t < allowed_moves@.len() && cell_of(#[trigger] allowed_moves@[t])
                        == k by {
                    if k < 3 * i + j {
                        let t = choose|t: int|
                            0 <= t < before.len() && cell_of(#[trigger] before[t]) == k;
                        assert(allowed_moves@[t] == before[t]);
                    } else {
                        assert(cell_of(allowed_moves@[before.len() as int]) == k);
                    }
                }
            }
            j += 1;
        }
        i += 1;
    }
    allowed_moves
}

} // verus!

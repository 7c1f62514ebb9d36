//! The search: the score of a position under best play of both sides, and
//! the choice of a move by it.

use rand::prelude::SliceRandom;
use vstd::prelude::*;
use crate::board::{
    cell_of, check_winner, count_marks, free_cells, get_allowed_moves, grid, has_free_cell, is_free,
    is_full, lemma_mark_taken, lemma_marks_range, lemma_winner_lines, marks, on_board, place,
    winner, Board,
};
use crate::text::{edge_text, lemma_with_text_twice, shown, with_text, write_board};

verus! {

/// The mark of the side that moves after `figure`: `O` after `X`, and `X`
/// after anything else.
pub open spec fn other_mark(figure: i16) -> i16 {
    if figure == 1 {
        2
    } else {
        1
    }
}

/// The score from which a search for the best reply starts: the least of all
/// where the greatest is sought, the greatest where the least is sought.
pub open spec fn sentinel(is_maximizing: bool) -> int {
    if is_maximizing {
        i16::MIN as int
    } else {
        i16::MAX as int
    }
}

/// The better of two scores: the greater where the greatest is sought, the
/// smaller where the least is sought.
pub open spec fn better(is_maximizing: bool, a: int, b: int) -> int {
    if is_maximizing {
        if b > a {
            b
        } else {
            a
        }
    } else {
        if b < a {
            b
        } else {
            a
        }
    }
}

/// The score of a position in which the side after `figure` is to move.
///
/// A position with a winner scores 100 for `X` and -100 for `O`; a full
/// board without winner scores 0. Any other position scores the best of its
/// replies: the greatest where `is_maximizing`, else the least.
pub open spec fn score(g: Seq<i16>, is_maximizing: bool, figure: i16) -> int
    decreases free_cells(g), 10int,
    when g.len() == 9
{
    if winner(g) != 0 {
        100 * winner(g)
    } else if free_cells(g) <= 0 {
        0
    } else {
        best_reply(g, is_maximizing, figure, 9)
    }
}

/// The score of the reply on cell `k`: the score of the position after it,
/// less the number of marks then on the board where the greatest is sought,
/// plus that number where the least is sought.
pub open spec fn reply_score(g: Seq<i16>, is_maximizing: bool, figure: i16, k: int) -> int
    decreases free_cells(g), 0int,
    when g.len() == 9
{
    if is_free(g, k) {
        let next = g.update(k, other_mark(figure));
        proof {
            lemma_mark_taken(g, k, other_mark(figure));
        }
        if is_maximizing {
            score(next, false, other_mark(figure)) - marks(next)
        } else {
            score(next, true, other_mark(figure)) + marks(next)
        }
    } else {
        0
    }
}

/// The best score among the replies on the free cells before cell `n`, and
/// the sentinel where none of them is free.
pub open spec fn best_reply(g: Seq<i16>, is_maximizing: bool, figure: i16, n: int) -> int
    decreases free_cells(g), n,
    when g.len() == 9 && n <= 9
{
    if n <= 0 {
        sentinel(is_maximizing)
    } else if is_free(g, n - 1) {
        better(
            is_maximizing,
            best_reply(g, is_maximizing, figure, n - 1),
            reply_score(g, is_maximizing, figure, n - 1),
        )
    } else {
        best_reply(g, is_maximizing, figure, n - 1)
    }
}

/// What a search writes to its record: nothing for a position that is
/// decided or full, else what the replies write.
pub open spec fn search_text(g: Seq<i16>, depth: int, is_maximizing: bool, figure: i16) -> Seq<
    char,
>
    decreases free_cells(g), 10int,
    when g.len() == 9
{
    if winner(g) != 0 || free_cells(g) <= 0 {
        Seq::<char>::empty()
    } else {
        replies_text(g, depth, is_maximizing, figure, 9)
    }
}

/// What the replies on the free cells before cell `n` write, in the order of
/// the cells: for each what the search below it writes, and then, where
/// `depth` is under 1, the edge to it with its score.
pub open spec fn replies_text(
    g: Seq<i16>,
    depth: int,
    is_maximizing: bool,
    figure: i16,
    n: int,
) -> Seq<char>
    decreases free_cells(g), n,
    when g.len() == 9 && n <= 9
{
    if n <= 0 {
        Seq::<char>::empty()
    } else if is_free(g, n - 1) {
        let next = g.update(n - 1, other_mark(figure));
        proof {
            lemma_mark_taken(g, n - 1, other_mark(figure));
        }
        replies_text(g, depth, is_maximizing, figure, n - 1) + search_text(
            next,
            depth + 1,
            !is_maximizing,
            other_mark(figure),
        ) + if depth < 1 {
            edge_text(g, next, reply_score(g, is_maximizing, figure, n - 1))
        } else {
            Seq::<char>::empty()
        }
    } else {
        replies_text(g, depth, is_maximizing, figure, n - 1)
    }
}

/// A search at a depth of 1 or more writes nothing: only the replies of the
/// first ply reach the record.
pub proof fn law_deep_search_writes_nothing(
    g: Seq<i16>,
    depth: int,
    is_maximizing: bool,
    figure: i16,
)
    requires
        g.len() == 9,
        depth >= 1,
    ensures
        search_text(g, depth, is_maximizing, figure) == Seq::<char>::empty(),
    decreases free_cells(g), 10int,
{
    if winner(g) == 0 && free_cells(g) > 0 {
        lemma_replies_text_deep(g, depth, is_maximizing, figure, 9);
    }
}

proof fn lemma_replies_text_deep(
    g: Seq<i16>,
    depth: int,
    is_maximizing: bool,
    figure: i16,
    n: int,
)
    requires
        g.len() == 9,
        depth >= 1,
        0 <= n <= 9,
    ensures
        replies_text(g, depth, is_maximizing, figure, n) == Seq::<char>::empty(),
    decreases free_cells(g), n,
{
    if n > 0 {
        lemma_replies_text_deep(g, depth, is_maximizing, figure, n - 1);
        if is_free(g, n - 1) {
            let next = g.update(n - 1, other_mark(figure));
            lemma_mark_taken(g, n - 1, other_mark(figure));
            law_deep_search_writes_nothing(next, depth + 1, !is_maximizing, other_mark(figure));
            assert(Seq::<char>::empty() + Seq::<char>::empty() + Seq::<char>::empty()
                =~= Seq::<char>::empty());
        }
    }
}

/// The best score among the replies before cell `n` is the sentinel or the
/// score of one of them, and none of them is better than it.
pub proof fn lemma_best_reply(g: Seq<i16>, is_maximizing: bool, figure: i16, n: int)
    requires
        g.len() == 9,
        0 <= n <= 9,
    ensures
        best_reply(g, is_maximizing, figure, n) == sentinel(is_maximizing) || exists|k: int|
            0 <= k < n && is_free(g, k) && best_reply(g, is_maximizing, figure, n)
                == #[trigger] reply_score(g, is_maximizing, figure, k),
        forall|k: int|
            0 <= k < n && is_free(g, k) ==> better(
                is_maximizing,
                #[trigger] reply_score(g, is_maximizing, figure, k),
                best_reply(g, is_maximizing, figure, n),
            ) == best_reply(g, is_maximizing, figure, n),
    decreases n,
{
    if n > 0 {
        lemma_best_reply(g, is_maximizing, figure, n - 1);
        let before = best_reply(g, is_maximizing, figure, n - 1);
        if is_free(g, n - 1) {
            let last = reply_score(g, is_maximizing, figure, n - 1);
            if before != sentinel(is_maximizing) && best_reply(g, is_maximizing, figure, n)
                == before {
                let k = choose|k: int|
                    0 <= k < n - 1 && is_free(g, k) && before == #[trigger] reply_score(
                        g,
                        is_maximizing,
                        figure,
                        k,
                    );
                assert(0 <= k < n && is_free(g, k) && best_reply(g, is_maximizing, figure, n)
                    == reply_score(g, is_maximizing, figure, k));
            }
        } else {
            if before != sentinel(is_maximizing) {
                let k = choose|k: int|
                    0 <= k < n - 1 && is_free(g, k) && before == #[trigger] reply_score(
                        g,
                        is_maximizing,
                        figure,
                        k,
                    );
                assert(0 <= k < n && is_free(g, k) && best_reply(g, is_maximizing, figure, n)
                    == reply_score(g, is_maximizing, figure, k));
            }
        }
    }
}

/// A score lies within 100 and nine for each free cell of zero, on either
/// side.
pub proof fn lemma_score_range(g: Seq<i16>, is_maximizing: bool, figure: i16)
    requires
        g.len() == 9,
    ensures
        -100 - 9 * free_cells(g) <= score(g, is_maximizing, figure) <= 100 + 9 * free_cells(g),
        -181 <= score(g, is_maximizing, figure) <= 181,
    decreases free_cells(g), 1int,
{
    lemma_marks_range(g);
    lemma_winner_lines(g);
    if winner(g) == 0 && free_cells(g) > 0 {
        lemma_best_reply(g, is_maximizing, figure, 9);
        let k = choose|k: int| is_free(g, k);
        lemma_reply_range(g, is_maximizing, figure, k);
        assert forall|j: int| is_free(g, j) implies -100 - 9 * free_cells(g)
            <= #[trigger] reply_score(g, is_maximizing, figure, j) <= 100 + 9 * free_cells(g) by {
            lemma_reply_range(g, is_maximizing, figure, j);
        }
    }
}

/// The score of a reply lies within the range of its position's score.
pub proof fn lemma_reply_range(g: Seq<i16>, is_maximizing: bool, figure: i16, k: int)
    requires
        g.len() == 9,
        is_free(g, k),
    ensures
        -100 - 9 * free_cells(g) <= reply_score(g, is_maximizing, figure, k) <= 100 + 9
            * free_cells(g),
        -181 <= reply_score(g, is_maximizing, figure, k) <= 181,
    decreases free_cells(g), 0int,
{
    let next = g.update(k, other_mark(figure));
    lemma_mark_taken(g, k, other_mark(figure));
    lemma_marks_range(next);
    lemma_marks_range(g);
    lemma_score_range(next, !is_maximizing, other_mark(figure));
}

/// The score of the position under best play of both sides, where the side
/// after `figure` is to move; the replies at a `depth` under 1 go to the
/// record, where there is one.
///
/// The depth grows by one with each ply, so it must leave room for the plies
/// that can follow: one for each free cell, nine at most.
pub fn minimax(
    file: &mut Option<String>,
    given_board: Board,
    depth: i32,
    is_maximizing: bool,
    figure: i16,
) -> (best: i16)
    requires
        depth <= i32::MAX - 9 || depth + free_cells(grid(given_board)) <= i32::MAX,
    ensures
        best == score(grid(given_board), is_maximizing, figure),
        winner(grid(given_board)) != 0 ==> best == 100 * winner(grid(given_board)),
        winner(grid(given_board)) == 0 && free_cells(grid(given_board)) == 0 ==> best == 0,
        shown(*final(file)) == with_text(
            shown(*old(file)),
            search_text(grid(given_board), depth as int, is_maximizing, figure),
        ),
    decreases free_cells(grid(given_board)),
{
    let ghost g = grid(given_board);
    let ghost start = shown(*file);
    proof {
        lemma_marks_range(g);
        lemma_with_text_twice(start, Seq::<char>::empty(), Seq::<char>::empty());
    }
    let winner = check_winner(given_board);
    if winner != 0 {
        return winner * 100;
    }
    if is_full(given_board) {
        return 0;
    }
    let reverse_figure: i16 = if figure == 1 {
        2
    } else {
        1
    };
    let mut best_score: i16 = if is_maximizing {
        i16::MIN
    } else {
        i16::MAX
    };
    let mut k: usize = 0;
    while k < 9
        invariant
            k <= 9,
            g == grid(given_board),
            g.len() == 9,
            start == shown(*old(file)),
            reverse_figure == other_mark(figure),
            depth + free_cells(g) <= i32::MAX,
            free_cells(g) > 0,
            best_score == best_reply(g, is_maximizing, figure, k as int),
            shown(*file) == with_text(
                start,
                replies_text(g, depth as int, is_maximizing, figure, k as int),
            ),
        decreases 9 - k,
    {
        assert(g[k as int] == given_board[(k / 3) as int][(k % 3) as int]);
        if given_board[k / 3][k % 3] == 0 {
            let new_board = place(given_board, k / 3, k % 3, reverse_figure);
            let ghost next = g.update(k as int, reverse_figure);
            proof {
                assert(grid(new_board) == next);
                lemma_mark_taken(g, k as int, reverse_figure);
                lemma_score_range(next, !is_maximizing, reverse_figure);
            }
            let num_of_pieces: usize = count_marks(new_board);
            let below: i16 = minimax(file, new_board, depth + 1, !is_maximizing, reverse_figure);
            let score: i16 = if is_maximizing {
                below - num_of_pieces as i16
            } else {
                below + num_of_pieces as i16
            };
            assert(score == reply_score(g, is_maximizing, figure, k as int));
            if is_maximizing {
                if score > best_score {
                    best_score = score;
                }
            } else {
                if score < best_score {
                    best_score = score;
                }
            }
            if depth < 1 {
                if let Some(f) = file {
                    write_board(f, given_board, new_board, score);
                }
            }
            proof {
                let done = replies_text(g, depth as int, is_maximizing, figure, k as int);
                let inner = search_text(next, depth + 1, !is_maximizing, reverse_figure);
                let edge = if depth < 1 {
                    edge_text(g, next, score as int)
                } else {
                    Seq::<char>::empty()
                };
                lemma_with_text_twice(start, done, inner);
                lemma_with_text_twice(start, done + inner, edge);
            }
        }
        k += 1;
    }
    best_score
}

/// A move that was chosen, with the score it was chosen by.
#[derive(Clone, Copy, Debug, PartialEq, Eq)]
pub struct SearchResult {
    pub best_move: [usize; 2],
    pub best_score: i16,
}

/// The score of the move of `figure` to cell `k`: that of the position after
/// it, in which `X` seeks the greatest score and `O` the least.
pub open spec fn move_score(g: Seq<i16>, figure: i16, k: int) -> int {
    score(g.update(k, figure), figure == 2, figure)
}

/// Score `a` is better than score `b` for the side `figure`: greater for
/// `X`, smaller for any other.
pub open spec fn beats(figure: i16, a: int, b: int) -> bool {
    if figure == 1 {
        a > b
    } else {
        a < b
    }
}

/// The score that any move of `figure` beats.
pub open spec fn worst_score(figure: i16) -> int {
    if figure == 1 {
        i16::MIN as int
    } else {
        i16::MAX as int
    }
}

/// Cell `k` is the choice of `figure`: it is free, no free cell has a better
/// score, and every free cell before it has a worse one.
pub open spec fn is_choice(g: Seq<i16>, figure: i16, k: int) -> bool {
    &&& is_free(g, k)
    &&& forall|j: int|
        is_free(g, j) ==> !beats(
            figure,
            #[trigger] move_score(g, figure, j),
            move_score(g, figure, k),
        )
    &&& forall|j: int|
        is_free(g, j) && j < k ==> beats(
            figure,
            move_score(g, figure, k),
            #[trigger] move_score(g, figure, j),
        )
}

/// What the choice of a move writes to its record for the free cells before
/// cell `n`, in the order of the cells: for each what the search below it
/// writes, and then the edge to it with its score.
pub open spec fn moves_text(g: Seq<i16>, figure: i16, n: int) -> Seq<char>
    decreases n,
{
    if n <= 0 {
        Seq::<char>::empty()
    } else if is_free(g, n - 1) {
        moves_text(g, figure, n - 1) + search_text(g.update(n - 1, figure), 0, figure == 2, figure)
            + edge_text(g, g.update(n - 1, figure), move_score(g, figure, n - 1))
    } else {
        moves_text(g, figure, n - 1)
    }
}

/// Cells that are not free write nothing.
proof fn lemma_moves_text_skip(g: Seq<i16>, figure: i16, a: int, b: int)
    requires
        0 <= a <= b <= 9,
        forall|k: int| a <= k < b ==> !is_free(g, k),
    ensures
        moves_text(g, figure, b) == moves_text(g, figure, a),
    decreases b - a,
{
    if a < b {
        lemma_moves_text_skip(g, figure, a, b - 1);
    }
}

/// A position has at most one choice.
pub proof fn lemma_choice_unique(g: Seq<i16>, figure: i16, k1: int, k2: int)
    requires
        is_choice(g, figure, k1),
        is_choice(g, figure, k2),
    ensures
        k1 == k2,
{
    if k1 < k2 {
        assert(beats(figure, move_score(g, figure, k2), move_score(g, figure, k1)));
    } else if k2 < k1 {
        assert(beats(figure, move_score(g, figure, k1), move_score(g, figure, k2)));
    }
}

/// `SliceRandom::choose` of the crate rand on the list of moves, with the
/// generator that `rand::thread_rng` gives: no move where the list is empty,
/// else the move at an index that the generator draws below the length of
/// the list. Which one is left open. The generator of a thread is seeded by
/// the operating system when the thread first asks for it.
#[verifier::external_body]
fn random_move(moves: &Vec<[usize; 2]>) -> (picked: Option<[usize; 2]>)
    ensures
        moves@.len() == 0 ==> picked is None,
        moves@.len() > 0 ==> picked is Some && moves@.contains(picked.unwrap()),
{
    moves.choose(&mut rand::thread_rng()).copied()
}

/// The cell up to which the moves before index `idx` cover the board.
spec fn covered(moves: Seq<[usize; 2]>, idx: int) -> int {
    if idx < moves.len() {
        cell_of(moves[idx])
    } else {
        9
    }
}

/// The move of `figure` on the board in turn `turn_number`.
///
/// In turn 0 it is the first cell, whatever the board holds, and nothing is
/// searched. In any other turn it is the choice among the free cells by their
/// scores: the first of those that no other beats. Where no move comes out of
/// the search, one of the free cells is taken at random; this happens only
/// where no cell is free, and then there is no move. The searches and the
/// edge to each move go to the record, where there is one.
pub fn choose_move(file: &mut Option<String>, board: Board, figure: i16, turn_number: u8) -> (found:
    Option<SearchResult>)
    ensures
        turn_number == 0 ==> shown(*final(file)) == shown(*old(file)),
        turn_number == 0 ==> (found matches Some(result) && cell_of(result.best_move) == 0
            && on_board(result.best_move) && result.best_score == worst_score(figure)),
        turn_number != 0 ==> shown(*final(file)) == with_text(
            shown(*old(file)),
            moves_text(grid(board), figure, 9),
        ),
        turn_number != 0 && !has_free_cell(grid(board)) ==> found is None,
        turn_number != 0 && has_free_cell(grid(board)) ==> (found matches Some(result) && on_board(
            result.best_move,
        ) && is_choice(grid(board), figure, cell_of(result.best_move)) && result.best_score
            == move_score(grid(board), figure, cell_of(result.best_move))),
{
    let ghost g = grid(board);
    let ghost start = shown(*file);
    proof {
        lemma_marks_range(g);
    }
    let allowed_moves: Vec<[usize; 2]> = get_allowed_moves(board);
    let mut best_score: i16 = if figure == 1 {
        i16::MIN
    } else {
        i16::MAX
    };
    let mut best_move: Option<[usize; 2]> = None;
    let ghost mut at: int = 0;
    if turn_number == 0 {
        best_move = Some([0, 0]);
    } else {
        proof {
            lemma_marks_range(g);
            lemma_with_text_twice(start, Seq::<char>::empty(), Seq::<char>::empty());
            lemma_moves_text_skip(g, figure, 0, covered(allowed_moves@, 0));
        }
        let mut idx: usize = 0;
        while idx < allowed_moves.len()
            invariant
                idx <= allowed_moves@.len(),
                g == grid(board),
                g.len() == 9,
                start == shown(*old(file)),
                allowed_moves@.len() == free_cells(g),
                forall|i: int|
                    0 <= i < allowed_moves@.len() ==> on_board(#[trigger] allowed_moves@[i]),
                forall|i: int|
                    0 <= i < allowed_moves@.len() ==> g[cell_of(#[trigger] allowed_moves@[i])]
                        == 0,
                forall|i: int, j: int|
                    0 <= i < j < allowed_moves@.len() ==> cell_of(#[trigger] allowed_moves@[i])
                        < cell_of(#[trigger] allowed_moves@[j]),
                forall|k: int|
                    0 <= k < 9 && g[k] == 0 ==> exists|i: int|
                        0 <= i < allowed_moves@.len() && cell_of(#[trigger] allowed_moves@[i])
                            == k,
                shown(*file) == with_text(
                    start,
                    moves_text(g, figure, covered(allowed_moves@, idx as int)),
                ),
                idx == 0 ==> best_move is None && best_score == worst_score(figure),
                idx > 0 ==> 0 <= at < idx && best_move == Some(allowed_moves@[at]) && best_score
                    == move_score(g, figure, cell_of(allowed_moves@[at])),
                forall|i: int|
                    0 <= i < idx ==> !beats(
                        figure,
                        move_score(g, figure, cell_of(#[trigger] allowed_moves@[i])),
                        best_score as int,
                    ),
                forall|i: int|
                    0 <= i < at ==> beats(
                        figure,
                        best_score as int,
                        move_score(g, figure, cell_of(#[trigger] allowed_moves@[i])),
                    ),
            decreases allowed_moves@.len() - idx,
        {
            let move_ = allowed_moves[idx];
            let ghost cell = cell_of(move_);
            let new_board = place(board, move_[0], move_[1], figure);
            proof {
                lemma_marks_range(grid(new_board));
                lemma_score_range(grid(new_board), figure == 2, figure);
            }
            let score: i16 = minimax(file, new_board, 0, figure == 2, figure);
            if let Some(f) = file {
                write_board(f, board, new_board, score);
            }
            proof {
                let done = moves_text(g, figure, cell);
                let inner = search_text(g.update(cell, figure), 0, figure == 2, figure);
                let edge = edge_text(g, g.update(cell, figure), score as int);
                lemma_with_text_twice(start, done, inner);
                lemma_with_text_twice(start, done + inner, edge);
                let upto = covered(allowed_moves@, idx + 1);
                assert forall|k: int| cell + 1 <= k < upto implies !is_free(g, k) by {
                    if is_free(g, k) {
                        let i = choose|i: int|
                            0 <= i < allowed_moves@.len() && cell_of(#[trigger] allowed_moves@[i])
                                == k;
                        if i <= idx {
                            assert(cell_of(allowed_moves@[i]) <= cell_of(
                                allowed_moves@[idx as int],
                            ));
                        } else if i > idx + 1 {
                            assert(cell_of(allowed_moves@[idx + 1]) < cell_of(allowed_moves@[i]));
                        }
                    }
                }
                lemma_moves_text_skip(g, figure, cell + 1, upto);
            }
            if figure == 1 {
                if score > best_score {
                    best_score = score;
                    best_move = Some(move_);
                    proof {
                        at = idx as int;
                    }
                }
            } else {
                if score < best_score {
                    best_score = score;
                    best_move = Some(move_);
                    proof {
                        at = idx as int;
                    }
                }
            }
            idx += 1;
        }
    }
    if best_move.is_none() {
        best_move = random_move(&allowed_moves);
    }
    match best_move {
        Some(m) => {
            proof {
                if turn_number != 0 {
                    let k = cell_of(m);
                    assert forall|j: int| is_free(g, j) implies !beats(
                        figure,
                        #[trigger] move_score(g, figure, j),
                        move_score(g, figure, k),
                    ) by {
                        let i = choose|i: int|
                            0 <= i < allowed_moves@.len() && cell_of(#[trigger] allowed_moves@[i])
                                == j;
                    }
                    assert forall|j: int| is_free(g, j) && j < k implies beats(
                        figure,
                        move_score(g, figure, k),
                        #[trigger] move_score(g, figure, j),
                    ) by {
                        let i = choose|i: int|
                            0 <= i < allowed_moves@.len() && cell_of(#[trigger] allowed_moves@[i])
                                == j;
                        if i >= at {
                            if i > at {
                                assert(cell_of(allowed_moves@[at]) < cell_of(allowed_moves@[i]));
                            }
                        }
                    }
                }
            }
            Some(SearchResult { best_move: m, best_score })
        },
        None => None,
    }
}

} // verus!

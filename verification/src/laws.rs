//! What holds of the choice of a move: it hands the other side no win at
//! once where that can be helped, and it turns with the board.

use vstd::prelude::*;
use crate::board::{
    free_cells, has_line, is_free, lemma_mark_taken, lemma_marks_range, lemma_winner_lines,
    line_full_of, marks, marks_before, winner,
};
use crate::search::{
    beats, best_reply, better, is_choice, lemma_best_reply, lemma_reply_range, move_score,
    other_mark, reply_score, score, sentinel,
};

verus! {

/// What the winner is called where the side with `mark` has won.
pub open spec fn win_of(mark: i16) -> int {
    if mark == 1 {
        1
    } else {
        -1
    }
}

/// The side with `mark` can complete a line with its next mark.
pub open spec fn can_win_now(g: Seq<i16>, mark: i16) -> bool {
    exists|k: int| is_free(g, k) && #[trigger] winner(g.update(k, mark)) == win_of(mark)
}

/// The move of `figure` to cell `k` leaves the game open and lets the other
/// side complete a line with its next mark.
pub open spec fn gives_away(g: Seq<i16>, figure: i16, k: int) -> bool {
    winner(g.update(k, figure)) == 0 && can_win_now(g.update(k, figure), other_mark(figure))
}

/// A mark set on a free cell completes no line of another mark, and leaves
/// complete what was complete.
pub proof fn lemma_lines_after_mark(g: Seq<i16>, k: int, mark: i16, of: i16)
    requires
        g.len() == 9,
        is_free(g, k),
        of != 0,
    ensures
        has_line(g, of) ==> has_line(g.update(k, mark), of),
        of != mark && has_line(g.update(k, mark), of) ==> has_line(g, of),
{
    let next = g.update(k, mark);
    if has_line(g, of) {
        let l = choose|l: int| 0 <= l < 8 && line_full_of(g, l, of);
        assert(line_full_of(next, l, of));
    }
    if of != mark && has_line(next, of) {
        let l = choose|l: int| 0 <= l < 8 && line_full_of(next, l, of);
        assert(line_full_of(g, l, of));
    }
}

/// On a board without a complete line, a mark of `X` or `O` makes its own
/// side the winner or nobody.
pub proof fn lemma_winner_after_mark(g: Seq<i16>, k: int, mark: i16)
    requires
        g.len() == 9,
        is_free(g, k),
        winner(g) == 0,
        mark == 1 || mark == 2,
    ensures
        winner(g.update(k, mark)) == 0 || winner(g.update(k, mark)) == win_of(mark),
{
    lemma_winner_lines(g);
    lemma_winner_lines(g.update(k, mark));
    lemma_lines_after_mark(g, k, mark, 1);
    lemma_lines_after_mark(g, k, mark, 2);
}

/// How far the score of an open position can go, by the number `p` of marks
/// on it.
///
/// Where `X` moves and seeks the greatest score, the score is `100 - (p + 1)`
/// if `X` can complete a line at once, and else at most `99 - (p + 1)`; it is
/// never under -99. Where `O` moves and seeks the least score, the score is
/// `-100 + (p + 1)` if `O` can complete a line at once, and else at least
/// `-99 + (p + 1)`; it is never over 99.
pub proof fn lemma_score_of_open_position(g: Seq<i16>)
    requires
        g.len() == 9,
        winner(g) == 0,
        free_cells(g) > 0,
    ensures
        -99 <= score(g, true, 2) <= 100 - (marks(g) + 1),
        can_win_now(g, 1) ==> score(g, true, 2) == 100 - (marks(g) + 1),
        !can_win_now(g, 1) ==> score(g, true, 2) <= 99 - (marks(g) + 1),
        -100 + (marks(g) + 1) <= score(g, false, 1) <= 99,
        can_win_now(g, 2) ==> score(g, false, 1) == -100 + (marks(g) + 1),
        !can_win_now(g, 2) ==> score(g, false, 1) >= -99 + (marks(g) + 1),
    decreases free_cells(g), 1int,
{
    lemma_marks_range(g);
    let p = marks(g);
    let some = choose|k: int| is_free(g, k);
    // where X moves
    lemma_best_reply(g, true, 2, 9);
    assert forall|k: int| is_free(g, k) implies -99 <= #[trigger] reply_score(g, true, 2, k) <= 100
        - (p + 1) by {
        lemma_reply_of_open_position(g, k);
    }
    assert forall|k: int|
        is_free(g, k) && winner(g.update(k, 1)) != 1 implies #[trigger] reply_score(g, true, 2, k)
        <= 99 - (p + 1) by {
        lemma_reply_of_open_position(g, k);
    }
    lemma_reply_of_open_position(g, some);
    let top = best_reply(g, true, 2, 9);
    assert(better(true, reply_score(g, true, 2, some), top) == top);
    if can_win_now(g, 1) {
        let k = choose|k: int| is_free(g, k) && #[trigger] winner(g.update(k, 1)) == win_of(1);
        lemma_reply_of_open_position(g, k);
        assert(better(true, reply_score(g, true, 2, k), top) == top);
    }
    if !can_win_now(g, 1) {
        assert(top != sentinel(true));
        let k = choose|k: int|
            0 <= k < 9 && is_free(g, k) && top == #[trigger] reply_score(g, true, 2, k);
        assert(winner(g.update(k, 1)) != win_of(1));
    }
    // where O moves
    lemma_best_reply(g, false, 1, 9);
    assert forall|k: int| is_free(g, k) implies -100 + (p + 1) <= #[trigger] reply_score(
        g,
        false,
        1,
        k,
    ) <= 99 by {
        lemma_reply_of_open_position(g, k);
    }
    assert forall|k: int|
        is_free(g, k) && winner(g.update(k, 2)) != -1 implies #[trigger] reply_score(g, false, 1, k)
        >= -99 + (p + 1) by {
        lemma_reply_of_open_position(g, k);
    }
    let low = best_reply(g, false, 1, 9);
    assert(better(false, reply_score(g, false, 1, some), low) == low);
    if can_win_now(g, 2) {
        let k = choose|k: int| is_free(g, k) && #[trigger] winner(g.update(k, 2)) == win_of(2);
        lemma_reply_of_open_position(g, k);
        assert(better(false, reply_score(g, false, 1, k), low) == low);
    }
    if !can_win_now(g, 2) {
        assert(low != sentinel(false));
        let k = choose|k: int|
            0 <= k < 9 && is_free(g, k) && low == #[trigger] reply_score(g, false, 1, k);
        assert(winner(g.update(k, 2)) != win_of(2));
    }
}

/// How far the score of a reply on an open position can go.
proof fn lemma_reply_of_open_position(g: Seq<i16>, k: int)
    requires
        g.len() == 9,
        winner(g) == 0,
        is_free(g, k),
    ensures
        -99 <= reply_score(g, true, 2, k) <= 100 - (marks(g) + 1),
        winner(g.update(k, 1)) != 1 ==> reply_score(g, true, 2, k) <= 99 - (marks(g) + 1),
        winner(g.update(k, 1)) == 1 ==> reply_score(g, true, 2, k) == 100 - (marks(g) + 1),
        -100 + (marks(g) + 1) <= reply_score(g, false, 1, k) <= 99,
        winner(g.update(k, 2)) != -1 ==> reply_score(g, false, 1, k) >= -99 + (marks(g) + 1),
        winner(g.update(k, 2)) == -1 ==> reply_score(g, false, 1, k) == -100 + (marks(g) + 1),
    decreases free_cells(g), 0int,
{
    lemma_marks_range(g);
    let as_x = g.update(k, 1);
    lemma_mark_taken(g, k, 1);
    lemma_marks_range(as_x);
    lemma_winner_after_mark(g, k, 1);
    if winner(as_x) == 0 && free_cells(as_x) > 0 {
        lemma_score_of_open_position(as_x);
    }
    let as_o = g.update(k, 2);
    lemma_mark_taken(g, k, 2);
    lemma_marks_range(as_o);
    lemma_winner_after_mark(g, k, 2);
    if winner(as_o) == 0 && free_cells(as_o) > 0 {
        lemma_score_of_open_position(as_o);
    }
}

/// The score of a move that lets the other side complete a line at once, on
/// a board that held `p` marks before it.
pub open spec fn given_away_score(figure: i16, p: int) -> int {
    if figure == 1 {
        -100 + (p + 2)
    } else {
        100 - (p + 2)
    }
}

/// A move of `X` or `O` on a board without a complete line that lets the
/// other side complete a line at once has the score of such a move, and any
/// other move has a better one.
pub proof fn lemma_move_score(g: Seq<i16>, figure: i16, k: int)
    requires
        g.len() == 9,
        winner(g) == 0,
        is_free(g, k),
        figure == 1 || figure == 2,
    ensures
        gives_away(g, figure, k) ==> move_score(g, figure, k) == given_away_score(
            figure,
            marks(g),
        ),
        !gives_away(g, figure, k) ==> beats(
            figure,
            move_score(g, figure, k),
            given_away_score(figure, marks(g)),
        ),
{
    let next = g.update(k, figure);
    lemma_marks_range(g);
    lemma_mark_taken(g, k, figure);
    lemma_marks_range(next);
    lemma_winner_after_mark(g, k, figure);
    assert(move_score(g, figure, k) == score(next, figure == 2, figure));
    if winner(next) != 0 {
        assert(score(next, figure == 2, figure) == 100 * win_of(figure));
    } else if free_cells(next) > 0 {
        lemma_score_of_open_position(next);
    } else {
        assert(score(next, figure == 2, figure) == 0);
        if can_win_now(next, other_mark(figure)) {
            let r = choose|r: int|
                is_free(next, r) && #[trigger] winner(next.update(r, other_mark(figure))) == win_of(
                    other_mark(figure),
                );
            assert(false);
        }
    }
}

/// The choice of `X` or `O` hands the other side no win at once, if any move
/// does not: where some move leaves the other side no line to complete with
/// its next mark, so does the move that is chosen.
pub proof fn law_choice_gives_nothing_away(g: Seq<i16>, figure: i16, chosen: int, other: int)
    requires
        g.len() == 9,
        figure == 1 || figure == 2,
        is_choice(g, figure, chosen),
        is_free(g, other),
        !gives_away(g, figure, other),
    ensures
        !gives_away(g, figure, chosen),
{
    if winner(g) == 0 {
        lemma_move_score(g, figure, chosen);
        lemma_move_score(g, figure, other);
        if gives_away(g, figure, chosen) {
            assert(beats(
                figure,
                move_score(g, figure, other),
                move_score(g, figure, chosen),
            ));
            assert(false);
        }
    } else {
        lemma_winner_lines(g);
        lemma_winner_lines(g.update(chosen, figure));
        lemma_lines_after_mark(g, chosen, figure, 1);
        lemma_lines_after_mark(g, chosen, figure, 2);
    }
}

/// The mark of the side that moves: `X` if `x_moves`, else `O`.
pub open spec fn mover(x_moves: bool) -> i16 {
    if x_moves {
        1
    } else {
        2
    }
}

/// The outcome of a position under best play of both sides, where `X` moves
/// if `x_moves` and else `O`: 1 where `X` wins, -1 where `O` wins, 0 where
/// nobody does.
pub open spec fn outcome(g: Seq<i16>, x_moves: bool) -> int
    decreases free_cells(g), 10int,
    when g.len() == 9
{
    if winner(g) != 0 {
        winner(g)
    } else if free_cells(g) <= 0 {
        0
    } else {
        best_outcome(g, x_moves, 9)
    }
}

/// The best outcome among the moves to the free cells before cell `n`: the
/// greatest for `X`, the least for `O`; an outcome that no game has where
/// none of these cells is free.
pub open spec fn best_outcome(g: Seq<i16>, x_moves: bool, n: int) -> int
    decreases free_cells(g), n,
    when g.len() == 9 && n <= 9
{
    if n <= 0 {
        if x_moves {
            -2
        } else {
            2
        }
    } else if is_free(g, n - 1) {
        proof {
            lemma_mark_taken(g, n - 1, mover(x_moves));
        }
        better(
            x_moves,
            best_outcome(g, x_moves, n - 1),
            outcome(g.update(n - 1, mover(x_moves)), !x_moves),
        )
    } else {
        best_outcome(g, x_moves, n - 1)
    }
}

/// The outcome of the move of `figure` to cell `k` for its own side: 1 for a
/// win, 0 for a draw, -1 for a loss, under best play of both sides from then
/// on.
pub open spec fn result_of_move(g: Seq<i16>, figure: i16, k: int) -> int {
    if figure == 1 {
        outcome(g.update(k, figure), false)
    } else {
        -outcome(g.update(k, figure), true)
    }
}

/// The outcome of the move to cell `k`, where `X` moves if `x_moves` and
/// else `O`, under best play of both sides from then on.
pub open spec fn move_outcome(g: Seq<i16>, x_moves: bool, k: int) -> int {
    outcome(g.update(k, mover(x_moves)), !x_moves)
}

/// How far under a hundred times its outcome the score of an open position
/// with `p` marks can lie.
pub open spec fn slack_below(x_moves: bool, p: int) -> int {
    if x_moves {
        -5 - p / 2
    } else {
        -4 + p / 2
    }
}

/// How far over a hundred times its outcome the score of an open position
/// with `p` marks can lie.
pub open spec fn slack_above(x_moves: bool, p: int) -> int {
    if x_moves {
        4 - p / 2
    } else {
        5 + p / 2
    }
}

/// An outcome is 1, 0 or -1.
pub proof fn lemma_outcome_range(g: Seq<i16>, x_moves: bool)
    requires
        g.len() == 9,
    ensures
        -1 <= outcome(g, x_moves) <= 1,
    decreases free_cells(g), 10int,
{
    lemma_winner_lines(g);
    lemma_marks_range(g);
    if winner(g) == 0 && free_cells(g) > 0 {
        lemma_best_outcome(g, x_moves, 9);
        let some = choose|k: int| is_free(g, k);
        lemma_mark_taken(g, some, mover(x_moves));
        lemma_outcome_range(g.update(some, mover(x_moves)), !x_moves);
        let best = best_outcome(g, x_moves, 9);
        assert(better(x_moves, move_outcome(g, x_moves, some), best) == best);
        let k = choose|k: int|
            0 <= k < 9 && is_free(g, k) && best == #[trigger] move_outcome(g, x_moves, k);
        lemma_mark_taken(g, k, mover(x_moves));
        lemma_outcome_range(g.update(k, mover(x_moves)), !x_moves);
    }
}

/// The best outcome among the moves before cell `n` is that of one of them,
/// if any is free, and none of them has a better one.
pub proof fn lemma_best_outcome(g: Seq<i16>, x_moves: bool, n: int)
    requires
        g.len() == 9,
        0 <= n <= 9,
    ensures
        best_outcome(g, x_moves, n) == (if x_moves {
            -2int
        } else {
            2int
        }) || exists|k: int|
            0 <= k < n && is_free(g, k) && best_outcome(g, x_moves, n) == #[trigger] move_outcome(
                g,
                x_moves,
                k,
            ),
        forall|k: int|
            0 <= k < n && is_free(g, k) ==> better(
                x_moves,
                #[trigger] move_outcome(g, x_moves, k),
                best_outcome(g, x_moves, n),
            ) == best_outcome(g, x_moves, n),
    decreases n,
{
    if n > 0 {
        lemma_best_outcome(g, x_moves, n - 1);
        let before = best_outcome(g, x_moves, n - 1);
        let now = best_outcome(g, x_moves, n);
        if now == before && before != (if x_moves {
            -2int
        } else {
            2int
        }) {
            let k = choose|k: int|
                0 <= k < n - 1 && is_free(g, k) && before == #[trigger] move_outcome(g, x_moves, k);
            assert(0 <= k < n && is_free(g, k) && now == move_outcome(g, x_moves, k));
        }
        if is_free(g, n - 1) && now != before {
            assert(now == move_outcome(g, x_moves, n - 1));
        }
    }
}

/// The score of a position, where `X` moves and seeks the greatest score or
/// `O` moves and seeks the least, is a hundred times its outcome, give or
/// take nine: exactly that where the position is decided or full, and else
/// within the slack that goes with the number of its marks.
pub proof fn law_score_tells_outcome(g: Seq<i16>, x_moves: bool)
    requires
        g.len() == 9,
    ensures
        -1 <= outcome(g, x_moves) <= 1,
        winner(g) != 0 || free_cells(g) == 0 ==> score(g, x_moves, mover(!x_moves)) == 100
            * outcome(g, x_moves),
        winner(g) == 0 && free_cells(g) > 0 ==> 100 * outcome(g, x_moves) + slack_below(
            x_moves,
            marks(g),
        ) <= score(g, x_moves, mover(!x_moves)) <= 100 * outcome(g, x_moves) + slack_above(
            x_moves,
            marks(g),
        ),
        100 * outcome(g, x_moves) - 9 <= score(g, x_moves, mover(!x_moves)) <= 100 * outcome(
            g,
            x_moves,
        ) + 9,
    decreases free_cells(g), 1int,
{
    lemma_marks_range(g);
    lemma_outcome_range(g, x_moves);
    if winner(g) == 0 && free_cells(g) > 0 {
        let figure = mover(!x_moves);
        lemma_best_reply(g, x_moves, figure, 9);
        lemma_best_outcome(g, x_moves, 9);
        let low = slack_below(x_moves, marks(g));
        let high = slack_above(x_moves, marks(g));
        assert forall|k: int| is_free(g, k) implies 100 * move_outcome(g, x_moves, k) + low
            <= #[trigger] reply_score(g, x_moves, figure, k) <= 100 * move_outcome(g, x_moves, k)
            + high by {
            lemma_reply_tells_outcome(g, x_moves, k);
        }
        let some = choose|k: int| is_free(g, k);
        let top = best_reply(g, x_moves, figure, 9);
        let best = best_outcome(g, x_moves, 9);
        lemma_mark_taken(g, some, mover(x_moves));
        lemma_outcome_range(g.update(some, mover(x_moves)), !x_moves);
        assert(better(x_moves, reply_score(g, x_moves, figure, some), top) == top);
        assert(better(x_moves, move_outcome(g, x_moves, some), best) == best);
        assert(top != sentinel(x_moves));
        let k1 = choose|k: int|
            0 <= k < 9 && is_free(g, k) && top == #[trigger] reply_score(g, x_moves, figure, k);
        let j1 = choose|k: int|
            0 <= k < 9 && is_free(g, k) && best == #[trigger] move_outcome(g, x_moves, k);
        assert(better(x_moves, move_outcome(g, x_moves, k1), best) == best);
        assert(better(x_moves, reply_score(g, x_moves, figure, j1), top) == top);
    }
}

/// The score of a reply is a hundred times the outcome of the position
/// behind it, within the slack of the position before it.
proof fn lemma_reply_tells_outcome(g: Seq<i16>, x_moves: bool, k: int)
    requires
        g.len() == 9,
        winner(g) == 0,
        is_free(g, k),
    ensures
        100 * move_outcome(g, x_moves, k) + slack_below(x_moves, marks(g)) <= reply_score(
            g,
            x_moves,
            mover(!x_moves),
            k,
        ) <= 100 * move_outcome(g, x_moves, k) + slack_above(x_moves, marks(g)),
    decreases free_cells(g), 0int,
{
    let next = g.update(k, mover(x_moves));
    lemma_marks_range(g);
    lemma_mark_taken(g, k, mover(x_moves));
    lemma_marks_range(next);
    law_score_tells_outcome(next, !x_moves);
    assert(other_mark(mover(!x_moves)) == mover(x_moves));
}

/// The choice of `X` or `O` is best play: no move has a better outcome for
/// the side that moves than the move that is chosen. So the choice wins
/// where a win can be forced, and does not lose where a loss can be helped.
pub proof fn law_choice_is_best_play(g: Seq<i16>, figure: i16, chosen: int, other: int)
    requires
        g.len() == 9,
        figure == 1 || figure == 2,
        is_choice(g, figure, chosen),
        is_free(g, other),
    ensures
        result_of_move(g, figure, other) <= result_of_move(g, figure, chosen),
{
    law_score_tells_outcome(g.update(chosen, figure), figure == 2);
    law_score_tells_outcome(g.update(other, figure), figure == 2);
    assert(!beats(figure, move_score(g, figure, other), move_score(g, figure, chosen)));
}

/// The cell on which cell `k` comes to lie when the board is turned by a
/// quarter clockwise: row `r`, column `c` goes to row `c`, column `2 - r`.
pub open spec fn turned_cell(k: int) -> int {
    3 * (k % 3) + (2 - k / 3)
}

/// The cell that comes to lie on cell `k` when the board is turned by a
/// quarter clockwise.
pub open spec fn source_cell(k: int) -> int {
    3 * (2 - k % 3) + k / 3
}

/// The board turned by a quarter clockwise.
pub open spec fn turned(g: Seq<i16>) -> Seq<i16> {
    Seq::new(9, |k: int| g[source_cell(k)])
}

/// At most one side has a complete line.
pub open spec fn one_sided(g: Seq<i16>) -> bool {
    !(has_line(g, 1) && has_line(g, 2))
}

/// Every cell comes from one cell and goes to one.
pub proof fn lemma_turned_cells(k: int)
    requires
        0 <= k < 9,
    ensures
        0 <= turned_cell(k) < 9,
        0 <= source_cell(k) < 9,
        source_cell(turned_cell(k)) == k,
        turned_cell(source_cell(k)) == k,
{
}

/// A mark set before the turn is the same as that mark set after it.
pub proof fn lemma_turned_update(g: Seq<i16>, k: int, mark: i16)
    requires
        g.len() == 9,
        0 <= k < 9,
    ensures
        turned(g.update(k, mark)) == turned(g).update(turned_cell(k), mark),
        is_free(turned(g), turned_cell(k)) == is_free(g, k),
{
    lemma_turned_cells(k);
    assert forall|j: int| 0 <= j < 9 implies turned(g.update(k, mark))[j] == turned(g).update(
        turned_cell(k),
        mark,
    )[j] by {
        lemma_turned_cells(j);
    }
    assert(turned(g.update(k, mark)) =~= turned(g).update(turned_cell(k), mark));
}

/// A turn keeps the number of marks.
pub proof fn lemma_turned_marks(g: Seq<i16>)
    requires
        g.len() == 9,
    ensures
        marks(turned(g)) == marks(g),
        free_cells(turned(g)) == free_cells(g),
{
    reveal_with_fuel(marks_before, 10);
    let t = turned(g);
    assert(t[0] == g[6] && t[1] == g[3] && t[2] == g[0] && t[3] == g[7] && t[4] == g[4] && t[5]
        == g[1] && t[6] == g[8] && t[7] == g[5] && t[8] == g[2]);
}

/// A turn keeps which sides have a complete line.
pub proof fn lemma_turned_lines(g: Seq<i16>, mark: i16)
    requires
        g.len() == 9,
    ensures
        has_line(turned(g), mark) == has_line(g, mark),
{
    let t = turned(g);
    assert(t[0] == g[6] && t[1] == g[3] && t[2] == g[0] && t[3] == g[7] && t[4] == g[4] && t[5]
        == g[1] && t[6] == g[8] && t[7] == g[5] && t[8] == g[2]);
    assert(line_full_of(t, 0, mark) == line_full_of(g, 3, mark));
    assert(line_full_of(t, 1, mark) == line_full_of(g, 4, mark));
    assert(line_full_of(t, 2, mark) == line_full_of(g, 5, mark));
    assert(line_full_of(t, 3, mark) == line_full_of(g, 2, mark));
    assert(line_full_of(t, 4, mark) == line_full_of(g, 1, mark));
    assert(line_full_of(t, 5, mark) == line_full_of(g, 0, mark));
    assert(line_full_of(t, 6, mark) == line_full_of(g, 7, mark));
    assert(line_full_of(t, 7, mark) == line_full_of(g, 6, mark));
    if has_line(g, mark) {
        let l = choose|l: int| 0 <= l < 8 && line_full_of(g, l, mark);
        let m = if l == 0 {
            5int
        } else if l == 1 {
            4
        } else if l == 2 {
            3
        } else if l == 3 {
            0
        } else if l == 4 {
            1
        } else if l == 5 {
            2
        } else if l == 6 {
            7
        } else {
            6
        };
        assert(line_full_of(t, m, mark));
    }
    if has_line(t, mark) {
        let l = choose|l: int| 0 <= l < 8 && line_full_of(t, l, mark);
        let m = if l == 0 {
            3int
        } else if l == 1 {
            4
        } else if l == 2 {
            5
        } else if l == 3 {
            2
        } else if l == 4 {
            1
        } else if l == 5 {
            0
        } else if l == 6 {
            7
        } else {
            6
        };
        assert(line_full_of(g, m, mark));
    }
}

/// A turn keeps the winner of a board on which at most one side has a
/// complete line.
pub proof fn lemma_turned_winner(g: Seq<i16>)
    requires
        g.len() == 9,
        one_sided(g),
    ensures
        winner(turned(g)) == winner(g),
        one_sided(turned(g)),
{
    lemma_turned_lines(g, 1);
    lemma_turned_lines(g, 2);
    lemma_winner_lines(g);
    lemma_winner_lines(turned(g));
}

/// After a mark on a board without a complete line, at most one side has a
/// complete line.
pub proof fn lemma_one_sided_after_mark(g: Seq<i16>, k: int, mark: i16)
    requires
        g.len() == 9,
        is_free(g, k),
        winner(g) == 0,
    ensures
        one_sided(g.update(k, mark)),
{
    lemma_winner_lines(g);
    lemma_lines_after_mark(g, k, mark, 1);
    lemma_lines_after_mark(g, k, mark, 2);
}

/// A turn keeps the score: a board on which at most one side has a complete
/// line scores as it does when turned by a quarter.
pub proof fn law_score_turns(g: Seq<i16>, is_maximizing: bool, figure: i16)
    requires
        g.len() == 9,
        one_sided(g),
    ensures
        score(turned(g), is_maximizing, figure) == score(g, is_maximizing, figure),
    decreases free_cells(g), 1int,
{
    let t = turned(g);
    lemma_turned_winner(g);
    lemma_turned_marks(g);
    lemma_marks_range(g);
    lemma_marks_range(t);
    if winner(g) == 0 && free_cells(g) > 0 {
        lemma_best_reply(g, is_maximizing, figure, 9);
        lemma_best_reply(t, is_maximizing, figure, 9);
        assert forall|k: int| is_free(g, k) implies reply_score(
            t,
            is_maximizing,
            figure,
            turned_cell(k),
        ) == #[trigger] reply_score(g, is_maximizing, figure, k) && is_free(t, turned_cell(k))
            && -181 <= reply_score(g, is_maximizing, figure, k) <= 181 by {
            lemma_reply_turns(g, is_maximizing, figure, k);
        }
        let held = best_reply(g, is_maximizing, figure, 9);
        let seen = best_reply(t, is_maximizing, figure, 9);
        let some = choose|k: int| is_free(g, k);
        assert(better(is_maximizing, reply_score(g, is_maximizing, figure, some), held) == held);
        assert(better(
            is_maximizing,
            reply_score(t, is_maximizing, figure, turned_cell(some)),
            seen,
        ) == seen);
        assert(held != sentinel(is_maximizing) && seen != sentinel(is_maximizing));
        let k1 = choose|k: int|
            0 <= k < 9 && is_free(g, k) && held == #[trigger] reply_score(
                g,
                is_maximizing,
                figure,
                k,
            );
        assert(better(
            is_maximizing,
            reply_score(t, is_maximizing, figure, turned_cell(k1)),
            seen,
        ) == seen);
        let j1 = choose|j: int|
            0 <= j < 9 && is_free(t, j) && seen == #[trigger] reply_score(
                t,
                is_maximizing,
                figure,
                j,
            );
        let k2 = source_cell(j1);
        lemma_turned_cells(j1);
        lemma_turned_update(g, k2, 0);
        assert(is_free(g, k2));
        assert(better(is_maximizing, reply_score(g, is_maximizing, figure, k2), held) == held);
    }
}

/// A turn keeps the score of a reply.
proof fn lemma_reply_turns(g: Seq<i16>, is_maximizing: bool, figure: i16, k: int)
    requires
        g.len() == 9,
        winner(g) == 0,
        is_free(g, k),
    ensures
        is_free(turned(g), turned_cell(k)),
        reply_score(turned(g), is_maximizing, figure, turned_cell(k)) == reply_score(
            g,
            is_maximizing,
            figure,
            k,
        ),
        -181 <= reply_score(g, is_maximizing, figure, k) <= 181,
    decreases free_cells(g), 0int,
{
    let next = g.update(k, other_mark(figure));
    lemma_turned_update(g, k, other_mark(figure));
    lemma_mark_taken(g, k, other_mark(figure));
    lemma_one_sided_after_mark(g, k, other_mark(figure));
    lemma_turned_marks(next);
    law_score_turns(next, !is_maximizing, other_mark(figure));
    lemma_reply_range(g, is_maximizing, figure, k);
}

/// A turn keeps the score of a move: where at most one side has a complete
/// line after the move, the move scores as the turned move does on the
/// turned board.
pub proof fn law_move_score_turns(g: Seq<i16>, figure: i16, k: int)
    requires
        g.len() == 9,
        0 <= k < 9,
        one_sided(g.update(k, figure)),
    ensures
        move_score(turned(g), figure, turned_cell(k)) == move_score(g, figure, k),
{
    lemma_turned_update(g, k, figure);
    law_score_turns(g.update(k, figure), figure == 2, figure);
}

/// The choice turns with the board: where one move is better than every
/// other, and no move leaves complete lines of both sides, the choice on the
/// board turned by a quarter is the turned choice.
pub proof fn law_choice_turns(g: Seq<i16>, figure: i16, chosen: int)
    requires
        g.len() == 9,
        is_choice(g, figure, chosen),
        forall|k: int| is_free(g, k) ==> one_sided(#[trigger] g.update(k, figure)),
        forall|k: int|
            is_free(g, k) && k != chosen ==> beats(
                figure,
                move_score(g, figure, chosen),
                #[trigger] move_score(g, figure, k),
            ),
    ensures
        is_choice(turned(g), figure, turned_cell(chosen)),
{
    let t = turned(g);
    lemma_turned_update(g, chosen, figure);
    law_move_score_turns(g, figure, chosen);
    assert forall|j: int| is_free(t, j) implies move_score(t, figure, j) == move_score(
        g,
        figure,
        source_cell(j),
    ) && is_free(g, source_cell(j)) by {
        lemma_turned_cells(j);
        lemma_turned_update(g, source_cell(j), figure);
        assert(one_sided(g.update(source_cell(j), figure)));
        law_move_score_turns(g, figure, source_cell(j));
    }
    assert forall|j: int| is_free(t, j) implies !beats(
        figure,
        #[trigger] move_score(t, figure, j),
        move_score(t, figure, turned_cell(chosen)),
    ) by {
        let k = source_cell(j);
        assert(!beats(figure, move_score(g, figure, k), move_score(g, figure, chosen)));
    }
    assert forall|j: int| is_free(t, j) && j < turned_cell(chosen) implies beats(
        figure,
        move_score(t, figure, turned_cell(chosen)),
        #[trigger] move_score(t, figure, j),
    ) by {
        let k = source_cell(j);
        lemma_turned_cells(j);
        assert(k != chosen);
        assert(beats(figure, move_score(g, figure, chosen), move_score(g, figure, k)));
    }
}

} // verus!

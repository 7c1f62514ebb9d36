use tictactoe_bot::board::{check_winner, count_marks, get_allowed_moves, is_full, place};
use tictactoe_bot::search::{choose_move, minimax, SearchResult};
use tictactoe_bot::minify::{minify, replace};
use tictactoe_bot::text::{
    board_to_string, board_to_string_move, push_decimal, write_board,
};

type Board = [[i16; 3]; 3];

const EMPTY: Board = [[0, 0, 0], [0, 0, 0], [0, 0, 0]];

fn chosen(board: Board, figure: i16, turn_number: u8) -> Option<[usize; 2]> {
    let mut file: Option<String> = None;
    let found = choose_move(&mut file, board, figure, turn_number);
    assert_eq!(file, None);
    found.map(|result| result.best_move)
}

fn scored(board: Board, is_maximizing: bool, figure: i16) -> i16 {
    let mut file: Option<String> = None;
    let score: i16 = minimax(&mut file, board, 0, is_maximizing, figure);
    assert_eq!(file, None);
    score
}

fn turned(board: Board) -> Board {
    let mut next: Board = EMPTY;
    for row in 0..3usize {
        for col in 0..3usize {
            next[col][2 - row] = board[row][col];
        }
    }
    next
}

// The move selector

#[test]
fn empty_board_first_turn_takes_the_first_cell() {
    assert_eq!(chosen(EMPTY, 1, 0), Some([0, 0]));
}

#[test]
fn empty_board_takes_the_first_cell_for_either_side() {
    assert_eq!(chosen(EMPTY, 1, 0), Some([0, 0]));
    assert_eq!(chosen(EMPTY, 2, 0), Some([0, 0]));
    assert_eq!(chosen(EMPTY, 1, 1), Some([0, 0]));
    assert_eq!(chosen(EMPTY, 2, 1), Some([0, 0]));
}

#[test]
fn first_turn_does_not_look_at_the_board() {
    let board: Board = [[1, 2, 1], [2, 1, 2], [2, 1, 2]];
    let mut file: Option<String> = Some(String::from("kept"));
    let found = choose_move(&mut file, board, 1, 0);
    assert_eq!(found, Some(SearchResult { best_move: [0, 0], best_score: i16::MIN }));
    assert_eq!(file, Some(String::from("kept")));
    let found = choose_move(&mut file, board, 2, 0);
    assert_eq!(found, Some(SearchResult { best_move: [0, 0], best_score: i16::MAX }));
}

#[test]
fn corner_opening_is_answered_in_the_centre() {
    let board: Board = [[1, 0, 0], [0, 0, 0], [0, 0, 0]];
    assert_eq!(chosen(board, 2, 1), Some([1, 1]));
    let mut file: Option<String> = None;
    let found = choose_move(&mut file, board, 2, 1);
    assert_eq!(found, Some(SearchResult { best_move: [1, 1], best_score: -6 }));
}

#[test]
fn open_row_is_blocked() {
    let board: Board = [[1, 1, 0], [0, 2, 0], [0, 0, 0]];
    assert_eq!(chosen(board, 2, 3), Some([0, 2]));
    let board: Board = [[2, 2, 0], [0, 1, 0], [0, 1, 0]];
    assert_eq!(chosen(board, 1, 4), Some([0, 2]));
}

#[test]
fn one_of_two_wins_is_taken() {
    let board: Board = [[1, 1, 0], [1, 2, 2], [0, 2, 0]];
    let found = chosen(board, 1, 6).unwrap();
    assert!(found == [0, 2] || found == [2, 0]);
    assert_eq!(found, [0, 2]);
    let mut file: Option<String> = None;
    let result = choose_move(&mut file, board, 1, 6).unwrap();
    assert_eq!(result.best_score, 100);
}

#[test]
fn equal_scores_leave_the_first_cell_chosen() {
    let board: Board = [[1, 2, 1], [2, 1, 2], [0, 1, 0]];
    let mut file: Option<String> = None;
    assert_eq!(
        choose_move(&mut file, board, 2, 7),
        Some(SearchResult { best_move: [2, 0], best_score: 91 })
    );
    assert_eq!(
        choose_move(&mut file, board, 1, 7),
        Some(SearchResult { best_move: [2, 0], best_score: 100 })
    );
}

#[test]
fn full_board_has_no_move() {
    let board: Board = [[1, 2, 1], [2, 1, 2], [2, 1, 2]];
    assert_eq!(chosen(board, 1, 9), None);
    assert_eq!(chosen(board, 2, 9), None);
}

#[test]
fn choice_turns_with_the_board() {
    let boards: [(Board, i16); 4] = [
        ([[1, 0, 0], [0, 0, 0], [0, 0, 0]], 2),
        ([[1, 1, 0], [0, 2, 0], [0, 0, 0]], 2),
        ([[2, 2, 0], [0, 1, 0], [0, 1, 0]], 1),
        ([[1, 2, 1], [2, 2, 1], [0, 1, 0]], 2),
    ];
    for (board, figure) in boards {
        let mut board: Board = board;
        for _ in 0..4 {
            let here = chosen(board, figure, 1).unwrap();
            let there = chosen(turned(board), figure, 1).unwrap();
            assert_eq!(there, [here[1], 2 - here[0]]);
            board = turned(board);
        }
    }
}

#[test]
fn turned_corner_opening_is_answered_in_the_centre() {
    let board: Board = [[0, 0, 1], [0, 0, 0], [0, 0, 0]];
    assert_eq!(chosen(board, 2, 1), Some([1, 1]));
    let board: Board = [[0, 0, 1], [0, 2, 1], [0, 0, 0]];
    assert_eq!(chosen(board, 2, 3), Some([2, 2]));
}

fn lets_the_other_win(board: Board, figure: i16, at: [usize; 2]) -> bool {
    let next: Board = place(board, at[0], at[1], figure);
    if check_winner(next) != 0 {
        return false;
    }
    let other: i16 = if figure == 1 { 2 } else { 1 };
    let won: i16 = if other == 1 { 1 } else { -1 };
    get_allowed_moves(next)
        .iter()
        .any(|reply| check_winner(place(next, reply[0], reply[1], other)) == won)
}

#[test]
fn choice_hands_over_no_win_where_that_can_be_helped() {
    let boards: [(Board, i16); 5] = [
        ([[1, 1, 0], [0, 2, 0], [0, 0, 0]], 2),
        ([[2, 2, 0], [0, 1, 0], [0, 1, 0]], 1),
        ([[1, 0, 0], [0, 2, 0], [0, 0, 1]], 2),
        ([[1, 2, 0], [0, 1, 0], [0, 0, 2]], 1),
        ([[0, 0, 0], [0, 1, 0], [0, 0, 0]], 2),
    ];
    for (board, figure) in boards {
        let moves = get_allowed_moves(board);
        let can_be_helped = moves.iter().any(|at| !lets_the_other_win(board, figure, *at));
        assert!(can_be_helped);
        let found = chosen(board, figure, 1).unwrap();
        assert!(!lets_the_other_win(board, figure, found));
    }
}

#[test]
fn choice_among_lost_moves_is_still_a_free_cell() {
    // X holds two open lines: whatever O does, X completes one of them.
    let board: Board = [[1, 1, 0], [1, 2, 0], [0, 0, 2]];
    let found = chosen(board, 2, 5).unwrap();
    assert_eq!(board[found[0]][found[1]], 0);
    assert_eq!(found, [0, 2]);
}

fn board_of(number: usize) -> Board {
    let mut board: Board = EMPTY;
    let mut rest: usize = number;
    for row in 0..3usize {
        for col in 0..3usize {
            board[row][col] = (rest % 3) as i16;
            rest /= 3;
        }
    }
    board
}

/// The side to move on a board that a game can show, if the game is open.
fn side_to_move(board: Board) -> Option<i16> {
    let of_x: usize = board.iter().flatten().filter(|cell| **cell == 1).count();
    let of_o: usize = board.iter().flatten().filter(|cell| **cell == 2).count();
    if check_winner(board) != 0 || of_x + of_o == 0 || of_x + of_o == 9 {
        None
    } else if of_x == of_o {
        Some(1)
    } else if of_x == of_o + 1 {
        Some(2)
    } else {
        None
    }
}

#[test]
fn no_position_of_a_game_hands_over_a_win_that_can_be_helped() {
    let mut seen: usize = 0;
    for number in 0..19683usize {
        let board: Board = board_of(number);
        if let Some(figure) = side_to_move(board) {
            let moves = get_allowed_moves(board);
            if moves.iter().any(|at| !lets_the_other_win(board, figure, *at)) {
                let found = chosen(board, figure, 1).unwrap();
                assert!(!lets_the_other_win(board, figure, found), "{:?}", board);
                seen += 1;
            }
        }
    }
    assert!(seen > 4000);
}

#[test]
fn every_position_of_a_game_with_one_best_move_turns_with_the_board() {
    let mut seen: usize = 0;
    for number in 0..19683usize {
        let board: Board = board_of(number);
        if let Some(figure) = side_to_move(board) {
            let scores: Vec<i16> = get_allowed_moves(board)
                .iter()
                .map(|at| scored(place(board, at[0], at[1], figure), figure == 2, figure))
                .collect();
            let best: i16 = if figure == 1 {
                *scores.iter().max().unwrap()
            } else {
                *scores.iter().min().unwrap()
            };
            if scores.iter().filter(|score| **score == best).count() == 1 {
                let here = chosen(board, figure, 1).unwrap();
                let there = chosen(turned(board), figure, 1).unwrap();
                assert_eq!(there, [here[1], 2 - here[0]], "{:?}", board);
                seen += 1;
            }
        }
    }
    assert!(seen > 1000);
}

/// The outcome under best play of both sides: 1 where `X` wins, -1 where
/// `O` wins, 0 for a draw.
fn outcome(board: Board, x_moves: bool) -> i16 {
    let winner: i16 = check_winner(board);
    if winner != 0 {
        return winner;
    }
    let mark: i16 = if x_moves { 1 } else { 2 };
    let below = get_allowed_moves(board)
        .into_iter()
        .map(|at| outcome(place(board, at[0], at[1], mark), !x_moves));
    if x_moves {
        below.max().unwrap_or(0)
    } else {
        below.min().unwrap_or(0)
    }
}

#[test]
fn every_position_of_a_game_gets_best_play() {
    let mut seen: usize = 0;
    for number in 0..19683usize {
        let board: Board = board_of(number);
        if let Some(figure) = side_to_move(board) {
            let found = chosen(board, figure, 1).unwrap();
            let of_found: i16 = outcome(place(board, found[0], found[1], figure), figure == 2);
            for at in get_allowed_moves(board) {
                let of_other: i16 = outcome(place(board, at[0], at[1], figure), figure == 2);
                if figure == 1 {
                    assert!(of_other <= of_found, "{:?}", board);
                } else {
                    assert!(of_other >= of_found, "{:?}", board);
                }
            }
            seen += 1;
        }
    }
    assert_eq!(seen, 4519);
}

#[test]
fn score_is_a_hundred_times_the_outcome_give_or_take_nine() {
    for number in 0..19683usize {
        let board: Board = board_of(number);
        if side_to_move(board).is_some() {
            let as_x: i16 = scored(board, true, 2) - 100 * outcome(board, true);
            let as_o: i16 = scored(board, false, 1) - 100 * outcome(board, false);
            assert!((-9..=9).contains(&as_x), "{:?}", board);
            assert!((-9..=9).contains(&as_o), "{:?}", board);
        }
    }
}

#[test]
fn no_game_is_lost_from_the_first_move_on() {
    assert_eq!(outcome(EMPTY, true), 0);
    for row in 0..3usize {
        for col in 0..3usize {
            assert_eq!(outcome(place(EMPTY, row, col, 1), false), 0);
        }
    }
}

#[test]
fn move_that_hands_over_a_win_scores_by_the_marks_on_the_board() {
    // four marks: the board after such a move of X scores -100 + (4 + 2)
    let board: Board = [[2, 2, 0], [0, 1, 0], [0, 1, 0]];
    assert_eq!(scored(place(board, 1, 0, 1), false, 1), -94);
    assert_eq!(scored(place(board, 2, 2, 1), false, 1), -94);
    assert_eq!(scored(place(board, 0, 2, 1), false, 1), -2);
    // three marks: the board after such a move of O scores 100 - (3 + 2)
    let board: Board = [[1, 1, 0], [0, 2, 0], [0, 0, 0]];
    assert_eq!(scored(place(board, 1, 0, 2), true, 2), 95);
    assert_eq!(scored(place(board, 0, 2, 2), true, 2), -7);
}

#[test]
fn score_turns_with_the_board() {
    for number in 0..19683usize {
        let board: Board = board_of(number);
        if side_to_move(board).is_some() {
            assert_eq!(scored(turned(board), true, 2), scored(board, true, 2));
            assert_eq!(scored(turned(board), false, 1), scored(board, false, 1));
        }
    }
}

// The scorer

#[test]
fn decided_board_scores_a_hundred_for_its_winner() {
    let x_row: Board = [[1, 1, 1], [2, 2, 0], [0, 0, 0]];
    let o_column: Board = [[2, 1, 1], [2, 1, 0], [2, 0, 0]];
    let x_diagonal: Board = [[1, 2, 2], [0, 1, 0], [0, 0, 1]];
    let o_diagonal: Board = [[1, 1, 2], [0, 2, 1], [2, 0, 0]];
    for is_maximizing in [true, false] {
        for figure in [1i16, 2] {
            assert_eq!(scored(x_row, is_maximizing, figure), 100);
            assert_eq!(scored(o_column, is_maximizing, figure), -100);
            assert_eq!(scored(x_diagonal, is_maximizing, figure), 100);
            assert_eq!(scored(o_diagonal, is_maximizing, figure), -100);
        }
    }
    assert_eq!(check_winner(x_row), 1);
    assert_eq!(check_winner(o_column), -1);
    assert_eq!(check_winner(x_diagonal), 1);
    assert_eq!(check_winner(o_diagonal), -1);
}

#[test]
fn full_board_without_line_scores_nothing() {
    let board: Board = [[1, 2, 1], [2, 1, 2], [2, 1, 2]];
    assert_eq!(check_winner(board), 0);
    assert!(is_full(board));
    for is_maximizing in [true, false] {
        for figure in [1i16, 2] {
            assert_eq!(scored(board, is_maximizing, figure), 0);
        }
    }
}

#[test]
fn last_cell_scores_by_the_marks_on_the_board() {
    let board: Board = [[1, 2, 1], [2, 1, 2], [2, 1, 0]];
    // X completes the diagonal: 100 less the nine marks.
    assert_eq!(scored(board, true, 2), 91);
    // O fills the board: a draw plus the nine marks.
    assert_eq!(scored(board, false, 1), 9);
}

#[test]
fn quick_win_scores_over_slow_win() {
    let board: Board = [[1, 2, 1], [2, 2, 1], [0, 1, 0]];
    // X to move: the corner wins at once, 100 - 8; the other cell draws.
    assert_eq!(scored(board, true, 2), 92);
    // O to move: the left cell lets X win, (100 - 9) + 8; the corner draws.
    assert_eq!(scored(board, false, 1), -1);
}

#[test]
fn empty_board_scores_a_draw() {
    assert_eq!(scored(EMPTY, true, 2), -5);
    assert_eq!(scored(EMPTY, false, 1), 5);
}

#[test]
fn search_writes_its_first_replies_only() {
    let board: Board = [[1, 2, 1], [2, 2, 1], [0, 1, 0]];
    let mut file: Option<String> = Some(String::from("# "));
    let score: i16 = minimax(&mut file, board, 0, true, 2);
    assert_eq!(score, 92);
    assert_eq!(
        file,
        Some(String::from(
            "# \"XOX\nOOX\n_X_\n\" -> \"XOX\nOOX\nXX_\n\" [label=\"1\"]\n\"XOX\nOOX\n_X_\n\" -> \"XOX\nOOX\n_XX\n\" [label=\"92\"]\n"
        ))
    );
    let mut file: Option<String> = Some(String::new());
    assert_eq!(minimax(&mut file, board, 1, true, 2), 92);
    assert_eq!(file, Some(String::new()));
}

#[test]
fn search_from_a_depth_under_zero_writes_two_plies() {
    let board: Board = [[1, 2, 1], [2, 2, 1], [0, 1, 0]];
    let mut file: Option<String> = Some(String::new());
    assert_eq!(minimax(&mut file, board, -1, true, 2), 92);
    assert_eq!(
        file,
        Some(String::from(
            "\"XOX\nOOX\nXX_\n\" -> \"XOX\nOOX\nXXO\n\" [label=\"9\"]\n\"XOX\nOOX\n_X_\n\" -> \"XOX\nOOX\nXX_\n\" [label=\"1\"]\n\"XOX\nOOX\n_X_\n\" -> \"XOX\nOOX\n_XX\n\" [label=\"92\"]\n"
        ))
    );
}

// The board

#[test]
fn no_line_no_winner() {
    assert_eq!(check_winner(EMPTY), 0);
    assert_eq!(check_winner([[1, 1, 2], [2, 2, 1], [1, 2, 1]]), 0);
    assert_eq!(check_winner([[1, 1, 0], [2, 2, 0], [0, 0, 0]]), 0);
}

#[test]
fn every_line_is_seen() {
    let lines: [[(usize, usize); 3]; 8] = [
        [(0, 0), (0, 1), (0, 2)],
        [(1, 0), (1, 1), (1, 2)],
        [(2, 0), (2, 1), (2, 2)],
        [(0, 0), (1, 0), (2, 0)],
        [(0, 1), (1, 1), (2, 1)],
        [(0, 2), (1, 2), (2, 2)],
        [(0, 0), (1, 1), (2, 2)],
        [(0, 2), (1, 1), (2, 0)],
    ];
    for line in lines {
        let mut for_x: Board = EMPTY;
        let mut for_o: Board = EMPTY;
        for (row, col) in line {
            for_x[row][col] = 1;
            for_o[row][col] = 2;
        }
        assert_eq!(check_winner(for_x), 1);
        assert_eq!(check_winner(for_o), -1);
    }
}

#[test]
fn first_complete_line_names_the_winner() {
    assert_eq!(check_winner([[1, 1, 1], [2, 2, 2], [0, 0, 0]]), 1);
    assert_eq!(check_winner([[2, 2, 2], [1, 1, 1], [0, 0, 0]]), -1);
    // a row comes before a column
    assert_eq!(check_winner([[1, 0, 2], [1, 0, 2], [1, 1, 1]]), 1);
    assert_eq!(check_winner([[1, 2, 0], [1, 2, 0], [1, 2, 0]]), 1);
    assert_eq!(check_winner([[2, 1, 0], [2, 1, 0], [2, 1, 0]]), -1);
}

#[test]
fn foreign_marks_make_no_line() {
    assert_eq!(check_winner([[3, 3, 3], [0, 0, 0], [0, 0, 0]]), 0);
    assert_eq!(check_winner([[-1, -1, -1], [0, 0, 0], [0, 0, 0]]), 0);
    assert_eq!(check_winner([[1, 1, 7], [0, 0, 0], [0, 0, 0]]), 0);
}

#[test]
fn allowed_moves_come_row_by_row() {
    let board: Board = [[1, 0, 2], [0, 0, 1], [2, 1, 0]];
    let expected: Vec<[usize; 2]> = vec![[0, 1], [1, 0], [1, 1], [2, 2]];
    assert_eq!(get_allowed_moves(board), expected);
}

#[test]
fn allowed_moves_of_empty_and_full_board() {
    let all: Vec<[usize; 2]> =
        vec![[0, 0], [0, 1], [0, 2], [1, 0], [1, 1], [1, 2], [2, 0], [2, 1], [2, 2]];
    assert_eq!(get_allowed_moves(EMPTY), all);
    let none: Vec<[usize; 2]> = Vec::new();
    assert_eq!(get_allowed_moves([[1, 2, 1], [2, 1, 2], [2, 1, 2]]), none);
    assert_eq!(get_allowed_moves([[5, 5, 5], [5, 5, 5], [5, 5, 5]]), none);
}

#[test]
fn marks_are_counted() {
    assert_eq!(count_marks(EMPTY), 0);
    assert_eq!(count_marks([[1, 0, 2], [0, 0, 1], [2, 1, 0]]), 5);
    assert_eq!(count_marks([[1, 2, 1], [2, 1, 2], [2, 1, 7]]), 9);
    assert!(!is_full(EMPTY));
    assert!(!is_full([[1, 2, 1], [2, 1, 2], [2, 1, 0]]));
    assert!(is_full([[1, 2, 1], [2, 1, 2], [2, 1, 7]]));
}

#[test]
fn place_sets_one_cell() {
    let board: Board = [[1, 0, 2], [0, 0, 1], [2, 1, 0]];
    assert_eq!(place(board, 1, 0, 2), [[1, 0, 2], [2, 0, 1], [2, 1, 0]]);
    assert_eq!(place(board, 0, 0, 0), [[0, 0, 2], [0, 0, 1], [2, 1, 0]]);
    assert_eq!(place(EMPTY, 2, 2, 1), [[0, 0, 0], [0, 0, 0], [0, 0, 1]]);
}

// Text

#[test]
fn board_is_shown_in_three_lines() {
    assert_eq!(board_to_string(EMPTY), "___\n___\n___\n");
    assert_eq!(board_to_string([[1, 0, 2], [0, 0, 1], [2, 1, 0]]), "X_O\n__X\nOX_\n");
}

#[test]
fn foreign_marks_are_not_shown() {
    assert_eq!(board_to_string([[1, 5, 2], [-1, 0, 1], [3, 3, 3]]), "XO\n_X\n\n");
}

#[test]
fn board_is_shown_with_a_move() {
    let board: Board = [[1, 0, 2], [0, 0, 1], [2, 1, 0]];
    assert_eq!(board_to_string_move(board, [1, 1], 1), "X_O\n_XX\nOX_\n");
    assert_eq!(board_to_string_move(board, [2, 2], 2), "X_O\n__X\nOXO\n");
    assert_eq!(board_to_string_move(board, [0, 0], 2), "O_O\n__X\nOX_\n");
}

#[test]
fn edge_is_written_behind_what_is_there() {
    let mut text: String = String::from("digraph G {\n");
    write_board(&mut text, EMPTY, [[1, 0, 0], [0, 0, 0], [0, 0, 0]], -4);
    assert_eq!(
        text,
        "digraph G {\n\"___\n___\n___\n\" -> \"X__\n___\n___\n\" [label=\"-4\"]\n"
    );
}

#[test]
fn numbers_are_written_in_decimal() {
    let cases: [(i16, &str); 9] = [
        (0, "0"),
        (7, "7"),
        (10, "10"),
        (91, "91"),
        (100, "100"),
        (-1, "-1"),
        (-100, "-100"),
        (i16::MAX, "32767"),
        (i16::MIN, "-32768"),
    ];
    for (number, expected) in cases {
        let mut text: String = String::from("n=");
        push_decimal(&mut text, number);
        assert_eq!(text, format!("n={}", expected));
    }
}

#[test]
fn replace_takes_occurrences_from_the_left() {
    assert_eq!(replace("aaaaa", "aa", "b"), "bba");
    assert_eq!(replace("a: b: c", ": ", ":"), "a:b:c");
    assert_eq!(replace("abc", "x", "y"), "abc");
    assert_eq!(replace("", "x", "y"), "");
    assert_eq!(replace("xxx", "x", ""), "");
    assert_eq!(replace("ab", "abc", "z"), "ab");
    assert_eq!(replace("grün über", "ü", "ue"), "gruen ueber");
}

#[test]
fn replace_of_nothing_puts_the_text_around_each_character() {
    assert_eq!(replace("abc", "", "-"), "-a-b-c-");
    assert_eq!(replace("", "", "-"), "-");
    assert_eq!(replace("abc", "", ""), "abc");
    assert_eq!(replace("abc", "", "-"), "abc".replace("", "-"));
}

#[test]
fn replace_agrees_with_the_standard_library() {
    let texts: [&str; 6] = ["", "a", "aaaa", "a: b:  c", "    x     y", "line\nline\n"];
    let patterns: [&str; 6] = ["a", "aa", ": ", "    ", "\n", " "];
    let fillers: [&str; 3] = ["", ":", "aa"];
    for text in texts {
        for pattern in patterns {
            for filler in fillers {
                assert_eq!(replace(text, pattern, filler), text.replace(pattern, filler));
            }
        }
    }
}

#[test]
fn replace_does_not_search_what_it_put() {
    assert_eq!(replace("aab", "ab", "b"), "ab");
    assert_eq!(replace("ab", "b", "bb"), "abb");
}

#[test]
fn minify_takes_three_steps_in_order() {
    assert_eq!(minify("{\n    \"a\": 1\n}"), "{\"a\":1}");
    // line feeds go first, and so make runs of four spaces
    assert_eq!(minify("  \n  x"), "x");
    // the spaces go before the colons are looked at
    assert_eq!(minify(":     x"), ":x");
    assert_eq!(minify("a:  b"), "a: b");
    assert_eq!(minify("     "), " ");
}

//! The replies of the game server to the requests of a game: status, start,
//! finish, error and turn.

use vstd::prelude::*;
use vstd::string::*;
use crate::board::{cell_of, grid, has_free_cell, lemma_marks_range, Board};
use crate::minify::{
    is_calm, is_plain, lemma_minified_at_border, lemma_minified_calm, lemma_minified_colon,
    lemma_minified_comma, lemma_minified_indent, minified, minify,
};
use crate::search::{
    choose_move, is_choice, lemma_choice_unique, move_score, moves_text, worst_score,
};
use crate::text::{
    board_text, board_to_string, board_to_string_move, decimal, digits, lemma_with_text_twice,
    push_decimal, shown,
};

verus! {

/// What the server was started with.
#[derive(Clone, Debug)]
pub struct AppData {
    pub secret: String,
    pub version: String,
    pub port: u16,
    pub log: String,
    pub debug: bool,
}

/// The query of a request: the name of the method asked for.
#[derive(Clone, Debug)]
pub struct QueryData {
    pub method: String,
}

/// A request for a move: the number of the turn, the figure of the side to
/// move and the board.
#[derive(Clone, Copy, Debug)]
pub struct TurnData {
    pub turn_number: u8,
    pub figure: char,
    pub board: Board,
}

/// The methods that the server answers.
#[derive(Clone, Copy, Debug, PartialEq, Eq, Structural)]
pub enum Method {
    Status,
    Finish,
    Error,
    Start,
    Turn,
}

/// The method that a name stands for, if any.
pub open spec fn method_named(name: Seq<char>) -> Option<Method> {
    if name == "status"@ {
        Some(Method::Status)
    } else if name == "finish"@ {
        Some(Method::Finish)
    } else if name == "error"@ {
        Some(Method::Error)
    } else if name == "start"@ {
        Some(Method::Start)
    } else if name == "turn"@ {
        Some(Method::Turn)
    } else {
        None
    }
}

impl QueryData {
    /// The method that the query asks for, if the server answers it.
    pub fn route(&self) -> (method: Option<Method>)
        ensures
            method == method_named(self.method@),
    {
        if self.method == String::from_str("status") {
            Some(Method::Status)
        } else if self.method == String::from_str("finish") {
            Some(Method::Finish)
        } else if self.method == String::from_str("error") {
            Some(Method::Error)
        } else if self.method == String::from_str("start") {
            Some(Method::Start)
        } else if self.method == String::from_str("turn") {
            Some(Method::Turn)
        } else {
            None
        }
    }
}

/// One line of a reply as it is laid out: a line feed, eight spaces, the
/// key, a colon, a space and the value.
pub open spec fn field(key: Seq<char>, value: Seq<char>) -> Seq<char> {
    "\n        "@ + key + ": "@ + value
}

/// A text between quotation marks, with a comma behind.
pub open spec fn quoted(text: Seq<char>) -> Seq<char> {
    "\""@ + text + "\","@
}

/// The four lines with which the replies to status, start and turn begin, as
/// they are laid out.
pub open spec fn head_text(version: Seq<char>, secret: Seq<char>) -> Seq<char> {
    "{"@ + field("\"status\""@, "\"ok\","@) + field("\"game\""@, "\"tic-tac-toe\","@) + field(
        "\"version\""@,
        quoted(version),
    ) + field("\"secret\""@, quoted(secret))
}

/// The reply to a status request as it is laid out, before it is minified.
pub open spec fn status_text(version: Seq<char>, secret: Seq<char>) -> Seq<char> {
    head_text(version, secret) + field("\"message\""@, "\"I'm ready!\""@) + "\n    }"@
}

/// The reply to a finish request as it is laid out.
pub open spec fn finish_text() -> Seq<char> {
    "{"@ + field("\"status\""@, "\"ok\","@) + field("\"message\""@, "\"Game finished!\""@)
        + "\n    }"@
}

/// The reply to an error request as it is laid out.
pub open spec fn error_text() -> Seq<char> {
    "{"@ + field("\"status\""@, "\"error\","@) + field("\"message\""@, "\"Invalid request!\""@)
        + "\n    }"@
}

/// The reply to a start request as it is laid out.
pub open spec fn start_text(version: Seq<char>, secret: Seq<char>) -> Seq<char> {
    head_text(version, secret) + field("\"accept\""@, "true,"@) + field(
        "\"message\""@,
        "\"Let's go!\""@,
    ) + "\n    }"@
}

/// A move as it stands in a reply: row and column in brackets.
pub open spec fn move_text(row: int, col: int) -> Seq<char> {
    "["@ + decimal(row) + ", "@ + decimal(col) + "]"@
}

/// The reply to a turn request as it is laid out, with the move in it.
pub open spec fn turn_text(version: Seq<char>, secret: Seq<char>, row: int, col: int) -> Seq<
    char,
> {
    head_text(version, secret) + field("\"move\""@, move_text(row, col)) + "\n    }"@
}

/// The beginning of the replies to status, start and turn, the version and
/// the secret as given.
pub open spec fn head_reply(version: Seq<char>, secret: Seq<char>) -> Seq<char> {
    "{\"status\":\"ok\",\"game\":\"tic-tac-toe\",\"version\":\""@ + version
        + "\",\"secret\":\""@ + secret + "\","@
}

/// The reply to a status request, the version and the secret as given.
pub open spec fn status_reply(version: Seq<char>, secret: Seq<char>) -> Seq<char> {
    head_reply(version, secret) + "\"message\":\"I'm ready!\"}"@
}

/// The reply to a finish request.
pub open spec fn finish_reply() -> Seq<char> {
    "{\"status\":\"ok\",\"message\":\"Game finished!\"}"@
}

/// The reply to an error request.
pub open spec fn error_reply() -> Seq<char> {
    "{\"status\":\"error\",\"message\":\"Invalid request!\"}"@
}

/// The reply to a start request, the version and the secret as given.
pub open spec fn start_reply(version: Seq<char>, secret: Seq<char>) -> Seq<char> {
    head_reply(version, secret) + "\"accept\":true,\"message\":\"Let's go!\"}"@
}

/// The reply to a turn request, the version and the secret as given.
pub open spec fn turn_reply(version: Seq<char>, secret: Seq<char>, row: int, col: int) -> Seq<
    char,
> {
    head_reply(version, secret) + "\"move\":"@ + move_text(row, col) + "}"@
}

/// A line behind a text that ends with a plain character is minified to the
/// key, a colon and the minified value.
proof fn lemma_field(acc: Seq<char>, key: Seq<char>, value: Seq<char>)
    requires
        acc.len() > 0,
        is_plain(acc.last()),
        is_calm(key),
        value.len() > 0,
        is_plain(value[0]),
        is_plain(value.last()),
    ensures
        minified(acc + field(key, value)) == minified(acc) + key + ":"@ + minified(value),
        is_plain((acc + field(key, value)).last()),
{
    let indent = "\n        "@;
    let colon = ": "@;
    lemma_minified_indent();
    lemma_minified_colon();
    lemma_minified_calm(key);
    lemma_minified_at_border(acc, indent);
    lemma_minified_at_border(acc + indent, key);
    lemma_minified_at_border(acc + indent + key, colon);
    lemma_minified_at_border(acc + indent + key + colon, value);
    assert(acc + field(key, value) =~= acc + indent + key + colon + value);
    assert(minified(acc) + Seq::<char>::empty() =~= minified(acc));
}

/// The last line behind a text that ends with a plain character is minified
/// to the closing brace.
proof fn lemma_close(acc: Seq<char>)
    requires
        acc.len() > 0,
        is_plain(acc.last()),
    ensures
        minified(acc + "\n    }"@) == minified(acc) + "}"@,
{
    reveal_strlit("\n    }");
    reveal_strlit("\n    ");
    reveal_strlit("}");
    lemma_minified_indent();
    lemma_minified_calm("}"@);
    lemma_minified_at_border(acc, "\n    "@);
    lemma_minified_at_border(acc + "\n    "@, "}"@);
    assert(acc + "\n    }"@ =~= acc + "\n    "@ + "}"@);
    assert(minified(acc) + Seq::<char>::empty() =~= minified(acc));
}

/// A quoted text is minified to the minified text, quoted.
proof fn lemma_quoted(text: Seq<char>)
    ensures
        minified(quoted(text)) == quoted(minified(text)),
        quoted(text).len() > 0,
        is_plain(quoted(text)[0]),
        is_plain(quoted(text).last()),
{
    reveal_strlit("\"");
    reveal_strlit("\",");
    lemma_minified_calm("\""@);
    lemma_minified_calm("\","@);
    lemma_minified_at_border("\""@, text);
    lemma_minified_at_border("\""@ + text, "\","@);
}

/// The digits of a number are plain characters.
proof fn lemma_digits_plain(n: nat)
    ensures
        digits(n).len() > 0,
        forall|i: int| 0 <= i < digits(n).len() ==> is_plain(#[trigger] digits(n)[i]) && digits(
            n,
        )[i] != '-',
    decreases n,
{
    if n >= 10 {
        lemma_digits_plain(n / 10);
    }
}

/// A number in decimal is a calm text.
proof fn lemma_decimal_calm(n: int)
    ensures
        is_calm(decimal(n)),
{
    if n < 0 {
        lemma_digits_plain((-n) as nat);
    } else {
        lemma_digits_plain(n as nat);
    }
}

/// A move is minified to itself.
proof fn lemma_move_text(row: int, col: int)
    ensures
        minified(move_text(row, col)) == move_text(row, col),
        move_text(row, col).len() > 0,
        is_plain(move_text(row, col)[0]),
        is_plain(move_text(row, col).last()),
{
    reveal_strlit("[");
    reveal_strlit(", ");
    reveal_strlit("]");
    lemma_decimal_calm(row);
    lemma_decimal_calm(col);
    lemma_minified_calm("["@);
    lemma_minified_calm("]"@);
    lemma_minified_calm(decimal(row));
    lemma_minified_calm(decimal(col));
    lemma_minified_comma();
    lemma_minified_at_border("["@, decimal(row));
    lemma_minified_at_border("["@ + decimal(row), ", "@);
    lemma_minified_at_border("["@ + decimal(row) + ", "@, decimal(col));
    lemma_minified_at_border("["@ + decimal(row) + ", "@ + decimal(col), "]"@);
}

/// What the keys and the fixed values of the replies hold.
proof fn lemma_words()
    ensures
        is_calm("{"@),
        is_calm("\"status\""@),
        is_calm("\"game\""@),
        is_calm("\"version\""@),
        is_calm("\"secret\""@),
        is_calm("\"message\""@),
        is_calm("\"accept\""@),
        is_calm("\"move\""@),
        is_calm("\"ok\","@),
        is_calm("\"error\","@),
        is_calm("\"tic-tac-toe\","@),
        is_calm("true,"@),
        is_calm("\"I'm ready!\""@),
        is_calm("\"Let's go!\""@),
        is_calm("\"Game finished!\""@),
        is_calm("\"Invalid request!\""@),
{
    reveal_strlit("{");
    reveal_strlit("\"status\"");
    reveal_strlit("\"game\"");
    reveal_strlit("\"version\"");
    reveal_strlit("\"secret\"");
    reveal_strlit("\"message\"");
    reveal_strlit("\"accept\"");
    reveal_strlit("\"move\"");
    reveal_strlit("\"ok\",");
    reveal_strlit("\"error\",");
    reveal_strlit("\"tic-tac-toe\",");
    reveal_strlit("true,");
    reveal_strlit("\"I'm ready!\"");
    reveal_strlit("\"Let's go!\"");
    reveal_strlit("\"Game finished!\"");
    reveal_strlit("\"Invalid request!\"");
}

/// The beginning of a reply is minified to its four fields in a row, the
/// version and the secret minified with it.
proof fn lemma_head_text(version: Seq<char>, secret: Seq<char>)
    ensures
        minified(head_text(version, secret)) == head_reply(minified(version), minified(secret)),
        head_text(version, secret).len() > 0,
        is_plain(head_text(version, secret).last()),
{
    lemma_words();
    lemma_minified_calm("{"@);
    lemma_minified_calm("\"ok\","@);
    lemma_minified_calm("\"tic-tac-toe\","@);
    lemma_quoted(version);
    lemma_quoted(secret);
    let a1 = "{"@;
    let a2 = a1 + field("\"status\""@, "\"ok\","@);
    let a3 = a2 + field("\"game\""@, "\"tic-tac-toe\","@);
    let a4 = a3 + field("\"version\""@, quoted(version));
    lemma_field(a1, "\"status\""@, "\"ok\","@);
    lemma_field(a2, "\"game\""@, "\"tic-tac-toe\","@);
    lemma_field(a3, "\"version\""@, quoted(version));
    lemma_field(a4, "\"secret\""@, quoted(secret));
    reveal_strlit("{");
    reveal_strlit("\"status\"");
    reveal_strlit("\"game\"");
    reveal_strlit("\"version\"");
    reveal_strlit("\"secret\"");
    reveal_strlit("\"ok\",");
    reveal_strlit("\"tic-tac-toe\",");
    reveal_strlit(":");
    reveal_strlit("\"");
    reveal_strlit("\",");
    reveal_strlit("{\"status\":\"ok\",\"game\":\"tic-tac-toe\",\"version\":\"");
    reveal_strlit("\",\"secret\":\"");
    assert(minified(head_text(version, secret)) =~= head_reply(
        minified(version),
        minified(secret),
    ));
}

/// The reply to a status request is laid out so that it is minified to its
/// fields in a row, the version and the secret minified with it.
pub proof fn law_status_text(version: Seq<char>, secret: Seq<char>)
    ensures
        minified(status_text(version, secret)) == status_reply(
            minified(version),
            minified(secret),
        ),
{
    lemma_words();
    lemma_head_text(version, secret);
    let head = head_text(version, secret);
    lemma_minified_calm("\"I'm ready!\""@);
    lemma_field(head, "\"message\""@, "\"I'm ready!\""@);
    lemma_close(head + field("\"message\""@, "\"I'm ready!\""@));
    reveal_strlit("\"message\"");
    reveal_strlit(":");
    reveal_strlit("\"I'm ready!\"");
    reveal_strlit("}");
    reveal_strlit("\"message\":\"I'm ready!\"}");
    assert(minified(status_text(version, secret)) =~= status_reply(
        minified(version),
        minified(secret),
    ));
}

/// The reply to a start request is laid out so that it is minified to its
/// fields in a row, the version and the secret minified with it.
pub proof fn law_start_text(version: Seq<char>, secret: Seq<char>)
    ensures
        minified(start_text(version, secret)) == start_reply(minified(version), minified(secret)),
{
    lemma_words();
    lemma_head_text(version, secret);
    let head = head_text(version, secret);
    let more = head + field("\"accept\""@, "true,"@);
    lemma_minified_calm("true,"@);
    lemma_minified_calm("\"Let's go!\""@);
    lemma_field(head, "\"accept\""@, "true,"@);
    lemma_field(more, "\"message\""@, "\"Let's go!\""@);
    lemma_close(more + field("\"message\""@, "\"Let's go!\""@));
    reveal_strlit("\"accept\"");
    reveal_strlit("\"message\"");
    reveal_strlit(":");
    reveal_strlit("true,");
    reveal_strlit("\"Let's go!\"");
    reveal_strlit("}");
    reveal_strlit("\"accept\":true,\"message\":\"Let's go!\"}");
    assert(minified(start_text(version, secret)) =~= start_reply(
        minified(version),
        minified(secret),
    ));
}

/// The reply to a turn request is laid out so that it is minified to its
/// fields in a row, the version and the secret minified with it.
pub proof fn law_turn_text(version: Seq<char>, secret: Seq<char>, row: int, col: int)
    ensures
        minified(turn_text(version, secret, row, col)) == turn_reply(
            minified(version),
            minified(secret),
            row,
            col,
        ),
{
    lemma_words();
    lemma_head_text(version, secret);
    let head = head_text(version, secret);
    lemma_move_text(row, col);
    lemma_field(head, "\"move\""@, move_text(row, col));
    lemma_close(head + field("\"move\""@, move_text(row, col)));
    reveal_strlit("\"move\"");
    reveal_strlit(":");
    reveal_strlit("}");
    reveal_strlit("\"move\":");
    assert(minified(turn_text(version, secret, row, col)) =~= turn_reply(
        minified(version),
        minified(secret),
        row,
        col,
    ));
}

/// The replies to finish and error requests are laid out so that they are
/// minified to their fields in a row.
pub proof fn law_fixed_texts()
    ensures
        minified(finish_text()) == finish_reply(),
        minified(error_text()) == error_reply(),
{
    lemma_words();
    lemma_minified_calm("{"@);
    lemma_minified_calm("\"ok\","@);
    lemma_minified_calm("\"error\","@);
    lemma_minified_calm("\"Game finished!\""@);
    lemma_minified_calm("\"Invalid request!\""@);
    let a1 = "{"@;
    let f2 = a1 + field("\"status\""@, "\"ok\","@);
    let e2 = a1 + field("\"status\""@, "\"error\","@);
    lemma_field(a1, "\"status\""@, "\"ok\","@);
    lemma_field(a1, "\"status\""@, "\"error\","@);
    lemma_field(f2, "\"message\""@, "\"Game finished!\""@);
    lemma_field(e2, "\"message\""@, "\"Invalid request!\""@);
    lemma_close(f2 + field("\"message\""@, "\"Game finished!\""@));
    lemma_close(e2 + field("\"message\""@, "\"Invalid request!\""@));
    reveal_strlit("{");
    reveal_strlit("\"status\"");
    reveal_strlit("\"message\"");
    reveal_strlit(":");
    reveal_strlit("}");
    reveal_strlit("\"ok\",");
    reveal_strlit("\"error\",");
    reveal_strlit("\"Game finished!\"");
    reveal_strlit("\"Invalid request!\"");
    reveal_strlit("{\"status\":\"ok\",\"message\":\"Game finished!\"}");
    reveal_strlit("{\"status\":\"error\",\"message\":\"Invalid request!\"}");
    assert(minified(finish_text()) =~= finish_reply());
    assert(minified(error_text()) =~= error_reply());
}

/// Appends one line of a reply as it is laid out.
fn push_field(text: &mut String, key: &str, value: &str)
    ensures
        final(text)@ == old(text)@ + field(key@, value@),
{
    text.append("\n        ");
    text.append(key);
    text.append(": ");
    text.append(value);
    assert(text@ =~= old(text)@ + field(key@, value@));
}

/// Appends a text between quotation marks, with a comma behind.
fn quote(text: &str) -> (result: String)
    ensures
        result@ == quoted(text@),
{
    let mut result = String::from_str("\"");
    result.append(text);
    result.append("\",");
    result
}

/// The four lines with which the replies to status, start and turn begin.
fn head(config: &AppData) -> (text: String)
    ensures
        text@ == head_text(config.version@, config.secret@),
{
    let mut text = String::from_str("{");
    push_field(&mut text, "\"status\"", "\"ok\",");
    push_field(&mut text, "\"game\"", "\"tic-tac-toe\",");
    push_field(&mut text, "\"version\"", quote(config.version.as_str()).as_str());
    push_field(&mut text, "\"secret\"", quote(config.secret.as_str()).as_str());
    text
}

/// The reply to a status request: the game, the version and the secret of
/// the server in one line, the version and the secret minified as the whole
/// reply is. The body of the request is not read.
pub fn handle_status(_body: String, config: &AppData) -> (response: String)
    ensures
        response@ == status_reply(minified(config.version@), minified(config.secret@)),
{
    let mut text = head(config);
    push_field(&mut text, "\"message\"", "\"I'm ready!\"");
    text.append("\n    }");
    proof {
        law_status_text(config.version@, config.secret@);
    }
    minify(text.as_str())
}

/// The reply to a finish request. Neither the body nor the configuration is
/// read.
pub fn handle_finish(_body: String, _config: &AppData) -> (response: String)
    ensures
        response@ == finish_reply(),
{
    let mut text = String::from_str("{");
    push_field(&mut text, "\"status\"", "\"ok\",");
    push_field(&mut text, "\"message\"", "\"Game finished!\"");
    text.append("\n    }");
    proof {
        law_fixed_texts();
    }
    minify(text.as_str())
}

/// The reply to an error request. Neither the body nor the configuration is
/// read.
pub fn handle_error(_body: String, _config: &AppData) -> (response: String)
    ensures
        response@ == error_reply(),
{
    let mut text = String::from_str("{");
    push_field(&mut text, "\"status\"", "\"error\",");
    push_field(&mut text, "\"message\"", "\"Invalid request!\"");
    text.append("\n    }");
    proof {
        law_fixed_texts();
    }
    minify(text.as_str())
}

/// The reply to a start request: the game, the version and the secret of the
/// server, and that the game is accepted, in one line; the version and the
/// secret minified as the whole reply is. The body of the request is not
/// read.
pub fn handle_start(_body: String, config: &AppData) -> (response: String)
    ensures
        response@ == start_reply(minified(config.version@), minified(config.secret@)),
{
    let mut text = head(config);
    push_field(&mut text, "\"accept\"", "true,");
    push_field(&mut text, "\"message\"", "\"Let's go!\"");
    text.append("\n    }");
    proof {
        law_start_text(config.version@, config.secret@);
    }
    minify(text.as_str())
}

/// The reply to a turn request, and the graph of the search where one was
/// asked for.
#[derive(Clone, Debug)]
pub struct TurnOutcome {
    pub response: String,
    pub graph: Option<String>,
}

/// The mark of a figure: 1 for `X`, 2 for any other.
pub open spec fn figure_mark(figure: char) -> i16 {
    if figure == 'X' {
        1
    } else {
        2
    }
}

/// The cell of the move in a turn: the first cell in turn 0, else the choice
/// of the side to move.
pub open spec fn turn_cell(g: Seq<i16>, figure: i16, turn_number: u8) -> int {
    if turn_number == 0 {
        0
    } else {
        choose|k: int| is_choice(g, figure, k)
    }
}

/// The score that goes with the move in a turn: in turn 0 the score that any
/// move beats, else the score of the move.
pub open spec fn turn_score(g: Seq<i16>, figure: i16, turn_number: u8) -> int {
    if turn_number == 0 {
        worst_score(figure)
    } else {
        move_score(g, figure, turn_cell(g, figure, turn_number))
    }
}

/// The graph of the search of a turn: the edges of the search, none in turn
/// 0, and then the edge of the move that was taken, marked red.
pub open spec fn graph_text(g: Seq<i16>, figure: i16, turn_number: u8) -> Seq<char> {
    "digraph G {\n"@ + if turn_number == 0 {
        Seq::<char>::empty()
    } else {
        moves_text(g, figure, 9)
    } + "\""@ + board_text(g) + "\" -> \""@ + board_text(
        g.update(turn_cell(g, figure, turn_number), figure),
    ) + "\" [lable=\""@ + decimal(turn_score(g, figure, turn_number)) + "\" color=\"red\"]\n"@
        + "}\n"@
}

/// The reply to a turn request: the game, the version and the secret of the
/// server, and the move of the side to move. The graph of the search comes
/// with it where the server runs with `debug`.
///
/// A move is owed in turn 0 and on any board with a free cell.
pub fn handle_turn(data: &TurnData, config: &AppData) -> (outcome: TurnOutcome)
    requires
        data.turn_number == 0 || has_free_cell(grid(data.board)),
    ensures
        data.turn_number != 0 ==> is_choice(
            grid(data.board),
            figure_mark(data.figure),
            turn_cell(grid(data.board), figure_mark(data.figure), data.turn_number),
        ),
        outcome.response@ == turn_reply(
            minified(config.version@),
            minified(config.secret@),
            turn_cell(grid(data.board), figure_mark(data.figure), data.turn_number) / 3,
            turn_cell(grid(data.board), figure_mark(data.figure), data.turn_number) % 3,
        ),
        shown(outcome.graph) == if config.debug {
            Some(graph_text(grid(data.board), figure_mark(data.figure), data.turn_number))
        } else {
            None
        },
{
    let ghost g = grid(data.board);
    let figure: i16 = if data.figure == 'X' {
        1
    } else {
        2
    };
    let mut file: Option<String> = if config.debug {
        Some(String::new())
    } else {
        None
    };
    if let Some(f) = &mut file {
        f.append("digraph G {\n");
    }
    let ghost opened = shown(file);
    proof {
        lemma_marks_range(g);
    }
    let found = choose_move(&mut file, data.board, figure, data.turn_number);
    let best = found.unwrap();
    let ghost cell = turn_cell(g, figure, data.turn_number);
    proof {
        if data.turn_number != 0 {
            lemma_choice_unique(g, figure, cell_of(best.best_move), cell);
        }
        assert(cell_of(best.best_move) == cell);
        assert(best.best_score == turn_score(g, figure, data.turn_number));
    }
    let ghost body = shown(file);
    if let Some(f) = &mut file {
        let from = board_to_string(data.board);
        let to = board_to_string_move(data.board, best.best_move, figure);
        f.append("\"");
        f.append(from.as_str());
        f.append("\" -> \"");
        f.append(to.as_str());
        f.append("\" [lable=\"");
        push_decimal(f, best.best_score);
        f.append("\" color=\"red\"]\n");
        f.append("}\n");
    }
    proof {
        if config.debug {
            let searched = if data.turn_number == 0 {
                Seq::<char>::empty()
            } else {
                moves_text(g, figure, 9)
            };
            assert(opened == Some(Seq::<char>::empty() + "digraph G {\n"@));
            assert(body == Some(opened.unwrap() + searched)) by {
                lemma_with_text_twice(opened, searched, Seq::<char>::empty());
            }
            assert(shown(file).unwrap() =~= graph_text(g, figure, data.turn_number));
        }
    }
    let mut place = String::from_str("[");
    push_decimal(&mut place, best.best_move[0] as i16);
    place.append(", ");
    push_decimal(&mut place, best.best_move[1] as i16);
    place.append("]");
    assert(place@ =~= move_text(cell / 3, cell % 3));
    let mut text = head(config);
    push_field(&mut text, "\"move\"", place.as_str());
    text.append("\n    }");
    proof {
        law_turn_text(config.version@, config.secret@, cell / 3, cell % 3);
    }
    TurnOutcome { response: minify(text.as_str()), graph: file }
}

} // verus!

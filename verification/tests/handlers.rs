use tictactoe_bot::handlers::{
    handle_error, handle_finish, handle_start, handle_status, handle_turn, AppData, Method,
    QueryData, TurnData,
};

fn turn_data(body: &str) -> TurnData {
    let value: serde_json::Value = serde_json::from_str(body).unwrap();
    let turn_number: u8 = value["turn_number"].as_u64().unwrap() as u8;
    let figure: char = value["figure"].as_str().unwrap().chars().next().unwrap();
    let mut board: [[i16; 3]; 3] = [[0; 3]; 3];
    for row in 0..3usize {
        for col in 0..3usize {
            board[row][col] = value["board"][row][col].as_i64().unwrap() as i16;
        }
    }
    TurnData { turn_number, figure, board }
}

fn config_with(secret: &str, version: &str, debug: bool) -> AppData {
    AppData {
        secret: secret.into(),
        port: 8080,
        version: version.into(),
        debug,
        log: "error".into(),
    }
}

#[test]
fn test_handle_status() {
    let config = AppData {
        secret: "secret".into(),
        port: 8080,
        version: "0.1.0".into(),
        debug: false,
        log: "error".into(),
    };

    // Handle status doesn't care about the request body
    let response = handle_status("".into(), &config);

    assert_eq!(
        response,
        format!(
            r#"{{"status":"ok","game":"tic-tac-toe","version":"{}","secret":"{}","message":"I'm ready!"}}"#,
            config.version, config.secret
        )
    );
}

#[test]
fn test_handle_finish() {
    let config = AppData {
        secret: "secret".into(),
        port: 8080,
        version: "0.1.0".into(),
        debug: false,
        log: "error".into(),
    };

    // Handle finish doesn't care about the request body
    let response = handle_finish("".into(), &config);

    assert_eq!(
        response,
        r#"{"status":"ok","message":"Game finished!"}"#,
    );
}

#[test]
fn test_handle_start() {
    let config = AppData {
        secret: "secret".into(),
        port: 8080,
        version: "0.1.0".into(),
        debug: false,
        log: "error".into(),
    };

    // Handle start doesn't care about the request body
    let response = handle_start("".into(), &config);

    assert_eq!(
        response,
        format!(
            r#"{{"status":"ok","game":"tic-tac-toe","version":"{}","secret":"{}","accept":true,"message":"Let's go!"}}"#,
            config.version, config.secret
        )
    );
}

#[test]
fn test_handle_error() {
    let config = AppData {
        secret: "secret".into(),
        port: 8080,
        version: "0.1.0".into(),
        debug: false,
        log: "error".into(),
    };
    let body = r#"{"status":"error"}"#;

    let response = handle_error(body.into(), &config);

    assert_eq!(
        response,
        r#"{"status":"error","message":"Invalid request!"}"#,
    );
}

#[test]
fn test_handle_turn_first_move() {
    let config = AppData {
        secret: "secret".into(),
        port: 8080,
        version: "0.1.0".into(),
        debug: false,
        log: "error".into(),
    };
    let body = r#"{"game_id":723,"turn_number":0,"figure":"X","board":[[0,0,0],[0,0,0],[0,0,0]],"last_turns":[]}"#;

    let response = handle_turn(&turn_data(body), &config).response;

    assert_eq!(
        response,
        format!(
            r#"{{"status":"ok","game":"tic-tac-toe","version":"{}","secret":"{}","move":[0, 0]}}"#,
            config.version, config.secret
        )
    );
}

#[test]
fn test_handle_turn_second_move() {
    let config = AppData {
        secret: "secret".into(),
        port: 8080,
        version: "0.1.0".into(),
        debug: false,
        log: "error".into(),
    };
    let body = r#"{"game_id":723,"turn_number":1,"figure":"O","board":[[1,0,0],[0,0,0],[0,0,0]],"last_turns":[{"turn_number":1,"player_id":1,"ego":true,"figure":"X","move":[0,0]}]}"#;

    let response = handle_turn(&turn_data(body), &config).response;

    assert_eq!(
        response,
        format!(
            r#"{{"status":"ok","game":"tic-tac-toe","version":"{}","secret":"{}","move":[1, 1]}}"#,
            config.version, config.secret
        )
    );
}

#[test]
fn status_minifies_what_the_configuration_holds() {
    let config = config_with("a: b\n    c", "1:  2", false);
    let response = handle_status(String::new(), &config);
    assert_eq!(
        response,
        r#"{"status":"ok","game":"tic-tac-toe","version":"1: 2","secret":"a:bc","message":"I'm ready!"}"#
    );
}

#[test]
fn start_minifies_what_the_configuration_holds() {
    let config = config_with("  ", "  ", false);
    let response = handle_start(String::new(), &config);
    assert_eq!(
        response,
        r#"{"status":"ok","game":"tic-tac-toe","version":"  ","secret":"  ","accept":true,"message":"Let's go!"}"#
    );
}

#[test]
fn replies_ignore_the_body() {
    let config = config_with("s", "v", true);
    assert_eq!(
        handle_status("anything".into(), &config),
        handle_status(String::new(), &config)
    );
    assert_eq!(
        handle_finish("anything".into(), &config),
        r#"{"status":"ok","message":"Game finished!"}"#
    );
    assert_eq!(
        handle_error(String::new(), &config),
        r#"{"status":"error","message":"Invalid request!"}"#
    );
}

#[test]
fn route_knows_the_five_methods() {
    let route = |name: &str| QueryData { method: name.into() }.route();
    assert_eq!(route("status"), Some(Method::Status));
    assert_eq!(route("finish"), Some(Method::Finish));
    assert_eq!(route("error"), Some(Method::Error));
    assert_eq!(route("start"), Some(Method::Start));
    assert_eq!(route("turn"), Some(Method::Turn));
}

#[test]
fn route_knows_no_other_method() {
    let route = |name: &str| QueryData { method: name.into() }.route();
    assert_eq!(route(""), None);
    assert_eq!(route("Status"), None);
    assert_eq!(route("turns"), None);
    assert_eq!(route(" turn"), None);
}

#[test]
fn turn_without_debug_has_no_graph() {
    let config = config_with("s", "v", false);
    let data = TurnData { turn_number: 7, figure: 'O', board: [[1, 2, 1], [2, 2, 1], [0, 1, 0]] };
    let outcome = handle_turn(&data, &config);
    assert_eq!(outcome.graph, None);
    assert_eq!(
        outcome.response,
        r#"{"status":"ok","game":"tic-tac-toe","version":"v","secret":"s","move":[2, 2]}"#
    );
}

#[test]
fn turn_with_debug_draws_the_search() {
    let config = config_with("s", "v", true);
    let data = TurnData { turn_number: 7, figure: 'O', board: [[1, 2, 1], [2, 2, 1], [0, 1, 0]] };
    let outcome = handle_turn(&data, &config);
    let expected = concat_lines(&[
        "digraph G {\n",
        "\"XOX\nOOX\nOX_\n\" -> \"XOX\nOOX\nOXX\n\" [label=\"91\"]\n",
        "\"XOX\nOOX\n_X_\n\" -> \"XOX\nOOX\nOX_\n\" [label=\"91\"]\n",
        "\"XOX\nOOX\n_XO\n\" -> \"XOX\nOOX\nXXO\n\" [label=\"-9\"]\n",
        "\"XOX\nOOX\n_X_\n\" -> \"XOX\nOOX\n_XO\n\" [label=\"-9\"]\n",
        "\"XOX\nOOX\n_X_\n\" -> \"XOX\nOOX\n_XO\n\" [lable=\"-9\" color=\"red\"]\n",
        "}\n",
    ]);
    assert_eq!(outcome.graph, Some(expected));
    assert_eq!(
        outcome.response,
        r#"{"status":"ok","game":"tic-tac-toe","version":"v","secret":"s","move":[2, 2]}"#
    );
}

fn concat_lines(lines: &[&str]) -> String {
    let mut text = String::new();
    for line in lines {
        text.push_str(line);
    }
    text
}

#[test]
fn first_turn_with_debug_draws_only_the_move() {
    let config = config_with("s", "v", true);
    let data = TurnData { turn_number: 0, figure: 'X', board: [[0, 0, 0], [0, 0, 0], [0, 0, 0]] };
    let outcome = handle_turn(&data, &config);
    assert_eq!(
        outcome.graph,
        Some(
            "digraph G {\n\"___\n___\n___\n\" -> \"X__\n___\n___\n\" [lable=\"-32768\" color=\"red\"]\n}\n"
                .to_string()
        )
    );
}

#[test]
fn first_turn_of_the_second_side_carries_the_greatest_score() {
    let config = config_with("s", "v", true);
    let data = TurnData { turn_number: 0, figure: 'O', board: [[0, 0, 0], [0, 0, 0], [0, 0, 0]] };
    let outcome = handle_turn(&data, &config);
    assert_eq!(
        outcome.graph,
        Some(
            "digraph G {\n\"___\n___\n___\n\" -> \"O__\n___\n___\n\" [lable=\"32767\" color=\"red\"]\n}\n"
                .to_string()
        )
    );
}

#[test]
fn any_figure_but_x_moves_as_o() {
    let config = config_with("s", "v", false);
    let board: [[i16; 3]; 3] = [[1, 1, 0], [0, 2, 0], [0, 0, 0]];
    let as_o = handle_turn(&TurnData { turn_number: 3, figure: 'O', board }, &config);
    let as_other = handle_turn(&TurnData { turn_number: 3, figure: 'x', board }, &config);
    assert_eq!(as_o.response, as_other.response);
    assert_eq!(
        as_o.response,
        r#"{"status":"ok","game":"tic-tac-toe","version":"v","secret":"s","move":[0, 2]}"#
    );
}

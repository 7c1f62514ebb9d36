//! Move selection for tic-tac-toe by exhaustive game-tree search, together
//! with the text of the replies that a game server sends for it.

pub mod board;
pub mod handlers;
pub mod laws;
pub mod minify;
pub mod search;
pub mod text;

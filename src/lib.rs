//! Rules engine for a two-player Connect Four match on a 7 x 6 board.
//!
//! `board` holds the bit-packed representation and the four-in-a-row test;
//! `game` holds the turn controller that validates and applies moves.
pub mod board;
pub mod game;

pub use board::{did_win, TOP_MASK};
pub use game::{
    challenge, did_player_win, initialize, make_move, ConnectFour, ErrorCode, Game, PlayerKey,
};

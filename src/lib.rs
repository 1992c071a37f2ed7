//! A tic-tac-toe board and an alpha-beta minimax search over it, with the
//! search proved equal to plain minimax within its window.
pub mod board;
pub mod search;
pub mod game;

//! Connect-4 on an 8x8 bitboard, with the search tree of a Monte Carlo
//! tree search over it.

pub mod bitboard;
pub mod bits;
pub mod board;
pub mod command;
pub mod game_move;
pub mod model;
pub mod node;
pub mod outcome;
pub mod player;
pub mod protocol;
pub mod random;
pub mod score;
pub mod search;
pub mod session;
pub mod tree;

//! A Connect Four engine: the game as a mathematical position, two
//! encodings of the board that are proved to stand for it, and a game-tree
//! search that is proved against the position alone and so runs on either.

pub mod bitboard;
pub mod bits;
pub mod board;
pub mod perft;
pub mod piece_list;
pub mod position;
pub mod search;

//! A verified chess position library: FEN import/export, a per-piece
//! pseudo-legal move generator, a check detector, and a move
//! validation/application routine over a 64-square board.

pub mod board;
pub mod coordinate;
pub mod errors;
pub mod fen;
pub mod move_logic;
pub mod pieces;

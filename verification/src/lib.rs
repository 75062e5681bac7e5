//! Chess on 64-bit sets of squares: the position, the moves each piece
//! can make, which of them are legal, and a search to a fixed depth for
//! the best score a side can force.
//!
//! - [`utils`], [`bitboard`], [`coords`], [`piece`]: bits, sets of
//!   squares, squares, pieces and sides.
//! - [`patterns`]: where each kind of piece can go from each square,
//!   worked out once and kept in [`patterns::Tables`].
//! - [`board`], [`moves`]: the position and what a move makes of it;
//!   attacks, check, and reading a described move as a legal move.
//! - [`gen`]: the moves of the side to move, before the safety of its
//!   king is looked at.
//! - [`eval`], [`search`]: scoring a position, and looking ahead.
//! - [`notation`], [`fen`], [`display`], [`text`], [`command`], [`args`],
//!   [`game`], [`move_log`]: moves and positions as text, and a game in
//!   progress.
//! - [`laws`]: what holds of every position and every move.

pub mod args;
pub mod bitboard;
pub mod board;
pub mod command;
pub mod coords;
pub mod display;
pub mod eval;
pub mod fen;
pub mod game;
pub mod gen;
pub mod laws;
pub mod move_log;
pub mod moves;
pub mod notation;
pub mod patterns;
pub mod piece;
pub mod search;
pub mod text;
pub mod utils;

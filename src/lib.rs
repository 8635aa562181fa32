//! Decision engine for 8×8 Reversi with a normal and a misère ("anti") mode
//! and an optional immovable black-hole cell.

pub mod cell;
pub mod point;
pub mod board;
pub mod eval;
pub mod game;
pub mod opening;
pub mod mcts;
pub mod minimax;
pub mod random;
pub mod text;
pub mod tree;

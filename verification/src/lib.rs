//! A minimal chess-rules engine paired with a randomized, budget-capped
//! game-tree move selector.
//!
//! The engine models an 8x8 board of `(Color, Piece)` occupants, generates
//! geometric destinations per piece kind, filters them by occupancy and
//! capture rules, and classifies the game status by scanning for kings.
//! The selector samples a shuffled, size-capped subset of legal moves,
//! expands a depth-bounded tree of continuations, and recommends the move
//! with the best average material outcome, the average being kept as an
//! exact fraction (total differential over node count).

pub mod pieces;
pub mod square;
pub mod moves;
pub mod board;
pub mod tree;

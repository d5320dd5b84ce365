//! Chess move generation on a geometric board: files 0-7 (a-h), ranks 0-7 (1-8).
//!
//! Castling, en passant, promotion, check, checkmate and stalemate are enforced.
//! Every executable function is verified against the rules stated in `rules`.
use vstd::prelude::*;

pub mod types;
pub mod rules;
pub mod board;
pub mod attack;
pub mod movegen;
pub mod generated;
pub mod fen;
pub mod distinct;
pub mod consistency;
pub mod laws;
pub mod completeness;
pub mod threats;
pub mod soundness;
pub mod placement;

pub use types::{Color, Piece, Sq, Move, sort_moves};
pub use board::{Board, Squares};

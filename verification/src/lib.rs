//! Pseudo-legal chess move generation over bitboards, with magic-multiplier
//! lookup tables for the sliding pieces.
//!
//! [`bits::BitBoard`] is a 64-bit set over board squares. [`tables::Cache`]
//! holds the static knight and king attack tables, [`magic::MagicCache`] the
//! occupancy masks, hashed attack tables and square-pair rays for the sliding
//! pieces. [`state::ChessState`] is the position;
//! [`state::ChessState::legal_moves`] enumerates its pseudo-legal moves and
//! [`state::ChessState::apply_move`] plays one.

pub mod bits;
pub mod magic;
pub mod moves;
pub mod pieces;
pub mod state;
pub mod tables;

pub use bits::BitBoard;
pub use magic::MagicCache;
pub use pieces::{Color, Piece};
pub use state::{ChessState, Move};
pub use tables::Cache;

//! Board representation: squares, pieces, bitboards, moves and positions.
pub mod types;
pub mod bitboard;
pub mod moves;
pub mod zobrist;
pub mod attacks;
pub mod position;
pub mod fen;
pub mod validate;
pub mod fen_roundtrip;

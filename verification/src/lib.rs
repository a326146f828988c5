//! A bitboard chess engine library: board representation, move encoding,
//! attack generation, legal move generation, evaluation, transposition
//! table and search, each with its contract proved by Verus.
pub mod board;
pub mod strutil;
pub mod movegen;
pub mod eval;
pub mod tt;
pub mod uci;
pub mod search;
pub mod crosscheck;

//! A chess engine core: bitboard position representation, legal move
//! generation through make/unmake, perft, position hashing and a negamax
//! alpha-beta searcher with draw detection and cooperative cancellation.
pub mod types;
pub mod bitboard;
pub mod attacks;
pub mod board;
pub mod fen;
pub mod movegen;
pub mod eval;
pub mod time_control;
pub mod engine;
pub mod search;
pub mod classical;
pub mod perft;
pub mod zobrist;
pub mod uci;
pub mod engines;

//! The core of a chess engine: a bitboard position with incremental make/unmake and
//! Zobrist hashing, attack sets, a generator of exactly the legal moves, mate-aware scores,
//! a transposition table and an alpha-beta search.

pub mod bitboard;
pub mod board;
pub mod castling_rights;
pub mod chess_move;
pub mod color;
pub mod display;
pub mod evaluation;
pub mod fen;
pub mod geometry;
pub mod laws;
pub mod movgen;
pub mod pawn_move;
pub mod piece;
pub mod piece_square_table;
pub mod position;
pub mod rules;
pub mod search;
pub mod searcher;
pub mod square;
pub mod stop;
pub mod tables;
pub mod transposition_table;
pub mod uci_move;
pub mod zobrist;

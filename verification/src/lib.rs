//! Bitboard-based move-generation core of a chess engine.
//!
//! A `Board` holds one 64-bit piece set per side and piece kind; a
//! `MoveTables` value holds the precomputed attack geometry (leaper tables
//! and the eight directional ray tables); the move generator combines the
//! two into the pseudolegal move list for the side to move.

pub mod bitboard;
pub mod board;
pub mod game;
pub mod move_tables;
pub mod moves;
pub mod notation;

//! Move search for a six-by-twelve tile-swap puzzle.
//!
//! - `board::transforms`: the physics of a swap (combo scoring, pufferfish and jellyfish,
//!   cascade resolution by full rescans, gravity) and move generation, each against a
//!   spec function of the board.
//! - `board::transforms_beta`: cascade resolution that looks only around the cells that
//!   changed, proved equal to the full rescan when those cells touch every match.
//! - `board::table` and `board::searcher`: the transposition table and the bounded-depth
//!   search over swaps, with the decayed best reply, and the ranking of first moves.
//! - `board::redundant_move_filter`: the per-branch history that skips swaps undoing an
//!   earlier non-scoring swap.
//! - `board::defs`, `board::generator`, `board::helpers`, `board::structure`: pieces, the
//!   board notation, constructors and coordinates.
//! - `image`, `auth`: recognising pieces on screen, and deriving a license key.

pub mod auth;
pub mod board;
pub mod image;
pub mod safe_getters;

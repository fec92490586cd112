//! Movement, reachability and coordinate mapping for a turn-based grid game.
//!
//! A single unit stands on a tile map, spends a per-turn movement budget to
//! walk over open tiles, and the map highlights where it may still go.
pub mod geometry;
pub mod grid;
pub mod reach;
pub mod player;

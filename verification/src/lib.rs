//! A verified Minesweeper game engine.
//!
//! The engine covers board generation with a guaranteed-safe opening
//! region, flood-fill revealing of zero-neighbor regions, and win/loss
//! detection. Interactive input/output lives outside the library.

pub mod board;
pub mod error;
pub mod game;
pub mod geometry;

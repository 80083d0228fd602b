//! A grid-based snake game engine.
//!
//! The playing field is a rectangle of tiles whose border ring is walled.
//! The snake is stored inside the grid itself: every occupied cell is a
//! `Snake` tile carrying optional links towards the neighbouring segments,
//! so the body forms a chain that can be walked from tail to head. The
//! engine owns the per-tick transition: steering, movement, wall and self
//! collision, food consumption, growth, scoring and the high-score latch.

pub mod game;
pub mod grid;
pub mod laws;
pub mod lemmas;
pub mod model;
pub mod tiles;

//! Game logic of a gerrymandering puzzle: a square grid of blue and red
//! voters is split by the player into districts, and the level is won when
//! the side named as the goal carries the majority of the districts.

pub mod board;
pub mod capacity;
mod chance;
pub mod grid;
pub mod game;
pub mod outline;
pub mod laws;
pub mod display;

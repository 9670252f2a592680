//! The board: where the mines lie, what the player has done to each cell,
//! and what the player sees of it.

pub mod grid;
pub mod options;
pub mod state;
pub mod flood;
pub mod view;
pub mod random;
pub mod deal;
pub mod pending;

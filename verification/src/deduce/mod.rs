//! Deduction: which cells the visible clues force to be mined or safe.

pub mod subsets;
pub mod encode;
pub mod constraints;
pub mod backend;
pub mod driver;
pub mod laws;
pub mod size;

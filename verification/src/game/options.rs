//! The size of a board and how its mines are drawn.

use vstd::prelude::*;

verus! {

/// The size of the board and the number of its mines.
#[derive(Debug, Clone, Copy, PartialEq, Hash)]
pub enum Difficulty {
    Easy,
    Medium,
    Hard,
    Custom { width: usize, height: usize, mines: usize },
}

impl Difficulty {
    /// The number of columns.
    pub open spec fn spec_width(self) -> usize {
        match self {
            Difficulty::Easy => 9,
            Difficulty::Medium => 16,
            Difficulty::Hard => 30,
            Difficulty::Custom { width, height, mines } => width,
        }
    }

    /// The number of rows.
    pub open spec fn spec_height(self) -> usize {
        match self {
            Difficulty::Easy => 9,
            Difficulty::Medium => 16,
            Difficulty::Hard => 16,
            Difficulty::Custom { width, height, mines } => height,
        }
    }

    /// The number of mines.
    pub open spec fn spec_mines(self) -> usize {
        match self {
            Difficulty::Easy => 10,
            Difficulty::Medium => 40,
            Difficulty::Hard => 99,
            Difficulty::Custom { width, height, mines } => mines,
        }
    }

    /// The number of columns: 9, 16 and 30 for the three presets.
    pub fn width(&self) -> (w: usize)
        ensures
            w == self.spec_width(),
    {
        match self {
            Difficulty::Easy => 9,
            Difficulty::Medium => 16,
            Difficulty::Hard => 30,
            Difficulty::Custom { width, height: _, mines: _ } => *width,
        }
    }

    /// The number of rows: 9, 16 and 16 for the three presets.
    pub fn height(&self) -> (h: usize)
        ensures
            h == self.spec_height(),
    {
        match self {
            Difficulty::Easy => 9,
            Difficulty::Medium => 16,
            Difficulty::Hard => 16,
            Difficulty::Custom { width: _, height, mines: _ } => *height,
        }
    }

    /// The number of mines: 10, 40 and 99 for the three presets.
    pub fn mines(&self) -> (n: usize)
        ensures
            n == self.spec_mines(),
    {
        match self {
            Difficulty::Easy => 10,
            Difficulty::Medium => 40,
            Difficulty::Hard => 99,
            Difficulty::Custom { width: _, height: _, mines } => *mines,
        }
    }
}

/// How a board is made: its size, a cell that must hold no mine, and the seed
/// of the random choice.
#[derive(Debug, Clone, Copy, PartialEq, Hash)]
pub struct GameOptions {
    pub difficulty: Difficulty,
    pub safe_pos: Option<(usize, usize)>,
    pub seed: Option<u64>,
}

impl Default for GameOptions {
    fn default() -> (options: GameOptions)
        ensures
            options == (GameOptions {
                difficulty: Difficulty::Easy,
                safe_pos: None,
                seed: None,
            }),
    {
        GameOptions::easy()
    }
}

impl GameOptions {
    /// Nine by nine cells with ten mines, and a random seed.
    pub fn easy() -> (options: GameOptions)
        ensures
            options == (GameOptions {
                difficulty: Difficulty::Easy,
                safe_pos: None,
                seed: None,
            }),
    {
        GameOptions { difficulty: Difficulty::Easy, safe_pos: None, seed: None }
    }

    /// Sixteen by sixteen cells with forty mines, and a random seed.
    pub fn medium() -> (options: GameOptions)
        ensures
            options == (GameOptions {
                difficulty: Difficulty::Medium,
                safe_pos: None,
                seed: None,
            }),
    {
        GameOptions { difficulty: Difficulty::Medium, safe_pos: None, seed: None }
    }

    /// Thirty by sixteen cells with ninety-nine mines, and a random seed.
    pub fn hard() -> (options: GameOptions)
        ensures
            options == (GameOptions {
                difficulty: Difficulty::Hard,
                safe_pos: None,
                seed: None,
            }),
    {
        GameOptions { difficulty: Difficulty::Hard, safe_pos: None, seed: None }
    }
}

} // verus!

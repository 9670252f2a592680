//! A Minesweeper board with a deduction engine: the cells that the visible
//! clues force to be mined or safe are found by propositional satisfiability.

pub mod deduce;
pub mod game;
pub mod sat;

pub use sat::cnf::{Clause, Cnf, Literal, Polarity, Variable};
pub use sat::formula::Formula;
pub use sat::assignment::Assignment;
pub use sat::solver::Model;
pub use game::options::{Difficulty, GameOptions};
pub use game::state::{CellState, GameResult, GameState};
pub use game::view::{CellView, GameView, Gesture, RedrawCells};
pub use deduce::backend::SatSolver;
pub use deduce::driver::SolveResult;
pub use game::pending::MaybeUninitGameView;

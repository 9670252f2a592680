//! The state of a game: where the mines lie and what the player has done to
//! each cell.

use vstd::prelude::*;
use crate::game::grid::{
    cells_in_rows, count_where, grid_cells, in_grid, lemma_count_push, lemma_grid_cells,
    lemma_neighbours, nearby, neighbours,
};
use crate::game::options::GameOptions;

verus! {

/// What the player has done to a cell.
#[derive(Debug, Clone, Copy, PartialEq, Eq, Hash, Structural)]
pub enum CellState {
    Unopened,
    Flagged,
    Questioned,
    Opened,
}

/// How the game stands.
#[derive(Debug, Clone, Copy, PartialEq, Eq, Hash, Structural)]
pub enum GameResult {
    Win,
    Lose,
    Playing,
}

/// The mines of a board and the state of each of its cells, both by row and
/// then by column.
#[derive(Debug, Clone, PartialEq, Hash)]
pub struct GameState {
    pub options: GameOptions,
    pub mines: Vec<Vec<bool>>,
    cells: Vec<Vec<CellState>>,
}

impl GameState {
    /// The board has a row and a column at least, its rows are equally long,
    /// each cell has a state, and the cells can be counted.
    pub closed spec fn wf(&self) -> bool {
        &&& self.mines@.len() >= 1
        &&& self.mines@[0]@.len() >= 1
        &&& self.cells@.len() == self.mines@.len()
        &&& forall|y: int|
            0 <= y < self.mines@.len() ==> (#[trigger] self.mines@[y])@.len()
                == self.mines@[0]@.len()
        &&& forall|y: int|
            0 <= y < self.cells@.len() ==> (#[trigger] self.cells@[y])@.len()
                == self.mines@[0]@.len()
        &&& self.mines@.len() * self.mines@[0]@.len() <= usize::MAX
    }

    /// The number of columns.
    pub closed spec fn spec_width(&self) -> nat {
        self.mines@[0]@.len()
    }

    /// The number of rows.
    pub closed spec fn spec_height(&self) -> nat {
        self.mines@.len()
    }

    /// Whether the cell `(x, y)` holds a mine.
    pub closed spec fn spec_is_mine(&self, x: int, y: int) -> bool {
        self.mines@[y]@[x]
    }

    /// What the player has done to the cell `(x, y)`.
    pub closed spec fn spec_cell(&self, x: int, y: int) -> CellState {
        self.cells@[y]@[x]
    }

    /// Whether `(x, y)` is a cell of the board.
    pub open spec fn on_board(&self, x: int, y: int) -> bool {
        in_grid(self.spec_width() as int, self.spec_height() as int, x, y)
    }

    /// The cells that hold a mine.
    pub open spec fn mined(&self) -> spec_fn((usize, usize)) -> bool {
        |c: (usize, usize)| self.spec_is_mine(c.0 as int, c.1 as int)
    }

    /// The cells that the player has flagged.
    pub open spec fn flagged(&self) -> spec_fn((usize, usize)) -> bool {
        |c: (usize, usize)| self.spec_cell(c.0 as int, c.1 as int) == CellState::Flagged
    }

    /// The cells that the player has not touched.
    pub open spec fn unopened(&self) -> spec_fn((usize, usize)) -> bool {
        |c: (usize, usize)| self.spec_cell(c.0 as int, c.1 as int) == CellState::Unopened
    }

    /// The cells of the board, row by row.
    pub open spec fn all_cells(&self) -> Seq<(usize, usize)> {
        grid_cells(self.spec_width(), self.spec_height())
    }

    /// The cells that touch `(x, y)`.
    pub open spec fn spec_nearby_cells(&self, x: int, y: int) -> Seq<(usize, usize)> {
        neighbours(self.spec_width() as int, self.spec_height() as int, x, y)
    }

    /// How the game stands: lost where a mine is opened; else still played
    /// where a cell without a mine is not opened; else won.
    pub open spec fn spec_game_result(&self) -> GameResult {
        if exists|x: int, y: int|
            self.on_board(x, y) && self.spec_cell(x, y) == CellState::Opened
                && #[trigger] self.spec_is_mine(x, y) {
            GameResult::Lose
        } else if exists|x: int, y: int|
            self.on_board(x, y) && self.spec_cell(x, y) != CellState::Opened
                && !#[trigger] self.spec_is_mine(x, y) {
            GameResult::Playing
        } else {
            GameResult::Win
        }
    }

    /// The options that the board was made with.
    pub closed spec fn spec_options(&self) -> GameOptions {
        self.options
    }

    /// The two boards have the same size, mines and options.
    pub open spec fn same_board(&self, other: &GameState) -> bool {
        &&& self.spec_width() == other.spec_width()
        &&& self.spec_height() == other.spec_height()
        &&& self.spec_options() == other.spec_options()
        &&& forall|x: int, y: int| #[trigger] self.spec_is_mine(x, y) == other.spec_is_mine(x, y)
    }

    /// Each cell is in the state it had in `other` or was opened since.
    pub open spec fn opened_since(&self, other: &GameState) -> bool {
        &&& self.same_board(other)
        &&& forall|x: int, y: int|
            other.on_board(x, y) ==> #[trigger] self.spec_cell(x, y) == other.spec_cell(x, y) || (
            other.spec_cell(x, y) == CellState::Unopened && self.spec_cell(x, y)
                == CellState::Opened)
    }

    /// The same cells are opened in both states.
    pub open spec fn same_opened(&self, other: &GameState) -> bool {
        &&& self.same_board(other)
        &&& forall|x: int, y: int|
            other.on_board(x, y) ==> (#[trigger] self.spec_cell(x, y) == CellState::Opened) == (
            other.spec_cell(x, y) == CellState::Opened)
    }

    /// A game that has ended stays ended when cells are opened.
    pub proof fn lemma_end_stays(&self, other: &GameState)
        requires
            self.opened_since(other),
            other.spec_game_result() != GameResult::Playing,
        ensures
            self.spec_game_result() != GameResult::Playing,
    {
        if self.spec_game_result() == GameResult::Playing {
            let (x, y) = choose|x: int, y: int|
                self.on_board(x, y) && self.spec_cell(x, y) != CellState::Opened
                    && !#[trigger] self.spec_is_mine(x, y);
            assert(self.spec_cell(x, y) == other.spec_cell(x, y));
            assert(!other.spec_is_mine(x, y));
            let (x1, y1) = choose|x1: int, y1: int|
                other.on_board(x1, y1) && other.spec_cell(x1, y1) == CellState::Opened
                    && #[trigger] other.spec_is_mine(x1, y1);
            assert(self.spec_cell(x1, y1) == other.spec_cell(x1, y1));
            assert(self.spec_is_mine(x1, y1));
        }
    }

    /// The result depends on the mines and on which cells are opened alone.
    pub proof fn lemma_result_same(&self, other: &GameState)
        requires
            self.same_opened(other),
        ensures
            self.spec_game_result() == other.spec_game_result(),
    {
        let lost = |s: &GameState|
            exists|x: int, y: int|
                s.on_board(x, y) && s.spec_cell(x, y) == CellState::Opened
                    && #[trigger] s.spec_is_mine(x, y);
        let open = |s: &GameState|
            exists|x: int, y: int|
                s.on_board(x, y) && s.spec_cell(x, y) != CellState::Opened
                    && !#[trigger] s.spec_is_mine(x, y);
        if lost(self) {
            let (x, y) = choose|x: int, y: int|
                self.on_board(x, y) && self.spec_cell(x, y) == CellState::Opened
                    && #[trigger] self.spec_is_mine(x, y);
            assert(other.spec_cell(x, y) == CellState::Opened && other.spec_is_mine(x, y));
        }
        if lost(other) {
            let (x, y) = choose|x: int, y: int|
                other.on_board(x, y) && other.spec_cell(x, y) == CellState::Opened
                    && #[trigger] other.spec_is_mine(x, y);
            assert(self.spec_cell(x, y) == CellState::Opened && self.spec_is_mine(x, y));
        }
        if open(self) {
            let (x, y) = choose|x: int, y: int|
                self.on_board(x, y) && self.spec_cell(x, y) != CellState::Opened
                    && !#[trigger] self.spec_is_mine(x, y);
            assert(other.spec_cell(x, y) != CellState::Opened && !other.spec_is_mine(x, y));
        }
        if open(other) {
            let (x, y) = choose|x: int, y: int|
                other.on_board(x, y) && other.spec_cell(x, y) != CellState::Opened
                    && !#[trigger] other.spec_is_mine(x, y);
            assert(self.spec_cell(x, y) != CellState::Opened && !self.spec_is_mine(x, y));
        }
    }

    /// The size of a board is at least one by one and can be counted.
    pub proof fn lemma_size(&self)
        requires
            self.wf(),
        ensures
            1 <= self.spec_width() <= usize::MAX,
            1 <= self.spec_height() <= usize::MAX,
            self.spec_width() * self.spec_height() <= usize::MAX,
    {
        let w = self.spec_width();
        let h = self.spec_height();
        assert(w * h == h * w && w <= w * h && h <= w * h) by (nonlinear_arith)
            requires
                w >= 1,
                h >= 1,
        ;
    }

    /// A board of the given mines on which no cell is touched yet; `None`
    /// where the rows are not equally long, or there is no row or no column.
    pub fn with_mines(options: GameOptions, mines: Vec<Vec<bool>>) -> (state: Option<GameState>)
        ensures
            match state {
                Some(s) => {
                    &&& s.wf()
                    &&& s.spec_height() == mines@.len()
                    &&& s.spec_width() == mines@[0]@.len()
                    &&& s.spec_options() == options
                    &&& forall|x: int, y: int| #[trigger] s.spec_is_mine(x, y) == mines@[y]@[x]
                    &&& forall|x: int, y: int|
                        s.on_board(x, y) ==> #[trigger] s.spec_cell(x, y) == CellState::Unopened
                },
                None => true,
            },
            state is Some <==> mines@.len() >= 1 && mines@[0]@.len() >= 1 && mines@.len()
                * mines@[0]@.len() <= usize::MAX && forall|y: int|
                0 <= y < mines@.len() ==> (#[trigger] mines@[y])@.len() == mines@[0]@.len(),
    {
        let h = mines.len();
        if h == 0 {
            return None;
        }
        let w = mines[0].len();
        if w == 0 {
            return None;
        }
        if h > usize::MAX / w {
            assert(h * w > usize::MAX) by (nonlinear_arith)
                requires
                    h > usize::MAX / w,
                    w > 0,
            ;
            return None;
        }
        assert(h * w <= usize::MAX) by (nonlinear_arith)
            requires
                h <= usize::MAX / w,
                w > 0,
        ;
        let mut cells: Vec<Vec<CellState>> = Vec::new();
        let mut y: usize = 0;
        while y < h
            invariant
                y <= h,
                h == mines@.len(),
                w == mines@[0]@.len(),
                cells@.len() == y,
                forall|k: int| 0 <= k < y ==> (#[trigger] mines@[k])@.len() == w,
                forall|k: int| 0 <= k < y ==> (#[trigger] cells@[k])@.len() == w,
                forall|k: int, x: int|
                    0 <= k < y && 0 <= x < w ==> (#[trigger] cells@[k]@[x]) == CellState::Unopened,
            decreases h - y,
        {
            if mines[y].len() != w {
                return None;
            }
            let mut row: Vec<CellState> = Vec::new();
            let mut x: usize = 0;
            while x < w
                invariant
                    x <= w,
                    row@.len() == x,
                    forall|k: int| 0 <= k < x ==> row@[k] == CellState::Unopened,
                decreases w - x,
            {
                row.push(CellState::Unopened);
                x += 1;
            }
            cells.push(row);
            y += 1;
        }
        Some(GameState { options, mines, cells })
    }

    /// The options that the board was made with.
    pub fn options(&self) -> (options: GameOptions)
        ensures
            options == self.spec_options(),
    {
        self.options
    }

    /// The number of columns.
    pub fn width(&self) -> (w: usize)
        requires
            self.wf(),
        ensures
            w == self.spec_width(),
            w >= 1,
    {
        self.mines[0].len()
    }

    /// The number of rows.
    pub fn height(&self) -> (h: usize)
        requires
            self.wf(),
        ensures
            h == self.spec_height(),
            h >= 1,
    {
        self.mines.len()
    }

    /// Whether the cell `(x, y)` holds a mine.
    pub fn is_mine(&self, x: usize, y: usize) -> (b: bool)
        requires
            self.wf(),
            self.on_board(x as int, y as int),
        ensures
            b == self.spec_is_mine(x as int, y as int),
    {
        self.mines[y][x]
    }

    /// What the player has done to the cell `(x, y)`.
    pub fn cell(&self, x: usize, y: usize) -> (c: CellState)
        requires
            self.wf(),
            self.on_board(x as int, y as int),
        ensures
            c == self.spec_cell(x as int, y as int),
    {
        self.cells[y][x]
    }

    /// Gives the cell `(x, y)` the state `state`; nothing else changes.
    pub fn set_cell(&mut self, x: usize, y: usize, state: CellState)
        requires
            old(self).wf(),
            old(self).on_board(x as int, y as int),
        ensures
            final(self).wf(),
            final(self).same_board(old(self)),
            final(self).spec_cell(x as int, y as int) == state,
            forall|x1: int, y1: int|
                old(self).on_board(x1, y1) && !(x1 == x && y1 == y) ==> final(self).spec_cell(x1, y1)
                    == #[trigger] old(self).spec_cell(x1, y1),
    {
        let mut row = self.cells[y].clone();
        assert(row@ == self.cells@[y as int]@);
        row.set(x, state);
        self.cells.set(y, row);
    }

    /// Whether the cell `(x, y)` is flagged.
    pub fn is_flag(&self, x: usize, y: usize) -> (b: bool)
        requires
            self.wf(),
            self.on_board(x as int, y as int),
        ensures
            b == (self.spec_cell(x as int, y as int) == CellState::Flagged),
    {
        self.cell(x, y) == CellState::Flagged
    }

    /// Whether the cell `(x, y)` is opened.
    pub fn is_opened(&self, x: usize, y: usize) -> (b: bool)
        requires
            self.wf(),
            self.on_board(x as int, y as int),
        ensures
            b == (self.spec_cell(x as int, y as int) == CellState::Opened),
    {
        self.cell(x, y) == CellState::Opened
    }

    /// Whether the cell is an opened mine.
    pub fn is_exploded(&self, x: usize, y: usize) -> (b: bool)
        requires
            self.wf(),
            self.on_board(x as int, y as int),
        ensures
            b == (self.spec_cell(x as int, y as int) == CellState::Opened && self.spec_is_mine(
                x as int,
                y as int,
            )),
    {
        self.is_opened(x, y) && self.is_mine(x, y)
    }

    /// The cells of the board that touch `(x, y)`, row by row from the top.
    pub fn nearby_cells(&self, x: usize, y: usize) -> (r: Vec<(usize, usize)>)
        requires
            self.wf(),
        ensures
            r@ == self.spec_nearby_cells(x as int, y as int),
            r@.len() <= 8,
            forall|i: int|
                0 <= i < r@.len() ==> self.on_board((#[trigger] r@[i]).0 as int, r@[i].1 as int),
    {
        let r = nearby(self.width(), self.height(), x, y);
        proof {
            lemma_neighbours(self.spec_width() as int, self.spec_height() as int, x as int, y as int);
            assert forall|i: int| 0 <= i < r@.len() implies self.on_board(
                (#[trigger] r@[i]).0 as int,
                r@[i].1 as int,
            ) by {
                assert(r@.contains(r@[i]));
            }
        }
        r
    }

    /// The number of the given cells that hold a mine (`mines`) or a flag.
    fn count_among(&self, cells: &Vec<(usize, usize)>, mines: bool) -> (n: usize)
        requires
            self.wf(),
            forall|i: int|
                0 <= i < cells@.len() ==> self.on_board(
                    (#[trigger] cells@[i]).0 as int,
                    cells@[i].1 as int,
                ),
        ensures
            n == count_where(
                cells@,
                if mines {
                    self.mined()
                } else {
                    self.flagged()
                },
            ),
            n <= cells@.len(),
    {
        let ghost p = if mines {
            self.mined()
        } else {
            self.flagged()
        };
        let mut n: usize = 0;
        let mut i: usize = 0;
        proof {
            assert(cells@.take(0) =~= Seq::<(usize, usize)>::empty());
            lemma_count_push(cells@.take(0), (0, 0), p);
        }
        while i < cells.len()
            invariant
                self.wf(),
                i <= cells.len(),
                n <= i,
                n == count_where(cells@.take(i as int), p),
                p == if mines {
                    self.mined()
                } else {
                    self.flagged()
                },
                forall|k: int|
                    0 <= k < cells@.len() ==> self.on_board(
                        (#[trigger] cells@[k]).0 as int,
                        cells@[k].1 as int,
                    ),
            decreases cells.len() - i,
        {
            let (x, y) = cells[i];
            proof {
                assert(self.on_board(cells@[i as int].0 as int, cells@[i as int].1 as int));
                assert(cells@.take(i + 1) =~= cells@.take(i as int).push(cells@[i as int]));
                lemma_count_push(cells@.take(i as int), cells@[i as int], p);
            }
            let hit = if mines {
                self.is_mine(x, y)
            } else {
                self.is_flag(x, y)
            };
            if hit {
                n += 1;
            }
            i += 1;
        }
        assert(cells@.take(i as int) =~= cells@);
        n
    }

    /// The number of mines on the board.
    pub fn mines(&self) -> (n: usize)
        requires
            self.wf(),
        ensures
            n == count_where(self.all_cells(), self.mined()),
    {
        let cells = cells_in_rows(self.width(), self.height());
        proof {
            self.lemma_size();
            lemma_grid_cells(self.spec_width(), self.spec_height());
        }
        self.count_among(&cells, true)
    }

    /// The number of flags on the board.
    pub fn flags(&self) -> (n: usize)
        requires
            self.wf(),
        ensures
            n == count_where(self.all_cells(), self.flagged()),
    {
        let cells = cells_in_rows(self.width(), self.height());
        proof {
            self.lemma_size();
            lemma_grid_cells(self.spec_width(), self.spec_height());
        }
        self.count_among(&cells, false)
    }

    /// The number of mines among the cells that touch `(x, y)`.
    pub fn nearby_mines(&self, x: usize, y: usize) -> (n: u8)
        requires
            self.wf(),
        ensures
            n == count_where(self.spec_nearby_cells(x as int, y as int), self.mined()),
            n <= 8,
    {
        let cells = self.nearby_cells(x, y);
        self.count_among(&cells, true) as u8
    }

    /// The number of flags among the cells that touch `(x, y)`.
    pub fn nearby_flags(&self, x: usize, y: usize) -> (n: u8)
        requires
            self.wf(),
        ensures
            n == count_where(self.spec_nearby_cells(x as int, y as int), self.flagged()),
            n <= 8,
    {
        let cells = self.nearby_cells(x, y);
        self.count_among(&cells, false) as u8
    }

    /// How the game stands: lost where a mine is opened; else still played
    /// where a cell without a mine is not opened; else won.
    pub fn game_result(&self) -> (r: GameResult)
        requires
            self.wf(),
        ensures
            r == self.spec_game_result(),
    {
        let mut cont = false;
        let h = self.height();
        let w = self.width();
        let mut y: usize = 0;
        while y < h
            invariant
                self.wf(),
                y <= h,
                h == self.spec_height(),
                w == self.spec_width(),
                forall|x1: int, y1: int|
                    0 <= x1 < w && 0 <= y1 < y ==> !(self.spec_cell(x1, y1) == CellState::Opened
                        && #[trigger] self.spec_is_mine(x1, y1)),
                cont == exists|x1: int, y1: int|
                    0 <= x1 < w && 0 <= y1 < y && self.spec_cell(x1, y1) != CellState::Opened
                        && !#[trigger] self.spec_is_mine(x1, y1),
            decreases h - y,
        {
            let mut x: usize = 0;
            while x < w
                invariant
                    self.wf(),
                    x <= w,
                    y < h,
                    h == self.spec_height(),
                    w == self.spec_width(),
                    forall|x1: int, y1: int|
                        0 <= x1 < w && (0 <= y1 < y || (y1 == y && x1 < x)) ==> !(self.spec_cell(
                            x1,
                            y1,
                        ) == CellState::Opened && #[trigger] self.spec_is_mine(x1, y1)),
                    cont == exists|x1: int, y1: int|
                        0 <= x1 < w && (0 <= y1 < y || (y1 == y && x1 < x)) && self.spec_cell(
                            x1,
                            y1,
                        ) != CellState::Opened && !#[trigger] self.spec_is_mine(x1, y1),
                decreases w - x,
            {
                let opened = self.is_opened(x, y);
                let mine = self.is_mine(x, y);
                if opened && mine {
                    return GameResult::Lose;
                }
                if !opened && !mine {
                    cont = true;
                }
                x += 1;
            }
            y += 1;
        }
        if cont {
            GameResult::Playing
        } else {
            GameResult::Win
        }
    }
}

} // verus!

//! A game that may not have begun: the board is dealt at the first left
//! click, so that the cell of that click holds no mine.

use vstd::prelude::*;
use crate::game::grid::{
    block, count_where, in_grid, lemma_grid_cells, lemma_some_other, push_block,
};
use crate::game::options::GameOptions;
use crate::game::state::{CellState, GameResult, GameState};
use crate::game::view::{CellView, GameView, Gesture, RedrawCells, gesture_in_grid, under_pointer};

verus! {

/// A game before or after its board is dealt.
#[derive(Debug, Clone)]
pub enum MaybeUninitGameView {
    /// No board yet: what the pointer does, and how the board will be made.
    Uninit { gesture: Gesture, options: GameOptions },
    /// The game is on.
    GameView(GameView),
}

/// The cells that a gesture touches on a grid of `w` columns and `h` rows
/// that shows no game yet: its own cell, and for a middle push that cell
/// and the cells around it, as far as they lie on the grid.
pub open spec fn touched(gesture: Gesture, w: int, h: int) -> Seq<(usize, usize)> {
    match gesture {
        Gesture::Hover(x, y) => seq![(x, y)],
        Gesture::LeftOrRightPush(x, y) => seq![(x, y)],
        Gesture::MidPush(x, y) => block(w, h, x as int, y as int),
        Gesture::Idle => seq![],
    }
}

/// Appends the cells that the gesture touches.
fn push_touched(redraw: &mut Vec<(usize, usize)>, gesture: Gesture, w: usize, h: usize)
    ensures
        final(redraw)@ == old(redraw)@ + touched(gesture, w as int, h as int),
{
    match gesture {
        Gesture::Hover(x, y) | Gesture::LeftOrRightPush(x, y) => {
            redraw.push((x, y));
            assert(redraw@ =~= old(redraw)@ + seq![(x, y)]);
        },
        Gesture::MidPush(x, y) => {
            push_block(redraw, w, h, x, y);
        },
        Gesture::Idle => {
            assert(redraw@ =~= old(redraw)@ + Seq::<(usize, usize)>::empty());
        },
    }
}

/// The view shows a board that was just dealt with the options, and on it
/// what the pointer does: the board has the size and the number of mines of
/// the difficulty and keeps the options, with the seed that was used; no
/// cell is touched and no flag is set; the safe cell holds no mine; the game
/// is played; and every picture is fresh.
pub open spec fn dealt(view: GameView, gesture: Gesture, options: GameOptions) -> bool {
    let state = view.spec_state();
    &&& view.wf()
    &&& view.spec_width() == options.difficulty.spec_width()
    &&& view.spec_height() == options.difficulty.spec_height()
    &&& state.spec_options().difficulty == options.difficulty
    &&& state.spec_options().safe_pos == options.safe_pos
    &&& state.spec_options().seed is Some
    &&& options.seed is Some ==> state.spec_options().seed == options.seed
    &&& forall|x: int, y: int|
        view.on_board(x, y) ==> #[trigger] state.spec_cell(x, y) == CellState::Unopened
    &&& count_where(state.all_cells(), state.mined()) == options.difficulty.spec_mines()
    &&& match options.safe_pos {
        Some(p) => view.on_board(p.0 as int, p.1 as int) ==> !state.spec_is_mine(
            p.0 as int,
            p.1 as int,
        ),
        None => true,
    }
    &&& view.spec_result() == GameResult::Playing
    &&& view.spec_mines() == options.difficulty.spec_mines()
    &&& view.spec_flags() == 0
    &&& view.spec_gesture() == gesture
    &&& view.up_to_date()
}

/// What the first left click, at `(x, y)`, has made of a game that was not
/// dealt: a board was dealt for the options with no mine under the cell of
/// the click, the click was played on it, and the list holds the cells whose
/// picture is not the one that the dealt board showed.
pub open spec fn first_click(
    view: GameView,
    redraw: Seq<(usize, usize)>,
    gesture: Gesture,
    options: GameOptions,
    x: usize,
    y: usize,
) -> bool {
    exists|fresh: GameView|
        {
            &&& #[trigger] dealt(
                fresh,
                gesture,
                (GameOptions {
                    difficulty: options.difficulty,
                    safe_pos: Some((x, y)),
                    seed: options.seed,
                }),
            )
            &&& view.left_clicked(&fresh, x, y)
            &&& view.lists_changes(&fresh, redraw)
            &&& view.lists_only_changes(&fresh, redraw)
        }
}

/// On a board with fewer mines than cells on which no cell is touched, the
/// game is played and no flag is set.
proof fn lemma_fresh_board(state: &GameState, mines: nat)
    requires
        state.wf(),
        forall|x: int, y: int|
            state.on_board(x, y) ==> #[trigger] state.spec_cell(x, y) == CellState::Unopened,
        count_where(state.all_cells(), state.mined()) == mines,
        mines < state.spec_width() * state.spec_height(),
    ensures
        state.spec_game_result() == GameResult::Playing,
        count_where(state.all_cells(), state.flagged()) == 0,
{
    let cells = state.all_cells();
    state.lemma_size();
    lemma_grid_cells(state.spec_width(), state.spec_height());
    lemma_some_other(cells, state.mined());
    let i = choose|i: int| 0 <= i < cells.len() && !(state.mined())(#[trigger] cells[i]);
    let c = cells[i];
    assert(state.on_board(c.0 as int, c.1 as int));
    assert(state.spec_cell(c.0 as int, c.1 as int) != CellState::Opened && !state.spec_is_mine(
        c.0 as int,
        c.1 as int,
    ));
    assert forall|x: int, y: int| state.on_board(x, y) implies !(state.spec_cell(x, y)
        == CellState::Opened && #[trigger] state.spec_is_mine(x, y)) by {
        assert(state.spec_cell(x, y) == CellState::Unopened);
    }
    let flagged = cells.filter(state.flagged());
    if flagged.len() > 0 {
        cells.lemma_filter_pred(state.flagged(), 0);
        assert(flagged.contains(flagged[0]));
        cells.lemma_filter_contains_rev(state.flagged(), flagged[0]);
        let k = choose|k: int| 0 <= k < cells.len() && cells[k] == flagged[0];
        assert(state.on_board(cells[k].0 as int, cells[k].1 as int));
        assert(state.spec_cell(cells[k].0 as int, cells[k].1 as int) == CellState::Unopened);
    }
}

impl MaybeUninitGameView {
    /// A game that is on is well formed; before that, the cell of the
    /// gesture lies on the board to be.
    pub open spec fn wf(&self) -> bool {
        match self {
            MaybeUninitGameView::Uninit { gesture, options } => gesture_in_grid(
                *gesture,
                options.difficulty.spec_width() as int,
                options.difficulty.spec_height() as int,
            ),
            MaybeUninitGameView::GameView(view) => view.wf(),
        }
    }

    /// The number of columns of the board, or of the board to be.
    pub open spec fn spec_width(&self) -> nat {
        match self {
            MaybeUninitGameView::Uninit { gesture, options } => options.difficulty.spec_width() as nat,
            MaybeUninitGameView::GameView(view) => view.spec_width(),
        }
    }

    /// The number of rows of the board, or of the board to be.
    pub open spec fn spec_height(&self) -> nat {
        match self {
            MaybeUninitGameView::Uninit { gesture, options } => options.difficulty.spec_height() as nat,
            MaybeUninitGameView::GameView(view) => view.spec_height(),
        }
    }

    /// Whether `(x, y)` is a cell of the board, or of the board to be.
    pub open spec fn on_board(&self, x: int, y: int) -> bool {
        in_grid(self.spec_width() as int, self.spec_height() as int, x, y)
    }

    /// The game that begins with the given options.
    pub fn new(options: GameOptions) -> (r: MaybeUninitGameView)
        ensures
            r == (MaybeUninitGameView::Uninit { gesture: Gesture::Idle, options }),
            r.wf(),
    {
        MaybeUninitGameView::Uninit { gesture: Gesture::Idle, options }
    }

    /// The number of columns of the board, or of the board to be.
    pub fn width(&self) -> (w: usize)
        requires
            self.wf(),
        ensures
            w == self.spec_width(),
    {
        match self {
            MaybeUninitGameView::Uninit { options, .. } => options.difficulty.width(),
            MaybeUninitGameView::GameView(view) => view.width(),
        }
    }

    /// The number of rows of the board, or of the board to be.
    pub fn height(&self) -> (h: usize)
        requires
            self.wf(),
        ensures
            h == self.spec_height(),
    {
        match self {
            MaybeUninitGameView::Uninit { options, .. } => options.difficulty.height(),
            MaybeUninitGameView::GameView(view) => view.height(),
        }
    }

    /// Whether a game is on and still played.
    pub fn is_playing(&self) -> (b: bool)
        ensures
            b == match self {
                MaybeUninitGameView::Uninit { .. } => false,
                MaybeUninitGameView::GameView(view) => view.spec_result() == GameResult::Playing,
            },
    {
        match self {
            MaybeUninitGameView::Uninit { .. } => false,
            MaybeUninitGameView::GameView(view) => view.result() == GameResult::Playing,
        }
    }

    /// What the cell `(x, y)` shows: before the game, every cell is
    /// unopened, but for what the pointer does.
    pub fn cell(&self, x: usize, y: usize) -> (c: CellView)
        requires
            self.wf(),
            self.on_board(x as int, y as int),
        ensures
            c == match self {
                MaybeUninitGameView::Uninit { gesture, options } => under_pointer(
                    *gesture,
                    x as int,
                    y as int,
                ),
                MaybeUninitGameView::GameView(view) => view.spec_cell(x as int, y as int),
            },
    {
        match self {
            MaybeUninitGameView::Uninit { gesture, options: _ } => match *gesture {
                Gesture::Hover(x0, y0) => if x == x0 && y == y0 {
                    CellView::Hovered
                } else {
                    CellView::Unopened
                },
                Gesture::LeftOrRightPush(x0, y0) => if x == x0 && y == y0 {
                    CellView::Pushed
                } else {
                    CellView::Unopened
                },
                Gesture::MidPush(x0, y0) => if x == x0 && y == y0 {
                    CellView::Hovered
                } else if (x == 0 || x - 1 <= x0) && x0 <= x + 1 && (y == 0 || y - 1 <= y0) && y0
                    <= y + 1 {
                    CellView::Pushed
                } else {
                    CellView::Unopened
                },
                Gesture::Idle => CellView::Unopened,
            },
            MaybeUninitGameView::GameView(view) => view.cell(x, y),
        }
    }

    /// Whether the board may be dragged by the cell `(x, y)`; before the
    /// game it may not.
    pub fn is_draggable(&self, x: usize, y: usize) -> (b: bool)
        requires
            self.wf(),
            self.on_board(x as int, y as int),
        ensures
            b == match *self {
                MaybeUninitGameView::Uninit { gesture, options } => false,
                MaybeUninitGameView::GameView(view) => view.spec_result() != GameResult::Playing
                    || view.spec_cell(x as int, y as int) is Opened || view.spec_cell(
                    x as int,
                    y as int,
                ) == CellView::Flagged || view.spec_cell(x as int, y as int)
                    == CellView::Questioned,
            },
    {
        match self {
            MaybeUninitGameView::Uninit { .. } => false,
            MaybeUninitGameView::GameView(view) => view.is_draggable(x, y),
        }
    }

    /// Deals the board if the game has not begun, and shows on it what the
    /// pointer does.
    pub fn init(&mut self)
        requires
            old(self).wf(),
            *old(self) matches MaybeUninitGameView::Uninit { gesture, options } ==> options.buildable(),
        ensures
            final(self).wf(),
            *final(self) is GameView,
            *old(self) is GameView ==> *final(self) == *old(self),
            final(self).spec_width() == old(self).spec_width(),
            final(self).spec_height() == old(self).spec_height(),
            *old(self) matches MaybeUninitGameView::Uninit { gesture, options } ==> dealt(
                (*final(self))->GameView_0,
                gesture,
                options,
            ),
    {
        if let MaybeUninitGameView::Uninit { gesture, options } = self {
            let gesture = *gesture;
            let ghost wanted = *options;
            let state = options.build();
            proof {
                lemma_fresh_board(&state, wanted.difficulty.spec_mines() as nat);
            }
            let mut view = GameView::new(state);
            view.gesture(gesture);
            proof {
                view.lemma_wf();
            }
            *self = MaybeUninitGameView::GameView(view);
        }
    }

    /// Begins the game anew with the options of the game that is on: the
    /// same seed deals the same board.
    pub fn restart(&mut self)
        requires
            old(self).wf(),
            *old(self) matches MaybeUninitGameView::GameView(view) ==> {
                let options = view.spec_state().spec_options();
                options.buildable() && gesture_in_grid(
                    view.spec_gesture(),
                    options.difficulty.spec_width() as int,
                    options.difficulty.spec_height() as int,
                )
            },
        ensures
            final(self).wf(),
            *old(self) is Uninit ==> *final(self) == *old(self),
            *old(self) matches MaybeUninitGameView::GameView(view) ==> *final(self) is GameView
                && dealt(
                (*final(self))->GameView_0,
                view.spec_gesture(),
                view.spec_state().spec_options(),
            ),
    {
        if let MaybeUninitGameView::GameView(view) = self {
            *self = MaybeUninitGameView::Uninit { gesture: view.pointer(), options: view.options() };
            self.init();
        }
    }

    /// Opens the cell `(x, y)`. The first left click deals the board, with
    /// no mine under the cell of the click.
    pub fn left_click(&mut self, x: usize, y: usize) -> (redraw: RedrawCells)
        requires
            old(self).wf(),
            old(self).on_board(x as int, y as int),
            *old(self) matches MaybeUninitGameView::Uninit { gesture, options } ==> options.buildable(),
        ensures
            final(self).wf(),
            *final(self) is GameView,
            final(self).spec_width() == old(self).spec_width(),
            final(self).spec_height() == old(self).spec_height(),
            *old(self) is Uninit ==> ((*final(self))->GameView_0).spec_state().spec_cell(
                x as int,
                y as int,
            ) == CellState::Opened && !((*final(self))->GameView_0).spec_state().spec_is_mine(
                x as int,
                y as int,
            ),
            *old(self) matches MaybeUninitGameView::Uninit { gesture, options } ==> first_click(
                (*final(self))->GameView_0,
                redraw@,
                gesture,
                options,
                x,
                y,
            ),
            *old(self) matches MaybeUninitGameView::GameView(view) ==> {
                &&& ((*final(self))->GameView_0).left_clicked(&view, x, y)
                &&& ((*final(self))->GameView_0).lists_changes(&view, redraw@)
                &&& view.up_to_date() ==> ((*final(self))->GameView_0).lists_only_changes(
                    &view,
                    redraw@,
                )
            },
    {
        let ghost mut dealt_view: GameView = arbitrary();
        if let MaybeUninitGameView::Uninit { gesture, options } = self {
            let gesture = *gesture;
            let mut options = *options;
            options.safe_pos = Some((x, y));
            *self = MaybeUninitGameView::Uninit { gesture, options };
            self.init();
            proof {
                dealt_view = (*self)->GameView_0;
                // the cell of the click is untouched and holds no mine: the game is played
                let view = (*self)->GameView_0;
                let state = view.spec_state();
                assert(state.on_board(x as int, y as int) && state.spec_cell(x as int, y as int)
                    != CellState::Opened && !state.spec_is_mine(x as int, y as int));
                assert forall|x1: int, y1: int| state.on_board(x1, y1) implies !(state.spec_cell(
                    x1,
                    y1,
                ) == CellState::Opened && #[trigger] state.spec_is_mine(x1, y1)) by {
                    assert(state.spec_cell(x1, y1) == CellState::Unopened);
                }
                assert(state.spec_game_result() == GameResult::Playing);
            }
        }
        match self {
            MaybeUninitGameView::Uninit { .. } => RedrawCells(Vec::new()),
            MaybeUninitGameView::GameView(view) => {
                let redraw = view.left_click(x, y);
                proof {
                    if let MaybeUninitGameView::Uninit { gesture, options } = *old(self) {
                        let safe = GameOptions {
                            difficulty: options.difficulty,
                            safe_pos: Some((x, y)),
                            seed: options.seed,
                        };
                        assert(dealt(dealt_view, gesture, safe));
                    }
                }
                redraw
            },
        }
    }

    /// Marks the cell `(x, y)`; before the game nothing happens.
    pub fn right_click(&mut self, x: usize, y: usize) -> (redraw: RedrawCells)
        requires
            old(self).wf(),
            old(self).on_board(x as int, y as int),
        ensures
            final(self).wf(),
            *old(self) is Uninit ==> *final(self) == *old(self) && redraw@.len() == 0,
            *old(self) matches MaybeUninitGameView::GameView(view) ==> {
                &&& *final(self) is GameView
                &&& ((*final(self))->GameView_0).right_clicked(&view, x, y)
                &&& redraw@ == if ((*final(self))->GameView_0).repainted(&view, (x, y)) {
                    seq![(x, y)]
                } else {
                    Seq::<(usize, usize)>::empty()
                }
            },
    {
        match self {
            MaybeUninitGameView::Uninit { .. } => RedrawCells(Vec::new()),
            MaybeUninitGameView::GameView(view) => view.right_click(x, y),
        }
    }

    /// Opens around the cell `(x, y)`; before the game nothing happens.
    pub fn middle_click(&mut self, x: usize, y: usize) -> (redraw: RedrawCells)
        requires
            old(self).wf(),
            old(self).on_board(x as int, y as int),
        ensures
            final(self).wf(),
            *old(self) is Uninit ==> *final(self) == *old(self) && redraw@.len() == 0,
            *old(self) matches MaybeUninitGameView::GameView(view) ==> {
                &&& *final(self) is GameView
                &&& ((*final(self))->GameView_0).middle_clicked(&view, x, y)
                &&& ((*final(self))->GameView_0).lists_changes(&view, redraw@)
                &&& view.up_to_date() && ((*final(self))->GameView_0).spec_result()
                    == GameResult::Playing ==> ((*final(self))->GameView_0).lists_only_changes(
                    &view,
                    redraw@,
                )
            },
    {
        match self {
            MaybeUninitGameView::Uninit { .. } => RedrawCells(Vec::new()),
            MaybeUninitGameView::GameView(view) => view.middle_click(x, y),
        }
    }

    /// Notes what the pointer does now. Before the game, the cells to draw
    /// anew are those that the former gesture touched, and then those that
    /// the new one touches.
    pub fn gesture(&mut self, gesture: Gesture) -> (redraw: RedrawCells)
        requires
            old(self).wf(),
            gesture_in_grid(gesture, old(self).spec_width() as int, old(self).spec_height() as int),
        ensures
            final(self).wf(),
            *old(self) matches MaybeUninitGameView::Uninit { gesture: previous, options } ==> {
                &&& *final(self) == (MaybeUninitGameView::Uninit { gesture, options })
                &&& redraw@ == touched(
                    previous,
                    options.difficulty.spec_width() as int,
                    options.difficulty.spec_height() as int,
                ) + touched(
                    gesture,
                    options.difficulty.spec_width() as int,
                    options.difficulty.spec_height() as int,
                )
            },
            *old(self) matches MaybeUninitGameView::GameView(view) ==> {
                &&& *final(self) is GameView
                &&& ((*final(self))->GameView_0).pointed(&view, gesture)
                &&& redraw@ == view.redrawn_for(gesture)
            },
    {
        match self {
            MaybeUninitGameView::Uninit { gesture: previous_gesture, options } => {
                let options = *options;
                let w = options.difficulty.width();
                let h = options.difficulty.height();
                let mut redraw: Vec<(usize, usize)> = Vec::new();
                push_touched(&mut redraw, *previous_gesture, w, h);
                assert(redraw@ =~= touched(*previous_gesture, w as int, h as int));
                push_touched(&mut redraw, gesture, w, h);
                *self = MaybeUninitGameView::Uninit { gesture, options };
                RedrawCells(redraw)
            },
            MaybeUninitGameView::GameView(view) => view.gesture(gesture),
        }
    }
}

} // verus!

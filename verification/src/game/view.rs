//! What the player sees of a game, and the clicks that change it.

use vstd::prelude::*;
use crate::game::grid::{
    adjacent, cells_in_rows, count_where, grid_cells, in_grid, insert_once, lemma_add_contains,
    lemma_count_change, lemma_count_push, lemma_count_same, lemma_filter_one, lemma_filter_same,
    lemma_grid_cells, lemma_neighbours, neighbours,
};
use crate::game::options::GameOptions;
use crate::game::state::{CellState, GameResult, GameState};

verus! {

/// What is shown of one cell.
#[derive(Debug, Clone, Copy, PartialEq, Eq, Structural)]
pub enum CellView {
    Unopened,
    Hovered,
    Pushed,
    Flagged,
    Questioned,
    /// An opened cell, with the number of mines among the cells that touch it.
    Opened(u8),
    Mine,
    WrongMine,
    Exploded,
}

impl CellView {
    /// A cell is intact where nothing is known of it yet: it is unopened and
    /// unmarked, whether or not the pointer hovers over it or pushes it.
    pub open spec fn intact(self) -> bool {
        self == CellView::Unopened || self == CellView::Hovered || self == CellView::Pushed
    }

    /// A cell that constrains the cells around it: a flag or an opened cell.
    pub open spec fn clue(self) -> bool {
        self == CellView::Flagged || self is Opened
    }

    /// Whether nothing is known of the cell yet.
    pub fn is_intact(&self) -> (b: bool)
        ensures
            b == self.intact(),
    {
        match self {
            CellView::Unopened => true,
            CellView::Hovered => true,
            CellView::Pushed => true,
            _ => false,
        }
    }

    /// Whether the cell is flagged or opened.
    pub fn is_clue(&self) -> (b: bool)
        ensures
            b == self.clue(),
    {
        match self {
            CellView::Flagged => true,
            CellView::Opened(_) => true,
            _ => false,
        }
    }
}

/// What the pointer does at the moment.
#[derive(Debug, Clone, Copy)]
pub enum Gesture {
    Hover(usize, usize),
    LeftOrRightPush(usize, usize),
    MidPush(usize, usize),
    /// The pointer does nothing.
    Idle,
}

/// The cells whose picture has changed.
#[derive(Debug, Clone)]
pub struct RedrawCells(pub Vec<(usize, usize)>);

impl View for RedrawCells {
    type V = Seq<(usize, usize)>;

    open spec fn view(&self) -> Seq<(usize, usize)> {
        self.0@
    }
}

impl Default for RedrawCells {
    fn default() -> (r: RedrawCells)
        ensures
            r@ == Seq::<(usize, usize)>::empty(),
    {
        RedrawCells(Vec::new())
    }
}

impl RedrawCells {
    /// Every cell of a board of `w` columns and `h` rows, row by row.
    pub fn redraw_all(w: usize, h: usize) -> (r: RedrawCells)
        ensures
            r@ == grid_cells(w as nat, h as nat),
    {
        RedrawCells(cells_in_rows(w, h))
    }
}

/// What is shown of a cell, the pointer apart.
pub open spec fn picture(result: GameResult, mine: bool, state: CellState, nearby: u8) -> CellView {
    match (result, mine, state) {
        (_, false, CellState::Opened) => CellView::Opened(nearby),
        (GameResult::Win, true, _) => CellView::Flagged,
        (GameResult::Lose, true, CellState::Unopened) => CellView::Mine,
        (GameResult::Lose, false, CellState::Flagged) => CellView::WrongMine,
        (_, true, CellState::Opened) => CellView::Exploded,
        (_, _, CellState::Unopened) => CellView::Unopened,
        (_, _, CellState::Flagged) => CellView::Flagged,
        (_, _, CellState::Questioned) => CellView::Questioned,
    }
}

/// What the pointer makes of an unopened cell at `(x, y)` while the game is
/// played: hovered or pushed where the gesture is at the cell, pushed where
/// a middle push is next to it.
pub open spec fn under_pointer(gesture: Gesture, x: int, y: int) -> CellView {
    match gesture {
        Gesture::Hover(x0, y0) => if x == x0 && y == y0 {
            CellView::Hovered
        } else {
            CellView::Unopened
        },
        Gesture::LeftOrRightPush(x0, y0) => if x == x0 && y == y0 {
            CellView::Pushed
        } else {
            CellView::Unopened
        },
        Gesture::MidPush(x0, y0) => if x == x0 && y == y0 {
            CellView::Hovered
        } else if x - 1 <= x0 <= x + 1 && y - 1 <= y0 <= y + 1 {
            CellView::Pushed
        } else {
            CellView::Unopened
        },
        Gesture::Idle => CellView::Unopened,
    }
}

/// Whether the gesture touches the cell `(x, y)`: it is at the cell, or it
/// is a middle push at a cell next to it.
pub open spec fn reaches(gesture: Gesture, x: int, y: int) -> bool {
    match gesture {
        Gesture::Hover(x0, y0) => x == x0 && y == y0,
        Gesture::LeftOrRightPush(x0, y0) => x == x0 && y == y0,
        Gesture::MidPush(x0, y0) => x - 1 <= x0 <= x + 1 && y - 1 <= y0 <= y + 1,
        Gesture::Idle => false,
    }
}

/// Whether the cell of the gesture, if it has one, lies on a board of `w`
/// columns and `h` rows.
pub open spec fn gesture_in_grid(gesture: Gesture, w: int, h: int) -> bool {
    match gesture {
        Gesture::Hover(x, y) => in_grid(w, h, x as int, y as int),
        Gesture::LeftOrRightPush(x, y) => in_grid(w, h, x as int, y as int),
        Gesture::MidPush(x, y) => in_grid(w, h, x as int, y as int),
        Gesture::Idle => true,
    }
}

/// The cells that the gesture touches on a board of `w` columns and `h`
/// rows, in the order in which they are refreshed: the cell of the gesture,
/// and after it, for a push of the middle button, the cells around it.
pub open spec fn touched_by(gesture: Gesture, w: int, h: int) -> Seq<(usize, usize)> {
    match gesture {
        Gesture::Hover(x, y) => seq![(x, y)],
        Gesture::LeftOrRightPush(x, y) => seq![(x, y)],
        Gesture::MidPush(x, y) => seq![(x, y)] + neighbours(w, h, x as int, y as int),
        Gesture::Idle => Seq::empty(),
    }
}

/// What the player sees of a game.
#[derive(Debug, Clone)]
pub struct GameView {
    state: GameState,
    cells: Vec<Vec<CellView>>,
    pub result: GameResult,
    pub gesture: Gesture,
    pub mines: usize,
    pub flags: usize,
}

/// Takes the smallest cell out of the list, by column and then by row.
fn pop_first(pending: &mut Vec<(usize, usize)>) -> (first: (usize, usize))
    requires
        old(pending)@.len() > 0,
    ensures
        final(pending)@.len() == old(pending)@.len() - 1,
        old(pending)@.contains(first),
        forall|i: int|
            0 <= i < final(pending)@.len() ==> old(pending)@.contains(#[trigger] final(pending)@[i]),
        forall|i: int|
            0 <= i < old(pending)@.len() ==> first.0 < (#[trigger] old(pending)@[i]).0 || (first.0
                == old(pending)@[i].0 && first.1 <= old(pending)@[i].1),
        forall|i: int|
            0 <= i < old(pending)@.len()
                ==> #[trigger] old(pending)@[i] == first
                    || final(pending)@.contains(old(pending)@[i]),
{
    let mut best: usize = 0;
    let mut i: usize = 1;
    while i < pending.len()
        invariant
            1 <= i <= pending.len(),
            best < i,
            pending@ == old(pending)@,
            forall|k: int|
                0 <= k < i ==> pending@[best as int].0 < (#[trigger] pending@[k]).0 || (
                pending@[best as int].0 == pending@[k].0 && pending@[best as int].1
                    <= pending@[k].1),
        decreases pending.len() - i,
    {
        let (x, y) = pending[i];
        let (bx, by) = pending[best];
        if x < bx || (x == bx && y < by) {
            best = i;
        }
        i += 1;
    }
    let first = pending.swap_remove(best);
    proof {
        assert(old(pending)@[best as int] == first);
        assert forall|k: int| 0 <= k < pending@.len() implies old(pending)@.contains(
            #[trigger] pending@[k],
        ) by {
            if k == best {
                assert(pending@[k] == old(pending)@[old(pending)@.len() - 1]);
            } else {
                assert(pending@[k] == old(pending)@[k]);
            }
        }
        assert forall|k: int| 0 <= k < old(pending)@.len() implies #[trigger] old(pending)@[k]
            == first || pending@.contains(old(pending)@[k]) by {
            if k == best {
            } else if k == old(pending)@.len() - 1 {
                assert(pending@[best as int] == old(pending)@[k]);
            } else {
                assert(pending@[k] == old(pending)@[k]);
            }
        }
    }
    first
}

/// What waits after a cell was taken and cells were added: all that waited
/// but the cell, and nothing but what waited or was added.
proof fn lemma_waiting(
    waiting: Seq<(usize, usize)>,
    left: Seq<(usize, usize)>,
    pending: Seq<(usize, usize)>,
    c: (usize, usize),
    near: Seq<(usize, usize)>,
)
    requires
        forall|i: int| 0 <= i < left.len() ==> waiting.contains(#[trigger] left[i]),
        forall|i: int|
            0 <= i < waiting.len() ==> #[trigger] waiting[i] == c || left.contains(waiting[i]),
        forall|i: int| 0 <= i < left.len() ==> pending.contains(#[trigger] left[i]),
        forall|i: int|
            0 <= i < pending.len() ==> left.contains(#[trigger] pending[i]) || (pending != left
                && near.contains(pending[i])),
    ensures
        forall|i: int|
            0 <= i < waiting.len() ==> #[trigger] waiting[i] == c || pending.contains(waiting[i]),
        forall|i: int|
            0 <= i < pending.len() ==> waiting.contains(#[trigger] pending[i]) || (pending != left
                && near.contains(pending[i])),
{
    assert forall|i: int| 0 <= i < waiting.len() implies #[trigger] waiting[i] == c
        || pending.contains(waiting[i]) by {
        if waiting[i] != c {
            assert(left.contains(waiting[i]));
            let k = choose|k: int| 0 <= k < left.len() && left[k] == waiting[i];
            assert(pending.contains(left[k]));
        }
    }
    assert forall|i: int| 0 <= i < pending.len() implies waiting.contains(#[trigger] pending[i]) || (
    pending != left && near.contains(pending[i])) by {
        if left.contains(pending[i]) {
            let k = choose|k: int| 0 <= k < left.len() && left[k] == pending[i];
            assert(waiting.contains(left[k]));
        }
    }
}

/// Adds to the list the cells of `around` that it does not hold.
fn wait_for(pending: &mut Vec<(usize, usize)>, around: &Vec<(usize, usize)>)
    ensures
        forall|i: int|
            0 <= i < old(pending)@.len() ==> final(pending)@.contains(#[trigger] old(pending)@[i]),
        forall|i: int|
            0 <= i < final(pending)@.len() ==> old(pending)@.contains(#[trigger] final(pending)@[i])
                || around@.contains(final(pending)@[i]),
        forall|k: int| 0 <= k < around@.len() ==> final(pending)@.contains(#[trigger] around@[k]),
{
    let mut i: usize = 0;
    while i < around.len()
        invariant
            i <= around.len(),
            forall|k: int|
                0 <= k < old(pending)@.len() ==> pending@.contains(#[trigger] old(pending)@[k]),
            forall|k: int|
                0 <= k < pending@.len() ==> old(pending)@.contains(#[trigger] pending@[k])
                    || around@.contains(pending@[k]),
            forall|k: int| 0 <= k < i ==> pending@.contains(#[trigger] around@[k]),
        decreases around.len() - i,
    {
        let ghost queue = pending@;
        insert_once(pending, around[i]);
        proof {
            assert forall|k: int| 0 <= k < old(pending)@.len() implies pending@.contains(
                #[trigger] old(pending)@[k],
            ) by {
                let j = choose|j: int| 0 <= j < queue.len() && queue[j] == old(pending)@[k];
                assert(pending@.contains(queue[j]));
            }
            assert forall|k: int| 0 <= k < pending@.len() implies old(pending)@.contains(
                #[trigger] pending@[k],
            ) || around@.contains(pending@[k]) by {
                if pending@[k] == around@[i as int] {
                } else {
                    assert(queue.contains(pending@[k]));
                    let j = choose|j: int| 0 <= j < queue.len() && queue[j] == pending@[k];
                    assert(old(pending)@.contains(queue[j]) || around@.contains(queue[j]));
                }
            }
            assert forall|k: int| 0 <= k < i + 1 implies pending@.contains(
                #[trigger] around@[k],
            ) by {
                if k < i {
                    let j = choose|j: int| 0 <= j < queue.len() && queue[j] == around@[k];
                    assert(pending@.contains(queue[j]));
                }
            }
        }
        i += 1;
    }
}

/// Appends the cells of `more` to `redraw`.
fn append_cells(redraw: &mut Vec<(usize, usize)>, more: RedrawCells)
    ensures
        final(redraw)@ == old(redraw)@ + more@,
{
    let mut more = more;
    redraw.append(&mut more.0);
}

impl GameView {
    /// The state of the game that the view shows.
    pub closed spec fn spec_state(&self) -> GameState {
        self.state
    }

    /// The picture of the cell `(x, y)`.
    pub closed spec fn spec_cell(&self, x: int, y: int) -> CellView {
        self.cells@[y]@[x]
    }

    /// How the game stands, as the view shows it.
    pub closed spec fn spec_result(&self) -> GameResult {
        self.result
    }

    /// What the pointer does at the moment.
    pub closed spec fn spec_gesture(&self) -> Gesture {
        self.gesture
    }

    /// The number of mines that the view shows.
    pub closed spec fn spec_mines(&self) -> usize {
        self.mines
    }

    /// The number of flags that the view shows.
    pub closed spec fn spec_flags(&self) -> usize {
        self.flags
    }

    /// The state is well formed and every cell has a picture. While the game
    /// is shown as played the flags are counted; once it is shown as ended,
    /// it has ended. The cell of the gesture lies on the board.
    pub closed spec fn coherent(&self) -> bool {
        &&& self.state.wf()
        &&& self.cells@.len() == self.state.spec_height()
        &&& forall|y: int|
            0 <= y < self.cells@.len() ==> (#[trigger] self.cells@[y])@.len()
                == self.state.spec_width()
        &&& self.result == GameResult::Playing ==> self.flags == count_where(
            self.state.all_cells(),
            self.state.flagged(),
        )
        &&& self.result != GameResult::Playing ==> self.state.spec_game_result()
            != GameResult::Playing
        &&& gesture_in_grid(
            self.gesture,
            self.state.spec_width() as int,
            self.state.spec_height() as int,
        )
    }

    /// The view is coherent and shows the result of its state.
    pub closed spec fn wf(&self) -> bool {
        &&& self.coherent()
        &&& self.result == self.state.spec_game_result()
    }

    /// The number of columns.
    pub open spec fn spec_width(&self) -> nat {
        self.spec_state().spec_width()
    }

    /// The number of rows.
    pub open spec fn spec_height(&self) -> nat {
        self.spec_state().spec_height()
    }

    /// Whether `(x, y)` is a cell of the board.
    pub open spec fn on_board(&self, x: int, y: int) -> bool {
        self.spec_state().on_board(x, y)
    }

    /// The cells that touch `(x, y)`.
    pub open spec fn spec_nearby_cells(&self, x: int, y: int) -> Seq<(usize, usize)> {
        self.spec_state().spec_nearby_cells(x, y)
    }

    /// What the cell `(x, y)` shows once it is refreshed, were the pointer
    /// to do what `gesture` says.
    pub open spec fn shown_under(&self, gesture: Gesture, x: int, y: int) -> CellView {
        let state = self.spec_state();
        let plain = picture(
            self.spec_result(),
            state.spec_is_mine(x, y),
            state.spec_cell(x, y),
            count_where(state.spec_nearby_cells(x, y), state.mined()) as u8,
        );
        if self.spec_result() == GameResult::Playing && plain == CellView::Unopened {
            under_pointer(gesture, x, y)
        } else {
            plain
        }
    }

    /// What the cell `(x, y)` shows once it is refreshed.
    pub open spec fn shown(&self, x: int, y: int) -> CellView {
        self.shown_under(self.spec_gesture(), x, y)
    }

    /// The cells whose picture is not what they show under the gesture.
    pub open spec fn stale_under(&self, gesture: Gesture) -> spec_fn((usize, usize)) -> bool {
        |c: (usize, usize)|
            self.spec_cell(c.0 as int, c.1 as int) != self.shown_under(
                gesture,
                c.0 as int,
                c.1 as int,
            )
    }

    /// The cells whose picture is not what they show.
    pub open spec fn stale(&self) -> spec_fn((usize, usize)) -> bool {
        self.stale_under(self.spec_gesture())
    }

    /// The cells that the gesture of the view does not touch and whose
    /// picture is not what they show under `gesture`.
    pub open spec fn stale_beyond(&self, gesture: Gesture) -> spec_fn((usize, usize)) -> bool {
        |c: (usize, usize)|
            !reaches(self.spec_gesture(), c.0 as int, c.1 as int) && (self.stale_under(gesture))(c)
    }

    /// The cells to draw anew once the pointer does what `gesture` says:
    /// of the cells that the former gesture touches, and then of those that
    /// only the new one touches, the ones whose picture changes.
    pub open spec fn redrawn_for(&self, gesture: Gesture) -> Seq<(usize, usize)> {
        let w = self.spec_width() as int;
        let h = self.spec_height() as int;
        touched_by(self.spec_gesture(), w, h).filter(self.stale_under(gesture)) + touched_by(
            gesture,
            w,
            h,
        ).filter(self.stale_beyond(gesture))
    }

    /// The two views differ in the pictures of their cells at most.
    pub open spec fn same_game(&self, other: &GameView) -> bool {
        &&& self.spec_state() == other.spec_state()
        &&& self.spec_result() == other.spec_result()
        &&& self.spec_gesture() == other.spec_gesture()
        &&& self.spec_mines() == other.spec_mines()
        &&& self.spec_flags() == other.spec_flags()
    }

    /// The two views show the same board, and each cell is in the state it
    /// had in `other` or was opened since.
    pub open spec fn played_on(&self, other: &GameView) -> bool {
        &&& self.spec_state().same_board(&other.spec_state())
        &&& self.spec_gesture() == other.spec_gesture()
        &&& self.spec_mines() == other.spec_mines()
        &&& forall|x: int, y: int|
            other.on_board(x, y) ==> #[trigger] self.spec_state().spec_cell(x, y)
                == other.spec_state().spec_cell(x, y) || (other.spec_state().spec_cell(x, y)
                == CellState::Unopened && self.spec_state().spec_cell(x, y) == CellState::Opened)
    }

    /// Every cell shows what it shows once refreshed.
    pub open spec fn up_to_date(&self) -> bool {
        forall|x: int, y: int| self.on_board(x, y)
            ==> #[trigger] self.spec_cell(x, y) == self.shown(x, y)
    }

    /// Every cell that was fresh in `other` is fresh now.
    pub open spec fn kept_fresh(&self, other: &GameView) -> bool {
        forall|x: int, y: int|
            other.on_board(x, y) && other.spec_cell(x, y) == other.shown(x, y)
                ==> #[trigger] self.spec_cell(x, y) == self.shown(x, y)
    }

    /// The picture of the cell is not the one it had in `before`.
    pub open spec fn repainted(&self, before: &GameView, c: (usize, usize)) -> bool {
        self.spec_cell(c.0 as int, c.1 as int) != before.spec_cell(c.0 as int, c.1 as int)
    }

    /// The list holds cells of the board, and among them every cell whose
    /// picture is not the one it had in `before`.
    pub open spec fn lists_changes(&self, before: &GameView, redraw: Seq<(usize, usize)>) -> bool {
        &&& forall|c: (usize, usize)| #[trigger]
            redraw.contains(c) ==> before.on_board(c.0 as int, c.1 as int)
        &&& forall|c: (usize, usize)|
            before.on_board(c.0 as int, c.1 as int) && self.repainted(before, c)
                ==> #[trigger] redraw.contains(c)
    }

    /// Every cell of the list has another picture than it had in `before`.
    pub open spec fn lists_only_changes(
        &self,
        before: &GameView,
        redraw: Seq<(usize, usize)>,
    ) -> bool {
        forall|c: (usize, usize)| #[trigger] redraw.contains(c) ==> self.repainted(before, c)
    }

    /// While an opening spreads from the view `begun`: the list holds every
    /// cell whose picture changed, and each cell of the list was untouched
    /// and is opened.
    pub open spec fn listing(&self, begun: &GameView, redraw: Seq<(usize, usize)>) -> bool {
        &&& self.lists_changes(begun, redraw)
        &&& forall|c: (usize, usize)| #[trigger]
            redraw.contains(c) ==> begun.spec_state().spec_cell(c.0 as int, c.1 as int)
                == CellState::Unopened && self.spec_state().spec_cell(c.0 as int, c.1 as int)
                == CellState::Opened
    }

    /// The listing goes on when the untouched cell `c` is opened and given
    /// its picture, and is listed if that picture is new.
    proof fn lemma_listing_step(
        &self,
        begun: &GameView,
        before: &GameView,
        c: (usize, usize),
        listed: Seq<(usize, usize)>,
        changed: Seq<(usize, usize)>,
    )
        requires
            before.listing(begun, listed),
            before.played_on(begun),
            before.on_board(c.0 as int, c.1 as int),
            before.spec_state().spec_cell(c.0 as int, c.1 as int) == CellState::Unopened,
            self.spec_state().same_board(&before.spec_state()),
            self.spec_state().spec_cell(c.0 as int, c.1 as int) == CellState::Opened,
            forall|x1: int, y1: int|
                before.on_board(x1, y1) && !(x1 == c.0 && y1 == c.1) ==> self.spec_state().spec_cell(
                    x1,
                    y1,
                ) == #[trigger] before.spec_state().spec_cell(x1, y1),
            forall|x1: int, y1: int|
                before.on_board(x1, y1) && !(x1 == c.0 && y1 == c.1) ==> self.spec_cell(x1, y1)
                    == #[trigger] before.spec_cell(x1, y1),
            changed == if self.repainted(before, c) {
                seq![c]
            } else {
                Seq::<(usize, usize)>::empty()
            },
        ensures
            self.listing(begun, listed + changed),
    {
        let all = listed + changed;
        lemma_add_contains(listed, changed);
        assert(begun.on_board(c.0 as int, c.1 as int));
        assert(begun.spec_state().spec_cell(c.0 as int, c.1 as int) == CellState::Unopened);
        assert forall|d: (usize, usize)| #[trigger] all.contains(d) implies begun.on_board(
            d.0 as int,
            d.1 as int,
        ) && begun.spec_state().spec_cell(d.0 as int, d.1 as int) == CellState::Unopened
            && self.spec_state().spec_cell(d.0 as int, d.1 as int) == CellState::Opened by {
            if listed.contains(d) {
                assert(before.on_board(d.0 as int, d.1 as int));
                if d != c {
                    assert(self.spec_state().spec_cell(d.0 as int, d.1 as int)
                        == before.spec_state().spec_cell(d.0 as int, d.1 as int));
                }
            } else {
                assert(changed.contains(d));
                assert(changed[0] == c);
            }
        }
        assert forall|d: (usize, usize)|
            begun.on_board(d.0 as int, d.1 as int) && self.repainted(
                begun,
                d,
            ) implies #[trigger] all.contains(d) by {
            assert(before.on_board(d.0 as int, d.1 as int));
            if d != c {
                assert(self.spec_cell(d.0 as int, d.1 as int) == before.spec_cell(
                    d.0 as int,
                    d.1 as int,
                ));
                assert(before.repainted(begun, d));
                assert(listed.contains(d));
            } else if self.repainted(before, c) {
                assert(changed[0] == c);
                assert(changed.contains(c));
            } else {
                assert(before.repainted(begun, d));
                assert(listed.contains(d));
            }
        }
    }

    /// A cell that was untouched while the game was played, and is opened
    /// now, has another picture where both pictures are fresh.
    proof fn lemma_opened_repainted(&self, begun: &GameView, c: (usize, usize))
        requires
            begun.spec_result() == GameResult::Playing,
            begun.spec_state().spec_cell(c.0 as int, c.1 as int) == CellState::Unopened,
            self.spec_state().spec_cell(c.0 as int, c.1 as int) == CellState::Opened,
            begun.spec_cell(c.0 as int, c.1 as int) == begun.shown(c.0 as int, c.1 as int),
            self.spec_cell(c.0 as int, c.1 as int) == self.shown(c.0 as int, c.1 as int),
        ensures
            self.repainted(begun, c),
    {
    }

    /// Where one list holds the changes from `first` to `mid` and another
    /// those from `mid` to this view, a list that holds what either holds
    /// holds the changes from `first` to this view.
    pub proof fn lemma_lists_joined(
        &self,
        mid: &GameView,
        first: &GameView,
        former: Seq<(usize, usize)>,
        latter: Seq<(usize, usize)>,
        all: Seq<(usize, usize)>,
    )
        requires
            mid.spec_width() == first.spec_width(),
            mid.spec_height() == first.spec_height(),
            mid.lists_changes(first, former),
            self.lists_changes(mid, latter),
            forall|c: (usize, usize)| #[trigger]
                all.contains(c) <==> former.contains(c) || latter.contains(c),
        ensures
            self.lists_changes(first, all),
    {
        assert forall|c: (usize, usize)| #[trigger] all.contains(c) implies first.on_board(
            c.0 as int,
            c.1 as int,
        ) by {
            if latter.contains(c) {
                assert(mid.on_board(c.0 as int, c.1 as int));
            }
        }
        assert forall|c: (usize, usize)|
            first.on_board(c.0 as int, c.1 as int) && self.repainted(
                first,
                c,
            ) implies #[trigger] all.contains(c) by {
            if mid.repainted(first, c) {
                assert(former.contains(c));
            } else {
                assert(mid.on_board(c.0 as int, c.1 as int));
                assert(self.repainted(mid, c));
                assert(latter.contains(c));
            }
        }
    }

    /// What is listed from `first` to `mid` and then from `mid` to this view
    /// is listed from `first` to this view.
    proof fn lemma_lists_further(
        &self,
        mid: &GameView,
        first: &GameView,
        former: Seq<(usize, usize)>,
        latter: Seq<(usize, usize)>,
    )
        requires
            mid.played_on(first),
            self.played_on(mid),
            mid.lists_changes(first, former),
            self.lists_changes(mid, latter),
        ensures
            self.lists_changes(first, former + latter),
            mid.listing(first, former) && self.listing(mid, latter) ==> self.listing(
                first,
                former + latter,
            ),
    {
        let all = former + latter;
        lemma_add_contains(former, latter);
        self.lemma_lists_joined(mid, first, former, latter, all);
        if mid.listing(first, former) && self.listing(mid, latter) {
            assert forall|c: (usize, usize)| #[trigger]
                all.contains(c) implies first.spec_state().spec_cell(c.0 as int, c.1 as int)
                == CellState::Unopened && self.spec_state().spec_cell(c.0 as int, c.1 as int)
                == CellState::Opened by {
                assert(first.on_board(c.0 as int, c.1 as int));
                assert(mid.on_board(c.0 as int, c.1 as int));
                let was = first.spec_state().spec_cell(c.0 as int, c.1 as int);
                let between = mid.spec_state().spec_cell(c.0 as int, c.1 as int);
                let now = self.spec_state().spec_cell(c.0 as int, c.1 as int);
                assert(between == was || (was == CellState::Unopened && between == CellState::Opened));
                assert(now == between || (between == CellState::Unopened && now == CellState::Opened));
            }
        }
    }

    /// What a click has to draw anew, from the cells `flood` that it listed
    /// while it opened cells and the cells `swept` that it listed when it
    /// refreshed every cell because the game had ended.
    proof fn lemma_click_listed(
        &self,
        begun: &GameView,
        judged: &GameView,
        flood: Seq<(usize, usize)>,
        swept: Seq<(usize, usize)>,
    )
        requires
            begun.spec_result() == GameResult::Playing,
            judged.listing(begun, flood),
            judged.spec_state().same_board(&begun.spec_state()),
            self.spec_state() == judged.spec_state(),
            self.kept_fresh(begun),
            forall|c: (usize, usize)| #[trigger]
                swept.contains(c) ==> judged.on_board(c.0 as int, c.1 as int) && self.repainted(
                    judged,
                    c,
                ),
            forall|c: (usize, usize)|
                judged.on_board(c.0 as int, c.1 as int) && self.repainted(judged, c)
                    ==> #[trigger] swept.contains(c),
        ensures
            self.lists_changes(begun, flood + swept),
            begun.up_to_date() ==> self.lists_only_changes(begun, flood + swept),
    {
        let all = flood + swept;
        lemma_add_contains(flood, swept);
        assert forall|c: (usize, usize)| #[trigger] all.contains(c) implies begun.on_board(
            c.0 as int,
            c.1 as int,
        ) by {}
        assert forall|c: (usize, usize)|
            begun.on_board(c.0 as int, c.1 as int) && self.repainted(
                begun,
                c,
            ) implies #[trigger] all.contains(c) by {
            if judged.repainted(begun, c) {
                assert(flood.contains(c));
            } else {
                assert(self.repainted(judged, c));
                assert(swept.contains(c));
            }
        }
        if begun.up_to_date() {
            assert forall|c: (usize, usize)| #[trigger] all.contains(c) implies self.repainted(
                begun,
                c,
            ) by {
                if flood.contains(c) {
                    assert(begun.on_board(c.0 as int, c.1 as int));
                    self.lemma_opened_repainted(begun, c);
                } else {
                    assert(swept.contains(c));
                    if judged.repainted(begun, c) {
                        assert(flood.contains(c));
                    }
                }
            }
        }
    }

    /// A well-formed view is coherent and shows the result of its state.
    pub proof fn lemma_wf(&self)
        requires
            self.wf(),
        ensures
            self.coherent(),
            self.spec_state().wf(),
            self.spec_result() == self.spec_state().spec_game_result(),
            gesture_in_grid(self.spec_gesture(), self.spec_width() as int, self.spec_height() as int),
    {
    }

    /// The size of the board is at least one by one and can be counted.
    pub proof fn lemma_size(&self)
        requires
            self.wf(),
        ensures
            1 <= self.spec_width() <= usize::MAX,
            1 <= self.spec_height() <= usize::MAX,
            self.spec_width() * self.spec_height() <= usize::MAX,
    {
        self.state.lemma_size();
    }

    /// The view of a game: the picture of each cell, with the pointer idle.
    pub fn new(state: GameState) -> (view: GameView)
        requires
            state.wf(),
        ensures
            view.wf(),
            view.spec_state() == state,
            view.spec_result() == state.spec_game_result(),
            view.spec_gesture() is Idle,
            view.spec_mines() == count_where(state.all_cells(), state.mined()),
            view.spec_flags() == if view.spec_result() == GameResult::Win {
                view.spec_mines() as nat
            } else {
                count_where(state.all_cells(), state.flagged())
            },
            view.up_to_date(),
    {
        let h = state.height();
        let w = state.width();
        let mut cells: Vec<Vec<CellView>> = Vec::new();
        let mut y: usize = 0;
        while y < h
            invariant
                y <= h,
                cells@.len() == y,
                forall|k: int| 0 <= k < y ==> (#[trigger] cells@[k])@.len() == w,
            decreases h - y,
        {
            let mut row: Vec<CellView> = Vec::new();
            let mut x: usize = 0;
            while x < w
                invariant
                    x <= w,
                    row@.len() == x,
                decreases w - x,
            {
                row.push(CellView::Unopened);
                x += 1;
            }
            cells.push(row);
            y += 1;
        }
        let mines = state.mines();
        let flags = state.flags();
        let mut view = GameView {
            state,
            cells,
            result: GameResult::Playing,
            gesture: Gesture::Idle,
            mines,
            flags,
        };
        view.refresh_game_result();
        view.refresh_all_cell();
        view
    }

    /// Whether the parts make a well-formed view of the state: there is a
    /// picture for every cell, the result is that of the state, the flags
    /// are counted while the game is played, and the cell of the gesture
    /// lies on the board.
    pub open spec fn assembles(
        state: GameState,
        cells: Seq<Vec<CellView>>,
        result: GameResult,
        gesture: Gesture,
        flags: usize,
    ) -> bool {
        &&& cells.len() == state.spec_height()
        &&& forall|y: int| 0 <= y < cells.len() ==> (#[trigger] cells[y])@.len() == state.spec_width()
        &&& result == state.spec_game_result()
        &&& result == GameResult::Playing ==> flags == count_where(
            state.all_cells(),
            state.flagged(),
        )
        &&& gesture_in_grid(gesture, state.spec_width() as int, state.spec_height() as int)
    }

    /// Puts a view together from its parts, as they were read off a view
    /// before: the view if the parts make a well-formed one, and else
    /// nothing.
    pub fn from_parts(
        state: GameState,
        cells: Vec<Vec<CellView>>,
        result: GameResult,
        gesture: Gesture,
        mines: usize,
        flags: usize,
    ) -> (view: Option<GameView>)
        requires
            state.wf(),
        ensures
            view is Some <==> Self::assembles(state, cells@, result, gesture, flags),
            match view {
                Some(v) => {
                    &&& v.wf()
                    &&& v.spec_state() == state
                    &&& v.spec_result() == result
                    &&& v.spec_gesture() == gesture
                    &&& v.spec_mines() == mines
                    &&& v.spec_flags() == flags
                    &&& forall|x: int, y: int|
                        v.on_board(x, y) ==> #[trigger] v.spec_cell(x, y) == cells@[y]@[x]
                },
                None => true,
            },
    {
        let h = state.height();
        let w = state.width();
        if cells.len() != h {
            return None;
        }
        let mut y: usize = 0;
        while y < h
            invariant
                y <= h,
                h == state.spec_height(),
                w == state.spec_width(),
                cells@.len() == h,
                forall|k: int| 0 <= k < y ==> (#[trigger] cells@[k])@.len() == w,
            decreases h - y,
        {
            if cells[y].len() != w {
                assert(cells@[y as int]@.len() != w);
                return None;
            }
            y += 1;
        }
        if result != state.game_result() {
            return None;
        }
        if result == GameResult::Playing && flags != state.flags() {
            return None;
        }
        let inside = match gesture {
            Gesture::Hover(x, y) => x < w && y < h,
            Gesture::LeftOrRightPush(x, y) => x < w && y < h,
            Gesture::MidPush(x, y) => x < w && y < h,
            Gesture::Idle => true,
        };
        if !inside {
            return None;
        }
        Some(GameView { state, cells, result, gesture, mines, flags })
    }

    /// The options that the board was made with.
    pub fn options(&self) -> (options: GameOptions)
        ensures
            options == self.spec_state().spec_options(),
    {
        self.state.options()
    }

    /// The state of the game that the view shows.
    pub fn state(&self) -> (state: &GameState)
        ensures
            *state == self.spec_state(),
    {
        &self.state
    }

    /// How the game stands.
    pub fn result(&self) -> (r: GameResult)
        ensures
            r == self.spec_result(),
    {
        self.result
    }

    /// What the pointer does at the moment.
    pub fn pointer(&self) -> (g: Gesture)
        ensures
            g == self.spec_gesture(),
    {
        self.gesture
    }

    /// The number of columns.
    pub fn width(&self) -> (w: usize)
        requires
            self.wf(),
        ensures
            w == self.spec_width(),
            w >= 1,
    {
        self.state.width()
    }

    /// The number of rows.
    pub fn height(&self) -> (h: usize)
        requires
            self.wf(),
        ensures
            h == self.spec_height(),
            h >= 1,
    {
        self.state.height()
    }

    /// The picture of the cell `(x, y)`.
    pub fn cell(&self, x: usize, y: usize) -> (c: CellView)
        requires
            self.wf(),
            self.on_board(x as int, y as int),
        ensures
            c == self.spec_cell(x as int, y as int),
    {
        self.cells[y][x]
    }

    /// Shows `cell` at `(x, y)`; nothing else changes.
    pub fn set_cell(&mut self, x: usize, y: usize, cell: CellView)
        requires
            old(self).wf(),
            old(self).on_board(x as int, y as int),
        ensures
            final(self).wf(),
            final(self).same_game(old(self)),
            final(self).spec_cell(x as int, y as int) == cell,
            forall|x1: int, y1: int|
                old(self).on_board(x1, y1) && !(x1 == x && y1 == y) ==> final(self).spec_cell(x1, y1)
                    == #[trigger] old(self).spec_cell(x1, y1),
    {
        self.put_cell(x, y, cell);
    }

    fn put_cell(&mut self, x: usize, y: usize, cell: CellView)
        requires
            old(self).coherent(),
            old(self).on_board(x as int, y as int),
        ensures
            final(self).coherent(),
            final(self).same_game(old(self)),
            final(self).spec_cell(x as int, y as int) == cell,
            forall|x1: int, y1: int|
                old(self).on_board(x1, y1) && !(x1 == x && y1 == y) ==> final(self).spec_cell(x1, y1)
                    == #[trigger] old(self).spec_cell(x1, y1),
    {
        let mut row = self.cells[y].clone();
        assert(row@ == self.cells@[y as int]@);
        row.set(x, cell);
        self.cells.set(y, row);
    }

    /// The cells of the board that touch `(x, y)`, row by row from the top.
    pub fn nearby_cells(&self, x: usize, y: usize) -> (r: Vec<(usize, usize)>)
        requires
            self.wf(),
        ensures
            r@ == self.spec_nearby_cells(x as int, y as int),
            r@.len() <= 8,
            forall|i: int|
                0 <= i < r@.len() ==> self.on_board((#[trigger] r@[i]).0 as int, r@[i].1 as int),
    {
        self.state.nearby_cells(x, y)
    }

    /// Takes the result from the state; a game that is won shows every mine
    /// as flagged.
    fn refresh_game_result(&mut self)
        requires
            old(self).coherent(),
        ensures
            final(self).wf(),
            final(self).spec_state() == old(self).spec_state(),
            final(self).cells == old(self).cells,
            final(self).spec_gesture() == old(self).spec_gesture(),
            final(self).spec_mines() == old(self).spec_mines(),
            final(self).spec_result() == old(self).spec_state().spec_game_result(),
            final(self).spec_flags() == if final(self).spec_result() == GameResult::Win {
                old(self).spec_mines()
            } else {
                old(self).spec_flags()
            },
    {
        self.result = self.state.game_result();
        if self.result == GameResult::Win {
            self.flags = self.mines;
        }
    }

    /// Refreshes every cell.
    fn refresh_all_cell(&mut self) -> (redraw: RedrawCells)
        requires
            old(self).coherent(),
        ensures
            final(self).coherent(),
            final(self).same_game(old(self)),
            final(self).up_to_date(),
            forall|c: (usize, usize)| #[trigger]
                redraw@.contains(c) <==> old(self).on_board(c.0 as int, c.1 as int) && (
                old(self).stale())(c),
    {
        let mut redraw: Vec<(usize, usize)> = Vec::new();
        let h = self.state.height();
        let w = self.state.width();
        let mut y: usize = 0;
        while y < h
            invariant
                self.coherent(),
                self.same_game(old(self)),
                y <= h,
                h == self.spec_height(),
                w == self.spec_width(),
                forall|c: (usize, usize)| #[trigger]
                    redraw@.contains(c) <==> c.0 < w && c.1 < y && (old(self).stale())(c),
                forall|x1: int, y1: int|
                    0 <= x1 < w && y <= y1 < h ==> #[trigger] self.spec_cell(x1, y1)
                        == old(self).spec_cell(x1, y1),
                forall|x1: int, y1: int|
                    0 <= x1 < w && 0 <= y1 < y ==> #[trigger] self.spec_cell(x1, y1) == self.shown(
                        x1,
                        y1,
                    ),
            decreases h - y,
        {
            let mut x: usize = 0;
            while x < w
                invariant
                    self.coherent(),
                    self.same_game(old(self)),
                    x <= w,
                    y < h,
                    h == self.spec_height(),
                    w == self.spec_width(),
                    forall|c: (usize, usize)| #[trigger]
                        redraw@.contains(c) <==> c.0 < w && (c.1 < y || (c.1 == y && c.0 < x)) && (
                        old(self).stale())(c),
                    forall|x1: int, y1: int|
                        0 <= x1 < w && y <= y1 < h && !(y1 == y && x1 < x)
                            ==> #[trigger] self.spec_cell(x1, y1) == old(self).spec_cell(x1, y1),
                    forall|x1: int, y1: int|
                        0 <= x1 < w && (0 <= y1 < y || (y1 == y && x1 < x))
                            ==> #[trigger] self.spec_cell(x1, y1) == self.shown(x1, y1),
                decreases w - x,
            {
                let ghost before = *self;
                let ghost listed = redraw@;
                let changed = self.refresh_cell(x, y);
                let ghost added = changed@;
                append_cells(&mut redraw, changed);
                proof {
                    lemma_add_contains(listed, added);
                    assert(before.spec_cell(x as int, y as int) == old(self).spec_cell(
                        x as int,
                        y as int,
                    ));
                    assert forall|x1: int, y1: int|
                        0 <= x1 < w && y <= y1 < h && !(y1 == y && x1 < x + 1)
                            implies #[trigger] self.spec_cell(x1, y1) == old(self).spec_cell(
                        x1,
                        y1,
                    ) by {
                        assert(self.spec_cell(x1, y1) == before.spec_cell(x1, y1));
                    }
                    assert forall|c: (usize, usize)| #[trigger]
                        redraw@.contains(c) <==> c.0 < w && (c.1 < y || (c.1 == y && c.0 < x + 1)) && (
                        old(self).stale())(c) by {
                        if added.contains(c) {
                            assert(added[0] == c);
                        }
                        if c == (x, y) && (old(self).stale())(c) {
                            assert(added[0] == c);
                        }
                    }
                    assert forall|x1: int, y1: int|
                        0 <= x1 < w && (0 <= y1 < y || (y1 == y && x1 < x + 1))
                            implies #[trigger] self.spec_cell(x1, y1) == self.shown(x1, y1) by {
                        if !(x1 == x && y1 == y) {
                            assert(self.spec_cell(x1, y1) == before.spec_cell(x1, y1));
                        }
                    }
                }
                x += 1;
            }
            y += 1;
        }
        RedrawCells(redraw)
    }

    /// Refreshes the cell `(x, y)` and the cells that touch it.
    #[verifier::rlimit(40)]
    fn refresh_3x3_cell(&mut self, x: usize, y: usize) -> (redraw: RedrawCells)
        requires
            old(self).coherent(),
            old(self).on_board(x as int, y as int),
        ensures
            final(self).coherent(),
            final(self).same_game(old(self)),
            forall|x1: int, y1: int|
                old(self).on_board(x1, y1) ==> #[trigger] final(self).spec_cell(x1, y1) == if (x1 == x
                    && y1 == y) || old(self).spec_nearby_cells(x as int, y as int).contains(
                    (x1 as usize, y1 as usize),
                ) {
                    old(self).shown(x1, y1)
                } else {
                    old(self).spec_cell(x1, y1)
                },
            redraw@ == (seq![(x, y)] + old(self).spec_nearby_cells(x as int, y as int)).filter(
                old(self).stale(),
            ),
    {
        let mut redraw: Vec<(usize, usize)> = Vec::new();
        let changed = self.refresh_cell(x, y);
        append_cells(&mut redraw, changed);
        let around = self.state.nearby_cells(x, y);
        let mut i: usize = 0;
        proof {
            self.state.lemma_size();
            lemma_neighbours(self.spec_width() as int, self.spec_height() as int, x as int, y as int);
            lemma_filter_one((x, y), old(self).stale());
            assert(seq![(x, y)] + around@.take(0) =~= seq![(x, y)]);
        }
        while i < around.len()
            invariant
                self.coherent(),
                around@.no_duplicates(),
                !around@.contains((x, y)),
                redraw@ == (seq![(x, y)] + around@.take(i as int)).filter(old(self).stale()),
                self.same_game(old(self)),
                i <= around.len(),
                old(self).on_board(x as int, y as int),
                around@ == old(self).spec_nearby_cells(x as int, y as int),
                old(self).spec_width() <= usize::MAX,
                old(self).spec_height() <= usize::MAX,
                forall|x1: int, y1: int|
                    old(self).on_board(x1, y1) ==> #[trigger] self.spec_cell(x1, y1) == if (x1 == x
                        && y1 == y) || around@.take(i as int).contains((x1 as usize, y1 as usize)) {
                        old(self).shown(x1, y1)
                    } else {
                        old(self).spec_cell(x1, y1)
                    },
                forall|k: int|
                    0 <= k < around@.len() ==> old(self).on_board(
                        (#[trigger] around@[k]).0 as int,
                        around@[k].1 as int,
                    ),
            decreases around.len() - i,
        {
            let (cx, cy) = around[i];
            assert(old(self).on_board(around@[i as int].0 as int, around@[i as int].1 as int));
            let ghost before = *self;
            let changed = self.refresh_cell(cx, cy);
            append_cells(&mut redraw, changed);
            proof {
                let done = around@.take(i as int);
                let more = around@.take(i + 1);
                assert(more =~= done.push(around@[i as int]));
                assert(seq![(x, y)] + more =~= (seq![(x, y)] + done).push((cx, cy)));
                (seq![(x, y)] + done).lemma_filter_push((cx, cy), old(self).stale());
                assert(!done.contains((cx, cy))) by {
                    if done.contains((cx, cy)) {
                        let k = choose|k: int| 0 <= k < done.len() && done[k] == (cx, cy);
                        assert(around@[k] == around@[i as int]);
                    }
                }
                assert(around@.contains((cx, cy)));
                assert(before.spec_cell(cx as int, cy as int) == old(self).spec_cell(
                    cx as int,
                    cy as int,
                ));
                before.lemma_shown_same(old(self), cx as int, cy as int);
                assert forall|x1: int, y1: int| old(self).on_board(x1, y1) implies #[trigger]
                    self.spec_cell(x1, y1) == if (x1 == x && y1 == y) || more.contains(
                    (x1 as usize, y1 as usize),
                ) {
                    old(self).shown(x1, y1)
                } else {
                    old(self).spec_cell(x1, y1)
                } by {
                    let c = (x1 as usize, y1 as usize);
                    if done.contains(c) {
                        let k = choose|k: int| 0 <= k < done.len() && done[k] == c;
                        assert(more[k] == c);
                    }
                    if more.contains(c) && !done.contains(c) {
                        let k = choose|k: int| 0 <= k < more.len() && more[k] == c;
                        if k < i {
                            assert(done[k] == c);
                        }
                    }
                    if x1 == cx && y1 == cy {
                        assert(more[i as int] == c);
                        before.lemma_shown_same(old(self), x1, y1);
                    } else {
                        assert(self.spec_cell(x1, y1) == before.spec_cell(x1, y1));
                    }
                }
            }
            i += 1;
        }
        assert(around@.take(i as int) =~= around@);
        RedrawCells(redraw)
    }

    /// Refreshes the cells that the gesture touches.
    fn refresh_gesture(&mut self, gesture: Gesture) -> (redraw: RedrawCells)
        requires
            old(self).coherent(),
            gesture_in_grid(gesture, old(self).spec_width() as int, old(self).spec_height() as int),
        ensures
            final(self).coherent(),
            final(self).same_game(old(self)),
            forall|x1: int, y1: int|
                old(self).on_board(x1, y1) ==> #[trigger] final(self).spec_cell(x1, y1) == if reaches(
                    gesture,
                    x1,
                    y1,
                ) {
                    old(self).shown(x1, y1)
                } else {
                    old(self).spec_cell(x1, y1)
                },
            redraw@ == touched_by(
                gesture,
                old(self).spec_width() as int,
                old(self).spec_height() as int,
            ).filter(old(self).stale()),
    {
        proof {
            self.state.lemma_size();
            match gesture {
                Gesture::Hover(x, y) | Gesture::LeftOrRightPush(x, y) => {
                    lemma_filter_one((x, y), old(self).stale());
                },
                Gesture::MidPush(x, y) => {},
                Gesture::Idle => {
                    assert(Seq::<(usize, usize)>::empty().filter(old(self).stale()).len() == 0) by {
                        reveal(Seq::filter);
                    }
                },
            }
        }
        match gesture {
            Gesture::Hover(x, y) | Gesture::LeftOrRightPush(x, y) => self.refresh_cell(x, y),
            Gesture::MidPush(x, y) => {
                proof {
                    lemma_neighbours(
                        self.spec_width() as int,
                        self.spec_height() as int,
                        x as int,
                        y as int,
                    );
                }
                let redraw = self.refresh_3x3_cell(x, y);
                proof {
                    let near = old(self).spec_nearby_cells(x as int, y as int);
                    assert forall|x1: int, y1: int| old(self).on_board(x1, y1) implies (
                    #[trigger] self.spec_cell(x1, y1)) == if reaches(gesture, x1, y1) {
                        old(self).shown(x1, y1)
                    } else {
                        old(self).spec_cell(x1, y1)
                    } by {
                        let c = (x1 as usize, y1 as usize);
                        assert(near.contains(c) <==> adjacent(x as int, y as int, x1, y1));
                    }
                }
                redraw
            },
            Gesture::Idle => RedrawCells(Vec::new()),
        }
    }

    /// Gives the cell `(x, y)` the picture that its state, the result and
    /// the gesture call for, and reports the cell if its picture changed.
    fn refresh_cell(&mut self, x: usize, y: usize) -> (redraw: RedrawCells)
        requires
            old(self).coherent(),
            old(self).on_board(x as int, y as int),
        ensures
            final(self).coherent(),
            final(self).same_game(old(self)),
            final(self).spec_cell(x as int, y as int) == old(self).shown(x as int, y as int),
            forall|x1: int, y1: int|
                old(self).on_board(x1, y1) && !(x1 == x && y1 == y) ==> final(self).spec_cell(x1, y1)
                    == #[trigger] old(self).spec_cell(x1, y1),
            redraw@ == if old(self).spec_cell(x as int, y as int) == old(self).shown(
                x as int,
                y as int,
            ) {
                Seq::<(usize, usize)>::empty()
            } else {
                seq![(x, y)]
            },
    {
        let previous = self.cells[y][x];
        let mine = self.state.is_mine(x, y);
        let state = self.state.cell(x, y);
        let plain = match (self.result, mine, state) {
            (_, false, CellState::Opened) => CellView::Opened(self.state.nearby_mines(x, y)),
            (GameResult::Win, true, _) => CellView::Flagged,
            (GameResult::Lose, true, CellState::Unopened) => CellView::Mine,
            (GameResult::Lose, false, CellState::Flagged) => CellView::WrongMine,
            (_, true, CellState::Opened) => CellView::Exploded,
            (_, _, CellState::Unopened) => CellView::Unopened,
            (_, _, CellState::Flagged) => CellView::Flagged,
            (_, _, CellState::Questioned) => CellView::Questioned,
        };
        let shown = if self.result == GameResult::Playing && plain == CellView::Unopened {
            proof {
                self.state.lemma_size();
            }
            match self.gesture {
                Gesture::Hover(x0, y0) => if x == x0 && y == y0 {
                    CellView::Hovered
                } else {
                    CellView::Unopened
                },
                Gesture::LeftOrRightPush(x0, y0) => if x == x0 && y == y0 {
                    CellView::Pushed
                } else {
                    CellView::Unopened
                },
                Gesture::MidPush(x0, y0) => if x == x0 && y == y0 {
                    CellView::Hovered
                } else if (x == 0 || x - 1 <= x0) && x0 <= x + 1 && (y == 0 || y - 1 <= y0) && y0
                    <= y + 1 {
                    CellView::Pushed
                } else {
                    CellView::Unopened
                },
                Gesture::Idle => CellView::Unopened,
            }
        } else {
            plain
        };
        self.put_cell(x, y, shown);
        let mut redraw: Vec<(usize, usize)> = Vec::new();
        if previous != shown {
            redraw.push((x, y));
            assert(redraw@ =~= seq![(x, y)]);
        }
        RedrawCells(redraw)
    }

    /// Opens a cell of the state that is untouched; its picture stays.
    fn open_cell(&mut self, x: usize, y: usize)
        requires
            old(self).coherent(),
            old(self).on_board(x as int, y as int),
            old(self).spec_state().spec_cell(x as int, y as int) == CellState::Unopened,
        ensures
            final(self).coherent(),
            final(self).spec_state().opened_since(&old(self).spec_state()),
            final(self).spec_state().spec_cell(x as int, y as int) == CellState::Opened,
            forall|x1: int, y1: int|
                old(self).on_board(x1, y1) && !(x1 == x && y1 == y)
                    ==> final(self).spec_state().spec_cell(x1, y1)
                        == #[trigger] old(self).spec_state().spec_cell(
                    x1,
                    y1,
                ),
            forall|x1: int, y1: int| #[trigger]
                final(self).spec_cell(x1, y1) == old(self).spec_cell(x1, y1),
            final(self).spec_result() == old(self).spec_result(),
            final(self).spec_gesture() == old(self).spec_gesture(),
            final(self).spec_mines() == old(self).spec_mines(),
            final(self).spec_flags() == old(self).spec_flags(),
            count_where(final(self).spec_state().all_cells(), final(self).spec_state().unopened())
                < count_where(old(self).spec_state().all_cells(), old(self).spec_state().unopened()),
    {
        self.state.set_cell(x, y, CellState::Opened);
        proof {
            let before = old(self).state;
            let after = self.state;
            let cells = before.all_cells();
            before.lemma_size();
            lemma_grid_cells(before.spec_width(), before.spec_height());
            assert(cells.contains((x, y)));
            assert forall|i: int| 0 <= i < cells.len() implies (before.flagged())(#[trigger] cells[i])
                == (after.flagged())(cells[i]) by {
                assert(cells.contains(cells[i]));
            }
            lemma_count_same(cells, before.flagged(), after.flagged());
            assert forall|i: int| 0 <= i < cells.len() && cells[i] != (x, y) implies (
            before.unopened())(#[trigger] cells[i]) == (after.unopened())(cells[i]) by {
                assert(cells.contains(cells[i]));
            }
            lemma_count_change(cells, before.unopened(), after.unopened(), (x, y));
            if self.result != GameResult::Playing {
                after.lemma_end_stays(&before);
            }
        }
    }

    /// What a left click at `(x, y)` has made of the view `before`. Nothing
    /// has changed where the game was not played or the cell was touched.
    /// Else the cell is opened, and with it the cells that the opening
    /// spreads to. The result is that of the new state; a game that is won
    /// counts every mine as flagged; and every picture that was fresh is.
    pub open spec fn left_clicked(&self, before: &GameView, x: usize, y: usize) -> bool {
        let untouched = before.spec_state().spec_cell(x as int, y as int) == CellState::Unopened;
        let played = before.spec_result() == GameResult::Playing;
        &&& self.played_on(before)
        &&& !played || !untouched ==> *self == *before
        &&& played && untouched ==> self.spec_state().spec_cell(x as int, y as int)
            == CellState::Opened && self.spec_state().opened_from(&before.spec_state(), (x, y))
            && self.spec_result() == self.spec_state().spec_game_result()
        &&& self.spec_flags() == if self.spec_result() == GameResult::Win && played {
            before.spec_mines()
        } else {
            before.spec_flags()
        }
        &&& self.kept_fresh(before)
        &&& self.spec_result() == GameResult::Playing ==> played
    }

    /// Opens the cell `(x, y)` if the game is played and the cell is
    /// untouched. Where it holds no mine and no mine touches it, the cells
    /// around it are opened in the same way. Then the result is taken anew.
    pub fn left_click(&mut self, x: usize, y: usize) -> (redraw: RedrawCells)
        requires
            old(self).wf(),
            old(self).on_board(x as int, y as int),
        ensures
            final(self).wf(),
            final(self).left_clicked(old(self), x, y),
            *final(self) == *old(self) ==> redraw@.len() == 0,
            final(self).lists_changes(old(self), redraw@),
            old(self).up_to_date() ==> final(self).lists_only_changes(old(self), redraw@),
    {
        self.open_from(x, y)
    }

    /// The opening that began at `from` in the view `begun` has come to this
    /// view, with the cells of `pending` still to look at: the game is
    /// played, only cells were opened, and every picture that was fresh is.
    pub open spec fn spreading(
        &self,
        begun: &GameView,
        from: (usize, usize),
        pending: Seq<(usize, usize)>,
    ) -> bool {
        &&& self.coherent()
        &&& self.spec_result() == GameResult::Playing
        &&& self.spec_flags() == begun.spec_flags()
        &&& self.played_on(begun)
        &&& self.kept_fresh(begun)
        &&& begun.spec_state().wf()
        &&& !begun.spec_state().spec_is_mine(from.0 as int, from.1 as int)
        &&& begun.spec_state().flooding(&self.spec_state(), from, pending)
    }

    /// Takes the first cell that waits. If it is untouched, opens it and
    /// gives it its picture; if no mine touches it, the cells around it wait
    /// from now on.
    #[verifier::rlimit(40)]
    fn spread(
        &mut self,
        pending: &mut Vec<(usize, usize)>,
        redraw: &mut Vec<(usize, usize)>,
        Ghost(begun): Ghost<GameView>,
        Ghost(from): Ghost<(usize, usize)>,
    )
        requires
            old(self).spreading(&begun, from, old(pending)@),
            old(self).listing(&begun, old(redraw)@),
            old(pending)@.len() > 0,
        ensures
            final(self).spreading(&begun, from, final(pending)@),
            final(self).listing(&begun, final(redraw)@),
            count_where(final(self).spec_state().all_cells(), final(self).spec_state().unopened())
                < count_where(old(self).spec_state().all_cells(), old(self).spec_state().unopened())
                || (count_where(
                final(self).spec_state().all_cells(),
                final(self).spec_state().unopened(),
            ) == count_where(old(self).spec_state().all_cells(), old(self).spec_state().unopened())
                && final(pending)@.len() < old(pending)@.len()),
    {
        let ghost start = begun.spec_state();
        let ghost waiting = pending@;
        let (cx, cy) = pop_first(pending);
        proof {
            let k = choose|k: int| 0 <= k < waiting.len() && waiting[k] == (cx, cy);
            assert(start.holds(waiting[k]));
        }
        if self.state.cell(cx, cy) == CellState::Unopened {
            let ghost before = *self;
            self.open_cell(cx, cy);
            let ghost opened = *self;
            let ghost listed = redraw@;
            let changed = self.refresh_cell(cx, cy);
            let ghost added = changed@;
            append_cells(redraw, changed);
            proof {
                self.lemma_fresh_after_opening(&begun, &before, &opened, (cx, cy));
                assert forall|x1: int, y1: int|
                    before.on_board(x1, y1) && !(x1 == cx && y1 == cy) implies self.spec_cell(x1, y1)
                    == #[trigger] before.spec_cell(x1, y1) by {
                    assert(opened.spec_cell(x1, y1) == before.spec_cell(x1, y1));
                    assert(self.spec_cell(x1, y1) == opened.spec_cell(x1, y1));
                }
                assert(opened.spec_cell(cx as int, cy as int) == before.spec_cell(
                    cx as int,
                    cy as int,
                ));
                self.lemma_listing_step(&begun, &before, (cx, cy), listed, added);
            }
            let ghost left = pending@;
            if self.state.nearby_mines(cx, cy) == 0 {
                let around = self.state.nearby_cells(cx, cy);
                wait_for(pending, &around);
            }
            proof {
                let near = start.spec_nearby_cells(cx as int, cy as int);
                assert(near == self.spec_state().spec_nearby_cells(cx as int, cy as int));
                assert forall|i: int| 0 <= i < near.len() implies (start.mined())(
                    #[trigger] near[i],
                ) == (self.spec_state().mined())(near[i]) by {}
                lemma_count_same(near, start.mined(), self.spec_state().mined());
                lemma_waiting(waiting, left, pending@, (cx, cy), near);
                start.lemma_flood_opens(
                    &before.spec_state(),
                    &self.spec_state(),
                    from,
                    waiting,
                    (cx, cy),
                    pending@,
                );
            }
        } else {
            proof {
                start.lemma_flood_skips(&self.spec_state(), from, waiting, (cx, cy), pending@);
            }
        }
    }

    /// What `left_click` does, on a view whose result may be out of date.
    #[verifier::rlimit(40)]
    fn open_from(&mut self, x: usize, y: usize) -> (redraw: RedrawCells)
        requires
            old(self).coherent(),
            old(self).on_board(x as int, y as int),
        ensures
            final(self).coherent(),
            final(self).played_on(old(self)),
            old(self).spec_result() != GameResult::Playing || old(self).spec_state().spec_cell(
                x as int,
                y as int,
            ) != CellState::Unopened ==> *final(self) == *old(self) && redraw@.len() == 0,
            old(self).spec_result() == GameResult::Playing && old(self).spec_state().spec_cell(
                x as int,
                y as int,
            ) == CellState::Unopened ==> final(self).wf() && final(self).spec_state().spec_cell(
                x as int,
                y as int,
            ) == CellState::Opened && final(self).spec_state().opened_from(
                &old(self).spec_state(),
                (x, y),
            ),
            final(self).spec_flags() == if final(self).spec_result() == GameResult::Win
                && old(self).spec_result() == GameResult::Playing {
                old(self).spec_mines()
            } else {
                old(self).spec_flags()
            },
            final(self).kept_fresh(old(self)),
            final(self).spec_result() == GameResult::Playing ==> old(self).spec_result()
                == GameResult::Playing,
            final(self).lists_changes(old(self), redraw@),
            old(self).up_to_date() ==> final(self).lists_only_changes(old(self), redraw@),
            final(self).spec_result() == GameResult::Playing ==> final(self).listing(
                old(self),
                redraw@,
            ),
    {
        let mut redraw: Vec<(usize, usize)> = Vec::new();
        if self.result != GameResult::Playing {
            return RedrawCells(redraw);
        }
        if self.state.cell(x, y) != CellState::Unopened {
            return RedrawCells(redraw);
        }
        if self.state.is_mine(x, y) {
            self.open_cell(x, y);
            proof {
                assert(self.listing(old(self), redraw@));
                assert(self.spec_state().on_board(x as int, y as int) && self.spec_state().spec_cell(
                    x as int,
                    y as int,
                ) == CellState::Opened && self.spec_state().spec_is_mine(x as int, y as int));
                assert(self.spec_state().spec_game_result() == GameResult::Lose);
                old(self).spec_state().lemma_opened_alone(&self.spec_state(), (x, y));
            }
        } else {
            let mut pending: Vec<(usize, usize)> = Vec::new();
            pending.push((x, y));
            proof {
                assert(pending@ =~= seq![(x, y)]);
                old(self).spec_state().lemma_flood_begins((x, y));
            }
            while pending.len() > 0
                invariant
                    self.spreading(old(self), (x, y), pending@),
                    self.listing(old(self), redraw@),
                decreases
                        count_where(self.spec_state().all_cells(), self.spec_state().unopened()),
                        pending@.len(),
            {
                self.spread(&mut pending, &mut redraw, Ghost(*old(self)), Ghost((x, y)));
            }
            proof {
                assert(pending@ =~= Seq::<(usize, usize)>::empty());
                old(self).spec_state().lemma_flood_ends(&self.spec_state(), (x, y));
            }
        }
        let ghost opened = *self;
        let ghost flood = redraw@;
        self.refresh_game_result();
        let ghost judged = *self;
        let ghost swept = Seq::<(usize, usize)>::empty();
        if self.result != GameResult::Playing {
            let changed = self.refresh_all_cell();
            proof {
                swept = changed@;
            }
            append_cells(&mut redraw, changed);
        } else {
            proof {
                assert forall|x1: int, y1: int|
                    old(self).on_board(x1, y1) && old(self).spec_cell(x1, y1) == old(self).shown(
                        x1,
                        y1,
                    ) implies #[trigger] self.spec_cell(x1, y1) == self.shown(x1, y1) by {
                    opened.lemma_shown_same(&*self, x1, y1);
                }
                assert(redraw@ =~= flood + swept);
            }
        }
        proof {
            assert(judged.listing(old(self), flood));
            assert forall|c: (usize, usize)|
                judged.on_board(c.0 as int, c.1 as int) implies (#[trigger] swept.contains(c)
                <==> self.repainted(&judged, c)) by {
                if judged.spec_result() != GameResult::Playing {
                    assert(self.spec_cell(c.0 as int, c.1 as int) == self.shown(
                        c.0 as int,
                        c.1 as int,
                    ));
                }
            }
            self.lemma_click_listed(old(self), &judged, flood, swept);
        }
        RedrawCells(redraw)
    }

    /// What a right click at `(x, y)` has made of the view `before`. Nothing
    /// has changed where the game was not played or the cell was opened.
    /// Else an untouched cell has got a flag, a flag has become a question
    /// mark, and a question mark is gone; the flags are counted, no other
    /// cell has changed its state or its picture, and every picture that
    /// was fresh is.
    pub open spec fn right_clicked(&self, before: &GameView, x: usize, y: usize) -> bool {
        let was = before.spec_state().spec_cell(x as int, y as int);
        let is = self.spec_state().spec_cell(x as int, y as int);
        let played = before.spec_result() == GameResult::Playing;
        &&& self.spec_state().same_opened(&before.spec_state())
        &&& self.spec_result() == before.spec_result()
        &&& self.spec_gesture() == before.spec_gesture()
        &&& self.spec_mines() == before.spec_mines()
        &&& !played || was == CellState::Opened ==> *self == *before
        &&& played ==> match was {
            CellState::Unopened => is == CellState::Flagged && self.spec_flags()
                == before.spec_flags() + 1,
            CellState::Flagged => is == CellState::Questioned && self.spec_flags()
                == before.spec_flags() - 1,
            CellState::Questioned => is == CellState::Unopened && self.spec_flags()
                == before.spec_flags(),
            CellState::Opened => true,
        }
        &&& forall|x1: int, y1: int|
            before.on_board(x1, y1) && !(x1 == x && y1 == y) ==> self.spec_state().spec_cell(x1, y1)
                == #[trigger] before.spec_state().spec_cell(x1, y1)
        &&& forall|x1: int, y1: int|
            before.on_board(x1, y1) && !(x1 == x && y1 == y) ==> self.spec_cell(x1, y1)
                == #[trigger] before.spec_cell(x1, y1)
        &&& self.kept_fresh(before)
    }

    /// Marks the cell `(x, y)` if the game is played and the cell is not
    /// opened: an untouched cell gets a flag, a flag becomes a question
    /// mark, and a question mark is taken away.
    #[verifier::rlimit(40)]
    pub fn right_click(&mut self, x: usize, y: usize) -> (redraw: RedrawCells)
        requires
            old(self).wf(),
            old(self).on_board(x as int, y as int),
        ensures
            final(self).wf(),
            final(self).right_clicked(old(self), x, y),
            *final(self) == *old(self) ==> redraw@.len() == 0,
            redraw@ == if final(self).repainted(old(self), (x, y)) {
                seq![(x, y)]
            } else {
                Seq::<(usize, usize)>::empty()
            },
    {
        if self.result != GameResult::Playing {
            return RedrawCells(Vec::new());
        }
        let cell_state = self.state.cell(x, y);
        let new_cell_state = match cell_state {
            CellState::Unopened => CellState::Flagged,
            CellState::Flagged => CellState::Questioned,
            CellState::Questioned => CellState::Unopened,
            CellState::Opened => {
                return RedrawCells(Vec::new());
            },
        };
        self.state.set_cell(x, y, new_cell_state);
        proof {
            let before = old(self).state;
            let after = self.state;
            let cells = before.all_cells();
            before.lemma_size();
            lemma_grid_cells(before.spec_width(), before.spec_height());
            assert(cells.contains((x, y)));
            assert forall|i: int| 0 <= i < cells.len() && cells[i] != (x, y) implies (
            before.flagged())(#[trigger] cells[i]) == (after.flagged())(cells[i]) by {
                assert(cells.contains(cells[i]));
            }
            lemma_count_push(cells, (x, y), after.flagged());
            lemma_count_push(cells, (x, y), before.flagged());
            if new_cell_state == CellState::Flagged {
                lemma_count_change(cells, after.flagged(), before.flagged(), (x, y));
            } else if cell_state == CellState::Flagged {
                lemma_count_change(cells, before.flagged(), after.flagged(), (x, y));
            } else {
                assert forall|i: int| 0 <= i < cells.len() implies (before.flagged())(
                    #[trigger] cells[i],
                ) == (after.flagged())(cells[i]) by {
                    assert(cells.contains(cells[i]));
                }
                lemma_count_same(cells, before.flagged(), after.flagged());
            }
            after.lemma_result_same(&before);
        }
        match cell_state {
            CellState::Unopened => {
                self.flags += 1;
            },
            CellState::Flagged => {
                self.flags -= 1;
            },
            _ => {},
        }
        let ghost marked = *self;
        let redraw = self.refresh_cell(x, y);
        proof {
            assert forall|x1: int, y1: int|
                old(self).on_board(x1, y1) && !(x1 == x && y1 == y) implies self.spec_cell(x1, y1)
                == #[trigger] old(self).spec_cell(x1, y1) by {
                assert(marked.spec_cell(x1, y1) == old(self).spec_cell(x1, y1));
                assert(self.spec_cell(x1, y1) == marked.spec_cell(x1, y1));
            }
            assert forall|x1: int, y1: int|
                old(self).on_board(x1, y1) && old(self).spec_cell(x1, y1) == old(self).shown(
                    x1,
                    y1,
                ) implies #[trigger] self.spec_cell(x1, y1) == self.shown(x1, y1) by {
                if !(x1 == x && y1 == y) {
                    assert(self.spec_cell(x1, y1) == marked.spec_cell(x1, y1));
                    assert(marked.spec_state().spec_cell(x1, y1)
                        == old(self).spec_state().spec_cell(x1, y1));
                    old(self).lemma_shown_same(&*self, x1, y1);
                }
            }
        }
        redraw
    }

    /// Every cell that was fresh in `other` and is none of `cells` is fresh
    /// now.
    pub open spec fn fresh_but(&self, other: &GameView, cells: Seq<(usize, usize)>) -> bool {
        forall|x: int, y: int|
            other.on_board(x, y) && other.spec_cell(x, y) == other.shown(x, y) && !cells.contains(
                (x as usize, y as usize),
            ) ==> #[trigger] self.spec_cell(x, y) == self.shown(x, y)
    }

    /// What opening beside a clue has made of the cell `c` of the view
    /// `before`. An untouched cell that is not blank is opened, whatever it
    /// holds and whatever the view says of the result. An untouched blank
    /// cell is opened while the view shows the game as played, with the
    /// cells that the opening spreads to, and the result is taken anew.
    /// Else nothing is opened.
    pub open spec fn opened_beside(&self, before: &GameView, c: (usize, usize)) -> bool {
        let was = before.spec_state();
        let untouched = was.at(c) == CellState::Unopened;
        let played = before.spec_result() == GameResult::Playing;
        &&& if untouched && (played || !was.blank(c)) {
            self.spec_state().opened_from(&was, c)
        } else {
            self.spec_state() == was
        }
        &&& self.spec_result() == if untouched && played && was.blank(c) {
            self.spec_state().spec_game_result()
        } else {
            before.spec_result()
        }
    }

    /// The views `steps` lead from the view `before` to this one through
    /// the cells around `(x, y)`, row by row: each comes from the one before
    /// it by opening beside the clue, and the last has the state of this
    /// view.
    pub open spec fn chorded(
        &self,
        before: &GameView,
        steps: Seq<GameView>,
        x: usize,
        y: usize,
    ) -> bool {
        let near = before.spec_nearby_cells(x as int, y as int);
        &&& steps.len() == near.len() + 1
        &&& steps[0].spec_state() == before.spec_state()
        &&& steps[0].spec_result() == before.spec_result()
        &&& forall|i: int|
            0 <= i < near.len() ==> steps[i + 1].opened_beside(&steps[i], #[trigger] near[i])
        &&& self.spec_state() == steps[near.len() as int].spec_state()
    }

    /// Opens a cell beside a clue if it is untouched: as a left click does
    /// where it holds no mine and no mine touches it, and else the cell
    /// alone, whatever it holds and without a new picture.
    fn open_beside(&mut self, x: usize, y: usize) -> (redraw: RedrawCells)
        requires
            old(self).coherent(),
            old(self).on_board(x as int, y as int),
        ensures
            final(self).coherent(),
            final(self).played_on(old(self)),
            final(self).spec_flags() == if final(self).spec_result() == GameResult::Win
                && old(self).spec_result() == GameResult::Playing {
                old(self).spec_mines()
            } else {
                old(self).spec_flags()
            },
            final(self).spec_result() == GameResult::Playing ==> old(self).spec_result()
                == GameResult::Playing,
            final(self).spec_result() == GameResult::Playing ==> final(self).spec_state().spec_cell(
                x as int,
                y as int,
            ) != CellState::Unopened,
            forall|x1: int, y1: int|
                old(self).on_board(x1, y1) && old(self).spec_cell(x1, y1) == old(self).shown(x1, y1)
                    && !(x1 == x && y1 == y)
                        ==> #[trigger] final(self).spec_cell(x1, y1) == final(self).shown(x1, y1),
            final(self).lists_changes(old(self), redraw@),
            final(self).spec_result() == GameResult::Playing ==> final(self).listing(
                old(self),
                redraw@,
            ),
            final(self).opened_beside(old(self), (x, y)),
    {
        if self.state.cell(x, y) == CellState::Unopened {
            if !self.state.is_mine(x, y) && self.state.nearby_mines(x, y) == 0 {
                self.open_from(x, y)
            } else {
                let ghost before = *self;
                self.open_cell(x, y);
                proof {
                    old(self).spec_state().lemma_opened_alone(&self.spec_state(), (x, y));
                    assert forall|x1: int, y1: int|
                        old(self).on_board(x1, y1) && old(self).spec_cell(x1, y1) == old(self).shown(
                            x1,
                            y1,
                        ) && !(x1 == x && y1 == y) implies #[trigger] self.spec_cell(x1, y1)
                        == self.shown(x1, y1) by {
                        before.lemma_shown_same(&*self, x1, y1);
                    }
                }
                RedrawCells(Vec::new())
            }
        } else {
            RedrawCells(Vec::new())
        }
    }

    /// Whether a middle click at `(x, y)` does anything: the game is played,
    /// the cell is opened, and as many flags as mines touch it.
    pub open spec fn chord_allowed(&self, x: usize, y: usize) -> bool {
        &&& self.spec_result() == GameResult::Playing
        &&& self.spec_state().spec_cell(x as int, y as int) == CellState::Opened
        &&& count_where(self.spec_nearby_cells(x as int, y as int), self.spec_state().mined())
            == count_where(self.spec_nearby_cells(x as int, y as int), self.spec_state().flagged())
    }

    /// What a middle click at `(x, y)` has made of the view `before`.
    /// Nothing has changed where the click was not allowed. Else cells were
    /// opened and nothing else was done to a cell; where the game is still
    /// played, no cell around `(x, y)` is left untouched. The state is the
    /// one that opening beside the clue leads to, cell by cell. A game that
    /// was won on the way counts every mine as flagged, and every picture
    /// that was fresh is.
    pub open spec fn middle_clicked(&self, before: &GameView, x: usize, y: usize) -> bool {
        &&& self.played_on(before)
        &&& !before.chord_allowed(x, y) ==> *self == *before
        &&& self.spec_flags() == before.spec_flags() || self.spec_flags() == before.spec_mines()
        &&& self.spec_result() == GameResult::Playing ==> self.spec_flags() == before.spec_flags()
            && before.spec_result() == GameResult::Playing
        &&& before.chord_allowed(x, y) ==> self.spec_result()
            == self.spec_state().spec_game_result()
        &&& before.chord_allowed(x, y) && self.spec_result() == GameResult::Playing
            ==> forall|i: int|
            0 <= i < before.spec_nearby_cells(x as int, y as int).len()
                ==> self.spec_state().spec_cell(
                (#[trigger] before.spec_nearby_cells(x as int, y as int)[i]).0 as int,
                before.spec_nearby_cells(x as int, y as int)[i].1 as int,
            ) != CellState::Unopened
        &&& self.kept_fresh(before)
        &&& before.chord_allowed(x, y) ==> exists|steps: Seq<GameView>| #[trigger]
            self.chorded(before, steps, x, y)
    }

    /// Opens the untouched cells around `(x, y)` if the game is played, the
    /// cell is opened and as many flags as mines touch it. A cell that holds
    /// no mine and that no mine touches is opened as a left click opens it.
    /// Then the result is taken anew.
    #[verifier::rlimit(40)]
    pub fn middle_click(&mut self, x: usize, y: usize) -> (redraw: RedrawCells)
        requires
            old(self).wf(),
            old(self).on_board(x as int, y as int),
        ensures
            final(self).wf(),
            final(self).middle_clicked(old(self), x, y),
            !old(self).chord_allowed(x, y) ==> redraw@.len() == 0,
            final(self).lists_changes(old(self), redraw@),
            old(self).up_to_date() && final(self).spec_result() == GameResult::Playing
                ==> final(self).lists_only_changes(old(self), redraw@),
    {
        if self.result != GameResult::Playing {
            return RedrawCells(Vec::new());
        }
        if self.state.cell(x, y) != CellState::Opened || self.state.nearby_mines(x, y)
            != self.state.nearby_flags(x, y) {
            return RedrawCells(Vec::new());
        }
        let mut redraw: Vec<(usize, usize)> = Vec::new();
        let around = self.state.nearby_cells(x, y);
        let mut i: usize = 0;
        let ghost mut steps: Seq<GameView> = seq![*self];
        while i < around.len()
            invariant
                self.coherent(),
                steps.len() == i + 1,
                steps[0] == *old(self),
                steps[i as int] == *self,
                forall|k: int|
                    0 <= k < i ==> steps[k + 1].opened_beside(&steps[k], #[trigger] around@[k]),
                self.played_on(old(self)),
                old(self).on_board(x as int, y as int),
                around@ == old(self).spec_nearby_cells(x as int, y as int),
                i <= around.len(),
                forall|k: int|
                    0 <= k < around@.len() ==> old(self).on_board(
                        (#[trigger] around@[k]).0 as int,
                        around@[k].1 as int,
                    ),
                self.spec_flags() == old(self).spec_flags() || self.spec_flags()
                    == old(self).spec_mines(),
                self.spec_result() == GameResult::Playing
                    ==> self.spec_flags() == old(self).spec_flags(),
                self.spec_result() == GameResult::Playing ==> forall|k: int|
                    0 <= k < i ==> self.spec_state().spec_cell(
                        (#[trigger] around@[k]).0 as int,
                        around@[k].1 as int,
                    ) != CellState::Unopened,
                self.fresh_but(old(self), around@),
                self.lists_changes(old(self), redraw@),
                self.spec_result() == GameResult::Playing ==> self.listing(old(self), redraw@),
            decreases around.len() - i,
        {
            let (cx, cy) = around[i];
            assert(old(self).on_board(around@[i as int].0 as int, around@[i as int].1 as int));
            let ghost before = *self;
            let ghost listed = redraw@;
            let changed = self.open_beside(cx, cy);
            let ghost added = changed@;
            append_cells(&mut redraw, changed);
            proof {
                let so_far = steps;
                steps = steps.push(*self);
                assert forall|k: int| 0 <= k < i + 1 implies steps[k + 1].opened_beside(
                    &steps[k],
                    #[trigger] around@[k],
                ) by {
                    if k < i {
                        assert(steps[k + 1] == so_far[k + 1] && steps[k] == so_far[k]);
                    }
                }
                self.lemma_lists_further(&before, old(self), listed, added);
                assert(around@.contains(around@[i as int]));
                if self.spec_result() == GameResult::Playing {
                    assert forall|k: int| 0 <= k < i + 1 implies self.spec_state().spec_cell(
                        (#[trigger] around@[k]).0 as int,
                        around@[k].1 as int,
                    ) != CellState::Unopened by {
                        assert(before.on_board(around@[k].0 as int, around@[k].1 as int));
                    }
                }
            }
            i += 1;
        }
        let ghost opened = *self;
        let ghost flood = redraw@;
        self.refresh_game_result();
        let ghost judged = *self;
        assert(judged.chorded(old(self), steps, x, y));
        if self.result != GameResult::Playing {
            let changed = self.refresh_all_cell();
            let ghost swept = changed@;
            append_cells(&mut redraw, changed);
            proof {
                assert forall|c: (usize, usize)|
                    judged.on_board(c.0 as int, c.1 as int) implies (#[trigger] swept.contains(c)
                    <==> self.repainted(&judged, c)) by {
                    assert(self.spec_cell(c.0 as int, c.1 as int) == self.shown(
                        c.0 as int,
                        c.1 as int,
                    ));
                }
                assert(judged.lists_changes(old(self), flood));
                assert(self.lists_changes(&judged, swept));
                self.lemma_lists_further(&judged, old(self), flood, swept);
            }
        } else {
            let changed = self.refresh_3x3_cell(x, y);
            let ghost swept = changed@;
            append_cells(&mut redraw, changed);
            proof {
                let reach = seq![(x, y)] + around@;
                judged.state.lemma_size();
                lemma_neighbours(
                    judged.spec_width() as int,
                    judged.spec_height() as int,
                    x as int,
                    y as int,
                );
                lemma_add_contains(seq![(x, y)], around@);
                assert(seq![(x, y)][0] == (x, y));
                assert forall|c: (usize, usize)| #[trigger]
                    swept.contains(c) <==> reach.contains(c) && (judged.stale())(c) by {
                    if swept.contains(c) {
                        reach.lemma_filter_contains_rev(judged.stale(), c);
                        let k = choose|k: int| 0 <= k < swept.len() && swept[k] == c;
                        reach.lemma_filter_pred(judged.stale(), k);
                    }
                    if reach.contains(c) && (judged.stale())(c) {
                        let k = choose|k: int| 0 <= k < reach.len() && reach[k] == c;
                        reach.lemma_filter_contains(judged.stale(), k);
                    }
                }
                assert forall|c: (usize, usize)|
                    judged.on_board(c.0 as int, c.1 as int) implies (#[trigger] swept.contains(c)
                    <==> self.repainted(&judged, c)) by {
                    if c == (x, y) {
                        assert(reach.contains(c));
                    }
                }
                assert forall|c: (usize, usize)| #[trigger]
                    swept.contains(c) implies judged.on_board(c.0 as int, c.1 as int) by {
                    if c != (x, y) {
                        assert(around@.contains(c));
                    }
                }
                assert(judged.listing(old(self), flood));
                assert forall|x1: int, y1: int|
                    old(self).on_board(x1, y1) && old(self).spec_cell(x1, y1) == old(self).shown(
                        x1,
                        y1,
                    ) implies #[trigger] self.spec_cell(x1, y1) == self.shown(x1, y1) by {
                    judged.lemma_shown_same(&*self, x1, y1);
                    opened.lemma_shown_same(&judged, x1, y1);
                    if (x1 == x && y1 == y) || around@.contains((x1 as usize, y1 as usize)) {
                    } else {
                        assert(opened.spec_cell(x1, y1) == opened.shown(x1, y1));
                    }
                }
                self.lemma_click_listed(old(self), &judged, flood, swept);
            }
        }
        assert(self.chorded(old(self), steps, x, y));
        RedrawCells(redraw)
    }

    /// After a cell was opened and given its picture, every picture that was
    /// fresh when the opening began is fresh.
    proof fn lemma_fresh_after_opening(
        &self,
        begun: &GameView,
        before: &GameView,
        opened: &GameView,
        c: (usize, usize),
    )
        requires
            before.kept_fresh(begun),
            before.played_on(begun),
            opened.spec_state().same_board(&before.spec_state()),
            opened.spec_result() == before.spec_result(),
            opened.spec_gesture() == before.spec_gesture(),
            forall|x1: int, y1: int|
                before.on_board(x1, y1) && !(x1 == c.0 && y1 == c.1) ==> opened.spec_state().spec_cell(
                    x1,
                    y1,
                ) == #[trigger] before.spec_state().spec_cell(x1, y1),
            forall|x1: int, y1: int| #[trigger] opened.spec_cell(x1, y1) == before.spec_cell(x1, y1),
            self.same_game(opened),
            self.spec_cell(c.0 as int, c.1 as int) == opened.shown(c.0 as int, c.1 as int),
            forall|x1: int, y1: int|
                opened.on_board(x1, y1) && !(x1 == c.0 && y1 == c.1) ==> self.spec_cell(x1, y1)
                    == #[trigger] opened.spec_cell(x1, y1),
        ensures
            self.kept_fresh(begun),
    {
        assert forall|x1: int, y1: int|
            begun.on_board(x1, y1) && begun.spec_cell(x1, y1) == begun.shown(
                x1,
                y1,
            ) implies #[trigger] self.spec_cell(x1, y1) == self.shown(x1, y1) by {
            if !(x1 == c.0 && y1 == c.1) {
                assert(self.spec_cell(x1, y1) == opened.spec_cell(x1, y1));
                assert(opened.spec_cell(x1, y1) == before.spec_cell(x1, y1));
                assert(before.spec_cell(x1, y1) == before.shown(x1, y1));
                assert(opened.spec_state().spec_cell(x1, y1) == before.spec_state().spec_cell(
                    x1,
                    y1,
                ));
                before.lemma_shown_same(self, x1, y1);
            } else {
                opened.lemma_shown_same(self, x1, y1);
            }
        }
    }

    /// What a cell shows depends on its own state, on the board, on the
    /// result and on the gesture.
    proof fn lemma_shown_same(&self, other: &GameView, x: int, y: int)
        requires
            self.spec_state().same_board(&other.spec_state()),
            self.spec_state().spec_cell(x, y) == other.spec_state().spec_cell(x, y),
            self.spec_result() == other.spec_result(),
            self.spec_gesture() == other.spec_gesture(),
        ensures
            self.shown(x, y) == other.shown(x, y),
    {
        let a = self.spec_state();
        let b = other.spec_state();
        let cells = a.spec_nearby_cells(x, y);
        assert(cells == b.spec_nearby_cells(x, y));
        assert forall|i: int| 0 <= i < cells.len() implies (a.mined())(#[trigger] cells[i]) == (
        b.mined())(cells[i]) by {}
        lemma_count_same(cells, a.mined(), b.mined());
    }

    /// Whether the board may be dragged by the cell `(x, y)`: anywhere once
    /// the game has ended, and while it is played by an opened, flagged or
    /// questioned cell.
    pub fn is_draggable(&self, x: usize, y: usize) -> (b: bool)
        requires
            self.wf(),
            self.on_board(x as int, y as int),
        ensures
            b == (self.spec_result() != GameResult::Playing || self.spec_cell(x as int, y as int)
                is Opened || self.spec_cell(x as int, y as int) == CellView::Flagged
                || self.spec_cell(x as int, y as int) == CellView::Questioned),
    {
        match self.result {
            GameResult::Win | GameResult::Lose => true,
            GameResult::Playing => match self.cell(x, y) {
                CellView::Opened(_) | CellView::Flagged | CellView::Questioned => true,
                _ => false,
            },
        }
    }

    /// What the view `before` has become once the pointer does what
    /// `gesture` says: the game is the same, and the cells that the former
    /// or the new gesture touches show what they show under the new one.
    /// A view that was up to date is so again.
    pub open spec fn pointed(&self, before: &GameView, gesture: Gesture) -> bool {
        &&& self.spec_state() == before.spec_state()
        &&& self.spec_result() == before.spec_result()
        &&& self.spec_mines() == before.spec_mines()
        &&& self.spec_flags() == before.spec_flags()
        &&& self.spec_gesture() == gesture
        &&& forall|x1: int, y1: int|
            before.on_board(x1, y1) ==> #[trigger] self.spec_cell(x1, y1) == if reaches(
                before.spec_gesture(),
                x1,
                y1,
            ) || reaches(gesture, x1, y1) {
                before.shown_under(gesture, x1, y1)
            } else {
                before.spec_cell(x1, y1)
            }
        &&& before.up_to_date() ==> self.up_to_date()
    }

    /// Notes what the pointer does now, and refreshes the cells that the
    /// former and the new gesture touch: first those of the former, then
    /// those of the new one. Returns the cells whose picture has changed.
    pub fn gesture(&mut self, gesture: Gesture) -> (redraw: RedrawCells)
        requires
            old(self).wf(),
            gesture_in_grid(gesture, old(self).spec_width() as int, old(self).spec_height() as int),
        ensures
            final(self).wf(),
            final(self).pointed(old(self), gesture),
            redraw@ == old(self).redrawn_for(gesture),
    {
        let previous = self.gesture;
        self.gesture = gesture;
        let ghost noted = *self;
        let mut redraw: Vec<(usize, usize)> = Vec::new();
        let changed = self.refresh_gesture(previous);
        append_cells(&mut redraw, changed);
        let ghost first = *self;
        let changed = self.refresh_gesture(gesture);
        append_cells(&mut redraw, changed);
        proof {
            let w = old(self).spec_width() as int;
            let h = old(self).spec_height() as int;
            old(self).state.lemma_size();
            let former = touched_by(previous, w, h);
            let latter = touched_by(gesture, w, h);
            assert forall|i: int| 0 <= i < former.len() implies (noted.stale())(
                #[trigger] former[i],
            ) == (old(self).stale_under(gesture))(former[i]) by {}
            lemma_filter_same(former, noted.stale(), old(self).stale_under(gesture));
            assert forall|i: int| 0 <= i < latter.len() implies (first.stale())(
                #[trigger] latter[i],
            ) == (old(self).stale_beyond(gesture))(latter[i]) by {
                let c = latter[i];
                match gesture {
                    Gesture::MidPush(x, y) => {
                        lemma_neighbours(w, h, x as int, y as int);
                        if i > 0 {
                            assert(neighbours(w, h, x as int, y as int).contains(c));
                        }
                    },
                    _ => {},
                }
                assert(old(self).on_board(c.0 as int, c.1 as int));
                assert(first.spec_cell(c.0 as int, c.1 as int) == if reaches(
                    previous,
                    c.0 as int,
                    c.1 as int,
                ) {
                    noted.shown(c.0 as int, c.1 as int)
                } else {
                    noted.spec_cell(c.0 as int, c.1 as int)
                });
            }
            lemma_filter_same(latter, first.stale(), old(self).stale_beyond(gesture));
            assert forall|x1: int, y1: int| old(self).on_board(x1, y1) implies #[trigger]
                self.spec_cell(x1, y1) == if reaches(previous, x1, y1) || reaches(gesture, x1, y1) {
                old(self).shown_under(gesture, x1, y1)
            } else {
                old(self).spec_cell(x1, y1)
            } by {
                assert(first.spec_cell(x1, y1) == if reaches(previous, x1, y1) {
                    noted.shown(x1, y1)
                } else {
                    noted.spec_cell(x1, y1)
                });
            }
            if old(self).up_to_date() {
                assert forall|x1: int, y1: int| self.on_board(x1, y1) implies #[trigger]
                    self.spec_cell(x1, y1) == self.shown(x1, y1) by {
                    assert(noted.spec_cell(x1, y1) == old(self).spec_cell(x1, y1));
                    assert(old(self).spec_cell(x1, y1) == old(self).shown(x1, y1));
                    assert(first.spec_cell(x1, y1) == if reaches(previous, x1, y1) {
                        noted.shown(x1, y1)
                    } else {
                        noted.spec_cell(x1, y1)
                    });
                }
            }
        }
        RedrawCells(redraw)
    }
}

} // verus!

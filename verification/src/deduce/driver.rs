//! The solver driver: each active cell is assumed to hold a mine, and then
//! to hold none; an assumption that contradicts the clues settles the cell.

use vstd::prelude::*;
use crate::deduce::backend::SatSolver;
use crate::game::grid::{
    grid_cells, insert_once, lemma_count_filter, lemma_grid_cells, lemma_with_cells_contains,
    row_cells, with_cells,
};
use crate::game::state::{CellState, GameResult};
use crate::game::view::{GameView, RedrawCells};
use crate::sat::cnf::{Cnf, Literal, Polarity, Variable, satisfiable};

verus! {

/// The cells that the clues settle.
#[derive(Debug, Clone)]
pub struct SolveResult {
    /// The cells that hold a mine in every layout that the clues allow.
    pub must_be_mine: Vec<(usize, usize)>,
    /// The cells that hold no mine in any layout that the clues allow.
    pub must_not_mine: Vec<(usize, usize)>,
}

impl Default for SolveResult {
    fn default() -> (r: SolveResult)
        ensures
            r.must_be_mine@.len() == 0,
            r.must_not_mine@.len() == 0,
    {
        SolveResult { must_be_mine: Vec::new(), must_not_mine: Vec::new() }
    }
}

impl SolveResult {
    /// Appends what `other` settles.
    pub fn merge(&mut self, other: SolveResult)
        ensures
            final(self).must_be_mine@ == old(self).must_be_mine@ + other.must_be_mine@,
            final(self).must_not_mine@ == old(self).must_not_mine@ + other.must_not_mine@,
    {
        let mut other = other;
        self.must_be_mine.append(&mut other.must_be_mine);
        self.must_not_mine.append(&mut other.must_not_mine);
    }

    /// Whether nothing is settled.
    pub fn is_empty(&self) -> (b: bool)
        ensures
            b == (self.must_be_mine@.len() == 0 && self.must_not_mine@.len() == 0),
    {
        self.must_be_mine.len() == 0 && self.must_not_mine.len() == 0
    }
}

/// Appends the cells of `more` that the list does not hold yet, in their
/// order; a list of distinct cells stays one.
fn append_new(redraw: &mut Vec<(usize, usize)>, more: &RedrawCells)
    requires
        old(redraw)@.no_duplicates(),
    ensures
        final(redraw)@ == with_cells(old(redraw)@, more@),
        final(redraw)@.no_duplicates(),
{
    let mut i: usize = 0;
    assert(more@.take(0) =~= Seq::<(usize, usize)>::empty());
    while i < more.0.len()
        invariant
            i <= more.0.len(),
            redraw@ == with_cells(old(redraw)@, more@.take(i as int)),
            redraw@.no_duplicates(),
        decreases more.0.len() - i,
    {
        proof {
            let next = more@.take(i + 1);
            assert(next.drop_last() =~= more@.take(i as int));
            assert(next.last() == more@[i as int]);
        }
        insert_once(redraw, more.0[i]);
        i += 1;
    }
    assert(more@.take(i as int) =~= more@);
}

/// Each view comes from the one before it by a right click at the next of
/// the cells.
pub open spec fn flagged_through(steps: Seq<GameView>, cells: Seq<(usize, usize)>) -> bool {
    &&& steps.len() == cells.len() + 1
    &&& forall|i: int|
        0 <= i < cells.len() ==> steps[i + 1].right_clicked(
            &steps[i],
            (#[trigger] cells[i]).0,
            cells[i].1,
        )
}

/// Each view comes from the one before it by a left click at the next of
/// the cells.
pub open spec fn opened_through(steps: Seq<GameView>, cells: Seq<(usize, usize)>) -> bool {
    &&& steps.len() == cells.len() + 1
    &&& forall|i: int|
        0 <= i < cells.len() ==> steps[i + 1].left_clicked(
            &steps[i],
            (#[trigger] cells[i]).0,
            cells[i].1,
        )
}

/// Each view comes from the one before it by a middle click at the next of
/// the cells.
pub open spec fn swept_through(steps: Seq<GameView>, cells: Seq<(usize, usize)>) -> bool {
    &&& steps.len() == cells.len() + 1
    &&& forall|i: int|
        0 <= i < cells.len() ==> steps[i + 1].middle_clicked(
            &steps[i],
            (#[trigger] cells[i]).0,
            cells[i].1,
        )
}

/// A chain of views goes on by one view for one more cell.
proof fn lemma_chain_grows(
    steps: Seq<GameView>,
    cells: Seq<(usize, usize)>,
    next: GameView,
    c: (usize, usize),
)
    requires
        steps.len() == cells.len() + 1,
    ensures
        flagged_through(steps, cells) && next.right_clicked(&steps[cells.len() as int], c.0, c.1)
            ==> flagged_through(steps.push(next), cells.push(c)),
        opened_through(steps, cells) && next.left_clicked(&steps[cells.len() as int], c.0, c.1)
            ==> opened_through(steps.push(next), cells.push(c)),
        swept_through(steps, cells) && next.middle_clicked(&steps[cells.len() as int], c.0, c.1)
            ==> swept_through(steps.push(next), cells.push(c)),
{
    let more = steps.push(next);
    let all = cells.push(c);
    assert forall|i: int| 0 <= i < cells.len() implies more[i + 1] == steps[i + 1] && more[i]
        == steps[i] && #[trigger] all[i] == cells[i] by {}
    assert(more[cells.len() as int + 1] == next && more[cells.len() as int] == steps[cells.len() as int]
        && all[cells.len() as int] == c);
    if flagged_through(steps, cells) && next.right_clicked(&steps[cells.len() as int], c.0, c.1) {
        assert forall|i: int| 0 <= i < all.len() implies more[i + 1].right_clicked(
            &more[i],
            (#[trigger] all[i]).0,
            all[i].1,
        ) by {
            if i < cells.len() {
                assert(all[i] == cells[i]);
            }
        }
    }
    if opened_through(steps, cells) && next.left_clicked(&steps[cells.len() as int], c.0, c.1) {
        assert forall|i: int| 0 <= i < all.len() implies more[i + 1].left_clicked(
            &more[i],
            (#[trigger] all[i]).0,
            all[i].1,
        ) by {
            if i < cells.len() {
                assert(all[i] == cells[i]);
            }
        }
    }
    if swept_through(steps, cells) && next.middle_clicked(&steps[cells.len() as int], c.0, c.1) {
        assert forall|i: int| 0 <= i < all.len() implies more[i + 1].middle_clicked(
            &more[i],
            (#[trigger] all[i]).0,
            all[i].1,
        ) by {
            if i < cells.len() {
                assert(all[i] == cells[i]);
            }
        }
    }
}

/// What is known of one cell.
#[derive(Debug, Clone, Copy, PartialEq, Eq, Structural)]
pub enum Verdict {
    /// The cell holds a mine.
    Mine,
    /// The cell holds no mine.
    Safe,
    /// The clues leave the cell open.
    Unknown,
}

/// What two answers say of a cell: safe where the assumption of a mine is
/// refuted; else mined where the assumption of no mine is refuted; else
/// nothing.
pub fn verdict(mine_refuted: bool, safe_refuted: bool) -> (v: Verdict)
    ensures
        v == if mine_refuted {
            Verdict::Safe
        } else if safe_refuted {
            Verdict::Mine
        } else {
            Verdict::Unknown
        },
{
    if mine_refuted {
        Verdict::Safe
    } else if safe_refuted {
        Verdict::Mine
    } else {
        Verdict::Unknown
    }
}

/// The clauses together with the unit clause of the literal are
/// unsatisfiable.
pub open spec fn refutes(cnf: Seq<Seq<Literal>>, l: Literal) -> bool {
    !satisfiable(cnf + seq![seq![l]])
}

/// The literal that says that a variable is true, or that it is false.
pub open spec fn literal_of(v: usize, positive: bool) -> Literal {
    Literal { variable: Variable(v), polarity: Polarity::of(positive) }
}

impl GameView {
    /// The first fresh variable of the encoding: 65536, or the number of
    /// cells where the board has more.
    pub open spec fn fresh_base(&self) -> nat {
        if self.spec_width() * self.spec_height() < 0x10000 {
            0x10000
        } else {
            self.spec_width() * self.spec_height()
        }
    }

    /// The clauses that the driver puts its queries to: the conjunctive
    /// normal form of the formula of the board. There are none where the
    /// game is not played, no cell is active, a clue is inconsistent, or
    /// the fresh variables do not fit.
    pub open spec fn spec_encoding(&self) -> Option<Seq<Seq<Literal>>> {
        if self.spec_result() != GameResult::Playing || self.spec_active_cells().len() == 0 {
            None
        } else {
            match self.spec_constraints() {
                None => None,
                Some(f) => if self.fresh_base() + f.fresh_count() <= usize::MAX {
                    Some(f.tseitin(self.fresh_base() as int))
                } else {
                    None
                },
            }
        }
    }

    /// The cells of which the solver says that they cannot hold a mine.
    pub open spec fn answered_safe(&self, solver: SatSolver, cnf: Seq<Seq<Literal>>) -> spec_fn(
        (usize, usize),
    ) -> bool {
        |c: (usize, usize)|
            solver.answers_unsat(
                cnf + seq![seq![literal_of(self.mine_variable(c.0 as int, c.1 as int), true)]],
            )
    }

    /// The cells of which the solver says that they must hold a mine, and
    /// does not say that they cannot.
    pub open spec fn answered_mined(&self, solver: SatSolver, cnf: Seq<Seq<Literal>>) -> spec_fn(
        (usize, usize),
    ) -> bool {
        |c: (usize, usize)|
            !solver.answers_unsat(
                cnf + seq![seq![literal_of(self.mine_variable(c.0 as int, c.1 as int), true)]],
            ) && solver.answers_unsat(
                cnf + seq![seq![literal_of(self.mine_variable(c.0 as int, c.1 as int), false)]],
            )
    }

    /// The cells of which the clauses refute that they hold a mine.
    pub open spec fn proved_safe(&self, cnf: Seq<Seq<Literal>>) -> spec_fn((usize, usize)) -> bool {
        |c: (usize, usize)| refutes(cnf, literal_of(self.mine_variable(c.0 as int, c.1 as int), true))
    }

    /// The cells of which the clauses refute that they hold no mine, and do
    /// not refute that they hold one.
    pub open spec fn proved_mined(&self, cnf: Seq<Seq<Literal>>) -> spec_fn((usize, usize)) -> bool {
        |c: (usize, usize)|
            !refutes(cnf, literal_of(self.mine_variable(c.0 as int, c.1 as int), true)) && refutes(
                cnf,
                literal_of(self.mine_variable(c.0 as int, c.1 as int), false),
            )
    }

    /// What the clauses settle of the cell `(x, y)`, as far as the solver
    /// tells: the cell in `must_not_mine` where the assumption of a mine is
    /// refuted; else the cell in `must_be_mine` where the assumption of no
    /// mine is refuted; else nothing.
    pub fn check_cell(&self, constraints: &Cnf, x: usize, y: usize, solver: SatSolver) -> (r:
        SolveResult)
        requires
            self.wf(),
            self.on_board(x as int, y as int),
        ensures
            r.must_not_mine@ == if r.must_not_mine@.len() == 0 {
                Seq::<(usize, usize)>::empty()
            } else {
                seq![(x, y)]
            },
            r.must_be_mine@ == if r.must_be_mine@.len() == 0 {
                Seq::<(usize, usize)>::empty()
            } else {
                seq![(x, y)]
            },
            r.must_be_mine@.len() == 0 || r.must_not_mine@.len() == 0,
            r.must_not_mine@.len() > 0 ==> (self.proved_safe(constraints@))((x, y)),
            r.must_be_mine@.len() > 0 ==> refutes(
                constraints@,
                literal_of(self.mine_variable(x as int, y as int), false),
            ),
            solver.decides() ==> (r.must_not_mine@.len() > 0) == (self.proved_safe(constraints@))(
                (x, y),
            ),
            solver.decides() ==> (r.must_be_mine@.len() > 0) == (self.proved_mined(constraints@))(
                (x, y),
            ),
            solver.repeatable() ==> (r.must_not_mine@.len() > 0) == (self.answered_safe(
                solver,
                constraints@,
            ))((x, y)),
            solver.repeatable() ==> (r.must_be_mine@.len() > 0) == (self.answered_mined(
                solver,
                constraints@,
            ))((x, y)),
    {
        let v = self.mine_var(x, y);
        let mine_refuted = solver.is_unsat(constraints, Cnf::unit(Literal::positive(v)));
        let safe_refuted = if mine_refuted {
            false
        } else {
            solver.is_unsat(constraints, Cnf::unit(Literal::negative(v)))
        };
        let mut r = SolveResult::default();
        match verdict(mine_refuted, safe_refuted) {
            Verdict::Safe => {
                r.must_not_mine.push((x, y));
                assert(r.must_not_mine@ =~= seq![(x, y)]);
            },
            Verdict::Mine => {
                r.must_be_mine.push((x, y));
                assert(r.must_be_mine@ =~= seq![(x, y)]);
            },
            Verdict::Unknown => {},
        }
        r
    }

    /// The first fresh variable of the encoding.
    fn encoding_base(&self) -> (base: usize)
        requires
            self.wf(),
        ensures
            base == self.fresh_base(),
    {
        proof {
            self.lemma_size();
        }
        let cells = self.width() * self.height();
        if cells < 0x10000 {
            0x10000
        } else {
            cells
        }
    }

    /// The clauses that the driver puts its queries to, if there are any.
    pub fn encoding(&self) -> (r: Option<Cnf>)
        requires
            self.wf(),
        ensures
            match r {
                Some(cnf) => self.spec_encoding() == Some(cnf@),
                None => self.spec_encoding() is None,
            },
    {
        if self.result() != GameResult::Playing {
            return None;
        }
        if self.active_cells().len() == 0 {
            return None;
        }
        match self.constraints() {
            Some(formula) => formula.checked_tseitin_encode(Variable(self.encoding_base())),
            None => None,
        }
    }

    /// Finds the cells that the clues settle. Nothing is settled where the
    /// game is not played, where no cell is active, or where a clue is
    /// inconsistent with the flags around it. Else each active cell, row by
    /// row, is assumed to hold a mine, and then to hold none: the cell goes
    /// to `must_not_mine` where the first assumption is refuted, and to
    /// `must_be_mine` where the second alone is.
    #[verifier::rlimit(40)]
    pub fn solve(&self, solver: SatSolver) -> (r: SolveResult)
        requires
            self.wf(),
        ensures
            self.spec_result() != GameResult::Playing ==> r.must_be_mine@.len() == 0
                && r.must_not_mine@.len() == 0,
            self.spec_encoding() is None ==> r.must_be_mine@.len() == 0 && r.must_not_mine@.len()
                == 0,
            self.settled_by(r, solver),
            forall|i: int, j: int|
                0 <= i < r.must_be_mine@.len() && 0 <= j < r.must_not_mine@.len()
                    ==> r.must_be_mine@[i] != r.must_not_mine@[j],
            forall|i: int|
                0 <= i < r.must_be_mine@.len() ==> self.on_board(
                    (#[trigger] r.must_be_mine@[i]).0 as int,
                    r.must_be_mine@[i].1 as int,
                ),
            forall|i: int|
                0 <= i < r.must_not_mine@.len() ==> self.on_board(
                    (#[trigger] r.must_not_mine@[i]).0 as int,
                    r.must_not_mine@[i].1 as int,
                ),
    {
        let constraints = match self.encoding() {
            Some(cnf) => cnf,
            None => {
                return SolveResult::default();
            },
        };
        let cells = self.active_cells();
        let mut result = SolveResult::default();
        let mut i: usize = 0;
        proof {
            reveal(Seq::filter);
            let none = Seq::<(usize, usize)>::empty();
            assert(cells@.take(0) =~= none);
            assert(result.must_not_mine@ =~= none.filter(self.proved_safe(constraints@)));
            assert(result.must_be_mine@ =~= none.filter(self.proved_mined(constraints@)));
            assert(result.must_not_mine@ =~= none.filter(self.answered_safe(solver, constraints@)));
            assert(result.must_be_mine@ =~= none.filter(self.answered_mined(solver, constraints@)));
        }
        while i < cells.len()
            invariant
                self.wf(),
                i <= cells.len(),
                cells@ == self.spec_active_cells(),
                cells@.no_duplicates(),
                forall|k: int|
                    0 <= k < cells@.len() ==> self.on_board(
                        (#[trigger] cells@[k]).0 as int,
                        cells@[k].1 as int,
                    ),
                self.settles(&result, solver, constraints@, cells@.take(i as int)),
            decreases cells.len() - i,
        {
            let (x, y) = cells[i];
            let ghost front = cells@.take(i as int);
            let ghost before = result;
            assert(self.on_board(cells@[i as int].0 as int, cells@[i as int].1 as int));
            let found = self.check_cell(&constraints, x, y, solver);
            result.merge(found);
            proof {
                assert(cells@.take(i + 1) =~= front.push((x, y)));
                front.lemma_filter_push((x, y), self.proved_safe(constraints@));
                front.lemma_filter_push((x, y), self.proved_mined(constraints@));
                assert forall|k: int| 0 <= k < front.len() implies front[k] != (x, y) by {
                    assert(cells@[k] != cells@[i as int]);
                }
                let none = Seq::<(usize, usize)>::empty();
                assert(before.must_not_mine@ + none =~= before.must_not_mine@);
                assert(before.must_be_mine@ + none =~= before.must_be_mine@);
                assert(before.must_not_mine@ + seq![(x, y)] =~= before.must_not_mine@.push((x, y)));
                assert(before.must_be_mine@ + seq![(x, y)] =~= before.must_be_mine@.push((x, y)));
                self.lemma_settles_more(&before, &result, solver, constraints@, front, (x, y));
            }
            i += 1;
        }
        proof {
            assert(cells@.take(i as int) =~= cells@);
            assert forall|k: int| 0 <= k < result.must_be_mine@.len() implies self.on_board(
                (#[trigger] result.must_be_mine@[k]).0 as int,
                result.must_be_mine@[k].1 as int,
            ) by {
                assert(cells@.contains(result.must_be_mine@[k]));
                let q = choose|q: int| 0 <= q < cells@.len() && cells@[q] == result.must_be_mine@[k];
                assert(self.on_board(cells@[q].0 as int, cells@[q].1 as int));
            }
            assert forall|k: int| 0 <= k < result.must_not_mine@.len() implies self.on_board(
                (#[trigger] result.must_not_mine@[k]).0 as int,
                result.must_not_mine@[k].1 as int,
            ) by {
                assert(cells@.contains(result.must_not_mine@[k]));
                let q = choose|q: int| 0 <= q < cells@.len() && cells@[q] == result.must_not_mine@[k];
                assert(self.on_board(cells@[q].0 as int, cells@[q].1 as int));
            }
        }
        result
    }

    /// Every cell is in the state it had in `before`, or was untouched
    /// there and is now flagged or opened.
    pub open spec fn moved_on(&self, before: &GameView) -> bool {
        forall|x: int, y: int|
            before.on_board(x, y) ==> #[trigger] self.spec_state().spec_cell(x, y)
                == before.spec_state().spec_cell(x, y) || (before.spec_state().spec_cell(x, y)
                == CellState::Unopened && (self.spec_state().spec_cell(x, y) == CellState::Flagged
                || self.spec_state().spec_cell(x, y) == CellState::Opened))
    }

    /// A view that has only opened cells since `mid`, and keeps the pictures
    /// of `mid` fresh, has moved on from `first` and keeps its pictures
    /// fresh as `mid` does.
    proof fn lemma_moved_further(&self, mid: &GameView, first: &GameView)
        requires
            mid.spec_state().same_board(&first.spec_state()),
            self.played_on(mid),
            self.kept_fresh(mid),
            mid.kept_fresh(first),
        ensures
            self.kept_fresh(first),
            mid.moved_on(first) ==> self.moved_on(first),
    {
        assert forall|x: int, y: int|
            first.on_board(x, y) && first.spec_cell(x, y) == first.shown(x, y)
                implies #[trigger] self.spec_cell(x, y) == self.shown(x, y) by {
            assert(mid.on_board(x, y));
            assert(mid.spec_cell(x, y) == mid.shown(x, y));
        }
        if mid.moved_on(first) {
            assert forall|x: int, y: int| first.on_board(x, y) implies #[trigger]
                self.spec_state().spec_cell(x, y) == first.spec_state().spec_cell(x, y) || (
                first.spec_state().spec_cell(x, y) == CellState::Unopened && (
                self.spec_state().spec_cell(x, y) == CellState::Flagged
                    || self.spec_state().spec_cell(x, y) == CellState::Opened)) by {
                assert(mid.on_board(x, y));
            }
        }
    }

    /// A view that has flagged the untouched cell `(x, y)` of `mid`, and
    /// keeps the pictures of `mid` fresh, has moved on from `first` and
    /// keeps its pictures fresh as `mid` does.
    proof fn lemma_moved_by_flag(&self, mid: &GameView, first: &GameView, x: usize, y: usize)
        requires
            mid.spec_state().same_board(&first.spec_state()),
            mid.on_board(x as int, y as int),
            self.right_clicked(mid, x, y),
            mid.kept_fresh(first),
        ensures
            self.kept_fresh(first),
            mid.moved_on(first) && mid.spec_result() == GameResult::Playing
                && mid.spec_state().spec_cell(x as int, y as int) == CellState::Unopened
                && first.spec_state().spec_cell(x as int, y as int) == CellState::Unopened
                ==> self.moved_on(first),
    {
        assert forall|x1: int, y1: int|
            first.on_board(x1, y1) && first.spec_cell(x1, y1) == first.shown(x1, y1)
                implies #[trigger] self.spec_cell(x1, y1) == self.shown(x1, y1) by {
            assert(mid.on_board(x1, y1));
            assert(mid.spec_cell(x1, y1) == mid.shown(x1, y1));
        }
        if mid.moved_on(first) && mid.spec_result() == GameResult::Playing
            && mid.spec_state().spec_cell(x as int, y as int) == CellState::Unopened
            && first.spec_state().spec_cell(x as int, y as int) == CellState::Unopened {
            assert forall|x1: int, y1: int| first.on_board(x1, y1) implies #[trigger]
                self.spec_state().spec_cell(x1, y1) == first.spec_state().spec_cell(x1, y1) || (
                first.spec_state().spec_cell(x1, y1) == CellState::Unopened && (
                self.spec_state().spec_cell(x1, y1) == CellState::Flagged
                    || self.spec_state().spec_cell(x1, y1) == CellState::Opened)) by {
                assert(mid.on_board(x1, y1));
            }
        }
    }

    /// What one step of automatic play has done with the cells that `r`
    /// settles, on a view that was up to date: every cell that is settled as
    /// mined is flagged, and every cell that is settled as safe is opened
    /// unless the game has ended on the way.
    pub open spec fn played(&self, r: SolveResult) -> bool {
        &&& forall|i: int|
            0 <= i < r.must_be_mine@.len() ==> self.spec_state().spec_cell(
                (#[trigger] r.must_be_mine@[i]).0 as int,
                r.must_be_mine@[i].1 as int,
            ) == CellState::Flagged
        &&& self.spec_result() == GameResult::Playing ==> forall|j: int|
            0 <= j < r.must_not_mine@.len() ==> self.spec_state().spec_cell(
                (#[trigger] r.must_not_mine@[j]).0 as int,
                r.must_not_mine@[j].1 as int,
            ) == CellState::Opened
    }

    /// What one step of automatic play has made of the view `before` with
    /// the cells that `r` settles. The views `flagged` lead from `before`
    /// through a right click at each cell of `must_be_mine`; the views
    /// `opened` lead on through a left click at each cell of
    /// `must_not_mine`; the views `swept` lead on through a middle click at
    /// each cell of the board, row by row, to this view.
    pub open spec fn automated(
        &self,
        before: &GameView,
        r: SolveResult,
        flagged: Seq<GameView>,
        opened: Seq<GameView>,
        swept: Seq<GameView>,
    ) -> bool {
        let cells = grid_cells(before.spec_width(), before.spec_height());
        &&& flagged_through(flagged, r.must_be_mine@)
        &&& flagged[0] == *before
        &&& opened_through(opened, r.must_not_mine@)
        &&& opened[0] == flagged[r.must_be_mine@.len() as int]
        &&& swept_through(swept, cells)
        &&& swept[0] == opened[r.must_not_mine@.len() as int]
        &&& *self == swept[cells.len() as int]
    }

    /// One step of automatic play: flags every cell that the clues prove
    /// mined, opens every cell that they prove safe, and then opens around
    /// every cell where that is allowed, row by row. Returns the cells to
    /// draw anew, each once and among them every cell whose picture has
    /// changed, or `None` where no cell is settled, and then nothing has
    /// changed.
    #[verifier::rlimit(40)]
    pub fn automation_step(&mut self, solver: SatSolver) -> (redraw: Option<RedrawCells>)
        requires
            old(self).wf(),
        ensures
            final(self).wf(),
            final(self).spec_state().same_board(&old(self).spec_state()),
            redraw is None ==> *final(self) == *old(self),
            redraw is Some ==> redraw.unwrap()@.no_duplicates(),
            final(self).spec_gesture() == old(self).spec_gesture(),
            final(self).spec_mines() == old(self).spec_mines(),
            final(self).kept_fresh(old(self)),
            old(self).up_to_date() ==> final(self).moved_on(old(self)),
            redraw matches Some(cells) ==> final(self).lists_changes(old(self), cells@),
            exists|r: SolveResult|
                {
                    &&& #[trigger] old(self).settled_by(r, solver)
                    &&& redraw is None <==> r.must_be_mine@.len() == 0 && r.must_not_mine@.len()
                        == 0
                    &&& old(self).up_to_date() ==> final(self).played(r)
                    &&& redraw is Some ==> exists|
                        flagged: Seq<GameView>,
                        opened: Seq<GameView>,
                        swept: Seq<GameView>,
                    | #[trigger] final(self).automated(old(self), r, flagged, opened, swept)
                },
    {
        let found = self.solve(solver);
        if found.is_empty() {
            assert(old(self).settled_by(found, solver));
            return None;
        }
        proof {
            if old(self).up_to_date() {
                old(self).lemma_intact_is_unopened(found, solver);
            }
        }
        let mut redraw: Vec<(usize, usize)> = Vec::new();
        let mut i: usize = 0;
        let ghost mut flagged: Seq<GameView> = seq![*self];
        proof {
            assert(found.must_be_mine@.take(0) =~= Seq::<(usize, usize)>::empty());
        }
        while i < found.must_be_mine.len()
            invariant
                flagged_through(flagged, found.must_be_mine@.take(i as int)),
                flagged[0] == *old(self),
                flagged[i as int] == *self,
                self.wf(),
                self.spec_state().same_board(&old(self).spec_state()),
                self.spec_result() == GameResult::Playing,
                redraw@.no_duplicates(),
                self.spec_gesture() == old(self).spec_gesture(),
                self.spec_mines() == old(self).spec_mines(),
                self.kept_fresh(old(self)),
                self.lists_changes(old(self), redraw@),
                old(self).up_to_date() ==> self.moved_on(old(self)),
                i <= found.must_be_mine.len(),
                old(self).settled_by(found, solver),
                old(self).spec_encoding() is Some,
                forall|k: int|
                    0 <= k < found.must_be_mine@.len() ==> old(self).on_board(
                        (#[trigger] found.must_be_mine@[k]).0 as int,
                        found.must_be_mine@[k].1 as int,
                    ),
                forall|k: int|
                    0 <= k < found.must_not_mine@.len() ==> old(self).on_board(
                        (#[trigger] found.must_not_mine@[k]).0 as int,
                        found.must_not_mine@[k].1 as int,
                    ),
                old(self).up_to_date() ==> forall|k: int|
                    0 <= k < found.must_be_mine@.len() ==> self.spec_state().spec_cell(
                        (#[trigger] found.must_be_mine@[k]).0 as int,
                        found.must_be_mine@[k].1 as int,
                    ) == if k < i {
                        CellState::Flagged
                    } else {
                        CellState::Unopened
                    },
                old(self).up_to_date() ==> forall|k: int|
                    0 <= k < found.must_not_mine@.len() ==> self.spec_state().spec_cell(
                        (#[trigger] found.must_not_mine@[k]).0 as int,
                        found.must_not_mine@[k].1 as int,
                    ) == CellState::Unopened,
            decreases found.must_be_mine.len() - i,
        {
            let (x, y) = found.must_be_mine[i];
            assert(old(self).on_board(
                found.must_be_mine@[i as int].0 as int,
                found.must_be_mine@[i as int].1 as int,
            ));
            let ghost before = *self;
            let ghost listed = redraw@;
            let changed = self.right_click(x, y);
            proof {
                lemma_chain_grows(flagged, found.must_be_mine@.take(i as int), *self, (x, y));
                assert(found.must_be_mine@.take(i + 1) =~= found.must_be_mine@.take(i as int).push(
                    (x, y),
                ));
                flagged = flagged.push(*self);
                self.lemma_moved_by_flag(&before, old(self), x, y);
                if old(self).up_to_date() {
                    assert(before.spec_state().spec_cell(
                        found.must_be_mine@[i as int].0 as int,
                        found.must_be_mine@[i as int].1 as int,
                    ) == CellState::Unopened);
                    assert forall|k: int| 0 <= k < found.must_be_mine@.len()
                        implies self.spec_state().spec_cell(
                        (#[trigger] found.must_be_mine@[k]).0 as int,
                        found.must_be_mine@[k].1 as int,
                    ) == if k < i + 1 {
                        CellState::Flagged
                    } else {
                        CellState::Unopened
                    } by {
                        let c = found.must_be_mine@[k];
                        assert(old(self).on_board(c.0 as int, c.1 as int));
                        if k != i {
                            assert(found.must_be_mine@[k] != found.must_be_mine@[i as int]);
                            assert(before.spec_state().spec_cell(c.0 as int, c.1 as int)
                                == self.spec_state().spec_cell(c.0 as int, c.1 as int));
                        }
                    }
                    assert forall|k: int| 0 <= k < found.must_not_mine@.len()
                        implies self.spec_state().spec_cell(
                        (#[trigger] found.must_not_mine@[k]).0 as int,
                        found.must_not_mine@[k].1 as int,
                    ) == CellState::Unopened by {
                        let c = found.must_not_mine@[k];
                        assert(old(self).on_board(c.0 as int, c.1 as int));
                        assert(found.must_be_mine@[i as int] != found.must_not_mine@[k]);
                        assert(before.spec_state().spec_cell(c.0 as int, c.1 as int)
                            == self.spec_state().spec_cell(c.0 as int, c.1 as int));
                    }
                }
            }
            append_new(&mut redraw, &changed);
            proof {
                lemma_with_cells_contains(listed, changed@);
                self.lemma_lists_joined(&before, old(self), listed, changed@, redraw@);
            }
            i += 1;
        }
        let ghost mut opened: Seq<GameView> = seq![*self];
        proof {
            assert(found.must_be_mine@.take(i as int) =~= found.must_be_mine@);
            assert(found.must_not_mine@.take(0) =~= Seq::<(usize, usize)>::empty());
        }
        let mut i: usize = 0;
        while i < found.must_not_mine.len()
            invariant
                flagged_through(flagged, found.must_be_mine@),
                flagged[0] == *old(self),
                opened_through(opened, found.must_not_mine@.take(i as int)),
                opened[0] == flagged[found.must_be_mine@.len() as int],
                opened[i as int] == *self,
                self.wf(),
                self.spec_state().same_board(&old(self).spec_state()),
                redraw@.no_duplicates(),
                self.spec_gesture() == old(self).spec_gesture(),
                self.spec_mines() == old(self).spec_mines(),
                self.kept_fresh(old(self)),
                self.lists_changes(old(self), redraw@),
                old(self).up_to_date() ==> self.moved_on(old(self)),
                i <= found.must_not_mine.len(),
                forall|k: int|
                    0 <= k < found.must_be_mine@.len() ==> old(self).on_board(
                        (#[trigger] found.must_be_mine@[k]).0 as int,
                        found.must_be_mine@[k].1 as int,
                    ),
                forall|k: int|
                    0 <= k < found.must_not_mine@.len() ==> old(self).on_board(
                        (#[trigger] found.must_not_mine@[k]).0 as int,
                        found.must_not_mine@[k].1 as int,
                    ),
                old(self).up_to_date() ==> forall|k: int|
                    0 <= k < found.must_be_mine@.len() ==> self.spec_state().spec_cell(
                        (#[trigger] found.must_be_mine@[k]).0 as int,
                        found.must_be_mine@[k].1 as int,
                    ) == CellState::Flagged,
                old(self).up_to_date() ==> forall|k: int|
                    0 <= k < found.must_not_mine@.len() ==> self.opened_or_waiting(
                        #[trigger] found.must_not_mine@[k],
                        k < i,
                    ),
            decreases found.must_not_mine.len() - i,
        {
            let (x, y) = found.must_not_mine[i];
            assert(old(self).on_board(
                found.must_not_mine@[i as int].0 as int,
                found.must_not_mine@[i as int].1 as int,
            ));
            let ghost before = *self;
            let ghost listed = redraw@;
            let changed = self.left_click(x, y);
            proof {
                lemma_chain_grows(opened, found.must_not_mine@.take(i as int), *self, (x, y));
                assert(found.must_not_mine@.take(i + 1) =~= found.must_not_mine@.take(
                    i as int,
                ).push((x, y)));
                opened = opened.push(*self);
                self.lemma_moved_further(&before, old(self));
                if old(self).up_to_date() {
                    assert(before.opened_or_waiting(found.must_not_mine@[i as int], false));
                    assert forall|k: int| 0 <= k < found.must_be_mine@.len()
                        implies self.spec_state().spec_cell(
                        (#[trigger] found.must_be_mine@[k]).0 as int,
                        found.must_be_mine@[k].1 as int,
                    ) == CellState::Flagged by {
                        let c = found.must_be_mine@[k];
                        assert(old(self).on_board(c.0 as int, c.1 as int));
                        assert(before.on_board(c.0 as int, c.1 as int));
                    }
                    assert forall|k: int|
                        0 <= k < found.must_not_mine@.len() implies self.opened_or_waiting(
                        #[trigger] found.must_not_mine@[k],
                        k < i + 1,
                    ) by {
                        let c = found.must_not_mine@[k];
                        assert(old(self).on_board(c.0 as int, c.1 as int));
                        assert(before.on_board(c.0 as int, c.1 as int));
                        assert(before.opened_or_waiting(c, k < i));
                    }
                }
            }
            append_new(&mut redraw, &changed);
            proof {
                lemma_with_cells_contains(listed, changed@);
                self.lemma_lists_joined(&before, old(self), listed, changed@, redraw@);
            }
            i += 1;
        }
        let h = self.height();
        let w = self.width();
        let ghost mut swept: Seq<GameView> = seq![*self];
        let ghost mut done: Seq<(usize, usize)> = Seq::empty();
        proof {
            assert(found.must_not_mine@.take(i as int) =~= found.must_not_mine@);
            assert(grid_cells(w as nat, 0) =~= done);
        }
        let mut y: usize = 0;
        while y < h
            invariant
                y <= h,
                flagged_through(flagged, found.must_be_mine@),
                flagged[0] == *old(self),
                opened_through(opened, found.must_not_mine@),
                opened[0] == flagged[found.must_be_mine@.len() as int],
                swept_through(swept, done),
                swept[0] == opened[found.must_not_mine@.len() as int],
                swept[done.len() as int] == *self,
                done == grid_cells(w as nat, y as nat),
                self.wf(),
                self.spec_state().same_board(&old(self).spec_state()),
                h == self.spec_height(),
                w == self.spec_width(),
                redraw@.no_duplicates(),
                self.spec_gesture() == old(self).spec_gesture(),
                self.spec_mines() == old(self).spec_mines(),
                self.kept_fresh(old(self)),
                self.lists_changes(old(self), redraw@),
                old(self).up_to_date() ==> self.moved_on(old(self)),
                forall|k: int|
                    0 <= k < found.must_be_mine@.len() ==> old(self).on_board(
                        (#[trigger] found.must_be_mine@[k]).0 as int,
                        found.must_be_mine@[k].1 as int,
                    ),
                forall|k: int|
                    0 <= k < found.must_not_mine@.len() ==> old(self).on_board(
                        (#[trigger] found.must_not_mine@[k]).0 as int,
                        found.must_not_mine@[k].1 as int,
                    ),
                old(self).up_to_date() ==> self.played(found),
            decreases h - y,
        {
            let mut x: usize = 0;
            proof {
                assert(row_cells(w as nat, y as nat).take(0) =~= Seq::<(usize, usize)>::empty());
                assert(done + Seq::<(usize, usize)>::empty() =~= done);
            }
            while x < w
                invariant
                    x <= w,
                    swept_through(swept, done),
                    swept[0] == opened[found.must_not_mine@.len() as int],
                    swept[done.len() as int] == *self,
                    done == grid_cells(w as nat, y as nat) + row_cells(w as nat, y as nat).take(
                        x as int,
                    ),
                    self.wf(),
                    self.spec_state().same_board(&old(self).spec_state()),
                    h == self.spec_height(),
                    w == self.spec_width(),
                    y < h,
                    redraw@.no_duplicates(),
                    self.spec_gesture() == old(self).spec_gesture(),
                    self.spec_mines() == old(self).spec_mines(),
                    self.kept_fresh(old(self)),
                    self.lists_changes(old(self), redraw@),
                    old(self).up_to_date() ==> self.moved_on(old(self)),
                    forall|k: int|
                        0 <= k < found.must_be_mine@.len() ==> old(self).on_board(
                            (#[trigger] found.must_be_mine@[k]).0 as int,
                            found.must_be_mine@[k].1 as int,
                        ),
                    forall|k: int|
                        0 <= k < found.must_not_mine@.len() ==> old(self).on_board(
                            (#[trigger] found.must_not_mine@[k]).0 as int,
                            found.must_not_mine@[k].1 as int,
                        ),
                    old(self).up_to_date() ==> self.played(found),
                decreases w - x,
            {
                let ghost before = *self;
                let ghost listed = redraw@;
                let changed = self.middle_click(x, y);
                proof {
                    lemma_chain_grows(swept, done, *self, (x, y));
                    swept = swept.push(*self);
                    assert(row_cells(w as nat, y as nat)[x as int] == (x, y));
                    assert(row_cells(w as nat, y as nat).take(x + 1) =~= row_cells(
                        w as nat,
                        y as nat,
                    ).take(x as int).push((x, y)));
                    assert(done.push((x, y)) =~= grid_cells(w as nat, y as nat) + row_cells(
                        w as nat,
                        y as nat,
                    ).take(x + 1));
                    done = done.push((x, y));
                    self.lemma_moved_further(&before, old(self));
                    if old(self).up_to_date() {
                        assert forall|k: int| 0 <= k < found.must_be_mine@.len()
                            implies self.spec_state().spec_cell(
                            (#[trigger] found.must_be_mine@[k]).0 as int,
                            found.must_be_mine@[k].1 as int,
                        ) == CellState::Flagged by {
                            let c = found.must_be_mine@[k];
                            assert(old(self).on_board(c.0 as int, c.1 as int));
                            assert(before.on_board(c.0 as int, c.1 as int));
                        }
                        if self.spec_result() == GameResult::Playing {
                            assert forall|k: int| 0 <= k < found.must_not_mine@.len()
                                implies self.spec_state().spec_cell(
                                (#[trigger] found.must_not_mine@[k]).0 as int,
                                found.must_not_mine@[k].1 as int,
                            ) == CellState::Opened by {
                                let c = found.must_not_mine@[k];
                                assert(old(self).on_board(c.0 as int, c.1 as int));
                                assert(before.on_board(c.0 as int, c.1 as int));
                            }
                        }
                    }
                }
                append_new(&mut redraw, &changed);
                proof {
                    lemma_with_cells_contains(listed, changed@);
                    self.lemma_lists_joined(&before, old(self), listed, changed@, redraw@);
                }
                x += 1;
            }
            proof {
                assert(row_cells(w as nat, y as nat).take(w as int) =~= row_cells(
                    w as nat,
                    y as nat,
                ));
            }
            y += 1;
        }
        assert(old(self).settled_by(found, solver));
        assert(self.automated(old(self), found, flagged, opened, swept));
        Some(RedrawCells(redraw))
    }

    /// The cell is opened, or the game has ended, where `done` holds; and
    /// else the cell is untouched or opened.
    pub open spec fn opened_or_waiting(&self, c: (usize, usize), done: bool) -> bool {
        let state = self.spec_state().spec_cell(c.0 as int, c.1 as int);
        if done {
            state == CellState::Opened || self.spec_result() != GameResult::Playing
        } else {
            state == CellState::Opened || state == CellState::Unopened
        }
    }

    /// On a view that is up to date, the cells that a result settles are
    /// untouched: they are intact, and the game is played.
    pub proof fn lemma_intact_is_unopened(&self, r: SolveResult, solver: SatSolver)
        requires
            self.wf(),
            self.settled_by(r, solver),
            self.up_to_date(),
            self.spec_encoding() is Some,
        ensures
            forall|k: int|
                0 <= k < r.must_be_mine@.len() ==> self.spec_state().spec_cell(
                    (#[trigger] r.must_be_mine@[k]).0 as int,
                    r.must_be_mine@[k].1 as int,
                ) == CellState::Unopened,
            forall|k: int|
                0 <= k < r.must_not_mine@.len() ==> self.spec_state().spec_cell(
                    (#[trigger] r.must_not_mine@[k]).0 as int,
                    r.must_not_mine@[k].1 as int,
                ) == CellState::Unopened,
    {
        let all = grid_cells(self.spec_width(), self.spec_height());
        self.lemma_size();
        lemma_grid_cells(self.spec_width(), self.spec_height());
        lemma_count_filter(all, self.is_active(), self.is_active());
        assert forall|c: (usize, usize)| #[trigger]
            self.spec_active_cells().contains(c) implies self.spec_state().spec_cell(
            c.0 as int,
            c.1 as int,
        ) == CellState::Unopened by {
            let i = choose|i: int|
                0 <= i < self.spec_active_cells().len() && self.spec_active_cells()[i] == c;
            assert(all.contains(self.spec_active_cells()[i]));
            assert(self.on_board(c.0 as int, c.1 as int));
            assert(self.spec_cell(c.0 as int, c.1 as int) == self.shown(c.0 as int, c.1 as int));
        }
        assert forall|k: int| 0 <= k < r.must_be_mine@.len() implies self.spec_state().spec_cell(
            (#[trigger] r.must_be_mine@[k]).0 as int,
            r.must_be_mine@[k].1 as int,
        ) == CellState::Unopened by {
            assert(self.spec_active_cells().contains(r.must_be_mine@[k]));
        }
        assert forall|k: int| 0 <= k < r.must_not_mine@.len() implies self.spec_state().spec_cell(
            (#[trigger] r.must_not_mine@[k]).0 as int,
            r.must_not_mine@[k].1 as int,
        ) == CellState::Unopened by {
            assert(self.spec_active_cells().contains(r.must_not_mine@[k]));
        }
    }

    /// The result settles cells among `cells` alone, none in both ways, and
    /// each rightly: of a cell in `must_not_mine` the clauses refute that it
    /// holds a mine, and of a cell in `must_be_mine` that it holds none.
    /// Where the solver decides every query, the result holds every cell
    /// that the clauses settle, in the order of `cells`; where it is
    /// repeatable, every cell that its answers settle.
    pub open spec fn settles(
        &self,
        r: &SolveResult,
        solver: SatSolver,
        cnf: Seq<Seq<Literal>>,
        cells: Seq<(usize, usize)>,
    ) -> bool {
        &&& forall|i: int|
            0 <= i < r.must_not_mine@.len() ==> cells.contains(#[trigger] r.must_not_mine@[i]) && (
            self.proved_safe(cnf))(r.must_not_mine@[i])
        &&& forall|i: int|
            0 <= i < r.must_be_mine@.len() ==> cells.contains(#[trigger] r.must_be_mine@[i])
                && refutes(
                cnf,
                literal_of(
                    self.mine_variable(r.must_be_mine@[i].0 as int, r.must_be_mine@[i].1 as int),
                    false,
                ),
            )
        &&& forall|i: int, j: int|
            0 <= i < r.must_be_mine@.len() && 0 <= j < r.must_not_mine@.len() ==> r.must_be_mine@[i]
                != r.must_not_mine@[j]
        &&& r.must_be_mine@.no_duplicates()
        &&& r.must_not_mine@.no_duplicates()
        &&& solver.decides() ==> r.must_not_mine@ == cells.filter(self.proved_safe(cnf))
            && r.must_be_mine@ == cells.filter(self.proved_mined(cnf))
        &&& solver.repeatable() ==> r.must_not_mine@ == cells.filter(
            self.answered_safe(solver, cnf),
        ) && r.must_be_mine@ == cells.filter(self.answered_mined(solver, cnf))
    }

    /// What a result says in terms of the board: nothing where there is no
    /// encoding, and else what `settles` says of the active cells.
    pub open spec fn settled_by(&self, r: SolveResult, solver: SatSolver) -> bool {
        match self.spec_encoding() {
            None => r.must_be_mine@.len() == 0 && r.must_not_mine@.len() == 0,
            Some(cnf) => self.settles(&r, solver, cnf, self.spec_active_cells()),
        }
    }

    proof fn lemma_settles_more(
        &self,
        before: &SolveResult,
        after: &SolveResult,
        solver: SatSolver,
        cnf: Seq<Seq<Literal>>,
        front: Seq<(usize, usize)>,
        c: (usize, usize),
    )
        requires
            self.settles(before, solver, cnf, front),
            !front.contains(c),
            after.must_not_mine@ == before.must_not_mine@ || after.must_not_mine@
                == before.must_not_mine@.push(c),
            after.must_be_mine@ == before.must_be_mine@ || after.must_be_mine@
                == before.must_be_mine@.push(c),
            after.must_be_mine@ == before.must_be_mine@ || after.must_not_mine@
                == before.must_not_mine@,
            after.must_not_mine@ != before.must_not_mine@ ==> (self.proved_safe(cnf))(c),
            after.must_be_mine@ != before.must_be_mine@ ==> refutes(
                cnf,
                literal_of(self.mine_variable(c.0 as int, c.1 as int), false),
            ),
            solver.decides() ==> (after.must_not_mine@ != before.must_not_mine@) == (
            self.proved_safe(cnf))(c),
            solver.decides() ==> (after.must_be_mine@ != before.must_be_mine@) == (
            self.proved_mined(cnf))(c),
            front.push(c).filter(self.proved_safe(cnf)) == if (self.proved_safe(cnf))(c) {
                front.filter(self.proved_safe(cnf)).push(c)
            } else {
                front.filter(self.proved_safe(cnf))
            },
            front.push(c).filter(self.proved_mined(cnf)) == if (self.proved_mined(cnf))(c) {
                front.filter(self.proved_mined(cnf)).push(c)
            } else {
                front.filter(self.proved_mined(cnf))
            },
            solver.repeatable() ==> (after.must_not_mine@ != before.must_not_mine@) == (
            self.answered_safe(solver, cnf))(c),
            solver.repeatable() ==> (after.must_be_mine@ != before.must_be_mine@) == (
            self.answered_mined(solver, cnf))(c),
        ensures
            self.settles(after, solver, cnf, front.push(c)),
    {
        front.lemma_filter_push(c, self.answered_safe(solver, cnf));
        front.lemma_filter_push(c, self.answered_mined(solver, cnf));
        let cells = front.push(c);
        assert(cells[front.len() as int] == c);
        assert forall|k: int| 0 <= k < front.len() implies cells.contains(#[trigger] front[k]) by {
            assert(cells[k] == front[k]);
        }
        assert forall|i: int| 0 <= i < after.must_not_mine@.len() implies cells.contains(
            #[trigger] after.must_not_mine@[i],
        ) && (self.proved_safe(cnf))(after.must_not_mine@[i]) by {
            if i < before.must_not_mine@.len() {
                let v = before.must_not_mine@[i];
                assert(front.contains(v));
                let k = choose|k: int| 0 <= k < front.len() && front[k] == v;
                assert(cells.contains(front[k]));
            }
        }
        assert forall|i: int| 0 <= i < after.must_be_mine@.len() implies cells.contains(
            #[trigger] after.must_be_mine@[i],
        ) && refutes(
            cnf,
            literal_of(
                self.mine_variable(after.must_be_mine@[i].0 as int, after.must_be_mine@[i].1 as int),
                false,
            ),
        ) by {
            if i < before.must_be_mine@.len() {
                let v = before.must_be_mine@[i];
                assert(front.contains(v));
                let k = choose|k: int| 0 <= k < front.len() && front[k] == v;
                assert(cells.contains(front[k]));
            }
        }
        assert forall|i: int, j: int|
            0 <= i < after.must_be_mine@.len() && 0 <= j < after.must_not_mine@.len()
                implies after.must_be_mine@[i] != after.must_not_mine@[j] by {
            if i < before.must_be_mine@.len() {
                assert(front.contains(before.must_be_mine@[i]));
            }
            if j < before.must_not_mine@.len() {
                assert(front.contains(before.must_not_mine@[j]));
            }
        }
        assert forall|i: int, j: int|
            0 <= i < after.must_be_mine@.len() && 0 <= j < after.must_be_mine@.len() && i
                != j implies after.must_be_mine@[i] != after.must_be_mine@[j] by {
            if i < before.must_be_mine@.len() {
                assert(front.contains(before.must_be_mine@[i]));
            }
            if j < before.must_be_mine@.len() {
                assert(front.contains(before.must_be_mine@[j]));
            }
        }
        assert forall|i: int, j: int|
            0 <= i < after.must_not_mine@.len() && 0 <= j < after.must_not_mine@.len() && i
                != j implies after.must_not_mine@[i] != after.must_not_mine@[j] by {
            if i < before.must_not_mine@.len() {
                assert(front.contains(before.must_not_mine@[i]));
            }
            if j < before.must_not_mine@.len() {
                assert(front.contains(before.must_not_mine@[j]));
            }
        }
    }
}

} // verus!

//! What the deduction is worth: a cell that it settles is so in every mine
//! layout that the board allows, and a solver that decides every query
//! settles every cell that is so.
//!
//! A layout is given as a valuation: the set of the variables of the cells
//! that hold a mine.

use vstd::prelude::*;
use crate::deduce::backend::SatSolver;
use crate::deduce::constraints::Face;
use crate::deduce::driver::{SolveResult, literal_of, refutes};
use crate::deduce::encode::{
    cell_literal, cell_variable, conjoin, disjoin, exactly, lemma_cell_literal, lemma_conjoin,
    lemma_exactly, lemma_some_selection, mined_in, selection_formula,
};
use crate::deduce::subsets::k_subsets;
use crate::game::grid::{
    adjacent, count_where, grid_cells, in_grid, lemma_count_filter, lemma_count_same,
    lemma_count_split, lemma_grid_cells, lemma_neighbours,
};
use crate::game::state::GameResult;
use crate::game::view::{CellView, GameView};
use crate::sat::cnf::{Literal, cnf_holds, clause_holds, lemma_cnf_holds_concat};
use crate::sat::formula::Formula;

verus! {

impl GameView {
    /// The layout fits what the cell `(x, y)` shows: a flagged cell holds a
    /// mine; an opened cell holds none and shows the number of mines
    /// around it.
    pub open spec fn cell_fits(&self, x: int, y: int, m: Set<usize>) -> bool {
        match self.spec_cell(x, y) {
            CellView::Flagged => m.contains(self.mine_variable(x, y)),
            CellView::Opened(n) => !m.contains(self.mine_variable(x, y)) && count_where(
                self.spec_nearby_cells(x, y),
                mined_in(self.spec_width(), m),
            ) == n,
            _ => true,
        }
    }

    /// The layout fits what every cell of the board shows.
    pub open spec fn fits(&self, m: Set<usize>) -> bool {
        forall|x: int, y: int| self.on_board(x, y) ==> #[trigger] self.cell_fits(x, y, m)
    }

    /// The layout puts no mine under a cell that shows neither a clue nor
    /// an intact face, such as a question mark. The deduction reads those
    /// cells as safe.
    pub open spec fn spares_marked(&self, m: Set<usize>) -> bool {
        forall|x: int, y: int|
            self.on_board(x, y) && !self.spec_cell(x, y).intact() && !self.spec_cell(x, y).clue()
                ==> !m.contains(#[trigger] self.mine_variable(x, y))
    }

    /// The layouts that the board allows.
    pub open spec fn allows(&self, m: Set<usize>) -> bool {
        self.fits(m) && self.spares_marked(m)
    }

    /// The layout has a mine under every flag, and none under a cell that
    /// is neither flagged nor intact.
    pub open spec fn reads_faces(&self, m: Set<usize>) -> bool {
        forall|x: int, y: int|
            self.on_board(x, y) ==> (self.spec_cell(x, y) == CellView::Flagged ==> m.contains(
                #[trigger] self.mine_variable(x, y),
            )) && (self.spec_cell(x, y) != CellView::Flagged && !self.spec_cell(x, y).intact()
                ==> !m.contains(self.mine_variable(x, y)))
    }

    /// Whether the cell holds a mine in the layout that is read off the
    /// valuation `m`: a flagged cell does, an active cell does where `m`
    /// says so, and no other cell does.
    pub open spec fn read_off(&self, x: int, y: int, m: Set<usize>) -> bool {
        self.spec_cell(x, y) == CellView::Flagged || ((self.is_active())((x as usize, y as usize))
            && m.contains(self.mine_variable(x, y)))
    }

    /// The layout that is read off the valuation `m`.
    pub open spec fn layout_of(&self, m: Set<usize>) -> Set<usize> {
        Set::new(
            |u: usize|
                exists|x: int, y: int|
                    self.on_board(x, y) && #[trigger] self.mine_variable(x, y) == u && self.read_off(
                        x,
                        y,
                        m,
                    ),
        )
    }

    /// The fresh variables of the encoding fit below the largest index.
    pub open spec fn encodable(&self) -> bool {
        self.spec_constraints() is Some ==> self.fresh_base()
            + self.spec_constraints().unwrap().fresh_count() <= usize::MAX
    }
}

/// Two cells of a grid with the same variable are the same cell.
pub proof fn lemma_variable_injective(w: nat, x0: int, y0: int, x1: int, y1: int)
    requires
        0 <= x0 < w,
        0 <= x1 < w,
        0 <= y0,
        0 <= y1,
        y0 * w + x0 == y1 * w + x1,
    ensures
        x0 == x1,
        y0 == y1,
{
    if y0 < y1 {
        assert(y1 * w >= y0 * w + w) by (nonlinear_arith)
            requires
                y0 < y1,
                w >= 0,
        ;
    }
    if y1 < y0 {
        assert(y0 * w >= y1 * w + w) by (nonlinear_arith)
            requires
                y1 < y0,
                w >= 0,
        ;
    }
}

/// The variable of a cell of the grid lies below the number of cells.
pub proof fn lemma_cell_variable(w: nat, h: nat, c: (usize, usize))
    requires
        in_grid(w as int, h as int, c.0 as int, c.1 as int),
        w * h <= usize::MAX,
    ensures
        cell_variable(w, c) == c.1 * w + c.0,
        cell_variable(w, c) < w * h,
{
    let x = c.0 as int;
    let y = c.1 as int;
    assert(y * w + x < w * h && y * w + x >= 0) by (nonlinear_arith)
        requires
            0 <= x < w,
            0 <= y < h,
    ;
}

/// The variables of a conjunction are those of its formulas.
proof fn lemma_conjoin_variables(fs: Seq<Formula>, bound: int)
    requires
        fs.len() >= 1,
        forall|i: int| 0 <= i < fs.len() ==> (#[trigger] fs[i]).greatest_variable() < bound,
    ensures
        conjoin(fs).greatest_variable() < bound,
    decreases fs.len(),
{
    if fs.len() > 1 {
        let front = fs.drop_last();
        assert forall|i: int| 0 <= i < front.len() implies (#[trigger] front[i]).greatest_variable()
            < bound by {
            assert(front[i] == fs[i]);
        }
        lemma_conjoin_variables(front, bound);
        assert(fs[fs.len() - 1].greatest_variable() < bound);
    }
}

/// The variables of a disjunction are those of its formulas.
proof fn lemma_disjoin_variables(fs: Seq<Formula>, bound: int)
    requires
        fs.len() >= 1,
        forall|i: int| 0 <= i < fs.len() ==> (#[trigger] fs[i]).greatest_variable() < bound,
    ensures
        disjoin(fs).greatest_variable() < bound,
    decreases fs.len(),
{
    if fs.len() > 1 {
        let front = fs.drop_last();
        assert forall|i: int| 0 <= i < front.len() implies (#[trigger] front[i]).greatest_variable()
            < bound by {
            assert(front[i] == fs[i]);
        }
        lemma_disjoin_variables(front, bound);
        assert(fs[fs.len() - 1].greatest_variable() < bound);
    }
}

/// The variables of the formula `exactly` are those of its cells.
proof fn lemma_exactly_variables(w: nat, h: nat, cells: Seq<(usize, usize)>, k: nat)
    requires
        cells.len() >= 1,
        k <= cells.len(),
        w * h <= usize::MAX,
        forall|i: int|
            0 <= i < cells.len() ==> in_grid(
                w as int,
                h as int,
                (#[trigger] cells[i]).0 as int,
                cells[i].1 as int,
            ),
    ensures
        exactly(w, cells, k).greatest_variable() < w * h,
{
    let subsets = k_subsets(cells, k);
    let fs = subsets.map_values(|s: Seq<(usize, usize)>| selection_formula(w, cells, s));
    lemma_some_selection(cells, k);
    assert forall|i: int| 0 <= i < fs.len() implies (#[trigger] fs[i]).greatest_variable() < w
        * h by {
        let s = subsets[i];
        let ls = cells.map_values(|c: (usize, usize)| cell_literal(w, c, s.contains(c)));
        assert forall|j: int| 0 <= j < ls.len() implies (#[trigger] ls[j]).greatest_variable() < w
            * h by {
            lemma_cell_variable(w, h, cells[j]);
            reveal_with_fuel(Formula::greatest_variable, 3);
        }
        lemma_conjoin_variables(ls, (w * h) as int);
    }
    lemma_disjoin_variables(fs, (w * h) as int);
}

impl GameView {
    /// The cells around a cell, and those of them that show one kind of
    /// picture, are distinct cells of the board.
    pub proof fn lemma_around(&self, x: int, y: int, face: Face)
        requires
            self.wf(),
        ensures
            self.around(x, y, face).no_duplicates(),
            self.spec_nearby_cells(x, y).no_duplicates(),
            forall|i: int|
                0 <= i < self.spec_nearby_cells(x, y).len() ==> self.on_board(
                    (#[trigger] self.spec_nearby_cells(x, y)[i]).0 as int,
                    self.spec_nearby_cells(x, y)[i].1 as int,
                ) && adjacent(
                    x,
                    y,
                    self.spec_nearby_cells(x, y)[i].0 as int,
                    self.spec_nearby_cells(x, y)[i].1 as int,
                ),
            forall|i: int|
                0 <= i < self.around(x, y, face).len() ==> self.on_board(
                    (#[trigger] self.around(x, y, face)[i]).0 as int,
                    self.around(x, y, face)[i].1 as int,
                ) && (self.showing(face))(self.around(x, y, face)[i]) && adjacent(
                    x,
                    y,
                    self.around(x, y, face)[i].0 as int,
                    self.around(x, y, face)[i].1 as int,
                ),
            forall|c: (usize, usize)|
                self.on_board(c.0 as int, c.1 as int) && adjacent(x, y, c.0 as int, c.1 as int) && (
                self.showing(face))(c) ==> #[trigger] self.around(x, y, face).contains(c),
    {
        let near = self.spec_nearby_cells(x, y);
        let kept = self.around(x, y, face);
        self.lemma_size();
        lemma_neighbours(self.spec_width() as int, self.spec_height() as int, x, y);
        lemma_count_filter(near, self.showing(face), self.showing(face));
        assert forall|i: int| 0 <= i < near.len() implies self.on_board(
            (#[trigger] near[i]).0 as int,
            near[i].1 as int,
        ) && adjacent(x, y, near[i].0 as int, near[i].1 as int) by {
            assert(near.contains(near[i]));
        }
        assert forall|i: int| 0 <= i < kept.len() implies self.on_board(
            (#[trigger] kept[i]).0 as int,
            kept[i].1 as int,
        ) && (self.showing(face))(kept[i]) && adjacent(x, y, kept[i].0 as int, kept[i].1 as int) by {
            assert(near.contains(kept[i]));
        }
        assert forall|c: (usize, usize)|
            self.on_board(c.0 as int, c.1 as int) && adjacent(x, y, c.0 as int, c.1 as int) && (
            self.showing(face))(c) implies #[trigger] kept.contains(c) by {
            assert(near.contains(c));
            let i = choose|i: int| 0 <= i < near.len() && near[i] == c;
            assert(kept.contains(near[i]));
        }
    }

    /// A layout that the board allows has a mine under every flag, and none
    /// under a cell that is neither flagged nor intact.
    pub proof fn lemma_allowed_reads_faces(&self, m: Set<usize>)
        requires
            self.allows(m),
        ensures
            self.reads_faces(m),
    {
        assert forall|x: int, y: int| self.on_board(x, y) implies (self.spec_cell(x, y)
            == CellView::Flagged ==> m.contains(#[trigger] self.mine_variable(x, y))) && (
        self.spec_cell(x, y) != CellView::Flagged && !self.spec_cell(x, y).intact() ==> !m.contains(
            self.mine_variable(x, y),
        )) by {
            assert(self.cell_fits(x, y, m));
        }
    }

    /// In a layout with a mine under every flag and none under a cell that
    /// is neither flagged nor intact, the mines around a cell are the
    /// flagged cells around it and the mined ones among the intact cells
    /// around it.
    pub proof fn lemma_mines_around(&self, x: int, y: int, m: Set<usize>)
        requires
            self.wf(),
            self.reads_faces(m),
        ensures
            count_where(self.spec_nearby_cells(x, y), mined_in(self.spec_width(), m))
                == self.around(x, y, Face::Flag).len() + count_where(
                self.around(x, y, Face::Intact),
                mined_in(self.spec_width(), m),
            ),
    {
        let w = self.spec_width();
        let near = self.spec_nearby_cells(x, y);
        let mined = mined_in(w, m);
        let flag = self.showing(Face::Flag);
        let intact = self.showing(Face::Intact);
        let intact_mined = |c: (usize, usize)| intact(c) && mined(c);
        self.lemma_around(x, y, Face::Intact);
        self.lemma_size();
        assert forall|i: int| 0 <= i < near.len() implies mined(#[trigger] near[i]) == (flag(near[i])
            || intact_mined(near[i])) && !(flag(near[i]) && intact_mined(near[i])) by {
            let c = near[i];
            let cx = c.0 as int;
            let cy = c.1 as int;
            assert(self.on_board(cx, cy));
            lemma_cell_variable(w, self.spec_height(), c);
            assert(self.mine_variable(cx, cy) == cell_variable(w, c));
        }
        lemma_count_split(near, mined, flag, intact_mined);
        lemma_count_filter(near, intact, mined);
    }

    /// In a layout that the board allows, every clue is consistent and what
    /// it says holds.
    pub proof fn lemma_clue_holds(&self, x: int, y: int, m: Set<usize>)
        requires
            self.wf(),
            self.on_board(x, y),
            (self.informs())((x as usize, y as usize)),
            self.allows(m),
        ensures
            self.clue_consistent(x, y),
            self.clue_formula(x, y).eval(m),
            self.clue_formula(x, y).greatest_variable() < self.spec_width() * self.spec_height(),
    {
        let w = self.spec_width();
        let h = self.spec_height();
        let own = (x as usize, y as usize);
        let cells = self.around(x, y, Face::Intact);
        self.lemma_size();
        self.lemma_around(x, y, Face::Intact);
        self.lemma_allowed_reads_faces(m);
        self.lemma_mines_around(x, y, m);
        lemma_cell_variable(w, h, own);
        lemma_cell_literal(w, own, true, m);
        lemma_cell_literal(w, own, false, m);
        assert(self.cell_fits(x, y, m));
        assert(self.mine_variable(x, y) == cell_variable(w, own));
        reveal_with_fuel(Formula::greatest_variable, 3);
        match self.spec_cell(x, y) {
            CellView::Opened(n) => {
                let k = self.missing_mines(x, y);
                lemma_count_filter(cells, mined_in(w, m), mined_in(w, m));
                cells.lemma_filter_len(mined_in(w, m));
                assert(k == count_where(cells, mined_in(w, m)));
                lemma_exactly(w, cells, k as nat, m);
                lemma_exactly_variables(w, h, cells, k as nat);
            },
            _ => {},
        }
    }

    /// The formula of the board holds in every layout that the board
    /// allows, and its variables are variables of cells.
    pub proof fn lemma_constraints_hold(&self, m: Set<usize>)
        requires
            self.wf(),
            self.allows(m),
            self.informing_cells().len() > 0,
        ensures
            self.all_consistent(),
            self.spec_constraints() is Some,
            self.spec_constraints().unwrap().eval(m),
            self.spec_constraints().unwrap().greatest_variable() < self.spec_width()
                * self.spec_height(),
    {
        let cells = self.informing_cells();
        let fs = self.clue_formulas();
        let all = grid_cells(self.spec_width(), self.spec_height());
        self.lemma_size();
        lemma_grid_cells(self.spec_width(), self.spec_height());
        lemma_count_filter(all, self.informs(), self.informs());
        assert forall|i: int| 0 <= i < cells.len() implies self.clue_consistent(
            (#[trigger] cells[i]).0 as int,
            cells[i].1 as int,
        ) && fs[i].eval(m) && fs[i].greatest_variable() < self.spec_width()
            * self.spec_height() by {
            let c = cells[i];
            assert(all.contains(c));
            assert(self.on_board(c.0 as int, c.1 as int));
            self.lemma_clue_holds(c.0 as int, c.1 as int, m);
        }
        lemma_conjoin(fs, m);
        assert forall|i: int| 0 <= i < fs.len() implies (#[trigger] fs[i]).greatest_variable()
            < self.spec_width() * self.spec_height() by {
            assert(self.clue_consistent(cells[i].0 as int, cells[i].1 as int));
        }
        lemma_conjoin_variables(fs, (self.spec_width() * self.spec_height()) as int);
    }

    /// Every layout that the board allows can be extended to the fresh
    /// variables so that it satisfies the clauses of the encoding.
    pub proof fn lemma_encoding_holds(&self, m: Set<usize>) -> (r: Set<usize>)
        requires
            self.wf(),
            self.allows(m),
            self.spec_encoding() is Some,
        ensures
            cnf_holds(self.spec_encoding().unwrap(), r),
            forall|v: usize| v < self.spec_width() * self.spec_height() ==> r.contains(v)
                == m.contains(v),
    {
        self.lemma_size();
        if self.informing_cells().len() > 0 {
            self.lemma_constraints_hold(m);
        }
        let f = self.spec_constraints().unwrap();
        f.lemma_tseitin_complete(self.fresh_base() as usize, m)
    }

    /// Every variable of the clauses that the driver puts its queries to is
    /// the variable of a cell, or lies at or above the first fresh variable.
    pub proof fn lemma_encoding_variables(&self)
        requires
            self.wf(),
            self.spec_encoding() is Some,
        ensures
            forall|i: int, j: int|
                0 <= i < self.spec_encoding().unwrap().len() && 0 <= j
                    < self.spec_encoding().unwrap()[i].len() ==> (
                #[trigger] self.spec_encoding().unwrap()[i][j]).variable.0 < self.spec_width()
                    * self.spec_height() || self.spec_encoding().unwrap()[i][j].variable.0
                    >= self.fresh_base(),
            self.fresh_base() >= self.spec_width() * self.spec_height(),
    {
        let f = self.spec_constraints().unwrap();
        let cnf = self.spec_encoding().unwrap();
        self.lemma_size();
        self.lemma_constraints_variables();
        f.lemma_tseitin_variables(self.fresh_base() as usize);
        assert forall|i: int, j: int| 0 <= i < cnf.len() && 0 <= j < cnf[i].len() implies (
        #[trigger] cnf[i][j]).variable.0 < self.spec_width() * self.spec_height()
            || cnf[i][j].variable.0 >= self.fresh_base() by {
            assert(crate::sat::equisat::admitted(
                cnf[i][j].variable.0,
                f.greatest_variable() as int,
                self.fresh_base() as int,
                (self.fresh_base() + f.fresh_count()) as int,
            ));
        }
    }

    /// The variables of the formula of the board are variables of cells,
    /// whether or not a layout is allowed.
    pub proof fn lemma_constraints_variables(&self)
        requires
            self.wf(),
            self.spec_constraints() is Some,
        ensures
            self.spec_constraints().unwrap().greatest_variable() < self.spec_width()
                * self.spec_height(),
    {
        let cells = self.informing_cells();
        let fs = self.clue_formulas();
        let w = self.spec_width();
        let h = self.spec_height();
        let all = grid_cells(w, h);
        self.lemma_size();
        lemma_grid_cells(w, h);
        lemma_count_filter(all, self.informs(), self.informs());
        assert forall|i: int| 0 <= i < fs.len() implies (#[trigger] fs[i]).greatest_variable() < w
            * h by {
            let c = cells[i];
            assert(all.contains(c));
            assert(self.on_board(c.0 as int, c.1 as int));
            assert(self.clue_consistent(c.0 as int, c.1 as int));
            let x = c.0 as int;
            let y = c.1 as int;
            let around = self.around(x, y, Face::Intact);
            self.lemma_around(x, y, Face::Intact);
            lemma_cell_variable(w, h, c);
            reveal_with_fuel(Formula::greatest_variable, 3);
            match self.spec_cell(x, y) {
                CellView::Opened(n) => {
                    lemma_exactly_variables(w, h, around, self.missing_mines(x, y) as nat);
                },
                _ => {},
            }
        }
        lemma_conjoin_variables(fs, (w * h) as int);
    }

    /// Soundness of the deduction: in every layout that the board allows, a
    /// cell that is reported as mined holds a mine, and a cell that is
    /// reported as safe holds none, whatever solver gave the answers.
    pub proof fn lemma_solve_sound(&self, r: SolveResult, solver: SatSolver, m: Set<usize>)
        requires
            self.wf(),
            self.settled_by(r, solver),
            self.allows(m),
        ensures
            forall|i: int|
                0 <= i < r.must_be_mine@.len() ==> m.contains(
                    self.mine_variable(
                        (#[trigger] r.must_be_mine@[i]).0 as int,
                        r.must_be_mine@[i].1 as int,
                    ),
                ),
            forall|i: int|
                0 <= i < r.must_not_mine@.len() ==> !m.contains(
                    self.mine_variable(
                        (#[trigger] r.must_not_mine@[i]).0 as int,
                        r.must_not_mine@[i].1 as int,
                    ),
                ),
    {
        if self.spec_encoding() is Some {
            let cnf = self.spec_encoding().unwrap();
            let extended = self.lemma_encoding_holds(m);
            self.lemma_active_on_board();
            assert forall|i: int| 0 <= i < r.must_be_mine@.len() implies m.contains(
                self.mine_variable(
                    (#[trigger] r.must_be_mine@[i]).0 as int,
                    r.must_be_mine@[i].1 as int,
                ),
            ) by {
                let c = r.must_be_mine@[i];
                let v = self.mine_variable(c.0 as int, c.1 as int);
                assert(self.spec_active_cells().contains(c));
                self.lemma_variable_on_board(c);
                if !m.contains(v) {
                    lemma_unit_holds(cnf, literal_of(v, false), extended);
                }
            }
            assert forall|i: int| 0 <= i < r.must_not_mine@.len() implies !m.contains(
                self.mine_variable(
                    (#[trigger] r.must_not_mine@[i]).0 as int,
                    r.must_not_mine@[i].1 as int,
                ),
            ) by {
                let c = r.must_not_mine@[i];
                let v = self.mine_variable(c.0 as int, c.1 as int);
                assert(self.spec_active_cells().contains(c));
                self.lemma_variable_on_board(c);
                if m.contains(v) {
                    lemma_unit_holds(cnf, literal_of(v, true), extended);
                }
            }
        }
    }

    /// The active cells are intact cells of the board, each with a clue
    /// next to it.
    pub proof fn lemma_active_on_board(&self)
        requires
            self.wf(),
        ensures
            forall|c: (usize, usize)| #[trigger]
                self.spec_active_cells().contains(c) <==> self.on_board(c.0 as int, c.1 as int) && (
                self.is_active())(c),
            self.spec_active_cells().no_duplicates(),
    {
        let all = grid_cells(self.spec_width(), self.spec_height());
        self.lemma_size();
        lemma_grid_cells(self.spec_width(), self.spec_height());
        lemma_count_filter(all, self.is_active(), self.is_active());
        assert forall|c: (usize, usize)| #[trigger]
            self.spec_active_cells().contains(c) <==> self.on_board(c.0 as int, c.1 as int) && (
            self.is_active())(c) by {
            if self.spec_active_cells().contains(c) {
                let i = choose|i: int|
                    0 <= i < self.spec_active_cells().len() && self.spec_active_cells()[i] == c;
                assert(all.contains(self.spec_active_cells()[i]));
            }
            if self.on_board(c.0 as int, c.1 as int) && (self.is_active())(c) {
                assert(all.contains(c));
                let i = choose|i: int| 0 <= i < all.len() && all[i] == c;
                assert(self.spec_active_cells().contains(all[i]));
            }
        }
    }

    /// The variable of a cell of the board lies below the number of cells.
    pub proof fn lemma_variable_on_board(&self, c: (usize, usize))
        requires
            self.wf(),
            self.on_board(c.0 as int, c.1 as int),
        ensures
            self.mine_variable(c.0 as int, c.1 as int) == cell_variable(self.spec_width(), c),
            self.mine_variable(c.0 as int, c.1 as int) < self.spec_width() * self.spec_height(),
            self.mine_variable(c.0 as int, c.1 as int) == c.1 * self.spec_width() + c.0,
    {
        self.lemma_size();
        lemma_cell_variable(self.spec_width(), self.spec_height(), c);
    }
}

impl GameView {
    /// On the cells of the board, the layout read off a valuation holds the
    /// mines that `read_off` tells.
    pub proof fn lemma_layout_of(&self, m: Set<usize>, x: int, y: int)
        requires
            self.wf(),
            self.on_board(x, y),
        ensures
            self.layout_of(m).contains(self.mine_variable(x, y)) == self.read_off(x, y, m),
    {
        let u = self.mine_variable(x, y);
        self.lemma_size();
        self.lemma_variable_on_board((x as usize, y as usize));
        if self.layout_of(m).contains(u) {
            let (x1, y1) = choose|x1: int, y1: int|
                self.on_board(x1, y1) && #[trigger] self.mine_variable(x1, y1) == u
                    && self.read_off(x1, y1, m);
            self.lemma_variable_on_board((x1 as usize, y1 as usize));
            lemma_variable_injective(self.spec_width(), x, y, x1, y1);
        }
    }

    /// A clue touches the active cells around it, and an active cell the
    /// clues around it.
    pub proof fn lemma_touching(&self, x: int, y: int, c: (usize, usize))
        requires
            self.wf(),
            self.on_board(x, y),
            self.on_board(c.0 as int, c.1 as int),
            adjacent(x, y, c.0 as int, c.1 as int),
        ensures
            self.spec_cell(x, y).clue() && self.spec_cell(c.0 as int, c.1 as int).intact() ==> (
            self.is_active())(c) && (self.informs())((x as usize, y as usize)),
    {
        self.lemma_size();
        if self.spec_cell(x, y).clue() && self.spec_cell(c.0 as int, c.1 as int).intact() {
            self.lemma_around(c.0 as int, c.1 as int, Face::Clue);
            self.lemma_around(x, y, Face::Intact);
            assert(adjacent(c.0 as int, c.1 as int, x, y));
            assert((self.showing(Face::Clue))((x as usize, y as usize)));
            assert(self.around(c.0 as int, c.1 as int, Face::Clue).contains((x as usize, y as usize)));
            assert((self.showing(Face::Intact))(c));
            assert(self.around(x, y, Face::Intact).contains(c));
        }
    }

    /// The clues that enter the formula are the flagged and the opened
    /// cells next to an active cell.
    pub proof fn lemma_informing_cells(&self, x: int, y: int)
        requires
            self.wf(),
            self.on_board(x, y),
        ensures
            (self.informs())((x as usize, y as usize)) <==> self.spec_cell(x, y).clue()
                && exists|c: (usize, usize)|
                self.on_board(c.0 as int, c.1 as int) && adjacent(x, y, c.0 as int, c.1 as int)
                    && #[trigger] (self.is_active())(c),
    {
        let own = (x as usize, y as usize);
        let cells = self.around(x, y, Face::Intact);
        self.lemma_size();
        self.lemma_around(x, y, Face::Intact);
        if (self.informs())(own) {
            let c = cells[0];
            self.lemma_touching(x, y, c);
            assert(self.on_board(c.0 as int, c.1 as int) && adjacent(x, y, c.0 as int, c.1 as int)
                && (self.is_active())(c));
        }
        if self.spec_cell(x, y).clue() && exists|c: (usize, usize)|
            self.on_board(c.0 as int, c.1 as int) && adjacent(x, y, c.0 as int, c.1 as int)
                && #[trigger] (self.is_active())(c) {
            let c = choose|c: (usize, usize)|
                self.on_board(c.0 as int, c.1 as int) && adjacent(x, y, c.0 as int, c.1 as int)
                    && #[trigger] (self.is_active())(c);
            assert((self.showing(Face::Intact))(c));
            assert(cells.contains(c));
        }
    }

    /// The layout read off a valuation that satisfies the formula of the
    /// board is a layout that the board allows, provided that the board
    /// allows a layout at all.
    #[verifier::rlimit(40)]
    pub proof fn lemma_layout_allowed(&self, m: Set<usize>, witness: Set<usize>)
        requires
            self.wf(),
            self.allows(witness),
            self.spec_constraints() is Some,
            self.spec_constraints().unwrap().eval(m),
        ensures
            self.allows(self.layout_of(m)),
    {
        let layout = self.layout_of(m);
        let w = self.spec_width();
        let h = self.spec_height();
        self.lemma_size();
        assert forall|x: int, y: int| self.on_board(x, y) implies (self.spec_cell(x, y)
            == CellView::Flagged ==> layout.contains(#[trigger] self.mine_variable(x, y))) && (
        self.spec_cell(x, y) != CellView::Flagged && !self.spec_cell(x, y).intact()
            ==> !layout.contains(self.mine_variable(x, y))) by {
            self.lemma_layout_of(m, x, y);
        }
        assert(self.reads_faces(layout));
        assert forall|x: int, y: int|
            self.on_board(x, y) && !self.spec_cell(x, y).intact() && !self.spec_cell(
                x,
                y,
            ).clue() implies !layout.contains(#[trigger] self.mine_variable(x, y)) by {
            self.lemma_layout_of(m, x, y);
        }
        assert forall|x: int, y: int| self.on_board(x, y) implies #[trigger] self.cell_fits(
            x,
            y,
            layout,
        ) by {
            self.lemma_layout_of(m, x, y);
            match self.spec_cell(x, y) {
                CellView::Opened(n) => {
                    let own = (x as usize, y as usize);
                    let cells = self.around(x, y, Face::Intact);
                    self.lemma_around(x, y, Face::Intact);
                    self.lemma_mines_around(x, y, layout);
                    assert forall|i: int| 0 <= i < cells.len() implies (mined_in(w, layout))(
                        #[trigger] cells[i],
                    ) == (mined_in(w, m))(cells[i]) by {
                        let c = cells[i];
                        self.lemma_touching(x, y, c);
                        self.lemma_layout_of(m, c.0 as int, c.1 as int);
                        self.lemma_variable_on_board(c);
                    }
                    lemma_count_same(cells, mined_in(w, layout), mined_in(w, m));
                    if cells.len() > 0 {
                        // the clue is part of the formula, which holds under `m`
                        let all = grid_cells(w, h);
                        lemma_grid_cells(w, h);
                        lemma_count_filter(all, self.informs(), self.informs());
                        assert(all.contains(own));
                        let q = choose|q: int| 0 <= q < all.len() && all[q] == own;
                        assert(self.informing_cells().contains(all[q]));
                        let i = choose|i: int|
                            0 <= i < self.informing_cells().len() && self.informing_cells()[i]
                                == own;
                        lemma_conjoin(self.clue_formulas(), m);
                        assert(self.clue_formulas()[i].eval(m));
                        assert(self.clue_consistent(
                            self.informing_cells()[i].0 as int,
                            self.informing_cells()[i].1 as int,
                        ));
                        lemma_exactly(w, cells, self.missing_mines(x, y) as nat, m);
                    } else {
                        // no cell around the clue is open: the witness shows that it is met
                        self.lemma_allowed_reads_faces(witness);
                        self.lemma_mines_around(x, y, witness);
                        assert(self.cell_fits(x, y, witness));
                        lemma_count_same(cells, mined_in(w, witness), mined_in(w, m));
                    }
                },
                _ => {},
            }
        }
    }

    /// Where the board allows a layout and a cell is active, the driver has
    /// clauses to put its queries to, provided that the fresh variables fit.
    pub proof fn lemma_encoding_exists(&self, c: (usize, usize), witness: Set<usize>)
        requires
            self.wf(),
            self.spec_result() == GameResult::Playing,
            self.on_board(c.0 as int, c.1 as int),
            (self.is_active())(c),
            self.allows(witness),
            self.encodable(),
        ensures
            self.spec_encoding() is Some,
            self.spec_constraints() is Some,
            self.spec_encoding() == Some(
                self.spec_constraints().unwrap().tseitin(self.fresh_base() as int),
            ),
            self.spec_active_cells().contains(c),
    {
        let w = self.spec_width();
        let h = self.spec_height();
        let all = grid_cells(w, h);
        self.lemma_size();
        self.lemma_active_on_board();
        lemma_grid_cells(w, h);
        let clues = self.around(c.0 as int, c.1 as int, Face::Clue);
        self.lemma_around(c.0 as int, c.1 as int, Face::Clue);
        let q = clues[0];
        assert(adjacent(q.0 as int, q.1 as int, c.0 as int, c.1 as int));
        self.lemma_touching(q.0 as int, q.1 as int, c);
        lemma_count_filter(all, self.informs(), self.informs());
        assert(all.contains(q));
        let i = choose|i: int| 0 <= i < all.len() && all[i] == q;
        assert(self.informing_cells().contains(all[i]));
        assert(self.informing_cells().len() > 0);
        self.lemma_constraints_hold(witness);
        assert(self.spec_active_cells().contains(c));
        assert(self.spec_active_cells().len() > 0);
    }

    /// Completeness of the deduction for a solver that decides every query:
    /// an active cell that holds a mine in every layout that the board
    /// allows is reported as mined, and one that holds none in any of them
    /// is reported as safe, provided that the board allows a layout at all.
    /// The board has a million cells at most, or is one whose encoding is
    /// known to fit.
    #[verifier::rlimit(40)]
    pub proof fn lemma_solve_complete(
        &self,
        r: SolveResult,
        solver: SatSolver,
        c: (usize, usize),
        witness: Set<usize>,
    )
        requires
            self.wf(),
            self.settled_by(r, solver),
            solver.decides(),
            self.spec_result() == GameResult::Playing,
            self.on_board(c.0 as int, c.1 as int),
            (self.is_active())(c),
            self.allows(witness),
            self.spec_width() * self.spec_height() <= 1_000_000 || self.encodable(),
        ensures
            (forall|m: Set<usize>| #[trigger]
                self.allows(m) ==> m.contains(self.mine_variable(c.0 as int, c.1 as int)))
                ==> r.must_be_mine@.contains(c),
            (forall|m: Set<usize>| #[trigger]
                self.allows(m) ==> !m.contains(self.mine_variable(c.0 as int, c.1 as int)))
                ==> r.must_not_mine@.contains(c),
    {
        if self.spec_width() * self.spec_height() <= 1_000_000 {
            self.lemma_encodable();
        }
        self.lemma_encoding_exists(c, witness);
        let f = self.spec_constraints().unwrap();
        let base = self.fresh_base() as int;
        let cnf = self.spec_encoding().unwrap();
        let v = self.mine_variable(c.0 as int, c.1 as int);
        let active = self.spec_active_cells();
        let k = choose|k: int| 0 <= k < active.len() && active[k] == c;
        lemma_count_filter(active, self.proved_mined(cnf), self.proved_mined(cnf));
        lemma_count_filter(active, self.proved_safe(cnf), self.proved_safe(cnf));
        self.lemma_variable_on_board(c);
        if forall|m: Set<usize>| #[trigger] self.allows(m) ==> m.contains(v) {
            let extended = self.lemma_encoding_holds(witness);
            assert(witness.contains(v));
            lemma_unit_holds(cnf, literal_of(v, true), extended);
            if !refutes(cnf, literal_of(v, false)) {
                let unit = seq![seq![literal_of(v, false)]];
                let m = choose|m: Set<usize>| cnf_holds(cnf + unit, m);
                lemma_cnf_holds_concat(cnf, unit, m);
                assert(clause_holds(unit[0], m));
                assert(unit[0][0] == literal_of(v, false));
                f.lemma_tseitin_sound(base, m);
                self.lemma_layout_allowed(m, witness);
                self.lemma_layout_of(m, c.0 as int, c.1 as int);
                assert(self.layout_of(m).contains(v));
                assert(false);
            }
            assert((self.proved_mined(cnf))(active[k]));
        }
        if forall|m: Set<usize>| #[trigger] self.allows(m) ==> !m.contains(v) {
            if !refutes(cnf, literal_of(v, true)) {
                let unit = seq![seq![literal_of(v, true)]];
                let m = choose|m: Set<usize>| cnf_holds(cnf + unit, m);
                lemma_cnf_holds_concat(cnf, unit, m);
                assert(clause_holds(unit[0], m));
                assert(unit[0][0] == literal_of(v, true));
                f.lemma_tseitin_sound(base, m);
                self.lemma_layout_allowed(m, witness);
                self.lemma_layout_of(m, c.0 as int, c.1 as int);
                assert(!self.layout_of(m).contains(v));
                assert(false);
            }
            assert((self.proved_safe(cnf))(active[k]));
        }
    }

    /// The deduction is a function of the board: two results of a
    /// repeatable solver on one board are equal.
    pub proof fn lemma_solve_deterministic(&self, a: SolveResult, b: SolveResult, solver: SatSolver)
        requires
            self.settled_by(a, solver),
            self.settled_by(b, solver),
            solver.repeatable(),
        ensures
            a.must_be_mine@ == b.must_be_mine@,
            a.must_not_mine@ == b.must_not_mine@,
    {
        if self.spec_encoding() is None {
            assert(a.must_be_mine@ =~= b.must_be_mine@);
            assert(a.must_not_mine@ =~= b.must_not_mine@);
        }
    }

    /// No cell is settled both ways.
    pub proof fn lemma_solve_disjoint(&self, r: SolveResult, solver: SatSolver, c: (usize, usize))
        requires
            self.settled_by(r, solver),
        ensures
            !(r.must_be_mine@.contains(c) && r.must_not_mine@.contains(c)),
    {
        if r.must_be_mine@.contains(c) && r.must_not_mine@.contains(c) {
            let i = choose|i: int| 0 <= i < r.must_be_mine@.len() && r.must_be_mine@[i] == c;
            let j = choose|j: int| 0 <= j < r.must_not_mine@.len() && r.must_not_mine@[j] == c;
            assert(r.must_be_mine@[i] != r.must_not_mine@[j]);
        }
    }

    /// A game that is not played settles nothing.
    pub proof fn lemma_solve_gated(&self, r: SolveResult, solver: SatSolver)
        requires
            self.settled_by(r, solver),
            self.spec_result() != GameResult::Playing,
        ensures
            r.must_be_mine@.len() == 0,
            r.must_not_mine@.len() == 0,
    {
    }
}

/// A valuation that satisfies the clauses and makes the literal true
/// satisfies the clauses together with the unit clause of the literal.
pub proof fn lemma_unit_holds(cnf: Seq<Seq<Literal>>, l: Literal, m: Set<usize>)
    requires
        cnf_holds(cnf, m),
        l.holds(m),
    ensures
        !refutes(cnf, l),
{
    let unit = seq![seq![l]];
    assert(unit[0][0] == l);
    assert(clause_holds(unit[0], m));
    lemma_cnf_holds_concat(cnf, unit, m);
}

} // verus!

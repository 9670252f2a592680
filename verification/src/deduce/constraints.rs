//! The constraint generator: the formula whose satisfying valuations are the
//! mine layouts that the visible clues allow.

use vstd::prelude::*;
use crate::deduce::encode::{
    and_also, cell_literal, cell_variable, conjoin, disjoin, exactly, lemma_some_selection,
    literal_formula, or_else, selection_formula,
};
use crate::deduce::subsets::{combinations, k_subsets, selections};
use crate::game::grid::{cells_in_rows, grid_cells, lemma_grid_cells, lemma_neighbours, position};
use crate::game::view::{CellView, GameView};
use crate::sat::cnf::Variable;
use crate::sat::formula::Formula;

verus! {

/// A kind of picture that the deduction tells apart.
#[derive(Debug, Clone, Copy, PartialEq, Eq, Structural)]
pub enum Face {
    /// Nothing is known of the cell.
    Intact,
    /// The cell is flagged.
    Flag,
    /// The cell is flagged or opened.
    Clue,
}

/// What a cell contributes to the formula.
#[derive(Debug)]
pub enum Clue {
    /// The cell says nothing of the cells around it.
    Nothing,
    /// The cell shows fewer mines than flags around it, or more mines than
    /// the flags and the intact cells around it can hold.
    Inconsistent,
    /// The cell says this.
    Says(Formula),
}

impl GameView {
    /// The cells that show a picture of the given kind.
    pub open spec fn showing(&self, face: Face) -> spec_fn((usize, usize)) -> bool {
        |c: (usize, usize)|
            match face {
                Face::Intact => self.spec_cell(c.0 as int, c.1 as int).intact(),
                Face::Flag => self.spec_cell(c.0 as int, c.1 as int) == CellView::Flagged,
                Face::Clue => self.spec_cell(c.0 as int, c.1 as int).clue(),
            }
    }

    /// The cells around `(x, y)` that show a picture of the given kind.
    pub open spec fn around(&self, x: int, y: int, face: Face) -> Seq<(usize, usize)> {
        self.spec_nearby_cells(x, y).filter(self.showing(face))
    }

    /// The variable that is true where the cell `(x, y)` holds a mine.
    pub open spec fn mine_variable(&self, x: int, y: int) -> usize {
        (y * self.spec_width() + x) as usize
    }

    /// The number of mines that an opened cell shows beyond the flags around
    /// it.
    pub open spec fn missing_mines(&self, x: int, y: int) -> int {
        match self.spec_cell(x, y) {
            CellView::Opened(n) => n - self.around(x, y, Face::Flag).len(),
            _ => 0,
        }
    }

    /// Whether the intact cells around the cell can hold the mines that it
    /// shows beyond the flags around it.
    pub open spec fn clue_consistent(&self, x: int, y: int) -> bool {
        0 <= self.missing_mines(x, y) <= self.around(x, y, Face::Intact).len()
    }

    /// What the clue at `(x, y)` says: a flagged cell holds a mine; an
    /// opened cell holds none, and of the intact cells around it exactly as
    /// many hold a mine as it shows beyond the flags around it.
    pub open spec fn clue_formula(&self, x: int, y: int) -> Formula {
        let own = (x as usize, y as usize);
        match self.spec_cell(x, y) {
            CellView::Opened(n) => Formula::Conjunction(
                Box::new(
                    exactly(
                        self.spec_width(),
                        self.around(x, y, Face::Intact),
                        self.missing_mines(x, y) as nat,
                    ),
                ),
                Box::new(cell_literal(self.spec_width(), own, false)),
            ),
            _ => cell_literal(self.spec_width(), own, true),
        }
    }

    /// The clues that say something of a cell whose state is open: the
    /// flagged and the opened cells with an intact cell next to them.
    pub open spec fn informs(&self) -> spec_fn((usize, usize)) -> bool {
        |c: (usize, usize)|
            self.spec_cell(c.0 as int, c.1 as int).clue() && self.around(
                c.0 as int,
                c.1 as int,
                Face::Intact,
            ).len() > 0
    }

    /// The cells whose clue enters the formula, row by row.
    pub open spec fn informing_cells(&self) -> Seq<(usize, usize)> {
        grid_cells(self.spec_width(), self.spec_height()).filter(self.informs())
    }

    /// The clue of every informing cell is consistent.
    pub open spec fn all_consistent(&self) -> bool {
        forall|i: int|
            0 <= i < self.informing_cells().len() ==> self.clue_consistent(
                (#[trigger] self.informing_cells()[i]).0 as int,
                self.informing_cells()[i].1 as int,
            )
    }

    /// What the informing cells say, in their order.
    pub open spec fn clue_formulas(&self) -> Seq<Formula> {
        self.informing_cells().map_values(
            |c: (usize, usize)| self.clue_formula(c.0 as int, c.1 as int),
        )
    }

    /// The formula of the board: the conjunction of what its informing
    /// cells say. There is none where no cell informs or a clue is
    /// inconsistent.
    pub open spec fn spec_constraints(&self) -> Option<Formula> {
        if self.informing_cells().len() == 0 || !self.all_consistent() {
            None
        } else {
            Some(conjoin(self.clue_formulas()))
        }
    }

    /// The cells whose state the clues constrain: the intact cells next to a
    /// flagged or an opened cell.
    pub open spec fn is_active(&self) -> spec_fn((usize, usize)) -> bool {
        |c: (usize, usize)|
            self.spec_cell(c.0 as int, c.1 as int).intact() && self.around(
                c.0 as int,
                c.1 as int,
                Face::Clue,
            ).len() > 0
    }

    /// The active cells, row by row.
    pub open spec fn spec_active_cells(&self) -> Seq<(usize, usize)> {
        grid_cells(self.spec_width(), self.spec_height()).filter(self.is_active())
    }

    /// The variable that is true where the cell `(x, y)` holds a mine:
    /// the cells are numbered row by row.
    pub fn mine_var(&self, x: usize, y: usize) -> (v: Variable)
        requires
            self.wf(),
            self.on_board(x as int, y as int),
        ensures
            v.0 == self.mine_variable(x as int, y as int),
            v.0 == cell_variable(self.spec_width(), (x, y)),
            v.0 < self.spec_width() * self.spec_height(),
    {
        let w = self.width();
        proof {
            self.lemma_size();
            let h = self.spec_height();
            assert(y * w + x < w * h) by (nonlinear_arith)
                requires
                    0 <= x < w,
                    0 <= y < h,
            ;
        }
        Variable(y * w + x)
    }

    /// Whether the cell shows a picture of the given kind.
    pub fn shows(&self, x: usize, y: usize, face: Face) -> (b: bool)
        requires
            self.wf(),
            self.on_board(x as int, y as int),
        ensures
            b == (self.showing(face))((x, y)),
    {
        let cell = self.cell(x, y);
        match face {
            Face::Intact => cell.is_intact(),
            Face::Flag => cell == CellView::Flagged,
            Face::Clue => cell.is_clue(),
        }
    }

    /// The cells around `(x, y)` that show a picture of the given kind, in
    /// the order of the cells around.
    #[verifier::rlimit(40)]
    pub fn select_around(&self, x: usize, y: usize, face: Face) -> (r: Vec<(usize, usize)>)
        requires
            self.wf(),
        ensures
            r@ == self.around(x as int, y as int, face),
            r@.len() <= 8,
            r@.no_duplicates(),
            forall|i: int|
                0 <= i < r@.len() ==> self.on_board((#[trigger] r@[i]).0 as int, r@[i].1 as int),
    {
        let cells = self.nearby_cells(x, y);
        let mut r: Vec<(usize, usize)> = Vec::new();
        let mut i: usize = 0;
        proof {
            reveal(Seq::filter);
            assert(cells@.take(0) =~= Seq::<(usize, usize)>::empty());
            self.lemma_size();
            lemma_neighbours(self.spec_width() as int, self.spec_height() as int, x as int, y as int);
        }
        while i < cells.len()
            invariant
                self.wf(),
                i <= cells.len(),
                cells@.len() <= 8,
                cells@.no_duplicates(),
                r@ == cells@.take(i as int).filter(self.showing(face)),
                forall|k: int|
                    0 <= k < cells@.len() ==> self.on_board(
                        (#[trigger] cells@[k]).0 as int,
                        cells@[k].1 as int,
                    ),
                forall|k: int| 0 <= k < r@.len() ==> cells@.take(i as int).contains(#[trigger] r@[k]),
                r@.no_duplicates(),
                r@.len() <= i,
            decreases cells.len() - i,
        {
            let (cx, cy) = cells[i];
            let ghost front = cells@.take(i as int);
            let ghost before = r@;
            proof {
                assert(self.on_board(cells@[i as int].0 as int, cells@[i as int].1 as int));
                assert(cells@.take(i + 1) =~= front.push((cx, cy)));
                front.lemma_filter_push((cx, cy), self.showing(face));
            }
            if self.shows(cx, cy, face) {
                r.push((cx, cy));
                proof {
                    assert(!before.contains((cx, cy))) by {
                        if before.contains((cx, cy)) {
                            let k = choose|k: int| 0 <= k < before.len() && before[k] == (cx, cy);
                            assert(front.contains(before[k]));
                            let q = choose|q: int| 0 <= q < front.len() && front[q] == (cx, cy);
                            assert(cells@[q] == cells@[i as int]);
                        }
                    }
                    assert forall|a: int, b: int|
                        0 <= a < r@.len() && 0 <= b < r@.len() && a != b implies r@[a] != r@[b] by {
                        if a < before.len() {
                            assert(before.contains(before[a]));
                        }
                        if b < before.len() {
                            assert(before.contains(before[b]));
                        }
                    }
                }
            }
            proof {
                assert forall|k: int| 0 <= k < r@.len() implies cells@.take(i + 1).contains(
                    #[trigger] r@[k],
                ) by {
                    if k < before.len() {
                        assert(front.contains(before[k]));
                        let q = choose|q: int| 0 <= q < front.len() && front[q] == before[k];
                        assert(cells@.take(i + 1)[q] == before[k]);
                    } else {
                        assert(cells@.take(i + 1)[i as int] == r@[k]);
                    }
                }
            }
            i += 1;
        }
        proof {
            assert(cells@.take(i as int) =~= cells@);
            assert forall|k: int| 0 <= k < r@.len() implies self.on_board(
                (#[trigger] r@[k]).0 as int,
                r@[k].1 as int,
            ) by {
                assert(cells@.contains(r@[k]));
                let q = choose|q: int| 0 <= q < cells@.len() && cells@[q] == r@[k];
                assert(self.on_board(cells@[q].0 as int, cells@[q].1 as int));
            }
        }
        r
    }

    /// The number of flagged cells around `(x, y)`.
    pub fn nearby_flags(&self, x: usize, y: usize) -> (n: u8)
        requires
            self.wf(),
        ensures
            n == self.around(x as int, y as int, Face::Flag).len(),
            n <= 8,
    {
        self.select_around(x, y, Face::Flag).len() as u8
    }

    /// The formula that says which of the cells hold a mine: the selected
    /// ones, and no other.
    fn selection(&self, cells: &Vec<(usize, usize)>, selected: &Vec<(usize, usize)>) -> (f: Formula)
        requires
            self.wf(),
            cells@.len() >= 1,
            forall|i: int|
                0 <= i < cells@.len() ==> self.on_board(
                    (#[trigger] cells@[i]).0 as int,
                    cells@[i].1 as int,
                ),
        ensures
            f == selection_formula(self.spec_width(), cells@, selected@),
    {
        let ghost w = self.spec_width();
        let ghost all = cells@.map_values(
            |c: (usize, usize)| cell_literal(w, c, selected@.contains(c)),
        );
        let mut so_far: Option<Formula> = None;
        let mut i: usize = 0;
        while i < cells.len()
            invariant
                self.wf(),
                w == self.spec_width(),
                i <= cells.len(),
                cells@.len() >= 1,
                all == cells@.map_values(
                    |c: (usize, usize)| cell_literal(w, c, selected@.contains(c)),
                ),
                so_far is None <==> i == 0,
                so_far is Some ==> so_far.unwrap() == conjoin(all.take(i as int)),
                forall|k: int|
                    0 <= k < cells@.len() ==> self.on_board(
                        (#[trigger] cells@[k]).0 as int,
                        cells@[k].1 as int,
                    ),
            decreases cells.len() - i,
        {
            let (cx, cy) = cells[i];
            assert(self.on_board(cells@[i as int].0 as int, cells@[i as int].1 as int));
            let mined = position(selected, (cx, cy)).is_some();
            let literal = literal_formula(self.mine_var(cx, cy), mined);
            proof {
                assert(all.take(i + 1) =~= all.take(i as int).push(all[i as int]));
                assert(literal == all[i as int]);
            }
            so_far = Some(and_also(so_far, literal, Ghost(all.take(i as int))));
            i += 1;
        }
        assert(all.take(i as int) =~= all);
        so_far.unwrap()
    }

    /// The formula that says that exactly `k` of the cells hold a mine.
    fn exactly_formula(&self, cells: &Vec<(usize, usize)>, k: usize) -> (f: Formula)
        requires
            self.wf(),
            cells@.len() >= 1,
            k <= cells@.len(),
            forall|i: int|
                0 <= i < cells@.len() ==> self.on_board(
                    (#[trigger] cells@[i]).0 as int,
                    cells@[i].1 as int,
                ),
        ensures
            f == exactly(self.spec_width(), cells@, k as nat),
    {
        let ghost w = self.spec_width();
        let subsets = combinations(cells, k);
        let ghost all = k_subsets(cells@, k as nat).map_values(
            |s: Seq<(usize, usize)>| selection_formula(w, cells@, s),
        );
        proof {
            lemma_some_selection(cells@, k as nat);
        }
        let mut so_far: Option<Formula> = None;
        let mut i: usize = 0;
        while i < subsets.len()
            invariant
                self.wf(),
                w == self.spec_width(),
                i <= subsets.len(),
                cells@.len() >= 1,
                subsets@.len() >= 1,
                selections(subsets@) == k_subsets(cells@, k as nat),
                all == k_subsets(cells@, k as nat).map_values(
                    |s: Seq<(usize, usize)>| selection_formula(w, cells@, s),
                ),
                so_far is None <==> i == 0,
                so_far is Some ==> so_far.unwrap() == disjoin(all.take(i as int)),
                forall|k: int|
                    0 <= k < cells@.len() ==> self.on_board(
                        (#[trigger] cells@[k]).0 as int,
                        cells@[k].1 as int,
                    ),
            decreases subsets.len() - i,
        {
            let term = self.selection(cells, &subsets[i]);
            proof {
                assert(selections(subsets@)[i as int] == subsets@[i as int]@);
                assert(all.take(i + 1) =~= all.take(i as int).push(all[i as int]));
                assert(term == all[i as int]);
            }
            so_far = Some(or_else(so_far, term, Ghost(all.take(i as int))));
            i += 1;
        }
        assert(all.take(i as int) =~= all);
        so_far.unwrap()
    }

    /// What the cell `(x, y)` contributes to the formula of the board.
    pub fn constraint_cell(&self, x: usize, y: usize) -> (r: Clue)
        requires
            self.wf(),
            self.on_board(x as int, y as int),
        ensures
            match r {
                Clue::Nothing => !(self.informs())((x, y)),
                Clue::Inconsistent => (self.informs())((x, y)) && !self.clue_consistent(
                    x as int,
                    y as int,
                ),
                Clue::Says(f) => (self.informs())((x, y)) && self.clue_consistent(
                    x as int,
                    y as int,
                ) && f == self.clue_formula(x as int, y as int),
            },
    {
        match self.cell(x, y) {
            CellView::Flagged => {
                let intact = self.select_around(x, y, Face::Intact);
                if intact.len() == 0 {
                    return Clue::Nothing;
                }
                Clue::Says(literal_formula(self.mine_var(x, y), true))
            },
            CellView::Opened(n) => {
                let intact = self.select_around(x, y, Face::Intact);
                if intact.len() == 0 {
                    return Clue::Nothing;
                }
                let flags = self.nearby_flags(x, y);
                if n < flags {
                    return Clue::Inconsistent;
                }
                let k: usize = (n - flags) as usize;
                if k > intact.len() {
                    return Clue::Inconsistent;
                }
                let count = self.exactly_formula(&intact, k);
                let own = literal_formula(self.mine_var(x, y), false);
                Clue::Says(Formula::Conjunction(Box::new(count), Box::new(own)))
            },
            _ => Clue::Nothing,
        }
    }

    /// The formula of the board: the conjunction of what its informing
    /// cells say, row by row; `None` where no cell informs or a clue is
    /// inconsistent with the flags around it.
    #[verifier::rlimit(40)]
    pub fn constraints(&self) -> (r: Option<Formula>)
        requires
            self.wf(),
        ensures
            r == self.spec_constraints(),
    {
        let cells = cells_in_rows(self.width(), self.height());
        let ghost informs = self.informs();
        let ghost says = |c: (usize, usize)| self.clue_formula(c.0 as int, c.1 as int);
        let mut so_far: Option<Formula> = None;
        let mut i: usize = 0;
        proof {
            self.lemma_size();
            lemma_grid_cells(self.spec_width(), self.spec_height());
            reveal(Seq::filter);
            assert(cells@.take(0) =~= Seq::<(usize, usize)>::empty());
        }
        while i < cells.len()
            invariant
                self.wf(),
                i <= cells.len(),
                cells@ == grid_cells(self.spec_width(), self.spec_height()),
                informs == self.informs(),
                says == |c: (usize, usize)| self.clue_formula(c.0 as int, c.1 as int),
                forall|k: int|
                    0 <= k < cells@.len() ==> self.on_board(
                        (#[trigger] cells@[k]).0 as int,
                        cells@[k].1 as int,
                    ),
                so_far is None <==> cells@.take(i as int).filter(informs).len() == 0,
                so_far is Some ==> so_far.unwrap() == conjoin(
                    cells@.take(i as int).filter(informs).map_values(says),
                ),
                forall|k: int|
                    0 <= k < cells@.take(i as int).filter(informs).len() ==> self.clue_consistent(
                        (#[trigger] cells@.take(i as int).filter(informs)[k]).0 as int,
                        cells@.take(i as int).filter(informs)[k].1 as int,
                    ),
            decreases cells.len() - i,
        {
            let (cx, cy) = cells[i];
            let ghost front = cells@.take(i as int);
            let ghost kept = front.filter(informs);
            proof {
                assert(self.on_board(cells@[i as int].0 as int, cells@[i as int].1 as int));
                assert(cells@.take(i + 1) =~= front.push((cx, cy)));
                front.lemma_filter_push((cx, cy), informs);
            }
            match self.constraint_cell(cx, cy) {
                Clue::Nothing => {},
                Clue::Inconsistent => {
                    proof {
                        let all = self.informing_cells();
                        assert(cells@ =~= cells@.take(i + 1) + cells@.skip(i + 1));
                        Seq::filter_distributes_over_add(
                            cells@.take(i + 1),
                            cells@.skip(i + 1),
                            informs,
                        );
                        assert(all[kept.len() as int] == (cx, cy));
                    }
                    return None;
                },
                Clue::Says(f) => {
                    proof {
                        assert(kept.push((cx, cy)).map_values(says) =~= kept.map_values(says).push(
                            f,
                        ));
                        assert forall|k: int|
                            0 <= k < kept.push((cx, cy)).len() implies self.clue_consistent(
                            (#[trigger] kept.push((cx, cy))[k]).0 as int,
                            kept.push((cx, cy))[k].1 as int,
                        ) by {
                            if k < kept.len() {
                                assert(kept.push((cx, cy))[k] == kept[k]);
                            }
                        }
                    }
                    so_far = Some(and_also(so_far, f, Ghost(kept.map_values(says))));
                },
            }
            i += 1;
        }
        proof {
            assert(cells@.take(i as int) =~= cells@);
        }
        so_far
    }

    /// The cells whose state the clues constrain, row by row: the intact
    /// cells next to a flagged or an opened cell.
    #[verifier::rlimit(40)]
    pub fn active_cells(&self) -> (r: Vec<(usize, usize)>)
        requires
            self.wf(),
        ensures
            r@ == self.spec_active_cells(),
            r@.no_duplicates(),
            forall|i: int|
                0 <= i < r@.len() ==> self.on_board((#[trigger] r@[i]).0 as int, r@[i].1 as int),
    {
        let cells = cells_in_rows(self.width(), self.height());
        let ghost active = self.is_active();
        let mut r: Vec<(usize, usize)> = Vec::new();
        let mut i: usize = 0;
        proof {
            self.lemma_size();
            lemma_grid_cells(self.spec_width(), self.spec_height());
            reveal(Seq::filter);
            assert(cells@.take(0) =~= Seq::<(usize, usize)>::empty());
        }
        while i < cells.len()
            invariant
                self.wf(),
                i <= cells.len(),
                cells@ == grid_cells(self.spec_width(), self.spec_height()),
                cells@.no_duplicates(),
                active == self.is_active(),
                forall|k: int|
                    0 <= k < cells@.len() ==> self.on_board(
                        (#[trigger] cells@[k]).0 as int,
                        cells@[k].1 as int,
                    ),
                r@ == cells@.take(i as int).filter(active),
                forall|k: int| 0 <= k < r@.len() ==> cells@.take(i as int).contains(#[trigger] r@[k]),
                r@.no_duplicates(),
            decreases cells.len() - i,
        {
            let (cx, cy) = cells[i];
            let ghost front = cells@.take(i as int);
            let ghost before = r@;
            proof {
                assert(self.on_board(cells@[i as int].0 as int, cells@[i as int].1 as int));
                assert(cells@.take(i + 1) =~= front.push((cx, cy)));
                front.lemma_filter_push((cx, cy), active);
            }
            if self.shows(cx, cy, Face::Intact) && self.select_around(cx, cy, Face::Clue).len() > 0 {
                r.push((cx, cy));
                proof {
                    assert(!before.contains((cx, cy))) by {
                        if before.contains((cx, cy)) {
                            let k = choose|k: int| 0 <= k < before.len() && before[k] == (cx, cy);
                            assert(front.contains(before[k]));
                            let q = choose|q: int| 0 <= q < front.len() && front[q] == (cx, cy);
                            assert(cells@[q] == cells@[i as int]);
                        }
                    }
                    assert forall|a: int, b: int|
                        0 <= a < r@.len() && 0 <= b < r@.len() && a != b implies r@[a] != r@[b] by {
                        if a < before.len() {
                            assert(before.contains(before[a]));
                        }
                        if b < before.len() {
                            assert(before.contains(before[b]));
                        }
                    }
                }
            }
            proof {
                assert forall|k: int| 0 <= k < r@.len() implies cells@.take(i + 1).contains(
                    #[trigger] r@[k],
                ) by {
                    if k < before.len() {
                        assert(front.contains(before[k]));
                        let q = choose|q: int| 0 <= q < front.len() && front[q] == before[k];
                        assert(cells@.take(i + 1)[q] == before[k]);
                    } else {
                        assert(cells@.take(i + 1)[i as int] == r@[k]);
                    }
                }
            }
            i += 1;
        }
        proof {
            assert(cells@.take(i as int) =~= cells@);
            assert forall|k: int| 0 <= k < r@.len() implies self.on_board(
                (#[trigger] r@[k]).0 as int,
                r@[k].1 as int,
            ) by {
                assert(cells@.contains(r@[k]));
                let q = choose|q: int| 0 <= q < cells@.len() && cells@[q] == r@[k];
                assert(self.on_board(cells@[q].0 as int, cells@[q].1 as int));
            }
        }
        r
    }
}

} // verus!

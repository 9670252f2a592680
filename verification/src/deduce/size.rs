//! How many fresh variables the formula of a board needs: few enough for
//! every board of a million cells or less.

use vstd::prelude::*;
use crate::deduce::constraints::Face;
use crate::deduce::encode::{
    cell_literal, conjoin, disjoin, exactly, lemma_some_selection, selection_formula,
};
use crate::deduce::subsets::k_subsets;
use crate::game::grid::{grid_cells, lemma_grid_cells, lemma_neighbours};
use crate::game::view::{CellView, GameView};
use crate::sat::formula::Formula;

verus! {

/// Two to the power of `n`.
pub open spec fn two_to(n: nat) -> nat
    decreases n,
{
    if n == 0 {
        1
    } else {
        2 * two_to((n - 1) as nat)
    }
}

/// The powers of two grow.
pub proof fn lemma_two_to_grows(n: nat, m: nat)
    requires
        n <= m,
    ensures
        two_to(n) <= two_to(m),
    decreases m,
{
    if n < m {
        lemma_two_to_grows(n, (m - 1) as nat);
    }
}

/// There are at most two to the power of `n` selections out of `n` cells.
pub proof fn lemma_selections_bounded(items: Seq<(usize, usize)>, k: nat)
    ensures
        k_subsets(items, k).len() <= two_to(items.len()),
    decreases items.len(),
{
    if k == 0 {
        lemma_two_to_grows(0, items.len());
    } else if items.len() > 0 {
        lemma_selections_bounded(items.drop_first(), (k - 1) as nat);
        lemma_selections_bounded(items.drop_first(), k);
    }
}

/// A conjunction or disjunction of formulas that need `bound` fresh
/// variables each at most needs one more for each formula but the first.
pub proof fn lemma_joined_count(fs: Seq<Formula>, bound: nat)
    requires
        fs.len() >= 1,
        forall|i: int| 0 <= i < fs.len() ==> (#[trigger] fs[i]).fresh_count() <= bound,
    ensures
        conjoin(fs).fresh_count() + 1 <= fs.len() * (bound + 1),
        disjoin(fs).fresh_count() + 1 <= fs.len() * (bound + 1),
    decreases fs.len(),
{
    if fs.len() > 1 {
        let front = fs.drop_last();
        assert forall|i: int| 0 <= i < front.len() implies (#[trigger] front[i]).fresh_count()
            <= bound by {
            assert(front[i] == fs[i]);
        }
        lemma_joined_count(front, bound);
        assert(fs.last() == fs[fs.len() - 1]);
        assert(fs.len() * (bound + 1) == front.len() * (bound + 1) + (bound + 1))
            by (nonlinear_arith)
            requires
                fs.len() == front.len() + 1,
        ;
    } else {
        assert(fs.len() * (bound + 1) == bound + 1) by (nonlinear_arith)
            requires
                fs.len() == 1,
        ;
    }
}

/// The formula of a selection among `n` cells needs fewer than `n` fresh
/// variables.
pub proof fn lemma_selection_count(w: nat, cells: Seq<(usize, usize)>, selected: Seq<(usize, usize)>)
    requires
        cells.len() >= 1,
    ensures
        selection_formula(w, cells, selected).fresh_count() < cells.len(),
{
    let fs = cells.map_values(|c: (usize, usize)| cell_literal(w, c, selected.contains(c)));
    assert forall|i: int| 0 <= i < fs.len() implies (#[trigger] fs[i]).fresh_count() <= 0 by {
        reveal_with_fuel(Formula::fresh_count, 3);
    }
    lemma_joined_count(fs, 0);
    assert(fs.len() * (0 + 1) == fs.len()) by (nonlinear_arith);
}

/// The formula that says that exactly `k` of up to eight cells hold a mine
/// needs fewer than 2048 fresh variables.
pub proof fn lemma_exactly_count(w: nat, cells: Seq<(usize, usize)>, k: nat)
    requires
        1 <= cells.len() <= 8,
        k <= cells.len(),
    ensures
        exactly(w, cells, k).fresh_count() < 2048,
{
    let fs = k_subsets(cells, k).map_values(
        |s: Seq<(usize, usize)>| selection_formula(w, cells, s),
    );
    lemma_some_selection(cells, k);
    lemma_selections_bounded(cells, k);
    lemma_two_to_grows(cells.len(), 8);
    assert(two_to(8) == 256) by {
        reveal_with_fuel(two_to, 9);
    }
    assert forall|i: int| 0 <= i < fs.len() implies (#[trigger] fs[i]).fresh_count() <= 7 by {
        lemma_selection_count(w, cells, k_subsets(cells, k)[i]);
    }
    lemma_joined_count(fs, 7);
    assert(fs.len() * (7 + 1) <= 2048) by (nonlinear_arith)
        requires
            fs.len() <= 256,
    ;
}

impl GameView {
    /// What a consistent clue says needs 2048 fresh variables at most.
    pub proof fn lemma_clue_count(&self, x: int, y: int)
        requires
            self.wf(),
            self.on_board(x, y),
            (self.informs())((x as usize, y as usize)),
            self.clue_consistent(x, y),
        ensures
            self.clue_formula(x, y).fresh_count() <= 2048,
    {
        self.lemma_size();
        lemma_neighbours(self.spec_width() as int, self.spec_height() as int, x, y);
        let cells = self.around(x, y, Face::Intact);
        self.spec_nearby_cells(x, y).lemma_filter_len(self.showing(Face::Intact));
        match self.spec_cell(x, y) {
            CellView::Opened(n) => {
                lemma_exactly_count(self.spec_width(), cells, self.missing_mines(x, y) as nat);
                reveal_with_fuel(Formula::fresh_count, 4);
            },
            _ => {
                reveal_with_fuel(Formula::fresh_count, 3);
            },
        }
    }

    /// The formula of a board of a million cells or less can be encoded:
    /// its fresh variables fit below the largest index.
    pub proof fn lemma_encodable(&self)
        requires
            self.wf(),
            self.spec_width() * self.spec_height() <= 1_000_000,
        ensures
            self.encodable(),
    {
        if self.spec_constraints() is Some {
            let w = self.spec_width();
            let h = self.spec_height();
            self.lemma_size();
            lemma_grid_cells(w, h);
            let cells = self.informing_cells();
            grid_cells(w, h).lemma_filter_len(self.informs());
            let fs = self.clue_formulas();
            assert forall|i: int| 0 <= i < fs.len() implies (#[trigger] fs[i]).fresh_count()
                <= 2048 by {
                let c = cells[i];
                grid_cells(w, h).lemma_filter_pred(self.informs(), i);
                assert(cells.contains(c));
                grid_cells(w, h).lemma_filter_contains_rev(self.informs(), c);
                assert(self.on_board(c.0 as int, c.1 as int));
                self.lemma_clue_count(c.0 as int, c.1 as int);
            }
            lemma_joined_count(fs, 2048);
            assert(fs.len() * (2048 + 1) <= 2_049_000_000) by (nonlinear_arith)
                requires
                    fs.len() <= 1_000_000,
            ;
        }
    }
}

} // verus!

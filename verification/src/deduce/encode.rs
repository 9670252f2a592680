//! From the clues of a board to a formula: each cell is a variable that is
//! true where the cell holds a mine, and each clue says how many of the
//! cells around it do.

use vstd::prelude::*;
use crate::deduce::subsets::{
    holds_cell, k_subsets, lemma_k_subsets_complete, lemma_k_subsets_sound, selections,
};
use crate::game::grid::{count_where, lemma_count_same};
use crate::sat::cnf::Variable;
use crate::sat::formula::Formula;

verus! {

/// The conjunction of the formulas, nested to the left. The list holds a
/// formula at least.
pub open spec fn conjoin(fs: Seq<Formula>) -> Formula
    recommends
        fs.len() >= 1,
    decreases fs.len(),
{
    if fs.len() <= 1 {
        fs[0]
    } else {
        Formula::Conjunction(Box::new(conjoin(fs.drop_last())), Box::new(fs.last()))
    }
}

/// The disjunction of the formulas, nested to the left. The list holds a
/// formula at least.
pub open spec fn disjoin(fs: Seq<Formula>) -> Formula
    recommends
        fs.len() >= 1,
    decreases fs.len(),
{
    if fs.len() <= 1 {
        fs[0]
    } else {
        Formula::Disjunction(Box::new(disjoin(fs.drop_last())), Box::new(fs.last()))
    }
}

/// The variable of the cell `c` on a board of `w` columns.
pub open spec fn cell_variable(w: nat, c: (usize, usize)) -> usize {
    (c.1 * w + c.0) as usize
}

/// The formula that says that the cell `c` holds a mine, or that it holds
/// none.
pub open spec fn cell_literal(w: nat, c: (usize, usize), mined: bool) -> Formula {
    if mined {
        Formula::Variable(Variable(cell_variable(w, c)))
    } else {
        Formula::Negation(Box::new(Formula::Variable(Variable(cell_variable(w, c)))))
    }
}

/// The formula that says of each of the cells whether it holds a mine: the
/// selected ones do, the others do not.
pub open spec fn selection_formula(
    w: nat,
    cells: Seq<(usize, usize)>,
    selected: Seq<(usize, usize)>,
) -> Formula {
    conjoin(cells.map_values(|c: (usize, usize)| cell_literal(w, c, selected.contains(c))))
}

/// The formula that says that exactly `k` of the cells hold a mine: one of
/// the selections of `k` cells is the set of the mined ones.
pub open spec fn exactly(w: nat, cells: Seq<(usize, usize)>, k: nat) -> Formula {
    disjoin(
        k_subsets(cells, k).map_values(|s: Seq<(usize, usize)>| selection_formula(w, cells, s)),
    )
}

/// The cells whose variable is true in the valuation.
pub open spec fn mined_in(w: nat, m: Set<usize>) -> spec_fn((usize, usize)) -> bool {
    |c: (usize, usize)| m.contains(cell_variable(w, c))
}

/// The formula of a cell is true exactly when the cell is mined as it says.
pub proof fn lemma_cell_literal(w: nat, c: (usize, usize), mined: bool, m: Set<usize>)
    ensures
        cell_literal(w, c, mined).eval(m) == (m.contains(cell_variable(w, c)) == mined),
{
    reveal_with_fuel(Formula::eval, 3);
}

/// A conjunction is true exactly when each of its formulas is.
pub proof fn lemma_conjoin(fs: Seq<Formula>, m: Set<usize>)
    requires
        fs.len() >= 1,
    ensures
        conjoin(fs).eval(m) == forall|i: int| 0 <= i < fs.len() ==> (#[trigger] fs[i]).eval(m),
    decreases fs.len(),
{
    if fs.len() > 1 {
        let front = fs.drop_last();
        lemma_conjoin(front, m);
        if conjoin(fs).eval(m) {
            assert forall|i: int| 0 <= i < fs.len() implies (#[trigger] fs[i]).eval(m) by {
                if i < front.len() {
                    assert(front[i] == fs[i]);
                }
            }
        }
        if forall|i: int| 0 <= i < fs.len() ==> (#[trigger] fs[i]).eval(m) {
            assert forall|i: int| 0 <= i < front.len() implies (#[trigger] front[i]).eval(m) by {
                assert(front[i] == fs[i]);
            }
            assert(fs[fs.len() - 1].eval(m));
        }
    }
}

/// A disjunction is true exactly when one of its formulas is.
pub proof fn lemma_disjoin(fs: Seq<Formula>, m: Set<usize>)
    requires
        fs.len() >= 1,
    ensures
        disjoin(fs).eval(m) == exists|i: int| 0 <= i < fs.len() && (#[trigger] fs[i]).eval(m),
    decreases fs.len(),
{
    if fs.len() > 1 {
        let front = fs.drop_last();
        lemma_disjoin(front, m);
        if disjoin(fs).eval(m) {
            if fs.last().eval(m) {
                assert(fs[fs.len() - 1].eval(m));
            } else {
                let i = choose|i: int| 0 <= i < front.len() && (#[trigger] front[i]).eval(m);
                assert(fs[i].eval(m));
            }
        }
        if exists|i: int| 0 <= i < fs.len() && (#[trigger] fs[i]).eval(m) {
            let i = choose|i: int| 0 <= i < fs.len() && (#[trigger] fs[i]).eval(m);
            if i < front.len() {
                assert(front[i].eval(m));
            }
        }
    }
}

/// The formula of a selection is true exactly when the mined cells among
/// the cells are the selected ones.
pub proof fn lemma_selection_formula(
    w: nat,
    cells: Seq<(usize, usize)>,
    selected: Seq<(usize, usize)>,
    m: Set<usize>,
)
    requires
        cells.len() >= 1,
    ensures
        selection_formula(w, cells, selected).eval(m) == forall|i: int|
            0 <= i < cells.len() ==> (mined_in(w, m))(#[trigger] cells[i]) == selected.contains(
                cells[i],
            ),
{
    let fs = cells.map_values(|c: (usize, usize)| cell_literal(w, c, selected.contains(c)));
    lemma_conjoin(fs, m);
    assert forall|i: int| 0 <= i < cells.len() implies (#[trigger] fs[i]).eval(m) == ((mined_in(
        w,
        m,
    ))(cells[i]) == selected.contains(cells[i])) by {
        lemma_cell_literal(w, cells[i], selected.contains(cells[i]), m);
    }
    if selection_formula(w, cells, selected).eval(m) {
        assert forall|i: int| 0 <= i < cells.len() implies (mined_in(w, m))(#[trigger] cells[i])
            == selected.contains(cells[i]) by {
            assert(fs[i].eval(m));
        }
    }
}

/// The formula `exactly` is true exactly when `k` of the cells are mined,
/// provided that the cells are distinct and one at least.
pub proof fn lemma_exactly(w: nat, cells: Seq<(usize, usize)>, k: nat, m: Set<usize>)
    requires
        cells.len() >= 1,
        cells.no_duplicates(),
        k <= cells.len(),
    ensures
        k_subsets(cells, k).len() >= 1,
        exactly(w, cells, k).eval(m) == (count_where(cells, mined_in(w, m)) == k),
{
    let subsets = k_subsets(cells, k);
    let fs = subsets.map_values(|s: Seq<(usize, usize)>| selection_formula(w, cells, s));
    let p = mined_in(w, m);
    lemma_some_selection(cells, k);
    lemma_disjoin(fs, m);
    if exactly(w, cells, k).eval(m) {
        let i = choose|i: int| 0 <= i < fs.len() && (#[trigger] fs[i]).eval(m);
        lemma_selection_formula(w, cells, subsets[i], m);
        lemma_k_subsets_sound(cells, k, i);
        assert forall|j: int| 0 <= j < cells.len() implies p(#[trigger] cells[j]) == (holds_cell(
            subsets[i],
        ))(cells[j]) by {}
        lemma_count_same(cells, p, holds_cell(subsets[i]));
    }
    if count_where(cells, p) == k {
        let i = lemma_k_subsets_complete(cells, k, p);
        lemma_selection_formula(w, cells, subsets[i], m);
        assert(fs[i].eval(m));
    }
}

/// There is a selection of `k` out of `k` cells or more.
pub proof fn lemma_some_selection(cells: Seq<(usize, usize)>, k: nat)
    requires
        k <= cells.len(),
    ensures
        k_subsets(cells, k).len() >= 1,
    decreases cells.len(),
{
    if k > 0 {
        lemma_some_selection(cells.drop_first(), (k - 1) as nat);
    }
}

/// The formula for one cell.
pub fn literal_formula(variable: Variable, mined: bool) -> (f: Formula)
    ensures
        f == if mined {
            Formula::Variable(variable)
        } else {
            Formula::Negation(Box::new(Formula::Variable(variable)))
        },
{
    if mined {
        Formula::Variable(variable)
    } else {
        Formula::Negation(Box::new(Formula::Variable(variable)))
    }
}

/// The formulas so far and one more, as a conjunction.
pub(crate) fn and_also(so_far: Option<Formula>, f: Formula, Ghost(fs): Ghost<Seq<Formula>>)
    -> (r: Formula)
    requires
        so_far is None <==> fs.len() == 0,
        so_far is Some ==> so_far.unwrap() == conjoin(fs),
    ensures
        r == conjoin(fs.push(f)),
{
    proof {
        assert(fs.push(f).drop_last() =~= fs);
    }
    match so_far {
        None => f,
        Some(g) => Formula::Conjunction(Box::new(g), Box::new(f)),
    }
}

/// The formulas so far and one more, as a disjunction.
pub(crate) fn or_else(so_far: Option<Formula>, f: Formula, Ghost(fs): Ghost<Seq<Formula>>)
    -> (r: Formula)
    requires
        so_far is None <==> fs.len() == 0,
        so_far is Some ==> so_far.unwrap() == disjoin(fs),
    ensures
        r == disjoin(fs.push(f)),
{
    proof {
        assert(fs.push(f).drop_last() =~= fs);
    }
    match so_far {
        None => f,
        Some(g) => Formula::Disjunction(Box::new(g), Box::new(f)),
    }
}

} // verus!

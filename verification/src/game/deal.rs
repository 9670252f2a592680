//! Making a board: the mines are drawn at random among the cells.

use vstd::prelude::*;
use vstd::multiset::*;
use crate::game::grid::{
    cells_in_rows, count_where, grid_cells, in_grid, lemma_count_change, lemma_count_same,
    lemma_grid_cells, position,
};
use crate::game::options::GameOptions;
use crate::game::random::{choose_cells, random_seed, seeded_generator, shuffle_cells};
use crate::game::state::{CellState, GameState};

verus! {

/// The cells of the list are cells of the grid, each once.
pub open spec fn distinct_in_grid(s: Seq<(usize, usize)>, w: nat, h: nat) -> bool {
    &&& s.no_duplicates()
    &&& forall|i: int|
        0 <= i < s.len() ==> in_grid(w as int, h as int, (#[trigger] s[i]).0 as int, s[i].1 as int)
}

/// A list whose entries are taken from places of their own in a list of
/// distinct cells of the grid is such a list itself.
proof fn lemma_taken_distinct(taken: Seq<(usize, usize)>, all: Seq<(usize, usize)>, w: nat, h: nat)
    requires
        distinct_in_grid(all, w, h),
        taken.to_multiset().subset_of(all.to_multiset()),
    ensures
        distinct_in_grid(taken, w, h),
{
    broadcast use group_multiset_axioms;
    broadcast use vstd::seq_lib::to_multiset_contains;

    all.lemma_multiset_has_no_duplicates();
    assert forall|x: (usize, usize)| taken.to_multiset().contains(x) implies taken.to_multiset().count(
        x,
    ) == 1 by {
        assert(taken.to_multiset().count(x) <= all.to_multiset().count(x));
        assert(all.to_multiset().contains(x));
    }
    taken.lemma_multiset_has_no_duplicates_conv();
    assert forall|i: int| 0 <= i < taken.len() implies in_grid(
        w as int,
        h as int,
        (#[trigger] taken[i]).0 as int,
        taken[i].1 as int,
    ) by {
        assert(taken.contains(taken[i]));
        assert(taken.to_multiset().count(taken[i]) > 0);
        assert(all.to_multiset().count(taken[i]) > 0);
        assert(all.contains(taken[i]));
        let k = choose|k: int| 0 <= k < all.len() && all[k] == taken[i];
        assert(in_grid(w as int, h as int, all[k].0 as int, all[k].1 as int));
    }
}

/// The cells of a list of distinct cells of the grid are as many among all
/// cells of the grid as the list is long.
proof fn lemma_count_chosen(chosen: Seq<(usize, usize)>, w: nat, h: nat)
    requires
        w <= usize::MAX,
        h <= usize::MAX,
        distinct_in_grid(chosen, w, h),
    ensures
        count_where(grid_cells(w, h), |c: (usize, usize)| chosen.contains(c)) == chosen.len(),
    decreases chosen.len(),
{
    let all = grid_cells(w, h);
    let p = |c: (usize, usize)| chosen.contains(c);
    lemma_grid_cells(w, h);
    if chosen.len() == 0 {
        let none = |c: (usize, usize)| false;
        assert forall|i: int| 0 <= i < all.len() implies p(#[trigger] all[i]) == none(all[i]) by {}
        lemma_count_same(all, p, none);
        all.lemma_filter_len(none);
        assert(all.filter(none).len() == 0) by {
            if all.filter(none).len() > 0 {
                all.lemma_filter_pred(none, 0);
            }
        }
    } else {
        let front = chosen.drop_last();
        let v = chosen.last();
        let q = |c: (usize, usize)| front.contains(c);
        assert forall|i: int| 0 <= i < front.len() implies front[i] == chosen[i] by {}
        assert(distinct_in_grid(front, w, h)) by {
            assert forall|i: int| 0 <= i < front.len() implies in_grid(
                w as int,
                h as int,
                (#[trigger] front[i]).0 as int,
                front[i].1 as int,
            ) by {
                assert(front[i] == chosen[i]);
            }
        }
        lemma_count_chosen(front, w, h);
        assert(chosen[chosen.len() - 1] == v);
        assert(all.contains(v));
        assert(!front.contains(v)) by {
            if front.contains(v) {
                let k = choose|k: int| 0 <= k < front.len() && front[k] == v;
                assert(chosen[k] == chosen[chosen.len() - 1]);
            }
        }
        assert forall|i: int| 0 <= i < all.len() && all[i] != v implies p(#[trigger] all[i]) == q(
            all[i],
        ) by {
            let c = all[i];
            if chosen.contains(c) {
                let k = choose|k: int| 0 <= k < chosen.len() && chosen[k] == c;
                assert(front[k] == c);
            }
            if front.contains(c) {
                let k = choose|k: int| 0 <= k < front.len() && front[k] == c;
                assert(chosen[k] == c);
            }
        }
        lemma_count_change(all, p, q, v);
    }
}

/// A grid of `w` columns and `h` rows that holds `true` at the given cells.
fn grid_with(w: usize, h: usize, chosen: &Vec<(usize, usize)>) -> (grid: Vec<Vec<bool>>)
    requires
        forall|i: int|
            0 <= i < chosen@.len() ==> in_grid(
                w as int,
                h as int,
                (#[trigger] chosen@[i]).0 as int,
                chosen@[i].1 as int,
            ),
    ensures
        grid@.len() == h,
        forall|y: int| 0 <= y < h ==> (#[trigger] grid@[y])@.len() == w,
        forall|x: int, y: int|
            0 <= x < w && 0 <= y < h ==> #[trigger] grid@[y]@[x] == chosen@.contains(
                (x as usize, y as usize),
            ),
{
    let mut grid: Vec<Vec<bool>> = Vec::new();
    let mut y: usize = 0;
    while y < h
        invariant
            y <= h,
            grid@.len() == y,
            forall|k: int| 0 <= k < y ==> (#[trigger] grid@[k])@.len() == w,
            forall|x: int, k: int| 0 <= x < w && 0 <= k < y ==> !#[trigger] grid@[k]@[x],
        decreases h - y,
    {
        let mut row: Vec<bool> = Vec::new();
        let mut x: usize = 0;
        while x < w
            invariant
                x <= w,
                row@.len() == x,
                forall|k: int| 0 <= k < x ==> !row@[k],
            decreases w - x,
        {
            row.push(false);
            x += 1;
        }
        grid.push(row);
        y += 1;
    }
    let mut i: usize = 0;
    assert(chosen@.take(0) =~= Seq::<(usize, usize)>::empty());
    while i < chosen.len()
        invariant
            i <= chosen.len(),
            grid@.len() == h,
            forall|k: int| 0 <= k < h ==> (#[trigger] grid@[k])@.len() == w,
            forall|k: int|
                0 <= k < chosen@.len() ==> in_grid(
                    w as int,
                    h as int,
                    (#[trigger] chosen@[k]).0 as int,
                    chosen@[k].1 as int,
                ),
            forall|x: int, y: int|
                0 <= x < w && 0 <= y < h ==> #[trigger] grid@[y]@[x] == chosen@.take(
                    i as int,
                ).contains((x as usize, y as usize)),
        decreases chosen.len() - i,
    {
        let (cx, cy) = chosen[i];
        assert(in_grid(w as int, h as int, chosen@[i as int].0 as int, chosen@[i as int].1 as int));
        let ghost before = grid@;
        let mut row = grid[cy].clone();
        assert(row@ == grid@[cy as int]@);
        row.set(cx, true);
        grid.set(cy, row);
        proof {
            let done = chosen@.take(i as int);
            let more = chosen@.take(i + 1);
            assert(more =~= done.push((cx, cy)));
            assert forall|x: int, y: int| 0 <= x < w && 0 <= y < h implies #[trigger] grid@[y]@[x]
                == more.contains((x as usize, y as usize)) by {
                let c = (x as usize, y as usize);
                if done.contains(c) {
                    let k = choose|k: int| 0 <= k < done.len() && done[k] == c;
                    assert(more[k] == c);
                }
                if more.contains(c) {
                    let k = choose|k: int| 0 <= k < more.len() && more[k] == c;
                    if k < i {
                        assert(done[k] == c);
                    }
                }
                if x == cx && y == cy {
                    assert(more[i as int] == c);
                } else {
                    assert(grid@[y]@[x] == before[y]@[x]);
                }
            }
        }
        i += 1;
    }
    assert(chosen@.take(i as int) =~= chosen@);
    grid
}

impl GameOptions {
    /// Whether a board can be made: it has a row and a column, a mine, and
    /// at least one cell more than mines, and its cells can be counted.
    pub open spec fn buildable(self) -> bool {
        &&& self.difficulty.spec_width() >= 1
        &&& self.difficulty.spec_height() >= 1
        &&& self.difficulty.spec_mines() >= 1
        &&& self.difficulty.spec_mines() < self.difficulty.spec_width()
            * self.difficulty.spec_height()
        &&& self.difficulty.spec_width() * self.difficulty.spec_height() <= usize::MAX
    }

    /// Tells whether `build` may be called.
    pub fn can_build(&self) -> (b: bool)
        ensures
            b == self.buildable(),
    {
        let w = self.difficulty.width();
        let h = self.difficulty.height();
        let mines = self.difficulty.mines();
        if w < 1 || h < 1 || mines < 1 {
            return false;
        }
        if h > usize::MAX / w {
            assert(w * h > usize::MAX) by (nonlinear_arith)
                requires
                    h > usize::MAX / w,
                    w > 0,
            ;
            return false;
        }
        assert(w * h <= usize::MAX) by (nonlinear_arith)
            requires
                h <= usize::MAX / w,
                w > 0,
        ;
        mines < w * h
    }

    /// Makes a board of the size and with the number of mines of the
    /// difficulty, no cell touched. The mines are drawn with the seed, or
    /// with a random seed where none is given; the board's options keep the
    /// seed that was used. The safe cell, if one is given, holds no mine.
    #[verifier::rlimit(40)]
    pub fn build(self) -> (state: GameState)
        requires
            self.buildable(),
        ensures
            state.wf(),
            state.spec_width() == self.difficulty.spec_width(),
            state.spec_height() == self.difficulty.spec_height(),
            state.spec_options().difficulty == self.difficulty,
            state.spec_options().safe_pos == self.safe_pos,
            state.spec_options().seed is Some,
            self.seed is Some ==> state.spec_options().seed == self.seed,
            forall|x: int, y: int|
                state.on_board(x, y) ==> #[trigger] state.spec_cell(x, y) == CellState::Unopened,
            count_where(state.all_cells(), state.mined()) == self.difficulty.spec_mines(),
            match self.safe_pos {
                Some(p) => !state.spec_is_mine(p.0 as int, p.1 as int) || !state.on_board(
                    p.0 as int,
                    p.1 as int,
                ),
                None => true,
            },
    {
        let w = self.difficulty.width();
        let h = self.difficulty.height();
        let mines = self.difficulty.mines();
        let seed = match self.seed {
            Some(seed) => seed,
            None => random_seed(),
        };
        let options = GameOptions {
            difficulty: self.difficulty,
            safe_pos: self.safe_pos,
            seed: Some(seed),
        };
        let mut rng = seeded_generator(seed);
        let cells = cells_in_rows(w, h);
        proof {
            lemma_grid_cells(w as nat, h as nat);
        }
        let ghost all = cells@;
        let mut mines_pos = choose_cells(cells, &mut rng, mines + 1);
        proof {
            lemma_taken_distinct(mines_pos@, all, w as nat, h as nat);
        }
        if let Some(safe_pos) = self.safe_pos {
            if let Some(p) = position(&mines_pos, safe_pos) {
                let ghost before = mines_pos@;
                mines_pos.remove(p);
                proof {
                    assert forall|i: int| 0 <= i < mines_pos@.len() implies #[trigger] mines_pos@[i]
                        == before[if i < p {
                        i
                    } else {
                        i + 1
                    }] by {}
                    assert(!mines_pos@.contains(safe_pos)) by {
                        if mines_pos@.contains(safe_pos) {
                            let k = choose|k: int|
                                0 <= k < mines_pos@.len() && mines_pos@[k] == safe_pos;
                            assert(before[if k < p {
                                k
                            } else {
                                k + 1
                            }] == before[p as int]);
                        }
                    }
                }
            }
        }
        if mines_pos.len() > mines {
            let ghost before = mines_pos@;
            shuffle_cells(&mut mines_pos, &mut rng);
            proof {
                lemma_taken_distinct(mines_pos@, before, w as nat, h as nat);
                lemma_same_cells(before, mines_pos@);
            }
            let ghost shuffled = mines_pos@;
            mines_pos.pop();
            proof {
                assert forall|i: int| 0 <= i < mines_pos@.len() implies #[trigger] mines_pos@[i]
                    == shuffled[i] by {}
                if self.safe_pos is Some && mines_pos@.contains(self.safe_pos.unwrap()) {
                    let k = choose|k: int|
                        0 <= k < mines_pos@.len() && mines_pos@[k] == self.safe_pos.unwrap();
                    assert(shuffled[k] == self.safe_pos.unwrap());
                }
            }
        }
        let grid = grid_with(w, h, &mines_pos);
        let state = GameState::with_mines(options, grid).unwrap();
        proof {
            let chosen = mines_pos@;
            let p = |c: (usize, usize)| chosen.contains(c);
            lemma_count_chosen(chosen, w as nat, h as nat);
            let cells = state.all_cells();
            assert forall|i: int| 0 <= i < cells.len() implies (state.mined())(#[trigger] cells[i])
                == p(cells[i]) by {
                assert(in_grid(w as int, h as int, cells[i].0 as int, cells[i].1 as int));
            }
            lemma_count_same(cells, state.mined(), p);
        }
        state
    }
}

/// Two lists with the same entries, each as often, hold the same cells.
proof fn lemma_same_cells(a: Seq<(usize, usize)>, b: Seq<(usize, usize)>)
    requires
        a.to_multiset() == b.to_multiset(),
    ensures
        a.len() == b.len(),
        forall|c: (usize, usize)| a.contains(c) == b.contains(c),
{
    broadcast use group_multiset_axioms;
    broadcast use vstd::seq_lib::to_multiset_contains;
    broadcast use vstd::seq_lib::to_multiset_len;

    assert forall|c: (usize, usize)| a.contains(c) == b.contains(c) by {
        assert(a.contains(c) == (a.to_multiset().count(c) > 0));
        assert(b.contains(c) == (b.to_multiset().count(c) > 0));
    }
    assert(a.to_multiset().len() == a.len());
    assert(b.to_multiset().len() == b.len());
}

} // verus!

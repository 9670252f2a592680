//! How opening spreads: from a cell that no mine touches to the untouched
//! cells around it, and on from each of those that no mine touches either.

use vstd::prelude::*;
use crate::game::grid::{adjacent, count_where, lemma_neighbours};
use crate::game::state::{CellState, GameState};

verus! {

impl GameState {
    /// A cell that holds no mine and that no mine touches.
    pub open spec fn blank(&self, c: (usize, usize)) -> bool {
        !self.spec_is_mine(c.0 as int, c.1 as int) && count_where(
            self.spec_nearby_cells(c.0 as int, c.1 as int),
            self.mined(),
        ) == 0
    }

    /// The state of the cell `c`.
    pub open spec fn at(&self, c: (usize, usize)) -> CellState {
        self.spec_cell(c.0 as int, c.1 as int)
    }

    /// Whether `c` is a cell of the board.
    pub open spec fn holds(&self, c: (usize, usize)) -> bool {
        self.on_board(c.0 as int, c.1 as int)
    }

    /// A path along which opening spreads: untouched cells of the board,
    /// each next to the one before it, and all but the last of them blank.
    pub open spec fn spreads_along(&self, p: Seq<(usize, usize)>) -> bool {
        &&& p.len() >= 1
        &&& forall|i: int|
            0 <= i < p.len() ==> self.holds(#[trigger] p[i]) && self.at(p[i]) == CellState::Unopened
        &&& forall|i: int|
            0 <= i < p.len() - 1 ==> self.blank(#[trigger] p[i]) && adjacent(
                p[i].0 as int,
                p[i].1 as int,
                p[i + 1].0 as int,
                p[i + 1].1 as int,
            )
    }

    /// Opening at `from` spreads to `to`.
    pub open spec fn spreads_to(&self, from: (usize, usize), to: (usize, usize)) -> bool {
        exists|p: Seq<(usize, usize)>| #[trigger]
            self.spreads_along(p) && p[0] == from && p[p.len() - 1] == to
    }

    /// What opening at `from` makes of the state `before`: the cells that
    /// the opening spreads to are opened, and no other cell is changed.
    pub open spec fn opened_from(&self, before: &GameState, from: (usize, usize)) -> bool {
        &&& self.same_board(before)
        &&& forall|x: int, y: int|
            before.on_board(x, y) ==> #[trigger] self.spec_cell(x, y) == if before.spreads_to(
                from,
                (x as usize, y as usize),
            ) {
                CellState::Opened
            } else {
                before.spec_cell(x, y)
            }
    }

    /// Every cell around `c` is touched in `now` or waits in `pending`.
    pub open spec fn closed_around(
        &self,
        now: &GameState,
        c: (usize, usize),
        pending: Seq<(usize, usize)>,
    ) -> bool {
        forall|i: int|
            0 <= i < self.spec_nearby_cells(c.0 as int, c.1 as int).len() ==> now.at(
                #[trigger] self.spec_nearby_cells(c.0 as int, c.1 as int)[i],
            ) != CellState::Unopened || pending.contains(
                self.spec_nearby_cells(c.0 as int, c.1 as int)[i],
            )
    }

    /// The opening that began at `from` in this state has come to `now`,
    /// with the cells of `pending` still to look at: what is opened was
    /// reached; what waits and was untouched is reached; `from` is opened or
    /// waits; and around every blank cell that was opened, each cell is
    /// touched or waits.
    pub open spec fn flooding(
        &self,
        now: &GameState,
        from: (usize, usize),
        pending: Seq<(usize, usize)>,
    ) -> bool {
        &&& now.same_board(self)
        &&& self.holds(from)
        &&& self.at(from) == CellState::Unopened
        &&& forall|x: int, y: int|
            self.on_board(x, y) ==> #[trigger] now.spec_cell(x, y) == self.spec_cell(x, y) || (
            self.spec_cell(x, y) == CellState::Unopened && now.spec_cell(x, y) == CellState::Opened
                && self.spreads_to(from, (x as usize, y as usize)))
        &&& forall|k: int|
            0 <= k < pending.len() ==> self.holds(#[trigger] pending[k]) && (self.at(pending[k])
                == CellState::Unopened ==> self.spreads_to(from, pending[k]))
        &&& now.at(from) == CellState::Opened || pending.contains(from)
        &&& forall|x: int, y: int|
            self.on_board(x, y) && #[trigger] now.spec_cell(x, y) == CellState::Opened
                && self.spec_cell(x, y) == CellState::Unopened && self.blank(
                (x as usize, y as usize),
            ) ==> self.closed_around(now, (x as usize, y as usize), pending)
    }

    /// `self` is `before` with the cell `c` opened.
    pub open spec fn opened_at(&self, before: &GameState, c: (usize, usize)) -> bool {
        &&& self.same_board(before)
        &&& self.at(c) == CellState::Opened
        &&& forall|x: int, y: int|
            before.on_board(x, y) && !(x == c.0 && y == c.1) ==> self.spec_cell(x, y)
                == #[trigger] before.spec_cell(x, y)
    }

    /// The cells around a cell of the board are the cells of the board next
    /// to it.
    pub proof fn lemma_nearby(&self, c: (usize, usize))
        requires
            self.wf(),
        ensures
            forall|d: (usize, usize)| #[trigger]
                self.spec_nearby_cells(c.0 as int, c.1 as int).contains(d) <==> self.holds(d)
                    && adjacent(c.0 as int, c.1 as int, d.0 as int, d.1 as int),
    {
        self.lemma_size();
        lemma_neighbours(
            self.spec_width() as int,
            self.spec_height() as int,
            c.0 as int,
            c.1 as int,
        );
    }

    /// Opening begins with the cell of the click alone waiting.
    pub proof fn lemma_flood_begins(&self, from: (usize, usize))
        requires
            self.wf(),
            self.holds(from),
            self.at(from) == CellState::Unopened,
        ensures
            self.flooding(self, from, seq![from]),
    {
        let p = seq![from];
        assert(p[0] == from);
        assert(self.spreads_along(p));
        assert(self.spreads_to(from, from));
        assert(seq![from].contains(from));
    }

    /// A cell that the opening has reached and that is no mine: it is the
    /// cell of the click, or it touches a blank cell.
    pub proof fn lemma_reached_is_safe(&self, from: (usize, usize), c: (usize, usize))
        requires
            self.wf(),
            self.spreads_to(from, c),
            !self.spec_is_mine(from.0 as int, from.1 as int),
        ensures
            !self.spec_is_mine(c.0 as int, c.1 as int),
    {
        let p = choose|p: Seq<(usize, usize)>| #[trigger]
            self.spreads_along(p) && p[0] == from && p[p.len() - 1] == c;
        if p.len() >= 2 {
            let b = p[p.len() - 2];
            assert(self.blank(b));
            assert(self.holds(p[p.len() - 1]));
            self.lemma_nearby(b);
            let near = self.spec_nearby_cells(b.0 as int, b.1 as int);
            assert(near.contains(c));
            let i = choose|i: int| 0 <= i < near.len() && near[i] == c;
            if (self.mined())(near[i]) {
                near.lemma_filter_contains(self.mined(), i);
            }
        }
    }

    /// A path, and one untouched cell more next to its blank end.
    pub proof fn lemma_spreads_on(&self, from: (usize, usize), c: (usize, usize), d: (usize, usize))
        requires
            self.spreads_to(from, c),
            self.blank(c),
            self.holds(d),
            self.at(d) == CellState::Unopened,
            adjacent(c.0 as int, c.1 as int, d.0 as int, d.1 as int),
        ensures
            self.spreads_to(from, d),
    {
        let p = choose|p: Seq<(usize, usize)>| #[trigger]
            self.spreads_along(p) && p[0] == from && p[p.len() - 1] == c;
        let q = p.push(d);
        assert forall|i: int| 0 <= i < q.len() implies self.holds(#[trigger] q[i]) && self.at(q[i])
            == CellState::Unopened by {
            if i < p.len() {
                assert(q[i] == p[i]);
            }
        }
        assert forall|i: int| 0 <= i < q.len() - 1 implies self.blank(#[trigger] q[i]) && adjacent(
            q[i].0 as int,
            q[i].1 as int,
            q[i + 1].0 as int,
            q[i + 1].1 as int,
        ) by {
            assert(q[i] == p[i]);
            if i < p.len() - 1 {
                assert(q[i + 1] == p[i + 1]);
                assert(self.blank(p[i]));
            }
        }
        assert(self.spreads_along(q));
        assert(q[0] == from && q[q.len() - 1] == d);
    }

    /// A cell that waited and is touched already is passed over.
    pub proof fn lemma_flood_skips(
        &self,
        now: &GameState,
        from: (usize, usize),
        before: Seq<(usize, usize)>,
        c: (usize, usize),
        after: Seq<(usize, usize)>,
    )
        requires
            self.flooding(now, from, before),
            now.at(c) != CellState::Unopened,
            forall|i: int| 0 <= i < after.len() ==> before.contains(#[trigger] after[i]),
            forall|i: int|
                0 <= i < before.len() ==> #[trigger] before[i] == c || after.contains(before[i]),
        ensures
            self.flooding(now, from, after),
    {
        assert forall|k: int| 0 <= k < after.len() implies self.holds(#[trigger] after[k]) && (
        self.at(after[k]) == CellState::Unopened ==> self.spreads_to(from, after[k])) by {
            let i = choose|i: int| 0 <= i < before.len() && before[i] == after[k];
            assert(self.holds(before[i]));
        }
        if !(now.at(from) == CellState::Opened) {
            let i = choose|i: int| 0 <= i < before.len() && before[i] == from;
            assert(now.spec_cell(from.0 as int, from.1 as int) == self.spec_cell(
                from.0 as int,
                from.1 as int,
            ));
            assert(before[i] == c || after.contains(before[i]));
        }
        assert forall|x: int, y: int|
            self.on_board(x, y) && #[trigger] now.spec_cell(x, y) == CellState::Opened
                && self.spec_cell(x, y) == CellState::Unopened && self.blank(
                (x as usize, y as usize),
            ) implies self.closed_around(now, (x as usize, y as usize), after) by {
            let b = (x as usize, y as usize);
            let near = self.spec_nearby_cells(b.0 as int, b.1 as int);
            assert(self.closed_around(now, b, before));
            assert forall|i: int| 0 <= i < near.len() implies now.at(#[trigger] near[i])
                != CellState::Unopened || after.contains(near[i]) by {
                if now.at(near[i]) == CellState::Unopened {
                    assert(before.contains(near[i]));
                    let k = choose|k: int| 0 <= k < before.len() && before[k] == near[i];
                    assert(before[k] == c || after.contains(before[k]));
                }
            }
        }
    }

    /// A cell that waited and was untouched is opened; where it is blank, the
    /// cells around it wait from now on.
    pub proof fn lemma_flood_opens(
        &self,
        now: &GameState,
        then: &GameState,
        from: (usize, usize),
        before: Seq<(usize, usize)>,
        c: (usize, usize),
        after: Seq<(usize, usize)>,
    )
        requires
            self.wf(),
            self.flooding(now, from, before),
            !self.spec_is_mine(from.0 as int, from.1 as int),
            before.contains(c),
            now.at(c) == CellState::Unopened,
            then.opened_at(now, c),
            forall|i: int|
                0 <= i < before.len() ==> #[trigger] before[i] == c || after.contains(before[i]),
            forall|i: int|
                0 <= i < after.len() ==> before.contains(#[trigger] after[i]) || (count_where(
                    self.spec_nearby_cells(c.0 as int, c.1 as int),
                    self.mined(),
                ) == 0 && self.spec_nearby_cells(c.0 as int, c.1 as int).contains(after[i])),
            count_where(self.spec_nearby_cells(c.0 as int, c.1 as int), self.mined()) == 0
                ==> forall|i: int|
                0 <= i < self.spec_nearby_cells(c.0 as int, c.1 as int).len() ==> after.contains(
                    #[trigger] self.spec_nearby_cells(c.0 as int, c.1 as int)[i],
                ),
        ensures
            self.flooding(then, from, after),
            self.blank(c) == (count_where(
                self.spec_nearby_cells(c.0 as int, c.1 as int),
                self.mined(),
            ) == 0),
    {
        let k0 = choose|k: int| 0 <= k < before.len() && before[k] == c;
        assert(self.holds(before[k0]));
        assert(now.spec_cell(c.0 as int, c.1 as int) == self.spec_cell(c.0 as int, c.1 as int));
        assert(self.spreads_to(from, c));
        self.lemma_reached_is_safe(from, c);
        self.lemma_nearby(c);
        let near_c = self.spec_nearby_cells(c.0 as int, c.1 as int);
        assert forall|x: int, y: int| self.on_board(x, y) implies #[trigger] then.spec_cell(x, y)
            == self.spec_cell(x, y) || (self.spec_cell(x, y) == CellState::Unopened
            && then.spec_cell(x, y) == CellState::Opened && self.spreads_to(
            from,
            (x as usize, y as usize),
        )) by {
            if x == c.0 && y == c.1 {
                assert((x as usize, y as usize) == c);
            } else {
                assert(then.spec_cell(x, y) == now.spec_cell(x, y));
            }
        }
        assert forall|k: int| 0 <= k < after.len() implies self.holds(#[trigger] after[k]) && (
        self.at(after[k]) == CellState::Unopened ==> self.spreads_to(from, after[k])) by {
            if before.contains(after[k]) {
                let i = choose|i: int| 0 <= i < before.len() && before[i] == after[k];
                assert(self.holds(before[i]));
            } else {
                assert(near_c.contains(after[k]));
                if self.at(after[k]) == CellState::Unopened {
                    self.lemma_spreads_on(from, c, after[k]);
                }
            }
        }
        if !(then.at(from) == CellState::Opened) {
            assert(from != c);
            assert(now.at(from) == then.at(from));
            let i = choose|i: int| 0 <= i < before.len() && before[i] == from;
            assert(before[i] == c || after.contains(before[i]));
        }
        assert forall|x: int, y: int|
            self.on_board(x, y) && #[trigger] then.spec_cell(x, y) == CellState::Opened
                && self.spec_cell(x, y) == CellState::Unopened && self.blank(
                (x as usize, y as usize),
            ) implies self.closed_around(then, (x as usize, y as usize), after) by {
            let b = (x as usize, y as usize);
            let near = self.spec_nearby_cells(b.0 as int, b.1 as int);
            self.lemma_nearby(b);
            assert forall|i: int| 0 <= i < near.len() implies then.at(#[trigger] near[i])
                != CellState::Unopened || after.contains(near[i]) by {
                let d = near[i];
                assert(near.contains(d));
                assert(self.holds(d));
                if b == c {
                } else if d == c {
                } else {
                    assert(now.spec_cell(x, y) == then.spec_cell(x, y));
                    assert(self.closed_around(now, b, before));
                    assert(then.spec_cell(d.0 as int, d.1 as int) == now.spec_cell(
                        d.0 as int,
                        d.1 as int,
                    ));
                    if now.at(d) == CellState::Unopened {
                        assert(before.contains(d));
                        let k = choose|k: int| 0 <= k < before.len() && before[k] == d;
                        assert(before[k] == c || after.contains(before[k]));
                    }
                }
            }
        }
    }

    /// Along a path, every cell is opened once nothing waits.
    proof fn lemma_path_opened(
        &self,
        now: &GameState,
        from: (usize, usize),
        p: Seq<(usize, usize)>,
        i: int,
    )
        requires
            self.wf(),
            self.flooding(now, from, Seq::empty()),
            self.spreads_along(p),
            p[0] == from,
            0 <= i < p.len(),
        ensures
            now.at(p[i]) == CellState::Opened,
        decreases i,
    {
        let none = Seq::<(usize, usize)>::empty();
        if i > 0 {
            self.lemma_path_opened(now, from, p, i - 1);
            let b = p[i - 1];
            let d = p[i];
            assert(self.holds(b) && self.at(b) == CellState::Unopened && self.blank(b));
            assert(self.holds(d) && self.at(d) == CellState::Unopened);
            self.lemma_size();
            assert(now.spec_cell(b.0 as int, b.1 as int) == CellState::Opened);
            assert(self.closed_around(now, b, none));
            self.lemma_nearby(b);
            let near = self.spec_nearby_cells(b.0 as int, b.1 as int);
            assert(near.contains(d));
            let k = choose|k: int| 0 <= k < near.len() && near[k] == d;
            assert(now.at(near[k]) != CellState::Unopened);
            assert(now.spec_cell(d.0 as int, d.1 as int) == self.spec_cell(d.0 as int, d.1 as int)
                || now.spec_cell(d.0 as int, d.1 as int) == CellState::Opened);
        }
    }

    /// Once nothing waits, the cells that the opening spreads to are opened
    /// and no other cell is changed.
    pub proof fn lemma_flood_ends(&self, now: &GameState, from: (usize, usize))
        requires
            self.wf(),
            self.flooding(now, from, Seq::empty()),
        ensures
            now.opened_from(self, from),
    {
        self.lemma_size();
        assert forall|x: int, y: int| self.on_board(x, y) implies #[trigger] now.spec_cell(x, y)
            == if self.spreads_to(from, (x as usize, y as usize)) {
            CellState::Opened
        } else {
            self.spec_cell(x, y)
        } by {
            let c = (x as usize, y as usize);
            if self.spreads_to(from, c) {
                let p = choose|p: Seq<(usize, usize)>| #[trigger]
                    self.spreads_along(p) && p[0] == from && p[p.len() - 1] == c;
                self.lemma_path_opened(now, from, p, p.len() - 1);
            }
        }
    }

    /// Opening a cell that is not blank opens that cell alone.
    pub proof fn lemma_opened_alone(&self, now: &GameState, from: (usize, usize))
        requires
            self.wf(),
            self.holds(from),
            self.at(from) == CellState::Unopened,
            !self.blank(from),
            now.opened_at(self, from),
        ensures
            now.opened_from(self, from),
    {
        self.lemma_size();
        let one = seq![from];
        assert(one[0] == from);
        assert(self.spreads_along(one));
        assert forall|x: int, y: int| self.on_board(x, y) implies #[trigger] now.spec_cell(x, y)
            == if self.spreads_to(from, (x as usize, y as usize)) {
            CellState::Opened
        } else {
            self.spec_cell(x, y)
        } by {
            let c = (x as usize, y as usize);
            if self.spreads_to(from, c) {
                let p = choose|p: Seq<(usize, usize)>| #[trigger]
                    self.spreads_along(p) && p[0] == from && p[p.len() - 1] == c;
                if p.len() >= 2 {
                    assert(self.blank(p[0]));
                }
            }
        }
    }
}

} // verus!

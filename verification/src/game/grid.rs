//! Coordinates on a rectangular grid: the cells in row order, the cells next
//! to a cell, and counting over rows and grids.

use vstd::prelude::*;

verus! {

/// Whether `(x, y)` lies on a grid of `w` columns and `h` rows.
pub open spec fn in_grid(w: int, h: int, x: int, y: int) -> bool {
    0 <= x < w && 0 <= y < h
}

/// The cell `(x, y)` alone where it lies on the grid, and nothing where it
/// does not.
pub open spec fn cell_if_in_grid(w: int, h: int, x: int, y: int) -> Seq<(usize, usize)> {
    if in_grid(w, h, x, y) {
        seq![(x as usize, y as usize)]
    } else {
        seq![]
    }
}

/// The cells of the grid that touch `(x, y)` at a side or a corner, row by
/// row from the top, each row from the left.
pub open spec fn neighbours(w: int, h: int, x: int, y: int) -> Seq<(usize, usize)> {
    cell_if_in_grid(w, h, x - 1, y - 1) + cell_if_in_grid(w, h, x, y - 1) + cell_if_in_grid(
        w,
        h,
        x + 1,
        y - 1,
    ) + cell_if_in_grid(w, h, x - 1, y) + cell_if_in_grid(w, h, x + 1, y) + cell_if_in_grid(
        w,
        h,
        x - 1,
        y + 1,
    ) + cell_if_in_grid(w, h, x, y + 1) + cell_if_in_grid(w, h, x + 1, y + 1)
}

/// Whether two cells touch at a side or a corner.
pub open spec fn adjacent(x0: int, y0: int, x1: int, y1: int) -> bool {
    &&& x0 - 1 <= x1 <= x0 + 1
    &&& y0 - 1 <= y1 <= y0 + 1
    &&& !(x0 == x1 && y0 == y1)
}

proof fn lemma_concat_contains<T>(a: Seq<T>, b: Seq<T>, v: T)
    ensures
        (a + b).contains(v) == (a.contains(v) || b.contains(v)),
{
    if a.contains(v) {
        let i = choose|i: int| 0 <= i < a.len() && a[i] == v;
        assert((a + b)[i] == v);
    }
    if b.contains(v) {
        let i = choose|i: int| 0 <= i < b.len() && b[i] == v;
        assert((a + b)[a.len() + i] == v);
    }
    if (a + b).contains(v) {
        let i = choose|i: int| 0 <= i < (a + b).len() && (a + b)[i] == v;
        if i < a.len() {
            assert(a[i] == v);
        } else {
            assert(b[i - a.len()] == v);
        }
    }
}

proof fn lemma_cell_if_in_grid(w: int, h: int, x: int, y: int, c: (usize, usize))
    requires
        w <= usize::MAX,
        h <= usize::MAX,
    ensures
        cell_if_in_grid(w, h, x, y).contains(c) == (in_grid(w, h, x, y) && c.0 == x && c.1 == y),
        cell_if_in_grid(w, h, x, y).len() <= 1,
{
    let s = cell_if_in_grid(w, h, x, y);
    if in_grid(w, h, x, y) {
        assert(s[0] == (x as usize, y as usize));
        if c.0 == x && c.1 == y {
            assert(s[0] == c);
        }
    }
}

/// The neighbours of a cell are the cells of the grid that touch it, each
/// once, and at most eight.
#[verifier::rlimit(40)]
pub proof fn lemma_neighbours(w: int, h: int, x: int, y: int)
    requires
        w <= usize::MAX,
        h <= usize::MAX,
    ensures
        forall|c: (usize, usize)| #[trigger]
            neighbours(w, h, x, y).contains(c) <==> in_grid(w, h, c.0 as int, c.1 as int)
                && adjacent(x, y, c.0 as int, c.1 as int),
        neighbours(w, h, x, y).no_duplicates(),
        neighbours(w, h, x, y).len() <= 8,
{
    let p0 = cell_if_in_grid(w, h, x - 1, y - 1);
    let p1 = cell_if_in_grid(w, h, x, y - 1);
    let p2 = cell_if_in_grid(w, h, x + 1, y - 1);
    let p3 = cell_if_in_grid(w, h, x - 1, y);
    let p4 = cell_if_in_grid(w, h, x + 1, y);
    let p5 = cell_if_in_grid(w, h, x - 1, y + 1);
    let p6 = cell_if_in_grid(w, h, x, y + 1);
    let p7 = cell_if_in_grid(w, h, x + 1, y + 1);
    let s1 = p0 + p1;
    let s2 = s1 + p2;
    let s3 = s2 + p3;
    let s4 = s3 + p4;
    let s5 = s4 + p5;
    let s6 = s5 + p6;
    let s7 = s6 + p7;
    assert(s7 == neighbours(w, h, x, y));
    assert forall|c: (usize, usize)| #[trigger]
        s7.contains(c) <==> in_grid(w, h, c.0 as int, c.1 as int) && adjacent(
            x,
            y,
            c.0 as int,
            c.1 as int,
        ) by {
        lemma_cell_if_in_grid(w, h, x - 1, y - 1, c);
        lemma_cell_if_in_grid(w, h, x, y - 1, c);
        lemma_cell_if_in_grid(w, h, x + 1, y - 1, c);
        lemma_cell_if_in_grid(w, h, x - 1, y, c);
        lemma_cell_if_in_grid(w, h, x + 1, y, c);
        lemma_cell_if_in_grid(w, h, x - 1, y + 1, c);
        lemma_cell_if_in_grid(w, h, x, y + 1, c);
        lemma_cell_if_in_grid(w, h, x + 1, y + 1, c);
        lemma_concat_contains(p0, p1, c);
        lemma_concat_contains(s1, p2, c);
        lemma_concat_contains(s2, p3, c);
        lemma_concat_contains(s3, p4, c);
        lemma_concat_contains(s4, p5, c);
        lemma_concat_contains(s5, p6, c);
        lemma_concat_contains(s6, p7, c);
    }
    let e = Seq::<(usize, usize)>::empty();
    assert(e + p0 =~= p0);
    lemma_append_later(w, h, e, x - 1, y - 1, x, y - 1);
    lemma_append_later(w, h, p0, x, y - 1, x + 1, y - 1);
    lemma_append_later(w, h, s1, x + 1, y - 1, x - 1, y);
    lemma_append_later(w, h, s2, x - 1, y, x + 1, y);
    lemma_append_later(w, h, s3, x + 1, y, x - 1, y + 1);
    lemma_append_later(w, h, s4, x - 1, y + 1, x, y + 1);
    lemma_append_later(w, h, s5, x, y + 1, x + 1, y + 1);
    lemma_append_later(w, h, s6, x + 1, y + 1, x + 2, y + 1);
}

/// The cells of `s` come before `(cx, cy)` in row order.
spec fn all_before(s: Seq<(usize, usize)>, cx: int, cy: int) -> bool {
    forall|i: int|
        0 <= i < s.len() ==> (#[trigger] s[i]).1 < cy || (s[i].1 == cy && s[i].0 < cx)
}

/// A list of distinct cells that all come before `(cx, cy)` stays one of
/// distinct cells when `(cx, cy)` is appended, and its cells then come before
/// every later cell `(nx, ny)`.
proof fn lemma_append_later(
    w: int,
    h: int,
    before: Seq<(usize, usize)>,
    cx: int,
    cy: int,
    nx: int,
    ny: int,
)
    requires
        w <= usize::MAX,
        h <= usize::MAX,
        before.no_duplicates(),
        all_before(before, cx, cy),
        cy < ny || (cy == ny && cx < nx),
    ensures
        (before + cell_if_in_grid(w, h, cx, cy)).no_duplicates(),
        all_before(before + cell_if_in_grid(w, h, cx, cy), nx, ny),
        (before + cell_if_in_grid(w, h, cx, cy)).len() <= before.len() + 1,
{
    let s = before + cell_if_in_grid(w, h, cx, cy);
    assert forall|i: int, j: int| 0 <= i < s.len() && 0 <= j < s.len() && i != j implies s[i]
        != s[j] by {
        if i < before.len() {
            assert(s[i] == before[i]);
        }
        if j < before.len() {
            assert(s[j] == before[j]);
        }
    }
    assert forall|i: int| 0 <= i < s.len() implies (#[trigger] s[i]).1 < ny || (s[i].1 == ny
        && s[i].0 < nx) by {
        if i < before.len() {
            assert(s[i] == before[i]);
        }
    }
}

/// The cells of row `y` of a grid of `w` columns, from the left.
pub open spec fn row_cells(w: nat, y: nat) -> Seq<(usize, usize)> {
    Seq::new(w, |x: int| (x as usize, y as usize))
}

/// The cells of the first `h` rows of a grid of `w` columns: row by row from
/// the top, each row from the left.
pub open spec fn grid_cells(w: nat, h: nat) -> Seq<(usize, usize)>
    decreases h,
{
    if h == 0 {
        seq![]
    } else {
        grid_cells(w, (h - 1) as nat) + row_cells(w, (h - 1) as nat)
    }
}

/// The cells of a grid are its `w * h` coordinates, each once.
pub proof fn lemma_grid_cells(w: nat, h: nat)
    requires
        w <= usize::MAX,
        h <= usize::MAX,
    ensures
        grid_cells(w, h).len() == w * h,
        forall|c: (usize, usize)| #[trigger]
            grid_cells(w, h).contains(c) <==> in_grid(w as int, h as int, c.0 as int, c.1 as int),
        grid_cells(w, h).no_duplicates(),
        forall|i: int|
            0 <= i < grid_cells(w, h).len() ==> in_grid(
                w as int,
                h as int,
                (#[trigger] grid_cells(w, h)[i]).0 as int,
                grid_cells(w, h)[i].1 as int,
            ),
    decreases h,
{
    if h > 0 {
        let y = (h - 1) as nat;
        let above = grid_cells(w, y);
        let row = row_cells(w, y);
        let all = grid_cells(w, h);
        lemma_grid_cells(w, y);
        assert(w * h == w * y + w) by (nonlinear_arith)
            requires
                y == h - 1,
        ;
        assert forall|c: (usize, usize)| #[trigger]
            all.contains(c) <==> in_grid(w as int, h as int, c.0 as int, c.1 as int) by {
            lemma_concat_contains(above, row, c);
            if row.contains(c) {
                let i = choose|i: int| 0 <= i < row.len() && row[i] == c;
            }
            if c.0 < w && c.1 == y {
                assert(row[c.0 as int] == c);
            }
        }
        assert forall|i: int, j: int| 0 <= i < all.len() && 0 <= j < all.len() && i != j implies all[i]
            != all[j] by {
            if i < above.len() {
                assert(all[i] == above[i]);
                assert(above.contains(above[i]));
            } else {
                assert(all[i] == row[i - above.len()]);
            }
            if j < above.len() {
                assert(all[j] == above[j]);
                assert(above.contains(above[j]));
            } else {
                assert(all[j] == row[j - above.len()]);
            }
        }
        assert forall|i: int| 0 <= i < all.len() implies in_grid(
            w as int,
            h as int,
            (#[trigger] all[i]).0 as int,
            all[i].1 as int,
        ) by {
            assert(all.contains(all[i]));
        }
    } else {
        assert(w * h == 0) by (nonlinear_arith)
            requires
                h == 0,
        ;
    }
}

/// The number of entries of `s` that satisfy `p`.
pub open spec fn count_where<T>(s: Seq<T>, p: spec_fn(T) -> bool) -> nat {
    s.filter(p).len()
}

/// Counting goes entry by entry.
pub proof fn lemma_count_push<T>(s: Seq<T>, v: T, p: spec_fn(T) -> bool)
    ensures
        count_where(s.push(v), p) == count_where(s, p) + if p(v) {
            1nat
        } else {
            0nat
        },
        count_where(s, p) <= s.len(),
        count_where(Seq::<T>::empty(), p) == 0,
{
    s.lemma_filter_push(v, p);
    s.lemma_filter_len(p);
    Seq::<T>::empty().lemma_filter_len(p);
}

/// Two lists put together hold what either holds.
pub proof fn lemma_add_contains<T>(a: Seq<T>, b: Seq<T>)
    ensures
        forall|v: T| #[trigger] (a + b).contains(v) <==> a.contains(v) || b.contains(v),
{
    assert forall|v: T| #[trigger] (a + b).contains(v) <==> a.contains(v) || b.contains(v) by {
        lemma_concat_contains(a, b, v);
    }
}

/// Of a list of one item, the item is picked or nothing is.
pub proof fn lemma_filter_one<T>(v: T, p: spec_fn(T) -> bool)
    ensures
        seq![v].filter(p) == if p(v) {
            seq![v]
        } else {
            Seq::<T>::empty()
        },
{
    reveal(Seq::filter);
    Seq::<T>::empty().lemma_filter_push(v, p);
    assert(Seq::<T>::empty().push(v) =~= seq![v]);
    assert(Seq::<T>::empty().filter(p) =~= Seq::<T>::empty());
}

/// Two properties that agree on the items of a list pick the same items.
pub proof fn lemma_filter_same<T>(s: Seq<T>, p: spec_fn(T) -> bool, q: spec_fn(T) -> bool)
    requires
        forall|i: int| 0 <= i < s.len() ==> p(#[trigger] s[i]) == q(s[i]),
    ensures
        s.filter(p) == s.filter(q),
    decreases s.len(),
{
    reveal(Seq::filter);
    if s.len() > 0 {
        let front = s.drop_last();
        assert forall|i: int| 0 <= i < front.len() implies p(#[trigger] front[i]) == q(
            front[i],
        ) by {
            assert(front[i] == s[i]);
        }
        lemma_filter_same(front, p, q);
        assert(p(s[s.len() - 1]) == q(s[s.len() - 1]));
    }
}

/// Two predicates that agree on the entries of `s` count the same.
pub proof fn lemma_count_same<T>(s: Seq<T>, p: spec_fn(T) -> bool, q: spec_fn(T) -> bool)
    requires
        forall|i: int| 0 <= i < s.len() ==> p(#[trigger] s[i]) == q(s[i]),
    ensures
        count_where(s, p) == count_where(s, q),
    decreases s.len(),
{
    if s.len() == 0 {
        lemma_count_push(s, arbitrary(), p);
        lemma_count_push(s, arbitrary(), q);
        assert(s =~= Seq::<T>::empty());
    } else {
        let front = s.drop_last();
        assert(s =~= front.push(s.last()));
        assert forall|i: int| 0 <= i < front.len() implies p(#[trigger] front[i]) == q(front[i]) by {
            assert(front[i] == s[i]);
        }
        lemma_count_same(front, p, q);
        lemma_count_push(front, s.last(), p);
        lemma_count_push(front, s.last(), q);
        assert(s.last() == s[s.len() - 1]);
    }
}

/// Where two predicates differ at one entry alone, which stands once in `s`,
/// the one that holds there counts one more.
pub proof fn lemma_count_change<T>(s: Seq<T>, p: spec_fn(T) -> bool, q: spec_fn(T) -> bool, v: T)
    requires
        s.no_duplicates(),
        s.contains(v),
        p(v),
        !q(v),
        forall|i: int| 0 <= i < s.len() && s[i] != v ==> p(#[trigger] s[i]) == q(s[i]),
    ensures
        count_where(s, q) + 1 == count_where(s, p),
    decreases s.len(),
{
    let front = s.drop_last();
    assert(s =~= front.push(s.last()));
    assert(s.last() == s[s.len() - 1]);
    lemma_count_push(front, s.last(), p);
    lemma_count_push(front, s.last(), q);
    assert forall|i: int| 0 <= i < front.len() implies front[i] == s[i] by {}
    if s.last() == v {
        assert forall|i: int| 0 <= i < front.len() implies p(#[trigger] front[i]) == q(front[i]) by {
            assert(front[i] == s[i]);
            assert(s[i] != s[s.len() - 1]);
        }
        lemma_count_same(front, p, q);
    } else {
        let k = choose|k: int| 0 <= k < s.len() && s[k] == v;
        assert(front[k] == v);
        assert forall|i: int| 0 <= i < front.len() && front[i] != v implies p(#[trigger] front[i])
            == q(front[i]) by {
            assert(front[i] == s[i]);
        }
        lemma_count_change(front, p, q, v);
    }
}

/// Where every entry that satisfies `p` satisfies one of `a` and `b` and not
/// both, `p` counts what `a` and `b` count together.
pub proof fn lemma_count_split<T>(
    s: Seq<T>,
    p: spec_fn(T) -> bool,
    a: spec_fn(T) -> bool,
    b: spec_fn(T) -> bool,
)
    requires
        forall|i: int| 0 <= i < s.len() ==> p(#[trigger] s[i]) == (a(s[i]) || b(s[i])),
        forall|i: int| 0 <= i < s.len() ==> !(a(#[trigger] s[i]) && b(s[i])),
    ensures
        count_where(s, p) == count_where(s, a) + count_where(s, b),
    decreases s.len(),
{
    if s.len() == 0 {
        lemma_count_push(s, arbitrary(), p);
        lemma_count_push(s, arbitrary(), a);
        lemma_count_push(s, arbitrary(), b);
        assert(s =~= Seq::<T>::empty());
    } else {
        let front = s.drop_last();
        assert(s =~= front.push(s.last()));
        assert(s.last() == s[s.len() - 1]);
        assert forall|i: int| 0 <= i < front.len() implies p(#[trigger] front[i]) == (a(front[i])
            || b(front[i])) by {
            assert(front[i] == s[i]);
        }
        assert forall|i: int| 0 <= i < front.len() implies !(a(#[trigger] front[i]) && b(
            front[i],
        )) by {
            assert(front[i] == s[i]);
        }
        lemma_count_split(front, p, a, b);
        lemma_count_push(front, s.last(), p);
        lemma_count_push(front, s.last(), a);
        lemma_count_push(front, s.last(), b);
    }
}

/// Counting among the entries that satisfy `q` is counting the entries that
/// satisfy both. What is kept of distinct entries is distinct, and was there.
pub proof fn lemma_count_filter<T>(s: Seq<T>, q: spec_fn(T) -> bool, p: spec_fn(T) -> bool)
    ensures
        count_where(s.filter(q), p) == count_where(s, |c: T| q(c) && p(c)),
        s.no_duplicates() ==> s.filter(q).no_duplicates(),
        forall|i: int|
            0 <= i < s.filter(q).len() ==> s.contains(#[trigger] s.filter(q)[i]) && q(
                s.filter(q)[i],
            ),
        forall|i: int| 0 <= i < s.len() && q(s[i]) ==> s.filter(q).contains(#[trigger] s[i]),
    decreases s.len(),
{
    let both = |c: T| q(c) && p(c);
    if s.len() == 0 {
        reveal(Seq::filter);
        assert(s.filter(q) =~= s);
        lemma_count_push(s, arbitrary(), p);
        lemma_count_push(s, arbitrary(), both);
        assert(s =~= Seq::<T>::empty());
    } else {
        let front = s.drop_last();
        let v = s.last();
        assert(s =~= front.push(v));
        assert(v == s[s.len() - 1]);
        lemma_count_filter(front, q, p);
        front.lemma_filter_push(v, q);
        lemma_count_push(front, v, both);
        let kept = front.filter(q);
        let all = s.filter(q);
        if q(v) {
            lemma_count_push(kept, v, p);
            assert(all[kept.len() as int] == v);
        }
        assert forall|i: int| 0 <= i < all.len() implies s.contains(#[trigger] all[i]) && q(
            all[i],
        ) by {
            if i < kept.len() {
                assert(all[i] == kept[i]);
                assert(front.contains(kept[i]));
                let k = choose|k: int| 0 <= k < front.len() && front[k] == kept[i];
                assert(s[k] == kept[i]);
            }
        }
        assert forall|i: int| 0 <= i < s.len() && q(s[i]) implies all.contains(#[trigger] s[i]) by {
            if i < front.len() {
                assert(front[i] == s[i]);
                assert(kept.contains(front[i]));
                let k = choose|k: int| 0 <= k < kept.len() && kept[k] == front[i];
                assert(all[k] == s[i]);
            }
        }
        if s.no_duplicates() {
            assert(front.no_duplicates()) by {
                assert forall|i: int, j: int|
                    0 <= i < front.len() && 0 <= j < front.len() && i != j implies front[i]
                    != front[j] by {
                    assert(front[i] == s[i] && front[j] == s[j]);
                }
            }
            assert forall|i: int, j: int|
                0 <= i < all.len() && 0 <= j < all.len() && i != j implies all[i] != all[j] by {
                if i < kept.len() && j < kept.len() {
                    assert(all[i] == kept[i] && all[j] == kept[j]);
                } else {
                    let older = if i < kept.len() {
                        i
                    } else {
                        j
                    };
                    assert(all[older] == kept[older]);
                    assert(front.contains(kept[older]));
                    let k = choose|k: int| 0 <= k < front.len() && front[k] == kept[older];
                    assert(s[k] != s[s.len() - 1]);
                }
            }
        }
    }
}

/// The coordinate at the offset `d - 1` from `v`, if it lies below `limit`.
fn shifted(v: usize, d: u8, limit: usize) -> (r: Option<usize>)
    requires
        d <= 2,
    ensures
        match r {
            Some(c) => c == v + d - 1 && c < limit,
            None => !(0 <= v + d - 1 < limit),
        },
{
    if d == 0 {
        if v >= 1 && v - 1 < limit {
            Some(v - 1)
        } else {
            None
        }
    } else if d == 1 {
        if v < limit {
            Some(v)
        } else {
            None
        }
    } else {
        if v < usize::MAX && v + 1 < limit {
            Some(v + 1)
        } else {
            None
        }
    }
}

/// Appends the cell at the offset `(dx - 1, dy - 1)` from `(x, y)` where it
/// lies on the grid.
fn push_if_in_grid(r: &mut Vec<(usize, usize)>, w: usize, h: usize, x: usize, y: usize, dx: u8, dy: u8)
    requires
        dx <= 2,
        dy <= 2,
    ensures
        final(r)@ == old(r)@ + cell_if_in_grid(w as int, h as int, x + dx - 1, y + dy - 1),
{
    match (shifted(x, dx, w), shifted(y, dy, h)) {
        (Some(cx), Some(cy)) => {
            r.push((cx, cy));
            assert(r@ =~= old(r)@ + cell_if_in_grid(w as int, h as int, x + dx - 1, y + dy - 1));
        },
        _ => {
            assert(r@ =~= old(r)@ + cell_if_in_grid(w as int, h as int, x + dx - 1, y + dy - 1));
        },
    }
}

/// The cells that touch `(x, y)` on a grid of `w` columns and `h` rows, row
/// by row from the top, each row from the left.
pub fn nearby(w: usize, h: usize, x: usize, y: usize) -> (r: Vec<(usize, usize)>)
    ensures
        r@ == neighbours(w as int, h as int, x as int, y as int),
{
    let mut r: Vec<(usize, usize)> = Vec::new();
    assert(r@ =~= Seq::<(usize, usize)>::empty());
    push_if_in_grid(&mut r, w, h, x, y, 0, 0);
    assert(r@ =~= cell_if_in_grid(w as int, h as int, x - 1, y - 1));
    push_if_in_grid(&mut r, w, h, x, y, 1, 0);
    push_if_in_grid(&mut r, w, h, x, y, 2, 0);
    push_if_in_grid(&mut r, w, h, x, y, 0, 1);
    push_if_in_grid(&mut r, w, h, x, y, 2, 1);
    push_if_in_grid(&mut r, w, h, x, y, 0, 2);
    push_if_in_grid(&mut r, w, h, x, y, 1, 2);
    push_if_in_grid(&mut r, w, h, x, y, 2, 2);
    r
}

/// The cells `(x - 1, y)`, `(x, y)` and `(x + 1, y)`, as far as they lie
/// on the grid.
#[verifier::opaque]
pub open spec fn block_row(w: int, h: int, x: int, y: int) -> Seq<(usize, usize)> {
    cell_if_in_grid(w, h, x - 1, y) + cell_if_in_grid(w, h, x, y) + cell_if_in_grid(w, h, x + 1, y)
}

/// The cell `(x, y)` and the cells that touch it, as far as they lie on the
/// grid, row by row from the top, each row from the left.
pub open spec fn block(w: int, h: int, x: int, y: int) -> Seq<(usize, usize)> {
    block_row(w, h, x, y - 1) + block_row(w, h, x, y) + block_row(w, h, x, y + 1)
}

fn push_block_row(r: &mut Vec<(usize, usize)>, w: usize, h: usize, x: usize, y: usize, dy: u8)
    requires
        dy <= 2,
    ensures
        final(r)@ == old(r)@ + block_row(w as int, h as int, x as int, y + dy - 1),
{
    reveal(block_row);
    push_if_in_grid(r, w, h, x, y, 0, dy);
    push_if_in_grid(r, w, h, x, y, 1, dy);
    push_if_in_grid(r, w, h, x, y, 2, dy);
    assert(r@ =~= old(r)@ + block_row(w as int, h as int, x as int, y + dy - 1));
}

/// Appends the cell `(x, y)` and the cells that touch it, as far as they lie
/// on the grid, row by row from the top.
pub(crate) fn push_block(r: &mut Vec<(usize, usize)>, w: usize, h: usize, x: usize, y: usize)
    ensures
        final(r)@ == old(r)@ + block(w as int, h as int, x as int, y as int),
{
    let ghost above = block_row(w as int, h as int, x as int, y - 1);
    let ghost level = block_row(w as int, h as int, x as int, y as int);
    let ghost below = block_row(w as int, h as int, x as int, y + 1);
    push_block_row(r, w, h, x, y, 0);
    push_block_row(r, w, h, x, y, 1);
    assert(r@ =~= old(r)@ + (above + level));
    push_block_row(r, w, h, x, y, 2);
    assert(r@ =~= old(r)@ + (above + level + below));
}

/// The cells of a grid of `w` columns and `h` rows: row by row from the top,
/// each row from the left.
pub fn cells_in_rows(w: usize, h: usize) -> (r: Vec<(usize, usize)>)
    ensures
        r@ == grid_cells(w as nat, h as nat),
{
    let mut r: Vec<(usize, usize)> = Vec::new();
    let mut y: usize = 0;
    while y < h
        invariant
            y <= h,
            r@ == grid_cells(w as nat, y as nat),
        decreases h - y,
    {
        let ghost above = r@;
        let mut x: usize = 0;
        while x < w
            invariant
                x <= w,
                y < h,
                r@ == above + row_cells(w as nat, y as nat).take(x as int),
            decreases w - x,
        {
            r.push((x, y));
            assert(r@ =~= above + row_cells(w as nat, y as nat).take(x + 1));
            x += 1;
        }
        assert(row_cells(w as nat, y as nat).take(w as int) =~= row_cells(w as nat, y as nat));
        y += 1;
    }
    r
}

/// The place of the cell in the list, if it is there.
pub(crate) fn position(cells: &Vec<(usize, usize)>, cell: (usize, usize)) -> (p: Option<usize>)
    ensures
        match p {
            Some(i) => i < cells@.len() && cells@[i as int] == cell,
            None => !cells@.contains(cell),
        },
{
    let mut i: usize = 0;
    while i < cells.len()
        invariant
            i <= cells.len(),
            forall|k: int| 0 <= k < i ==> cells@[k] != cell,
        decreases cells.len() - i,
    {
        let (x, y) = cells[i];
        if x == cell.0 && y == cell.1 {
            return Some(i);
        }
        i += 1;
    }
    None
}

/// The list with the cell at its end, or the list itself where it holds the
/// cell.
pub open spec fn with_cell(list: Seq<(usize, usize)>, cell: (usize, usize)) -> Seq<(usize, usize)> {
    if list.contains(cell) {
        list
    } else {
        list.push(cell)
    }
}

/// The list with the cells of `more` added one by one, each unless the list
/// holds it by then.
pub open spec fn with_cells(list: Seq<(usize, usize)>, more: Seq<(usize, usize)>) -> Seq<
    (usize, usize),
>
    decreases more.len(),
{
    if more.len() == 0 {
        list
    } else {
        with_cell(with_cells(list, more.drop_last()), more.last())
    }
}

/// The list with the cells of `more` added holds what either list holds.
pub proof fn lemma_with_cells_contains(list: Seq<(usize, usize)>, more: Seq<(usize, usize)>)
    ensures
        forall|c: (usize, usize)| #[trigger]
            with_cells(list, more).contains(c) <==> list.contains(c) || more.contains(c),
    decreases more.len(),
{
    if more.len() > 0 {
        let front = more.drop_last();
        let inner = with_cells(list, front);
        lemma_with_cells_contains(list, front);
        assert(more =~= front.push(more.last()));
        lemma_add_contains(front, seq![more.last()]);
        assert(front.push(more.last()) =~= front + seq![more.last()]);
        lemma_add_contains(inner, seq![more.last()]);
        assert(inner.push(more.last()) =~= inner + seq![more.last()]);
        assert(seq![more.last()][0] == more.last());
        assert forall|c: (usize, usize)| #[trigger]
            with_cells(list, more).contains(c) <==> list.contains(c) || more.contains(c) by {
            assert(seq![more.last()].contains(c) <==> c == more.last());
        }
    }
}

/// Where fewer entries satisfy a predicate than there are, one does not.
pub proof fn lemma_some_other<T>(s: Seq<T>, p: spec_fn(T) -> bool)
    requires
        count_where(s, p) < s.len(),
    ensures
        exists|i: int| 0 <= i < s.len() && !p(#[trigger] s[i]),
    decreases s.len(),
{
    if s.len() == 0 {
    } else {
        let front = s.drop_last();
        assert(s =~= front.push(s.last()));
        assert(s.last() == s[s.len() - 1]);
        lemma_count_push(front, s.last(), p);
        if p(s.last()) {
            lemma_some_other(front, p);
            let i = choose|i: int| 0 <= i < front.len() && !p(#[trigger] front[i]);
            assert(front[i] == s[i]);
        }
    }
}

/// Adds the cell to the list unless it is there.
pub(crate) fn insert_once(pending: &mut Vec<(usize, usize)>, cell: (usize, usize))
    ensures
        final(pending)@ == with_cell(old(pending)@, cell),
        final(pending)@.len() <= old(pending)@.len() + 1,
        forall|i: int|
            0 <= i < final(pending)@.len()
                ==> #[trigger] final(pending)@[i] == cell
                    || old(pending)@.contains(final(pending)@[i]),
        forall|i: int|
            0 <= i < old(pending)@.len() ==> final(pending)@.contains(#[trigger] old(pending)@[i]),
        old(pending)@.no_duplicates() ==> final(pending)@.no_duplicates(),
        final(pending)@.contains(cell),
{
    let mut i: usize = 0;
    while i < pending.len()
        invariant
            i <= pending.len(),
            pending@ == old(pending)@,
            forall|k: int| 0 <= k < i ==> pending@[k] != cell,
        decreases pending.len() - i,
    {
        let (x, y) = pending[i];
        if x == cell.0 && y == cell.1 {
            proof {
                assert forall|k: int| 0 <= k < pending@.len() implies old(pending)@.contains(
                    #[trigger] pending@[k],
                ) by {}
                assert(pending@[i as int] == cell);
            }
            return ;
        }
        i += 1;
    }
    pending.push(cell);
    assert(pending@[pending@.len() - 1] == cell);
    proof {
        assert forall|k: int| 0 <= k < pending@.len()
            implies #[trigger] pending@[k] == cell || old(pending)@.contains(pending@[k]) by {
            if k < old(pending)@.len() {
                assert(pending@[k] == old(pending)@[k]);
            }
        }
        assert forall|k: int| 0 <= k < old(pending)@.len() implies pending@.contains(
            #[trigger] old(pending)@[k],
        ) by {
            assert(pending@[k] == old(pending)@[k]);
        }
    }
}

} // verus!

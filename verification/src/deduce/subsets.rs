//! The selections of `k` entries out of a list, as the `itertools` crate
//! enumerates them.

use vstd::prelude::*;
use itertools::Itertools;
use crate::game::grid::{count_where, lemma_count_push, lemma_count_same};

verus! {

/// The ways to select `k` entries of `items`, each as the list of the
/// selected entries in their order. First come the selections that hold the
/// first entry, then those that do not, and so on within each group: the
/// order of the places selected, read as words.
pub open spec fn k_subsets(items: Seq<(usize, usize)>, k: nat) -> Seq<Seq<(usize, usize)>>
    decreases items.len(),
{
    if k == 0 {
        seq![seq![]]
    } else if items.len() == 0 {
        seq![]
    } else {
        k_subsets(items.drop_first(), (k - 1) as nat).map_values(
            |s: Seq<(usize, usize)>| seq![items[0]] + s,
        ) + k_subsets(items.drop_first(), k)
    }
}

/// The views of the vectors of a list.
pub open spec fn selections(r: Seq<Vec<(usize, usize)>>) -> Seq<Seq<(usize, usize)>> {
    r.map_values(|s: Vec<(usize, usize)>| s@)
}

/// Calls `Itertools::combinations` on the cells and collects what it yields.
/// The crate documents that it yields every selection of `k` places once, as
/// the list of the entries at those places, in the order of the places read
/// as words, and one empty selection for `k == 0`. It is called with no more
/// places than there are cells.
#[verifier::external_body]
pub(crate) fn combinations(items: &Vec<(usize, usize)>, k: usize) -> (r: Vec<Vec<(usize, usize)>>)
    requires
        k <= items@.len(),
    ensures
        selections(r@) == k_subsets(items@, k as nat),
{
    items.iter().copied().combinations(k).collect()
}

/// Counting from the front: the first entry, then the rest.
pub proof fn lemma_count_first<T>(s: Seq<T>, p: spec_fn(T) -> bool)
    requires
        s.len() > 0,
    ensures
        count_where(s, p) == count_where(s.drop_first(), p) + if p(s[0]) {
            1nat
        } else {
            0nat
        },
{
    let first = seq![s[0]];
    assert(s =~= first + s.drop_first());
    Seq::filter_distributes_over_add(first, s.drop_first(), p);
    assert(first =~= Seq::<T>::empty().push(s[0]));
    lemma_count_push(Seq::<T>::empty(), s[0], p);
}

/// Whether the selection holds the cell.
pub open spec fn holds_cell(selection: Seq<(usize, usize)>) -> spec_fn((usize, usize)) -> bool {
    |c: (usize, usize)| selection.contains(c)
}

/// Every selection of `k` out of distinct cells holds `k` of them, and no
/// other cell.
pub proof fn lemma_k_subsets_sound(items: Seq<(usize, usize)>, k: nat, i: int)
    requires
        items.no_duplicates(),
        0 <= i < k_subsets(items, k).len(),
    ensures
        count_where(items, holds_cell(k_subsets(items, k)[i])) == k,
        forall|c: (usize, usize)| #[trigger]
            k_subsets(items, k)[i].contains(c) ==> items.contains(c),
    decreases items.len(),
{
    let chosen = k_subsets(items, k)[i];
    if k == 0 {
        assert(chosen =~= Seq::<(usize, usize)>::empty());
        lemma_count_none(items, holds_cell(chosen));
    } else if items.len() == 0 {
    } else {
        let rest = items.drop_first();
        let first = items[0];
        let with = k_subsets(rest, (k - 1) as nat);
        let without = k_subsets(rest, k);
        assert(rest.no_duplicates());
        assert(!rest.contains(first)) by {
            if rest.contains(first) {
                let j = choose|j: int| 0 <= j < rest.len() && rest[j] == first;
                assert(items[j + 1] == items[0]);
            }
        }
        lemma_count_first(items, holds_cell(chosen));
        if i < with.len() {
            let inner = with[i];
            assert(chosen == seq![first] + inner);
            lemma_k_subsets_sound(rest, (k - 1) as nat, i);
            assert(chosen[0] == first);
            assert forall|j: int| 0 <= j < rest.len() implies (holds_cell(chosen))(#[trigger] rest[j])
                == (holds_cell(inner))(rest[j]) by {
                let c = rest[j];
                assert(rest.contains(c));
                if chosen.contains(c) {
                    let q = choose|q: int| 0 <= q < chosen.len() && chosen[q] == c;
                    assert(q > 0);
                    assert(inner[q - 1] == c);
                }
                if inner.contains(c) {
                    let q = choose|q: int| 0 <= q < inner.len() && inner[q] == c;
                    assert(chosen[q + 1] == c);
                }
            }
            lemma_count_same(rest, holds_cell(chosen), holds_cell(inner));
            assert forall|c: (usize, usize)| #[trigger] chosen.contains(c) implies items.contains(
                c,
            ) by {
                let q = choose|q: int| 0 <= q < chosen.len() && chosen[q] == c;
                if q == 0 {
                    assert(items[0] == c);
                } else {
                    assert(inner[q - 1] == c);
                    assert(inner.contains(c));
                    let j = choose|j: int| 0 <= j < rest.len() && rest[j] == c;
                    assert(items[j + 1] == c);
                }
            }
        } else {
            assert(chosen == without[i - with.len()]);
            lemma_k_subsets_sound(rest, k, i - with.len());
            assert forall|c: (usize, usize)| #[trigger] chosen.contains(c) implies items.contains(
                c,
            ) by {
                assert(rest.contains(c));
                let j = choose|j: int| 0 <= j < rest.len() && rest[j] == c;
                assert(items[j + 1] == c);
            }
            assert(!chosen.contains(first));
        }
    }
}

/// A predicate that no entry satisfies counts nothing.
pub proof fn lemma_count_none<T>(s: Seq<T>, p: spec_fn(T) -> bool)
    requires
        forall|i: int| 0 <= i < s.len() ==> !p(#[trigger] s[i]),
    ensures
        count_where(s, p) == 0,
{
    if s.filter(p).len() > 0 {
        s.lemma_filter_pred(p, 0);
        let v = s.filter(p)[0];
        assert(s.filter(p).contains(v));
        s.lemma_filter_contains_rev(p, v);
        let i = choose|i: int| 0 <= i < s.len() && s[i] == v;
        assert(!p(s[i]));
    }
}

/// Whatever `k` of the distinct cells a predicate picks, one of the
/// selections of `k` holds exactly those.
pub proof fn lemma_k_subsets_complete(
    items: Seq<(usize, usize)>,
    k: nat,
    p: spec_fn((usize, usize)) -> bool,
) -> (i: int)
    requires
        items.no_duplicates(),
        count_where(items, p) == k,
    ensures
        0 <= i < k_subsets(items, k).len(),
        forall|j: int|
            0 <= j < items.len() ==> k_subsets(items, k)[i].contains(#[trigger] items[j]) == p(
                items[j],
            ),
    decreases items.len(),
{
    if items.len() == 0 {
        lemma_count_push(items, arbitrary(), p);
        assert(items =~= Seq::<(usize, usize)>::empty());
        0
    } else {
        let rest = items.drop_first();
        let first = items[0];
        lemma_count_first(items, p);
        assert(rest.no_duplicates());
        assert(!rest.contains(first)) by {
            if rest.contains(first) {
                let j = choose|j: int| 0 <= j < rest.len() && rest[j] == first;
                assert(items[j + 1] == items[0]);
            }
        }
        if k == 0 {
            let chosen = k_subsets(items, k)[0];
            assert(chosen =~= Seq::<(usize, usize)>::empty());
            assert forall|j: int| 0 <= j < items.len() implies chosen.contains(#[trigger] items[j])
                == p(items[j]) by {
                if p(items[j]) {
                    assert(items.filter(p).len() == 0);
                    items.lemma_filter_contains(p, j);
                }
            }
            0
        } else {
            let with = k_subsets(rest, (k - 1) as nat);
            let without = k_subsets(rest, k);
            if p(first) {
                let q = lemma_k_subsets_complete(rest, (k - 1) as nat, p);
                let inner = with[q];
                let chosen = k_subsets(items, k)[q];
                assert(chosen == seq![first] + inner);
                assert(chosen[0] == first);
                assert forall|j: int| 0 <= j < items.len() implies chosen.contains(
                    #[trigger] items[j],
                ) == p(items[j]) by {
                    if j > 0 {
                        let c = items[j];
                        assert(rest[j - 1] == c);
                        assert(rest.contains(c));
                        if chosen.contains(c) {
                            let r = choose|r: int| 0 <= r < chosen.len() && chosen[r] == c;
                            assert(r > 0);
                            assert(inner[r - 1] == c);
                        }
                        if inner.contains(c) {
                            let r = choose|r: int| 0 <= r < inner.len() && inner[r] == c;
                            assert(chosen[r + 1] == c);
                        }
                    }
                }
                q
            } else {
                let q = lemma_k_subsets_complete(rest, k, p);
                let chosen = k_subsets(items, k)[with.len() + q];
                assert(chosen == without[q]);
                lemma_k_subsets_sound(rest, k, q);
                assert forall|j: int| 0 <= j < items.len() implies chosen.contains(
                    #[trigger] items[j],
                ) == p(items[j]) by {
                    if j > 0 {
                        assert(rest[j - 1] == items[j]);
                    }
                }
                with.len() + q
            }
        }
    }
}

} // verus!

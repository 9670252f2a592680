//! The satisfiability kernel: recursive splitting on one variable at a time,
//! with unit propagation after each choice.

use vstd::prelude::*;
use vstd::std_specs::hash::*;
use std::collections::HashSet;
use crate::sat::assignment::{Assignment, agrees, positive_part, lemma_positive_part_agrees};
use crate::sat::formula::Formula;
use crate::sat::cnf::{
    clause_holds, clause_mentions, Cnf, cnf_holds, cnf_mentions, Literal, Polarity, satisfiable,
    Variable,
};
use crate::sat::reduce::{
    assign, AssignResult, clause_satisfied, clause_touched, extends, lemma_reduce_clause,
    lemma_reduce_holds, lemma_reduce_keeps, lemma_reduce_satisfied, lemma_reduce_shrinks,
    lemma_reduce_twice, lemma_unit_stays, reduce, reduce_clause, touched, unit_of, weight,
};

verus! {

broadcast use group_hash_axioms;

/// The answer of the kernel.
#[derive(Debug, Clone)]
pub enum Model {
    /// The form is satisfiable: every valuation that agrees with the
    /// assignment satisfies it.
    Satisfied(Assignment),
    /// No valuation satisfies the form.
    Unsatisfiable,
}

impl Model {
    /// Whether the answer is that no valuation satisfies the form.
    pub fn is_unsat(&self) -> (b: bool)
        ensures
            b == (self is Unsatisfiable),
    {
        match self {
            Model::Unsatisfiable => true,
            Model::Satisfied(_) => false,
        }
    }
}

/// Every valuation that agrees with the assignment satisfies the form.
pub open spec fn models(a: Map<usize, Polarity>, f: Seq<Seq<Literal>>) -> bool {
    forall|m: Set<usize>| #[trigger] agrees(m, a) ==> cnf_holds(f, m)
}

/// The assignment makes a literal true in every clause of the form.
pub open spec fn satisfies(a: Map<usize, Polarity>, f: Seq<Seq<Literal>>) -> bool {
    forall|i: int| 0 <= i < f.len() ==> clause_satisfied(#[trigger] f[i], a)
}

/// The form `f` is equivalent to the assignment `a` together with the form
/// `g`: a valuation satisfies `f` exactly when it agrees with `a` and
/// satisfies `g`.
pub open spec fn splits_into(f: Seq<Seq<Literal>>, a: Map<usize, Polarity>,
    g: Seq<Seq<Literal>>) -> bool {
    forall|m: Set<usize>| #[trigger] cnf_holds(f, m) <==> agrees(m, a) && cnf_holds(g, m)
}

/// The form `g` mentions only variables of `f` that `a` leaves open, and `a`
/// assigns only variables of `f`.
pub open spec fn shares_variables(f: Seq<Seq<Literal>>, a: Map<usize, Polarity>,
    g: Seq<Seq<Literal>>) -> bool {
    &&& forall|v: usize| #[trigger] cnf_mentions(g, v) ==> cnf_mentions(f, v) && !a.contains_key(v)
    &&& forall|v: usize| #[trigger] a.contains_key(v) ==> cnf_mentions(f, v)
}

/// What unit propagation found.
pub enum UnitPropagationResult {
    /// The form cannot be satisfied.
    Unsatisfiable,
    /// The form is equivalent to the assignment together with the form that
    /// is left, which holds no empty and no unit clause.
    Continue(Cnf, Assignment),
}

/// Every variable that `a` assigns is assigned by `b` or is the variable of
/// a unit clause of `f`, with the polarity of that clause.
pub open spec fn forced_by(a: Map<usize, Polarity>, b: Map<usize, Polarity>,
    f: Seq<Seq<Literal>>) -> bool {
    forall|v: usize| #[trigger]
        a.contains_key(v) ==> b.contains_key(v) || exists|i: int|
            0 <= i < f.len() && #[trigger] f[i] == seq![
                Literal { variable: Variable(v), polarity: a[v] },
            ]
}

proof fn lemma_forced_agrees(
    a: Map<usize, Polarity>,
    b: Map<usize, Polarity>,
    f: Seq<Seq<Literal>>,
    m: Set<usize>,
)
    requires
        extends(a, b),
        forced_by(a, b, f),
        agrees(m, b),
        cnf_holds(f, m),
    ensures
        agrees(m, a),
{
    assert forall|v: usize| #[trigger] a.contains_key(v) implies m.contains(v) == a[v].truth() by {
        if b.contains_key(v) {
        } else {
            let i = choose|i: int|
                0 <= i < f.len() && #[trigger] f[i] == seq![
                    Literal { variable: Variable(v), polarity: a[v] },
                ];
            assert(clause_holds(f[i], m));
            let j = choose|j: int| 0 <= j < f[i].len() && (#[trigger] f[i][j]).holds(m);
            assert(f[i][j] == Literal { variable: Variable(v), polarity: a[v] });
        }
    }
}

proof fn lemma_forced_grows(
    a: Map<usize, Polarity>,
    b: Map<usize, Polarity>,
    front: Seq<Seq<Literal>>,
    c: Seq<Literal>,
)
    requires
        forced_by(a, b, front),
    ensures
        forced_by(a, b, front.push(c)),
        c.len() == 1 ==> forced_by(
            a.insert(c[0].variable.0, c[0].polarity),
            b,
            front.push(c),
        ) || a.contains_key(c[0].variable.0),
{
    let g = front.push(c);
    assert forall|v: usize| #[trigger] a.contains_key(v) implies b.contains_key(v) || exists|i: int|
        0 <= i < g.len() && #[trigger] g[i] == seq![
            Literal { variable: Variable(v), polarity: a[v] },
        ] by {
        if !b.contains_key(v) {
            let i = choose|i: int|
                0 <= i < front.len() && #[trigger] front[i] == seq![
                    Literal { variable: Variable(v), polarity: a[v] },
                ];
            assert(g[i] == front[i]);
        }
    }
    if c.len() == 1 && !a.contains_key(c[0].variable.0) {
        let a2 = a.insert(c[0].variable.0, c[0].polarity);
        assert forall|v: usize| #[trigger] a2.contains_key(v) implies b.contains_key(v)
            || exists|i: int|
            0 <= i < g.len() && #[trigger] g[i] == seq![
                Literal { variable: Variable(v), polarity: a2[v] },
            ] by {
            if v == c[0].variable.0 {
                assert(g[front.len() as int] =~= seq![
                    Literal { variable: Variable(v), polarity: a2[v] },
                ]);
            } else if !b.contains_key(v) {
                assert(a.contains_key(v));
                let i = choose|i: int|
                    0 <= i < g.len() && #[trigger] g[i] == seq![
                        Literal { variable: Variable(v), polarity: a[v] },
                    ];
                assert(g[i] == seq![Literal { variable: Variable(v), polarity: a2[v] }]);
            }
        }
    }
}

/// A form with an empty clause holds under no valuation.
proof fn lemma_empty_clause(f: Seq<Seq<Literal>>, i: int)
    requires
        0 <= i < f.len(),
        f[i].len() == 0,
    ensures
        forall|m: Set<usize>| !cnf_holds(f, m),
{
    assert forall|m: Set<usize>| !cnf_holds(f, m) by {
        if cnf_holds(f, m) {
            assert(clause_holds(f[i], m));
        }
    }
}

/// What one scan for unit clauses found.
enum Scan {
    /// An empty clause, or two unit clauses that contradict each other.
    Conflict,
    /// Every unit clause is now in the assignment.
    Collected,
}

/// Adds the literal of every unit clause of `cnf` to `implied`. Reports a
/// conflict where a clause is empty or a unit clause contradicts what is
/// assigned.
fn collect_units(cnf: &Cnf, implied: &mut Assignment) -> (r: (Scan, Ghost<Seq<usize>>))
    requires
        old(implied).wf(),
        forall|v: usize| #[trigger] old(implied)@.contains_key(v) ==> !cnf_mentions(cnf@, v),
    ensures
        final(implied).wf(),
        r.0 is Conflict ==> clashes(cnf@),
        extends(final(implied)@, old(implied)@),
        r.0 is Collected ==> forced_by(final(implied)@, old(implied)@, cnf@),
        r.0 is Collected ==> forall|v: usize| #[trigger]
            final(implied)@.contains_key(v) ==> old(implied)@.contains_key(v) || cnf_mentions(
                cnf@,
                v,
            ),
        r.0 is Conflict ==> forall|m: Set<usize>| agrees(m, old(implied)@) ==> !cnf_holds(cnf@, m),
        r.0 is Collected ==> forall|i: int|
            0 <= i < cnf@.len() ==> (#[trigger] cnf@[i]).len() >= 1 && (cnf@[i].len() == 1
                ==> final(implied)@.contains_key(cnf@[i][0].variable.0)),
        added_to(old(implied)@, r.1@, final(implied)@),
{
    let ghost known = implied@;
    let ghost mut added: Seq<usize> = Seq::empty();
    let mut i: usize = 0;
    proof {
        assert(cnf@.take(0) =~= Seq::<Seq<Literal>>::empty());
    }
    while i < cnf.0.len()
        invariant
            known == old(implied)@,
            forall|v: usize| #[trigger] known.contains_key(v) ==> !cnf_mentions(cnf@, v),
            i <= cnf.0.len(),
            implied.wf(),
            added_to(known, added, implied@),
            extends(implied@, known),
            forced_by(implied@, known, cnf@.take(i as int)),
            forall|v: usize| #[trigger]
                implied@.contains_key(v) ==> known.contains_key(v) || cnf_mentions(cnf@, v),
            forall|k: int|
                0 <= k < i ==> (#[trigger] cnf@[k]).len() >= 1 && (cnf@[k].len() == 1
                    ==> implied@.contains_key(cnf@[k][0].variable.0)),
        decreases cnf.0.len() - i,
    {
        let clause = &cnf.0[i];
        let ghost front = cnf@.take(i as int);
        let ghost c = cnf@[i as int];
        let ghost before = implied@;
        proof {
            assert(cnf@.take(i + 1) =~= front.push(c));
            lemma_forced_grows(before, known, front, c);
        }
        if clause.0.len() == 0 {
            proof {
                lemma_empty_clause(cnf@, i as int);
            }
            return (Scan::Conflict, Ghost(added));
        }
        if clause.0.len() == 1 {
            let literal = clause.0[0];
            match implied.get(literal.variable) {
                Some(p) => {
                    if p != literal.polarity {
                        proof {
                            let v = literal.variable.0;
                            assert(c[0] == literal);
                            assert(c =~= seq![literal]);
                            assert(clause_mentions(cnf@[i as int], v));
                            assert(cnf_mentions(cnf@, v));
                            assert(!known.contains_key(v));
                            let k = choose|k: int|
                                0 <= k < front.len() && #[trigger] front[k] == seq![
                                    Literal { variable: Variable(v), polarity: before[v] },
                                ];
                            assert(cnf@[k] == front[k]);
                            assert(unit_of(cnf@, Literal { variable: Variable(v), polarity: p }));
                            assert(unit_of(cnf@, literal));
                            assert forall|m: Set<usize>| agrees(m, known) implies !cnf_holds(
                                cnf@,
                                m,
                            ) by {
                                if cnf_holds(cnf@, m) {
                                    assert forall|k: int| 0 <= k < front.len() implies clause_holds(
                                        #[trigger] front[k],
                                        m,
                                    ) by {
                                        assert(front[k] == cnf@[k]);
                                    }
                                    lemma_forced_agrees(before, known, front, m);
                                    assert(before.contains_key(literal.variable.0));
                                    assert(clause_holds(cnf@[i as int], m));
                                    let j = choose|j: int|
                                        0 <= j < c.len() && (#[trigger] c[j]).holds(m);
                                    assert(c[j] == literal);
                                }
                            }
                        }
                        return (Scan::Conflict, Ghost(added));
                    }
                },
                None => {
                    implied.insert(literal.variable, literal.polarity);
                    proof {
                        let earlier = added;
                        added = added.push(literal.variable.0);
                        assert(added[earlier.len() as int] == literal.variable.0);
                        assert forall|k: int| 0 <= k < added.len() implies !known.contains_key(
                            #[trigger] added[k],
                        ) && implied@.contains_key(added[k]) by {
                            if k < earlier.len() {
                                assert(added[k] == earlier[k]);
                            }
                        }
                        assert forall|v: usize| #[trigger]
                            implied@.contains_key(v) implies known.contains_key(v)
                            || added.contains(v) by {
                            if v != literal.variable.0 && !known.contains_key(v) {
                                let k = choose|k: int| 0 <= k < earlier.len() && earlier[k] == v;
                                assert(added[k] == v);
                            }
                        }
                        assert forall|a: int, b: int|
                            0 <= a < added.len() && 0 <= b < added.len() && a != b implies added[a]
                            != added[b] by {
                            if a < earlier.len() {
                                assert(added[a] == earlier[a]);
                                assert(before.contains_key(earlier[a]));
                            }
                            if b < earlier.len() {
                                assert(added[b] == earlier[b]);
                                assert(before.contains_key(earlier[b]));
                            }
                        }
                        assert(c[0] == literal);
                        assert(clause_mentions(cnf@[i as int], literal.variable.0));
                        assert(cnf_mentions(cnf@, literal.variable.0));
                    }
                },
            }
        }
        i += 1;
    }
    assert(cnf@.take(i as int) =~= cnf@);
    (Scan::Collected, Ghost(added))
}

/// The keys of `after` are those of `before` and the variables of `added`,
/// which are distinct and none of them a key of `before`.
pub open spec fn added_to(
    before: Map<usize, Polarity>,
    added: Seq<usize>,
    after: Map<usize, Polarity>,
) -> bool {
    &&& added.no_duplicates()
    &&& forall|k: int|
        0 <= k < added.len() ==> !before.contains_key(#[trigger] added[k]) && after.contains_key(
            added[k],
        )
    &&& forall|v: usize| #[trigger]
        after.contains_key(v) ==> before.contains_key(v) || added.contains(v)
}

/// What the assignment gives to the first `n` variables of the list.
pub open spec fn prefix_of(a: Map<usize, Polarity>, order: Seq<usize>, n: int) -> Map<
    usize,
    Polarity,
> {
    Map::new(
        |v: usize| exists|k: int| 0 <= k < n && k < order.len() && #[trigger] order[k] == v,
        |v: usize| a[v],
    )
}

/// The assignment holds the units that the form forces, and no more: its
/// keys are the variables of `order`, each once, and each with its polarity
/// is a unit clause of the form reduced by the keys before it.
pub open spec fn propagated(f: Seq<Seq<Literal>>, a: Map<usize, Polarity>, order: Seq<usize>) -> bool {
    &&& order.no_duplicates()
    &&& forall|v: usize| #[trigger] a.contains_key(v) <==> order.contains(v)
    &&& forall|i: int|
        0 <= i < order.len() ==> unit_of(
            reduce(f, prefix_of(a, order, i)),
            Literal { variable: Variable(#[trigger] order[i]), polarity: a[order[i]] },
        )
}

/// The form holds an empty clause, or two unit clauses that contradict each
/// other.
pub open spec fn clashes(f: Seq<Seq<Literal>>) -> bool {
    ||| exists|i: int| 0 <= i < f.len() && (#[trigger] f[i]).len() == 0
    ||| exists|l: Literal, m: Literal|
        #[trigger] unit_of(f, l) && #[trigger] unit_of(f, m) && l.variable == m.variable
            && l.polarity != m.polarity
}

/// Propagation of units runs into a clash: some units that the form forces
/// reduce it to a form that clashes.
pub open spec fn refuted_by_units(f: Seq<Seq<Literal>>) -> bool {
    exists|a: Map<usize, Polarity>, order: Seq<usize>| #[trigger]
        propagated(f, a, order) && clashes(reduce(f, a))
}

/// Every clause of the form reduced by the assignment has two literals or
/// more.
pub open spec fn settled(f: Seq<Seq<Literal>>, b: Map<usize, Polarity>) -> bool {
    forall|k: int| 0 <= k < reduce(f, b).len() ==> (#[trigger] reduce(f, b)[k]).len() >= 2
}

/// An assignment that leaves no unit clause makes true every unit that a
/// part of it forces.
proof fn lemma_unit_true(
    f: Seq<Seq<Literal>>,
    p: Map<usize, Polarity>,
    b: Map<usize, Polarity>,
    l: Literal,
)
    requires
        extends(b, p),
        settled(f, b),
        unit_of(reduce(f, p), l),
    ensures
        b.contains_key(l.variable.0),
        b[l.variable.0] == l.polarity,
{
    let g = reduce(f, p);
    let k = choose|k: int| 0 <= k < g.len() && #[trigger] g[k] == seq![l];
    lemma_reduce_twice(f, p, b);
    assert(g[k][0] == l);
    if !clause_satisfied(g[k], b) {
        lemma_reduce_keeps(g, b, k);
        lemma_reduce_clause(g[k], b);
        let j = choose|j: int|
            0 <= j < reduce(g, b).len() && #[trigger] reduce(g, b)[j] == reduce_clause(g[k], b);
        assert(reduce(f, b)[j].len() >= 2);
    }
}

/// An assignment that leaves no unit clause holds the first `n` of the
/// units that the form forces in their order.
proof fn lemma_units_within(
    f: Seq<Seq<Literal>>,
    a: Map<usize, Polarity>,
    order: Seq<usize>,
    b: Map<usize, Polarity>,
    n: int,
)
    requires
        propagated(f, a, order),
        settled(f, b),
        0 <= n <= order.len(),
    ensures
        extends(b, prefix_of(a, order, n)),
    decreases n,
{
    let p = prefix_of(a, order, n);
    if n > 0 {
        let q = prefix_of(a, order, n - 1);
        let v = order[n - 1];
        lemma_units_within(f, a, order, b, n - 1);
        lemma_unit_true(f, q, b, Literal { variable: Variable(v), polarity: a[v] });
        assert forall|w: usize| #[trigger] p.contains_key(w) implies b.contains_key(w) && b[w]
            == p[w] by {
            let k = choose|k: int| 0 <= k < n && k < order.len() && #[trigger] order[k] == w;
            if k < n - 1 {
                assert(q.contains_key(w));
            }
        }
    }
}

/// Where an assignment leaves no unit clause, no propagation of units runs
/// into a clash.
proof fn lemma_no_clash(f: Seq<Seq<Literal>>, b: Map<usize, Polarity>)
    requires
        settled(f, b),
    ensures
        !refuted_by_units(f),
{
    if refuted_by_units(f) {
        let (a, order) = choose|a: Map<usize, Polarity>, order: Seq<usize>| #[trigger]
            propagated(f, a, order) && clashes(reduce(f, a));
        let p = prefix_of(a, order, order.len() as int);
        lemma_units_within(f, a, order, b, order.len() as int);
        assert forall|w: usize| #[trigger] a.contains_key(w) implies b.contains_key(w) && b[w]
            == a[w] by {
            let k = choose|k: int| 0 <= k < order.len() && order[k] == w;
            assert(p.contains_key(w));
        }
        let g = reduce(f, a);
        lemma_reduce_twice(f, a, b);
        if exists|i: int| 0 <= i < g.len() && (#[trigger] g[i]).len() == 0 {
            let i = choose|i: int| 0 <= i < g.len() && (#[trigger] g[i]).len() == 0;
            lemma_reduce_keeps(g, b, i);
            lemma_reduce_clause(g[i], b);
            let j = choose|j: int|
                0 <= j < reduce(g, b).len() && #[trigger] reduce(g, b)[j] == reduce_clause(g[i], b);
            assert(reduce(f, b)[j].len() >= 2);
        } else {
            let (l, m) = choose|l: Literal, m: Literal|
                #[trigger] unit_of(g, l) && #[trigger] unit_of(g, m) && l.variable == m.variable
                    && l.polarity != m.polarity;
            lemma_unit_true(f, a, b, l);
            lemma_unit_true(f, a, b, m);
        }
    }
}

/// One round of propagation adds forced units alone, and reducing what was
/// left by all units is reducing the first form by them.
proof fn lemma_round_forced(
    f0: Seq<Seq<Literal>>,
    known: Map<usize, Polarity>,
    order: Seq<usize>,
    f: Seq<Seq<Literal>>,
    implied: Map<usize, Polarity>,
    added: Seq<usize>,
)
    requires
        propagated(f0, known, order),
        f == reduce(f0, known),
        extends(implied, known),
        forced_by(implied, known, f),
        added_to(known, added, implied),
    ensures
        propagated(f0, implied, order + added),
        reduce(f, implied) == reduce(f0, implied),
{
    let all = order + added;
    lemma_reduce_twice(f0, known, implied);
    assert forall|a: int, b: int| 0 <= a < all.len() && 0 <= b < all.len() && a != b implies all[a]
        != all[b] by {
        if a < order.len() {
            assert(order.contains(order[a]));
        }
        if b < order.len() {
            assert(order.contains(order[b]));
        }
    }
    assert forall|v: usize| #[trigger] implied.contains_key(v) <==> all.contains(v) by {
        if implied.contains_key(v) {
            if known.contains_key(v) {
                let k = choose|k: int| 0 <= k < order.len() && order[k] == v;
                assert(all[k] == v);
            } else {
                let k = choose|k: int| 0 <= k < added.len() && added[k] == v;
                assert(all[order.len() + k] == v);
            }
        }
        if all.contains(v) {
            let k = choose|k: int| 0 <= k < all.len() && all[k] == v;
            if k < order.len() {
                assert(order.contains(order[k]));
                assert(known.contains_key(v));
            } else {
                assert(all[k] == added[k - order.len()]);
            }
        }
    }
    assert forall|i: int| 0 <= i < all.len() implies unit_of(
        reduce(f0, prefix_of(implied, all, i)),
        Literal { variable: Variable(#[trigger] all[i]), polarity: implied[all[i]] },
    ) by {
        let v = all[i];
        let p = prefix_of(implied, all, i);
        if i < order.len() {
            assert(order.contains(order[i]));
            assert(known.contains_key(order[i]));
            assert(implied[v] == known[v]);
            let q = prefix_of(known, order, i);
            assert forall|w: usize| p.contains_key(w) <==> q.contains_key(w) by {
                if p.contains_key(w) {
                    let k = choose|k: int| 0 <= k < i && k < all.len() && #[trigger] all[k] == w;
                    assert(order[k] == w);
                }
                if q.contains_key(w) {
                    let k = choose|k: int| 0 <= k < i && k < order.len() && #[trigger] order[k] == w;
                    assert(all[k] == w);
                }
            }
            assert forall|w: usize| p.contains_key(w) implies p[w] == q[w] by {
                let k = choose|k: int| 0 <= k < i && k < all.len() && #[trigger] all[k] == w;
                assert(order.contains(order[k]));
                assert(known.contains_key(w));
            }
            assert(p =~= q);
        } else {
            let l = Literal { variable: Variable(v), polarity: implied[v] };
            assert(added[i - order.len()] == v);
            assert(!known.contains_key(v));
            let j = choose|j: int| 0 <= j < f.len() && #[trigger] f[j] == seq![l];
            assert(unit_of(reduce(f0, known), l));
            assert forall|w: usize| #[trigger] known.contains_key(w) implies p.contains_key(w)
                && p[w] == known[w] by {
                let k = choose|k: int| 0 <= k < order.len() && order[k] == w;
                assert(all[k] == w);
            }
            assert(!p.contains_key(v)) by {
                if p.contains_key(v) {
                    let k = choose|k: int| 0 <= k < i && k < all.len() && #[trigger] all[k] == v;
                }
            }
            lemma_unit_stays(f0, known, p, l);
        }
    }
}

/// One round of propagation keeps the equivalence with the first form.
proof fn lemma_round(
    f0: Seq<Seq<Literal>>,
    known: Map<usize, Polarity>,
    f: Seq<Seq<Literal>>,
    implied: Map<usize, Polarity>,
)
    requires
        splits_into(f0, known, f),
        shares_variables(f0, known, f),
        extends(implied, known),
        forced_by(implied, known, f),
        forall|v: usize| #[trigger]
            implied.contains_key(v) ==> known.contains_key(v) || cnf_mentions(f, v),
    ensures
        splits_into(f0, implied, reduce(f, implied)),
        shares_variables(f0, implied, reduce(f, implied)),
{
    let g = reduce(f, implied);
    lemma_reduce_shrinks(f, implied);
    assert forall|v: usize| #[trigger] cnf_mentions(g, v) implies cnf_mentions(f0, v)
        && !implied.contains_key(v) by {
        assert(cnf_mentions(f, v));
    }
    assert forall|v: usize| #[trigger] implied.contains_key(v) implies cnf_mentions(f0, v) by {
        if !known.contains_key(v) {
            assert(cnf_mentions(f, v));
        }
    }
    assert forall|m: Set<usize>| #[trigger] cnf_holds(f0, m) <==> agrees(m, implied) && cnf_holds(
        g,
        m,
    ) by {
        if cnf_holds(f0, m) {
            assert(agrees(m, known) && cnf_holds(f, m));
            lemma_forced_agrees(implied, known, f, m);
            lemma_reduce_holds(f, implied, m);
        }
        if agrees(m, implied) && cnf_holds(g, m) {
            lemma_reduce_holds(f, implied, m);
            assert(agrees(m, known));
        }
    }
}

/// A conflict in a round of propagation shows that the first form cannot be
/// satisfied.
proof fn lemma_conflict(f0: Seq<Seq<Literal>>, known: Map<usize, Polarity>, f: Seq<Seq<Literal>>)
    requires
        splits_into(f0, known, f),
        forall|m: Set<usize>| agrees(m, known) ==> !cnf_holds(f, m),
    ensures
        !satisfiable(f0),
{
    if satisfiable(f0) {
        let m = choose|m: Set<usize>| cnf_holds(f0, m);
        assert(agrees(m, known) && cnf_holds(f, m));
    }
}

/// Repeats until nothing changes: every unit clause forces its literal; the
/// forced literals are applied to the form. Stops with `Unsatisfiable` at an
/// empty clause or at two unit clauses that contradict each other, and so
/// exactly where propagation runs into a clash, in whatever order it goes.
pub(crate) fn unit_propagation(cnf: Cnf) -> (r: UnitPropagationResult)
    ensures
        r is Unsatisfiable <==> refuted_by_units(cnf@),
        match r {
            UnitPropagationResult::Unsatisfiable => !satisfiable(cnf@),
            UnitPropagationResult::Continue(rest, implied) => {
                &&& implied.wf()
                &&& rest@ == reduce(cnf@, implied@)
                &&& exists|order: Seq<usize>| #[trigger] propagated(cnf@, implied@, order)
                &&& forall|i: int| 0 <= i < rest@.len() ==> (#[trigger] rest@[i]).len() >= 2
                &&& splits_into(cnf@, implied@, rest@)
                &&& shares_variables(cnf@, implied@, rest@)
            },
        },
{
    let ghost first = cnf@;
    let mut current = cnf;
    let mut implied = Assignment::new();
    let ghost mut order: Seq<usize> = Seq::empty();
    proof {
        assert forall|m: Set<usize>| #[trigger] cnf_holds(first, m) <==> agrees(m, implied@)
            && cnf_holds(current@, m) by {}
        lemma_reduce_shrinks(first, implied@);
        assert(!touched(first, implied@)) by {
            if touched(first, implied@) {
                let i = choose|i: int|
                    0 <= i < first.len() && clause_touched(#[trigger] first[i], implied@);
                let j = choose|j: int|
                    0 <= j < first[i].len() && implied@.contains_key(
                        (#[trigger] first[i][j]).variable.0,
                    );
            }
        }
    }
    loop
        invariant
            first == cnf@,
            implied.wf(),
            current@ == reduce(first, implied@),
            propagated(first, implied@, order),
            splits_into(first, implied@, current@),
            shares_variables(first, implied@, current@),
        decreases weight(current@),
    {
        let ghost known = implied@;
        proof {
            lemma_reduce_shrinks(first, known);
        }
        let (scan, Ghost(added)) = collect_units(&current, &mut implied);
        match scan {
            Scan::Conflict => {
                proof {
                    lemma_conflict(first, known, current@);
                    assert(propagated(first, known, order) && clashes(reduce(first, known)));
                }
                return UnitPropagationResult::Unsatisfiable;
            },
            Scan::Collected => {},
        }
        proof {
            lemma_round(first, known, current@, implied@);
            lemma_reduce_shrinks(current@, implied@);
            lemma_round_forced(first, known, order, current@, implied@, added);
            order = order + added;
        }
        match assign(&current, &implied) {
            AssignResult::Reduced(next) => {
                current = next;
            },
            AssignResult::Unchanged(next) => {
                proof {
                    assert forall|i: int| 0 <= i < next@.len() implies (#[trigger] next@[i]).len()
                        >= 2 by {
                        if current@[i].len() == 1 {
                            assert(implied@.contains_key(current@[i][0].variable.0));
                            assert(clause_touched(current@[i], implied@));
                            assert(touched(current@, implied@));
                        }
                    }
                    lemma_no_clash(first, implied@);
                }
                return UnitPropagationResult::Continue(next, implied);
            },
        }
    }
}

/// The assignment of one polarity to one variable touches a form exactly
/// when the form mentions the variable.
proof fn lemma_touched_by_one(f: Seq<Seq<Literal>>, v: usize, p: Polarity)
    ensures
        touched(f, Map::<usize, Polarity>::empty().insert(v, p)) == cnf_mentions(f, v),
{
    let a = Map::<usize, Polarity>::empty().insert(v, p);
    if touched(f, a) {
        let i = choose|i: int| 0 <= i < f.len() && clause_touched(#[trigger] f[i], a);
        let j = choose|j: int| 0 <= j < f[i].len() && a.contains_key((#[trigger] f[i][j]).variable.0);
        assert(f[i][j].variable.0 == v);
        assert(clause_mentions(f[i], v));
    }
    if cnf_mentions(f, v) {
        let i = choose|i: int| 0 <= i < f.len() && clause_mentions(#[trigger] f[i], v);
        let j = choose|j: int| 0 <= j < f[i].len() && (#[trigger] f[i][j]).variable.0 == v;
        assert(a.contains_key(f[i][j].variable.0));
        assert(clause_touched(f[i], a));
    }
}

/// The variables of the list that the assignment leaves open.
fn remove_assigned(variables: &Vec<usize>, implied: &Assignment) -> (rest: Vec<usize>)
    ensures
        rest.len() <= variables.len(),
        forall|v: usize|
            variables@.contains(v) && !implied@.contains_key(v) ==> #[trigger] rest@.contains(v),
{
    let mut rest: Vec<usize> = Vec::new();
    let mut i: usize = 0;
    while i < variables.len()
        invariant
            i <= variables.len(),
            rest.len() <= i,
            forall|k: int|
                0 <= k < i && !implied@.contains_key(#[trigger] variables@[k]) ==> rest@.contains(
                    variables@[k],
                ),
        decreases variables.len() - i,
    {
        let v = variables[i];
        let ghost before = rest@;
        if implied.get(Variable(v)).is_none() {
            rest.push(v);
            proof {
                assert(rest@[before.len() as int] == v);
                assert forall|k: int|
                    0 <= k < i && !implied@.contains_key(
                        #[trigger] variables@[k],
                    ) implies rest@.contains(variables@[k]) by {
                    let j = choose|j: int| 0 <= j < before.len() && before[j] == variables@[k];
                    assert(rest@[j] == variables@[k]);
                }
            }
        }
        i += 1;
    }
    assert forall|v: usize|
        variables@.contains(v) && !implied@.contains_key(v) implies #[trigger] rest@.contains(v) by {
        let k = choose|k: int| 0 <= k < variables@.len() && variables@[k] == v;
        assert(rest@.contains(variables@[k]));
    }
    rest
}

/// What became of the attempt to give a variable one polarity.
enum Branch {
    /// The form does not mention the variable.
    Untouched,
    /// No valuation that gives the variable this polarity satisfies the form.
    Failed,
    /// Every valuation that agrees with the assignment satisfies the form.
    Found(Assignment),
}

/// The models of what is left after a choice and its propagation, together
/// with the choice and with what was propagated, are models of the form.
proof fn lemma_branch_found(
    f: Seq<Seq<Literal>>,
    victim: usize,
    polarity: Polarity,
    reduced: Seq<Seq<Literal>>,
    implied: Map<usize, Polarity>,
    rest: Seq<Seq<Literal>>,
    found: Map<usize, Polarity>,
)
    requires
        cnf_mentions(f, victim),
        reduced == reduce(f, Map::<usize, Polarity>::empty().insert(victim, polarity)),
        splits_into(reduced, implied, rest),
        shares_variables(reduced, implied, rest),
        models(found, rest),
        rest == reduce(reduced, implied),
        satisfies(found, rest),
        forall|v: usize| #[trigger] found.contains_key(v) ==> cnf_mentions(rest, v),
    ensures
        models(found.insert(victim, polarity).union_prefer_right(implied), f),
        satisfies(found.insert(victim, polarity).union_prefer_right(implied), f),
        forall|v: usize| #[trigger]
            found.insert(victim, polarity).union_prefer_right(implied).contains_key(v)
                ==> cnf_mentions(f, v),
{
    let single = Map::<usize, Polarity>::empty().insert(victim, polarity);
    let all = found.insert(victim, polarity).union_prefer_right(implied);
    lemma_reduce_shrinks(f, single);
    assert(single.contains_key(victim));
    assert(!implied.contains_key(victim)) by {
        if implied.contains_key(victim) {
            assert(cnf_mentions(reduced, victim));
        }
    }
    assert forall|v: usize| #[trigger] found.contains_key(v) implies all.contains_key(v) && all[v]
        == found[v] by {
        assert(cnf_mentions(rest, v));
        assert(cnf_mentions(reduced, v) && !implied.contains_key(v));
        assert(!single.contains_key(v));
    }
    assert forall|v: usize| #[trigger] single.contains_key(v) implies all.contains_key(v) && all[v]
        == single[v] by {}
    assert forall|v: usize| #[trigger] implied.contains_key(v) implies all.contains_key(v)
        && all[v] == implied[v] by {}
    lemma_reduce_satisfied(reduced, implied, found, all);
    lemma_reduce_satisfied(f, single, all, all);
    assert forall|v: usize| #[trigger] all.contains_key(v) implies cnf_mentions(f, v) by {
        if implied.contains_key(v) {
            assert(cnf_mentions(reduced, v));
        } else if v != victim {
            assert(found.contains_key(v));
            assert(cnf_mentions(rest, v));
            assert(cnf_mentions(reduced, v));
        }
    }
    assert forall|m: Set<usize>| #[trigger] agrees(m, all) implies cnf_holds(f, m) by {
        assert forall|v: usize| #[trigger] implied.contains_key(v) implies m.contains(v)
            == implied[v].truth() by {
            assert(all.contains_key(v));
        }
        assert forall|v: usize| #[trigger] found.contains_key(v) implies m.contains(v)
            == found[v].truth() by {
            assert(cnf_mentions(rest, v));
            assert(cnf_mentions(reduced, v) && !implied.contains_key(v));
            assert(!single.contains_key(v));
            assert(all.contains_key(v));
        }
        assert(agrees(m, single)) by {
            assert(!implied.contains_key(victim)) by {
                if implied.contains_key(victim) {
                    assert(cnf_mentions(reduced, victim));
                }
            }
            assert(all.contains_key(victim));
        }
        assert(agrees(m, found));
        assert(cnf_holds(rest, m));
        assert(cnf_holds(reduced, m));
        lemma_reduce_holds(f, single, m);
    }
}

/// Where what is left after a choice cannot be satisfied, no valuation that
/// makes the choice satisfies the form.
proof fn lemma_branch_failed(
    f: Seq<Seq<Literal>>,
    victim: usize,
    polarity: Polarity,
    reduced: Seq<Seq<Literal>>,
)
    requires
        reduced == reduce(f, Map::<usize, Polarity>::empty().insert(victim, polarity)),
        !satisfiable(reduced),
    ensures
        forall|m: Set<usize>| m.contains(victim) == polarity.truth() ==> !cnf_holds(f, m),
{
    let single = Map::<usize, Polarity>::empty().insert(victim, polarity);
    assert forall|m: Set<usize>| m.contains(victim) == polarity.truth() implies !cnf_holds(
        f,
        m,
    ) by {
        assert(agrees(m, single));
        lemma_reduce_holds(f, single, m);
    }
}

/// Gives `victim` the polarity, propagates, and solves what is left.
fn branch(cnf: &Cnf, victim: usize, polarity: Polarity, variables: &Vec<usize>) -> (r: Branch)
    requires
        forall|v: usize| #[trigger] cnf_mentions(cnf@, v) ==> v == victim || variables@.contains(v),
    ensures
        match r {
            Branch::Untouched => !cnf_mentions(cnf@, victim),
            Branch::Failed => cnf_mentions(cnf@, victim) && forall|m: Set<usize>|
                m.contains(victim) == polarity.truth() ==> !cnf_holds(cnf@, m),
            Branch::Found(a) => {
                &&& a.wf()
                &&& models(a@, cnf@)
                &&& satisfies(a@, cnf@)
                &&& forall|v: usize| #[trigger] a@.contains_key(v) ==> cnf_mentions(cnf@, v)
            },
        },
    decreases variables.len(), 1int,
{
    let mut single = Assignment::new();
    single.insert(Variable(victim), polarity);
    proof {
        lemma_touched_by_one(cnf@, victim, polarity);
        lemma_reduce_shrinks(cnf@, single@);
    }
    match assign(cnf, &single) {
        AssignResult::Unchanged(_) => Branch::Untouched,
        AssignResult::Reduced(reduced) => {
            let ghost reduced_view = reduced@;
            match unit_propagation(reduced) {
                UnitPropagationResult::Unsatisfiable => {
                    proof {
                        lemma_branch_failed(cnf@, victim, polarity, reduced_view);
                    }
                    Branch::Failed
                },
                UnitPropagationResult::Continue(rest, implied) => {
                    let remaining = remove_assigned(variables, &implied);
                    proof {
                        assert forall|v: usize| #[trigger]
                            cnf_mentions(rest@, v) implies remaining@.contains(v) by {
                            assert(cnf_mentions(reduced_view, v) && !implied@.contains_key(v));
                            assert(cnf_mentions(cnf@, v) && !single@.contains_key(v));
                            assert(v != victim);
                        }
                    }
                    let ghost rest_view = rest@;
                    match solve_rec(rest, remaining) {
                        Model::Satisfied(found) => {
                            let mut found = found;
                            let ghost inner = found@;
                            found.insert(Variable(victim), polarity);
                            found.extend(&implied);
                            proof {
                                lemma_branch_found(
                                    cnf@,
                                    victim,
                                    polarity,
                                    reduced_view,
                                    implied@,
                                    rest_view,
                                    inner,
                                );
                            }
                            Branch::Found(found)
                        },
                        Model::Unsatisfiable => {
                            proof {
                                if satisfiable(reduced_view) {
                                    let m = choose|m: Set<usize>| cnf_holds(reduced_view, m);
                                    assert(cnf_holds(rest_view, m));
                                }
                                lemma_branch_failed(cnf@, victim, polarity, reduced_view);
                            }
                            Branch::Failed
                        },
                    }
                },
            }
        },
    }
}

/// Solves the form by splitting on the variables of the list, the last
/// first. A variable that the form no longer mentions is passed over.
pub(crate) fn solve_rec(cnf: Cnf, variables: Vec<usize>) -> (r: Model)
    requires
        forall|v: usize| #[trigger] cnf_mentions(cnf@, v) ==> variables@.contains(v),
    ensures
        match r {
            Model::Unsatisfiable => !satisfiable(cnf@),
            Model::Satisfied(a) => {
                &&& a.wf()
                &&& models(a@, cnf@)
                &&& satisfies(a@, cnf@)
                &&& forall|v: usize| #[trigger] a@.contains_key(v) ==> cnf_mentions(cnf@, v)
            },
        },
    decreases variables.len(), 0int,
{
    if cnf.0.len() == 0 {
        return Model::Satisfied(Assignment::new());
    }
    let mut open = variables;
    while open.len() > 0
        invariant
            cnf.0.len() > 0,
            open@.len() <= variables@.len(),
            forall|v: usize| #[trigger] cnf_mentions(cnf@, v) ==> open@.contains(v),
        decreases open.len(),
    {
        let ghost before = open@;
        let victim = open.pop().unwrap();
        proof {
            assert forall|v: usize| #[trigger] cnf_mentions(cnf@, v) implies v == victim
                || open@.contains(v) by {
                let k = choose|k: int| 0 <= k < before.len() && before[k] == v;
                if k < before.len() - 1 {
                    assert(open@[k] == v);
                }
            }
        }
        match branch(&cnf, victim, Polarity::Positive, &open) {
            Branch::Found(a) => {
                return Model::Satisfied(a);
            },
            Branch::Untouched => {},
            Branch::Failed => {
                match branch(&cnf, victim, Polarity::Negative, &open) {
                    Branch::Found(a) => {
                        return Model::Satisfied(a);
                    },
                    _ => {
                        proof {
                            if satisfiable(cnf@) {
                                let m = choose|m: Set<usize>| cnf_holds(cnf@, m);
                                assert(m.contains(victim) == Polarity::Positive.truth()
                                    || m.contains(victim) == Polarity::Negative.truth());
                            }
                        }
                        return Model::Unsatisfiable;
                    },
                }
            },
        }
    }
    proof {
        // no variable is left, so the first clause is empty
        let c = cnf@[0];
        if c.len() > 0 {
            assert(clause_mentions(c, c[0].variable.0));
            assert(cnf_mentions(cnf@, c[0].variable.0));
            assert(open@.contains(c[0].variable.0));
        }
        lemma_empty_clause(cnf@, 0);
    }
    Model::Unsatisfiable
}

/// The variables of the form, each once, in the order of their first
/// occurrence.
fn collect_variables(cnf: &Cnf) -> (variables: Vec<usize>)
    ensures
        forall|v: usize| #[trigger] cnf_mentions(cnf@, v) ==> variables@.contains(v),
{
    let mut variables: Vec<usize> = Vec::new();
    let mut seen: HashSet<usize> = HashSet::new();
    let mut i: usize = 0;
    while i < cnf.0.len()
        invariant
            i <= cnf.0.len(),
            forall|v: usize| seen@.contains(v) ==> variables@.contains(v),
            forall|k: int, j: int|
                0 <= k < i && 0 <= j < cnf@[k].len() ==> seen@.contains(
                    (#[trigger] cnf@[k][j]).variable.0,
                ),
        decreases cnf.0.len() - i,
    {
        let clause = &cnf.0[i];
        let mut j: usize = 0;
        while j < clause.0.len()
            invariant
                i < cnf.0.len(),
                clause@ == cnf@[i as int],
                j <= clause.0.len(),
                forall|v: usize| seen@.contains(v) ==> variables@.contains(v),
                forall|k: int, l: int|
                    0 <= k < i && 0 <= l < cnf@[k].len() ==> seen@.contains(
                        (#[trigger] cnf@[k][l]).variable.0,
                    ),
                forall|l: int| 0 <= l < j ==> seen@.contains((#[trigger] clause@[l]).variable.0),
            decreases clause.0.len() - j,
        {
            let v = clause.0[j].variable.0;
            let ghost before = variables@;
            if seen.insert(v) {
                variables.push(v);
                proof {
                    assert(variables@[before.len() as int] == v);
                    assert forall|w: usize| seen@.contains(w) implies variables@.contains(w) by {
                        if w != v {
                            let k = choose|k: int| 0 <= k < before.len() && before[k] == w;
                            assert(variables@[k] == w);
                        }
                    }
                }
            }
            j += 1;
        }
        i += 1;
    }
    assert forall|v: usize| #[trigger] cnf_mentions(cnf@, v) implies variables@.contains(v) by {
        let k = choose|k: int| 0 <= k < cnf@.len() && clause_mentions(#[trigger] cnf@[k], v);
        let l = choose|l: int| 0 <= l < cnf@[k].len() && (#[trigger] cnf@[k][l]).variable.0 == v;
        assert(seen@.contains(cnf@[k][l].variable.0));
    }
    variables
}

/// Decides whether the form is satisfiable. The answer is `Unsatisfiable`
/// exactly when no valuation satisfies the form. Otherwise it carries an
/// assignment of variables of the form such that every valuation that agrees
/// with it satisfies the form; for the empty form that assignment is empty.
pub fn solve(cnf: Cnf) -> (r: Model)
    ensures
        r is Unsatisfiable <==> !satisfiable(cnf@),
        match r {
            Model::Unsatisfiable => true,
            Model::Satisfied(a) => {
                &&& a.wf()
                &&& models(a@, cnf@)
                &&& satisfies(a@, cnf@)
                &&& forall|v: usize| #[trigger] a@.contains_key(v) ==> cnf_mentions(cnf@, v)
            },
        },
{
    let variables = collect_variables(&cnf);
    let r = solve_rec(cnf, variables);
    proof {
        if r is Satisfied {
            let a = r->Satisfied_0;
            lemma_positive_part_agrees(a@);
            assert(cnf_holds(cnf@, positive_part(a@)));
        }
    }
    r
}

impl Cnf {
    /// Decides whether the form is satisfiable, as [`solve`] does.
    pub fn solve(&self) -> (r: Model)
        ensures
            r is Unsatisfiable <==> !satisfiable(self@),
            match r {
                Model::Unsatisfiable => true,
                Model::Satisfied(a) => {
                    &&& a.wf()
                    &&& models(a@, self@)
                    &&& satisfies(a@, self@)
                    &&& forall|v: usize| #[trigger] a@.contains_key(v) ==> cnf_mentions(self@, v)
                },
            },
    {
        solve(self.clone())
    }
}

impl Formula {
    /// Decides whether the formula is satisfiable, by way of its conjunctive
    /// normal form. The answer is `Unsatisfiable` exactly when no valuation
    /// makes the formula true; otherwise every valuation that agrees with the
    /// assignment makes it true.
    pub fn solve(&self) -> (r: Model)
        requires
            self.greatest_variable() + 1 + self.fresh_count() <= usize::MAX,
        ensures
            r is Unsatisfiable <==> !self.satisfiable(),
            match r {
                Model::Unsatisfiable => true,
                Model::Satisfied(a) => a.wf() && forall|m: Set<usize>| #[trigger]
                    agrees(m, a@) ==> self.eval(m),
            },
    {
        let cnf = Cnf::from_formula(self);
        let r = solve(cnf);
        proof {
            let base = (self.greatest_variable() + 1) as usize;
            self.lemma_tseitin_equisatisfiable(base);
            if r is Satisfied {
                let a = r->Satisfied_0;
                assert forall|m: Set<usize>| #[trigger] agrees(m, a@) implies self.eval(m) by {
                    self.lemma_tseitin_sound(base as int, m);
                }
            }
        }
        r
    }
}

} // verus!

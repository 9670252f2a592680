//! Reduction of a conjunctive normal form under a partial assignment: the
//! clauses that the assignment satisfies are dropped, and the literals that
//! it falsifies are deleted from the others.

use vstd::prelude::*;
use crate::sat::assignment::{Assignment, agrees, positive_part};
use crate::sat::cnf::{
    Clause, clause_holds, clause_mentions, Cnf, cnf_holds, cnf_mentions, Literal, Polarity,
};

verus! {

/// The assignment makes one of the clause's literals true.
pub open spec fn clause_satisfied(c: Seq<Literal>, a: Map<usize, Polarity>) -> bool {
    exists|j: int|
        0 <= j < c.len() && a.contains_key((#[trigger] c[j]).variable.0) && a[c[j].variable.0]
            == c[j].polarity
}

/// The assignment assigns one of the clause's variables.
pub open spec fn clause_touched(c: Seq<Literal>, a: Map<usize, Polarity>) -> bool {
    exists|j: int| 0 <= j < c.len() && a.contains_key((#[trigger] c[j]).variable.0)
}

/// The assignment assigns a variable of some clause.
pub open spec fn touched(f: Seq<Seq<Literal>>, a: Map<usize, Polarity>) -> bool {
    exists|i: int| 0 <= i < f.len() && clause_touched(#[trigger] f[i], a)
}

/// The literals whose variable the assignment leaves open.
pub open spec fn unassigned(a: Map<usize, Polarity>) -> spec_fn(Literal) -> bool {
    |l: Literal| !a.contains_key(l.variable.0)
}

/// The clauses that the assignment does not satisfy.
pub open spec fn unsatisfied(a: Map<usize, Polarity>) -> spec_fn(Seq<Literal>) -> bool {
    |c: Seq<Literal>| !clause_satisfied(c, a)
}

/// The clause without the literals whose variable is assigned.
pub open spec fn reduce_clause(c: Seq<Literal>, a: Map<usize, Polarity>) -> Seq<Literal> {
    c.filter(unassigned(a))
}

/// The clauses that the assignment does not satisfy, each without the
/// literals that the assignment makes false.
pub open spec fn reduce(f: Seq<Seq<Literal>>, a: Map<usize, Polarity>) -> Seq<Seq<Literal>> {
    f.filter(unsatisfied(a)).map_values(|c: Seq<Literal>| reduce_clause(c, a))
}

/// The number of clauses and literals together: what a reduction that
/// changes anything makes smaller.
pub open spec fn weight(f: Seq<Seq<Literal>>) -> nat
    decreases f.len(),
{
    if f.len() == 0 {
        0
    } else {
        weight(f.drop_last()) + 1 + f.last().len()
    }
}

/// Reducing a clause goes literal by literal.
pub proof fn lemma_reduce_clause_push(c: Seq<Literal>, l: Literal, a: Map<usize, Polarity>)
    ensures
        reduce_clause(c.push(l), a) == if a.contains_key(l.variable.0) {
            reduce_clause(c, a)
        } else {
            reduce_clause(c, a).push(l)
        },
{
    c.lemma_filter_push(l, unassigned(a));
}

/// Reducing and weighing a form go clause by clause.
pub proof fn lemma_reduce_push(f: Seq<Seq<Literal>>, c: Seq<Literal>, a: Map<usize, Polarity>)
    ensures
        reduce(f.push(c), a) == if clause_satisfied(c, a) {
            reduce(f, a)
        } else {
            reduce(f, a).push(reduce_clause(c, a))
        },
        weight(f.push(c)) == weight(f) + 1 + c.len(),
{
    f.lemma_filter_push(c, unsatisfied(a));
    assert(f.push(c).drop_last() =~= f);
    if !clause_satisfied(c, a) {
        assert(reduce(f.push(c), a) =~= reduce(f, a).push(reduce_clause(c, a)));
    }
}

/// A form with one clause more holds where the form and the clause hold, and mentions
/// what either mentions.
pub proof fn lemma_cnf_holds_push(f: Seq<Seq<Literal>>, c: Seq<Literal>, m: Set<usize>)
    ensures
        cnf_holds(f.push(c), m) == (cnf_holds(f, m) && clause_holds(c, m)),
        forall|v: usize|
            cnf_mentions(f.push(c), v) == (cnf_mentions(f, v) || clause_mentions(c, v)),
{
    let g = f.push(c);
    if cnf_holds(g, m) {
        assert forall|i: int| 0 <= i < f.len() implies clause_holds(#[trigger] f[i], m) by {
            assert(g[i] == f[i]);
        }
        assert(g[f.len() as int] == c);
    }
    if cnf_holds(f, m) && clause_holds(c, m) {
        assert forall|i: int| 0 <= i < g.len() implies clause_holds(#[trigger] g[i], m) by {
            if i < f.len() {
                assert(g[i] == f[i]);
            }
        }
    }
    assert forall|v: usize|
        cnf_mentions(f.push(c), v) == (cnf_mentions(f, v) || clause_mentions(c, v)) by {
        if cnf_mentions(g, v) {
            let i = choose|i: int| 0 <= i < g.len() && clause_mentions(#[trigger] g[i], v);
            if i < f.len() {
                assert(g[i] == f[i]);
            }
        }
        if cnf_mentions(f, v) {
            let i = choose|i: int| 0 <= i < f.len() && clause_mentions(#[trigger] f[i], v);
            assert(g[i] == f[i]);
        }
        if clause_mentions(c, v) {
            assert(g[f.len() as int] == c);
        }
    }
}

/// What a reduced clause keeps: exactly the literals with an open variable.
pub proof fn lemma_reduce_clause(c: Seq<Literal>, a: Map<usize, Polarity>)
    ensures
        forall|j: int|
            0 <= j < reduce_clause(c, a).len() ==> c.contains(#[trigger] reduce_clause(c, a)[j])
                && !a.contains_key(reduce_clause(c, a)[j].variable.0),
        forall|i: int|
            0 <= i < c.len() && !a.contains_key((#[trigger] c[i]).variable.0) ==> reduce_clause(
                c,
                a,
            ).contains(c[i]),
        reduce_clause(c, a).len() <= c.len(),
        clause_touched(c, a) ==> reduce_clause(c, a).len() < c.len(),
        !clause_touched(c, a) ==> reduce_clause(c, a) == c,
    decreases c.len(),
{
    let r = reduce_clause(c, a);
    if c.len() == 0 {
        reveal(Seq::filter);
        assert(r =~= c);
    } else {
        let front = c.drop_last();
        let l = c.last();
        assert(c =~= front.push(l));
        lemma_reduce_clause(front, a);
        lemma_reduce_clause_push(front, l, a);
        let rf = reduce_clause(front, a);
        assert forall|j: int| 0 <= j < r.len() implies c.contains(#[trigger] r[j])
            && !a.contains_key(r[j].variable.0) by {
            if j < rf.len() {
                assert(r[j] == rf[j]);
                assert(front.contains(rf[j]));
                let i = choose|i: int| 0 <= i < front.len() && front[i] == rf[j];
                assert(c[i] == rf[j]);
            } else {
                assert(r[j] == l);
                assert(c[c.len() - 1] == l);
            }
        }
        assert forall|i: int|
            0 <= i < c.len() && !a.contains_key((#[trigger] c[i]).variable.0) implies r.contains(
            c[i],
        ) by {
            if i < front.len() {
                assert(front[i] == c[i]);
                assert(rf.contains(front[i]));
                let j = choose|j: int| 0 <= j < rf.len() && rf[j] == front[i];
                assert(r[j] == c[i]);
            } else {
                assert(r[r.len() - 1] == l);
            }
        }
        if clause_touched(c, a) {
            let j = choose|j: int| 0 <= j < c.len() && a.contains_key((#[trigger] c[j]).variable.0);
            if j < front.len() {
                assert(front[j] == c[j]);
                assert(clause_touched(front, a));
            }
        } else {
            assert(!clause_touched(front, a)) by {
                if clause_touched(front, a) {
                    let j = choose|j: int|
                        0 <= j < front.len() && a.contains_key((#[trigger] front[j]).variable.0);
                    assert(c[j] == front[j]);
                }
            }
            assert(!a.contains_key(c[c.len() - 1].variable.0));
            assert(r =~= c);
        }
    }
}

/// Under a valuation that agrees with the assignment, a clause that the
/// assignment does not satisfy holds exactly when its reduced form holds.
pub proof fn lemma_reduce_clause_holds(c: Seq<Literal>, a: Map<usize, Polarity>, m: Set<usize>)
    requires
        agrees(m, a),
    ensures
        clause_satisfied(c, a) ==> clause_holds(c, m),
        !clause_satisfied(c, a) ==> clause_holds(reduce_clause(c, a), m) == clause_holds(c, m),
        forall|v: usize|
            clause_mentions(reduce_clause(c, a), v) ==> clause_mentions(c, v) && !a.contains_key(v),
{
    let r = reduce_clause(c, a);
    lemma_reduce_clause(c, a);
    if clause_satisfied(c, a) {
        let j = choose|j: int|
            0 <= j < c.len() && a.contains_key((#[trigger] c[j]).variable.0) && a[c[j].variable.0]
                == c[j].polarity;
        assert(c[j].holds(m));
    } else {
        if clause_holds(r, m) {
            let j = choose|j: int| 0 <= j < r.len() && (#[trigger] r[j]).holds(m);
            assert(c.contains(r[j]));
            let i = choose|i: int| 0 <= i < c.len() && c[i] == r[j];
            assert(c[i].holds(m));
        }
        if clause_holds(c, m) {
            let i = choose|i: int| 0 <= i < c.len() && (#[trigger] c[i]).holds(m);
            if a.contains_key(c[i].variable.0) {
                assert(a[c[i].variable.0] == c[i].polarity);
                assert(false);
            }
            assert(r.contains(c[i]));
            let j = choose|j: int| 0 <= j < r.len() && r[j] == c[i];
            assert(r[j].holds(m));
        }
    }
    assert forall|v: usize| clause_mentions(r, v) implies clause_mentions(c, v) && !a.contains_key(
        v,
    ) by {
        let j = choose|j: int| 0 <= j < r.len() && (#[trigger] r[j]).variable.0 == v;
        assert(c.contains(r[j]));
        let i = choose|i: int| 0 <= i < c.len() && c[i] == r[j];
        assert(c[i].variable.0 == v);
    }
}

/// Under a valuation that agrees with the assignment, the reduced form
/// holds exactly when the form itself does.
pub proof fn lemma_reduce_holds(f: Seq<Seq<Literal>>, a: Map<usize, Polarity>, m: Set<usize>)
    requires
        agrees(m, a),
    ensures
        cnf_holds(reduce(f, a), m) == cnf_holds(f, m),
    decreases f.len(),
{
    if f.len() == 0 {
        reveal(Seq::filter);
        assert(reduce(f, a) =~= f);
    } else {
        let front = f.drop_last();
        let c = f.last();
        assert(f =~= front.push(c));
        lemma_reduce_holds(front, a, m);
        lemma_reduce_push(front, c, a);
        lemma_reduce_clause_holds(c, a, m);
        lemma_cnf_holds_push(front, c, m);
        lemma_cnf_holds_push(reduce(front, a), reduce_clause(c, a), m);
    }
}

/// The reduced form mentions only variables of the form that the assignment
/// leaves open. It weighs no more than the form, less where the assignment
/// touches it, and is the form itself where it does not.
pub proof fn lemma_reduce_shrinks(f: Seq<Seq<Literal>>, a: Map<usize, Polarity>)
    ensures
        forall|v: usize|
            cnf_mentions(reduce(f, a), v) ==> cnf_mentions(f, v) && !a.contains_key(v),
        weight(reduce(f, a)) <= weight(f),
        touched(f, a) ==> weight(reduce(f, a)) < weight(f),
        !touched(f, a) ==> reduce(f, a) == f,
    decreases f.len(),
{
    if f.len() == 0 {
        reveal(Seq::filter);
        assert(reduce(f, a) =~= f);
    } else {
        let front = f.drop_last();
        let c = f.last();
        assert(f =~= front.push(c));
        lemma_reduce_shrinks(front, a);
        lemma_reduce_push(front, c, a);
        lemma_reduce_clause(c, a);
        lemma_reduce_clause_holds(c, a, positive_part(a));
        lemma_cnf_holds_push(front, c, Set::empty());
        lemma_cnf_holds_push(reduce(front, a), reduce_clause(c, a), Set::empty());
        if !clause_satisfied(c, a) {
            lemma_reduce_push(reduce(front, a), reduce_clause(c, a), a);
        }
        if touched(f, a) {
            let i = choose|i: int| 0 <= i < f.len() && clause_touched(#[trigger] f[i], a);
            if i < front.len() {
                assert(front[i] == f[i]);
                assert(touched(front, a));
            }
        } else {
            assert(!touched(front, a)) by {
                if touched(front, a) {
                    let i = choose|i: int|
                        0 <= i < front.len() && clause_touched(#[trigger] front[i], a);
                    assert(f[i] == front[i]);
                }
            }
            assert(!clause_touched(f[f.len() - 1], a));
            assert(!clause_satisfied(c, a)) by {
                if clause_satisfied(c, a) {
                    let j = choose|j: int|
                        0 <= j < c.len() && a.contains_key((#[trigger] c[j]).variable.0)
                            && a[c[j].variable.0] == c[j].polarity;
                    assert(clause_touched(c, a));
                }
            }
        }
    }
}

/// `a` extends `b`: it assigns what `b` assigns, and the same.
pub open spec fn extends(a: Map<usize, Polarity>, b: Map<usize, Polarity>) -> bool {
    forall|v: usize| #[trigger] b.contains_key(v) ==> a.contains_key(v) && a[v] == b[v]
}

/// The form holds the clause that consists of the literal alone.
pub open spec fn unit_of(f: Seq<Seq<Literal>>, l: Literal) -> bool {
    exists|i: int| 0 <= i < f.len() && #[trigger] f[i] == seq![l]
}

/// A clause that the assignment does not satisfy is kept, reduced.
pub proof fn lemma_reduce_keeps(f: Seq<Seq<Literal>>, a: Map<usize, Polarity>, i: int)
    requires
        0 <= i < f.len(),
        !clause_satisfied(f[i], a),
    ensures
        exists|k: int|
            0 <= k < reduce(f, a).len() && #[trigger] reduce(f, a)[k] == reduce_clause(f[i], a),
    decreases f.len(),
{
    let front = f.drop_last();
    let c = f.last();
    assert(f =~= front.push(c));
    lemma_reduce_push(front, c, a);
    if i == f.len() - 1 {
        assert(reduce(f, a)[reduce(front, a).len() as int] == reduce_clause(c, a));
    } else {
        assert(front[i] == f[i]);
        lemma_reduce_keeps(front, a, i);
        let k = choose|k: int|
            0 <= k < reduce(front, a).len() && #[trigger] reduce(front, a)[k] == reduce_clause(
                f[i],
                a,
            );
        assert(reduce(f, a)[k] == reduce(front, a)[k]);
    }
}

/// Every clause of the reduced form is a clause of the form, reduced, that
/// the assignment does not satisfy.
pub proof fn lemma_reduce_from(f: Seq<Seq<Literal>>, a: Map<usize, Polarity>, k: int)
    requires
        0 <= k < reduce(f, a).len(),
    ensures
        exists|i: int|
            0 <= i < f.len() && !clause_satisfied(#[trigger] f[i], a) && reduce(f, a)[k]
                == reduce_clause(f[i], a),
    decreases f.len(),
{
    if f.len() == 0 {
        reveal(Seq::filter);
        assert(reduce(f, a) =~= f);
    } else {
        let front = f.drop_last();
        let c = f.last();
        assert(f =~= front.push(c));
        lemma_reduce_push(front, c, a);
        if k < reduce(front, a).len() {
            lemma_reduce_from(front, a, k);
            let i = choose|i: int|
                0 <= i < front.len() && !clause_satisfied(#[trigger] front[i], a) && reduce(
                    front,
                    a,
                )[k] == reduce_clause(front[i], a);
            assert(f[i] == front[i]);
            assert(reduce(f, a)[k] == reduce(front, a)[k]);
        } else {
            assert(f[f.len() - 1] == c);
        }
    }
}

/// Reducing a clause by an assignment and then by one that extends it is
/// reducing it by the second; and the second satisfies the reduced clause
/// exactly when it satisfies the clause, where the first does not.
pub proof fn lemma_reduce_clause_twice(
    c: Seq<Literal>,
    a: Map<usize, Polarity>,
    b: Map<usize, Polarity>,
)
    requires
        extends(b, a),
    ensures
        reduce_clause(reduce_clause(c, a), b) == reduce_clause(c, b),
        clause_satisfied(c, a) ==> clause_satisfied(c, b),
        !clause_satisfied(c, a) ==> clause_satisfied(reduce_clause(c, a), b) == clause_satisfied(
            c,
            b,
        ),
    decreases c.len(),
{
    let r = reduce_clause(c, a);
    lemma_reduce_clause(c, a);
    if clause_satisfied(c, a) {
        let j = choose|j: int|
            0 <= j < c.len() && a.contains_key((#[trigger] c[j]).variable.0) && a[c[j].variable.0]
                == c[j].polarity;
        assert(b.contains_key(c[j].variable.0) && b[c[j].variable.0] == c[j].polarity);
    } else {
        if clause_satisfied(r, b) {
            let j = choose|j: int|
                0 <= j < r.len() && b.contains_key((#[trigger] r[j]).variable.0)
                    && b[r[j].variable.0] == r[j].polarity;
            assert(c.contains(r[j]));
            let i = choose|i: int| 0 <= i < c.len() && c[i] == r[j];
            assert(b.contains_key(c[i].variable.0) && b[c[i].variable.0] == c[i].polarity);
        }
        if clause_satisfied(c, b) {
            let i = choose|i: int|
                0 <= i < c.len() && b.contains_key((#[trigger] c[i]).variable.0)
                    && b[c[i].variable.0] == c[i].polarity;
            if a.contains_key(c[i].variable.0) {
                assert(a[c[i].variable.0] == c[i].polarity);
                assert(false);
            }
            assert(r.contains(c[i]));
            let j = choose|j: int| 0 <= j < r.len() && r[j] == c[i];
            assert(b.contains_key(r[j].variable.0) && b[r[j].variable.0] == r[j].polarity);
        }
    }
    if c.len() == 0 {
        reveal(Seq::filter);
        assert(r =~= c);
    } else {
        let front = c.drop_last();
        let l = c.last();
        assert(c =~= front.push(l));
        lemma_reduce_clause_twice(front, a, b);
        lemma_reduce_clause_push(front, l, a);
        lemma_reduce_clause_push(front, l, b);
        if !a.contains_key(l.variable.0) {
            lemma_reduce_clause_push(reduce_clause(front, a), l, b);
        }
    }
}

/// Reducing a form by an assignment and then by one that extends it is
/// reducing it by the second.
pub proof fn lemma_reduce_twice(f: Seq<Seq<Literal>>, a: Map<usize, Polarity>, b: Map<usize, Polarity>)
    requires
        extends(b, a),
    ensures
        reduce(reduce(f, a), b) == reduce(f, b),
    decreases f.len(),
{
    if f.len() == 0 {
        reveal(Seq::filter);
        assert(reduce(f, a) =~= f);
        assert(reduce(f, b) =~= f);
    } else {
        let front = f.drop_last();
        let c = f.last();
        assert(f =~= front.push(c));
        lemma_reduce_twice(front, a, b);
        lemma_reduce_push(front, c, a);
        lemma_reduce_push(front, c, b);
        lemma_reduce_clause_twice(c, a, b);
        if !clause_satisfied(c, a) {
            lemma_reduce_push(reduce(front, a), reduce_clause(c, a), b);
        }
    }
}

/// A unit clause of the reduced form is one of the form reduced further, as
/// long as its variable stays open.
pub proof fn lemma_unit_stays(
    f: Seq<Seq<Literal>>,
    a: Map<usize, Polarity>,
    b: Map<usize, Polarity>,
    l: Literal,
)
    requires
        extends(b, a),
        unit_of(reduce(f, a), l),
        !b.contains_key(l.variable.0),
    ensures
        unit_of(reduce(f, b), l),
{
    let g = reduce(f, a);
    let i = choose|i: int| 0 <= i < g.len() && #[trigger] g[i] == seq![l];
    let c = seq![l];
    assert(c[0] == l);
    assert(!clause_satisfied(c, b)) by {
        if clause_satisfied(c, b) {
            let j = choose|j: int| 0 <= j < c.len() && b.contains_key((#[trigger] c[j]).variable.0);
        }
    }
    assert(!clause_touched(c, b)) by {
        if clause_touched(c, b) {
            let j = choose|j: int| 0 <= j < c.len() && b.contains_key((#[trigger] c[j]).variable.0);
        }
    }
    lemma_reduce_clause(c, b);
    lemma_reduce_keeps(g, b, i);
    lemma_reduce_twice(f, a, b);
}

/// Where an assignment makes a literal true in every clause of the reduced
/// form, an assignment that extends both makes one true in every clause of
/// the form.
pub proof fn lemma_reduce_satisfied(
    f: Seq<Seq<Literal>>,
    a: Map<usize, Polarity>,
    b: Map<usize, Polarity>,
    all: Map<usize, Polarity>,
)
    requires
        extends(all, a),
        extends(all, b),
        forall|k: int| 0 <= k < reduce(f, a).len() ==> clause_satisfied(#[trigger] reduce(f, a)[k], b),
    ensures
        forall|i: int| 0 <= i < f.len() ==> clause_satisfied(#[trigger] f[i], all),
{
    assert forall|i: int| 0 <= i < f.len() implies clause_satisfied(#[trigger] f[i], all) by {
        let c = f[i];
        if clause_satisfied(c, a) {
            let j = choose|j: int|
                0 <= j < c.len() && a.contains_key((#[trigger] c[j]).variable.0)
                    && a[c[j].variable.0] == c[j].polarity;
            assert(all.contains_key(c[j].variable.0) && all[c[j].variable.0] == c[j].polarity);
        } else {
            lemma_reduce_keeps(f, a, i);
            let k = choose|k: int|
                0 <= k < reduce(f, a).len() && #[trigger] reduce(f, a)[k] == reduce_clause(c, a);
            let r = reduce(f, a)[k];
            assert(clause_satisfied(r, b));
            let j = choose|j: int|
                0 <= j < r.len() && b.contains_key((#[trigger] r[j]).variable.0)
                    && b[r[j].variable.0] == r[j].polarity;
            lemma_reduce_clause(c, a);
            assert(c.contains(r[j]));
            let q = choose|q: int| 0 <= q < c.len() && c[q] == r[j];
            assert(all.contains_key(c[q].variable.0) && all[c[q].variable.0] == c[q].polarity);
        }
    }
}

/// A conjunctive normal form after an assignment was applied to it.
pub enum AssignResult {
    /// The assignment assigns a variable of the form: this is what is left.
    Reduced(Cnf),
    /// The assignment assigns no variable of the form, which is given back.
    Unchanged(Cnf),
}

impl AssignResult {
    /// The form that is left.
    pub open spec fn cnf(self) -> Cnf {
        match self {
            AssignResult::Reduced(cnf) => cnf,
            AssignResult::Unchanged(cnf) => cnf,
        }
    }
}

/// Applies the assignment to one clause: `None` where the assignment
/// satisfies it, and else the clause without the literals that are assigned.
/// The flag tells whether the assignment assigns a variable of the clause.
fn assign_clause(clause: &Clause, assignment: &Assignment) -> (r: (Option<Clause>, bool))
    ensures
        r.1 == clause_touched(clause@, assignment@),
        match r.0 {
            Some(c) => !clause_satisfied(clause@, assignment@) && c@ == reduce_clause(
                clause@,
                assignment@,
            ),
            None => clause_satisfied(clause@, assignment@),
        },
{
    let mut kept: Vec<Literal> = Vec::new();
    let mut touched = false;
    let mut j: usize = 0;
    proof {
        reveal(Seq::filter);
        assert(clause@.take(0) =~= Seq::<Literal>::empty());
    }
    while j < clause.0.len()
        invariant
            j <= clause.0.len(),
            kept@ == reduce_clause(clause@.take(j as int), assignment@),
            touched == clause_touched(clause@.take(j as int), assignment@),
            !clause_satisfied(clause@.take(j as int), assignment@),
        decreases clause.0.len() - j,
    {
        let literal = clause.0[j];
        let ghost front = clause@.take(j as int);
        proof {
            assert(clause@.take(j + 1) =~= front.push(literal));
            lemma_reduce_clause_push(front, literal, assignment@);
        }
        match assignment.get(literal.variable) {
            Some(p) => {
                if p == literal.polarity {
                    assert(clause@[j as int] == literal);
                    assert(clause_touched(clause@, assignment@));
                    return (None, true);
                }
                touched = true;
                assert(front.push(literal)[j as int] == literal);
            },
            None => {
                kept.push(literal);
                proof {
                    if clause_touched(front.push(literal), assignment@) {
                        let k = choose|k: int|
                            0 <= k < j + 1 && assignment@.contains_key(
                                (#[trigger] front.push(literal)[k]).variable.0,
                            );
                        assert(front[k] == front.push(literal)[k]);
                    }
                    if clause_touched(front, assignment@) {
                        let k = choose|k: int|
                            0 <= k < j && assignment@.contains_key((#[trigger] front[k]).variable.0);
                        assert(front[k] == front.push(literal)[k]);
                    }
                }
            },
        }
        proof {
            if clause_satisfied(front.push(literal), assignment@) {
                let k = choose|k: int|
                    0 <= k < j + 1 && assignment@.contains_key(
                        (#[trigger] front.push(literal)[k]).variable.0,
                    ) && assignment@[front.push(literal)[k].variable.0] == front.push(
                        literal,
                    )[k].polarity;
                if k < j {
                    assert(front[k] == front.push(literal)[k]);
                }
                assert(false);
            }
        }
        j += 1;
    }
    assert(clause@.take(j as int) =~= clause@);
    (Some(Clause(kept)), touched)
}

/// Applies the assignment to the form: drops every clause that holds a
/// literal that the assignment makes true, and deletes from the others every
/// literal that it makes false. Tells whether anything changed.
pub(crate) fn assign(cnf: &Cnf, assignment: &Assignment) -> (r: AssignResult)
    ensures
        r.cnf()@ == reduce(cnf@, assignment@),
        r is Reduced <==> touched(cnf@, assignment@),
{
    let mut clauses: Vec<Clause> = Vec::new();
    let mut reduced = false;
    let mut i: usize = 0;
    proof {
        reveal(Seq::filter);
        assert(cnf@.take(0) =~= Seq::<Seq<Literal>>::empty());
        assert(reduce(cnf@.take(0), assignment@) =~= Seq::<Seq<Literal>>::empty());
    }
    while i < cnf.0.len()
        invariant
            i <= cnf.0.len(),
            clauses@.map_values(|c: Clause| c@) == reduce(cnf@.take(i as int), assignment@),
            reduced == touched(cnf@.take(i as int), assignment@),
        decreases cnf.0.len() - i,
    {
        let ghost front = cnf@.take(i as int);
        let ghost c = cnf@[i as int];
        let ghost before = clauses@.map_values(|c: Clause| c@);
        let (kept, hit) = assign_clause(&cnf.0[i], assignment);
        proof {
            assert(cnf@.take(i + 1) =~= front.push(c));
            lemma_reduce_push(front, c, assignment@);
            if touched(front.push(c), assignment@) {
                let k = choose|k: int|
                    0 <= k < i + 1 && clause_touched(#[trigger] front.push(c)[k], assignment@);
                if k < i {
                    assert(front[k] == front.push(c)[k]);
                }
            }
            if touched(front, assignment@) {
                let k = choose|k: int| 0 <= k < i && clause_touched(#[trigger] front[k], assignment@);
                assert(front[k] == front.push(c)[k]);
            }
            if hit {
                assert(front.push(c)[i as int] == c);
            }
        }
        if hit {
            reduced = true;
        }
        match kept {
            Some(clause) => {
                clauses.push(clause);
                assert(clauses@.map_values(|c: Clause| c@) =~= before.push(clause@));
            },
            None => {},
        }
        i += 1;
    }
    assert(cnf@.take(i as int) =~= cnf@);
    let out = Cnf(clauses);
    assert(out@ =~= clauses@.map_values(|c: Clause| c@));
    if reduced {
        AssignResult::Reduced(out)
    } else {
        AssignResult::Unchanged(out)
    }
}

} // verus!

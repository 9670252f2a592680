//! The transformation to conjunctive normal form keeps satisfiability: every
//! valuation that satisfies the clauses satisfies the formula, and every
//! valuation that satisfies the formula can be extended to the fresh
//! variables so that it satisfies the clauses.

use vstd::prelude::*;
use crate::sat::cnf::{
    clause_holds, cnf_holds, lemma_cnf_holds_concat, Literal, Polarity, satisfiable, Variable,
};
use crate::sat::formula::Formula;

verus! {

/// The valuation `m` with the variable `x` set to `b`.
pub open spec fn with_value(m: Set<usize>, x: usize, b: bool) -> Set<usize> {
    if b {
        m.insert(x)
    } else {
        m.remove(x)
    }
}

/// Every variable of the clauses lies below `bound`.
pub open spec fn variables_below(f: Seq<Seq<Literal>>, bound: int) -> bool {
    forall|i: int, j: int|
        0 <= i < f.len() && 0 <= j < f[i].len() ==> (#[trigger] f[i][j]).variable.0 < bound
}

/// The variable `v` is at most `top`, or lies from `lo` up to `hi`
/// exclusive.
pub open spec fn admitted(v: usize, top: int, lo: int, hi: int) -> bool {
    v <= top || lo <= v < hi
}

/// Every variable of the clauses is at most `top`, or lies from `lo` up to
/// `hi` exclusive.
pub open spec fn variables_among(f: Seq<Seq<Literal>>, top: int, lo: int, hi: int) -> bool {
    forall|i: int, j: int|
        0 <= i < f.len() && 0 <= j < f[i].len() ==> admitted(
            (#[trigger] f[i][j]).variable.0,
            top,
            lo,
            hi,
        )
}

/// Two valuations that agree below `bound` give the same truth value to
/// clauses whose variables all lie below `bound`.
pub proof fn lemma_cnf_holds_agree(
    f: Seq<Seq<Literal>>,
    m0: Set<usize>,
    m1: Set<usize>,
    bound: int,
)
    requires
        variables_below(f, bound),
        forall|x: usize| x < bound ==> m0.contains(x) == m1.contains(x),
    ensures
        cnf_holds(f, m0) == cnf_holds(f, m1),
{
    assert forall|i: int| 0 <= i < f.len() implies clause_holds(#[trigger] f[i], m0)
        == clause_holds(f[i], m1) by {
        let c = f[i];
        assert forall|j: int| 0 <= j < c.len() implies (#[trigger] c[j]).holds(m0) == c[j].holds(
            m1,
        ) by {
            assert(f[i][j].variable.0 < bound);
        }
    }
}

proof fn lemma_variables_below_concat(a: Seq<Seq<Literal>>, b: Seq<Seq<Literal>>, bound: int)
    requires
        variables_below(a, bound),
        variables_below(b, bound),
    ensures
        variables_below(a + b, bound),
{
    assert forall|i: int, j: int| 0 <= i < (a + b).len() && 0 <= j < (a + b)[i].len() implies (
    #[trigger] (a + b)[i][j]).variable.0 < bound by {
        if i < a.len() {
            assert((a + b)[i] == a[i]);
            assert(a[i][j].variable.0 < bound);
        } else {
            assert((a + b)[i] == b[i - a.len()]);
            assert(b[i - a.len()][j].variable.0 < bound);
        }
    }
}

proof fn lemma_pair(a: Literal, b: Literal, m: Set<usize>)
    ensures
        clause_holds(seq![a, b], m) == (a.holds(m) || b.holds(m)),
{
    let c = seq![a, b];
    assert(c[0] == a && c[1] == b);
}

proof fn lemma_triple(a: Literal, b: Literal, c: Literal, m: Set<usize>)
    ensures
        clause_holds(seq![a, b, c], m) == (a.holds(m) || b.holds(m) || c.holds(m)),
{
    let s = seq![a, b, c];
    assert(s[0] == a && s[1] == b && s[2] == c);
}

proof fn lemma_three_clauses(c0: Seq<Literal>, c1: Seq<Literal>, c2: Seq<Literal>, m: Set<usize>)
    ensures
        cnf_holds(seq![c0, c1, c2], m) == (clause_holds(c0, m) && clause_holds(c1, m)
            && clause_holds(c2, m)),
{
    let f = seq![c0, c1, c2];
    assert(f[0] == c0 && f[1] == c1 && f[2] == c2);
}

proof fn lemma_four_clauses(
    c0: Seq<Literal>,
    c1: Seq<Literal>,
    c2: Seq<Literal>,
    c3: Seq<Literal>,
    m: Set<usize>,
)
    ensures
        cnf_holds(seq![c0, c1, c2, c3], m) == (clause_holds(c0, m) && clause_holds(c1, m)
            && clause_holds(c2, m) && clause_holds(c3, m)),
{
    let f = seq![c0, c1, c2, c3];
    assert(f[0] == c0 && f[1] == c1 && f[2] == c2 && f[3] == c3);
}

impl Formula {
    /// The truth value of an operator whose operands have the values `x`
    /// and `y`.
    pub open spec fn apply(self, x: bool, y: bool) -> bool {
        match self {
            Formula::Conjunction(_, _) => x && y,
            Formula::Disjunction(_, _) => x || y,
            Formula::Equivalence(_, _) => x == y,
            Formula::Implication(_, _) => x ==> y,
            _ => x,
        }
    }

    /// The clauses of one definition hold exactly when `v` has the truth
    /// value of the operator applied to `l0` and `l1`.
    pub proof fn lemma_definition_holds(self, v: Literal, l0: Literal, l1: Literal, m: Set<usize>)
        requires
            self.is_operator(),
        ensures
            cnf_holds(self.definition(v, l0, l1), m) == (v.holds(m) == self.apply(
                l0.holds(m),
                l1.holds(m),
            )),
    {
        let nv = v.complement();
        let n0 = l0.complement();
        let n1 = l1.complement();
        assert(nv.holds(m) == !v.holds(m));
        assert(n0.holds(m) == !l0.holds(m));
        assert(n1.holds(m) == !l1.holds(m));
        match self {
            Formula::Conjunction(_, _) => {
                lemma_pair(nv, l0, m);
                lemma_pair(nv, l1, m);
                lemma_triple(v, n0, n1, m);
                lemma_three_clauses(seq![nv, l0], seq![nv, l1], seq![v, n0, n1], m);
            },
            Formula::Disjunction(_, _) => {
                lemma_pair(v, n0, m);
                lemma_pair(v, n1, m);
                lemma_triple(nv, l0, l1, m);
                lemma_three_clauses(seq![v, n0], seq![v, n1], seq![nv, l0, l1], m);
            },
            Formula::Equivalence(_, _) => {
                lemma_triple(v, n0, n1, m);
                lemma_triple(v, l0, l1, m);
                lemma_triple(nv, n0, l1, m);
                lemma_triple(nv, l0, n1, m);
                lemma_four_clauses(
                    seq![v, n0, n1],
                    seq![v, l0, l1],
                    seq![nv, n0, l1],
                    seq![nv, l0, n1],
                    m,
                );
            },
            Formula::Implication(_, _) => {
                lemma_triple(nv, n0, l1, m);
                lemma_pair(v, l0, m);
                lemma_pair(v, n1, m);
                lemma_three_clauses(seq![nv, n0, l1], seq![v, l0], seq![v, n1], m);
            },
            _ => {},
        }
    }

    /// The variables of one definition are those of its three literals.
    pub proof fn lemma_definition_variables(self, v: Literal, l0: Literal, l1: Literal, bound: int)
        requires
            v.variable.0 < bound,
            l0.variable.0 < bound,
            l1.variable.0 < bound,
        ensures
            variables_below(self.definition(v, l0, l1), bound),
    {
        let d = self.definition(v, l0, l1);
        assert forall|i: int, j: int| 0 <= i < d.len() && 0 <= j < d[i].len() implies (
        #[trigger] d[i][j]).variable.0 < bound by {
            let x = d[i][j];
            assert(x.variable == v.variable || x.variable == l0.variable || x.variable
                == l1.variable);
        }
    }

    /// The value of an operator is that operator applied to the values of
    /// its operands.
    pub proof fn lemma_eval_operator(self, m: Set<usize>)
        requires
            self.is_operator(),
        ensures
            self.eval(m) == self.apply(self.left().eval(m), self.right().eval(m)),
            self.greatest_variable() >= self.left().greatest_variable(),
            self.greatest_variable() >= self.right().greatest_variable(),
            self.kernel() == self,
            self.as_literal() is None,
    {
    }

    /// The stand-in of a formula holds exactly when the formula is true,
    /// provided that, where the stand-in is a fresh variable, that variable
    /// has the value of the operator below the formula's negations.
    pub proof fn lemma_stand_in_holds(self, next: int, m: Set<usize>)
        requires
            self.as_literal() is None ==> m.contains(next as usize) == self.kernel().eval(m),
        ensures
            self.stand_in(next).holds(m) == self.eval(m),
    {
        self.lemma_kernel_sign(m);
        if self.as_literal() is Some {
            self.lemma_as_literal(m);
        }
    }

    /// In every valuation that satisfies the definitions, the variable that
    /// stands for the operator below the negations of the formula has the
    /// value of that operator.
    pub proof fn lemma_definitions_sound(self, a: Variable, next: int, m: Set<usize>)
        requires
            self.as_literal() is None,
            cnf_holds(self.definitions(a, next), m),
        ensures
            m.contains(a.0) == self.kernel().eval(m),
        decreases self,
    {
        match self {
            Formula::Variable(_) => {},
            Formula::Negation(f) => {
                f.lemma_definitions_sound(a, next, m);
            },
            _ => {
                let f0 = self.left();
                let f1 = self.right();
                let b1 = next + f0.own_count();
                let b2 = b1 + f1.own_count();
                let a0 = Variable(next as usize);
                let a1 = Variable(b1 as usize);
                let v = Literal { variable: a, polarity: Polarity::Positive };
                let d = self.definition(v, f0.stand_in(next), f1.stand_in(b1));
                let r1 = f1.definitions(a1, b2);
                let r0 = f0.definitions(a0, next + f0.own_count() + f1.fresh_count());
                self.lemma_operator_definitions(a, next);
                lemma_cnf_holds_concat(d + r1, r0, m);
                lemma_cnf_holds_concat(d, r1, m);
                if f0.as_literal() is None {
                    f0.lemma_definitions_sound(a0, next + f0.own_count() + f1.fresh_count(), m);
                }
                if f1.as_literal() is None {
                    f1.lemma_definitions_sound(a1, b2, m);
                }
                f0.lemma_stand_in_holds(next, m);
                f1.lemma_stand_in_holds(b1, m);
                self.lemma_definition_holds(v, f0.stand_in(next), f1.stand_in(b1), m);
                self.lemma_eval_operator(m);
            },
        }
    }

    /// The variables of the definitions are the defined variable, those of
    /// the formula, and the fresh ones.
    pub proof fn lemma_definitions_variables(self, a: Variable, next: int, bound: int)
        requires
            0 <= next,
            a.0 < bound,
            self.greatest_variable() < bound,
            next + self.fresh_count() - self.own_count() <= bound,
            bound <= usize::MAX + 1,
        ensures
            variables_below(self.definitions(a, next), bound),
        decreases self,
    {
        match self {
            Formula::Variable(_) => {},
            Formula::Negation(f) => {
                f.lemma_kernel_definitions(a, next);
                f.lemma_definitions_variables(a, next, bound);
            },
            _ => {
                let f0 = self.left();
                let f1 = self.right();
                let b1 = next + f0.own_count();
                let b2 = b1 + f1.own_count();
                let after0 = next + f0.own_count() + f1.fresh_count();
                let a0 = Variable(next as usize);
                let a1 = Variable(b1 as usize);
                let v = Literal { variable: a, polarity: Polarity::Positive };
                let d = self.definition(v, f0.stand_in(next), f1.stand_in(b1));
                let r1 = f1.definitions(a1, b2);
                let r0 = f0.definitions(a0, after0);
                self.lemma_operator_definitions(a, next);
                self.lemma_eval_operator(Set::empty());
                f0.lemma_kernel_definitions(a0, after0);
                f1.lemma_kernel_definitions(a1, b2);
                if f0.as_literal() is Some {
                    f0.lemma_as_literal(Set::empty());
                    assert(r0 =~= Seq::<Seq<Literal>>::empty());
                } else {
                    f0.lemma_definitions_variables(a0, after0, bound);
                }
                if f1.as_literal() is Some {
                    f1.lemma_as_literal(Set::empty());
                    assert(r1 =~= Seq::<Seq<Literal>>::empty());
                } else {
                    f1.lemma_definitions_variables(a1, b2, bound);
                }
                self.lemma_definition_variables(v, f0.stand_in(next), f1.stand_in(b1), bound);
                lemma_variables_below_concat(d, r1, bound);
                lemma_variables_below_concat(d + r1, r0, bound);
            },
        }
    }

    /// A valuation in which the defined variable has the value of the
    /// operator can be changed on the fresh variables alone so that it
    /// satisfies the definitions.
    #[verifier::rlimit(40)]
    pub proof fn lemma_definitions_complete(self, a: Variable, next: int, m: Set<usize>) -> (r: Set<
        usize,
    >)
        requires
            self.as_literal() is None,
            a.0 < next,
            self.greatest_variable() < next,
            next + self.fresh_count() - 1 <= usize::MAX,
            m.contains(a.0) == self.kernel().eval(m),
        ensures
            cnf_holds(self.definitions(a, next), r),
            forall|x: usize|
                x < next || x >= next + self.fresh_count() - 1 ==> r.contains(x) == m.contains(x),
        decreases self,
    {
        match self {
            Formula::Variable(_) => m,
            Formula::Negation(f) => f.lemma_definitions_complete(a, next, m),
            _ => {
                let f0 = self.left();
                let f1 = self.right();
                let b1 = next + f0.own_count();
                let b2 = b1 + f1.own_count();
                let after0 = b2 + f1.fresh_count() - f1.own_count();
                let done = next + self.fresh_count() - 1;
                let a0 = Variable(next as usize);
                let a1 = Variable(b1 as usize);
                let v = Literal { variable: a, polarity: Polarity::Positive };
                let l0 = f0.stand_in(next);
                let l1 = f1.stand_in(b1);
                let d = self.definition(v, l0, l1);
                let r1 = f1.definitions(a1, b2);
                let r0 = f0.definitions(a0, after0);
                self.lemma_operator_definitions(a, next);
                self.lemma_eval_operator(m);
                f0.lemma_kernel_definitions(a0, after0);
                f1.lemma_kernel_definitions(a1, b2);
                f0.lemma_kernel_sign(m);
                f1.lemma_kernel_sign(m);
                assert(done == after0 + f0.fresh_count() - f0.own_count());
                // the fresh variables of the two operands get the values of the operands
                let m0 = if f0.as_literal() is None {
                    with_value(m, a0.0, f0.kernel().eval(m))
                } else {
                    m
                };
                let m1 = if f1.as_literal() is None {
                    with_value(m0, a1.0, f1.kernel().eval(m))
                } else {
                    m0
                };
                assert forall|x: usize| x < next implies m1.contains(x) == m.contains(x) by {}
                f0.kernel().lemma_eval_agree(m, m1);
                f1.kernel().lemma_eval_agree(m, m1);
                f0.lemma_eval_agree(m, m1);
                f1.lemma_eval_agree(m, m1);
                // the second operand and what lies below it
                let m2 = if f1.as_literal() is None {
                    f1.lemma_definitions_complete(a1, b2, m1)
                } else {
                    assert(r1 =~= Seq::<Seq<Literal>>::empty());
                    m1
                };
                assert(cnf_holds(r1, m2));
                assert forall|x: usize| x < b2 implies m2.contains(x) == m1.contains(x) by {}
                f0.kernel().lemma_eval_agree(m1, m2);
                // the first operand and what lies below it
                let m3 = if f0.as_literal() is None {
                    f0.lemma_definitions_complete(a0, after0, m2)
                } else {
                    assert(r0 =~= Seq::<Seq<Literal>>::empty());
                    m2
                };
                assert(cnf_holds(r0, m3));
                assert forall|x: usize| x < b2 implies m3.contains(x) == m1.contains(x) by {}
                // the definition of `a` itself
                if f0.as_literal() is Some {
                    f0.lemma_as_literal(m);
                    f0.lemma_as_literal(m3);
                }
                if f1.as_literal() is Some {
                    f1.lemma_as_literal(m);
                    f1.lemma_as_literal(m3);
                }
                assert(l0.holds(m3) == f0.eval(m));
                assert(l1.holds(m3) == f1.eval(m));
                assert(v.holds(m3) == self.eval(m));
                self.lemma_definition_holds(v, l0, l1, m3);
                assert(cnf_holds(d, m3));
                // what was satisfied before the last change stays satisfied
                if f1.as_literal() is None {
                    f1.lemma_definitions_variables(a1, b2, after0);
                }
                lemma_cnf_holds_agree(r1, m2, m3, after0);
                lemma_cnf_holds_concat(d, r1, m3);
                lemma_cnf_holds_concat(d + r1, r0, m3);
                m3
            },
        }
    }

    /// Every valuation that satisfies the conjunctive normal form satisfies
    /// the formula, whatever the first fresh variable is.
    pub proof fn lemma_tseitin_sound(self, base: int, m: Set<usize>)
        requires
            cnf_holds(self.tseitin(base), m),
        ensures
            self.eval(m),
    {
        let unit = seq![seq![self.stand_in(base)]];
        let rest = self.definitions(Variable(base as usize), base + self.own_count());
        lemma_cnf_holds_concat(unit, rest, m);
        assert(clause_holds(unit[0], m));
        assert(unit[0][0] == self.stand_in(base));
        if self.as_literal() is None {
            self.lemma_definitions_sound(Variable(base as usize), base + self.own_count(), m);
        }
        self.lemma_stand_in_holds(base, m);
    }

    /// A valuation that satisfies the formula can be changed on the fresh
    /// variables alone so that it satisfies the conjunctive normal form,
    /// provided that the fresh variables lie above those of the formula.
    pub proof fn lemma_tseitin_complete(self, base: usize, m: Set<usize>) -> (r: Set<usize>)
        requires
            self.greatest_variable() < base,
            base + self.fresh_count() <= usize::MAX,
            self.eval(m),
        ensures
            cnf_holds(self.tseitin(base as int), r),
            forall|x: usize| x < base ==> r.contains(x) == m.contains(x),
    {
        let b = base as int;
        let a = Variable(base);
        let unit = seq![seq![self.stand_in(b)]];
        let rest = self.definitions(a, b + self.own_count());
        self.lemma_kernel_definitions(a, b + self.own_count());
        self.lemma_kernel_sign(m);
        let r = if self.as_literal() is None {
            let m0 = with_value(m, base, self.kernel().eval(m));
            self.kernel().lemma_eval_agree(m, m0);
            let m1 = self.lemma_definitions_complete(a, b + 1, m0);
            self.lemma_kernel_sign(m1);
            self.kernel().lemma_eval_agree(m, m1);
            self.lemma_stand_in_holds(b, m1);
            self.lemma_eval_agree(m, m1);
            m1
        } else {
            self.lemma_as_literal(m);
            assert(rest =~= Seq::<Seq<Literal>>::empty());
            m
        };
        assert(self.stand_in(b).holds(r));
        assert(unit[0][0] == self.stand_in(b));
        assert(clause_holds(unit[0], r));
        lemma_cnf_holds_concat(unit, rest, r);
        r
    }

    /// The transformation is linear: it writes four clauses at most for each
    /// operator node, and a unit clause.
    pub proof fn lemma_tseitin_size(self, base: int)
        ensures
            self.tseitin(base).len() <= 1 + 4 * self.fresh_count(),
            self.fresh_count() <= self.size(),
    {
        self.lemma_definitions_size(Variable(base as usize), base + self.own_count());
    }

    /// The definitions are four clauses at most for each operator node.
    pub proof fn lemma_definitions_size(self, a: Variable, next: int)
        ensures
            self.definitions(a, next).len() <= 4 * self.fresh_count(),
            self.fresh_count() <= self.size(),
        decreases self,
    {
        match self {
            Formula::Variable(_) => {},
            Formula::Negation(f) => {
                f.lemma_definitions_size(a, next);
            },
            _ => {
                let f0 = self.left();
                let f1 = self.right();
                let b1 = next + f0.own_count();
                let b2 = b1 + f1.own_count();
                self.lemma_operator_definitions(a, next);
                f0.lemma_definitions_size(
                    Variable(next as usize),
                    next + f0.own_count() + f1.fresh_count(),
                );
                f1.lemma_definitions_size(Variable(b1 as usize), b2);
            },
        }
    }

    /// Every variable of the conjunctive normal form is a variable of the
    /// formula or one of the fresh variables.
    pub proof fn lemma_tseitin_variables(self, base: usize)
        requires
            base + self.fresh_count() <= usize::MAX,
        ensures
            variables_among(
                self.tseitin(base as int),
                self.greatest_variable() as int,
                base as int,
                base + self.fresh_count(),
            ),
    {
        let b = base as int;
        let a = Variable(base);
        let hi = b + self.fresh_count();
        let unit = seq![seq![self.stand_in(b)]];
        let rest = self.definitions(a, b + self.own_count());
        self.lemma_kernel_definitions(a, b + self.own_count());
        if self.as_literal() is Some {
            self.lemma_as_literal(Set::empty());
            assert(rest =~= Seq::<Seq<Literal>>::empty());
        } else {
            self.lemma_definitions_among(a, b + 1, self.greatest_variable() as int, b, hi);
        }
        assert forall|i: int, j: int|
            0 <= i < (unit + rest).len() && 0 <= j < (unit + rest)[i].len() implies admitted(
            (#[trigger] (unit + rest)[i][j]).variable.0,
            self.greatest_variable() as int,
            b,
            hi,
        ) by {
            if i == 0 {
                assert((unit + rest)[0][0] == self.stand_in(b));
            } else {
                assert((unit + rest)[i] == rest[i - 1]);
                assert(admitted(rest[i - 1][j].variable.0, self.greatest_variable() as int, b, hi));
            }
        }
    }

    /// Every variable of the definitions is the defined variable, a variable
    /// of the formula, or a fresh one.
    #[verifier::rlimit(40)]
    pub proof fn lemma_definitions_among(self, a: Variable, next: int, top: int, lo: int, hi: int)
        requires
            0 <= lo <= next,
            lo <= a.0 < next,
            self.greatest_variable() <= top,
            next + self.fresh_count() - self.own_count() <= hi,
            hi <= usize::MAX,
        ensures
            variables_among(self.definitions(a, next), top, lo, hi),
        decreases self,
    {
        match self {
            Formula::Variable(_) => {},
            Formula::Negation(f) => {
                f.lemma_kernel_definitions(a, next);
                f.lemma_definitions_among(a, next, top, lo, hi);
            },
            _ => {
                let f0 = self.left();
                let f1 = self.right();
                let b1 = next + f0.own_count();
                let b2 = b1 + f1.own_count();
                let after0 = next + f0.own_count() + f1.fresh_count();
                let a0 = Variable(next as usize);
                let a1 = Variable(b1 as usize);
                let v = Literal { variable: a, polarity: Polarity::Positive };
                let l0 = f0.stand_in(next);
                let l1 = f1.stand_in(b1);
                let d = self.definition(v, l0, l1);
                let r1 = f1.definitions(a1, b2);
                let r0 = f0.definitions(a0, after0);
                self.lemma_operator_definitions(a, next);
                self.lemma_eval_operator(Set::empty());
                f0.lemma_kernel_definitions(a0, after0);
                f1.lemma_kernel_definitions(a1, b2);
                if f0.as_literal() is Some {
                    f0.lemma_as_literal(Set::empty());
                    assert(r0 =~= Seq::<Seq<Literal>>::empty());
                } else {
                    f0.lemma_definitions_among(a0, after0, top, lo, hi);
                }
                if f1.as_literal() is Some {
                    f1.lemma_as_literal(Set::empty());
                    assert(r1 =~= Seq::<Seq<Literal>>::empty());
                } else {
                    f1.lemma_definitions_among(a1, b2, top, lo, hi);
                }
                assert forall|i: int, j: int|
                    0 <= i < d.len() && 0 <= j < d[i].len() implies admitted(
                    (#[trigger] d[i][j]).variable.0,
                    top,
                    lo,
                    hi,
                ) by {
                    let x = d[i][j];
                    assert(x.variable == v.variable || x.variable == l0.variable || x.variable
                        == l1.variable);
                }
                let all = d + r1 + r0;
                assert forall|i: int, j: int|
                    0 <= i < all.len() && 0 <= j < all[i].len() implies admitted(
                    (#[trigger] all[i][j]).variable.0,
                    top,
                    lo,
                    hi,
                ) by {
                    if i < d.len() {
                        assert(all[i] == d[i]);
                        assert(admitted(d[i][j].variable.0, top, lo, hi));
                    } else if i < d.len() + r1.len() {
                        assert(all[i] == r1[i - d.len()]);
                        assert(admitted(r1[i - d.len()][j].variable.0, top, lo, hi));
                    } else {
                        assert(all[i] == r0[i - d.len() - r1.len()]);
                        assert(admitted(r0[i - d.len() - r1.len()][j].variable.0, top, lo, hi));
                    }
                }
            },
        }
    }

    /// The formula is satisfiable exactly when its conjunctive normal form
    /// is, provided that the fresh variables lie above those of the formula.
    pub proof fn lemma_tseitin_equisatisfiable(self, base: usize)
        requires
            self.greatest_variable() < base,
            base + self.fresh_count() <= usize::MAX,
        ensures
            self.satisfiable() <==> satisfiable(self.tseitin(base as int)),
    {
        if self.satisfiable() {
            let m = choose|m: Set<usize>| self.eval(m);
            let r = self.lemma_tseitin_complete(base, m);
        }
        if satisfiable(self.tseitin(base as int)) {
            let m = choose|m: Set<usize>| cnf_holds(self.tseitin(base as int), m);
            self.lemma_tseitin_sound(base as int, m);
        }
    }
}

} // verus!

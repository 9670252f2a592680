//! The Tseitin transformation: a formula becomes a conjunctive normal form
//! of linear size, with one fresh variable for each operator node.

use vstd::prelude::*;
use crate::sat::cnf::{Clause, Cnf, Literal, Polarity, Variable, satisfiable};
use crate::sat::formula::Formula;

verus! {

impl Formula {
    /// The number of fresh variables that the transformation introduces for
    /// the formula: one for each operator node.
    pub open spec fn fresh_count(self) -> nat
        decreases self,
    {
        match self {
            Formula::Variable(_) => 0,
            Formula::Negation(f) => f.fresh_count(),
            Formula::Conjunction(f0, f1) => 1 + f0.fresh_count() + f1.fresh_count(),
            Formula::Disjunction(f0, f1) => 1 + f0.fresh_count() + f1.fresh_count(),
            Formula::Equivalence(f0, f1) => 1 + f0.fresh_count() + f1.fresh_count(),
            Formula::Implication(f0, f1) => 1 + f0.fresh_count() + f1.fresh_count(),
        }
    }

    /// 1 where the formula gets a fresh variable of its own, 0 where it is a
    /// literal and stands for itself.
    pub open spec fn own_count(self) -> nat {
        if self.as_literal() is Some {
            0
        } else {
            1
        }
    }

    /// The literal that stands for the formula in the clauses of its parent:
    /// the formula itself where it is a literal, and else the fresh variable
    /// `next` with the sign of the formula.
    pub open spec fn stand_in(self, next: int) -> Literal {
        match self.as_literal() {
            Some(l) => l,
            None => Literal { variable: Variable(next as usize), polarity: self.sign() },
        }
    }

    /// The clauses that say that `v` is equivalent to this operator applied
    /// to `l0` and `l1`.
    pub open spec fn definition(self, v: Literal, l0: Literal, l1: Literal) -> Seq<Seq<Literal>> {
        let nv = v.complement();
        let n0 = l0.complement();
        let n1 = l1.complement();
        match self {
            Formula::Conjunction(_, _) => seq![seq![nv, l0], seq![nv, l1], seq![v, n0, n1]],
            Formula::Disjunction(_, _) => seq![seq![v, n0], seq![v, n1], seq![nv, l0, l1]],
            Formula::Equivalence(_, _) => seq![
                seq![v, n0, n1],
                seq![v, l0, l1],
                seq![nv, n0, l1],
                seq![nv, l0, n1],
            ],
            Formula::Implication(_, _) => seq![seq![nv, n0, l1], seq![v, l0], seq![v, n1]],
            _ => seq![],
        }
    }

    /// The clauses for the operator below the negations of this formula,
    /// where `a` is the variable that stands for that operator and `next` is
    /// the first variable that is still free. They define `a`, then the
    /// second operand and what lies below it, then the first operand. A
    /// literal gives no clause.
    pub open spec fn definitions(self, a: Variable, next: int) -> Seq<Seq<Literal>>
        decreases self,
    {
        match self {
            Formula::Variable(_) => seq![],
            Formula::Negation(f) => f.definitions(a, next),
            Formula::Conjunction(f0, f1) => self.operator_definitions(*f0, *f1, a, next)
                + f1.definitions(Variable((next + f0.own_count()) as usize), next
                    + f0.own_count() + f1.own_count())
                + f0.definitions(Variable(next as usize), next + f0.own_count() + f1.fresh_count()),
            Formula::Disjunction(f0, f1) => self.operator_definitions(*f0, *f1, a, next)
                + f1.definitions(Variable((next + f0.own_count()) as usize), next
                    + f0.own_count() + f1.own_count())
                + f0.definitions(Variable(next as usize), next + f0.own_count() + f1.fresh_count()),
            Formula::Equivalence(f0, f1) => self.operator_definitions(*f0, *f1, a, next)
                + f1.definitions(Variable((next + f0.own_count()) as usize), next
                    + f0.own_count() + f1.own_count())
                + f0.definitions(Variable(next as usize), next + f0.own_count() + f1.fresh_count()),
            Formula::Implication(f0, f1) => self.operator_definitions(*f0, *f1, a, next)
                + f1.definitions(Variable((next + f0.own_count()) as usize), next
                    + f0.own_count() + f1.own_count())
                + f0.definitions(Variable(next as usize), next + f0.own_count() + f1.fresh_count()),
        }
    }

    /// The clauses that define `a` as this operator applied to the literals
    /// that stand for the operands `f0` and `f1`.
    pub open spec fn operator_definitions(
        self,
        f0: Formula,
        f1: Formula,
        a: Variable,
        next: int,
    ) -> Seq<Seq<Literal>> {
        self.definition(
            Literal { variable: a, polarity: Polarity::Positive },
            f0.stand_in(next),
            f1.stand_in(next + f0.own_count()),
        )
    }

    /// The first operand of an operator.
    pub open spec fn left(self) -> Formula {
        match self {
            Formula::Conjunction(f0, _) => *f0,
            Formula::Disjunction(f0, _) => *f0,
            Formula::Equivalence(f0, _) => *f0,
            Formula::Implication(f0, _) => *f0,
            _ => self,
        }
    }

    /// The second operand of an operator.
    pub open spec fn right(self) -> Formula {
        match self {
            Formula::Conjunction(_, f1) => *f1,
            Formula::Disjunction(_, f1) => *f1,
            Formula::Equivalence(_, f1) => *f1,
            Formula::Implication(_, f1) => *f1,
            _ => self,
        }
    }

    /// The definitions of an operator, in terms of its operands.
    pub proof fn lemma_operator_definitions(self, a: Variable, next: int)
        requires
            self.is_operator(),
        ensures
            self.definitions(a, next) == self.operator_definitions(
                self.left(),
                self.right(),
                a,
                next,
            ) + self.right().definitions(
                Variable((next + self.left().own_count()) as usize),
                next + self.left().own_count() + self.right().own_count(),
            ) + self.left().definitions(
                Variable(next as usize),
                next + self.left().own_count() + self.right().fresh_count(),
            ),
            self.fresh_count() == 1 + self.left().fresh_count() + self.right().fresh_count(),
    {
    }

    /// The conjunctive normal form of the formula, with fresh variables from
    /// `base` on: the unit clause of the literal that stands for the formula,
    /// then the definitions of the fresh variables.
    pub open spec fn tseitin(self, base: int) -> Seq<Seq<Literal>> {
        seq![seq![self.stand_in(base)]] + self.definitions(
            Variable(base as usize),
            base + self.own_count(),
        )
    }

    /// The formula and the operator below its negations give the same
    /// definitions and need as many fresh variables.
    pub proof fn lemma_kernel_definitions(self, a: Variable, next: int)
        ensures
            self.kernel().definitions(a, next) == self.definitions(a, next),
            self.kernel().fresh_count() == self.fresh_count(),
            self.own_count() <= self.fresh_count(),
            self.as_literal() is Some ==> self.fresh_count() == 0 && self.definitions(a, next)
                == Seq::<Seq<Literal>>::empty(),
            self.as_literal() is None ==> self.fresh_count() >= 1,
        decreases self,
    {
        match self {
            Formula::Negation(f) => {
                f.lemma_kernel_definitions(a, next);
            },
            _ => {},
        }
    }
}

/// The clauses that are still owed for the operators on the work stack, the
/// topmost (last) first, where `next` is the first variable that is free.
pub open spec fn pending_definitions(s: Seq<(Literal, &Formula)>, next: int) -> Seq<Seq<Literal>>
    decreases s.len(),
{
    if s.len() == 0 {
        seq![]
    } else {
        s.last().1.definitions(s.last().0.variable, next) + pending_definitions(
            s.drop_last(),
            next + s.last().1.fresh_count() - 1,
        )
    }
}

/// The number of fresh variables that the operators on the work stack have
/// or will get, their own included.
pub open spec fn pending_fresh(s: Seq<(Literal, &Formula)>) -> nat
    decreases s.len(),
{
    if s.len() == 0 {
        0
    } else {
        s.last().1.fresh_count() + pending_fresh(s.drop_last())
    }
}

/// The views of the clauses of a vector.
pub open spec fn clause_views(clauses: Seq<Clause>) -> Seq<Seq<Literal>> {
    clauses.map_values(|c: Clause| c@)
}

proof fn lemma_pending_push(s: Seq<(Literal, &Formula)>, item: (Literal, &Formula), next: int)
    ensures
        pending_definitions(s.push(item), next) == item.1.definitions(item.0.variable, next)
            + pending_definitions(s, next + item.1.fresh_count() - 1),
        pending_fresh(s.push(item)) == item.1.fresh_count() + pending_fresh(s),
{
    assert(s.push(item).drop_last() =~= s);
}

proof fn lemma_pending_fresh_bound(s: Seq<(Literal, &Formula)>)
    requires
        forall|i: int| 0 <= i < s.len() ==> (#[trigger] s[i]).1.is_operator(),
    ensures
        pending_fresh(s) >= s.len(),
    decreases s.len(),
{
    if s.len() > 0 {
        assert(s.last().1.is_operator());
        lemma_pending_fresh_bound(s.drop_last());
    }
}

/// The work stack after `f` was given its stand-in: unchanged where `f` is a
/// literal, and else extended by the operator below the negations of `f`
/// with the fresh variable `next`.
pub open spec fn after_wrap(s: Seq<(Literal, &Formula)>, f: Formula, next: int) -> Seq<
    (Literal, &Formula),
> {
    if f.as_literal() is Some {
        s
    } else {
        s.push(
            (Literal { variable: Variable(next as usize), polarity: Polarity::Positive }, &f.kernel()),
        )
    }
}

/// One turn of the compiler's loop keeps what is written and what is owed
/// together unchanged, and pays one fresh variable.
proof fn lemma_turn(rest: Seq<(Literal, &Formula)>, v: Literal, g: &Formula, start: int)
    requires
        g.is_operator(),
        v.polarity == Polarity::Positive,
        forall|i: int| 0 <= i < rest.len() ==> (#[trigger] rest[i]).1.is_operator(),
    ensures
        ({
            let f0 = g.left();
            let f1 = g.right();
            let b1 = start + f0.own_count();
            let b2 = b1 + f1.own_count();
            let stack = after_wrap(after_wrap(rest, f0, start), f1, b1);
            &&& g.definition(v, f0.stand_in(start), f1.stand_in(b1)) + pending_definitions(stack, b2)
                == pending_definitions(rest.push((v, g)), start)
            &&& pending_fresh(stack) + 1 == pending_fresh(rest.push((v, g)))
            &&& forall|i: int| 0 <= i < stack.len() ==> (#[trigger] stack[i]).1.is_operator()
            &&& b2 + pending_fresh(stack) - stack.len() == start + pending_fresh(rest.push((v, g)))
                - (rest.len() + 1)
            &&& b2 <= start + pending_fresh(rest.push((v, g))) - (rest.len() + 1)
        }),
{
    let f0 = g.left();
    let f1 = g.right();
    let b1 = start + f0.own_count();
    let b2 = b1 + f1.own_count();
    let a0 = Variable(start as usize);
    let a1 = Variable(b1 as usize);
    let middle = after_wrap(rest, f0, start);
    let stack = after_wrap(middle, f1, b1);
    let after0 = b2 + f1.fresh_count() - f1.own_count();
    let done = after0 + f0.fresh_count() - f0.own_count();
    g.lemma_operator_definitions(v.variable, start);
    f0.lemma_kernel_definitions(a0, after0);
    f1.lemma_kernel_definitions(a1, b2);
    lemma_pending_push(rest, (v, g), start);
    lemma_pending_fresh_bound(rest);
    assert(done == start + g.fresh_count() - 1);
    let owed_rest = pending_definitions(rest, done);
    if f0.as_literal() is None {
        f0.lemma_kernel_is_operator();
        lemma_pending_push(rest, (Literal { variable: a0, polarity: Polarity::Positive },
            &f0.kernel()), after0);
    }
    assert(pending_definitions(middle, after0) =~= f0.definitions(a0, after0) + owed_rest);
    assert(pending_fresh(middle) == f0.fresh_count() + pending_fresh(rest));
    if f1.as_literal() is None {
        f1.lemma_kernel_is_operator();
        lemma_pending_push(middle, (Literal { variable: a1, polarity: Polarity::Positive },
            &f1.kernel()), b2);
    }
    assert(pending_definitions(stack, b2) =~= f1.definitions(a1, b2)
        + pending_definitions(middle, after0));
    assert(pending_fresh(stack) == f1.fresh_count() + pending_fresh(middle));
    assert(v == Literal { variable: v.variable, polarity: Polarity::Positive });
    let d = g.definition(v, f0.stand_in(start), f1.stand_in(b1));
    assert(g.definitions(v.variable, start) == d + f1.definitions(a1, b2) + f0.definitions(a0, after0));
    assert(d + pending_definitions(stack, b2) =~= g.definitions(v.variable, start) + owed_rest);
}

fn clause_of_two(a: Literal, b: Literal) -> (c: Clause)
    ensures
        c@ == seq![a, b],
{
    let mut literals: Vec<Literal> = Vec::new();
    literals.push(a);
    literals.push(b);
    assert(literals@ =~= seq![a, b]);
    Clause(literals)
}

fn clause_of_three(a: Literal, b: Literal, c: Literal) -> (clause: Clause)
    ensures
        clause@ == seq![a, b, c],
{
    let mut literals: Vec<Literal> = Vec::new();
    literals.push(a);
    literals.push(b);
    literals.push(c);
    assert(literals@ =~= seq![a, b, c]);
    Clause(literals)
}

/// Writes the clauses that define `v` as the operator `g` of `l0` and `l1`.
fn emit_definition(clauses: &mut Vec<Clause>, g: &Formula, v: Literal, l0: Literal, l1: Literal)
    ensures
        clause_views(final(clauses)@) == clause_views(old(clauses)@) + g.definition(v, l0, l1),
{
    let nv = v.negate();
    let n0 = l0.negate();
    let n1 = l1.negate();
    match g {
        Formula::Conjunction(_, _) => {
            clauses.push(clause_of_two(nv, l0));
            clauses.push(clause_of_two(nv, l1));
            clauses.push(clause_of_three(v, n0, n1));
        },
        Formula::Disjunction(_, _) => {
            clauses.push(clause_of_two(v, n0));
            clauses.push(clause_of_two(v, n1));
            clauses.push(clause_of_three(nv, l0, l1));
        },
        Formula::Equivalence(_, _) => {
            clauses.push(clause_of_three(v, n0, n1));
            clauses.push(clause_of_three(v, l0, l1));
            clauses.push(clause_of_three(nv, n0, l1));
            clauses.push(clause_of_three(nv, l0, n1));
        },
        Formula::Implication(_, _) => {
            clauses.push(clause_of_three(nv, n0, l1));
            clauses.push(clause_of_two(v, l0));
            clauses.push(clause_of_two(v, n1));
        },
        _ => {},
    }
    assert(clause_views(clauses@) =~= clause_views(old(clauses)@) + g.definition(v, l0, l1));
}

/// Returns the literal that stands for `f`. Where `f` is no literal, that is
/// a fresh variable with the sign of `f`, and the operator below the
/// negations of `f` goes on the work stack with that variable.
fn wrap_formula<'a>(
    f: &'a Formula,
    next: &mut usize,
    pending: &mut Vec<(Literal, &'a Formula)>,
) -> (l: Literal)
    requires
        *old(next) + f.own_count() <= usize::MAX,
    ensures
        l == f.stand_in(*old(next) as int),
        *final(next) == *old(next) + f.own_count(),
        final(pending)@ == after_wrap(old(pending)@, *f, *old(next) as int),
{
    let (polarity, inner) = f.combine_negation();
    match inner {
        Formula::Variable(v) => Literal { variable: *v, polarity },
        _ => {
            let fresh = Variable(*next);
            pending.push((Literal::positive(fresh), inner));
            *next = *next + 1;
            Literal { variable: fresh, polarity }
        },
    }
}

impl Formula {
    /// Compiles the formula to a conjunctive normal form that is satisfiable
    /// exactly when the formula is, provided that every variable of the formula
    /// lies below `extra_vars_starts_with`. Fresh variables are taken from
    /// there on, one for each operator node; a formula that is a literal
    /// becomes the single clause of that literal.
    #[verifier::rlimit(40)]
    pub fn tseitin_encode(&self, extra_vars_starts_with: Variable) -> (cnf: Cnf)
        requires
            extra_vars_starts_with.0 + self.fresh_count() <= usize::MAX,
        ensures
            cnf@ == self.tseitin(extra_vars_starts_with.0 as int),
    {
        let ghost base = extra_vars_starts_with.0 as int;
        let mut next: usize = extra_vars_starts_with.0;
        let mut pending: Vec<(Literal, &Formula)> = Vec::new();
        let mut clauses: Vec<Clause> = Vec::new();
        proof {
            self.lemma_kernel_definitions(extra_vars_starts_with, base + self.own_count());
        }
        let l = wrap_formula(self, &mut next, &mut pending);
        let mut unit: Vec<Literal> = Vec::new();
        unit.push(l);
        clauses.push(Clause(unit));
        proof {
            assert(clauses@[0]@ =~= seq![self.stand_in(base)]);
            assert(clause_views(clauses@) =~= seq![seq![self.stand_in(base)]]);
            reveal_with_fuel(pending_definitions, 2);
            reveal_with_fuel(pending_fresh, 2);
            if self.as_literal() is None {
                self.lemma_kernel_is_operator();
                assert(pending@.drop_last() =~= Seq::<(Literal, &Formula)>::empty());
            }
        }
        while pending.len() > 0
            invariant
                clause_views(clauses@) + pending_definitions(pending@, next as int) == self.tseitin(
                    base,
                ),
                next + pending_fresh(pending@) - pending@.len() <= usize::MAX,
                forall|i: int|
                    0 <= i < pending@.len() ==> (#[trigger] pending@[i]).1.is_operator()
                        && pending@[i].0.polarity == Polarity::Positive,
            decreases pending_fresh(pending@),
        {
            let ghost before = pending@;
            let ghost start = next as int;
            let ghost written = clause_views(clauses@);
            let (v, g) = pending.pop().unwrap();
            let ghost rest = pending@;
            proof {
                assert(rest =~= before.drop_last());
                assert(before =~= rest.push((v, g)));
                assert(before[before.len() - 1].1.is_operator());
                lemma_turn(rest, v, g, start);
            }
            match g {
                Formula::Conjunction(f0, f1)
                | Formula::Disjunction(f0, f1)
                | Formula::Equivalence(f0, f1)
                | Formula::Implication(f0, f1) => {
                    assert(**f0 == g.left() && **f1 == g.right());
                    proof {
                        f0.lemma_kernel_definitions(v.variable, start);
                        f1.lemma_kernel_definitions(v.variable, start);
                    }
                    let l0 = wrap_formula(f0, &mut next, &mut pending);
                    let l1 = wrap_formula(f1, &mut next, &mut pending);
                    emit_definition(&mut clauses, g, v, l0, l1);
                    proof {
                        let d = g.definition(v, l0, l1);
                        let owed = pending_definitions(pending@, next as int);
                        assert((written + d) + owed =~= written + (d + owed));
                    }
                },
                _ => {},
            }
        }
        assert(pending_definitions(pending@, next as int) =~= Seq::<Seq<Literal>>::empty());
        let cnf = Cnf(clauses);
        assert(cnf@ =~= clause_views(clauses@));
        cnf
    }
}

/// The number of fresh variables that the formulas on a work stack need.
pub open spec fn pending_count(s: Seq<&Formula>) -> nat
    decreases s.len(),
{
    if s.len() == 0 {
        0
    } else {
        s.last().fresh_count() + pending_count(s.drop_last())
    }
}

proof fn lemma_pending_count_push(s: Seq<&Formula>, f: &Formula)
    ensures
        pending_count(s.push(f)) == f.fresh_count() + pending_count(s),
        crate::sat::formula::pending_size(s.push(f)) == f.size() + crate::sat::formula::pending_size(
            s,
        ),
{
    assert(s.push(f).drop_last() =~= s);
}

impl Formula {
    /// The number of operator nodes, which is the number of fresh variables
    /// that the transformation introduces; `None` where it does not fit.
    pub fn operator_count(&self) -> (n: Option<usize>)
        ensures
            match n {
                Some(k) => k == self.fresh_count(),
                None => self.fresh_count() > usize::MAX,
            },
    {
        let mut count: usize = 0;
        let mut pending: Vec<&Formula> = Vec::new();
        pending.push(self);
        proof {
            assert(pending@.drop_last() =~= Seq::<&Formula>::empty());
            reveal_with_fuel(pending_count, 2);
        }
        while pending.len() > 0
            invariant
                count + pending_count(pending@) == self.fresh_count(),
            decreases crate::sat::formula::pending_size(pending@),
        {
            let ghost before = pending@;
            let f = pending.pop().unwrap();
            let ghost rest = pending@;
            proof {
                assert(rest =~= before.drop_last());
                assert(before =~= rest.push(f));
                lemma_pending_count_push(rest, f);
            }
            match f {
                Formula::Variable(_) => {},
                Formula::Negation(f0) => {
                    pending.push(f0);
                    proof {
                        lemma_pending_count_push(rest, f0);
                    }
                },
                Formula::Conjunction(f0, f1)
                | Formula::Disjunction(f0, f1)
                | Formula::Equivalence(f0, f1)
                | Formula::Implication(f0, f1) => {
                    if count == usize::MAX {
                        return None;
                    }
                    count = count + 1;
                    pending.push(f0);
                    pending.push(f1);
                    proof {
                        lemma_pending_count_push(rest, f0);
                        lemma_pending_count_push(rest.push(f0), f1);
                    }
                },
            }
        }
        Some(count)
    }

    /// Compiles the formula as `tseitin_encode` does, where the fresh
    /// variables fit below the largest index, and returns `None` where they
    /// do not.
    pub fn checked_tseitin_encode(&self, extra_vars_starts_with: Variable) -> (cnf: Option<Cnf>)
        ensures
            cnf is Some <==> extra_vars_starts_with.0 + self.fresh_count() <= usize::MAX,
            cnf is Some ==> cnf.unwrap()@ == self.tseitin(extra_vars_starts_with.0 as int),
    {
        match self.operator_count() {
            Some(k) => {
                if k <= usize::MAX - extra_vars_starts_with.0 {
                    Some(self.tseitin_encode(extra_vars_starts_with))
                } else {
                    None
                }
            },
            None => None,
        }
    }
}

impl Cnf {
    /// The conjunctive normal form of the formula, with fresh variables from
    /// the one after the largest variable of the formula.
    pub fn from_formula(value: &Formula) -> (cnf: Cnf)
        requires
            value.greatest_variable() + 1 + value.fresh_count() <= usize::MAX,
        ensures
            cnf@ == value.tseitin(value.greatest_variable() + 1),
    {
        let max_var = value.maximum_variable();
        value.tseitin_encode(max_var.next_variable())
    }
}

} // verus!

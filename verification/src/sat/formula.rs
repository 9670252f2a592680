//! Propositional formulas as trees, their meaning under a valuation, and the
//! queries that the compiler to conjunctive normal form needs.
//!
//! Every executable traversal keeps its own work stack or walks a chain with
//! a loop, so that a deep tree costs heap and not program stack.

use vstd::prelude::*;
use crate::sat::cnf::{Literal, Polarity, Variable};

verus! {

/// A propositional formula.
#[derive(Debug)]
pub enum Formula {
    Variable(Variable),
    Negation(Box<Formula>),
    Conjunction(Box<Formula>, Box<Formula>),
    Disjunction(Box<Formula>, Box<Formula>),
    Equivalence(Box<Formula>, Box<Formula>),
    Implication(Box<Formula>, Box<Formula>),
}

impl Clone for Formula {
    fn clone(&self) -> (res: Formula)
        ensures
            res == *self,
        decreases self,
    {
        match self {
            Formula::Variable(v) => Formula::Variable(*v),
            Formula::Negation(f) => Formula::Negation(Box::new((&**f).clone())),
            Formula::Conjunction(f0, f1) => Formula::Conjunction(
                Box::new((&**f0).clone()),
                Box::new((&**f1).clone()),
            ),
            Formula::Disjunction(f0, f1) => Formula::Disjunction(
                Box::new((&**f0).clone()),
                Box::new((&**f1).clone()),
            ),
            Formula::Equivalence(f0, f1) => Formula::Equivalence(
                Box::new((&**f0).clone()),
                Box::new((&**f1).clone()),
            ),
            Formula::Implication(f0, f1) => Formula::Implication(
                Box::new((&**f0).clone()),
                Box::new((&**f1).clone()),
            ),
        }
    }
}

/// The larger of two numbers.
pub open spec fn max_usize(a: usize, b: usize) -> usize {
    if a >= b {
        a
    } else {
        b
    }
}

impl Formula {
    /// The truth value of the formula under the valuation `m`.
    pub open spec fn eval(self, m: Set<usize>) -> bool
        decreases self,
    {
        match self {
            Formula::Variable(v) => m.contains(v.0),
            Formula::Negation(f) => !f.eval(m),
            Formula::Conjunction(f0, f1) => f0.eval(m) && f1.eval(m),
            Formula::Disjunction(f0, f1) => f0.eval(m) || f1.eval(m),
            Formula::Equivalence(f0, f1) => f0.eval(m) == f1.eval(m),
            Formula::Implication(f0, f1) => f0.eval(m) ==> f1.eval(m),
        }
    }

    /// Some valuation makes the formula true.
    pub open spec fn satisfiable(self) -> bool {
        exists|m: Set<usize>| self.eval(m)
    }

    /// The number of nodes of the tree.
    pub open spec fn size(self) -> nat
        decreases self,
    {
        match self {
            Formula::Variable(_) => 1,
            Formula::Negation(f) => 1 + f.size(),
            Formula::Conjunction(f0, f1) => 1 + f0.size() + f1.size(),
            Formula::Disjunction(f0, f1) => 1 + f0.size() + f1.size(),
            Formula::Equivalence(f0, f1) => 1 + f0.size() + f1.size(),
            Formula::Implication(f0, f1) => 1 + f0.size() + f1.size(),
        }
    }

    /// The largest index of a variable that occurs in the formula.
    pub open spec fn greatest_variable(self) -> usize
        decreases self,
    {
        match self {
            Formula::Variable(v) => v.0,
            Formula::Negation(f) => f.greatest_variable(),
            Formula::Conjunction(f0, f1) => max_usize(
                f0.greatest_variable(),
                f1.greatest_variable(),
            ),
            Formula::Disjunction(f0, f1) => max_usize(
                f0.greatest_variable(),
                f1.greatest_variable(),
            ),
            Formula::Equivalence(f0, f1) => max_usize(
                f0.greatest_variable(),
                f1.greatest_variable(),
            ),
            Formula::Implication(f0, f1) => max_usize(
                f0.greatest_variable(),
                f1.greatest_variable(),
            ),
        }
    }

    /// The formula below the negations that wrap this one: a variable or an
    /// operator, never a negation.
    pub open spec fn kernel(self) -> Formula
        decreases self,
    {
        match self {
            Formula::Negation(f) => f.kernel(),
            _ => self,
        }
    }

    /// Whether the negations that wrap the kernel cancel out (`Positive`) or
    /// leave one negation (`Negative`).
    pub open spec fn sign(self) -> Polarity
        decreases self,
    {
        match self {
            Formula::Negation(f) => Polarity::of(!f.sign().truth()),
            _ => Polarity::Positive,
        }
    }

    /// The literal that the formula is, where it is a variable under any
    /// number of negations.
    pub open spec fn as_literal(self) -> Option<Literal> {
        match self.kernel() {
            Formula::Variable(v) => Some(Literal { variable: v, polarity: self.sign() }),
            _ => None,
        }
    }

    /// Whether the formula is one of the four binary operators.
    pub open spec fn is_operator(self) -> bool {
        match self {
            Formula::Variable(_) => false,
            Formula::Negation(_) => false,
            _ => true,
        }
    }

    /// The formula is true exactly when its kernel has the truth value of its
    /// sign.
    pub proof fn lemma_kernel_sign(self, m: Set<usize>)
        ensures
            self.eval(m) == (self.kernel().eval(m) == self.sign().truth()),
            self.kernel().greatest_variable() == self.greatest_variable(),
            self.kernel().size() <= self.size(),
            !(self.kernel() is Negation),
        decreases self,
    {
        match self {
            Formula::Negation(f) => {
                f.lemma_kernel_sign(m);
            },
            _ => {},
        }
    }

    /// A formula that is a literal is true exactly when that literal holds,
    /// and the literal's variable is the only one in it.
    pub proof fn lemma_as_literal(self, m: Set<usize>)
        requires
            self.as_literal() is Some,
        ensures
            self.eval(m) == self.as_literal().unwrap().holds(m),
            self.as_literal().unwrap().variable.0 == self.greatest_variable(),
    {
        self.lemma_kernel_sign(m);
    }

    /// A formula that is no literal has an operator as its kernel.
    pub proof fn lemma_kernel_is_operator(self)
        requires
            self.as_literal() is None,
        ensures
            self.kernel().is_operator(),
        decreases self,
    {
        match self {
            Formula::Negation(f) => {
                f.lemma_kernel_is_operator();
            },
            _ => {},
        }
    }

    /// Two valuations that agree on every variable up to the greatest one of
    /// the formula give it the same truth value.
    pub proof fn lemma_eval_agree(self, m0: Set<usize>, m1: Set<usize>)
        requires
            forall|v: usize| v <= self.greatest_variable() ==> m0.contains(v) == m1.contains(v),
        ensures
            self.eval(m0) == self.eval(m1),
        decreases self,
    {
        match self {
            Formula::Variable(v) => {},
            Formula::Negation(f) => {
                f.lemma_eval_agree(m0, m1);
            },
            Formula::Conjunction(f0, f1) => {
                f0.lemma_eval_agree(m0, m1);
                f1.lemma_eval_agree(m0, m1);
            },
            Formula::Disjunction(f0, f1) => {
                f0.lemma_eval_agree(m0, m1);
                f1.lemma_eval_agree(m0, m1);
            },
            Formula::Equivalence(f0, f1) => {
                f0.lemma_eval_agree(m0, m1);
                f1.lemma_eval_agree(m0, m1);
            },
            Formula::Implication(f0, f1) => {
                f0.lemma_eval_agree(m0, m1);
                f1.lemma_eval_agree(m0, m1);
            },
        }
    }

    /// The largest variable of the formula, and variable 0 where its only
    /// variable is that one.
    pub fn maximum_variable(&self) -> (v: Variable)
        ensures
            v.0 == self.greatest_variable(),
    {
        let mut ans: usize = 0;
        let mut pending: Vec<&Formula> = Vec::new();
        pending.push(self);
        proof {
            assert(pending@.drop_last() =~= Seq::<&Formula>::empty());
            reveal_with_fuel(pending_greatest, 2);
            reveal_with_fuel(pending_size, 2);
        }
        while pending.len() > 0
            invariant
                max_usize(ans, pending_greatest(pending@)) == self.greatest_variable(),
            decreases pending_size(pending@),
        {
            let ghost before = pending@;
            let f = pending.pop().unwrap();
            assert(pending@ =~= before.drop_last());
            match f {
                Formula::Variable(v) => {
                    if v.0 > ans {
                        ans = v.0;
                    }
                },
                Formula::Negation(f0) => {
                    pending.push(f0);
                    proof {
                        lemma_pending_push(before.drop_last(), f0);
                    }
                },
                Formula::Conjunction(f0, f1) => {
                    pending.push(f0);
                    pending.push(f1);
                    proof {
                        lemma_pending_push(before.drop_last(), f0);
                        lemma_pending_push(before.drop_last().push(f0), f1);
                    }
                },
                Formula::Disjunction(f0, f1) => {
                    pending.push(f0);
                    pending.push(f1);
                    proof {
                        lemma_pending_push(before.drop_last(), f0);
                        lemma_pending_push(before.drop_last().push(f0), f1);
                    }
                },
                Formula::Equivalence(f0, f1) => {
                    pending.push(f0);
                    pending.push(f1);
                    proof {
                        lemma_pending_push(before.drop_last(), f0);
                        lemma_pending_push(before.drop_last().push(f0), f1);
                    }
                },
                Formula::Implication(f0, f1) => {
                    pending.push(f0);
                    pending.push(f1);
                    proof {
                        lemma_pending_push(before.drop_last(), f0);
                        lemma_pending_push(before.drop_last().push(f0), f1);
                    }
                },
            }
        }
        Variable(ans)
    }

    /// Folds the negations that wrap the formula into one polarity, and
    /// returns it with the formula below them.
    pub fn combine_negation(&self) -> (r: (Polarity, &Formula))
        ensures
            r.0 == self.sign(),
            *r.1 == self.kernel(),
    {
        let mut polarity = Polarity::Positive;
        let mut current: &Formula = self;
        loop
            invariant
                self.kernel() == current.kernel(),
                self.sign().truth() == (current.sign().truth() == polarity.truth()),
            decreases current.size(),
        {
            match current {
                Formula::Negation(inner) => {
                    polarity = polarity.negate();
                    current = inner;
                },
                _ => {
                    return (polarity, current);
                },
            }
        }
    }

    /// The literal that the formula is, if it is a variable under any number
    /// of negations.
    pub fn encode_literal(&self) -> (l: Option<Literal>)
        ensures
            l == self.as_literal(),
    {
        let (polarity, inner) = self.combine_negation();
        match inner {
            Formula::Variable(v) => Some(Literal { variable: *v, polarity }),
            _ => None,
        }
    }
}

/// The largest variable among the formulas that wait on a work stack.
pub open spec fn pending_greatest(s: Seq<&Formula>) -> usize
    decreases s.len(),
{
    if s.len() == 0 {
        0
    } else {
        max_usize(s.last().greatest_variable(), pending_greatest(s.drop_last()))
    }
}

/// The number of nodes of the formulas that wait on a work stack.
pub open spec fn pending_size(s: Seq<&Formula>) -> nat
    decreases s.len(),
{
    if s.len() == 0 {
        0
    } else {
        s.last().size() + pending_size(s.drop_last())
    }
}

proof fn lemma_pending_push(s: Seq<&Formula>, f: &Formula)
    ensures
        pending_greatest(s.push(f)) == max_usize(f.greatest_variable(), pending_greatest(s)),
        pending_size(s.push(f)) == f.size() + pending_size(s),
{
    assert(s.push(f).drop_last() =~= s);
}

} // verus!

//! Partial assignments of polarities to variables.

use vstd::prelude::*;
use vstd::std_specs::hash::*;
use std::collections::HashMap;
use crate::sat::cnf::{Literal, Polarity, Variable};

verus! {

broadcast use group_hash_axioms;

/// A partial assignment: a finite map from variables to polarities. It keeps
/// the order in which its variables were first assigned.
#[derive(Debug, Clone)]
pub struct Assignment {
    values: HashMap<usize, Polarity>,
    order: Vec<Variable>,
}

impl View for Assignment {
    type V = Map<usize, Polarity>;

    closed spec fn view(&self) -> Map<usize, Polarity> {
        self.values@
    }
}

/// The valuation `m` gives every variable of the assignment `a` the truth
/// value that `a` gives it.
pub open spec fn agrees(m: Set<usize>, a: Map<usize, Polarity>) -> bool {
    forall|v: usize| #[trigger] a.contains_key(v) ==> m.contains(v) == a[v].truth()
}

/// The valuation in which exactly the variables that `a` makes positive are
/// true.
pub open spec fn positive_part(a: Map<usize, Polarity>) -> Set<usize> {
    Set::new(|v: usize| a.contains_key(v) && a[v].truth())
}

/// The variables of `order`, and after them those of `more` that were not
/// there by then, each once.
pub open spec fn joined_order(order: Seq<Variable>, more: Seq<Variable>) -> Seq<Variable>
    decreases more.len(),
{
    if more.len() == 0 {
        order
    } else {
        let front = joined_order(order, more.drop_last());
        if front.contains(more.last()) {
            front
        } else {
            front.push(more.last())
        }
    }
}

impl Assignment {
    /// The variables in `order` are exactly the assigned ones.
    pub closed spec fn wf(&self) -> bool {
        &&& forall|i: int|
            0 <= i < self.order@.len() ==> self.values@.contains_key((#[trigger] self.order@[i]).0)
        &&& forall|v: usize| #[trigger]
            self.values@.contains_key(v) ==> self.order@.contains(Variable(v))
    }

    /// The assignment that assigns nothing.
    pub fn new() -> (a: Assignment)
        ensures
            a.wf(),
            a@ == Map::<usize, Polarity>::empty(),
            a.spec_order() == Seq::<Variable>::empty(),
    {
        Assignment { values: HashMap::new(), order: Vec::new() }
    }

    /// The polarity of `variable`, if it is assigned.
    pub fn get(&self, variable: Variable) -> (p: Option<Polarity>)
        ensures
            p == if self@.contains_key(variable.0) {
                Some(self@[variable.0])
            } else {
                None::<Polarity>
            },
    {
        match self.values.get(&variable.0) {
            Some(p) => Some(*p),
            None => None,
        }
    }

    /// The number of assigned variables.
    pub fn len(&self) -> (n: usize)
        ensures
            n == self@.len(),
    {
        self.values.len()
    }

    /// Assigns `polarity` to `variable`, in place of what it had. A variable
    /// that had none comes last in the order.
    pub fn insert(&mut self, variable: Variable, polarity: Polarity)
        requires
            old(self).wf(),
        ensures
            final(self).wf(),
            final(self)@ == old(self)@.insert(variable.0, polarity),
            final(self).spec_order() == if old(self).spec_order().contains(variable) {
                old(self).spec_order()
            } else {
                old(self).spec_order().push(variable)
            },
    {
        proof {
            if old(self).order@.contains(variable) {
                let i = choose|i: int| 0 <= i < old(self).order@.len() && old(self).order@[i]
                    == variable;
                assert(old(self).values@.contains_key(old(self).order@[i].0));
            }
            if old(self).values@.contains_key(variable.0) {
                assert(old(self).order@.contains(Variable(variable.0)));
            }
        }
        let known = self.values.insert(variable.0, polarity);
        if known.is_none() {
            self.order.push(variable);
            proof {
                let before = old(self).order@;
                assert(self.order@[before.len() as int] == variable);
                assert forall|v: usize| #[trigger]
                    self.values@.contains_key(v) implies self.order@.contains(Variable(v)) by {
                    if v != variable.0 {
                        let i = choose|i: int| 0 <= i < before.len() && before[i] == Variable(v);
                        assert(self.order@[i] == Variable(v));
                    }
                }
            }
        }
    }

    /// The literals of the assignment, one for each assigned variable, in
    /// the order in which the variables were first assigned.
    pub fn literals(&self) -> (r: Vec<Literal>)
        requires
            self.wf(),
        ensures
            r@.len() == self.spec_order().len(),
            forall|i: int|
                0 <= i < r@.len() ==> self@.contains_key((#[trigger] r@[i]).variable.0)
                    && self@[r@[i].variable.0] == r@[i].polarity && r@[i].variable
                    == self.spec_order()[i],
            forall|v: usize| #[trigger]
                self@.contains_key(v) ==> self.spec_order().contains(Variable(v)),
    {
        let mut r: Vec<Literal> = Vec::new();
        let mut i: usize = 0;
        while i < self.order.len()
            invariant
                self.wf(),
                i <= self.order.len(),
                r@.len() == i,
                forall|j: int|
                    0 <= j < i ==> self@.contains_key((#[trigger] r@[j]).variable.0)
                        && self@[r@[j].variable.0] == r@[j].polarity && r@[j].variable
                        == self.order@[j],
            decreases self.order.len() - i,
        {
            let variable = self.order[i];
            assert(self.values@.contains_key(self.order@[i as int].0));
            match self.values.get(&variable.0) {
                Some(p) => {
                    r.push(Literal { variable, polarity: *p });
                },
                None => {
                    assert(false);
                },
            }
            i += 1;
        }
        r
    }

    /// The assigned variables, in the order in which they were first
    /// assigned.
    pub closed spec fn spec_order(&self) -> Seq<Variable> {
        self.order@
    }

    /// Adds every assignment of `other`, in place of what those variables
    /// had; the variables that are new come last, in their order in `other`.
    pub fn extend(&mut self, other: &Assignment)
        requires
            old(self).wf(),
            other.wf(),
        ensures
            final(self).wf(),
            final(self)@ == old(self)@.union_prefer_right(other@),
            final(self).spec_order() == joined_order(old(self).spec_order(), other.spec_order()),
    {
        let mut i: usize = 0;
        assert(other.order@.take(0) =~= Seq::<Variable>::empty());
        while i < other.order.len()
            invariant
                self.wf(),
                other.wf(),
                i <= other.order.len(),
                self.order@ == joined_order(old(self).order@, other.order@.take(i as int)),
                forall|v: usize| #[trigger]
                    self@.contains_key(v) <==> old(self)@.contains_key(v) || exists|j: int|
                        0 <= j < i && other.order@[j] == Variable(v),
                forall|v: usize| #[trigger]
                    self@.contains_key(v) ==> self@[v] == if exists|j: int|
                        0 <= j < i && other.order@[j] == Variable(v) {
                        other@[v]
                    } else {
                        old(self)@[v]
                    },
            decreases other.order.len() - i,
        {
            let variable = other.order[i];
            assert(other.values@.contains_key(other.order@[i as int].0));
            match other.values.get(&variable.0) {
                Some(p) => {
                    self.insert(variable, *p);
                },
                None => {
                    assert(false);
                },
            }
            proof {
                let next = other.order@.take(i + 1);
                assert(next.drop_last() =~= other.order@.take(i as int));
                assert(next.last() == variable);
            }
            i += 1;
        }
        proof {
            assert(other.order@.take(i as int) =~= other.order@);
            let u = old(self)@.union_prefer_right(other@);
            assert forall|v: usize| other@.contains_key(v) <==> exists|j: int|
                0 <= j < i && other.order@[j] == Variable(v) by {
                if other@.contains_key(v) {
                    assert(other.order@.contains(Variable(v)));
                }
            }
            assert(self@ =~= u);
        }
    }
}

/// The valuation made of the positive part of an assignment agrees with it.
pub proof fn lemma_positive_part_agrees(a: Map<usize, Polarity>)
    ensures
        agrees(positive_part(a), a),
{
}

} // verus!

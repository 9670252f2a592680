//! Variables, polarities, literals, clauses and conjunctive normal forms,
//! together with their meaning under a valuation.

use vstd::prelude::*;

verus! {

/// A propositional variable, named by a non-negative integer.
/// Variable 0 is kept as a placeholder that stands for "unused".
#[derive(Debug, Clone, Copy, PartialEq, Eq, PartialOrd, Ord, Hash, Structural)]
pub struct Variable(pub usize);

impl Variable {
    /// The variable that follows this one.
    pub fn next_variable(&self) -> (next: Variable)
        requires
            self.0 < usize::MAX,
        ensures
            next.0 == self.0 + 1,
    {
        Variable(self.0 + 1)
    }
}

impl From<usize> for Variable {
    fn from(value: usize) -> (v: Variable) {
        Variable(value)
    }
}

impl vstd::std_specs::convert::FromSpecImpl<usize> for Variable {
    open spec fn obeys_from_spec() -> bool {
        true
    }

    open spec fn from_spec(value: usize) -> Variable {
        Variable(value)
    }
}

/// The sign with which a variable occurs.
#[derive(Debug, Clone, Copy, PartialEq, Eq, Hash, Structural)]
pub enum Polarity {
    Positive,
    Negative,
}

impl Polarity {
    /// The truth value that a variable must take for a literal of this
    /// polarity to hold.
    pub open spec fn truth(self) -> bool {
        self == Polarity::Positive
    }

    /// The polarity that stands for a truth value.
    pub open spec fn of(b: bool) -> Polarity {
        if b {
            Polarity::Positive
        } else {
            Polarity::Negative
        }
    }

    /// The opposite polarity.
    pub fn negate(&self) -> (p: Polarity)
        ensures
            p.truth() == !self.truth(),
    {
        match self {
            Polarity::Positive => Polarity::Negative,
            Polarity::Negative => Polarity::Positive,
        }
    }
}

impl core::ops::BitAnd for Polarity {
    type Output = Polarity;

    /// Conjunction of the two truth values.
    fn bitand(self, rhs: Polarity) -> (p: Polarity) {
        match (self, rhs) {
            (Polarity::Positive, Polarity::Positive) => Polarity::Positive,
            _ => Polarity::Negative,
        }
    }
}

impl vstd::std_specs::ops::BitAndSpecImpl for Polarity {
    open spec fn obeys_bitand_spec() -> bool {
        true
    }

    open spec fn bitand_req(self, rhs: Polarity) -> bool {
        true
    }

    open spec fn bitand_spec(self, rhs: Polarity) -> Polarity {
        Polarity::of(self.truth() && rhs.truth())
    }
}

impl core::ops::BitOr for Polarity {
    type Output = Polarity;

    /// Disjunction of the two truth values.
    fn bitor(self, rhs: Polarity) -> (p: Polarity) {
        match (self, rhs) {
            (Polarity::Negative, Polarity::Negative) => Polarity::Negative,
            _ => Polarity::Positive,
        }
    }
}

impl vstd::std_specs::ops::BitOrSpecImpl for Polarity {
    open spec fn obeys_bitor_spec() -> bool {
        true
    }

    open spec fn bitor_req(self, rhs: Polarity) -> bool {
        true
    }

    open spec fn bitor_spec(self, rhs: Polarity) -> Polarity {
        Polarity::of(self.truth() || rhs.truth())
    }
}

impl core::ops::BitXor for Polarity {
    type Output = Polarity;

    /// Exclusive disjunction of the two truth values.
    fn bitxor(self, rhs: Polarity) -> (p: Polarity) {
        if self != rhs {
            Polarity::Positive
        } else {
            Polarity::Negative
        }
    }
}

impl vstd::std_specs::ops::BitXorSpecImpl for Polarity {
    open spec fn obeys_bitxor_spec() -> bool {
        true
    }

    open spec fn bitxor_req(self, rhs: Polarity) -> bool {
        true
    }

    open spec fn bitxor_spec(self, rhs: Polarity) -> Polarity {
        Polarity::of(self.truth() != rhs.truth())
    }
}

/// A variable together with the polarity of its occurrence.
#[derive(Debug, Clone, Copy, PartialEq, Eq, Hash, Structural)]
pub struct Literal {
    pub variable: Variable,
    pub polarity: Polarity,
}

impl Literal {
    /// Whether the literal is true under the valuation `m`, the set of the
    /// variables that are true.
    pub open spec fn holds(self, m: Set<usize>) -> bool {
        m.contains(self.variable.0) == self.polarity.truth()
    }

    /// The complementary literal.
    pub open spec fn complement(self) -> Literal {
        Literal { variable: self.variable, polarity: Polarity::of(!self.polarity.truth()) }
    }

    /// The literal that says that the variable is true.
    pub fn positive(variable: Variable) -> (l: Literal)
        ensures
            l == (Literal { variable, polarity: Polarity::Positive }),
    {
        Literal { variable, polarity: Polarity::Positive }
    }

    /// The literal that says that the variable is false.
    pub fn negative(variable: Variable) -> (l: Literal)
        ensures
            l == (Literal { variable, polarity: Polarity::Negative }),
    {
        Literal { variable, polarity: Polarity::Negative }
    }

    /// The complementary literal.
    pub fn negate(&self) -> (l: Literal)
        ensures
            l == self.complement(),
    {
        Literal { variable: self.variable, polarity: self.polarity.negate() }
    }
}

/// A disjunction of literals. The empty clause cannot be satisfied.
#[derive(Debug, PartialEq, Eq)]
pub struct Clause(pub Vec<Literal>);

impl View for Clause {
    type V = Seq<Literal>;

    open spec fn view(&self) -> Seq<Literal> {
        self.0@
    }
}

/// A conjunction of clauses. The empty conjunction is true.
#[derive(Debug, PartialEq, Eq)]
pub struct Cnf(pub Vec<Clause>);

impl View for Cnf {
    type V = Seq<Seq<Literal>>;

    open spec fn view(&self) -> Seq<Seq<Literal>> {
        self.0@.map_values(|c: Clause| c@)
    }
}

/// A clause holds under `m` when one of its literals does.
pub open spec fn clause_holds(c: Seq<Literal>, m: Set<usize>) -> bool {
    exists|i: int| 0 <= i < c.len() && (#[trigger] c[i]).holds(m)
}

/// A conjunctive normal form holds under `m` when each of its clauses does.
pub open spec fn cnf_holds(f: Seq<Seq<Literal>>, m: Set<usize>) -> bool {
    forall|i: int| 0 <= i < f.len() ==> clause_holds(#[trigger] f[i], m)
}

/// Some valuation makes every clause true.
pub open spec fn satisfiable(f: Seq<Seq<Literal>>) -> bool {
    exists|m: Set<usize>| cnf_holds(f, m)
}

/// Whether the variable `v` occurs in the clause.
pub open spec fn clause_mentions(c: Seq<Literal>, v: usize) -> bool {
    exists|i: int| 0 <= i < c.len() && (#[trigger] c[i]).variable.0 == v
}

/// Whether the variable `v` occurs in some clause.
pub open spec fn cnf_mentions(f: Seq<Seq<Literal>>, v: usize) -> bool {
    exists|i: int| 0 <= i < f.len() && clause_mentions(#[trigger] f[i], v)
}

impl Default for Cnf {
    fn default() -> (cnf: Cnf)
        ensures
            cnf@ == Seq::<Seq<Literal>>::empty(),
    {
        let cnf = Cnf(Vec::new());
        assert(cnf@ =~= Seq::<Seq<Literal>>::empty());
        cnf
    }
}

impl Clone for Clause {
    fn clone(&self) -> (c: Clause)
        ensures
            c@ == self@,
    {
        let mut lits: Vec<Literal> = Vec::new();
        let mut i: usize = 0;
        while i < self.0.len()
            invariant
                i <= self.0.len(),
                lits@ == self.0@.take(i as int),
            decreases self.0.len() - i,
        {
            lits.push(self.0[i]);
            assert(self.0@.take(i + 1) == self.0@.take(i as int).push(self.0@[i as int]));
            i += 1;
        }
        assert(self.0@.take(i as int) == self.0@);
        Clause(lits)
    }
}

impl Clone for Cnf {
    fn clone(&self) -> (cnf: Cnf)
        ensures
            cnf@ == self@,
    {
        let mut clauses: Vec<Clause> = Vec::new();
        let mut i: usize = 0;
        while i < self.0.len()
            invariant
                i <= self.0.len(),
                clauses.len() == i,
                forall|j: int| 0 <= j < i ==> (#[trigger] clauses[j])@ == self.0[j]@,
            decreases self.0.len() - i,
        {
            clauses.push(self.0[i].clone());
            i += 1;
        }
        let cnf = Cnf(clauses);
        assert(cnf@ =~= self@);
        cnf
    }
}

impl Cnf {
    /// The conjunction that consists of the single clause made of `l`.
    pub fn unit(l: Literal) -> (cnf: Cnf)
        ensures
            cnf@ == seq![seq![l]],
    {
        let mut literals: Vec<Literal> = Vec::new();
        literals.push(l);
        let mut clauses: Vec<Clause> = Vec::new();
        clauses.push(Clause(literals));
        let cnf = Cnf(clauses);
        assert(cnf@[0] =~= seq![l]);
        assert(cnf@ =~= seq![seq![l]]);
        cnf
    }

    /// Appends the clauses of `other`: the result is the conjunction of both.
    pub fn merge(&mut self, other: Cnf)
        ensures
            final(self)@ == old(self)@ + other@,
    {
        let ghost appended = other@;
        let mut other = other;
        self.0.append(&mut other.0);
        assert(self@ =~= old(self)@ + appended);
    }
}

/// A valuation satisfies the conjunction of two forms exactly when it
/// satisfies both.
pub proof fn lemma_cnf_holds_concat(
    a: Seq<Seq<Literal>>,
    b: Seq<Seq<Literal>>,
    m: Set<usize>,
)
    ensures
        cnf_holds(a + b, m) <==> cnf_holds(a, m) && cnf_holds(b, m),
{
    if cnf_holds(a + b, m) {
        assert forall|i: int| 0 <= i < a.len() implies clause_holds(#[trigger] a[i], m) by {
            assert((a + b)[i] == a[i]);
        }
        assert forall|i: int| 0 <= i < b.len() implies clause_holds(#[trigger] b[i], m) by {
            assert((a + b)[a.len() + i] == b[i]);
        }
    }
    if cnf_holds(a, m) && cnf_holds(b, m) {
        assert forall|i: int| 0 <= i < (a + b).len() implies clause_holds(
            #[trigger] (a + b)[i],
            m,
        ) by {
            if i < a.len() {
                assert((a + b)[i] == a[i]);
            } else {
                assert((a + b)[i] == b[i - a.len()]);
            }
        }
    }
}

} // verus!

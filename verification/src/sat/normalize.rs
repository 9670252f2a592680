//! The dense form of a conjunctive normal form: variables renumbered from 1
//! in the order of their first occurrence, literals as signed integers.

use vstd::prelude::*;
use vstd::std_specs::hash::*;
use std::collections::HashMap;
use crate::sat::cnf::{Cnf, Literal, Polarity, Variable, cnf_holds};

verus! {

broadcast use group_hash_axioms;

/// The literals of all clauses, in order.
pub open spec fn literals_of(f: Seq<Seq<Literal>>) -> Seq<Literal>
    decreases f.len(),
{
    if f.len() == 0 {
        seq![]
    } else {
        literals_of(f.drop_last()) + f.last()
    }
}

/// The variables of the literals, each once, in the order of their first
/// occurrence.
pub open spec fn first_occurrences(literals: Seq<Literal>) -> Seq<usize>
    decreases literals.len(),
{
    if literals.len() == 0 {
        seq![]
    } else {
        let before = first_occurrences(literals.drop_last());
        let v = literals.last().variable.0;
        if before.contains(v) {
            before
        } else {
            before.push(v)
        }
    }
}

/// The variables of the form, each once, in the order of their first
/// occurrence.
pub open spec fn variable_table(f: Seq<Seq<Literal>>) -> Seq<usize> {
    first_occurrences(literals_of(f))
}

/// The literal as a signed integer: the place of its variable in the table,
/// counted from 1, negated where the literal is negative.
pub open spec fn signed_index(table: Seq<usize>, l: Literal) -> int {
    let i = table.index_of(l.variable.0) + 1;
    if l.polarity.truth() {
        i
    } else {
        -i
    }
}

/// The literals of a clause as signed integers.
pub open spec fn normalized_clause(table: Seq<usize>, c: Seq<Literal>) -> Seq<int> {
    c.map_values(|l: Literal| signed_index(table, l))
}

/// The clauses that hold a literal.
pub open spec fn nonempty() -> spec_fn(Seq<Literal>) -> bool {
    |c: Seq<Literal>| c.len() > 0
}

/// The clauses of the dense form: the clauses of `f` that are not empty,
/// their literals as signed integers.
pub open spec fn normalized(f: Seq<Seq<Literal>>) -> Seq<Seq<int>> {
    f.filter(nonempty()).map_values(|c: Seq<Literal>| normalized_clause(variable_table(f), c))
}

/// The variables of the dense form: a placeholder at index 0, then the
/// variables of `f` in the order of their first occurrence.
pub open spec fn indexed_variables(f: Seq<Seq<Literal>>) -> Seq<Variable> {
    seq![Variable(0)] + variable_table(f).map_values(|v: usize| Variable(v))
}

/// The clauses of a vector as sequences of mathematical integers.
pub open spec fn integers(clauses: Seq<Vec<i32>>) -> Seq<Seq<int>> {
    clauses.map_values(|c: Vec<i32>| c@.map_values(|x: i32| x as int))
}

/// The literal that a signed integer of the dense form stands for.
pub open spec fn decode_literal(variables: Seq<Variable>, x: int) -> Literal {
    Literal {
        variable: variables[if x >= 0 {
            x
        } else {
            -x
        }],
        polarity: Polarity::of(x > 0),
    }
}

/// The form that a dense form stands for.
pub open spec fn decode(variables: Seq<Variable>, clauses: Seq<Seq<int>>) -> Seq<Seq<Literal>> {
    clauses.map_values(|c: Seq<int>| c.map_values(|x: int| decode_literal(variables, x)))
}

proof fn lemma_first_occurrences(literals: Seq<Literal>)
    ensures
        first_occurrences(literals).no_duplicates(),
        first_occurrences(literals).len() <= literals.len(),
        forall|i: int|
            0 <= i < literals.len() ==> first_occurrences(literals).contains(
                (#[trigger] literals[i]).variable.0,
            ),
    decreases literals.len(),
{
    if literals.len() > 0 {
        let front = literals.drop_last();
        lemma_first_occurrences(front);
        let t = first_occurrences(front);
        let r = first_occurrences(literals);
        assert forall|i: int| 0 <= i < literals.len() implies r.contains(
            (#[trigger] literals[i]).variable.0,
        ) by {
            if i < front.len() {
                assert(front[i] == literals[i]);
                let k = choose|k: int| 0 <= k < t.len() && t[k] == front[i].variable.0;
                assert(r[k] == t[k]);
            } else {
                let v = literals.last().variable.0;
                if t.contains(v) {
                } else {
                    assert(r[t.len() as int] == v);
                }
            }
        }
    }
}

proof fn lemma_literals_push(f: Seq<Seq<Literal>>, c: Seq<Literal>)
    ensures
        literals_of(f.push(c)) == literals_of(f) + c,
{
    assert(f.push(c).drop_last() =~= f);
}

proof fn lemma_first_occurrences_push(literals: Seq<Literal>, l: Literal)
    ensures
        first_occurrences(literals.push(l)) == if first_occurrences(literals).contains(
            l.variable.0,
        ) {
            first_occurrences(literals)
        } else {
            first_occurrences(literals).push(l.variable.0)
        },
{
    assert(literals.push(l).drop_last() =~= literals);
}

/// In a table without duplicates, the place of an entry is the index at
/// which it stands.
proof fn lemma_index_of(table: Seq<usize>, i: int)
    requires
        table.no_duplicates(),
        0 <= i < table.len(),
    ensures
        table.index_of(table[i]) == i,
{
    assert(table.contains(table[i]));
    let k = table.index_of(table[i]);
    assert(0 <= k < table.len() && table[k] == table[i]);
}

/// The literals of the clauses that are not empty are all the literals.
/// Every variable of the form stands in its table.
proof fn lemma_table_complete(f: Seq<Seq<Literal>>)
    ensures
        forall|k: int, j: int|
            0 <= k < f.len() && 0 <= j < f[k].len() ==> variable_table(f).contains(
                (#[trigger] f[k][j]).variable.0,
            ),
        variable_table(f).no_duplicates(),
{
    lemma_first_occurrences(literals_of(f));
    assert forall|k: int, j: int| 0 <= k < f.len() && 0 <= j < f[k].len() implies variable_table(
        f,
    ).contains((#[trigger] f[k][j]).variable.0) by {
        lemma_literals_contain(f, k, j);
        let p = choose|p: int| 0 <= p < literals_of(f).len() && literals_of(f)[p] == f[k][j];
        assert(first_occurrences(literals_of(f)).contains(literals_of(f)[p].variable.0));
    }
}

proof fn lemma_literals_contain(f: Seq<Seq<Literal>>, k: int, j: int)
    requires
        0 <= k < f.len(),
        0 <= j < f[k].len(),
    ensures
        literals_of(f).contains(f[k][j]),
    decreases f.len(),
{
    let front = f.drop_last();
    if k == f.len() - 1 {
        assert(literals_of(f)[literals_of(front).len() + j] == f[k][j]);
    } else {
        lemma_literals_contain(front, k, j);
        let p = choose|p: int| 0 <= p < literals_of(front).len() && literals_of(front)[p] == front[k][j];
        assert(literals_of(f)[p] == f[k][j]);
    }
}

/// Reading the dense form back gives the clauses of the form that are not
/// empty, literal for literal.
pub proof fn lemma_decode_normalized(f: Seq<Seq<Literal>>)
    ensures
        decode(indexed_variables(f), normalized(f)) == f.filter(nonempty()),
{
    let table = variable_table(f);
    let variables = indexed_variables(f);
    let kept = f.filter(nonempty());
    let d = decode(variables, normalized(f));
    lemma_table_complete(f);
    assert(d.len() == kept.len());
    assert forall|k: int| 0 <= k < kept.len() implies #[trigger] d[k] == kept[k] by {
        let c = kept[k];
        assert(f.filter(nonempty()).contains(c));
        f.lemma_filter_contains_rev(nonempty(), c);
        let q = choose|q: int| 0 <= q < f.len() && f[q] == c;
        assert(d[k].len() == c.len());
        assert forall|j: int| 0 <= j < c.len() implies #[trigger] d[k][j] == c[j] by {
            let l = c[j];
            assert(f[q][j] == l);
            assert(table.contains(l.variable.0));
            let i = table.index_of(l.variable.0);
            assert(0 <= i < table.len() && table[i] == l.variable.0);
            let x = signed_index(table, l);
            assert(normalized(f)[k][j] == x);
            assert(variables[i + 1] == Variable(table[i]));
        }
        assert(d[k] =~= kept[k]);
    }
    assert(d =~= kept);
}

/// Reading the dense form back gives a form with the same satisfying
/// valuations, provided that the form holds no empty clause; the dense form
/// has no place for one.
pub proof fn lemma_normalize_round_trip(f: Seq<Seq<Literal>>, m: Set<usize>)
    requires
        forall|i: int| 0 <= i < f.len() ==> (#[trigger] f[i]).len() > 0,
    ensures
        decode(indexed_variables(f), normalized(f)) == f,
        cnf_holds(decode(indexed_variables(f), normalized(f)), m) == cnf_holds(f, m),
{
    lemma_decode_normalized(f);
    lemma_filter_all(f);
}

proof fn lemma_filter_all(f: Seq<Seq<Literal>>)
    requires
        forall|i: int| 0 <= i < f.len() ==> (#[trigger] f[i]).len() > 0,
    ensures
        f.filter(nonempty()) == f,
    decreases f.len(),
{
    reveal(Seq::filter);
    if f.len() > 0 {
        let front = f.drop_last();
        assert forall|i: int| 0 <= i < front.len() implies (#[trigger] front[i]).len() > 0 by {
            assert(front[i] == f[i]);
        }
        lemma_filter_all(front);
        assert(f.last() == f[f.len() - 1]);
        assert(front.push(f.last()) =~= f);
    } else {
        assert(f.filter(nonempty()) =~= f);
    }
}

/// The integer `x` stands for the literal `l` in a table that starts with
/// `table`.
pub open spec fn stands_for(table: Seq<usize>, x: int, l: Literal) -> bool {
    if l.polarity.truth() {
        1 <= x <= table.len() && table[x - 1] == l.variable.0
    } else {
        1 <= -x <= table.len() && table[-x - 1] == l.variable.0
    }
}

/// Each integer of `out` stands for the literal of `source` at its place.
pub open spec fn clause_stands_for(table: Seq<usize>, out: Seq<i32>, source: Seq<Literal>) -> bool {
    &&& out.len() == source.len()
    &&& forall|j: int| 0 <= j < out.len() ==> stands_for(table, #[trigger] out[j] as int, source[j])
}

impl Cnf {
    /// Renumbers the variables from 1 in the order of their first
    /// occurrence. Returns the variables by their new number (index 0 holds
    /// a placeholder, variable 0) and the clauses that are not empty, each
    /// literal as its variable's number, negated where the literal is
    /// negative.
    pub fn normalize(&self) -> (r: (Vec<Variable>, Vec<Vec<i32>>))
        requires
            variable_table(self@).len() <= i32::MAX,
        ensures
            r.0@ == indexed_variables(self@),
            integers(r.1@) == normalized(self@),
    {
        self.checked_normalize().unwrap()
    }

    /// The dense form as `normalize` gives it, where the numbers of the
    /// variables fit a signed integer of 32 bits, and `None` where the form
    /// holds more variables than that.
    #[verifier::rlimit(40)]
    pub fn checked_normalize(&self) -> (r: Option<(Vec<Variable>, Vec<Vec<i32>>)>)
        ensures
            r is Some <==> variable_table(self@).len() <= i32::MAX,
            r is Some ==> r.unwrap().0@ == indexed_variables(self@) && integers(r.unwrap().1@)
                == normalized(self@),
    {
        let mut index: HashMap<usize, usize> = HashMap::new();
        let mut variables: Vec<Variable> = Vec::new();
        variables.push(Variable(0));
        let mut clauses: Vec<Vec<i32>> = Vec::new();
        let ghost mut seen: Seq<Literal> = seq![];
        let mut i: usize = 0;
        proof {
            reveal(Seq::filter);
            assert(self@.take(0) =~= Seq::<Seq<Literal>>::empty());
            assert(variables@ =~= seq![Variable(0)] + first_occurrences(seen).map_values(
                |v: usize| Variable(v),
            ));
            lemma_prefix_bound(self@, 0);
        }
        while i < self.0.len()
            invariant
                i <= self.0.len(),
                first_occurrences(seen).len() <= i32::MAX,
                seen == literals_of(self@.take(i as int)),
                first_occurrences(seen).len() <= variable_table(self@).len(),
                variables@ == seq![Variable(0)] + first_occurrences(seen).map_values(
                    |v: usize| Variable(v),
                ),
                forall|v: usize| #[trigger]
                    index@.contains_key(v) <==> first_occurrences(seen).contains(v),
                forall|v: usize| #[trigger]
                    index@.contains_key(v) ==> 1 <= index@[v] <= first_occurrences(seen).len()
                        && first_occurrences(seen)[index@[v] - 1] == v,
                clauses@.len() == self@.take(i as int).filter(nonempty()).len(),
                forall|k: int|
                    0 <= k < clauses@.len() ==> clause_stands_for(
                        first_occurrences(seen),
                        (#[trigger] clauses@[k])@,
                        self@.take(i as int).filter(nonempty())[k],
                    ),
            decreases self.0.len() - i,
        {
            let clause = &self.0[i];
            let ghost front = self@.take(i as int);
            let ghost c = self@[i as int];
            let ghost kept = front.filter(nonempty());
            let ghost start = seen;
            proof {
                assert(self@.take(i + 1) =~= front.push(c));
                lemma_literals_push(front, c);
                front.lemma_filter_push(c, nonempty());
                lemma_prefix_bound(self@, i + 1);
            }
            if clause.0.len() > 0 {
                let mut numbers: Vec<i32> = Vec::new();
                let mut j: usize = 0;
                proof {
                    assert(c.take(0) =~= Seq::<Literal>::empty());
                    assert(start + c.take(0) =~= start);
                }
                while j < clause.0.len()
                    invariant
                        j <= clause.0.len(),
                        clause@ == c,
                        first_occurrences(seen).len() <= i32::MAX,
                        first_occurrences(start + c).len() <= variable_table(self@).len(),
                        seen == start + c.take(j as int),
                        variables@ == seq![Variable(0)] + first_occurrences(seen).map_values(
                            |v: usize| Variable(v),
                        ),
                        forall|v: usize| #[trigger]
                            index@.contains_key(v) <==> first_occurrences(seen).contains(v),
                        forall|v: usize| #[trigger]
                            index@.contains_key(v) ==> 1 <= index@[v] <= first_occurrences(
                                seen,
                            ).len() && first_occurrences(seen)[index@[v] - 1] == v,
                        clauses@.len() == kept.len(),
                        forall|k: int|
                            0 <= k < clauses@.len() ==> clause_stands_for(
                                first_occurrences(seen),
                                (#[trigger] clauses@[k])@,
                                kept[k],
                            ),
                        clause_stands_for(first_occurrences(seen), numbers@, c.take(j as int)),
                    decreases clause.0.len() - j,
                {
                    let literal = clause.0[j];
                    let ghost table = first_occurrences(seen);
                    proof {
                        lemma_first_occurrences_push(seen, literal);
                        assert(c.take(j + 1) =~= c.take(j as int).push(literal));
                        assert(start + c.take(j + 1) =~= seen.push(literal));
                        assert(start + c.take(j + 1) =~= (start + c).take(start.len() + j + 1));
                        lemma_growing(start + c.take(j + 1), start + c, start.len() + j + 1);
                    }
                    let number: usize = match index.get(&literal.variable.0) {
                        Some(n) => *n,
                        None => {
                            let n = variables.len();
                            if n > 0x7fff_ffff {
                                return None;
                            }
                            index.insert(literal.variable.0, n);
                            variables.push(literal.variable);
                            proof {
                                let grown = table.push(literal.variable.0);
                                assert(grown[table.len() as int] == literal.variable.0);
                                assert(variables@ =~= seq![Variable(0)] + grown.map_values(
                                    |v: usize| Variable(v),
                                ));
                                assert forall|v: usize| #[trigger]
                                    index@.contains_key(v) <==> grown.contains(v) by {
                                    if v != literal.variable.0 && table.contains(v) {
                                        let k = choose|k: int| 0 <= k < table.len() && table[k] == v;
                                        assert(grown[k] == v);
                                    }
                                }
                            }
                            n
                        },
                    };
                    let ghost grown = first_occurrences(seen.push(literal));
                    proof {
                        assert forall|k: int| 0 <= k < table.len() implies grown[k] == table[k] by {}
                        assert forall|k: int| 0 <= k < clauses@.len() implies clause_stands_for(
                            grown,
                            (#[trigger] clauses@[k])@,
                            kept[k],
                        ) by {
                            let o = clauses@[k]@;
                            assert(clause_stands_for(table, o, kept[k]));
                            assert forall|q: int| 0 <= q < o.len() implies stands_for(
                                grown,
                                #[trigger] o[q] as int,
                                kept[k][q],
                            ) by {
                                assert(stands_for(table, o[q] as int, kept[k][q]));
                            }
                        }
                        assert forall|q: int| 0 <= q < numbers@.len() implies stands_for(
                            grown,
                            #[trigger] numbers@[q] as int,
                            c.take(j as int)[q],
                        ) by {
                            assert(stands_for(table, numbers@[q] as int, c.take(j as int)[q]));
                        }
                    }
                    let signed: i32 = match literal.polarity {
                        Polarity::Positive => number as i32,
                        Polarity::Negative => -(number as i32),
                    };
                    let ghost earlier = numbers@;
                    numbers.push(signed);
                    proof {
                        seen = seen.push(literal);
                        assert forall|q: int| 0 <= q < numbers@.len() implies stands_for(
                            grown,
                            #[trigger] numbers@[q] as int,
                            c.take(j + 1)[q],
                        ) by {
                            if q < j {
                                assert(numbers@[q] == earlier[q]);
                                assert(c.take(j + 1)[q] == c.take(j as int)[q]);
                                assert(stands_for(grown, earlier[q] as int, c.take(j as int)[q]));
                            }
                        }
                    }
                    j += 1;
                }
                proof {
                    assert(c.take(j as int) =~= c);
                }
                let ghost before = clauses@;
                clauses.push(numbers);
                proof {
                    assert forall|k: int| 0 <= k < clauses@.len() implies clause_stands_for(
                        first_occurrences(seen),
                        (#[trigger] clauses@[k])@,
                        kept.push(c)[k],
                    ) by {
                        if k < before.len() {
                            assert(clauses@[k] == before[k]);
                        }
                    }
                }
            } else {
                proof {
                    assert(start + c =~= start);
                }
            }
            i += 1;
        }
        proof {
            assert(self@.take(i as int) =~= self@);
            let table = variable_table(self@);
            let kept = self@.filter(nonempty());
            lemma_table_complete(self@);
            assert forall|k: int| 0 <= k < kept.len() implies #[trigger] integers(clauses@)[k]
                == normalized(self@)[k] by {
                let o = clauses@[k]@;
                assert(clause_stands_for(table, o, kept[k]));
                assert forall|q: int| 0 <= q < o.len() implies #[trigger] integers(clauses@)[k][q]
                    == normalized(self@)[k][q] by {
                    let l = kept[k][q];
                    assert(stands_for(table, o[q] as int, l));
                    if l.polarity.truth() {
                        lemma_index_of(table, (o[q] as int) - 1);
                    } else {
                        lemma_index_of(table, -(o[q] as int) - 1);
                    }
                }
                assert(integers(clauses@)[k] =~= normalized(self@)[k]);
            }
            assert(integers(clauses@) =~= normalized(self@));
        }
        Some((variables, clauses))
    }
}

/// Whether a clause of signed integers holds under `m`, the set of the
/// numbers of the variables that are true.
pub open spec fn dimacs_clause_holds(c: Seq<int>, m: Set<int>) -> bool {
    exists|j: int|
        0 <= j < c.len() && ((#[trigger] c[j] > 0 && m.contains(c[j])) || (c[j] < 0 && !m.contains(
            -c[j],
        )))
}

/// Whether every clause of a dense form holds under `m`.
pub open spec fn dimacs_holds(f: Seq<Seq<int>>, m: Set<int>) -> bool {
    forall|k: int| 0 <= k < f.len() ==> dimacs_clause_holds(#[trigger] f[k], m)
}

/// Some choice of true variables makes every clause of the dense form hold.
pub open spec fn dimacs_satisfiable(f: Seq<Seq<int>>) -> bool {
    exists|m: Set<int>| dimacs_holds(f, m)
}

/// Every integer of the dense form is the number of a variable of the
/// table, with a sign.
pub proof fn lemma_normalized_range(f: Seq<Seq<Literal>>)
    ensures
        forall|k: int, j: int|
            0 <= k < normalized(f).len() && 0 <= j < normalized(f)[k].len() ==> 1 <= (
            #[trigger] normalized(f)[k][j]) <= variable_table(f).len() || 1 <= -normalized(
                f,
            )[k][j] <= variable_table(f).len(),
{
    let table = variable_table(f);
    let kept = f.filter(nonempty());
    lemma_table_complete(f);
    assert forall|k: int, j: int|
        0 <= k < normalized(f).len() && 0 <= j < normalized(f)[k].len() implies 1 <= (
    #[trigger] normalized(f)[k][j]) <= table.len() || 1 <= -normalized(f)[k][j] <= table.len() by {
        let c = kept[k];
        assert(kept.contains(c));
        f.lemma_filter_contains_rev(nonempty(), c);
        let q = choose|q: int| 0 <= q < f.len() && f[q] == c;
        let l = c[j];
        assert(f[q][j] == l);
        assert(table.contains(l.variable.0));
        let i = table.index_of(l.variable.0);
        assert(0 <= i < table.len() && table[i] == l.variable.0);
        assert(normalized(f)[k][j] == signed_index(table, l));
    }
}

/// The dense form of a satisfiable form is satisfiable.
pub proof fn lemma_normalized_satisfiable(f: Seq<Seq<Literal>>)
    requires
        crate::sat::cnf::satisfiable(f),
    ensures
        dimacs_satisfiable(normalized(f)),
{
    let m = choose|m: Set<usize>| cnf_holds(f, m);
    let table = variable_table(f);
    let kept = f.filter(nonempty());
    let n = normalized(f);
    let dense = Set::new(|i: int| 1 <= i <= table.len() && m.contains(table[i - 1]));
    lemma_table_complete(f);
    assert forall|k: int| 0 <= k < n.len() implies dimacs_clause_holds(#[trigger] n[k], dense) by {
        let c = kept[k];
        assert(kept.contains(c));
        f.lemma_filter_contains_rev(nonempty(), c);
        let q = choose|q: int| 0 <= q < f.len() && f[q] == c;
        assert(crate::sat::cnf::clause_holds(f[q], m));
        let j = choose|j: int| 0 <= j < c.len() && (#[trigger] c[j]).holds(m);
        let l = c[j];
        assert(f[q][j] == l);
        assert(table.contains(l.variable.0));
        let i = table.index_of(l.variable.0);
        assert(0 <= i < table.len() && table[i] == l.variable.0);
        assert(n[k][j] == signed_index(table, l));
        if l.polarity.truth() {
            assert(dense.contains(i + 1));
        } else {
            assert(!dense.contains(i + 1));
        }
    }
    assert(dimacs_holds(n, dense));
}

/// The table of the first clauses is no longer than the table of all.
proof fn lemma_prefix_bound(f: Seq<Seq<Literal>>, i: int)
    requires
        0 <= i <= f.len(),
    ensures
        first_occurrences(literals_of(f.take(i))).len() <= variable_table(f).len(),
    decreases f.len() - i,
{
    if i < f.len() {
        lemma_prefix_bound(f, i + 1);
        assert(f.take(i + 1) =~= f.take(i).push(f[i]));
        lemma_literals_push(f.take(i), f[i]);
        let part = literals_of(f.take(i));
        let all = literals_of(f.take(i + 1));
        assert(part =~= all.take(part.len() as int));
        lemma_growing(part, all, part.len() as int);
    } else {
        assert(f.take(i) =~= f);
    }
}

/// The table of the first `n` literals is no longer than the table of all.
proof fn lemma_growing(part: Seq<Literal>, all: Seq<Literal>, n: int)
    requires
        0 <= n <= all.len(),
        part == all.take(n),
    ensures
        first_occurrences(part).len() <= first_occurrences(all).len(),
    decreases all.len() - n,
{
    if n < all.len() {
        lemma_growing(all.take(n + 1), all, n + 1);
        assert(all.take(n + 1) =~= part.push(all[n]));
        lemma_first_occurrences_push(part, all[n]);
    } else {
        assert(all.take(n) =~= all);
    }
}

} // verus!

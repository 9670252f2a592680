use minesweep_core::{Assignment, Cnf, Formula, Literal, Model, Polarity, Variable};

fn var(n: usize) -> Formula {
    Formula::Variable(n.into())
}

fn not(f: Formula) -> Formula {
    Formula::Negation(Box::new(f))
}

fn and(a: Formula, b: Formula) -> Formula {
    Formula::Conjunction(Box::new(a), Box::new(b))
}

fn or(a: Formula, b: Formula) -> Formula {
    Formula::Disjunction(Box::new(a), Box::new(b))
}

fn iff(a: Formula, b: Formula) -> Formula {
    Formula::Equivalence(Box::new(a), Box::new(b))
}

fn imp(a: Formula, b: Formula) -> Formula {
    Formula::Implication(Box::new(a), Box::new(b))
}

fn default_formula() -> Formula {
    or(imp(var(1), and(var(3), var(4))), imp(var(2), and(var(3), var(5))))
}

fn eval(f: &Formula, truth: &dyn Fn(usize) -> bool) -> bool {
    match f {
        Formula::Variable(v) => truth(v.0),
        Formula::Negation(g) => !eval(g, truth),
        Formula::Conjunction(a, b) => eval(a, truth) && eval(b, truth),
        Formula::Disjunction(a, b) => eval(a, truth) || eval(b, truth),
        Formula::Equivalence(a, b) => eval(a, truth) == eval(b, truth),
        Formula::Implication(a, b) => !eval(a, truth) || eval(b, truth),
    }
}

/// Whether some assignment of the variables 1 to `n` makes the formula true.
fn satisfiable_by_table(f: &Formula, n: usize) -> bool {
    (0..(1usize << n)).any(|bits| eval(f, &|v| v >= 1 && v <= n && (bits >> (v - 1)) & 1 == 1))
}

fn pos(n: usize) -> Literal {
    Literal::positive(Variable(n))
}

fn neg(n: usize) -> Literal {
    Literal::negative(Variable(n))
}

fn cnf_of(clauses: Vec<Vec<Literal>>) -> Cnf {
    Cnf(clauses.into_iter().map(minesweep_core::Clause).collect())
}

fn literals(cnf: &Cnf) -> Vec<Vec<Literal>> {
    cnf.0.iter().map(|c| c.0.clone()).collect()
}

#[test]
fn formula() {
    let f = default_formula();
    println!("{f:?}");
    assert_eq!(f.maximum_variable(), 5.into());
    let cnf = Cnf::from_formula(&f);
    println!("{cnf:?}");
    let model = cnf.solve();
    println!("{model:?}");
}

#[test]
fn formula_model_makes_the_formula_true() {
    let f = default_formula();
    let cnf = f.tseitin_encode(Variable(6));
    match cnf.solve() {
        Model::Satisfied(assignment) => {
            let truth = |v: usize| assignment.get(Variable(v)) == Some(Polarity::Positive);
            assert!(eval(&f, &truth));
            let truth = |v: usize| assignment.get(Variable(v)) != Some(Polarity::Negative);
            assert!(eval(&f, &truth));
        }
        Model::Unsatisfiable => panic!("the formula is satisfiable"),
    }
}

#[test]
fn contradictory_units_are_unsatisfiable() {
    let cnf = cnf_of(vec![vec![pos(1)], vec![neg(1)]]);
    assert!(cnf.solve().is_unsat());
    let mut merged = Cnf::unit(pos(1));
    merged.merge(Cnf::unit(neg(1)));
    assert_eq!(merged, cnf);
    assert!(minesweep_core::sat::solver::solve(merged).is_unsat());
}

#[test]
fn empty_cnf_is_satisfied_by_the_empty_assignment() {
    match Cnf::default().solve() {
        Model::Satisfied(assignment) => {
            assert_eq!(assignment.len(), 0);
            assert!(assignment.literals().is_empty());
        }
        Model::Unsatisfiable => panic!("the empty form is satisfiable"),
    }
}

#[test]
fn empty_clause_is_unsatisfiable() {
    assert!(cnf_of(vec![vec![]]).solve().is_unsat());
    assert!(cnf_of(vec![vec![pos(1), pos(2)], vec![]]).solve().is_unsat());
}

#[test]
fn clauses_without_common_variables_are_solved() {
    let cnf = cnf_of(vec![vec![pos(1), pos(2)], vec![pos(3), pos(4)], vec![neg(5), neg(6)]]);
    match cnf.solve() {
        Model::Satisfied(assignment) => {
            for clause in literals(&cnf) {
                assert!(clause.iter().any(|l| assignment.get(l.variable) == Some(l.polarity)));
            }
        }
        Model::Unsatisfiable => panic!("the form is satisfiable"),
    }
}

#[test]
fn model_satisfies_every_clause() {
    let cnf = cnf_of(vec![
        vec![pos(1), pos(2), neg(3)],
        vec![neg(1), pos(3)],
        vec![neg(2), neg(3)],
        vec![pos(3), pos(4)],
        vec![neg(4), pos(1)],
    ]);
    match cnf.solve() {
        Model::Satisfied(assignment) => {
            for clause in literals(&cnf) {
                assert!(clause.iter().any(|l| assignment.get(l.variable) == Some(l.polarity)));
            }
            for l in assignment.literals() {
                assert!((1..=4).contains(&l.variable.0));
                assert_eq!(assignment.get(l.variable), Some(l.polarity));
            }
        }
        Model::Unsatisfiable => panic!("the form is satisfiable"),
    }
}

#[test]
fn pigeonhole_is_unsatisfiable() {
    // three pigeons, two holes: variable 2 * p + h + 1 says that pigeon p sits in hole h
    let v = |p: usize, h: usize| 2 * p + h + 1;
    let mut clauses = vec![];
    for p in 0..3 {
        clauses.push(vec![pos(v(p, 0)), pos(v(p, 1))]);
    }
    for h in 0..2 {
        for p in 0..3 {
            for q in (p + 1)..3 {
                clauses.push(vec![neg(v(p, h)), neg(v(q, h))]);
            }
        }
    }
    assert!(cnf_of(clauses).solve().is_unsat());
}

#[test]
fn tseitin_of_a_literal_is_its_unit_clause() {
    assert_eq!(literals(&var(7).tseitin_encode(Variable(100))), vec![vec![pos(7)]]);
    assert_eq!(literals(&not(var(7)).tseitin_encode(Variable(100))), vec![vec![neg(7)]]);
    assert_eq!(literals(&not(not(var(7))).tseitin_encode(Variable(100))), vec![vec![pos(7)]]);
    assert_eq!(literals(&Cnf::from_formula(&not(var(3)))), vec![vec![neg(3)]]);
}

#[test]
fn tseitin_clauses_of_each_operator() {
    assert_eq!(
        literals(&and(var(1), var(2)).tseitin_encode(Variable(3))),
        vec![vec![pos(3)], vec![neg(3), pos(1)], vec![neg(3), pos(2)], vec![pos(3), neg(1), neg(2)]]
    );
    assert_eq!(
        literals(&or(var(1), var(2)).tseitin_encode(Variable(3))),
        vec![vec![pos(3)], vec![pos(3), neg(1)], vec![pos(3), neg(2)], vec![neg(3), pos(1), pos(2)]]
    );
    assert_eq!(
        literals(&iff(var(1), var(2)).tseitin_encode(Variable(3))),
        vec![
            vec![pos(3)],
            vec![pos(3), neg(1), neg(2)],
            vec![pos(3), pos(1), pos(2)],
            vec![neg(3), neg(1), pos(2)],
            vec![neg(3), pos(1), neg(2)]
        ]
    );
    assert_eq!(
        literals(&imp(var(1), var(2)).tseitin_encode(Variable(3))),
        vec![vec![pos(3)], vec![neg(3), neg(1), pos(2)], vec![pos(3), pos(1)], vec![pos(3), neg(2)]]
    );
}

#[test]
fn tseitin_numbers_the_operands_before_what_lies_below_them() {
    // not (x1 and x2) or (x3 -> x4): the disjunction is 10, its operands 11 and 12
    let f = or(not(and(var(1), var(2))), imp(var(3), var(4)));
    assert_eq!(
        literals(&f.tseitin_encode(Variable(10))),
        vec![
            vec![pos(10)],
            vec![pos(10), pos(11)],
            vec![pos(10), neg(12)],
            vec![neg(10), neg(11), pos(12)],
            vec![neg(12), neg(3), pos(4)],
            vec![pos(12), pos(3)],
            vec![pos(12), neg(4)],
            vec![neg(11), pos(1)],
            vec![neg(11), pos(2)],
            vec![pos(11), neg(1), neg(2)],
        ]
    );
    assert_eq!(f.operator_count(), Some(3));
}

#[test]
fn checked_tseitin_refuses_variables_that_do_not_fit() {
    let f = and(var(1), var(2));
    assert!(f.checked_tseitin_encode(Variable(usize::MAX)).is_none());
    assert_eq!(
        f.checked_tseitin_encode(Variable(usize::MAX - 1)).map(|c| c.0.len()),
        Some(4)
    );
    assert!(var(1).checked_tseitin_encode(Variable(usize::MAX)).is_some());
}

#[test]
fn tseitin_keeps_satisfiability() {
    let formulas = vec![
        default_formula(),
        and(var(1), not(var(1))),
        and(or(var(1), var(2)), and(not(var(1)), not(var(2)))),
        iff(var(1), not(var(1))),
        iff(and(var(1), var(2)), or(not(var(1)), not(var(2)))),
        imp(or(var(1), not(var(1))), and(var(2), not(var(2)))),
        not(imp(var(1), or(var(2), var(1)))),
        not(not(iff(imp(var(1), var(2)), or(not(var(1)), var(2))))),
        and(iff(var(1), var(2)), and(iff(var(2), var(3)), iff(var(3), not(var(1))))),
        or(and(var(1), var(2)), and(not(var(3)), or(var(4), not(var(5))))),
    ];
    for f in formulas {
        let expected = satisfiable_by_table(&f, 5);
        assert_eq!(!f.tseitin_encode(Variable(6)).solve().is_unsat(), expected, "{f:?}");
        assert_eq!(!f.tseitin_encode(Variable(0x10000)).solve().is_unsat(), expected, "{f:?}");
        assert_eq!(!f.solve().is_unsat(), expected, "{f:?}");
    }
}

#[test]
fn formula_queries() {
    let f = not(not(not(var(9))));
    assert_eq!(f.encode_literal(), Some(neg(9)));
    let (polarity, inner) = f.combine_negation();
    assert_eq!(polarity, Polarity::Negative);
    assert!(matches!(inner, Formula::Variable(Variable(9))));
    let g = not(not(and(var(1), var(12))));
    assert_eq!(g.encode_literal(), None);
    let (polarity, inner) = g.combine_negation();
    assert_eq!(polarity, Polarity::Positive);
    assert!(matches!(inner, Formula::Conjunction(_, _)));
    assert_eq!(g.maximum_variable(), Variable(12));
    assert_eq!(var(0).maximum_variable(), Variable(0));
    assert_eq!(g.clone().maximum_variable(), Variable(12));
    assert_eq!(Variable(4).next_variable(), Variable(5));
}

#[test]
fn polarity_combinators() {
    let (n, p) = (Polarity::Negative, Polarity::Positive);
    assert_eq!(p.negate(), n);
    assert_eq!(n.negate(), p);
    assert_eq!(p & p, p);
    assert_eq!(p & n, n);
    assert_eq!(n & p, n);
    assert_eq!(n | n, n);
    assert_eq!(n | p, p);
    assert_eq!(p | p, p);
    assert_eq!(p ^ n, p);
    assert_eq!(n ^ p, p);
    assert_eq!(p ^ p, n);
    assert_eq!(n ^ n, n);
    assert_eq!(pos(3).negate(), neg(3));
    assert_eq!(neg(3).negate(), pos(3));
}

#[test]
fn normalize_numbers_variables_by_first_occurrence() {
    let cnf = cnf_of(vec![
        vec![pos(40), neg(7)],
        vec![],
        vec![neg(40), pos(1000), pos(7)],
        vec![neg(1000)],
    ]);
    let (variables, clauses) = cnf.normalize();
    assert_eq!(variables, vec![Variable(0), Variable(40), Variable(7), Variable(1000)]);
    assert_eq!(clauses, vec![vec![1, -2], vec![-1, 3, 2], vec![-3]]);
    assert_eq!(cnf.checked_normalize(), Some((variables, clauses)));
    let (variables, clauses) = Cnf::default().normalize();
    assert_eq!(variables, vec![Variable(0)]);
    assert!(clauses.is_empty());
}

#[test]
fn normalize_round_trip() {
    let cnf = default_formula().tseitin_encode(Variable(0x10000));
    let (variables, clauses) = cnf.normalize();
    let decoded: Vec<Vec<Literal>> = clauses
        .iter()
        .map(|c| {
            c.iter()
                .map(|&x| {
                    let v = variables[x.unsigned_abs() as usize];
                    if x > 0 { Literal::positive(v) } else { Literal::negative(v) }
                })
                .collect()
        })
        .collect();
    assert_eq!(decoded, literals(&cnf));
}

#[test]
fn merge_concatenates() {
    let mut cnf = cnf_of(vec![vec![pos(1)], vec![neg(2), pos(3)]]);
    cnf.merge(cnf_of(vec![vec![neg(1)], vec![]]));
    assert_eq!(literals(&cnf), vec![vec![pos(1)], vec![neg(2), pos(3)], vec![neg(1)], vec![]]);
    let copy = cnf.clone();
    assert_eq!(copy, cnf);
}

#[test]
fn assignment_keeps_the_order_of_first_assignment() {
    let mut a = Assignment::new();
    a.insert(Variable(5), Polarity::Positive);
    a.insert(Variable(2), Polarity::Negative);
    a.insert(Variable(5), Polarity::Negative);
    assert_eq!(a.literals(), vec![neg(5), neg(2)]);
    let mut b = Assignment::new();
    b.insert(Variable(9), Polarity::Positive);
    b.insert(Variable(2), Polarity::Positive);
    b.insert(Variable(7), Polarity::Negative);
    a.extend(&b);
    assert_eq!(a.literals(), vec![neg(5), pos(2), pos(9), neg(7)]);
    assert_eq!(a.len(), 4);
    assert_eq!(a.get(Variable(2)), Some(Polarity::Positive));
    assert_eq!(a.get(Variable(3)), None);
}

//! The satisfiability back-ends: the built-in kernel, and the solvers of the
//! `varisat` and `splr` crates behind the dense form of the clauses.

use vstd::prelude::*;
use crate::sat::cnf::{Cnf, Literal, satisfiable};
use crate::sat::normalize::{
    dimacs_satisfiable, integers, lemma_normalized_range, lemma_normalized_satisfiable,
    normalized, variable_table,
};

verus! {

/// The largest number of a variable that the `varisat` crate accepts.
pub const VARISAT_LIMIT: i32 = 0x1000_0000;

/// The largest number of a variable that the `splr` crate can encode.
pub const SPLR_LIMIT: i32 = 0x3fff_ffff;

/// Every integer of the clauses is the number of a variable up to `limit`,
/// with a sign.
pub open spec fn numbers_within(clauses: Seq<Seq<int>>, limit: int) -> bool {
    forall|k: int, j: int|
        0 <= k < clauses.len() && 0 <= j < clauses[k].len() ==> 1 <= (#[trigger] clauses[k][j])
            <= limit || 1 <= -clauses[k][j] <= limit
}

/// What the solver of the `varisat` crate answers for the clauses: whether
/// they are satisfiable, or nothing after an error.
pub uninterp spec fn varisat_answer(clauses: Seq<Seq<int>>) -> Option<bool>;

/// Hands the clauses to a fresh `varisat::Solver` and calls its `solve`,
/// which the crate documents to check the satisfiability of the formula:
/// `Ok(true)` where it is satisfiable, `Ok(false)` where it is not. An error
/// of the solver gives `None`. The solver draws no random number and reads
/// no clock, so that the same clauses get the same answer.
#[verifier::external_body]
pub(crate) fn varisat_check(clauses: &Vec<Vec<i32>>) -> (answer: Option<bool>)
    requires
        numbers_within(integers(clauses@), VARISAT_LIMIT as int),
    ensures
        answer == varisat_answer(integers(clauses@)),
        answer is Some ==> answer.unwrap() == dimacs_satisfiable(integers(clauses@)),
{
    let mut solver = varisat::Solver::new();
    let formula = varisat::CnfFormula::from(
        clauses.iter().map(
            |c| c.iter().map(|l| varisat::Lit::from_dimacs(*l as isize)).collect::<Vec<_>>(),
        ),
    );
    solver.add_formula(&formula);
    solver.solve().ok()
}

/// Calls `splr::Certificate::try_from` on the clauses, which the crate
/// documents to give `SAT` with an assignment where they are satisfiable
/// and `UNSAT` where they are proved not to be. An error of the solver, such
/// as running out of its time, gives `None`.
#[verifier::external_body]
pub(crate) fn splr_check(clauses: Vec<Vec<i32>>) -> (answer: Option<bool>)
    requires
        numbers_within(integers(clauses@), SPLR_LIMIT as int),
    ensures
        answer is Some ==> answer.unwrap() == dimacs_satisfiable(integers(clauses@)),
{
    match splr::Certificate::try_from(clauses) {
        Ok(splr::Certificate::SAT(_)) => Some(true),
        Ok(splr::Certificate::UNSAT) => Some(false),
        Err(_) => None,
    }
}

/// The solver that answers the queries of the deduction.
#[derive(Debug, Clone, Copy, PartialEq, Eq, Structural)]
pub enum SatSolver {
    /// The built-in kernel.
    Tinysat,
    /// Answered by the built-in kernel: this crate has no binding to the
    /// solver of that name.
    CreuSAT,
    /// The solver of the `varisat` crate.
    Varisat,
    /// The solver of the `splr` crate.
    Splr,
}

/// What an outside solver's answer says of unsatisfiability: only the answer
/// "not satisfiable" counts; no answer is no conclusion.
pub fn refuted(answer: Option<bool>) -> (b: bool)
    ensures
        b == (answer == Some(false)),
{
    match answer {
        Some(sat) => !sat,
        None => false,
    }
}

impl SatSolver {
    /// The solver of the given name: `tinysat`, `creusat`, `varisat` or
    /// `splr`.
    pub open spec fn named(s: Seq<char>) -> Result<SatSolver, ()> {
        if s == "tinysat"@ {
            Ok(SatSolver::Tinysat)
        } else if s == "creusat"@ {
            Ok(SatSolver::CreuSAT)
        } else if s == "varisat"@ {
            Ok(SatSolver::Varisat)
        } else if s == "splr"@ {
            Ok(SatSolver::Splr)
        } else {
            Err(())
        }
    }

    /// The solver of the given name.
    pub fn parse(s: &str) -> (r: Result<SatSolver, ()>)
        ensures
            r == SatSolver::named(s@),
    {
        let name = s.to_owned();
        if name == "tinysat".to_owned() {
            Ok(SatSolver::Tinysat)
        } else if name == "creusat".to_owned() {
            Ok(SatSolver::CreuSAT)
        } else if name == "varisat".to_owned() {
            Ok(SatSolver::Varisat)
        } else if name == "splr".to_owned() {
            Ok(SatSolver::Splr)
        } else {
            Err(())
        }
    }

    /// Whether the solver answers every query, and rightly.
    pub open spec fn decides(self) -> bool {
        self == SatSolver::Tinysat || self == SatSolver::CreuSAT
    }

    /// Whether the solver answers the same question in the same way every
    /// time: each but `Splr`, which gives up when its time is over.
    pub open spec fn repeatable(self) -> bool {
        self != SatSolver::Splr
    }

    /// What a repeatable solver answers when it is asked whether the form
    /// is unsatisfiable: the built-in kernel whether it is; `Varisat` what
    /// its solver said of the dense form, and no where the form has more
    /// variables than it accepts.
    pub open spec fn answers_unsat(self, f: Seq<Seq<Literal>>) -> bool {
        match self {
            SatSolver::Varisat => variable_table(f).len() <= VARISAT_LIMIT && varisat_answer(
                normalized(f),
            ) == Some(false),
            _ => !satisfiable(f),
        }
    }

    /// Whether the constraints together with the assumption are
    /// unsatisfiable, as far as the solver tells. `true` is never returned
    /// for a satisfiable form. The built-in kernel returns `true` for every
    /// unsatisfiable form; an outside solver that fails, or whose limits the
    /// form exceeds, gives `false`.
    pub fn is_unsat(&self, constraints: &Cnf, assumption: Cnf) -> (b: bool)
        ensures
            b ==> !satisfiable(constraints@ + assumption@),
            self.decides() ==> b == !satisfiable(constraints@ + assumption@),
            self.repeatable() ==> b == self.answers_unsat(constraints@ + assumption@),
    {
        let mut all = constraints.clone();
        all.merge(assumption);
        match self {
            SatSolver::Tinysat | SatSolver::CreuSAT => all.solve().is_unsat(),
            SatSolver::Varisat => {
                match all.checked_normalize() {
                    Some((variables, normalized)) => {
                        if variables.len() - 1 > VARISAT_LIMIT as usize {
                            return false;
                        }
                        proof {
                            lemma_normalized_range(all@);
                            if satisfiable(all@) {
                                lemma_normalized_satisfiable(all@);
                            }
                        }
                        refuted(varisat_check(&normalized))
                    },
                    None => false,
                }
            },
            SatSolver::Splr => {
                match all.checked_normalize() {
                    Some((variables, normalized)) => {
                        if variables.len() - 1 > SPLR_LIMIT as usize {
                            return false;
                        }
                        proof {
                            lemma_normalized_range(all@);
                            if satisfiable(all@) {
                                lemma_normalized_satisfiable(all@);
                            }
                        }
                        refuted(splr_check(normalized))
                    },
                    None => false,
                }
            },
        }
    }
}

impl std::str::FromStr for SatSolver {
    type Err = ();

    /// The solver of the given name: `tinysat`, `creusat`, `varisat` or
    /// `splr`; any other name is refused.
    fn from_str(s: &str) -> (r: Result<SatSolver, ()>)
        ensures
            r == SatSolver::named(s@),
    {
        SatSolver::parse(s)
    }
}

} // verus!

//! Propositional logic: literals, clauses, formulas, the compiler to
//! conjunctive normal form and the satisfiability kernel.

pub mod cnf;
pub mod formula;
pub mod tseitin;
pub mod equisat;
pub mod assignment;
pub mod reduce;
pub mod solver;
pub mod normalize;

//! Propositional logic: expressions, their three-valued evaluation under a
//! partial model, tautology checking, normal forms and DPLL satisfiability.

pub mod build;
pub mod cnf;
pub mod dpll;
pub mod expr;
pub mod laws;
pub mod model;
pub mod sentence;
pub mod text;

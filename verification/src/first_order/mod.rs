//! First-order logic: terms, sentences, substitution and unification.

pub mod build;
pub mod parse;
pub mod sentence;
pub mod term;
pub mod unify;

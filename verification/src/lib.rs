//! Algorithms from "Artificial Intelligence: A Modern Approach": propositional
//! logic, game boards, search problems and simple learners, with their
//! contracts proved by Verus.

pub mod and_or_search;
pub mod classification;
pub mod csp;
pub mod first_order;
pub mod localization;
pub mod mdp;
pub mod minimax;
pub mod propositional;
pub mod searching;
mod strings;
pub mod trigram;
pub mod vaccum_cleaner;

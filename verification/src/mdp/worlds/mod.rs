//! Small worlds to plan in.

pub mod simple_game;
pub mod three_states;
pub mod two_terminals;

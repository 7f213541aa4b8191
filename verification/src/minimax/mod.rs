//! Game positions for adversarial search: tic-tac-toe and othello.

pub mod othello;
pub mod tic_tac_toe;

//! Markov decision processes: the worlds and the players of zero-sum games.

pub mod worlds;

use vstd::prelude::*;

verus! {

/// A player of a two-player zero-sum game.
#[derive(Debug, Clone, Copy, PartialEq, Eq, Structural, Hash)]
pub enum Player {
    Maxer,
    Miner,
}

impl Player {
    /// The player who moves next.
    pub fn turn(self) -> (r: Self)
        ensures
            r != self,
    {
        match self {
            Player::Maxer => Player::Miner,
            Player::Miner => Player::Maxer,
        }
    }
}

} // verus!

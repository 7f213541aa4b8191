use vstd::prelude::*;

verus! {

/// The states of the three-state world.
#[derive(Clone, Copy, PartialEq, Eq, Structural, Debug)]
pub enum OTT {
    One,
    Two,
    Three,
}

/// The moves of the three-state world.
#[derive(Debug, Clone, Copy, PartialEq, Eq, Structural, Hash)]
pub enum Move {
    A,
    B,
}

/// The number of a state: 0, 1 and 2.
pub open spec fn ott_code(s: OTT) -> usize {
    match s {
        OTT::One => 0,
        OTT::Two => 1,
        OTT::Three => 2,
    }
}

impl OTT {
    /// The number of the state.
    pub fn to_usize(self) -> (r: usize)
        ensures
            r == ott_code(self),
    {
        match self {
            OTT::One => 0,
            OTT::Two => 1,
            OTT::Three => 2,
        }
    }

    /// The state numbered `code`.
    pub fn from_usize(code: usize) -> (r: Self)
        requires
            code < 3,
        ensures
            ott_code(r) == code,
    {
        if code == 0 {
            OTT::One
        } else if code == 1 {
            OTT::Two
        } else {
            OTT::Three
        }
    }

    /// The moves allowed in the state: both in One and Two, none in the final
    /// state Three.
    pub fn actions(self) -> (r: Vec<Move>)
        ensures
            r@ == if self == OTT::Three { seq![] } else { seq![Move::A, Move::B] },
    {
        match self {
            OTT::One | OTT::Two => vec![Move::A, Move::B],
            OTT::Three => Vec::new(),
        }
    }
}

/// Numbering the states and reading the number back gives the state back.
pub proof fn law_ott_round_trip(s: OTT)
    ensures
        ott_code(s) < 3,
        forall|t: OTT| ott_code(t) == ott_code(s) ==> t == s,
{
}

} // verus!

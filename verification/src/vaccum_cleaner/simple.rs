use vstd::prelude::*;
use super::{Actuator, Agent, Perceptor, Score, World, MAX_MEASURE};

verus! {

/// One of the two squares.
#[derive(Debug, Clone, Copy, PartialEq, Eq, Structural)]
pub enum Pos {
    Left,
    Right,
}

impl Pos {
    /// The other square.
    pub fn swap(self) -> (r: Self)
        ensures
            r != self,
    {
        match self {
            Pos::Left => Pos::Right,
            Pos::Right => Pos::Left,
        }
    }
}

/// The state of a square.
#[derive(Debug, PartialEq, Eq, Structural, Clone, Copy)]
pub enum Cleanliness {
    Dirt,
    Clean,
}

impl Cleanliness {
    /// Whether the square is clean.
    pub fn is_clean(self) -> (r: bool)
        ensures
            r == (self == Cleanliness::Clean),
    {
        match self {
            Cleanliness::Clean => true,
            Cleanliness::Dirt => false,
        }
    }

    /// Makes the square clean.
    pub fn clean(&mut self)
        ensures
            *final(self) == Cleanliness::Clean,
    {
        *self = Cleanliness::Clean;
    }
}

/// A world of two squares.
#[derive(Debug, Clone, Copy, PartialEq, Eq, Structural)]
pub struct TwoSquare {
    pub left: Cleanliness,
    pub right: Cleanliness,
}

/// One point per clean square.
pub open spec fn clean_count(w: TwoSquare) -> int {
    (if w.left == Cleanliness::Clean { 1int } else { 0int }) + (if w.right == Cleanliness::Clean { 1int } else { 0int })
}

impl TwoSquare {
    /// The world with the given squares.
    pub fn new(left: Cleanliness, right: Cleanliness) -> (r: Self)
        ensures
            r == (TwoSquare { left, right }),
    {
        TwoSquare { left, right }
    }

    /// The four worlds: clean or dirty on each side.
    pub fn enumerate() -> (r: Vec<Self>)
        ensures
            r@ == seq![
                TwoSquare { left: Cleanliness::Clean, right: Cleanliness::Clean },
                TwoSquare { left: Cleanliness::Clean, right: Cleanliness::Dirt },
                TwoSquare { left: Cleanliness::Dirt, right: Cleanliness::Clean },
                TwoSquare { left: Cleanliness::Dirt, right: Cleanliness::Dirt },
            ],
    {
        let r = vec![
            TwoSquare::new(Cleanliness::Clean, Cleanliness::Clean),
            TwoSquare::new(Cleanliness::Clean, Cleanliness::Dirt),
            TwoSquare::new(Cleanliness::Dirt, Cleanliness::Clean),
            TwoSquare::new(Cleanliness::Dirt, Cleanliness::Dirt),
        ];
        assert(r@ =~= seq![
            TwoSquare { left: Cleanliness::Clean, right: Cleanliness::Clean },
            TwoSquare { left: Cleanliness::Clean, right: Cleanliness::Dirt },
            TwoSquare { left: Cleanliness::Dirt, right: Cleanliness::Clean },
            TwoSquare { left: Cleanliness::Dirt, right: Cleanliness::Dirt },
        ]);
        r
    }
}

impl World for TwoSquare {
    open spec fn measure_spec(&self) -> int {
        clean_count(*self)
    }

    /// The number of clean squares.
    fn measure(&self) -> (r: Score) {
        let l: Score = if self.left.is_clean() { 1 } else { 0 };
        let r: Score = if self.right.is_clean() { 1 } else { 0 };
        l + r
    }
}

/// What the two-square agent can do.
#[derive(Debug, Clone, Copy, PartialEq, Eq, Structural)]
pub enum Action {
    Move,
    CleanLeft,
    CleanRight,
    Stay,
}

/// The world after `a`: the square it cleans is clean, the rest unchanged.
pub open spec fn applied(a: Action, w: TwoSquare) -> TwoSquare {
    match a {
        Action::CleanLeft => TwoSquare { left: Cleanliness::Clean, right: w.right },
        Action::CleanRight => TwoSquare { left: w.left, right: Cleanliness::Clean },
        _ => w,
    }
}

impl Actuator<TwoSquare> for Action {
    open spec fn cost_spec(&self) -> int {
        if *self == Action::Stay { 0 } else { 1 }
    }

    open spec fn transforms(&self, before: TwoSquare, after: TwoSquare) -> bool {
        after == applied(*self, before)
    }

    /// Cleans the square the action names; moving and staying change
    /// nothing.
    fn apply(&self, world: &mut TwoSquare)
        ensures
            *final(world) == applied(*self, *old(world)),
    {
        match self {
            Action::CleanLeft => world.left.clean(),
            Action::CleanRight => world.right.clean(),
            _ => {},
        }
    }

    /// Staying is free, anything else costs one.
    fn cost(&self) -> (r: Score) {
        match self {
            Action::Stay => 0,
            _ => 1,
        }
    }
}

/// A reflex agent: cleans its square when dirty, else moves to the other.
#[derive(Debug, Clone, Copy, PartialEq, Eq, Structural)]
pub struct ReflexCleaner {
    pub pos: Pos,
}

impl ReflexCleaner {
    /// The agent on square `pos`.
    pub fn new(pos: Pos) -> (r: Self)
        ensures
            r.pos == pos,
    {
        ReflexCleaner { pos }
    }

    /// The agent on either square: left, then right.
    pub fn enumerate() -> (r: Vec<Self>)
        ensures
            r@ == seq![ReflexCleaner { pos: Pos::Left }, ReflexCleaner { pos: Pos::Right }],
    {
        let r = vec![ReflexCleaner::new(Pos::Left), ReflexCleaner::new(Pos::Right)];
        assert(r@ =~= seq![ReflexCleaner { pos: Pos::Left }, ReflexCleaner { pos: Pos::Right }]);
        r
    }
}

impl Perceptor<TwoSquare> for ReflexCleaner {
    type Percept = Cleanliness;

    open spec fn observe_spec(&self, world: TwoSquare) -> Cleanliness {
        if self.pos == Pos::Left { world.left } else { world.right }
    }

    /// The state of the agent's square.
    fn observe(&self, world: &TwoSquare) -> (r: Cleanliness)
        ensures
            r == if self.pos == Pos::Left { world.left } else { world.right },
    {
        match self.pos {
            Pos::Left => world.left,
            Pos::Right => world.right,
        }
    }
}

impl Agent<TwoSquare, Cleanliness> for ReflexCleaner {
    type A = Action;

    open spec fn steps(&self, percept: Cleanliness, after: Self, action: Action) -> bool {
        &&& percept == Cleanliness::Clean ==> action == Action::Move && after.pos != self.pos
        &&& percept == Cleanliness::Dirt ==> after.pos == self.pos && action == if self.pos == Pos::Left {
            Action::CleanLeft
        } else {
            Action::CleanRight
        }
    }

    /// Cleans a dirty square; on a clean one, moves to the other square.
    fn step(&mut self, percept: Cleanliness) -> (r: Action)
        ensures
            percept == Cleanliness::Clean ==> r == Action::Move && final(self).pos != old(self).pos,
            percept == Cleanliness::Dirt ==> final(self).pos == old(self).pos
                && r == if old(self).pos == Pos::Left { Action::CleanLeft } else { Action::CleanRight },
    {
        if percept == Cleanliness::Clean {
            self.pos = self.pos.swap();
            Action::Move
        } else {
            match self.pos {
                Pos::Left => Action::CleanLeft,
                Pos::Right => Action::CleanRight,
            }
        }
    }
}

/// No action makes the world dirtier: a clean square stays clean, so the
/// measure never drops.
pub proof fn law_actions_only_clean(a: Action, w: TwoSquare)
    ensures
        w.left == Cleanliness::Clean ==> applied(a, w).left == Cleanliness::Clean,
        w.right == Cleanliness::Clean ==> applied(a, w).right == Cleanliness::Clean,
        clean_count(applied(a, w)) >= clean_count(w),
        clean_count(w) <= 2 <= MAX_MEASURE,
{
}

} // verus!

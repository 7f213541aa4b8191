use vstd::prelude::*;
use crate::mdp::Player;

verus! {

/// The squares of the two players on a board of squares `0 .. width`.
#[derive(Clone, Copy, PartialEq, Eq, Structural, Debug)]
pub struct Players {
    player_a: usize,
    player_b: usize,
}

impl Players {
    /// Player A on square `player_a`, player B on square `player_b`.
    pub fn new(player_a: usize, player_b: usize) -> (r: Self)
        ensures
            r.a() == player_a,
            r.b() == player_b,
    {
        Players { player_a, player_b }
    }

    /// Player A's square.
    pub closed spec fn a(self) -> usize {
        self.player_a
    }

    /// Player B's square.
    pub closed spec fn b(self) -> usize {
        self.player_b
    }

    /// Player A's square.
    pub fn player_a(&self) -> (r: usize)
        ensures
            r == self.a(),
    {
        self.player_a
    }

    /// Player B's square.
    pub fn player_b(&self) -> (r: usize)
        ensures
            r == self.b(),
    {
        self.player_b
    }
}

/// A move: the player goes to the square.
#[derive(Clone, Copy, PartialEq, Eq, Structural, Debug, Hash)]
pub struct Goto(pub Player, pub usize);

/// The board of the game: player A wins by reaching the last square, player
/// B by reaching the first.
pub struct Board {
    width: usize,
}

impl Board {
    /// The number of squares.
    pub closed spec fn w(&self) -> usize {
        self.width
    }

    /// A board of `width` squares.
    pub fn new(width: usize) -> (r: Board)
        requires
            width >= 3,
        ensures
            r.w() == width,
    {
        Board { width }
    }

    /// The number of squares.
    pub fn width(&self) -> (r: usize)
        ensures
            r == self.w(),
    {
        self.width
    }

    /// Whether the game is over: B on the first square or A on the last.
    pub open spec fn terminal_spec(&self, players: Players) -> bool {
        players.b() == 0 || players.a() == self.w() - 1
    }

    /// The players are on different squares, and not both on their goals.
    pub open spec fn valid_spec(&self, players: Players) -> bool {
        players.a() != players.b() && !(players.a() == self.w() - 1 && players.b() == 0)
    }

    /// Whether the game is over.
    pub fn terminal(&self, players: Players) -> (r: bool)
        requires
            self.w() >= 3,
        ensures
            r == self.terminal_spec(players),
    {
        players.player_b == 0 || players.player_a == self.width - 1
    }

    /// Whether the position can occur.
    pub fn valid(&self, players: Players) -> (r: bool)
        requires
            self.w() >= 3,
        ensures
            r == self.valid_spec(players),
    {
        let (a, b) = (players.player_a, players.player_b);
        a != b && !(a == self.width - 1 && b == 0)
    }

    /// The reward of a position for A: 0 for an impossible one, -1 when B
    /// has reached the first square, 1 when A has reached the last, else 0.
    pub fn reward(&self, players: Players) -> (r: i8)
        requires
            self.w() >= 3,
        ensures
            r == if !self.valid_spec(players) {
                0
            } else if players.b() == 0 {
                -1
            } else if players.a() == self.w() - 1 {
                1
            } else {
                0
            },
    {
        if !self.valid(players) {
            0
        } else if players.player_b == 0 {
            -1
        } else if players.player_a == self.width - 1 {
            1
        } else {
            0
        }
    }

    /// The number of positions, valid or not.
    pub fn states(&self) -> (r: usize)
        requires
            self.w() * self.w() <= usize::MAX,
        ensures
            r == self.w() * self.w(),
    {
        self.width * self.width
    }

    /// The number of a position: `width * a + b`.
    pub fn encode(&self, state: Players) -> (r: usize)
        requires
            self.w() * state.a() + state.b() <= usize::MAX,
        ensures
            r == self.w() * state.a() + state.b(),
    {
        assert(0 <= self.width * state.player_a) by (nonlinear_arith);
        self.width * state.player_a + state.player_b
    }

    /// The position numbered `code`.
    pub fn decode(&self, code: usize) -> (r: Players)
        requires
            self.w() >= 3,
        ensures
            r.a() == code / self.w(),
            r.b() == code % self.w(),
    {
        Players::new(code / self.width, code % self.width)
    }

    /// The moves of `player`: to the nearest free square on its left and on
    /// its right, as far as they exist; none in a final or impossible
    /// position.
    pub fn actions(&self, state: Players, player: Player) -> (r: Vec<Goto>)
        requires
            self.w() >= 3,
            state.a() < self.w(),
            state.b() < self.w(),
        ensures
            (self.terminal_spec(state) || !self.valid_spec(state)) ==> r@.len() == 0,
            !(self.terminal_spec(state) || !self.valid_spec(state)) ==> r@ == self.moves_spec(state, player),
    {
        if self.terminal(state) || !self.valid(state) {
            return Vec::new();
        }
        let (pa, pb) = (state.player_a, state.player_b);
        let (pm, ps) = match player {
            Player::Maxer => (pa, pb),
            Player::Miner => (pb, pa),
        };
        let mut gotos: Vec<Goto> = Vec::new();
        // the nearest square on the left that the other player does not hold
        if pm > 0 {
            let left = if pm - 1 != ps {
                Some(pm - 1)
            } else if pm >= 2 {
                Some(pm - 2)
            } else {
                None
            };
            if let Some(l) = left {
                gotos.push(Goto(player, l));
            }
        }
        // the nearest square on the right that the other player does not hold
        if pm + 1 < self.width {
            let right = if pm + 1 != ps {
                Some(pm + 1)
            } else if pm + 2 < self.width {
                Some(pm + 2)
            } else {
                None
            };
            if let Some(r) = right {
                gotos.push(Goto(player, r));
            }
        }
        gotos
    }

    /// The moves of a player on square `pm` with the other on `ps`: left to
    /// the nearest square below `pm` other than `ps`, right to the nearest
    /// square above `pm` other than `ps`, where such squares exist.
    pub open spec fn moves_spec(&self, state: Players, player: Player) -> Seq<Goto> {
        let (pm, ps) = if player == Player::Maxer { (state.a() as int, state.b() as int) } else { (state.b() as int, state.a() as int) };
        let left: Seq<Goto> = if pm >= 1 && (pm - 1 != ps || pm >= 2) {
            seq![Goto(player, (if pm - 1 != ps { pm - 1 } else { pm - 2 }) as usize)]
        } else {
            seq![]
        };
        let right: Seq<Goto> = if pm + 1 < self.w() && (pm + 1 != ps || pm + 2 < self.w()) {
            seq![Goto(player, (if pm + 1 != ps { pm + 1 } else { pm + 2 }) as usize)]
        } else {
            seq![]
        };
        left + right
    }

    /// The position after `action`.
    pub fn apply(&self, state: Players, action: Goto) -> (r: Players)
        ensures
            action.0 == Player::Maxer ==> r.a() == action.1 && r.b() == state.b(),
            action.0 == Player::Miner ==> r.a() == state.a() && r.b() == action.1,
    {
        match action {
            Goto(Player::Maxer, i) => Players::new(i, state.player_b),
            Goto(Player::Miner, i) => Players::new(state.player_a, i),
        }
    }
}

} // verus!

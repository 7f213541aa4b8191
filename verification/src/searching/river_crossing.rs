use vstd::prelude::*;
use super::search::{admissible_from, astar_search, is_path, reachable, shortest, solves, views, Searchable, StateKey};

verus! {

/// A move's cost.
pub type Cost = u32;

/// A bank of the river.
#[derive(Debug, Clone, Copy, PartialEq, Eq, Structural, Hash)]
pub enum Side {
    This,
    Other,
}

/// The counts `[missionaries here, cannibals here, missionaries there,
/// cannibals there]` after `moved` cross from the boat's bank: one or two
/// people, `moved[k]` counting how many of kind `k` (0 missionaries, 1
/// cannibals).
pub open spec fn crossed(s: Seq<i32>, boat: Side, m: int, c: int) -> Seq<int> {
    if boat == Side::This {
        seq![s[0] - m, s[1] - c, s[2] + m, s[3] + c]
    } else {
        seq![s[0] + m, s[1] + c, s[2] - m, s[3] - c]
    }
}

/// The loads of the boat, in the order they are tried: one missionary, one
/// cannibal, two missionaries, one of each, two cannibals.
pub open spec fn load(k: int) -> (int, int) {
    if k == 0 {
        (1, 0)
    } else if k == 1 {
        (0, 1)
    } else if k == 2 {
        (2, 0)
    } else if k == 3 {
        (1, 1)
    } else {
        (0, 2)
    }
}

/// No count is negative, and on bank `side` the missionaries are at least as
/// many as the cannibals.
pub open spec fn valid_counts(s: Seq<int>, side: Side) -> bool {
    &&& forall|k: int| 0 <= k < 4 ==> #[trigger] s[k] >= 0
    &&& if side == Side::This { s[0] >= s[1] } else { s[2] >= s[3] }
}

/// The missionaries and cannibals problem: the counts on each bank and where
/// the boat is.
#[derive(Debug, Clone, Copy, PartialEq, Eq, Hash)]
pub struct RiverSide {
    state: [i32; 4],
    boat: Side,
}

impl RiverSide {
    #[verifier::type_invariant]
    spec fn counts(self) -> bool {
        &&& forall|k: int| 0 <= k < 4 ==> #[trigger] self.state@[k] >= 0
        &&& self.state@[0] + self.state@[2] <= i32::MAX - 2
        &&& self.state@[1] + self.state@[3] <= i32::MAX - 2
    }

    /// The counts: missionaries and cannibals on this bank, then on the
    /// other.
    pub closed spec fn counts_spec(&self) -> Seq<i32> {
        self.state@
    }

    /// The bank the boat is at.
    pub closed spec fn boat_spec(&self) -> Side {
        self.boat
    }

    /// Everyone on this bank with the boat.
    pub fn init(missionary: u32, cannibal: u32) -> (r: Self)
        requires
            missionary <= i32::MAX - 2,
            cannibal <= i32::MAX - 2,
        ensures
            r.counts_spec() == seq![missionary as i32, cannibal as i32, 0i32, 0i32],
            r.boat_spec() == Side::This,
    {
        let r = RiverSide { state: [missionary as i32, cannibal as i32, 0, 0], boat: Side::This };
        assert(r.state@ =~= seq![missionary as i32, cannibal as i32, 0i32, 0i32]);
        r
    }

    /// The number of missionaries on this bank.
    pub fn missionary_this(&self) -> (r: u32)
        ensures
            r == self.counts_spec()[0],
    {
        proof {
            use_type_invariant(self);
        }
        self.state[0] as u32
    }

    /// The number of cannibals on this bank.
    pub fn cannibal_this(&self) -> (r: u32)
        ensures
            r == self.counts_spec()[1],
    {
        proof {
            use_type_invariant(self);
        }
        self.state[1] as u32
    }

    /// The number of missionaries on the other bank.
    pub fn missionary_other(&self) -> (r: u32)
        ensures
            r == self.counts_spec()[2],
    {
        proof {
            use_type_invariant(self);
        }
        self.state[2] as u32
    }

    /// The number of cannibals on the other bank.
    pub fn cannibal_other(&self) -> (r: u32)
        ensures
            r == self.counts_spec()[3],
    {
        proof {
            use_type_invariant(self);
        }
        self.state[3] as u32
    }

    /// Whether nobody is left on this bank.
    pub fn goal(&self) -> (r: bool)
        ensures
            r == (self.counts_spec()[0] == 0 && self.counts_spec()[1] == 0),
    {
        self.missionary_this() == 0 && self.cannibal_this() == 0
    }

    /// An estimate of the crossings left: none with nobody here, one with one
    /// or two here, else one less than the number here.
    pub fn heuristic(&self) -> (r: Cost)
        ensures
            ({
                let n = self.counts_spec()[0] + self.counts_spec()[1];
                r == if n == 0 { 0 } else if n <= 2 { 1 } else { n - 1 }
            }),
    {
        proof {
            use_type_invariant(self);
        }
        let this_side = self.missionary_this() + self.cannibal_this();
        if this_side == 0 {
            0
        } else if this_side <= 2 {
            1
        } else {
            this_side - 1
        }
    }
}

/// A state is looked at as itself.
impl View for RiverSide {
    type V = RiverSide;

    open spec fn view(&self) -> RiverSide {
        *self
    }
}

impl Searchable for RiverSide {
    open spec fn goal_spec(v: RiverSide) -> bool {
        v.counts_spec()[0] == 0 && v.counts_spec()[1] == 0
    }

    open spec fn estimate_spec(v: RiverSide) -> int {
        let n = v.counts_spec()[0] + v.counts_spec()[1];
        if n == 0 { 0 } else if n <= 2 { 1 } else { n - 1 }
    }

    /// The states after one crossing of the boat with one of the loads (see
    /// `load`) that leaves no count negative and the boat's bank safe.
    open spec fn moves(v: RiverSide) -> Seq<RiverSide> {
        moves_upto(v, 5)
    }

    fn is_goal(&self) -> (r: bool) {
        self.goal()
    }

    fn next_states(&self) -> (r: Vec<RiverSide>) {
        proof {
            use_type_invariant(self);
        }
        let loads: [(i32, i32); 5] = [(1, 0), (0, 1), (2, 0), (1, 1), (0, 2)];
        let other = match self.boat {
            Side::This => Side::Other,
            Side::Other => Side::This,
        };
        let mut r: Vec<RiverSide> = Vec::new();
        let mut k: usize = 0;
        while k < 5
            invariant
                k <= 5,
                forall|j: int| 0 <= j < 5 ==> #[trigger] loads@[j] == (load(j).0 as i32, load(j).1 as i32),
                other != self.boat,
                forall|j: int| 0 <= j < 4 ==> #[trigger] self.state@[j] >= 0,
                self.state@[0] + self.state@[2] <= i32::MAX - 2,
                self.state@[1] + self.state@[3] <= i32::MAX - 2,
                r@ == moves_upto(*self, k as int),
            decreases 5 - k,
        {
            let (m, c) = loads[k];
            let mut succ = self.state;
            match self.boat {
                Side::This => {
                    succ[0] = succ[0] - m;
                    succ[1] = succ[1] - c;
                    succ[2] = succ[2] + m;
                    succ[3] = succ[3] + c;
                },
                Side::Other => {
                    succ[0] = succ[0] + m;
                    succ[1] = succ[1] + c;
                    succ[2] = succ[2] - m;
                    succ[3] = succ[3] - c;
                },
            }
            let ghost counts = crossed(self.state@, self.boat, m as int, c as int);
            assert(forall|j: int| 0 <= j < 4 ==> succ@[j] == #[trigger] counts[j]);
            let ok = succ[0] >= 0 && succ[1] >= 0 && succ[2] >= 0 && succ[3] >= 0 && match self.boat {
                Side::This => succ[0] >= succ[1],
                Side::Other => succ[2] >= succ[3],
            };
            assert(ok == valid_counts(counts, self.boat));
            if ok {
                let next = RiverSide { state: succ, boat: other };
                proof {
                    assert(next == step_to(*self, k as int));
                }
                r.push(next);
            }
            k += 1;
        }
        assert(views(r@) =~= r@);
        r
    }

    fn weighted_next(&self) -> (r: Vec<(RiverSide, usize)>) {
        let next = self.next_states();
        let mut r: Vec<(RiverSide, usize)> = Vec::new();
        let mut k: usize = 0;
        while k < next.len()
            invariant
                k <= next@.len(),
                views(next@) == Self::moves(self@),
                r@.len() == k,
                forall|i: int| 0 <= i < k ==> (#[trigger] r@[i]).0@ == Self::moves(self@)[i] && r@[i].1 == 1,
            decreases next.len() - k,
        {
            r.push((next[k], 1));
            proof {
                assert(views(next@)[k as int] == next@[k as int]@);
            }
            k += 1;
        }
        r
    }

    fn estimate(&self) -> (r: usize)
        ensures
            ({
                let n = self.counts_spec()[0] + self.counts_spec()[1];
                r == if n == 0 { 0 } else if n <= 2 { 1 } else { n - 1 }
            }),
    {
        self.heuristic() as usize
    }
}

/// The state after the crossing with load `k`.
pub closed spec fn step_to(s: RiverSide, k: int) -> RiverSide {
    let counts = crossed(s.state@, s.boat, load(k).0, load(k).1);
    RiverSide {
        state: vstd::array::spec_array_update(vstd::array::spec_array_update(vstd::array::spec_array_update(
            vstd::array::spec_array_update(s.state, 0, counts[0] as i32), 1, counts[1] as i32), 2, counts[2] as i32), 3, counts[3] as i32),
        boat: if s.boat == Side::This { Side::Other } else { Side::This },
    }
}

/// The allowed crossings among the first `k` loads.
pub closed spec fn moves_upto(s: RiverSide, k: int) -> Seq<RiverSide>
    decreases k,
{
    if k <= 0 {
        Seq::empty()
    } else if valid_counts(crossed(s.state@, s.boat, load(k - 1).0, load(k - 1).1), s.boat) {
        moves_upto(s, k - 1).push(step_to(s, k - 1))
    } else {
        moves_upto(s, k - 1)
    }
}

/// No count is negative, and each kind of person numbers at most
/// `i32::MAX - 2` over both banks.
pub open spec fn bounded(s: RiverSide) -> bool {
    &&& forall|k: int| 0 <= k < 4 ==> #[trigger] s.counts_spec()[k] >= 0
    &&& s.counts_spec()[0] + s.counts_spec()[2] <= i32::MAX - 2
    &&& s.counts_spec()[1] + s.counts_spec()[3] <= i32::MAX - 2
}

/// The number of people on this bank.
pub open spec fn here(s: RiverSide) -> int {
    s.counts_spec()[0] + s.counts_spec()[1]
}

/// A number of crossings that a state still needs at least: a trip over
/// takes at most two people and a trip back brings at least one, so with
/// `n` people here and the boat here it takes `2n - 3` crossings (at least
/// one), and with the boat over there `2n`.
pub open spec fn crossings_left(s: RiverSide) -> int {
    let n = here(s);
    if n == 0 {
        0
    } else if s.boat_spec() == Side::This {
        if 2 * n - 3 >= 1 { 2 * n - 3 } else { 1 }
    } else {
        2 * n
    }
}

/// Each allowed crossing among the first `k` loads is one of them.
proof fn lemma_moves_upto(v: RiverSide, k: int, w: RiverSide)
    requires
        0 <= k <= 5,
        moves_upto(v, k).contains(w),
    ensures
        exists|j: int| 0 <= j < k && #[trigger] valid_counts(crossed(v.state@, v.boat, load(j).0, load(j).1), v.boat)
            && w == step_to(v, j),
    decreases k,
{
    if k > 0 {
        let prev = moves_upto(v, k - 1);
        if valid_counts(crossed(v.state@, v.boat, load(k - 1).0, load(k - 1).1), v.boat) {
            assert(moves_upto(v, k) == prev.push(step_to(v, k - 1)));
            if w == step_to(v, k - 1) {
                assert(valid_counts(crossed(v.state@, v.boat, load(k - 1).0, load(k - 1).1), v.boat) && w == step_to(v, k - 1));
            } else {
                let i = choose|i: int| 0 <= i < prev.len() + 1 && #[trigger] prev.push(step_to(v, k - 1))[i] == w;
                assert(i < prev.len());
                assert(prev[i] == w);
                assert(prev.contains(w));
                lemma_moves_upto(v, k - 1, w);
            }
        } else {
            lemma_moves_upto(v, k - 1, w);
        }
    }
}

/// A crossing keeps the counts bounded and lowers the crossings still
/// needed by at most one.
proof fn lemma_step(v: RiverSide, j: int)
    requires
        bounded(v),
        0 <= j < 5,
        valid_counts(crossed(v.state@, v.boat, load(j).0, load(j).1), v.boat),
    ensures
        bounded(step_to(v, j)),
        crossings_left(v) <= crossings_left(step_to(v, j)) + 1,
{
    let w = step_to(v, j);
    let counts = crossed(v.state@, v.boat, load(j).0, load(j).1);
    assert(forall|k: int| 0 <= k < 4 ==> #[trigger] counts[k] >= 0);
    assert(counts[0] >= 0 && counts[1] >= 0 && counts[2] >= 0 && counts[3] >= 0);
    assert(counts[0] + counts[2] == v.state@[0] + v.state@[2]);
    assert(counts[1] + counts[3] == v.state@[1] + v.state@[3]);
    assert(w.state@ =~= seq![counts[0] as i32, counts[1] as i32, counts[2] as i32, counts[3] as i32]);
    assert(w.state@[0] == counts[0] && w.state@[1] == counts[1] && w.state@[2] == counts[2] && w.state@[3] == counts[3]);
    let t = load(j).0 + load(j).1;
    assert(1 <= t <= 2);
    if v.boat == Side::This {
        assert(here(w) == here(v) - t);
        assert(w.boat == Side::Other);
    } else {
        assert(here(w) == here(v) + t);
        assert(w.boat == Side::This);
    }
}

/// Along a path from a bounded state, every state is bounded and the
/// crossings still needed fall by at most one a move.
proof fn lemma_path_left(p: Seq<RiverSide>)
    requires
        is_path::<RiverSide>(p),
        p.len() > 0,
        bounded(p[0]),
    ensures
        bounded(p.last()),
        crossings_left(p[0]) <= p.len() - 1 + crossings_left(p.last()),
    decreases p.len(),
{
    if p.len() > 1 {
        let q = p.drop_last();
        assert forall|i: int| 0 <= i < q.len() - 1 implies RiverSide::moves(#[trigger] q[i]).contains(q[i + 1]) by {
            assert(q[i] == p[i] && q[i + 1] == p[i + 1]);
            assert(RiverSide::moves(p[i]).contains(p[i + 1]));
        }
        assert(is_path::<RiverSide>(q));
        lemma_path_left(q);
        let n = p.len() - 2;
        assert(q.last() == p[n]);
        assert(RiverSide::moves(p[n]).contains(p[n + 1]));
        lemma_moves_upto(p[n], 5, p[n + 1]);
        let j = choose|j: int| 0 <= j < 5 && #[trigger] valid_counts(crossed(p[n].state@, p[n].boat, load(j).0, load(j).1), p[n].boat)
            && p[n + 1] == step_to(p[n], j);
        lemma_step(p[n], j);
    }
}

/// From a bounded start, the estimate never exceeds the crossings a state
/// reachable from it still needs.
pub proof fn lemma_estimate_admissible(start: RiverSide)
    requires
        bounded(start),
    ensures
        admissible_from::<RiverSide>(start),
{
    assert forall|q: Seq<RiverSide>, v: RiverSide| #[trigger] solves::<RiverSide>(q, v) && reachable::<RiverSide>(start, v)
        implies RiverSide::estimate_spec(v) <= q.len() - 1 by {
        let p = choose|p: Seq<RiverSide>| #[trigger] is_path::<RiverSide>(p) && p.len() > 0 && p[0] == start && p.last() == v;
        lemma_path_left(p);
        lemma_path_left(q);
        assert(here(q.last()) == 0);
    }
}

/// A sequence of states from everyone on this bank to everyone on the other,
/// each one crossing from the one before, found by A* search; `None` when
/// the search finds none.
pub fn solve_river_crossing(missionary: u32, cannibal: u32) -> (r: Option<Vec<RiverSide>>)
    requires
        missionary <= i32::MAX - 2,
        cannibal <= i32::MAX - 2,
    ensures
        r matches Some(p) ==> {
            &&& solves::<RiverSide>(views(p@), p@[0])
            &&& p@[0].counts_spec() == seq![missionary as i32, cannibal as i32, 0i32, 0i32]
            &&& p@[0].boat_spec() == Side::This
        },
        r matches Some(p) ==> shortest::<RiverSide>(views(p@), p@[0]),
        r is None ==> forall|s: RiverSide, t: RiverSide| #[trigger] reachable::<RiverSide>(s, t)
            && s.counts_spec() == seq![missionary as i32, cannibal as i32, 0i32, 0i32] && s.boat_spec()
            == Side::This ==> !RiverSide::goal_spec(t),
{
    let start = RiverSide::init(missionary, cannibal);
    proof {
        lemma_estimate_admissible(start);
    }
    match astar_search(&start) {
        Some((path, _)) => Some(path),
        None => {
            proof {
                assert forall|s: RiverSide, t: RiverSide| #[trigger] reachable::<RiverSide>(s, t)
                    && s.counts_spec() == seq![missionary as i32, cannibal as i32, 0i32, 0i32] && s.boat_spec()
                    == Side::This implies !RiverSide::goal_spec(t) by {
                    assert(s.state@ =~= start.state@);
                    assert(s.state == start.state);
                    assert(s == start);
                    assert(reachable::<RiverSide>(start@, t));
                }
            }
            None
        },
    }
}

impl StateKey for RiverSide {}

} // verus!

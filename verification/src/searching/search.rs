use vstd::prelude::*;

verus! {

/// A state of a search problem with unit-cost moves. The problem is stated
/// over the states' views: which views are goals and which views are one
/// move away from a view.
pub trait Searchable: View + Sized {
    /// Whether a state that looks like `v` solves the problem.
    spec fn goal_spec(v: Self::V) -> bool;

    /// The views of the states one move away from a state that looks like
    /// `v`, in the order they are generated.
    spec fn moves(v: Self::V) -> Seq<Self::V>;

    /// Whether the state solves the problem.
    fn is_goal(&self) -> (r: bool)
        ensures
            r == Self::goal_spec(self@),
    ;

    /// The states one move away.
    fn next_states(&self) -> (r: Vec<Self>)
        ensures
            views(r@) == Self::moves(self@),
    ;

    /// The states one move away, each with the cost of the move, one.
    fn weighted_next(&self) -> (r: Vec<(Self, usize)>)
        ensures
            r@.len() == Self::moves(self@).len(),
            forall|i: int| 0 <= i < r@.len() ==> (#[trigger] r@[i]).0@ == Self::moves(self@)[i] && r@[i].1 == 1,
    ;

    /// The estimate of the number of moves left from a state that looks
    /// like `v`.
    spec fn estimate_spec(v: Self::V) -> int;

    /// An estimate of the number of moves left.
    fn estimate(&self) -> (r: usize)
        ensures
            r == Self::estimate_spec(self@),
    ;
}

/// The views of the values of `s`.
pub open spec fn views<N: View>(s: Seq<N>) -> Seq<N::V> {
    s.map_values(|x: N| x@)
}

/// Each view of `p` is one move away from the one before it.
pub open spec fn is_path<N: Searchable>(p: Seq<N::V>) -> bool {
    forall|i: int| 0 <= i < p.len() - 1 ==> N::moves(#[trigger] p[i]).contains(p[i + 1])
}

/// A path from `start` to a goal.
pub open spec fn solves<N: Searchable>(p: Seq<N::V>, start: N::V) -> bool {
    &&& p.len() > 0
    &&& p[0] == start
    &&& N::goal_spec(p.last())
    &&& is_path::<N>(p)
}

/// At every state reachable from `start`, the estimate never exceeds the
/// number of moves of a path from there to a goal.
pub open spec fn admissible_from<N: Searchable>(start: N::V) -> bool {
    forall|p: Seq<N::V>, v: N::V| #[trigger] solves::<N>(p, v) && reachable::<N>(start, v) ==> N::estimate_spec(v) <= p.len() - 1
}

/// `p` is a path to a goal from `start` with no more moves than any other.
pub open spec fn shortest<N: Searchable>(p: Seq<N::V>, start: N::V) -> bool {
    &&& solves::<N>(p, start)
    &&& forall|q: Seq<N::V>| #[trigger] solves::<N>(q, start) ==> p.len() <= q.len()
}

/// `target` is reachable from `start` by a path of moves.
pub open spec fn reachable<N: Searchable>(start: N::V, target: N::V) -> bool {
    exists|p: Seq<N::V>| #[trigger] is_path::<N>(p) && p.len() > 0 && p[0] == start && p.last() == target
}

/// Every state is reachable from itself.
pub proof fn lemma_reach_self<N: Searchable>(a: N::V)
    ensures
        reachable::<N>(a, a),
{
    let p = seq![a];
    assert(is_path::<N>(p));
}

/// A state one move past a reachable state is reachable.
pub proof fn lemma_reach_step<N: Searchable>(a: N::V, b: N::V, c: N::V)
    requires
        reachable::<N>(a, b),
        N::moves(b).contains(c),
    ensures
        reachable::<N>(a, c),
{
    let p = choose|p: Seq<N::V>| #[trigger] is_path::<N>(p) && p.len() > 0 && p[0] == a && p.last() == b;
    let q = p.push(c);
    assert forall|i: int| 0 <= i < q.len() - 1 implies N::moves(#[trigger] q[i]).contains(q[i + 1]) by {
        if i < p.len() - 1 {
            assert(q[i] == p[i] && q[i + 1] == p[i + 1]);
        }
    }
    assert(is_path::<N>(q));
}

/// A search state that the search crates may file by `Eq` and `Hash` and
/// copy by `Clone`: two states are equal exactly when their views are, equal
/// states hash alike, and a clone has the view of its original. The library
/// implements it only for its own problems, whose `PartialEq`, `Eq` and
/// `Hash` are derived over exactly the fields their views are made of and
/// whose `Clone` is derived over them too or verified to keep the view.
pub(crate) trait StateKey: Searchable + Clone + Eq + std::hash::Hash {}

/// Calls `pathfinding::directed::astar::astar` with unit move costs, the
/// state's estimate as heuristic and its goal test. The search records for
/// each state the state it was reached from and returns clones of the chain
/// of these links from the start to the first goal it expands, so the views
/// of a returned path start at that of `start`, end at a goal and follow
/// moves. Every state it meets is queued and, at
/// its cheapest cost, expanded, and each state taken from the queue is
/// tested as a goal, so it returns `None` only after meeting every state
/// reachable from the start without finding a goal. As its documentation
/// says, when the estimate never exceeds the true number of moves the path
/// returned is a shortest one and the cost returned is its number of moves
/// (the search reopens a state whenever it finds a cheaper way to it); it
/// only ever estimates states reachable from the start. All
/// of this rests on the laws of `StateKey`, by which the search tells states
/// apart. Left unsaid: the cost and the path when the estimate may exceed
/// the true number of moves.
#[verifier::external_body]
pub(crate) fn astar_search<N: StateKey>(start: &N) -> (r: Option<(Vec<N>, usize)>)
    ensures
        r matches Some((p, _)) ==> solves::<N>(views(p@), start@),
        r matches Some((p, c)) ==> (admissible_from::<N>(start@) ==> shortest::<N>(views(p@), start@) && c == p@.len() - 1),
        r is None ==> forall|t: N::V| #[trigger] reachable::<N>(start@, t) ==> !N::goal_spec(t),
{
    pathfinding::prelude::astar(start, |n: &N| n.weighted_next(), |n: &N| n.estimate(), |n: &N| n.is_goal())
}

/// Calls `pathfinding::directed::bfs::bfs` with the state's moves and goal
/// test. The search returns `[start]` when the start is a goal; otherwise it
/// visits the states breadth first, each once, and on meeting a goal returns
/// clones of the chain of links from the start to it. It returns `None` only
/// after visiting every state reachable from the start without meeting a
/// goal. It visits the states level by level and tests each new state as
/// a goal as it meets it, so the path it returns is a shortest one, as its
/// documentation says. All of this rests on the laws of `StateKey`.
#[verifier::external_body]
pub(crate) fn bfs_search<N: StateKey>(start: &N) -> (r: Option<Vec<N>>)
    ensures
        r matches Some(p) ==> solves::<N>(views(p@), start@),
        r matches Some(p) ==> shortest::<N>(views(p@), start@),
        r is None ==> forall|t: N::V| #[trigger] reachable::<N>(start@, t) ==> !N::goal_spec(t),
{
    pathfinding::prelude::bfs(start, |n: &N| n.next_states(), |n: &N| n.is_goal())
}

} // verus!

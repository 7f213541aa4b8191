use vstd::prelude::*;
use super::search::{admissible_from, astar_search, is_path, reachable, shortest, solves, views, Searchable, StateKey};
use super::utils::{diff, dests_spec, possible_dests};

verus! {

/// A tile: 1 to 8, or 0 for the empty square.
pub type Tile = u32;

/// The empty square.
pub const EMPTY: Tile = 0;

/// The solved board.
pub open spec fn goal_tiles() -> Seq<Tile> {
    seq![1, 2, 3, 4, 5, 6, 7, 8, 0]
}

/// The board holds nine different tiles from 0 to 8, the empty one among
/// them: each tile once.
pub open spec fn is_board(t: Seq<Tile>) -> bool {
    &&& t.len() == 9
    &&& forall|i: int| 0 <= i < 9 ==> #[trigger] t[i] <= 8
    &&& t.no_duplicates()
    &&& t.contains(EMPTY)
}

proof fn lemma_empty_unique(t: Seq<Tile>, c: int, e: int)
    requires
        is_board(t),
        0 <= c < 9,
        0 <= e < 9,
        t[c] == EMPTY,
        t[e] == EMPTY,
    ensures
        c == e,
{
}

proof fn lemma_swap_board(t: Seq<Tile>, a: int, b: int)
    requires
        is_board(t),
        0 <= a < 9,
        0 <= b < 9,
    ensures
        is_board(swapped(t, a, b)),
{
    let s = swapped(t, a, b);
    assert forall|i: int, j: int| 0 <= i < j < 9 implies s[i] != s[j] by {
        let si = if i == b { a } else if i == a { b } else { i };
        let sj = if j == b { a } else if j == a { b } else { j };
        assert(s[i] == t[si] && s[j] == t[sj]);
    }
    let k = choose|k: int| 0 <= k < 9 && t[k] == EMPTY;
    let sk = if k == a { b } else if k == b { a } else { k };
    assert(s[sk] == EMPTY);
}

/// The number of tiles among the first `j` that are not empty and larger
/// than tile `t`.
pub open spec fn larger_before(tiles: Seq<Tile>, j: int, t: Tile) -> int
    decreases j,
{
    if j <= 0 {
        0
    } else {
        larger_before(tiles, j - 1, t) + if tiles[j - 1] != EMPTY && tiles[j - 1] > t { 1int } else { 0int }
    }
}

/// The number of pairs of tiles, neither empty, in the wrong order, among
/// the first `upto` squares.
pub open spec fn inversions_spec(tiles: Seq<Tile>, upto: int) -> int
    decreases upto,
{
    if upto <= 0 {
        0
    } else {
        let i = upto - 1;
        inversions_spec(tiles, upto - 1) + if i > 0 && tiles[i] != EMPTY { larger_before(tiles, i, tiles[i]) } else { 0 }
    }
}

proof fn lemma_larger_before_bound(tiles: Seq<Tile>, j: int, t: Tile)
    ensures
        0 <= larger_before(tiles, j, t) <= if j < 0 { 0 } else { j },
    decreases j,
{
    if j > 0 {
        lemma_larger_before_bound(tiles, j - 1, t);
    }
}

proof fn lemma_inversions_bound(tiles: Seq<Tile>, upto: int)
    requires
        upto <= 9,
    ensures
        0 <= inversions_spec(tiles, upto) <= 9 * (if upto < 0 { 0 } else { upto }),
    decreases upto,
{
    if upto > 0 {
        lemma_inversions_bound(tiles, upto - 1);
        lemma_larger_before_bound(tiles, upto - 1, tiles[upto - 1]);
    }
}

/// Boards that agree on the first `n` squares count the same larger tiles
/// there.
proof fn lemma_larger_before_same(t: Seq<Tile>, u: Seq<Tile>, n: int, y: Tile)
    requires
        forall|j: int| 0 <= j < n ==> t[j] == u[j],
    ensures
        larger_before(t, n, y) == larger_before(u, n, y),
    decreases n,
{
    if n > 0 {
        lemma_larger_before_same(t, u, n - 1, y);
    }
}

/// Moving the empty square one place right leaves the larger tiles counted
/// before any square past both places unchanged.
proof fn lemma_larger_before_slide(t: Seq<Tile>, e: int, n: int, y: Tile)
    requires
        t.len() == 9,
        0 <= e < 8,
        t[e] == EMPTY,
        e + 2 <= n <= 9,
    ensures
        larger_before(swapped(t, e, e + 1), n, y) == larger_before(t, n, y),
    decreases n,
{
    let u = swapped(t, e, e + 1);
    if n == e + 2 {
        lemma_larger_before_same(t, u, e, y);
        assert(u[e] == t[e + 1] && u[e + 1] == EMPTY);
        assert(larger_before(u, e + 1, y) == larger_before(u, e, y) + if u[e] != EMPTY && u[e] > y { 1int } else { 0int });
        assert(larger_before(u, e + 2, y) == larger_before(u, e + 1, y));
        assert(larger_before(t, e + 1, y) == larger_before(t, e, y));
        assert(larger_before(t, e + 2, y) == larger_before(t, e + 1, y) + if t[e + 1] != EMPTY && t[e + 1] > y { 1int } else { 0int });
    } else {
        lemma_larger_before_slide(t, e, n - 1, y);
        assert(u[n - 1] == t[n - 1]);
    }
}

/// The inversions of the first `n` squares once the empty square at `e`
/// moves one place right.
proof fn lemma_inversions_slide(t: Seq<Tile>, e: int, n: int)
    requires
        t.len() == 9,
        0 <= e < 8,
        t[e] == EMPTY,
        0 <= n <= 9,
        n != e + 1,
    ensures
        inversions_spec(swapped(t, e, e + 1), n) == inversions_spec(t, n),
    decreases n,
{
    let u = swapped(t, e, e + 1);
    if n == 0 {
    } else if n <= e {
        lemma_inversions_slide(t, e, n - 1);
        assert(u[n - 1] == t[n - 1]);
        lemma_larger_before_same(t, u, n - 1, t[n - 1]);
    } else if n == e + 2 {
        lemma_inversions_slide(t, e, e);
        let x = t[e + 1];
        assert(u[e] == x && u[e + 1] == EMPTY);
        lemma_larger_before_same(t, u, e, x);
        assert(inversions_spec(u, e + 1) == inversions_spec(u, e) + if e > 0 && x != EMPTY { larger_before(u, e, x) } else { 0 });
        assert(inversions_spec(u, e + 2) == inversions_spec(u, e + 1));
        assert(inversions_spec(t, e + 1) == inversions_spec(t, e));
        assert(larger_before(t, e + 1, x) == larger_before(t, e, x));
        if e == 0 {
            assert(larger_before(t, 0, x) == 0);
        }
    } else {
        lemma_inversions_slide(t, e, n - 1);
        assert(u[n - 1] == t[n - 1]);
        lemma_larger_before_slide(t, e, n - 1, t[n - 1]);
    }
}

/// The empty square never counts in an inversion: sliding a tile sideways
/// into the empty square keeps the number of inversions, and so whether the
/// board is solvable.
pub proof fn law_sideways_slide_keeps_inversions(t: Seq<Tile>, e: int)
    requires
        t.len() == 9,
        0 <= e < 8,
        t[e] == EMPTY,
    ensures
        inversions_spec(swapped(t, e, e + 1), 9) == inversions_spec(t, 9),
        (inversions_spec(swapped(t, e, e + 1), 9) % 2 == 0) == (inversions_spec(t, 9) % 2 == 0),
{
    lemma_inversions_slide(t, e, 9);
}

/// Moving the empty square three places on (one row down) leaves the larger
/// tiles counted before any square past both places unchanged.
proof fn lemma_larger_before_drop(t: Seq<Tile>, e: int, n: int, y: Tile)
    requires
        t.len() == 9,
        0 <= e < 6,
        t[e] == EMPTY,
        e + 4 <= n <= 9,
    ensures
        larger_before(swapped(t, e, e + 3), n, y) == larger_before(t, n, y),
    decreases n,
{
    let u = swapped(t, e, e + 3);
    if n == e + 4 {
        lemma_larger_before_same(t, u, e, y);
        assert(u[e] == t[e + 3] && u[e + 3] == EMPTY && u[e + 1] == t[e + 1] && u[e + 2] == t[e + 2]);
        assert(larger_before(u, e + 1, y) == larger_before(u, e, y) + if u[e] != EMPTY && u[e] > y { 1int } else { 0int });
        assert(larger_before(u, e + 2, y) == larger_before(u, e + 1, y) + if u[e + 1] != EMPTY && u[e + 1] > y { 1int } else { 0int });
        assert(larger_before(u, e + 3, y) == larger_before(u, e + 2, y) + if u[e + 2] != EMPTY && u[e + 2] > y { 1int } else { 0int });
        assert(larger_before(u, e + 4, y) == larger_before(u, e + 3, y));
        assert(larger_before(t, e + 1, y) == larger_before(t, e, y));
        assert(larger_before(t, e + 2, y) == larger_before(t, e + 1, y) + if t[e + 1] != EMPTY && t[e + 1] > y { 1int } else { 0int });
        assert(larger_before(t, e + 3, y) == larger_before(t, e + 2, y) + if t[e + 2] != EMPTY && t[e + 2] > y { 1int } else { 0int });
        assert(larger_before(t, e + 4, y) == larger_before(t, e + 3, y) + if t[e + 3] != EMPTY && t[e + 3] > y { 1int } else { 0int });
    } else {
        lemma_larger_before_drop(t, e, n - 1, y);
        assert(u[n - 1] == t[n - 1]);
    }
}

/// The inversions once the empty square at `e` moves one row down change by
/// an even number: the tile that moves up passes two tiles, and turns the
/// order of each with it around.
proof fn lemma_inversions_drop(t: Seq<Tile>, e: int, n: int)
    requires
        is_board(t),
        0 <= e < 6,
        t[e] == EMPTY,
        e + 4 <= n <= 9,
    ensures
        (inversions_spec(swapped(t, e, e + 3), n) - inversions_spec(t, n)) % 2 == 0,
    decreases n,
{
    let u = swapped(t, e, e + 3);
    if n == e + 4 {
        let a = t[e + 1];
        let b = t[e + 2];
        let x = t[e + 3];
        assert(a != EMPTY && b != EMPTY && x != EMPTY) by {
            assert(t[e] == EMPTY);
        }
        assert(a != x && b != x) by {
            assert(t[e + 1] != t[e + 3] && t[e + 2] != t[e + 3]);
        }
        assert(u[e] == x && u[e + 1] == a && u[e + 2] == b && u[e + 3] == EMPTY);
        lemma_inversions_slide_prefix(t, u, e);
        lemma_larger_before_same(t, u, e, x);
        lemma_larger_before_same(t, u, e, a);
        lemma_larger_before_same(t, u, e, b);
        assert(larger_before(t, e + 1, a) == larger_before(t, e, a));
        assert(larger_before(t, e + 1, b) == larger_before(t, e, b));
        assert(larger_before(t, e + 2, b) == larger_before(t, e + 1, b) + if a > b { 1int } else { 0int });
        assert(larger_before(t, e + 1, x) == larger_before(t, e, x));
        assert(larger_before(t, e + 2, x) == larger_before(t, e + 1, x) + if a > x { 1int } else { 0int });
        assert(larger_before(t, e + 3, x) == larger_before(t, e + 2, x) + if b > x { 1int } else { 0int });
        assert(larger_before(u, e + 1, a) == larger_before(u, e, a) + if x > a { 1int } else { 0int });
        assert(larger_before(u, e + 1, b) == larger_before(u, e, b) + if x > b { 1int } else { 0int });
        assert(larger_before(u, e + 2, b) == larger_before(u, e + 1, b) + if a > b { 1int } else { 0int });
        if e == 0 {
            assert(larger_before(t, 0, x) == 0);
        }
        assert(inversions_spec(t, e + 1) == inversions_spec(t, e));
        assert(inversions_spec(t, e + 2) == inversions_spec(t, e + 1) + larger_before(t, e + 1, a));
        assert(inversions_spec(t, e + 3) == inversions_spec(t, e + 2) + larger_before(t, e + 2, b));
        assert(inversions_spec(t, e + 4) == inversions_spec(t, e + 3) + larger_before(t, e + 3, x));
        assert(inversions_spec(u, e + 1) == inversions_spec(u, e) + if e > 0 { larger_before(u, e, x) } else { 0 });
        assert(inversions_spec(u, e + 2) == inversions_spec(u, e + 1) + larger_before(u, e + 1, a));
        assert(inversions_spec(u, e + 3) == inversions_spec(u, e + 2) + larger_before(u, e + 2, b));
        assert(inversions_spec(u, e + 4) == inversions_spec(u, e + 3));
    } else {
        lemma_inversions_drop(t, e, n - 1);
        assert(u[n - 1] == t[n - 1]);
        lemma_larger_before_drop(t, e, n - 1, t[n - 1]);
    }
}

/// Boards that agree on the first `n` squares have the same inversions
/// there.
proof fn lemma_inversions_slide_prefix(t: Seq<Tile>, u: Seq<Tile>, n: int)
    requires
        forall|j: int| 0 <= j < n ==> t[j] == u[j],
    ensures
        inversions_spec(t, n) == inversions_spec(u, n),
    decreases n,
{
    if n > 0 {
        lemma_inversions_slide_prefix(t, u, n - 1);
        lemma_larger_before_same(t, u, n - 1, t[n - 1]);
    }
}

/// Sliding a tile up or down into the empty square changes the number of
/// inversions by an even number, so it keeps whether the board is solvable.
pub proof fn law_vertical_slide_keeps_parity(t: Seq<Tile>, e: int)
    requires
        is_board(t),
        0 <= e < 6,
        t[e] == EMPTY,
    ensures
        (inversions_spec(swapped(t, e, e + 3), 9) % 2 == 0) == (inversions_spec(t, 9) % 2 == 0),
{
    lemma_inversions_drop(t, e, 9);
}

/// The number of pairs of tiles, neither empty, in the wrong order.
pub fn inversions(tiles: &[Tile; 9]) -> (r: usize)
    ensures
        r == inversions_spec(tiles@, 9),
{
    let mut total: usize = 0;
    let mut i: usize = 0;
    while i < 9
        invariant
            i <= 9,
            total == inversions_spec(tiles@, i as int),
        decreases 9 - i,
    {
        proof {
            lemma_inversions_bound(tiles@, i as int);
        }
        if i > 0 && tiles[i] != EMPTY {
            let t = tiles[i];
            let mut count: usize = 0;
            let mut j: usize = 0;
            while j < i
                invariant
                    j <= i,
                    i < 9,
                    t == tiles@[i as int],
                    count == larger_before(tiles@, j as int, t),
                decreases i - j,
            {
                proof {
                    lemma_larger_before_bound(tiles@, j as int, t);
                }
                let s = tiles[j];
                if s != EMPTY && s > t {
                    count += 1;
                }
                j += 1;
            }
            proof {
                lemma_larger_before_bound(tiles@, i as int, t);
            }
            total += count;
        }
        i += 1;
    }
    total
}

/// The number of moves between squares `from` and `to` on a board of rows of
/// `side`: the horizontal distance plus the vertical one.
pub open spec fn manhattan_spec(side: int, from: int, to: int) -> int {
    let dx = from % side - to % side;
    let dy = from / side - to / side;
    (if dx >= 0 { dx } else { -dx }) + (if dy >= 0 { dy } else { -dy })
}

/// The number of moves between squares `from` and `to` on a board of rows of
/// `side`.
pub fn manhattan_distance(side: usize, from: usize, to: usize) -> (r: usize)
    requires
        side > 0,
        from < 9,
        to < 9,
    ensures
        r == manhattan_spec(side as int, from as int, to as int),
{
    let (from_x, from_y) = (from % side, from / side);
    let (to_x, to_y) = (to % side, to / side);
    assert(from_y <= 9 && to_y <= 9 && from_x <= 9 && to_x <= 9) by (nonlinear_arith)
        requires
            side > 0,
            from < 9,
            to < 9,
            from_x == from % side,
            to_x == to % side,
            from_y == from / side,
            to_y == to / side;
    diff(from_x, to_x) + diff(from_y, to_y)
}

/// The board after the tiles on squares `a` and `b` trade places.
pub open spec fn swapped(t: Seq<Tile>, a: int, b: int) -> Seq<Tile> {
    t.update(a, t[b]).update(b, t[a])
}

/// The eight puzzle: tiles 1 to 8 and an empty square on a three by three
/// board, squares numbered row by row.
#[derive(Clone, Copy, PartialEq, Eq, Hash, Debug)]
pub struct Eight {
    tiles: [Tile; 9],
}

impl View for Eight {
    type V = Seq<Tile>;

    closed spec fn view(&self) -> Seq<Tile> {
        self.tiles@
    }
}

impl Eight {
    #[verifier::type_invariant]
    spec fn board(self) -> bool {
        is_board(self.tiles@)
    }

    /// The puzzle with the given board, which must hold each tile 0 to 8
    /// once.
    pub fn new(tiles: [Tile; 9]) -> (r: Self)
        requires
            is_board(tiles@),
        ensures
            r@ == tiles@,
    {
        Eight { tiles }
    }

    /// The square of the empty tile.
    pub fn empty_idx(&self) -> (r: usize)
        ensures
            r < 9,
            self@[r as int] == EMPTY,
    {
        proof {
            use_type_invariant(self);
            assert(self.tiles@.contains(EMPTY));
        }
        let mut i: usize = 0;
        while i < 9
            invariant
                i <= 9,
                self.tiles@.contains(EMPTY),
                self.tiles@.len() == 9,
                forall|k: int| 0 <= k < i ==> self.tiles@[k] != EMPTY,
            decreases 9 - i,
        {
            if self.tiles[i] == EMPTY {
                return i;
            }
            i += 1;
        }
        proof {
            let k = choose|k: int| 0 <= k < 9 && self.tiles@[k] == EMPTY;
        }
        0
    }

    /// Whether the board is solvable: its number of inversions is even.
    pub fn solvable(&self) -> (r: bool)
        ensures
            r == (inversions_spec(self@, 9) % 2 == 0),
    {
        let inversions = inversions(&self.tiles);
        inversions % 2 == 0
    }

    /// The sum over the tiles of the number of moves each is from its place.
    pub open spec fn heuristic_spec(&self) -> int {
        distance_sum(self@, 9)
    }

    /// The sum over the tiles of the number of moves each is from its place:
    /// tile `t` belongs on square `t - 1`.
    pub fn heuristic(&self) -> (r: usize)
        ensures
            r == self.heuristic_spec(),
    {
        proof {
            use_type_invariant(self);
        }
        let mut total: usize = 0;
        let mut i: usize = 0;
        while i < 9
            invariant
                i <= 9,
                is_board(self.tiles@),
                total == distance_sum(self@, i as int),
                total <= 4 * i,
            decreases 9 - i,
        {
            let t = self.tiles[i];
            if t != EMPTY {
                let d = manhattan_distance(3, i, (t - 1) as usize);
                assert(d <= 4);
                total += d;
            }
            i += 1;
        }
        total
    }
}

impl Eight {
    /// Whether the board is solved.
    pub fn is_goal(&self) -> (r: bool)
        ensures
            r == (self@ == goal_tiles()),
    {
        <Self as Searchable>::is_goal(self)
    }

    /// The boards one slide away: for each square next to the empty one
    /// (above, below, left, right, as far as they exist), the board with that
    /// square's tile slid into the empty square.
    pub fn successors(&self) -> (r: Vec<Eight>)
        ensures
            views(r@) == slides(self@),
    {
        self.next_states()
    }

    /// A sequence of boards from this one to the solved board, each one
    /// slide from the one before, found by A* search with `heuristic`;
    /// `None` when no sequence of slides reaches it.
    pub fn solve(&self) -> (r: Option<(Vec<Self>, usize)>)
        ensures
            r matches Some((p, _)) ==> solves::<Eight>(views(p@), self@),
            r matches Some((p, c)) ==> shortest::<Eight>(views(p@), self@) && c == p@.len() - 1,
            r is None ==> forall|t: Seq<Tile>| #[trigger] reachable::<Eight>(self@, t) ==> !Eight::goal_spec(t),
    {
        proof {
            use_type_invariant(self);
            lemma_estimate_admissible(self@);
        }
        astar_search(self)
    }
}

/// The board's tiles, for those that look at them.
impl Eight {
    /// The tile on square `i`.
    pub fn tile(&self, i: usize) -> (r: Tile)
        requires
            i < 9,
        ensures
            r == self@[i as int],
    {
        self.tiles[i]
    }
}

/// The distances of the tiles on the first `upto` squares from their places.
pub open spec fn distance_sum(t: Seq<Tile>, upto: int) -> int
    decreases upto,
{
    if upto <= 0 {
        0
    } else {
        distance_sum(t, upto - 1) + if t[upto - 1] == EMPTY { 0 } else { manhattan_spec(3, upto - 1, t[upto - 1] - 1) }
    }
}

/// What square `i` adds to the distance sum.
pub open spec fn square_distance(t: Seq<Tile>, i: int) -> int {
    if t[i] == EMPTY { 0 } else { manhattan_spec(3, i, t[i] - 1) }
}

/// Boards that differ only on squares `a` and `b` differ in distance sum by
/// what those squares add.
proof fn lemma_distance_sum_two(t: Seq<Tile>, u: Seq<Tile>, a: int, b: int, n: int)
    requires
        0 <= n <= 9,
        t.len() == 9,
        u.len() == 9,
        0 <= a < 9,
        0 <= b < 9,
        a != b,
        forall|i: int| 0 <= i < 9 && i != a && i != b ==> t[i] == u[i],
    ensures
        distance_sum(u, n) - distance_sum(t, n) == (if a < n { square_distance(u, a) - square_distance(t, a) } else { 0 })
            + (if b < n { square_distance(u, b) - square_distance(t, b) } else { 0 }),
    decreases n,
{
    if n > 0 {
        lemma_distance_sum_two(t, u, a, b, n - 1);
        assert(distance_sum(t, n) == distance_sum(t, n - 1) + square_distance(t, n - 1));
        assert(distance_sum(u, n) == distance_sum(u, n - 1) + square_distance(u, n - 1));
        if n - 1 != a && n - 1 != b {
            assert(t[n - 1] == u[n - 1]);
            assert(square_distance(t, n - 1) == square_distance(u, n - 1));
        }
        if a == n - 1 {
            assert(!(a < n - 1));
        }
        if b == n - 1 {
            assert(!(b < n - 1));
        }
    }
}

/// Next squares are at most one move nearer to any square.
proof fn lemma_neighbour_distance(e: int, d: int, g: int)
    requires
        0 <= e < 9,
        0 <= g < 9,
        0 <= d < 9,
        dests_spec(e, 3, 9).contains(d as usize),
    ensures
        manhattan_spec(3, d, g) <= manhattan_spec(3, e, g) + 1,
{
    lemma_dest_cases(e, d);
}

/// A square next to square `e` is the one above, below, left or right of it.
proof fn lemma_dest_cases(e: int, d: int)
    requires
        0 <= e < 9,
        0 <= d < 9,
        dests_spec(e, 3, 9).contains(d as usize),
    ensures
        (d == e - 3 && e >= 3) || (d == e + 3 && e < 6) || (d == e - 1 && e % 3 != 0) || (d == e + 1 && e % 3 != 2),
{
    let ds = dests_spec(e, 3, 9);
    let up: Seq<usize> = if e >= 3 { seq![(e - 3) as usize] } else { seq![] };
    let down: Seq<usize> = if 9 - e > 3 { seq![(e + 3) as usize] } else { seq![] };
    let left: Seq<usize> = if e % 3 != 0 { seq![(e - 1) as usize] } else { seq![] };
    let right: Seq<usize> = if e % 3 != 3 - 1 { seq![(e + 1) as usize] } else { seq![] };
    assert(ds == up + down + left + right);
    let i = choose|i: int| 0 <= i < ds.len() && ds[i] == d as usize;
    let ud = up + down;
    let udl = ud + left;
    if i < up.len() {
        assert(ds[i] == up[i]);
        assert(d == e - 3);
    } else if i < ud.len() {
        assert(ds[i] == ud[i] && ud[i] == down[i - up.len()]);
        assert(d == e + 3);
    } else if i < udl.len() {
        assert(ds[i] == udl[i] && udl[i] == left[i - ud.len()]);
        assert(d == e - 1 && e % 3 != 0);
    } else {
        assert(ds[i] == right[i - udl.len()]);
        assert(d == e + 1 && e % 3 != 2);
    }
}

/// A slide keeps the board a board and lowers the distance sum by at most
/// one.
proof fn lemma_slide(v: Seq<Tile>, w: Seq<Tile>)
    requires
        is_board(v),
        slides(v).contains(w),
    ensures
        is_board(w),
        distance_sum(v, 9) <= distance_sum(w, 9) + 1,
{
    let e = choose|e: int| 0 <= e < 9 && v[e] == EMPTY;
    assert(v.contains(EMPTY));
    assert(0 <= e < 9 && v[e] == EMPTY);
    let ds = dests_spec(e, 3, 9);
    lemma_dests_in_range(e);
    let k = choose|k: int| 0 <= k < slides(v).len() && slides(v)[k] == w;
    let d = ds[k] as int;
    assert(ds.contains(ds[k]));
    assert(w == swapped(v, d, e));
    assert(d != e);
    lemma_swap_board(v, d, e);
    assert(w[d] == EMPTY && w[e] == v[d]);
    assert(v[d] != EMPTY);
    lemma_distance_sum_two(v, w, d, e, 9);
    lemma_neighbour_distance(e, d, v[d] - 1);
}

/// A slide keeps whether the board is solvable: sideways it keeps the
/// number of inversions, up or down it changes it by an even number.
pub proof fn law_slide_keeps_solvable(v: Seq<Tile>, w: Seq<Tile>)
    requires
        is_board(v),
        slides(v).contains(w),
    ensures
        is_board(w),
        (inversions_spec(w, 9) % 2 == 0) == (inversions_spec(v, 9) % 2 == 0),
{
    lemma_slide(v, w);
    let e = choose|e: int| 0 <= e < 9 && v[e] == EMPTY;
    assert(v.contains(EMPTY));
    assert(0 <= e < 9 && v[e] == EMPTY);
    let ds = dests_spec(e, 3, 9);
    lemma_dests_in_range(e);
    let k = choose|k: int| 0 <= k < slides(v).len() && slides(v)[k] == w;
    let d = ds[k] as int;
    assert(ds.contains(ds[k]));
    assert(w == swapped(v, d, e));
    lemma_dest_cases(e, d);
    assert(w[d] == EMPTY);
    if d == e + 1 {
        assert(w =~= swapped(v, e, e + 1));
        law_sideways_slide_keeps_inversions(v, e);
    } else if d == e - 1 {
        assert(v =~= swapped(w, d, d + 1));
        law_sideways_slide_keeps_inversions(w, d);
    } else if d == e + 3 {
        assert(w =~= swapped(v, e, e + 3));
        law_vertical_slide_keeps_parity(v, e);
    } else {
        assert(d == e - 3);
        assert(v =~= swapped(w, d, d + 3));
        law_vertical_slide_keeps_parity(w, d);
    }
}

/// Along a path from a board, every state is a board and solvable exactly
/// when the first one is.
proof fn lemma_path_parity(p: Seq<Seq<Tile>>)
    requires
        is_path::<Eight>(p),
        p.len() > 0,
        is_board(p[0]),
    ensures
        is_board(p.last()),
        (inversions_spec(p.last(), 9) % 2 == 0) == (inversions_spec(p[0], 9) % 2 == 0),
    decreases p.len(),
{
    if p.len() > 1 {
        let q = p.drop_last();
        assert forall|i: int| 0 <= i < q.len() - 1 implies Eight::moves(#[trigger] q[i]).contains(q[i + 1]) by {
            assert(q[i] == p[i] && q[i + 1] == p[i + 1]);
            assert(Eight::moves(p[i]).contains(p[i + 1]));
        }
        assert(is_path::<Eight>(q));
        lemma_path_parity(q);
        let n = p.len() - 2;
        assert(q.last() == p[n]);
        assert(Eight::moves(p[n]).contains(p[n + 1]));
        law_slide_keeps_solvable(p[n], p[n + 1]);
    }
}

/// In the solved board no tile comes after a larger one.
proof fn lemma_goal_inversions()
    ensures
        is_board(goal_tiles()),
        inversions_spec(goal_tiles(), 9) == 0,
{
    let g = goal_tiles();
    assert(g.contains(EMPTY)) by {
        assert(g[8] == EMPTY);
    }
    assert forall|i: int, j: int| 0 <= i < j < 9 implies g[i] != g[j] by {}
    lemma_goal_larger_before(1, 2);
    lemma_goal_larger_before(2, 3);
    lemma_goal_larger_before(3, 4);
    lemma_goal_larger_before(4, 5);
    lemma_goal_larger_before(5, 6);
    lemma_goal_larger_before(6, 7);
    lemma_goal_larger_before(7, 8);
    assert(inversions_spec(g, 0) == 0);
    assert(inversions_spec(g, 1) == 0);
    assert(larger_before(g, 1, 2) == 0);
    assert(inversions_spec(g, 2) == 0);
    assert(larger_before(g, 2, 3) == 0);
    assert(inversions_spec(g, 3) == 0);
    assert(larger_before(g, 3, 4) == 0);
    assert(inversions_spec(g, 4) == 0);
    assert(larger_before(g, 4, 5) == 0);
    assert(inversions_spec(g, 5) == 0);
    assert(larger_before(g, 5, 6) == 0);
    assert(inversions_spec(g, 6) == 0);
    assert(larger_before(g, 6, 7) == 0);
    assert(inversions_spec(g, 7) == 0);
    assert(larger_before(g, 7, 8) == 0);
    assert(inversions_spec(g, 8) == 0);
    assert(inversions_spec(g, 9) == 0);
}

/// Before square `n` of the solved board no tile is larger than `y >= n`.
proof fn lemma_goal_larger_before(n: int, y: int)
    requires
        0 <= n <= 8,
        n <= y <= 8,
    ensures
        larger_before(goal_tiles(), n, y as Tile) == 0,
    decreases n,
{
    if n > 0 {
        lemma_goal_larger_before(n - 1, y);
        assert(goal_tiles()[n - 1] == n);
    }
}

/// Every board that slides can reach from the solved board, and so every
/// board from which the solved board can be reached, is solvable.
pub proof fn law_reachable_boards_solvable(v: Seq<Tile>)
    requires
        reachable::<Eight>(goal_tiles(), v),
    ensures
        inversions_spec(v, 9) % 2 == 0,
{
    lemma_goal_inversions();
    let p = choose|p: Seq<Seq<Tile>>| #[trigger] is_path::<Eight>(p) && p.len() > 0 && p[0] == goal_tiles() && p.last() == v;
    lemma_path_parity(p);
}

/// Along a path from a board, every state is a board and the distance sum
/// falls by at most one a slide.
proof fn lemma_path_distance(p: Seq<Seq<Tile>>)
    requires
        is_path::<Eight>(p),
        p.len() > 0,
        is_board(p[0]),
    ensures
        is_board(p.last()),
        distance_sum(p[0], 9) <= p.len() - 1 + distance_sum(p.last(), 9),
    decreases p.len(),
{
    if p.len() > 1 {
        let q = p.drop_last();
        assert forall|i: int| 0 <= i < q.len() - 1 implies Eight::moves(#[trigger] q[i]).contains(q[i + 1]) by {
            assert(q[i] == p[i] && q[i + 1] == p[i + 1]);
            assert(Eight::moves(p[i]).contains(p[i + 1]));
        }
        assert(is_path::<Eight>(q));
        lemma_path_distance(q);
        let n = p.len() - 2;
        assert(q.last() == p[n]);
        assert(Eight::moves(p[n]).contains(p[n + 1]));
        lemma_slide(p[n], p[n + 1]);
    }
}

/// The solved board is no distance from itself.
proof fn lemma_goal_distance()
    ensures
        distance_sum(goal_tiles(), 9) == 0,
{
    let g = goal_tiles();
    assert(distance_sum(g, 0) == 0);
    assert(distance_sum(g, 1) == 0);
    assert(distance_sum(g, 2) == 0);
    assert(distance_sum(g, 3) == 0);
    assert(distance_sum(g, 4) == 0);
    assert(distance_sum(g, 5) == 0);
    assert(distance_sum(g, 6) == 0);
    assert(distance_sum(g, 7) == 0);
    assert(distance_sum(g, 8) == 0);
}

/// The sum of the tiles' distances from their places never exceeds the
/// number of slides to the solved board from a board reachable from `start`.
pub proof fn lemma_estimate_admissible(start: Seq<Tile>)
    requires
        is_board(start),
    ensures
        admissible_from::<Eight>(start),
{
    assert forall|q: Seq<Seq<Tile>>, v: Seq<Tile>| #[trigger] solves::<Eight>(q, v) && reachable::<Eight>(start, v)
        implies Eight::estimate_spec(v) <= q.len() - 1 by {
        let p = choose|p: Seq<Seq<Tile>>| #[trigger] is_path::<Eight>(p) && p.len() > 0 && p[0] == start && p.last() == v;
        lemma_path_distance(p);
        lemma_path_distance(q);
        lemma_goal_distance();
    }
}

/// Every square next to one of the nine squares is one of them.
proof fn lemma_dests_in_range(e: int)
    requires
        0 <= e < 9,
    ensures
        forall|i: int| 0 <= i < dests_spec(e, 3, 9).len() ==> #[trigger] dests_spec(e, 3, 9)[i] < 9,
{
}

/// The boards one slide away from `v`: for each square next to the empty
/// one (above, below, left, right, as far as they exist), the board with that
/// square's tile slid into the empty square.
pub open spec fn slides(v: Seq<Tile>) -> Seq<Seq<Tile>> {
    let e = choose|e: int| 0 <= e < 9 && v[e] == EMPTY;
    dests_spec(e, 3, 9).map_values(|d: usize| swapped(v, d as int, e))
}

impl Searchable for Eight {
    open spec fn goal_spec(v: Seq<Tile>) -> bool {
        v == goal_tiles()
    }

    open spec fn estimate_spec(v: Seq<Tile>) -> int {
        distance_sum(v, 9)
    }

    open spec fn moves(v: Seq<Tile>) -> Seq<Seq<Tile>> {
        slides(v)
    }

    /// Whether the board is solved.
    fn is_goal(&self) -> (r: bool) {
        let goal: [Tile; 9] = [1, 2, 3, 4, 5, 6, 7, 8, EMPTY];
        let mut i: usize = 0;
        while i < 9
            invariant
                i <= 9,
                goal@ == goal_tiles(),
                forall|k: int| 0 <= k < i ==> self@[k] == goal_tiles()[k],
                self@.len() == 9,
            decreases 9 - i,
        {
            if self.tiles[i] != goal[i] {
                return false;
            }
            i += 1;
        }
        assert(self@ =~= goal_tiles());
        true
    }

    /// The boards after sliding into the empty square a tile next to it:
    /// from above, below, the left and the right, as far as they exist.
    fn next_states(&self) -> (r: Vec<Eight>) {
        proof {
            use_type_invariant(self);
        }
        let e = self.empty_idx();
        proof {
            let c = choose|c: int| 0 <= c < 9 && self@[c] == EMPTY;
            lemma_empty_unique(self.tiles@, c, e as int);
        }
        let dests = possible_dests(e, 3, 9);
        proof {
            lemma_dests_in_range(e as int);
        }
        let mut r: Vec<Eight> = Vec::new();
        let mut k: usize = 0;
        while k < dests.len()
            invariant
                k <= dests@.len(),
                e < 9,
                self@[e as int] == EMPTY,
                is_board(self.tiles@),
                dests@ == dests_spec(e as int, 3, 9),
                forall|m: int| 0 <= m < dests@.len() ==> #[trigger] dests@[m] < 9,
                views(r@) == dests@.subrange(0, k as int).map_values(|d: usize| swapped(self@, d as int, e as int)),
            decreases dests.len() - k,
        {
            let d = dests[k];
            let mut succ = self.tiles;
            let td = succ[d];
            let te = succ[e];
            succ[d] = te;
            succ[e] = td;
            proof {
                assert(succ@ =~= swapped(self.tiles@, d as int, e as int));
                lemma_swap_board(self.tiles@, d as int, e as int);
            }
            let next = Eight { tiles: succ };
            let ghost before = r@;
            r.push(next);
            proof {
                assert(views(r@) =~= views(before).push(next@));
                assert(dests@.subrange(0, k + 1) =~= dests@.subrange(0, k as int).push(d));
                assert(views(r@) =~= dests@.subrange(0, k + 1).map_values(|d: usize| swapped(self@, d as int, e as int)));
            }
            k += 1;
        }
        assert(dests@.subrange(0, dests@.len() as int) =~= dests@);
        r
    }

    fn weighted_next(&self) -> (r: Vec<(Eight, usize)>) {
        let next = self.next_states();
        let mut r: Vec<(Eight, usize)> = Vec::new();
        let mut k: usize = 0;
        while k < next.len()
            invariant
                k <= next@.len(),
                views(next@) == Self::moves(self@),
                r@.len() == k,
                forall|i: int| 0 <= i < k ==> (#[trigger] r@[i]).0@ == Self::moves(self@)[i] && r@[i].1 == 1,
            decreases next.len() - k,
        {
            r.push((next[k], 1));
            proof {
                assert(views(next@)[k as int] == next@[k as int]@);
            }
            k += 1;
        }
        r
    }

    fn estimate(&self) -> (r: usize)
        ensures
            r == self.heuristic_spec(),
    {
        self.heuristic()
    }
}

impl StateKey for Eight {}

} // verus!

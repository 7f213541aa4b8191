use vstd::prelude::*;
use super::search::{admissible_from, astar_search, is_path, lemma_reach_self, lemma_reach_step, reachable, shortest, solves, views, Searchable, StateKey};
use vstd::arithmetic::div_mod::{lemma_fundamental_div_mod, lemma_mod_pos_bound, lemma_small_mod};
use super::utils::{dests_spec, possible_dests};

verus! {

/// The state of one square of a room.
#[derive(Clone, Copy, PartialEq, Eq, Hash, Debug)]
pub enum Cleanliness {
    Dirty,
    Clean,
}

impl Cleanliness {
    /// The square as drawn on a map: `.` clean, `%` dirty.
    pub fn char(self) -> (r: char)
        ensures
            r == (if self is Clean { '.' } else { '%' }),
    {
        match self {
            Cleanliness::Clean => '.',
            Cleanliness::Dirty => '%',
        }
    }
}

/// A rectangular room of squares laid out in rows of `width`, numbered row
/// by row, and the square the cleaner stands on.
#[derive(PartialEq, Eq, Hash, Debug)]
pub struct Room {
    cleaner: usize,
    width: usize,
    squares: Vec<Cleanliness>,
}

/// What a room is made of: the cleaner's square, the row width and the
/// squares.
pub struct RoomView {
    pub cleaner: int,
    pub width: int,
    pub squares: Seq<Cleanliness>,
}

impl View for Room {
    type V = RoomView;

    closed spec fn view(&self) -> RoomView {
        RoomView { cleaner: self.cleaner as int, width: self.width as int, squares: self.squares@ }
    }
}

/// The room has whole rows, the cleaner stands inside it, and twice its size
/// fits in a `usize`.
pub open spec fn is_room(v: RoomView) -> bool {
    &&& v.width > 0
    &&& (v.squares.len() as int) % v.width == 0
    &&& 0 <= v.cleaner < v.squares.len()
    &&& v.squares.len() <= usize::MAX / 2
}

/// The number of dirty squares.
pub open spec fn dirt(s: Seq<Cleanliness>) -> int
    decreases s.len(),
{
    if s.len() == 0 {
        0
    } else {
        dirt(s.drop_last()) + if s.last() is Dirty { 1int } else { 0int }
    }
}

/// Every square is clean.
pub open spec fn all_clean(v: RoomView) -> bool {
    forall|i: int| 0 <= i < v.squares.len() ==> #[trigger] v.squares[i] is Clean
}

/// The estimate of the moves left: two for each dirty square (move there,
/// suck), one less as the cleaner may already stand on one; none when all is
/// clean.
pub open spec fn estimate_of(v: RoomView) -> int {
    let d = dirt(v.squares);
    if d == 0 {
        0
    } else {
        2 * d - 1
    }
}

/// The room after the cleaner sucks up the dirt under it (if it stands in
/// the room).
pub open spec fn sucked(v: RoomView) -> RoomView {
    let squares = if 0 <= v.cleaner < v.squares.len() {
        v.squares.update(v.cleaner, Cleanliness::Clean)
    } else {
        v.squares
    };
    RoomView { cleaner: v.cleaner, width: v.width, squares }
}

/// The rooms one action away: sucking first, then the cleaner moved up,
/// down, left and right, as far as the room goes.
pub open spec fn room_moves(v: RoomView) -> Seq<RoomView> {
    seq![sucked(v)] + dests_spec(v.cleaner, v.width, v.squares.len() as int).map_values(
        |d: usize| RoomView { cleaner: d as int, width: v.width, squares: v.squares },
    )
}

impl Room {
    #[verifier::type_invariant]
    spec fn well_formed(self) -> bool {
        is_room(self@)
    }

    /// A room with the cleaner at column `cleaner_x` of row `cleaner_y`.
    pub fn new(cleaner: (usize, usize), width: usize, squares: Vec<Cleanliness>) -> (r: Room)
        requires
            width > 0,
            squares@.len() % (width as nat) == 0,
            squares@.len() <= usize::MAX / 2,
            cleaner.0 < width,
            cleaner.1 < squares@.len() / (width as nat),
        ensures
            r@.cleaner == cleaner.1 * width + cleaner.0,
            r@.width == width,
            r@.squares == squares@,
    {
        let (cleaner_x, cleaner_y) = cleaner;
        let rows: usize = squares.len() / width;
        proof {
            assert(cleaner_y * width + cleaner_x < squares.len()) by (nonlinear_arith)
                requires
                    cleaner_x < width,
                    cleaner_y < rows,
                    rows == squares.len() / width,
                    width > 0,
            {
                assert(cleaner_y * width + cleaner_x < (cleaner_y + 1) * width);
                assert((cleaner_y + 1) * width <= rows * width);
                assert(rows * width <= squares.len());
            }
        }
        let c = cleaner_y * width + cleaner_x;
        Room { cleaner: c, width, squares }
    }

    /// The column and row of the cleaner.
    pub fn cleaner_pos(&self) -> (r: (usize, usize))
        ensures
            r.0 == self@.cleaner % self@.width,
            r.1 == self@.cleaner / self@.width,
    {
        proof {
            use_type_invariant(self);
        }
        (self.cleaner % self.width, self.cleaner / self.width)
    }

    /// The length of a row.
    pub fn width(&self) -> (r: usize)
        ensures
            r == self@.width,
    {
        self.width
    }

    /// The squares, row by row.
    pub fn squares(&self) -> (r: &Vec<Cleanliness>)
        ensures
            r@ == self@.squares,
    {
        &self.squares
    }

    /// The room after the cleaner sucks up the dirt under it.
    fn clean(&self) -> (r: Room)
        ensures
            r@ == sucked(self@),
    {
        proof {
            use_type_invariant(self);
        }
        let mut squares = copy_squares(&self.squares);
        squares.set(self.cleaner, Cleanliness::Clean);
        Room { cleaner: self.cleaner, width: self.width, squares }
    }

    /// Whether every square is clean.
    pub fn is_goal(&self) -> (r: bool)
        ensures
            r == all_clean(self@),
    {
        <Self as Searchable>::is_goal(self)
    }

    /// Two moves for each dirty square (move there, suck), one less as the
    /// square under the cleaner needs no move.
    pub fn heuristic(&self) -> (r: usize)
        ensures
            r == estimate_of(self@),
    {
        proof {
            use_type_invariant(self);
        }
        let mut dirty: usize = 0;
        let mut i: usize = 0;
        while i < self.squares.len()
            invariant
                i <= self.squares@.len(),
                dirty == dirt(self.squares@.subrange(0, i as int)),
                dirty <= i,
            decreases self.squares@.len() - i,
        {
            proof {
                assert(self.squares@.subrange(0, i + 1).drop_last() =~= self.squares@.subrange(0, i as int));
            }
            match self.squares[i] {
                Cleanliness::Dirty => {
                    dirty += 1;
                },
                Cleanliness::Clean => {},
            }
            i += 1;
        }
        proof {
            assert(self.squares@.subrange(0, i as int) =~= self.squares@);
        }
        (dirty * 2).saturating_sub(1)
    }

    /// The rooms one action away: sucking first, then the cleaner moved up,
    /// down, left and right, as far as the room goes.
    pub fn successors(&self) -> (r: Vec<Room>)
        ensures
            views(r@) == room_moves(self@),
    {
        self.next_states()
    }

    /// A sequence of rooms from this one to a clean room, each one action
    /// from the one before, found by A* search with `heuristic`. Every room
    /// can be cleaned, so there always is one.
    pub fn solve(&self) -> (r: Option<(Vec<Room>, usize)>)
        ensures
            r is Some,
            r matches Some((p, _)) ==> solves::<Room>(views(p@), self@),
            r matches Some((p, c)) ==> shortest::<Room>(views(p@), self@) && c == p@.len() - 1,
    {
        proof {
            use_type_invariant(self);
            lemma_room_solvable(self@);
            assert forall|p: Seq<RoomView>, v: RoomView| #[trigger] solves::<Room>(p, v) && reachable::<Room>(self@, v)
                implies Room::estimate_spec(v) <= p.len() - 1 by {
                lemma_estimate_admissible(p, v);
            }
            assert(admissible_from::<Room>(self@));
        }
        astar_search(self)
    }

    /// A room that looks like this one.
    fn duplicate(&self) -> (r: Room)
        ensures
            r@ == self@,
    {
        proof {
            use_type_invariant(self);
        }
        Room { cleaner: self.cleaner, width: self.width, squares: copy_squares(&self.squares) }
    }

}

/// A copy of the squares.
fn copy_squares(v: &Vec<Cleanliness>) -> (r: Vec<Cleanliness>)
    ensures
        r@ == v@,
{
    let mut r: Vec<Cleanliness> = Vec::new();
    let mut i: usize = 0;
    while i < v.len()
        invariant
            i <= v@.len(),
            r@ == v@.subrange(0, i as int),
        decreases v@.len() - i,
    {
        r.push(v[i]);
        i += 1;
        proof {
            assert(r@ =~= v@.subrange(0, i as int));
        }
    }
    proof {
        assert(v@.subrange(0, i as int) =~= v@);
    }
    r
}

/// In a room of whole rows every square next to one inside it is inside it.
proof fn lemma_dests_inside(pos: int, width: int, len: int)
    requires
        width > 0,
        0 <= pos < len <= usize::MAX,
        len % width == 0,
    ensures
        forall|i: int| 0 <= i < dests_spec(pos, width, len).len() ==> #[trigger] dests_spec(pos, width, len)[i] < len,
{
    if pos % width != width - 1 {
        assert(pos + 1 < len) by (nonlinear_arith)
            requires
                width > 0,
                0 <= pos < len,
                len % width == 0,
                pos % width != width - 1,
        {
            if pos + 1 == len {
                let q = len / width;
                assert(len == q * width);
                assert(pos == (q - 1) * width + (width - 1));
                vstd::arithmetic::div_mod::lemma_fundamental_div_mod_converse(pos, width, q - 1, width - 1);
            }
        }
    }
    if pos % width != 0 {
        assert(pos >= 1) by (nonlinear_arith)
            requires
                width > 0,
                0 <= pos,
                pos % width != 0,
        {
            if pos == 0 {
                assert(0int % width == 0);
            }
        }
    }
    let up: Seq<usize> = if pos >= width { seq![(pos - width) as usize] } else { seq![] };
    let down: Seq<usize> = if len - pos > width { seq![(pos + width) as usize] } else { seq![] };
    let left: Seq<usize> = if pos % width != 0 { seq![(pos - 1) as usize] } else { seq![] };
    let right: Seq<usize> = if pos % width != width - 1 { seq![(pos + 1) as usize] } else { seq![] };
    let ds = dests_spec(pos, width, len);
    assert(ds == up + down + left + right);
    assert forall|i: int| 0 <= i < ds.len() implies #[trigger] ds[i] < len by {
        let a = up + down;
        let b = a + left;
        if i < b.len() {
            if i < a.len() {
                if i < up.len() {
                    assert(ds[i] == up[i]);
                } else {
                    assert(ds[i] == down[i - up.len()]);
                }
            } else {
                assert(ds[i] == left[i - a.len()]);
            }
        } else {
            assert(ds[i] == right[i - b.len()]);
        }
    }
}

/// Twice the dirty squares, one less when the cleaner stands on one: no
/// action lowers it by more than one.
spec fn potential(v: RoomView) -> int {
    2 * dirt(v.squares) - if 0 <= v.cleaner < v.squares.len() && v.squares[v.cleaner] is Dirty { 1int } else { 0int }
}

proof fn lemma_dirt_bounds(s: Seq<Cleanliness>)
    ensures
        0 <= dirt(s) <= s.len(),
    decreases s.len(),
{
    if s.len() > 0 {
        lemma_dirt_bounds(s.drop_last());
    }
}

/// Cleaning square `i` takes away its dirt, if any.
proof fn lemma_dirt_update(s: Seq<Cleanliness>, i: int)
    requires
        0 <= i < s.len(),
    ensures
        dirt(s.update(i, Cleanliness::Clean)) == dirt(s) - if s[i] is Dirty { 1int } else { 0int },
    decreases s.len(),
{
    let t = s.update(i, Cleanliness::Clean);
    if i < s.len() - 1 {
        lemma_dirt_update(s.drop_last(), i);
        assert(t.drop_last() =~= s.drop_last().update(i, Cleanliness::Clean));
    } else {
        assert(t.drop_last() =~= s.drop_last());
    }
}

/// No dirt is left exactly when every square is clean.
proof fn lemma_dirt_zero(s: Seq<Cleanliness>)
    ensures
        dirt(s) == 0 <==> forall|i: int| 0 <= i < s.len() ==> #[trigger] s[i] is Clean,
    decreases s.len(),
{
    if s.len() > 0 {
        lemma_dirt_zero(s.drop_last());
        lemma_dirt_bounds(s.drop_last());
        if dirt(s) == 0 {
            assert forall|i: int| 0 <= i < s.len() implies #[trigger] s[i] is Clean by {
                if i < s.len() - 1 {
                    assert(s[i] == s.drop_last()[i]);
                }
            }
        } else {
            if forall|i: int| 0 <= i < s.len() ==> #[trigger] s[i] is Clean {
                assert forall|i: int| 0 <= i < s.drop_last().len() implies #[trigger] s.drop_last()[i] is Clean by {
                    assert(s[i] is Clean);
                }
                assert(s[s.len() - 1] is Clean);
            }
        }
    }
}

/// One action lowers the potential by at most one.
proof fn lemma_step(v: RoomView, w: RoomView)
    requires
        room_moves(v).contains(w),
    ensures
        potential(v) <= potential(w) + 1,
{
    let k = choose|k: int| 0 <= k < room_moves(v).len() && room_moves(v)[k] == w;
    if k == 0 {
        assert(w == sucked(v));
        if 0 <= v.cleaner < v.squares.len() {
            lemma_dirt_update(v.squares, v.cleaner);
        }
    } else {
        assert(w.squares == v.squares);
    }
}

/// Along a path the potential falls by at most one per action.
proof fn lemma_path_potential(p: Seq<RoomView>)
    requires
        is_path::<Room>(p),
        p.len() > 0,
    ensures
        potential(p[0]) <= p.len() - 1 + potential(p.last()),
    decreases p.len(),
{
    if p.len() > 1 {
        let q = p.drop_last();
        assert forall|i: int| 0 <= i < q.len() - 1 implies room_moves(#[trigger] q[i]).contains(q[i + 1]) by {
            assert(q[i] == p[i] && q[i + 1] == p[i + 1]);
            assert(room_moves(p[i]).contains(p[i + 1]));
        }
        assert(is_path::<Room>(q));
        lemma_path_potential(q);
        let n = p.len() - 2;
        assert(room_moves(p[n]).contains(p[n + 1]));
        lemma_step(p[n], p[n + 1]);
    }
}

/// The estimate never exceeds the number of actions of any sequence of
/// actions that leaves the room clean.
pub proof fn lemma_estimate_admissible(p: Seq<RoomView>, start: RoomView)
    requires
        solves::<Room>(p, start),
    ensures
        estimate_of(start) <= p.len() - 1,
{
    lemma_path_potential(p);
    lemma_dirt_zero(p.last().squares);
    lemma_dirt_bounds(start.squares);
    if 0 <= start.cleaner < start.squares.len() && start.squares[start.cleaner] is Dirty {
        lemma_dirt_zero(start.squares);
    }
}

/// The estimate is zero exactly in a clean room.
pub proof fn lemma_estimate_zero_iff_clean(v: RoomView)
    ensures
        estimate_of(v) == 0 <==> all_clean(v),
{
    lemma_dirt_zero(v.squares);
    lemma_dirt_bounds(v.squares);
}

/// The room with the cleaner moved to square `c`.
pub open spec fn placed(v: RoomView, c: int) -> RoomView {
    RoomView { cleaner: c, width: v.width, squares: v.squares }
}

/// The squares next to `pos` in each direction that the room has.
proof fn lemma_dests_has(pos: int, width: int, size: int)
    ensures
        pos >= width ==> dests_spec(pos, width, size).contains((pos - width) as usize),
        size - pos > width ==> dests_spec(pos, width, size).contains((pos + width) as usize),
        pos % width != 0 ==> dests_spec(pos, width, size).contains((pos - 1) as usize),
        pos % width != width - 1 ==> dests_spec(pos, width, size).contains((pos + 1) as usize),
{
    let up: Seq<usize> = if pos >= width { seq![(pos - width) as usize] } else { seq![] };
    let down: Seq<usize> = if size - pos > width { seq![(pos + width) as usize] } else { seq![] };
    let left: Seq<usize> = if pos % width != 0 { seq![(pos - 1) as usize] } else { seq![] };
    let right: Seq<usize> = if pos % width != width - 1 { seq![(pos + 1) as usize] } else { seq![] };
    let d = dests_spec(pos, width, size);
    assert(d == up + down + left + right);
    if pos >= width {
        assert(d[0] == (pos - width) as usize);
    }
    if size - pos > width {
        assert(d[up.len() as int] == (pos + width) as usize);
    }
    if pos % width != 0 {
        assert(d[(up.len() + down.len()) as int] == (pos - 1) as usize);
    }
    if pos % width != width - 1 {
        assert(d[(up.len() + down.len() + left.len()) as int] == (pos + 1) as usize);
    }
}

/// Moving to a square next to the cleaner is one action.
proof fn lemma_move(v: RoomView, d: usize)
    requires
        dests_spec(v.cleaner, v.width, v.squares.len() as int).contains(d),
    ensures
        room_moves(v).contains(placed(v, d as int)),
{
    let ds = dests_spec(v.cleaner, v.width, v.squares.len() as int);
    let j = choose|j: int| 0 <= j < ds.len() && ds[j] == d;
    assert(room_moves(v)[1 + j] == placed(v, d as int));
}

/// From any square the cleaner can walk to the first one: up, then left.
proof fn lemma_walk_home(a: RoomView, cur: RoomView)
    requires
        reachable::<Room>(a, cur),
        is_room(cur),
    ensures
        reachable::<Room>(a, placed(cur, 0)),
    decreases cur.cleaner,
{
    let c = cur.cleaner;
    let w = cur.width;
    lemma_dests_has(c, w, cur.squares.len() as int);
    if c >= w {
        lemma_move(cur, (c - w) as usize);
        let next = placed(cur, c - w);
        lemma_reach_step::<Room>(a, cur, next);
        lemma_walk_home(a, next);
        assert(placed(next, 0) == placed(cur, 0));
    } else if c > 0 {
        lemma_small_mod(c as nat, w as nat);
        lemma_move(cur, (c - 1) as usize);
        let next = placed(cur, c - 1);
        lemma_reach_step::<Room>(a, cur, next);
        lemma_walk_home(a, next);
        assert(placed(next, 0) == placed(cur, 0));
    } else {
        assert(placed(cur, 0) == cur);
    }
}

/// Along the first row the cleaner can walk right to column `col`.
proof fn lemma_walk_right(a: RoomView, cur: RoomView, col: int)
    requires
        reachable::<Room>(a, cur),
        is_room(cur),
        cur.cleaner <= col < cur.width,
    ensures
        reachable::<Room>(a, placed(cur, col)),
    decreases col - cur.cleaner,
{
    let c = cur.cleaner;
    let w = cur.width;
    if c < col {
        lemma_dests_has(c, w, cur.squares.len() as int);
        lemma_small_mod(c as nat, w as nat);
        lemma_move(cur, (c + 1) as usize);
        let next = placed(cur, c + 1);
        assert(c + 1 < cur.squares.len()) by {
            lemma_fundamental_div_mod(cur.squares.len() as int, w);
            assert(cur.squares.len() as int / w >= 1) by {
                if cur.squares.len() as int / w <= 0 {
                    assert(w * (cur.squares.len() as int / w) <= 0) by (nonlinear_arith)
                        requires
                            w > 0,
                            cur.squares.len() as int / w <= 0,
                    ;
                }
            }
            assert(w * (cur.squares.len() as int / w) >= w) by (nonlinear_arith)
                requires
                    w > 0,
                    cur.squares.len() as int / w >= 1,
            ;
        }
        lemma_reach_step::<Room>(a, cur, next);
        lemma_walk_right(a, next, col);
        assert(placed(next, col) == placed(cur, col));
    } else {
        assert(placed(cur, col) == cur);
    }
}

/// Down its column the cleaner can walk to square `d`, `j` rows below.
proof fn lemma_walk_down(a: RoomView, cur: RoomView, d: int, j: int)
    requires
        reachable::<Room>(a, cur),
        is_room(cur),
        d < cur.squares.len(),
        j >= 0,
        cur.cleaner == d - j * cur.width,
    ensures
        reachable::<Room>(a, placed(cur, d)),
    decreases j,
{
    let c = cur.cleaner;
    let w = cur.width;
    if j > 0 {
        assert(c + w == d - (j - 1) * w && (j - 1) * w >= 0) by (nonlinear_arith)
            requires
                c == d - j * w,
                j > 0,
                w > 0,
        ;
        lemma_dests_has(c, w, cur.squares.len() as int);
        lemma_move(cur, (c + w) as usize);
        let next = placed(cur, c + w);
        lemma_reach_step::<Room>(a, cur, next);
        lemma_walk_down(a, next, d, j - 1);
        assert(placed(next, d) == placed(cur, d));
    } else {
        assert(j * w == 0) by (nonlinear_arith)
            requires
                j == 0,
        ;
        assert(placed(cur, d) == cur);
    }
}

/// The cleaner can walk from any square to any other.
proof fn lemma_walk_to(a: RoomView, cur: RoomView, d: int)
    requires
        reachable::<Room>(a, cur),
        is_room(cur),
        0 <= d < cur.squares.len(),
    ensures
        reachable::<Room>(a, placed(cur, d)),
{
    let w = cur.width;
    lemma_walk_home(a, cur);
    let home = placed(cur, 0);
    lemma_mod_pos_bound(d, w);
    lemma_walk_right(a, home, d % w);
    let top = placed(cur, d % w);
    lemma_fundamental_div_mod(d, w);
    assert(d / w >= 0) by {
        if d / w < 0 {
            assert(w * (d / w) <= -w) by (nonlinear_arith)
                requires
                    w > 0,
                    d / w < 0,
            ;
        }
    }
    assert(d % w == d - (d / w) * w) by (nonlinear_arith)
        requires
            d == w * (d / w) + d % w,
    ;
    lemma_walk_down(a, top, d, d / w);
    assert(placed(top, d) == placed(cur, d));
}

/// Walking to dirty square `d` and sucking reaches a room with less dirt.
proof fn lemma_suck_at(a: RoomView, cur: RoomView, d: int) -> (next: RoomView)
    requires
        reachable::<Room>(a, cur),
        is_room(cur),
        0 <= d < cur.squares.len(),
        cur.squares[d] is Dirty,
    ensures
        reachable::<Room>(a, next),
        is_room(next),
        dirt(next.squares) < dirt(cur.squares),
{
    lemma_walk_to(a, cur, d);
    let there = placed(cur, d);
    assert(room_moves(there)[0] == sucked(there));
    lemma_reach_step::<Room>(a, there, sucked(there));
    lemma_dirt_update(cur.squares, d);
    sucked(there)
}

/// From a reachable room a clean room is reachable: walk to a dirty square
/// and suck, until none is left.
proof fn lemma_clean_from(a: RoomView, cur: RoomView)
    requires
        reachable::<Room>(a, cur),
        is_room(cur),
    ensures
        exists|t: RoomView| #[trigger] reachable::<Room>(a, t) && all_clean(t),
    decreases dirt(cur.squares),
{
    if all_clean(cur) {
        assert(reachable::<Room>(a, cur) && all_clean(cur));
    } else {
        let d = choose|i: int| 0 <= i < cur.squares.len() && !(#[trigger] cur.squares[i] is Clean);
        let next = lemma_suck_at(a, cur, d);
        lemma_dirt_bounds(next.squares);
        lemma_clean_from(a, next);
    }
}

/// Every room can be cleaned.
proof fn lemma_room_solvable(v: RoomView)
    requires
        is_room(v),
    ensures
        exists|t: RoomView| #[trigger] reachable::<Room>(v, t) && Room::goal_spec(t),
{
    lemma_reach_self::<Room>(v);
    lemma_clean_from(v, v);
}

impl Clone for Room {
    /// A room that looks like this one.
    fn clone(&self) -> (r: Room)
        ensures
            r@ == self@,
    {
        self.duplicate()
    }
}

impl Searchable for Room {
    open spec fn goal_spec(v: RoomView) -> bool {
        all_clean(v)
    }

    open spec fn estimate_spec(v: RoomView) -> int {
        estimate_of(v)
    }

    open spec fn moves(v: RoomView) -> Seq<RoomView> {
        room_moves(v)
    }

    fn is_goal(&self) -> (r: bool) {
        let mut i: usize = 0;
        while i < self.squares.len()
            invariant
                i <= self.squares@.len(),
                forall|k: int| 0 <= k < i ==> #[trigger] self.squares@[k] is Clean,
            decreases self.squares@.len() - i,
        {
            match self.squares[i] {
                Cleanliness::Dirty => {
                    return false;
                },
                Cleanliness::Clean => {},
            }
            i += 1;
        }
        true
    }

    fn next_states(&self) -> (r: Vec<Room>) {
        proof {
            use_type_invariant(self);
            lemma_dests_inside(self.cleaner as int, self.width as int, self.squares@.len() as int);
        }
        let mut r: Vec<Room> = Vec::new();
        r.push(self.clean());
        let dests = possible_dests(self.cleaner, self.width, self.squares.len());
        let mut k: usize = 0;
        while k < dests.len()
            invariant
                k <= dests@.len(),
                is_room(self@),
                dests@ == dests_spec(self.cleaner as int, self.width as int, self.squares@.len() as int),
                forall|m: int| 0 <= m < dests@.len() ==> #[trigger] dests@[m] < self.squares@.len(),
                views(r@) == room_moves(self@).subrange(0, k + 1),
            decreases dests.len() - k,
        {
            let room = Room { cleaner: dests[k], width: self.width, squares: copy_squares(&self.squares) };
            let ghost before = r@;
            r.push(room);
            proof {
                assert(views(r@) =~= views(before).push(room@));
                assert(room_moves(self@).subrange(0, k + 2) =~= room_moves(self@).subrange(0, k + 1).push(room@));
            }
            k += 1;
        }
        assert(room_moves(self@).subrange(0, k + 1) =~= room_moves(self@));
        r
    }

    fn weighted_next(&self) -> (r: Vec<(Room, usize)>) {
        let next = self.next_states();
        let mut r: Vec<(Room, usize)> = Vec::new();
        let mut k: usize = 0;
        while k < next.len()
            invariant
                k <= next@.len(),
                views(next@) == Self::moves(self@),
                r@.len() == k,
                forall|i: int| 0 <= i < k ==> (#[trigger] r@[i]).0@ == Self::moves(self@)[i] && r@[i].1 == 1,
            decreases next.len() - k,
        {
            r.push((next[k].clone(), 1));
            proof {
                assert(views(next@)[k as int] == next@[k as int]@);
            }
            k += 1;
        }
        r
    }

    fn estimate(&self) -> (r: usize)
        ensures
            r == estimate_of(self@),
    {
        self.heuristic()
    }
}

impl StateKey for Room {}

} // verus!

use vstd::prelude::*;
use super::search::{bfs_search, is_path, reachable, views, Searchable, StateKey};
use super::utils::diff;

verus! {

/// The number of queens, and of rows and columns.
pub const N_QUEENS: usize = 8;

/// The row of the queen in a column.
pub type Queen = usize;

/// The queens in columns `x0` and `x1` attack each other: same row or same
/// diagonal.
pub open spec fn attack(c: Seq<Queen>, x0: int, x1: int) -> bool {
    c[x0] == c[x1] || (if x1 >= x0 { x1 - x0 } else { x0 - x1 }) == (if c[x1] >= c[x0] { c[x1] - c[x0] } else { c[x0] - c[x1] })
}

/// The number of columns `x1` with `x0 < x1 < upto` whose queen attacks
/// that of column `x0`.
pub open spec fn attacks_from(c: Seq<Queen>, x0: int, upto: int) -> int
    decreases upto - x0,
{
    if upto <= x0 + 1 {
        0
    } else {
        attacks_from(c, x0, upto - 1) + if attack(c, x0, upto - 1) { 1int } else { 0int }
    }
}

/// The number of attacking pairs whose left queen is in one of the first
/// `upto` columns.
pub open spec fn attacks(c: Seq<Queen>, upto: int) -> int
    decreases upto,
{
    if upto <= 0 {
        0
    } else {
        attacks(c, upto - 1) + attacks_from(c, upto - 1, 8)
    }
}

/// A pair that attacks is counted among the pairs from column `x0`.
proof fn lemma_attacks_from_counts(c: Seq<Queen>, x0: int, x1: int, upto: int)
    requires
        x0 < x1 < upto,
        attack(c, x0, x1),
    ensures
        attacks_from(c, x0, upto) >= 1,
    decreases upto - x0,
{
    lemma_attacks_from_bound(c, x0, upto - 1);
    if x1 < upto - 1 {
        lemma_attacks_from_counts(c, x0, x1, upto - 1);
    }
}

/// The pairs from column `x0` are counted among all pairs.
proof fn lemma_attacks_counts(c: Seq<Queen>, x0: int, upto: int)
    requires
        0 <= x0 < upto,
    ensures
        attacks(c, upto) >= attacks_from(c, x0, 8),
    decreases upto,
{
    lemma_attacks_bound(c, upto - 1);
    if x0 < upto - 1 {
        lemma_attacks_counts(c, x0, upto - 1);
        lemma_attacks_from_bound(c, upto - 1, 8);
    }
}

/// Two queens in the same row or on the same diagonal attack each other:
/// the board counts at least one attacking pair, so it is no goal.
pub proof fn law_shared_line_attacks(c: Seq<Queen>, x0: int, x1: int)
    requires
        0 <= x0 < x1 < 8,
        c[x0] == c[x1] || x1 - x0 == c[x1] - c[x0] || x1 - x0 == c[x0] - c[x1],
    ensures
        attacks(c, 8) >= 1,
{
    lemma_attacks_from_counts(c, x0, x1, 8);
    lemma_attacks_counts(c, x0, 8);
}

/// A board counts no attacking pair only when no two queens share a row or
/// a diagonal.
pub proof fn law_no_attacks_no_shared_line(c: Seq<Queen>)
    requires
        attacks(c, 8) == 0,
    ensures
        forall|x0: int, x1: int| 0 <= x0 < x1 < 8 ==> c[x0] != c[x1] && x1 - x0 != c[x1] - c[x0] && x1 - x0 != c[x0] - c[x1],
{
    assert forall|x0: int, x1: int| 0 <= x0 < x1 < 8 implies c[x0] != c[x1] && x1 - x0 != c[x1] - c[x0] && x1 - x0 != c[x0]
        - c[x1] by {
        if c[x0] == c[x1] || x1 - x0 == c[x1] - c[x0] || x1 - x0 == c[x0] - c[x1] {
            law_shared_line_attacks(c, x0, x1);
        }
    }
}

/// Without attacking pairs from column `x0`, none is counted.
proof fn lemma_attacks_from_none(c: Seq<Queen>, x0: int, upto: int)
    requires
        forall|x1: int| x0 < x1 < upto ==> !#[trigger] attack(c, x0, x1),
    ensures
        attacks_from(c, x0, upto) == 0,
    decreases upto - x0,
{
    if upto > x0 + 1 {
        lemma_attacks_from_none(c, x0, upto - 1);
    }
}

/// A board whose queens share no row and no diagonal counts no attacking
/// pair: it is a goal.
pub proof fn law_apart_no_attacks(c: Seq<Queen>)
    requires
        forall|x0: int, x1: int| 0 <= x0 < x1 < 8 ==> c[x0] != c[x1] && x1 - x0 != c[x1] - c[x0] && x1 - x0 != c[x0] - c[x1],
    ensures
        attacks(c, 8) == 0,
{
    assert forall|upto: int| 0 <= upto <= 8 implies #[trigger] attacks(c, upto) == 0 by {
        lemma_attacks_prefix_none(c, upto);
    }
}

/// With no attacking pair, the pairs from the first `upto` columns count
/// none.
proof fn lemma_attacks_prefix_none(c: Seq<Queen>, upto: int)
    requires
        0 <= upto <= 8,
        forall|x0: int, x1: int| 0 <= x0 < x1 < 8 ==> c[x0] != c[x1] && x1 - x0 != c[x1] - c[x0] && x1 - x0 != c[x0] - c[x1],
    ensures
        attacks(c, upto) == 0,
    decreases upto,
{
    if upto > 0 {
        lemma_attacks_prefix_none(c, upto - 1);
        let x0 = upto - 1;
        assert forall|x1: int| x0 < x1 < 8 implies !#[trigger] attack(c, x0, x1) by {
            assert(c[x0] != c[x1] && x1 - x0 != c[x1] - c[x0] && x1 - x0 != c[x0] - c[x1]);
        }
        lemma_attacks_from_none(c, x0, 8);
    }
}

proof fn lemma_attacks_from_bound(c: Seq<Queen>, x0: int, upto: int)
    ensures
        0 <= attacks_from(c, x0, upto) <= if upto > x0 { upto - x0 } else { 0 },
    decreases upto - x0,
{
    if upto > x0 + 1 {
        lemma_attacks_from_bound(c, x0, upto - 1);
    }
}

proof fn lemma_attacks_bound(c: Seq<Queen>, upto: int)
    ensures
        0 <= attacks(c, upto) <= 8 * (if upto > 0 { upto } else { 0 }),
    decreases upto,
{
    if upto > 0 {
        lemma_attacks_bound(c, upto - 1);
        lemma_attacks_from_bound(c, upto - 1, 8);
    }
}

/// The boards one move away, among the first `n` candidate moves, where
/// candidate `i * 8 + j` puts the queen of column `i` on row `j`.
pub open spec fn moves_upto(q: Seq<Queen>, n: int) -> Seq<Seq<Queen>>
    decreases n,
{
    if n <= 0 {
        Seq::empty()
    } else {
        let i = (n - 1) / 8;
        let j = (n - 1) % 8;
        if q[i] != j {
            moves_upto(q, n - 1).push(q.update(i, j as Queen))
        } else {
            moves_upto(q, n - 1)
        }
    }
}

/// Eight queens, one per column: `columns[x]` is the row of the queen in
/// column `x`.
#[derive(Clone, Copy, PartialEq, Eq, Hash, Debug)]
pub struct Queens {
    columns: [Queen; 8],
}

impl View for Queens {
    type V = Seq<Queen>;

    closed spec fn view(&self) -> Seq<Queen> {
        self.columns@
    }
}

impl Queens {
    #[verifier::type_invariant]
    spec fn on_board(self) -> bool {
        forall|x: int| 0 <= x < 8 ==> #[trigger] self.columns@[x] < 8
    }

    /// The queens on the given rows, which must all be on the board.
    pub fn new(columns: [Queen; 8]) -> (r: Self)
        requires
            forall|x: int| 0 <= x < 8 ==> #[trigger] columns@[x] < 8,
        ensures
            r@ == columns@,
    {
        Queens { columns }
    }

    /// The number of unordered pairs of queens attacking each other.
    pub fn heuristic(&self) -> (r: usize)
        ensures
            r == attacks(self@, 8),
    {
        let mut total: usize = 0;
        let mut x0: usize = 0;
        while x0 < N_QUEENS
            invariant
                x0 <= 8,
                total == attacks(self@, x0 as int),
                total <= 8 * x0,
            decreases 8 - x0,
        {
            let mut x1: usize = x0 + 1;
            let mut count: usize = 0;
            proof {
                lemma_attacks_from_bound(self@, x0 as int, x0 + 1);
            }
            while x1 < N_QUEENS
                invariant
                    x0 < 8,
                    x0 < x1 <= 8,
                    count == attacks_from(self@, x0 as int, x1 as int),
                    count <= x1 - x0,
                decreases 8 - x1,
            {
                let (y0, y1) = (self.columns[x0], self.columns[x1]);
                if y0 == y1 || diff(x0, x1) == diff(y0, y1) {
                    count += 1;
                }
                proof {
                    lemma_attacks_from_bound(self@, x0 as int, x1 + 1);
                }
                x1 += 1;
            }
            proof {
                lemma_attacks_from_bound(self@, x0 as int, 8);
            }
            total += count;
            x0 += 1;
        }
        total
    }

    /// The row of the queen in column `x`.
    pub fn row(&self, x: usize) -> (r: Queen)
        requires
            x < 8,
        ensures
            r == self@[x as int],
    {
        self.columns[x]
    }
}

impl Searchable for Queens {
    open spec fn goal_spec(v: Seq<Queen>) -> bool {
        attacks(v, 8) == 0
    }

    open spec fn estimate_spec(v: Seq<Queen>) -> int {
        attacks(v, 8)
    }

    open spec fn moves(v: Seq<Queen>) -> Seq<Seq<Queen>> {
        moves_upto(v, 64)
    }

    /// Whether no two queens attack each other.
    fn is_goal(&self) -> (r: bool) {
        self.heuristic() == 0
    }

    /// The boards after moving one queen to another row of its column, column
    /// by column and row by row.
    fn next_states(&self) -> (r: Vec<Queens>) {
        proof {
            use_type_invariant(self);
        }
        let mut succs: Vec<Queens> = Vec::new();
        let mut i: usize = 0;
        while i < N_QUEENS
            invariant
                i <= 8,
                forall|x: int| 0 <= x < 8 ==> #[trigger] self.columns@[x] < 8,
                views(succs@) == moves_upto(self@, 8 * i),
            decreases 8 - i,
        {
            let mut j: usize = 0;
            while j < N_QUEENS
                invariant
                    i < 8,
                    j <= 8,
                    forall|x: int| 0 <= x < 8 ==> #[trigger] self.columns@[x] < 8,
                    views(succs@) == moves_upto(self@, 8 * i + j),
                decreases 8 - j,
            {
                let n = 8 * i + j;
                assert((n + 1 - 1) / 8 == i as int && (n + 1 - 1) % 8 == j as int);
                if self.columns[i] != j {
                    let mut succ = self.columns;
                    succ[i] = j;
                    let next = Queens { columns: succ };
                    let ghost before = succs@;
                    succs.push(next);
                    proof {
                        assert(next@ =~= self@.update(i as int, j));
                        assert(views(succs@) =~= views(before).push(next@));
                    }
                }
                j += 1;
            }
            i += 1;
        }
        succs
    }

    fn weighted_next(&self) -> (r: Vec<(Queens, usize)>) {
        let next = self.next_states();
        let mut r: Vec<(Queens, usize)> = Vec::new();
        let mut k: usize = 0;
        while k < next.len()
            invariant
                k <= next@.len(),
                views(next@) == Self::moves(self@),
                r@.len() == k,
                forall|i: int| 0 <= i < k ==> (#[trigger] r@[i]).0@ == Self::moves(self@)[i] && r@[i].1 == 1,
            decreases next.len() - k,
        {
            r.push((next[k], 1));
            proof {
                assert(views(next@)[k as int] == next@[k as int]@);
            }
            k += 1;
        }
        r
    }

    fn estimate(&self) -> (r: usize)
        ensures
            r == attacks(self@, 8),
    {
        self.heuristic()
    }
}

/// The board with queen `i` moved to row `j`, other than its own, is among
/// the candidate moves up to any `n` past its number.
proof fn lemma_move_listed(q: Seq<Queen>, i: int, j: int, n: int)
    requires
        q.len() == 8,
        0 <= i < 8,
        0 <= j < 8,
        q[i] != j,
        i * 8 + j < n <= 64,
    ensures
        moves_upto(q, n).contains(q.update(i, j as Queen)),
    decreases n,
{
    let target = q.update(i, j as Queen);
    let m = n - 1;
    if m == i * 8 + j {
        assert(m / 8 == i && m % 8 == j);
        let s = moves_upto(q, n);
        assert(s[s.len() - 1] == target);
    } else {
        lemma_move_listed(q, i, j, n - 1);
        let prev = moves_upto(q, n - 1);
        let k = choose|k: int| 0 <= k < prev.len() && prev[k] == target;
        let s = moves_upto(q, n);
        assert(s[k] == target);
    }
}

/// Reachability grows by one move at a time.
proof fn lemma_reach_step<N: Searchable>(a: N::V, b: N::V, c: N::V)
    requires
        reachable::<N>(a, b),
        N::moves(b).contains(c),
    ensures
        reachable::<N>(a, c),
{
    let p = choose|p: Seq<N::V>| #[trigger] is_path::<N>(p) && p.len() > 0 && p[0] == a && p.last() == b;
    let q = p.push(c);
    assert forall|i: int| 0 <= i < q.len() - 1 implies N::moves(#[trigger] q[i]).contains(q[i + 1]) by {
        if i < p.len() - 1 {
            assert(q[i] == p[i] && q[i + 1] == p[i + 1]);
        } else {
            assert(q[i] == b && q[i + 1] == c);
        }
    }
    assert(is_path::<N>(q));
}

/// A solution of the eight queens problem: rows 0, 4, 7, 5, 2, 6, 1, 3.
pub open spec fn solution() -> Seq<Queen> {
    seq![0, 4, 7, 5, 2, 6, 1, 3]
}

/// The board with the first `k` queens moved to the rows of the solution.
pub open spec fn towards(q: Seq<Queen>, k: int) -> Seq<Queen>
    decreases k,
{
    if k <= 0 {
        q
    } else {
        towards(q, k - 1).update(k - 1, solution()[k - 1])
    }
}

proof fn lemma_towards_view(q: Seq<Queen>, k: int)
    requires
        q.len() == 8,
        0 <= k <= 8,
    ensures
        towards(q, k).len() == 8,
        forall|x: int| 0 <= x < 8 ==> #[trigger] towards(q, k)[x] == if x < k { solution()[x] } else { q[x] },
    decreases k,
{
    if k > 0 {
        lemma_towards_view(q, k - 1);
    }
}

/// From any board, moving the queens one by one to the rows of the solution
/// reaches it.
proof fn lemma_solution_reachable(q: Seq<Queen>, k: int)
    requires
        q.len() == 8,
        0 <= k <= 8,
    ensures
        reachable::<Queens>(q, towards(q, k)),
    decreases k,
{
    if k == 0 {
        let p = seq![q];
        assert(is_path::<Queens>(p));
    } else {
        lemma_solution_reachable(q, k - 1);
        let prev = towards(q, k - 1);
        let next = towards(q, k);
        lemma_towards_view(q, k - 1);
        lemma_towards_view(q, k);
        if prev[k - 1] == solution()[k - 1] {
            assert(prev =~= next);
        } else {
            lemma_move_listed(prev, k - 1, solution()[k - 1] as int, 64);
            lemma_reach_step::<Queens>(q, prev, next);
        }
    }
}

/// No two queens of the solution attack each other.
proof fn lemma_solution_safe()
    ensures
        attacks(solution(), 8) == 0,
{
    let s = solution();
    assert(s[0] == 0 && s[1] == 4 && s[2] == 7 && s[3] == 5 && s[4] == 2 && s[5] == 6 && s[6] == 1 && s[7] == 3);
    reveal_with_fuel(attacks_from, 9);
    reveal_with_fuel(attacks, 9);
    assert(attacks_from(s, 0, 8) == 0);
    assert(attacks_from(s, 1, 8) == 0);
    assert(attacks_from(s, 2, 8) == 0);
    assert(attacks_from(s, 3, 8) == 0);
    assert(attacks_from(s, 4, 8) == 0);
    assert(attacks_from(s, 5, 8) == 0);
    assert(attacks_from(s, 6, 8) == 0);
    assert(attacks_from(s, 7, 8) == 0);
}

impl Queens {
    /// The boards one move away: each queen moved to each other row of its
    /// column, column by column and row by row.
    pub fn successors(&self) -> (r: Vec<Queens>)
        ensures
            views(r@) == moves_upto(self@, 64),
    {
        self.next_states()
    }

    /// Whether no two queens attack each other.
    pub fn is_goal(&self) -> (r: bool)
        ensures
            r == (attacks(self@, 8) == 0),
    {
        <Self as Searchable>::is_goal(self)
    }

    /// A board without attacks, found by breadth-first search from this
    /// one: the last board of the shortest sequence of moves it finds.
    pub fn solve(&self) -> (r: Self)
        ensures
            attacks(r@, 8) == 0,
            reachable::<Queens>(self@, r@),
    {
        match bfs_search(self) {
            Some(path) => {
                let n = path.len();
                let r = path[n - 1];
                proof {
                    let p = views(path@);
                    assert(p.last() == r@);
                    assert(reachable::<Queens>(self@, r@)) by {
                        assert(is_path::<Queens>(p) && p.len() > 0 && p[0] == self@ && p.last() == r@);
                    }
                }
                r
            },
            None => {
                proof {
                    lemma_solution_reachable(self@, 8);
                    lemma_towards_view(self@, 8);
                    assert(towards(self@, 8) =~= solution());
                    lemma_solution_safe();
                }
                *self
            },
        }
    }
}

impl StateKey for Queens {}

} // verus!

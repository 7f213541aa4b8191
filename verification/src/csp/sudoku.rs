//! Sudoku as a constraint satisfaction problem: a variable per cell, and a
//! difference constraint between any two cells of a row, a column or a box.

use vstd::prelude::*;
use super::{Var, Diff};
use super::graph::{Csp, graph_edges, graph_order, csp_new, add_node, update_edge};

verus! {

/// The boxes of a square grid of side `side`, a square number: each box is
/// `root` cells on a side, and the boxes are visited row by row.
pub struct Zones {
    side: usize,
    top: usize,
    left: usize,
}

/// `x` is a cell of the box whose top left cell is at row `top`, column
/// `left` of a grid of side `side` made of boxes of side `root`.
pub open spec fn in_zone(x: int, side: int, root: int, top: int, left: int) -> bool {
    exists|dr: int, dc: int| 0 <= dr < root && 0 <= dc < root && x == #[trigger] cell(side, top + dr, left + dc)
}

/// The index of the cell at `row`, `col` of a grid of side `side`.
pub open spec fn cell(side: int, row: int, col: int) -> int {
    row * side + col
}

/// The cells of the box, in increasing order.
pub open spec fn is_zone(z: Seq<usize>, side: int, root: int, top: int, left: int) -> bool {
    &&& forall|i: int, j: int| 0 <= i < j < z.len() ==> z[i] < z[j]
    &&& forall|x: int| #[trigger] in_zone(x, side, root, top, left) <==> listed(z, x)
}

/// `x` is one of the cells of `z`.
pub open spec fn listed(z: Seq<usize>, x: int) -> bool {
    exists|i: int| 0 <= i < z.len() && z[i] == x
}

/// The square root of a square number.
pub open spec fn root_of(n: nat) -> nat {
    choose|r: nat| #[trigger] square(r) == n
}

/// `r` squared.
pub open spec fn square(r: nat) -> nat {
    r * r
}

/// `n` is a square number.
pub open spec fn is_square(n: nat) -> bool {
    exists|r: nat| #[trigger] square(r) == n
}

impl Zones {
    /// The side of the grid.
    pub closed spec fn side(&self) -> nat {
        self.side as nat
    }

    /// The row of the top of the next box.
    pub closed spec fn top(&self) -> nat {
        self.top as nat
    }

    /// The column of the left of the next box.
    pub closed spec fn left(&self) -> nat {
        self.left as nat
    }

    /// The boxes of a grid of side `side`, starting at the top left one.
    pub fn new(side: usize) -> (r: Self)
        requires
            is_square(side as nat),
            side * side <= usize::MAX,
        ensures
            r.side() == side,
            r.top() == 0,
            r.left() == 0,
            r.at_box(0, 0),
    {
        proof {
            let root = root_of(side as nat);
            assert(square(root) == side);
            if root == 0 {
                assert(side == 0);
            }
            assert((Zones { side, top: 0, left: 0 }).at_box(0, 0));
        }
        Zones { side, top: 0, left: 0 }
    }

    /// The side of a box: the square root of the side of the grid.
    fn sqrt(&self) -> (r: usize)
        requires
            is_square(self.side as nat),
        ensures
            r * r == self.side,
    {
        let ghost root = choose|root: nat| #[trigger] square(root) == self.side;
        let mut r: usize = 0;
        proof {
            assert(root <= self.side) by (nonlinear_arith)
                requires
                    root * root == self.side,
            ;
            assert(root < 0x1_0000_0000) by (nonlinear_arith)
                requires
                    root * root == self.side,
                    self.side < 0x1_0000_0000_0000_0000,
            ;
        }
        while (r as u128 + 1) * (r as u128 + 1) <= self.side as u128
            invariant
                r * r <= self.side,
                root * root == self.side,
                r <= root,
                root <= self.side,
                root < 0x1_0000_0000,
                (r + 1) * (r + 1) <= 0x1_0000_0000_0000_0000int,
            decreases root - r,
        {
            proof {
                assert((r + 1) * (r + 1) <= root * root);
                if r + 1 > root {
                    assert((r + 1) * (r + 1) > root * root) by (nonlinear_arith)
                        requires
                            r + 1 > root,
                            root >= 0,
                    ;
                }
            }
            r += 1;
            proof {
                assert((r + 1) * (r + 1) <= 0x1_0000_0000_0000_0000int) by (nonlinear_arith)
                    requires
                        r <= root,
                        root < 0x1_0000_0000,
                ;
            }
        }
        proof {
            assert((r + 1) * (r + 1) > self.side);
            if r < root {
                assert((r + 1) * (r + 1) <= root * root) by (nonlinear_arith)
                    requires
                        r + 1 <= root,
                ;
            }
        }
        r
    }
}

/// A square number has one square root.
pub proof fn lemma_root(n: nat, r: nat)
    requires
        square(r) == n,
    ensures
        root_of(n) == r,
{
    let q = root_of(n);
    assert(square(q) == n);
    if q < r {
        assert(q * q < r * r) by (nonlinear_arith)
            requires
                q < r,
        ;
    } else if q > r {
        assert(q * q > r * r) by (nonlinear_arith)
            requires
                q > r,
        ;
    }
}

impl Zones {
    /// The next box starts at a multiple of the box side, within the grid,
    /// and the grid's cells have indices that fit in `usize`.
    #[verifier::type_invariant]
    spec fn wf(self) -> bool {
        &&& is_square(self.side as nat)
        &&& self.side * self.side <= usize::MAX
        &&& exists|bt: nat, bl: nat| #[trigger] self.at_box(bt, bl)
    }

    /// The next box is the one at box row `bt`, box column `bl`; box row
    /// `root` is the end.
    pub open spec fn at_box(self, bt: nat, bl: nat) -> bool {
        let root = root_of(self.side());
        &&& self.top() == bt * root
        &&& self.left() == bl * root
        &&& bt <= root
        &&& bl < root || (bt == root && bl == 0)
    }

    /// Whether all boxes have been visited.
    fn terminal(&self) -> (r: bool)
        ensures
            r == (self.top() == self.side()),
    {
        self.top == self.side
    }
}

impl Zones {
    /// The box of the next box row and column is within the grid: its rows
    /// and columns are below the side.
    proof fn lemma_next_box(self, bt: nat, bl: nat)
        requires
            self.at_box(bt, bl),
            self.top < self.side,
            is_square(self.side as nat),
        ensures
            bt < root_of(self.side as nat),
            bl < root_of(self.side as nat),
            self.top + root_of(self.side as nat) <= self.side,
            self.left + root_of(self.side as nat) <= self.side,
    {
        let root = root_of(self.side as nat);
        assert(square(root) == self.side);
        if bt >= root {
            assert(bt * root >= root * root) by (nonlinear_arith)
                requires
                    bt >= root,
            ;
        }
        assert((bt + 1) * root <= root * root) by (nonlinear_arith)
            requires
                bt < root,
        ;
        assert((bl + 1) * root <= root * root) by (nonlinear_arith)
            requires
                bl < root,
        ;
        assert((bt + 1) * root == bt * root + root) by (nonlinear_arith);
        assert((bl + 1) * root == bl * root + root) by (nonlinear_arith);
    }

    /// The cells of the next box, row by row.
    fn zone(&self) -> (r: Vec<usize>)
        requires
            self.top() < self.side(),
        ensures
            is_zone(r@, self.side() as int, root_of(self.side()) as int, self.top() as int, self.left() as int),
    {
        proof {
            use_type_invariant(self);
        }
        let ghost side = self.side as int;
        let ghost top = self.top as int;
        let ghost left = self.left as int;
        let s = self.sqrt();
        proof {
            lemma_root(self.side as nat, s as nat);
            let (bt, bl) = choose|bt: nat, bl: nat| #[trigger] self.at_box(bt, bl);
            self.lemma_next_box(bt, bl);
        }
        let mut indices: Vec<usize> = Vec::new();
        let mut r = self.top;
        while r < self.top + s
            invariant
                side == self.side,
                top == self.top,
                left == self.left,
                top <= r <= top + s,
                top + s <= side,
                left + s <= side,
                s * s == side,
                side * side <= usize::MAX,
                forall|i: int, j: int| 0 <= i < j < indices@.len() ==> indices@[i] < indices@[j],
                forall|i: int| 0 <= i < indices@.len() ==> indices@[i] < cell(side, r as int, left),
                forall|x: int| #[trigger] listed(indices@, x) <==> exists|dr: int, dc: int|
                    0 <= dr < r - top && 0 <= dc < s && x == #[trigger] cell(side, top + dr, left + dc),
            decreases top + s - r,
        {
            let mut c = self.left;
            let ghost row_start = indices@.len();
            while c < self.left + s
                invariant
                    side == self.side,
                    top == self.top,
                    left == self.left,
                    top <= r < top + s,
                    left <= c <= left + s,
                    top + s <= side,
                    left + s <= side,
                    s * s == side,
                    side * side <= usize::MAX,
                    forall|i: int, j: int| 0 <= i < j < indices@.len() ==> indices@[i] < indices@[j],
                    forall|i: int| 0 <= i < indices@.len() ==> indices@[i] < cell(side, r as int, c as int),
                    forall|x: int| #[trigger] listed(indices@, x) <==> exists|dr: int, dc: int|
                        ((0 <= dr < r - top && 0 <= dc < s) || (dr == r - top && 0 <= dc < c - left)) && x == #[trigger] cell(side, top + dr, left + dc),
                decreases left + s - c,
            {
                proof {
                    assert(r * side + c < side * side) by (nonlinear_arith)
                        requires
                            r < side,
                            c < side,
                    ;
                }
                let i = r * self.side + c;
                let ghost before = indices@;
                indices.push(i);
                proof {
                    assert forall|x: int| #[trigger] listed(indices@, x) <==> exists|dr: int, dc: int|
                        ((0 <= dr < r - top && 0 <= dc < s) || (dr == r - top && 0 <= dc < c + 1 - left)) && x == #[trigger] cell(side, top + dr, left + dc) by {
                        if listed(indices@, x) {
                            let k = choose|k: int| 0 <= k < indices@.len() && indices@[k] == x;
                            if k < before.len() {
                                assert(before[k] == x);
                                assert(listed(before, x));
                            } else {
                                assert(x == cell(side, top + (r - top), left + (c - left)));
                            }
                        }
                        if exists|dr: int, dc: int| ((0 <= dr < r - top && 0 <= dc < s) || (dr == r - top && 0 <= dc < c + 1 - left)) && x == #[trigger] cell(side, top + dr, left + dc) {
                            let (dr, dc) = choose|dr: int, dc: int| ((0 <= dr < r - top && 0 <= dc < s) || (dr == r - top && 0 <= dc < c + 1 - left)) && x == #[trigger] cell(side, top + dr, left + dc);
                            if dr == r - top && dc == c - left {
                                assert(indices@[before.len() as int] == x);
                            } else {
                                assert(listed(before, x));
                                let k = choose|k: int| 0 <= k < before.len() && before[k] == x;
                                assert(indices@[k] == x);
                            }
                        }
                    }
                }
                c += 1;
            }
            proof {
                assert((r + 1) * side == r * side + side) by (nonlinear_arith);
            }
            r += 1;
        }
        indices
    }

    /// The cells of the next box, and the box after it, in the same box row
    /// or at the start of the next one, becomes the next; `None` once the
    /// boxes are all visited.
    pub fn next(&mut self) -> (r: Option<Vec<usize>>)
        ensures
            final(self).side() == old(self).side(),
            r is Some <==> old(self).top() < old(self).side(),
            r matches Some(z) ==> is_zone(z@, old(self).side() as int, root_of(old(self).side()) as int, old(self).top() as int, old(self).left() as int),
            r is None ==> *final(self) == *old(self),
            forall|bt: nat, bl: nat| #[trigger] old(self).at_box(bt, bl) && bt < root_of(old(self).side()) ==> if bl + 1 < root_of(old(self).side()) {
                final(self).at_box(bt, bl + 1)
            } else {
                final(self).at_box(bt + 1, 0)
            },
    {
        proof {
            use_type_invariant(&*self);
            let root = root_of(self.side as nat);
            let (bt0, bl0) = choose|bt: nat, bl: nat| #[trigger] self.at_box(bt, bl);
            assert(square(root) == self.side);
            assert(bt0 * root <= root * root) by (nonlinear_arith)
                requires
                    bt0 <= root,
            ;
            assert forall|bt: nat, bl: nat| #[trigger] self.at_box(bt, bl) && bt < root implies self.top < self.side by {
                assert(bt * root < root * root) by (nonlinear_arith)
                    requires
                        bt < root,
                ;
            }
        }
        if self.terminal() {
            return None;
        }
        let zone = self.zone();
        let s = self.sqrt();
        let ghost root = root_of(self.side as nat);
        let ghost (bt, bl) = choose|bt: nat, bl: nat| #[trigger] self.at_box(bt, bl);
        proof {
            lemma_root(self.side as nat, s as nat);
            self.lemma_next_box(bt, bl);
        }
        let side = self.side;
        let left = (self.left + s) % side;
        let top = if left == 0 { self.top + s } else { self.top };
        proof {
            assert((bl + 1) * root == bl * root + root) by (nonlinear_arith);
            assert((bt + 1) * root == bt * root + root) by (nonlinear_arith);
            if bl + 1 < root {
                assert((bl + 1) * root < root * root) by (nonlinear_arith)
                    requires
                        bl + 1 < root,
                ;
                vstd::arithmetic::div_mod::lemma_small_mod((self.left + s) as nat, side as nat);
                assert((Zones { side, top, left }).at_box(bt, bl + 1));
            } else {
                assert(bl + 1 == root);
                vstd::arithmetic::div_mod::lemma_mod_self_0(side as int);
                assert((Zones { side, top, left }).at_box(bt + 1, 0));
            }
            assert forall|bt2: nat, bl2: nat| #[trigger] self.at_box(bt2, bl2) implies bt2 == bt && bl2 == bl by {
                if bt2 != bt {
                    assert(bt2 * root != bt * root) by (nonlinear_arith)
                        requires
                            bt2 != bt,
                            root > 0,
                    ;
                }
                if bl2 != bl {
                    assert(bl2 * root != bl * root) by (nonlinear_arith)
                        requires
                            bl2 != bl,
                            root > 0,
                    ;
                }
            }
        }
        *self = Zones { side, top, left };
        Some(zone)
    }
}

/// The side of a sudoku grid.
pub const SIDE: usize = 9;

/// The number of cells.
pub const VARS: usize = 81;

/// `a` and `b` are cells `c1` < `c2` of row `r`, or the cells of rows `c1`
/// < `c2` in column `r`.
pub open spec fn line_pair(a: int, b: int, r: int, c1: int, c2: int) -> bool {
    (a == cell(9, r, c1) && b == cell(9, r, c2)) || (a == cell(9, c1, r) && b == cell(9, c2, r))
}

/// `a` < `b` share a row or a column.
pub open spec fn same_line(a: int, b: int) -> bool {
    exists|r: int, c1: int, c2: int| 0 <= r < 9 && 0 <= c1 < c2 < 9 && #[trigger] line_pair(a, b, r, c1, c2)
}

/// `a` < `b` share one of the nine boxes.
pub open spec fn same_box(a: int, b: int) -> bool {
    exists|bt: int, bl: int| 0 <= bt < 3 && 0 <= bl < 3 && #[trigger] in_zone(a, 9, 3, 3 * bt, 3 * bl) && in_zone(b, 9, 3, 3 * bt, 3 * bl) && a < b
}

/// The constraint graph of sudoku joins `a` to `b` when `a` < `b` share a
/// row, a column or a box.
pub open spec fn sudoku_edge(a: int, b: int) -> bool {
    same_line(a, b) || same_box(a, b)
}

/// The line pairs produced before row `rr`, first cell `cc1` and second
/// cell `cc2` of the loops.
spec fn lines_before(a: int, b: int, rr: int, cc1: int, cc2: int) -> bool {
    exists|r: int, c1: int, c2: int| 0 <= r < 9 && 0 <= c1 < c2 < 9 && (r < rr || (r == rr && (c1 < cc1 || (c1 == cc1 && c2 < cc2)))) && #[trigger] line_pair(a, b, r, c1, c2)
}

/// The box pairs of the boxes before box row `bt0`, box column `bl0`.
spec fn boxes_before(a: int, b: int, bt0: int, bl0: int) -> bool {
    exists|bt: int, bl: int| 0 <= bt < 3 && 0 <= bl < 3 && (bt < bt0 || (bt == bt0 && bl < bl0)) && #[trigger] in_zone(a, 9, 3, 3 * bt, 3 * bl) && in_zone(b, 9, 3, 3 * bt, 3 * bl) && a < b
}

/// The pairs of cells of `z` produced before first index `ii` and second
/// index `jj`.
spec fn zone_before(a: int, b: int, z: Seq<usize>, ii: int, jj: int) -> bool {
    exists|i: int, j: int| 0 <= i < j < z.len() && (i < ii || (i == ii && j < jj)) && a == #[trigger] z[i] && b == #[trigger] z[j]
}

/// Adding the edge from `a` to `b` adds the pair to what the edges hold.
proof fn lemma_add_pair(old_e: Seq<(nat, nat)>, new_e: Seq<(nat, nat)>, a: nat, b: nat)
    requires
        old_e.no_duplicates(),
        old_e.contains((a, b)) ==> new_e == old_e,
        !old_e.contains((a, b)) ==> new_e == old_e.push((a, b)),
    ensures
        new_e.no_duplicates(),
        new_e.len() <= old_e.len() + 1,
        forall|x: nat, y: nat| #[trigger] new_e.contains((x, y)) <==> old_e.contains((x, y)) || (x == a && y == b),
{
    if !old_e.contains((a, b)) {
        assert forall|x: nat, y: nat| #[trigger] new_e.contains((x, y)) <==> old_e.contains((x, y)) || (x == a && y == b) by {
            if new_e.contains((x, y)) {
                let k = choose|k: int| 0 <= k < new_e.len() && new_e[k] == (x, y);
                if k < old_e.len() {
                    assert(old_e[k] == (x, y));
                }
            }
            if old_e.contains((x, y)) {
                let k = choose|k: int| 0 <= k < old_e.len() && old_e[k] == (x, y);
                assert(new_e[k] == (x, y));
            }
            if x == a && y == b {
                assert(new_e[old_e.len() as int] == (x, y));
            }
        }
    }
}

/// One more step of the line loops adds the pairs of that step.
proof fn lemma_lines_step(r: int, ci: int, cj: int)
    requires
        0 <= r < 9,
        0 <= ci < cj < 9,
    ensures
        forall|a: int, b: int| #[trigger] lines_before(a, b, r, ci, cj + 1) <==> lines_before(a, b, r, ci, cj) || line_pair(a, b, r, ci, cj),
{
    assert forall|a: int, b: int| #[trigger] lines_before(a, b, r, ci, cj + 1) <==> lines_before(a, b, r, ci, cj) || line_pair(a, b, r, ci, cj) by {
        if lines_before(a, b, r, ci, cj + 1) {
            let (r2, c1, c2) = choose|r2: int, c1: int, c2: int| 0 <= r2 < 9 && 0 <= c1 < c2 < 9 && (r2 < r || (r2 == r && (c1 < ci || (c1 == ci && c2 < cj + 1)))) && #[trigger] line_pair(a, b, r2, c1, c2);
            if !(r2 == r && c1 == ci && c2 == cj) {
                assert(lines_before(a, b, r, ci, cj));
            }
        }
        if lines_before(a, b, r, ci, cj) {
            let (r2, c1, c2) = choose|r2: int, c1: int, c2: int| 0 <= r2 < 9 && 0 <= c1 < c2 < 9 && (r2 < r || (r2 == r && (c1 < ci || (c1 == ci && c2 < cj)))) && #[trigger] line_pair(a, b, r2, c1, c2);
            assert(lines_before(a, b, r, ci, cj + 1));
        }
        if line_pair(a, b, r, ci, cj) {
            assert(lines_before(a, b, r, ci, cj + 1));
        }
    }
}

/// The loop bounds that follow one another describe the same pairs.
proof fn lemma_lines_bounds()
    ensures
        forall|a: int, b: int, r: int, ci: int| 0 <= ci < 9 ==> (#[trigger] lines_before(a, b, r, ci, ci + 1) <==> lines_before(a, b, r, ci, 0)),
        forall|a: int, b: int, r: int, ci: int| (#[trigger] lines_before(a, b, r, ci, 9) <==> lines_before(a, b, r, ci + 1, 0)),
        forall|a: int, b: int, r: int| (#[trigger] lines_before(a, b, r, 9, 0) <==> lines_before(a, b, r + 1, 0, 0)),
        forall|a: int, b: int| (#[trigger] lines_before(a, b, 9, 0, 0) <==> same_line(a, b)),
        forall|a: int, b: int| !#[trigger] lines_before(a, b, 0, 0, 0),
{
    assert forall|a: int, b: int, r: int, ci: int| 0 <= ci < 9 implies (#[trigger] lines_before(a, b, r, ci, ci + 1) <==> lines_before(a, b, r, ci, 0)) by {
        if lines_before(a, b, r, ci, ci + 1) {
            let (r2, c1, c2) = choose|r2: int, c1: int, c2: int| 0 <= r2 < 9 && 0 <= c1 < c2 < 9 && (r2 < r || (r2 == r && (c1 < ci || (c1 == ci && c2 < ci + 1)))) && #[trigger] line_pair(a, b, r2, c1, c2);
            assert(lines_before(a, b, r, ci, 0));
        }
        if lines_before(a, b, r, ci, 0) {
            let (r2, c1, c2) = choose|r2: int, c1: int, c2: int| 0 <= r2 < 9 && 0 <= c1 < c2 < 9 && (r2 < r || (r2 == r && (c1 < ci || (c1 == ci && c2 < 0)))) && #[trigger] line_pair(a, b, r2, c1, c2);
            assert(lines_before(a, b, r, ci, ci + 1));
        }
    }
    assert forall|a: int, b: int, r: int, ci: int| (#[trigger] lines_before(a, b, r, ci, 9) <==> lines_before(a, b, r, ci + 1, 0)) by {
        if lines_before(a, b, r, ci, 9) {
            let (r2, c1, c2) = choose|r2: int, c1: int, c2: int| 0 <= r2 < 9 && 0 <= c1 < c2 < 9 && (r2 < r || (r2 == r && (c1 < ci || (c1 == ci && c2 < 9)))) && #[trigger] line_pair(a, b, r2, c1, c2);
            assert(lines_before(a, b, r, ci + 1, 0));
        }
        if lines_before(a, b, r, ci + 1, 0) {
            let (r2, c1, c2) = choose|r2: int, c1: int, c2: int| 0 <= r2 < 9 && 0 <= c1 < c2 < 9 && (r2 < r || (r2 == r && (c1 < ci + 1 || (c1 == ci + 1 && c2 < 0)))) && #[trigger] line_pair(a, b, r2, c1, c2);
            assert(lines_before(a, b, r, ci, 9));
        }
    }
    assert forall|a: int, b: int, r: int| (#[trigger] lines_before(a, b, r, 9, 0) <==> lines_before(a, b, r + 1, 0, 0)) by {
        if lines_before(a, b, r, 9, 0) {
            let (r2, c1, c2) = choose|r2: int, c1: int, c2: int| 0 <= r2 < 9 && 0 <= c1 < c2 < 9 && (r2 < r || (r2 == r && (c1 < 9 || (c1 == 9 && c2 < 0)))) && #[trigger] line_pair(a, b, r2, c1, c2);
            assert(lines_before(a, b, r + 1, 0, 0));
        }
        if lines_before(a, b, r + 1, 0, 0) {
            let (r2, c1, c2) = choose|r2: int, c1: int, c2: int| 0 <= r2 < 9 && 0 <= c1 < c2 < 9 && (r2 < r + 1 || (r2 == r + 1 && (c1 < 0 || (c1 == 0 && c2 < 0)))) && #[trigger] line_pair(a, b, r2, c1, c2);
            assert(lines_before(a, b, r, 9, 0));
        }
    }
    assert forall|a: int, b: int| (#[trigger] lines_before(a, b, 9, 0, 0) <==> same_line(a, b)) by {
        if same_line(a, b) {
            let (r2, c1, c2) = choose|r2: int, c1: int, c2: int| 0 <= r2 < 9 && 0 <= c1 < c2 < 9 && #[trigger] line_pair(a, b, r2, c1, c2);
            assert(lines_before(a, b, 9, 0, 0));
        }
    }
}

/// The cells of a box of the sudoku grid are increasing and below 81, so
/// there are at most 81 of them.
proof fn lemma_zone_len(z: Seq<usize>, top: int, left: int)
    requires
        is_zone(z, 9, 3, top, left),
        0 <= top <= 6,
        0 <= left <= 6,
    ensures
        z.len() <= 81,
        forall|i: int| 0 <= i < z.len() ==> #[trigger] z[i] < 81,
{
    assert forall|i: int| 0 <= i < z.len() implies #[trigger] z[i] < 81 by {
        assert(listed(z, z[i] as int));
        assert(in_zone(z[i] as int, 9, 3, top, left));
    }
    assert forall|i: int| 0 <= i < z.len() implies #[trigger] z[i] >= i by {
        lemma_increasing_at_least(z, i);
    }
    if z.len() > 81 {
        assert(z[81] >= 81);
    }
}

proof fn lemma_increasing_at_least(z: Seq<usize>, i: int)
    requires
        forall|p: int, q: int| 0 <= p < q < z.len() ==> z[p] < z[q],
        0 <= i < z.len(),
    ensures
        z[i] >= i,
    decreases i,
{
    if i > 0 {
        lemma_increasing_at_least(z, i - 1);
        assert(z[i - 1] < z[i]);
    }
}

/// The sudoku problem on an empty grid: every cell may take 1 to 9, and
/// two cells of a row, a column or a box must differ.
pub fn sudoku_init() -> (r: (Vec<Var<u8>>, Csp<Diff>))
    ensures
        r.0@.len() == VARS,
        forall|i: int| 0 <= i < VARS ==> (#[trigger] r.0@[i])@ == Set::new(|v: u8| 1 <= v <= 9),
        graph_order(r.1) == VARS,
        graph_edges(r.1).no_duplicates(),
        forall|a: nat, b: nat| #[trigger] graph_edges(r.1).contains((a, b)) <==> sudoku_edge(a as int, b as int),
{
    let mut csp = csp_new();
    let mut k: usize = 0;
    while k < VARS
        invariant
            k <= VARS,
            graph_order(csp) == k,
            graph_edges(csp) == Seq::<(nat, nat)>::empty(),
        decreases VARS - k,
    {
        add_node(&mut csp);
        k += 1;
    }
    proof {
        lemma_lines_bounds();
    }
    let mut r: usize = 0;
    while r < SIDE
        invariant
            r <= SIDE,
            graph_order(csp) == VARS,
            graph_edges(csp).no_duplicates(),
            graph_edges(csp).len() <= 162 * r,
            forall|a: nat, b: nat| #[trigger] graph_edges(csp).contains((a, b)) <==> lines_before(a as int, b as int, r as int, 0, 0),
        decreases SIDE - r,
    {
        let mut ci: usize = 0;
        while ci < SIDE
            invariant
                r < SIDE,
                ci <= SIDE,
                graph_order(csp) == VARS,
                graph_edges(csp).no_duplicates(),
                graph_edges(csp).len() <= 162 * r + 18 * ci,
                forall|a: nat, b: nat| #[trigger] graph_edges(csp).contains((a, b)) <==> lines_before(a as int, b as int, r as int, ci as int, 0),
            decreases SIDE - ci,
        {
            let mut cj: usize = ci + 1;
            while cj < SIDE
                invariant
                    r < SIDE,
                    ci < SIDE,
                    ci < cj <= SIDE,
                    graph_order(csp) == VARS,
                    graph_edges(csp).no_duplicates(),
                    graph_edges(csp).len() <= 162 * r + 18 * ci + 2 * cj,
                    forall|a: nat, b: nat| #[trigger] graph_edges(csp).contains((a, b)) <==> lines_before(a as int, b as int, r as int, ci as int, cj as int),
                decreases SIDE - cj,
            {
                let ghost e0 = graph_edges(csp);
                update_edge(&mut csp, r * SIDE + ci, r * SIDE + cj);
                let ghost e1 = graph_edges(csp);
                proof {
                    lemma_add_pair(e0, e1, (r * 9 + ci) as nat, (r * 9 + cj) as nat);
                }
                update_edge(&mut csp, ci * SIDE + r, cj * SIDE + r);
                proof {
                    lemma_add_pair(e1, graph_edges(csp), (ci * 9 + r) as nat, (cj * 9 + r) as nat);
                    lemma_lines_step(r as int, ci as int, cj as int);
                    assert forall|a: nat, b: nat| #[trigger] graph_edges(csp).contains((a, b)) <==> lines_before(a as int, b as int, r as int, ci as int, cj + 1) by {
                        assert(line_pair(a as int, b as int, r as int, ci as int, cj as int) <==> (a == r * 9 + ci && b == r * 9 + cj) || (a == ci * 9 + r && b == cj * 9 + r));
                    }
                }
                cj += 1;
            }
            ci += 1;
        }
        r += 1;
    }
    proof {
        assert(square(3) == 9);
    }
    let mut zones = Zones::new(SIDE);
    let ghost mut bt: int = 0;
    let ghost mut bl: int = 0;
    proof {
        assert(square(3) == 9);
        lemma_root(9, 3);
        assert forall|a: nat, b: nat| #[trigger] graph_edges(csp).contains((a, b)) implies !boxes_before(a as int, b as int, 0, 0) by {}
    }
    let mut next = zones.next();
    proof {
        assert(zones.at_box(0, 1));
    }
    while next.is_some()
        invariant
            zones.side() == 9,
            root_of(9) == 3,
            0 <= bt <= 3,
            0 <= bl < 3,
            bt == 3 ==> bl == 0,
            next is Some <==> bt < 3,
            bt < 3 ==> zones.at_box((if bl + 1 < 3 { bt } else { bt + 1 }) as nat, (if bl + 1 < 3 { bl + 1 } else { 0 }) as nat),
            next matches Some(z) ==> is_zone(z@, 9, 3, 3 * bt, 3 * bl),
            graph_order(csp) == VARS,
            graph_edges(csp).no_duplicates(),
            graph_edges(csp).len() <= 1458 + 7000 * (3 * bt + bl),
            forall|a: nat, b: nat| #[trigger] graph_edges(csp).contains((a, b)) <==> same_line(a as int, b as int) || boxes_before(a as int, b as int, bt, bl),
        decreases 9 - (3 * bt + bl),
    {
        let zone = next.unwrap();
        proof {
            lemma_zone_len(zone@, 3 * bt, 3 * bl);
        }
        let mut i: usize = 0;
        while i < zone.len()
            invariant
                is_zone(zone@, 9, 3, 3 * bt, 3 * bl),
                zone@.len() <= 81,
                forall|m: int| 0 <= m < zone@.len() ==> #[trigger] zone@[m] < 81,
                i <= zone@.len(),
                graph_order(csp) == VARS,
                graph_edges(csp).no_duplicates(),
                0 <= bt < 3,
                0 <= bl < 3,
                graph_edges(csp).len() <= 1458 + 7000 * (3 * bt + bl) + 82 * i,
                forall|a: nat, b: nat| #[trigger] graph_edges(csp).contains((a, b)) <==> same_line(a as int, b as int) || boxes_before(a as int, b as int, bt, bl) || zone_before(a as int, b as int, zone@, i as int, 0),
            decreases zone.len() - i,
        {
            let mut j: usize = i + 1;
            while j < zone.len()
                invariant
                    is_zone(zone@, 9, 3, 3 * bt, 3 * bl),
                    zone@.len() <= 81,
                    forall|m: int| 0 <= m < zone@.len() ==> #[trigger] zone@[m] < 81,
                    i < j <= zone@.len(),
                    graph_order(csp) == VARS,
                    graph_edges(csp).no_duplicates(),
                    0 <= bt < 3,
                    0 <= bl < 3,
                    graph_edges(csp).len() <= 1458 + 7000 * (3 * bt + bl) + 82 * i + j,
                    forall|a: nat, b: nat| #[trigger] graph_edges(csp).contains((a, b)) <==> same_line(a as int, b as int) || boxes_before(a as int, b as int, bt, bl) || zone_before(a as int, b as int, zone@, i as int, j as int),
                decreases zone.len() - j,
            {
                let ghost e0 = graph_edges(csp);
                update_edge(&mut csp, zone[i], zone[j]);
                proof {
                    lemma_add_pair(e0, graph_edges(csp), zone@[i as int] as nat, zone@[j as int] as nat);
                    assert forall|a: nat, b: nat| #[trigger] graph_edges(csp).contains((a, b)) <==> same_line(a as int, b as int) || boxes_before(a as int, b as int, bt, bl) || zone_before(a as int, b as int, zone@, i as int, j + 1) by {
                        if zone_before(a as int, b as int, zone@, i as int, j + 1) {
                            let (i2, j2) = choose|i2: int, j2: int| 0 <= i2 < j2 < zone@.len() && (i2 < i || (i2 == i && j2 < j + 1)) && a == #[trigger] zone@[i2] && b == #[trigger] zone@[j2];
                            if !(i2 == i && j2 == j) {
                                assert(zone_before(a as int, b as int, zone@, i as int, j as int));
                            }
                        }
                        if zone_before(a as int, b as int, zone@, i as int, j as int) {
                            let (i2, j2) = choose|i2: int, j2: int| 0 <= i2 < j2 < zone@.len() && (i2 < i || (i2 == i && j2 < j)) && a == #[trigger] zone@[i2] && b == #[trigger] zone@[j2];
                            assert(zone_before(a as int, b as int, zone@, i as int, j + 1));
                        }
                        if a == zone@[i as int] && b == zone@[j as int] {
                            assert(zone_before(a as int, b as int, zone@, i as int, j + 1));
                        }
                    }
                }
                j += 1;
            }
            proof {
                assert forall|a: nat, b: nat| #[trigger] zone_before(a as int, b as int, zone@, i as int, zone@.len() as int) <==> zone_before(a as int, b as int, zone@, i + 1, 0) by {
                    if zone_before(a as int, b as int, zone@, i as int, zone@.len() as int) {
                        let (i2, j2) = choose|i2: int, j2: int| 0 <= i2 < j2 < zone@.len() && (i2 < i || (i2 == i && j2 < zone@.len())) && a == #[trigger] zone@[i2] && b == #[trigger] zone@[j2];
                        assert(zone_before(a as int, b as int, zone@, i + 1, 0));
                    }
                    if zone_before(a as int, b as int, zone@, i + 1, 0) {
                        let (i2, j2) = choose|i2: int, j2: int| 0 <= i2 < j2 < zone@.len() && (i2 < i + 1 || (i2 == i + 1 && j2 < 0)) && a == #[trigger] zone@[i2] && b == #[trigger] zone@[j2];
                        assert(zone_before(a as int, b as int, zone@, i as int, zone@.len() as int));
                    }
                }
            }
            i += 1;
        }
        proof {
            let z = zone@;
            let nbt = if bl + 1 < 3 { bt } else { bt + 1 };
            let nbl = if bl + 1 < 3 { bl + 1 } else { 0 };
            assert forall|a: nat, b: nat| #[trigger] graph_edges(csp).contains((a, b)) <==> same_line(a as int, b as int) || boxes_before(a as int, b as int, nbt, nbl) by {
                if zone_before(a as int, b as int, z, z.len() as int, 0) {
                    let (i2, j2) = choose|i2: int, j2: int| 0 <= i2 < j2 < z.len() && (i2 < z.len() || (i2 == z.len() && j2 < 0)) && a == #[trigger] z[i2] && b == #[trigger] z[j2];
                    assert(listed(z, a as int));
                    assert(listed(z, b as int));
                    assert(in_zone(a as int, 9, 3, 3 * bt, 3 * bl));
                    assert(boxes_before(a as int, b as int, nbt, nbl));
                }
                if boxes_before(a as int, b as int, nbt, nbl) {
                    let (bt2, bl2) = choose|bt2: int, bl2: int| 0 <= bt2 < 3 && 0 <= bl2 < 3 && (bt2 < nbt || (bt2 == nbt && bl2 < nbl)) && #[trigger] in_zone(a as int, 9, 3, 3 * bt2, 3 * bl2) && in_zone(b as int, 9, 3, 3 * bt2, 3 * bl2) && a < b;
                    if bt2 == bt && bl2 == bl {
                        assert(listed(z, a as int));
                        assert(listed(z, b as int));
                        let i2 = choose|i2: int| 0 <= i2 < z.len() && z[i2] == a;
                        let j2 = choose|j2: int| 0 <= j2 < z.len() && z[j2] == b;
                        if j2 <= i2 {
                            if j2 < i2 {
                                assert(z[j2] < z[i2]);
                            }
                        }
                        assert(zone_before(a as int, b as int, z, z.len() as int, 0));
                    } else {
                        assert(boxes_before(a as int, b as int, bt, bl));
                    }
                }
            }
        }
        proof {
            if bl + 1 < 3 {
                bl = bl + 1;
            } else {
                bt = bt + 1;
                bl = 0;
            }
        }
        next = zones.next();
    }
    proof {
        assert forall|a: nat, b: nat| #[trigger] graph_edges(csp).contains((a, b)) <==> sudoku_edge(a as int, b as int) by {
            if same_box(a as int, b as int) {
                let (bt2, bl2) = choose|bt2: int, bl2: int| 0 <= bt2 < 3 && 0 <= bl2 < 3 && #[trigger] in_zone(a as int, 9, 3, 3 * bt2, 3 * bl2) && in_zone(b as int, 9, 3, 3 * bt2, 3 * bl2) && a < b;
                assert(boxes_before(a as int, b as int, 3, 0));
            }
            if boxes_before(a as int, b as int, 3, 0) {
                let (bt2, bl2) = choose|bt2: int, bl2: int| 0 <= bt2 < 3 && 0 <= bl2 < 3 && (bt2 < 3 || (bt2 == 3 && bl2 < 0)) && #[trigger] in_zone(a as int, 9, 3, 3 * bt2, 3 * bl2) && in_zone(b as int, 9, 3, 3 * bt2, 3 * bl2) && a < b;
                assert(same_box(a as int, b as int));
            }
        }
    }
    let mut vars: Vec<Var<u8>> = Vec::new();
    let mut v: usize = 0;
    while v < VARS
        invariant
            v <= VARS,
            vars@.len() == v,
            forall|i: int| 0 <= i < v ==> (#[trigger] vars@[i])@ == Set::new(|x: u8| 1 <= x <= 9),
        decreases VARS - v,
    {
        vars.push(one_to_nine());
        v += 1;
    }
    (vars, csp)
}

/// The set of the values 1 to 9.
fn one_to_nine() -> (r: Var<u8>)
    ensures
        r@ == Set::new(|x: u8| 1 <= x <= 9),
{
    let mut s: Var<u8> = std::collections::HashSet::new();
    let mut x: u8 = 1;
    while x <= 9
        invariant
            1 <= x <= 10,
            s@ == Set::new(|y: u8| 1 <= y < x),
        decreases 10 - x,
    {
        s.insert(x);
        assert(s@ =~= Set::new(|y: u8| 1 <= y < x + 1));
        x += 1;
    }
    assert(s@ =~= Set::new(|y: u8| 1 <= y <= 9));
    s
}

} // verus!

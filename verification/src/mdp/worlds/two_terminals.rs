use vstd::prelude::*;

verus! {

/// A square of the grid; (0, 0) is at the bottom left.
#[derive(Clone, Copy, PartialEq, Eq, Structural, Hash, Debug)]
pub struct Pos {
    pub x: isize,
    pub y: isize,
}

impl Pos {
    /// The square in column `x` of row `y`.
    pub fn new(x: isize, y: isize) -> (r: Self)
        ensures
            r == (Pos { x, y }),
    {
        Pos { x, y }
    }

    /// The number of the square in a grid of rows of `width`, counted row by
    /// row from the bottom left.
    pub fn to_usize(self, width: usize) -> (r: usize)
        requires
            0 <= self.x,
            0 <= self.y,
            self.x + self.y * width <= isize::MAX,
        ensures
            r == self.x + self.y * width,
    {
        if self.y == 0 {
            self.x as usize
        } else {
            assert(width <= self.y * width) by (nonlinear_arith)
                requires
                    1 <= self.y,
                    0 <= width;
            let w = width as isize;
            (self.x + self.y * w) as usize
        }
    }

    /// The square numbered `i` in a grid of rows of `width`.
    pub fn from_usize(i: usize, width: usize) -> (r: Self)
        requires
            0 < width,
            i <= isize::MAX,
        ensures
            r.x == i % width,
            r.y == i / width,
    {
        assert(i % width <= i && i / width <= i) by (nonlinear_arith)
            requires
                width > 0;
        Pos::new((i % width) as isize, (i / width) as isize)
    }

    /// The four squares next to this one: left, right, below, above.
    pub fn neighbors(self) -> (r: [Pos; 4])
        requires
            isize::MIN < self.x < isize::MAX,
            isize::MIN < self.y < isize::MAX,
        ensures
            r@.len() == 4,
            r@[0].x == self.x - 1 && r@[0].y == self.y,
            r@[1].x == self.x + 1 && r@[1].y == self.y,
            r@[2].x == self.x && r@[2].y == self.y - 1,
            r@[3].x == self.x && r@[3].y == self.y + 1,
    {
        let (x, y) = (self.x, self.y);
        let r = [Pos::new(x - 1, y), Pos::new(x + 1, y), Pos::new(x, y - 1), Pos::new(x, y + 1)];
        r
    }
}

/// Numbering a square and taking the square of a number undo each other:
/// the square numbered `i` (column `i % width`, row `i / width`) has number
/// `i` again.
pub proof fn law_square_number_round_trip(i: int, width: int)
    requires
        0 <= i,
        0 < width,
    ensures
        i % width + (i / width) * width == i,
{
    vstd::arithmetic::div_mod::lemma_fundamental_div_mod(i, width);
    vstd::arithmetic::mul::lemma_mul_is_commutative(width, i / width);
}

/// A direction of movement.
#[derive(Debug, Clone, Copy, PartialEq, Eq, Structural, Hash)]
pub enum Dir {
    N,
    S,
    W,
    E,
}

/// The step a direction makes.
pub open spec fn dir_offset(d: Dir) -> (int, int) {
    match d {
        Dir::N => (0, 1),
        Dir::S => (0, -1),
        Dir::W => (-1, 0),
        Dir::E => (1, 0),
    }
}

/// The direction a quarter turn to the left.
pub open spec fn left_of(d: Dir) -> Dir {
    match d {
        Dir::N => Dir::W,
        Dir::W => Dir::S,
        Dir::S => Dir::E,
        Dir::E => Dir::N,
    }
}

/// The direction a quarter turn to the right.
pub open spec fn right_of(d: Dir) -> Dir {
    match d {
        Dir::N => Dir::E,
        Dir::E => Dir::S,
        Dir::S => Dir::W,
        Dir::W => Dir::N,
    }
}

impl Dir {
    /// The step the direction makes, as (dx, dy).
    pub fn offset(self) -> (r: (isize, isize))
        ensures
            (r.0 as int, r.1 as int) == dir_offset(self),
    {
        match self {
            Dir::N => (0, 1),
            Dir::S => (0, -1),
            Dir::W => (-1, 0),
            Dir::E => (1, 0),
        }
    }

    /// A quarter turn to the left.
    pub fn left(self) -> (r: Self)
        ensures
            r == left_of(self),
    {
        match self {
            Dir::N => Dir::W,
            Dir::W => Dir::S,
            Dir::S => Dir::E,
            Dir::E => Dir::N,
        }
    }

    /// A quarter turn to the right.
    pub fn right(self) -> (r: Self)
        ensures
            r == right_of(self),
    {
        match self {
            Dir::N => Dir::E,
            Dir::E => Dir::S,
            Dir::S => Dir::W,
            Dir::W => Dir::N,
        }
    }

    /// The square one step from `pos` in this direction.
    pub fn from(self, pos: Pos) -> (r: Pos)
        requires
            isize::MIN < pos.x < isize::MAX,
            isize::MIN < pos.y < isize::MAX,
        ensures
            r.x == pos.x + dir_offset(self).0,
            r.y == pos.y + dir_offset(self).1,
    {
        let (dx, dy) = self.offset();
        Pos::new(pos.x + dx, pos.y + dy)
    }
}

impl Default for Dir {
    fn default() -> (r: Self)
        ensures
            r == Dir::N,
    {
        Dir::N
    }
}

/// Turning left undoes turning right and the other way round, and four
/// turns the same way come back to the start.
pub proof fn law_turns(d: Dir)
    ensures
        left_of(right_of(d)) == d,
        right_of(left_of(d)) == d,
        left_of(left_of(left_of(left_of(d)))) == d,
        dir_offset(left_of(left_of(d))).0 == -dir_offset(d).0,
        dir_offset(left_of(left_of(d))).1 == -dir_offset(d).1,
{
}

} // verus!

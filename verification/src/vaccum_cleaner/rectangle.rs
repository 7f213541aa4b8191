//! A square room of clean and dirty floor and obstacles, with a cleaner
//! that moves at random and one that maps where it has bumped.

use vstd::prelude::*;
use super::{Actuator, Agent, Perceptor, Score, World};

verus! {

/// A square of the room.
#[derive(Debug, Clone, Copy, PartialEq, Eq, Structural)]
pub enum Square {
    Obstacle,
    Dirty,
    Clean,
}

impl Square {
    /// How the square is drawn.
    pub fn char(self) -> (r: char)
        ensures
            r == match self {
                Square::Obstacle => '#',
                Square::Dirty => '%',
                Square::Clean => ' ',
            },
    {
        match self {
            Square::Obstacle => '#',
            Square::Dirty => '%',
            Square::Clean => ' ',
        }
    }
}

/// A number below `n` drawn by `rand::Rng::gen_range(0, n)` from the thread's
/// generator. It is random: only the range is stated.
#[verifier::external_body]
fn random_below(n: usize) -> (r: usize)
    requires
        n > 0,
    ensures
        r < n,
{
    rand::Rng::gen_range(&mut rand::thread_rng(), 0, n)
}

/// The square a draw below 8 gives: an obstacle for 0, dirt for 1 to 3,
/// clean floor for the rest.
pub open spec fn square_of_spec(n: int) -> Square {
    if n == 0 {
        Square::Obstacle
    } else if n < 4 {
        Square::Dirty
    } else {
        Square::Clean
    }
}

/// The square a draw below 8 gives: an obstacle one time in eight, dirt
/// three times, clean floor four times.
pub fn square_of(n: usize) -> (r: Square)
    ensures
        r == square_of_spec(n as int),
{
    if n == 0 {
        Square::Obstacle
    } else if n < 4 {
        Square::Dirty
    } else {
        Square::Clean
    }
}

/// Whether the cleaner bumped into something on its last move.
pub type Bumped = bool;

/// A position: column and row.
pub type Pos = (isize, isize);

/// The room: `side` squares on a side, the cleaner's position, and whether
/// its last move bumped.
pub struct Rectangle {
    side: isize,
    bumped: Bumped,
    squares: Vec<Square>,
    bot: Pos,
}

/// The number of clean squares among the first `n`.
pub open spec fn clean_squares(s: Seq<Square>, n: int) -> int
    decreases n,
{
    if n <= 0 {
        0
    } else {
        clean_squares(s, n - 1) + if s[n - 1] == Square::Clean { 1int } else { 0int }
    }
}

proof fn lemma_clean_squares(s: Seq<Square>, n: int)
    requires
        0 <= n <= s.len(),
    ensures
        0 <= clean_squares(s, n) <= n,
    decreases n,
{
    if n > 0 {
        lemma_clean_squares(s, n - 1);
    }
}

/// A room of one clean square.
fn tiny() -> (r: Rectangle)
    ensures
        r.side_spec() == 1,
        r.squares_spec() == seq![Square::Clean],
        r.bot_spec() == (0isize, 0isize),
        !r.bumped_spec(),
{
    let mut squares: Vec<Square> = Vec::new();
    squares.push(Square::Clean);
    assert(squares@[0] == Square::Clean);
    let r = Rectangle { side: 1, bumped: false, squares, bot: (0, 0) };
    assert(r.squares@ =~= seq![Square::Clean]);
    r
}

/// Cells of a room at most 255 on a side have indices far within `isize`.
proof fn lemma_index(x: int, y: int, side: int)
    requires
        0 <= x < side,
        0 <= y < side,
        side <= 255,
    ensures
        0 <= x * side,
        x * side + y < side * side,
        side * side <= 255 * 255,
{
    assert(0 <= x * side) by (nonlinear_arith)
        requires
            0 <= x,
            0 <= side,
    ;
    assert(x * side + y < side * side) by (nonlinear_arith)
        requires
            0 <= x < side,
            0 <= y < side,
    ;
    assert(side * side <= 255 * 255) by (nonlinear_arith)
        requires
            0 <= side <= 255,
    ;
}

impl Rectangle {
    /// The room is `side` by `side`, at most 255; the cleaner stands inside,
    /// on a square that is not an obstacle.
    #[verifier::type_invariant]
    spec fn wf(self) -> bool {
        &&& 0 < self.side <= 255
        &&& self.squares@.len() == self.side * self.side
        &&& 0 <= self.bot.0 < self.side
        &&& 0 <= self.bot.1 < self.side
        &&& self.squares@[self.bot.0 * self.side + self.bot.1] != Square::Obstacle
    }

    /// The side of the room.
    pub closed spec fn side_spec(self) -> int {
        self.side as int
    }

    /// The cleaner's position.
    pub closed spec fn bot_spec(self) -> Pos {
        self.bot
    }

    /// Whether the cleaner's last move bumped.
    pub closed spec fn bumped_spec(self) -> bool {
        self.bumped
    }

    /// The square at column `x`, row `y`, when it is in the room.
    pub closed spec fn at(self, x: int, y: int) -> Option<Square> {
        if 0 <= x < self.side && 0 <= y < self.side {
            Some(self.squares@[x * self.side + y])
        } else {
            None
        }
    }

    /// The squares, column by column.
    pub closed spec fn squares_spec(self) -> Seq<Square> {
        self.squares@
    }

    /// `after` is this room once the cleaner tried to step onto `p`: there,
    /// without a bump, when `p` is a square of the room and not an obstacle;
    /// else where it was, with a bump. The squares stay.
    pub open spec fn moved(self, after: Rectangle, p: (int, int)) -> bool {
        &&& after.squares_spec() == self.squares_spec()
        &&& after.side_spec() == self.side_spec()
        &&& if self.at(p.0, p.1) is Some && self.at(p.0, p.1) != Some(Square::Obstacle) {
            &&& after.bot_spec() == (p.0 as isize, p.1 as isize)
            &&& !after.bumped_spec()
        } else {
            &&& after.bot_spec() == self.bot_spec()
            &&& after.bumped_spec()
        }
    }

    /// `after` is this room once the square under the cleaner is cleaned;
    /// all else stays.
    pub open spec fn cleaned(self, after: Rectangle) -> bool {
        &&& after.side_spec() == self.side_spec()
        &&& after.bot_spec() == self.bot_spec()
        &&& after.bumped_spec() == self.bumped_spec()
        &&& after.squares_spec() == self.squares_spec().update(
            self.bot_spec().0 * self.side_spec() + self.bot_spec().1,
            Square::Clean,
        )
    }

    /// A room of `side` squares on a side, each drawn at random as an
    /// obstacle, dirt or clean floor, with the cleaner on a random square,
    /// which is then clean.
    pub fn new(side: u8) -> (r: Self)
        requires
            side > 0,
        ensures
            r.side_spec() == side,
            !r.bumped_spec(),
            r.at(r.bot_spec().0 as int, r.bot_spec().1 as int) == Some(Square::Clean),
    {
        let n = side as usize;
        proof {
            assert(n * n <= 255 * 255) by (nonlinear_arith)
                requires
                    n <= 255,
            ;
        }
        let mut squares: Vec<Square> = Vec::new();
        let mut k: usize = 0;
        while k < n * n
            invariant
                k <= n * n,
                n * n <= 255 * 255,
                squares@.len() == k,
            decreases n * n - k,
        {
            squares.push(square_of(random_below(8)));
            k += 1;
        }
        let x = random_below(n);
        let y = random_below(n);
        proof {
            assert(x * n + y < n * n) by (nonlinear_arith)
                requires
                    x < n,
                    y < n,
            ;
        }
        squares.set(x * n + y, Square::Clean);
        let side = side as isize;
        let bot = (x as isize, y as isize);
        proof {
            assert(bot.0 * side + bot.1 == x * n + y);
        }
        Rectangle { squares, bot, side, bumped: false }
    }

    /// Whether the square at `x`, `y` is in the room and not an obstacle.
    fn in_bound(&self, x: isize, y: isize) -> (r: bool)
        ensures
            r == (self.at(x as int, y as int) is Some && self.at(x as int, y as int) != Some(Square::Obstacle)),
    {
        proof {
            use_type_invariant(self);
        }
        if 0 <= x && x < self.side && 0 <= y && y < self.side {
            proof {
                lemma_index(x as int, y as int, self.side as int);
            }
            self.squares[(x * self.side + y) as usize] != Square::Obstacle
        } else {
            false
        }
    }

    /// Moves the cleaner to `nx`, `ny` when it can stand there; otherwise it
    /// bumps and stays.
    fn move_to(&mut self, nx: isize, ny: isize)
        ensures
            old(self).moved(*final(self), (nx as int, ny as int)),
    {
        proof {
            use_type_invariant(&*self);
        }
        let ok = self.in_bound(nx, ny);
        let mut tmp = tiny();
        std::mem::swap(self, &mut tmp);
        let Rectangle { side, bumped, squares, bot } = tmp;
        if ok {
            proof {
                assert(0 <= nx < side && 0 <= ny < side);
            }
            *self = Rectangle { side, bumped: false, squares, bot: (nx, ny) };
        } else {
            *self = Rectangle { side, bumped: true, squares, bot };
        }
    }

    /// Cleans the square under the cleaner.
    fn clean(&mut self)
        ensures
            old(self).cleaned(*final(self)),
    {
        proof {
            use_type_invariant(&*self);
            lemma_index(self.bot.0 as int, self.bot.1 as int, self.side as int);
        }
        let i = (self.bot.0 * self.side + self.bot.1) as usize;
        let mut tmp = tiny();
        std::mem::swap(self, &mut tmp);
        let Rectangle { side, bumped, mut squares, bot } = tmp;
        squares.set(i, Square::Clean);
        *self = Rectangle { side, bumped, squares, bot };
    }

    /// The square under the cleaner.
    pub fn square_under_bot(&self) -> (r: Square)
        ensures
            Some(r) == self.at(self.bot_spec().0 as int, self.bot_spec().1 as int),
            r != Square::Obstacle,
    {
        proof {
            use_type_invariant(self);
            lemma_index(self.bot.0 as int, self.bot.1 as int, self.side as int);
        }
        self.squares[(self.bot.0 * self.side + self.bot.1) as usize]
    }

    /// A copy of the room.
    pub fn duplicate(&self) -> (r: Self)
        ensures
            r.side_spec() == self.side_spec(),
            r.bot_spec() == self.bot_spec(),
            r.bumped_spec() == self.bumped_spec(),
            r.squares_spec() == self.squares_spec(),
    {
        proof {
            use_type_invariant(self);
        }
        let mut squares: Vec<Square> = Vec::new();
        let mut i: usize = 0;
        while i < self.squares.len()
            invariant
                i <= self.squares@.len(),
                squares@ == self.squares@.subrange(0, i as int),
            decreases self.squares.len() - i,
        {
            squares.push(self.squares[i]);
            assert(self.squares@.subrange(0, i + 1) =~= self.squares@.subrange(0, i as int).push(self.squares@[i as int]));
            i += 1;
        }
        assert(self.squares@.subrange(0, self.squares@.len() as int) =~= self.squares@);
        Rectangle { side: self.side, bumped: self.bumped, squares, bot: self.bot }
    }

    /// Whether the cleaner's last move bumped.
    pub fn bumped(&self) -> (r: bool)
        ensures
            r == self.bumped_spec(),
    {
        self.bumped
    }

    /// The side of the room.
    pub fn side(&self) -> (r: isize)
        ensures
            r == self.side_spec(),
    {
        self.side
    }

    /// The cleaner's position.
    pub fn bot(&self) -> (r: Pos)
        ensures
            r == self.bot_spec(),
    {
        self.bot
    }

    /// The square at `x`, `y`, if it is in the room.
    pub fn get(&self, x: isize, y: isize) -> (r: Option<Square>)
        ensures
            r == self.at(x as int, y as int),
    {
        proof {
            use_type_invariant(self);
        }
        if 0 <= x && x < self.side && 0 <= y && y < self.side {
            proof {
                lemma_index(x as int, y as int, self.side as int);
            }
            Some(self.squares[(x * self.side + y) as usize])
        } else {
            None
        }
    }
}

impl World for Rectangle {
    closed spec fn measure_spec(&self) -> int {
        clean_squares(self.squares@, self.squares@.len() as int)
    }

    /// The number of clean squares.
    fn measure(&self) -> (r: Score) {
        proof {
            use_type_invariant(self);
            lemma_clean_squares(self.squares@, self.squares@.len() as int);
            lemma_index(0, 0, self.side as int);
        }
        let mut count: i32 = 0;
        let mut i: usize = 0;
        while i < self.squares.len()
            invariant
                i <= self.squares@.len(),
                self.squares@.len() <= 255 * 255,
                count == clean_squares(self.squares@, i as int),
            decreases self.squares.len() - i,
        {
            proof {
                lemma_clean_squares(self.squares@, i as int);
            }
            if self.squares[i] == Square::Clean {
                count += 1;
            }
            i += 1;
        }
        count
    }
}

/// A direction the cleaner can move in.
#[derive(Debug, Clone, Copy, PartialEq, Eq, Structural)]
pub enum Dir {
    Up,
    Down,
    Left,
    Right,
}

/// The position one step from `p` in direction `d`: up and down change the
/// row, left and right the column.
pub open spec fn walk_spec(d: Dir, p: (int, int)) -> (int, int) {
    match d {
        Dir::Up => (p.0, p.1 - 1),
        Dir::Down => (p.0, p.1 + 1),
        Dir::Left => (p.0 - 1, p.1),
        Dir::Right => (p.0 + 1, p.1),
    }
}

/// A position away from the ends of `isize`, from which a step stays within
/// it.
pub open spec fn inner(p: Pos) -> bool {
    isize::MIN < p.0 < isize::MAX && isize::MIN < p.1 < isize::MAX
}

impl Dir {
    /// The four directions.
    pub fn enumerate() -> (r: [Dir; 4])
        ensures
            r@ == seq![Dir::Up, Dir::Down, Dir::Left, Dir::Right],
    {
        let r = [Dir::Up, Dir::Down, Dir::Left, Dir::Right];
        assert(r@ =~= seq![Dir::Up, Dir::Down, Dir::Left, Dir::Right]);
        r
    }

    /// The position one step from `p` in this direction.
    pub fn walk(self, p: Pos) -> (r: Pos)
        requires
            inner(p),
        ensures
            (r.0 as int, r.1 as int) == walk_spec(self, (p.0 as int, p.1 as int)),
    {
        let (x, y) = p;
        match self {
            Dir::Up => (x, y - 1),
            Dir::Down => (x, y + 1),
            Dir::Left => (x - 1, y),
            Dir::Right => (x + 1, y),
        }
    }
}

/// The direction a draw `n` stands for: up, down, left, right by `n`
/// modulo 4.
pub fn dir_of(n: usize) -> (r: Dir)
    ensures
        r == dir_at((n % 4) as int),
{
    let k = n % 4;
    if k == 0 {
        Dir::Up
    } else if k == 1 {
        Dir::Down
    } else if k == 2 {
        Dir::Left
    } else {
        Dir::Right
    }
}

/// A random direction, each of the four equally likely.
fn random_dir() -> (r: Dir) {
    dir_of(random_below(4))
}

/// What the cleaner can do: move a step, or clean its square.
#[derive(Debug, Clone, Copy, PartialEq, Eq, Structural)]
pub enum Action {
    Move(Dir),
    Clean,
}

impl Actuator<Rectangle> for Action {
    open spec fn cost_spec(&self) -> int {
        0
    }

    open spec fn transforms(&self, before: Rectangle, after: Rectangle) -> bool {
        match *self {
            Action::Move(dir) => before.moved(
                after,
                walk_spec(dir, (before.bot_spec().0 as int, before.bot_spec().1 as int)),
            ),
            Action::Clean => before.cleaned(after),
        }
    }

    /// Moves the cleaner a step when it can stand there, else it bumps;
    /// or cleans its square.
    fn apply(&self, world: &mut Rectangle)
        ensures
            match *self {
                Action::Move(dir) => old(world).moved(
                    *final(world),
                    walk_spec(dir, (old(world).bot_spec().0 as int, old(world).bot_spec().1 as int)),
                ),
                Action::Clean => old(world).cleaned(*final(world)),
            },
    {
        proof {
            use_type_invariant(&*world);
        }
        match self {
            Action::Move(dir) => {
                let (nx, ny) = dir.walk(world.bot());
                world.move_to(nx, ny);
            },
            Action::Clean => world.clean(),
        }
    }

    /// Acting is free.
    fn cost(&self) -> (r: Score) {
        0
    }
}

/// A cleaner that cleans a dirty square and otherwise moves at random.
pub struct RandomCleaner {}

impl RandomCleaner {
    /// The cleaner.
    pub fn new() -> (r: Self) {
        RandomCleaner {}
    }
}

/// The square under the cleaner.
pub open spec fn under_bot(world: Rectangle) -> Square {
    match world.at(world.bot_spec().0 as int, world.bot_spec().1 as int) {
        Some(s) => s,
        None => Square::Obstacle,
    }
}

impl Perceptor<Rectangle> for RandomCleaner {
    type Percept = Square;

    open spec fn observe_spec(&self, world: Rectangle) -> Square {
        under_bot(world)
    }

    /// The square under the cleaner.
    fn observe(&self, world: &Rectangle) -> (r: Square)
        ensures
            Some(r) == world.at(world.bot_spec().0 as int, world.bot_spec().1 as int),
    {
        world.square_under_bot()
    }
}

impl Agent<Rectangle, Square> for RandomCleaner {
    type A = Action;

    open spec fn steps(&self, percept: Square, after: Self, action: Action) -> bool {
        &&& percept == Square::Dirty ==> action == Action::Clean
        &&& percept != Square::Dirty ==> action is Move
    }

    /// Cleans a dirty square; otherwise moves in a random direction.
    fn step(&mut self, percept: Square) -> (r: Action)
        ensures
            percept == Square::Dirty ==> r == Action::Clean,
            percept != Square::Dirty ==> r is Move,
    {
        if percept == Square::Dirty {
            Action::Clean
        } else {
            Action::Move(random_dir())
        }
    }
}

/// What a list of entries says of each position: the square last entered
/// for it.
pub open spec fn visited_map(v: Seq<(Pos, Square)>) -> Map<Pos, Square>
    decreases v.len(),
{
    if v.len() == 0 {
        Map::empty()
    } else {
        visited_map(v.drop_last()).insert(v.last().0, v.last().1)
    }
}

/// A cleaner that keeps a map of the squares it has been on and bumped
/// into, taking its own start as the origin, and explores squares it has
/// not seen first.
pub struct BumpCleaner {
    visited: Vec<(Pos, Square)>,
    pos: Pos,
    last_action: Action,
}

impl BumpCleaner {
    /// What the cleaner knows of each position.
    pub closed spec fn map_spec(&self) -> Map<Pos, Square> {
        visited_map(self.visited@)
    }

    /// Where the cleaner believes it stands.
    pub closed spec fn pos_spec(&self) -> Pos {
        self.pos
    }

    /// The cleaner's last action.
    pub closed spec fn last_spec(&self) -> Action {
        self.last_action
    }

    /// A cleaner that knows nothing yet, at its origin, having last
    /// cleaned.
    pub fn new() -> (r: Self)
        ensures
            r.map_spec() == Map::<Pos, Square>::empty(),
            r.pos_spec() == (0isize, 0isize),
            r.last_spec() == Action::Clean,
    {
        BumpCleaner { visited: Vec::new(), pos: (0, 0), last_action: Action::Clean }
    }

    /// What the cleaner knows of position `p`.
    fn lookup(&self, p: Pos) -> (r: Option<Square>)
        ensures
            r == if self.map_spec().dom().contains(p) { Some(self.map_spec()[p]) } else { None },
    {
        let ghost v = self.visited@;
        let mut i: usize = self.visited.len();
        assert(v.subrange(0, v.len() as int) =~= v);
        while i > 0
            invariant
                i <= v.len(),
                v == self.visited@,
                forall|j: int| i <= j < v.len() ==> (#[trigger] v[j]).0 != p,
                visited_map(v).dom().contains(p) == visited_map(v.subrange(0, i as int)).dom().contains(p),
                visited_map(v).dom().contains(p) ==> visited_map(v)[p] == visited_map(v.subrange(0, i as int))[p],
            decreases i,
        {
            proof {
                assert(v.subrange(0, i as int).drop_last() =~= v.subrange(0, i - 1));
            }
            let q = self.visited[i - 1].0;
            if q.0 == p.0 && q.1 == p.1 {
                return Some(self.visited[i - 1].1);
            }
            i -= 1;
        }
        proof {
            assert(v.subrange(0, 0) =~= Seq::<(Pos, Square)>::empty());
        }
        None
    }

    /// Records square `sq` at position `p`.
    fn record(&mut self, p: Pos, sq: Square)
        ensures
            final(self).map_spec() == old(self).map_spec().insert(p, sq),
            final(self).pos_spec() == old(self).pos_spec(),
            final(self).last_spec() == old(self).last_spec(),
    {
        self.visited.push((p, sq));
        proof {
            assert(self.visited@.drop_last() =~= old(self).visited@);
        }
    }

    /// The square the last move aimed at, when it was a move.
    pub open spec fn aimed_at(&self) -> Pos {
        let p = self.pos_spec();
        to_pos(walk_spec(self.last_spec()->Move_0, (p.0 as int, p.1 as int)))
    }

    /// Whether the last action was a move that a step could make.
    pub open spec fn moved_last(&self) -> bool {
        self.last_spec() is Move && inner(self.pos_spec())
    }

    /// The map once the cleaner learns whether its last move bumped: its
    /// square is clean, and a bump marks the square it aimed at as an
    /// obstacle.
    pub open spec fn map_after(&self, bumped: Bumped) -> Map<Pos, Square> {
        let known = self.map_spec().insert(self.pos_spec(), Square::Clean);
        if self.moved_last() && bumped {
            known.insert(self.aimed_at(), Square::Obstacle)
        } else {
            known
        }
    }

    /// Where the cleaner stands once it learns whether its last move
    /// bumped: on the square it aimed at unless it bumped.
    pub open spec fn pos_after(&self, bumped: Bumped) -> Pos {
        if self.moved_last() && !bumped {
            self.aimed_at()
        } else {
            self.pos_spec()
        }
    }

    /// Takes in whether the last move bumped: the square the cleaner is on
    /// is clean; a bump marks the square it moved towards as an obstacle,
    /// a move without one takes the cleaner there.
    fn update_map(&mut self, bumped: Bumped)
        ensures
            final(self).last_spec() == old(self).last_spec(),
            final(self).map_spec() == old(self).map_after(bumped),
            final(self).pos_spec() == old(self).pos_after(bumped),
            ({
                let p = old(self).pos_spec();
                let known = old(self).map_spec().insert(p, Square::Clean);
                if old(self).last_spec() is Move && inner(p) {
                    let next = to_pos(walk_spec(old(self).last_spec()->Move_0, (p.0 as int, p.1 as int)));
                    if bumped {
                        final(self).map_spec() == known.insert(next, Square::Obstacle) && final(self).pos_spec() == p
                    } else {
                        final(self).map_spec() == known && final(self).pos_spec() == next
                    }
                } else {
                    final(self).map_spec() == known && final(self).pos_spec() == p
                }
            }),
    {
        self.record(self.pos, Square::Clean);
        if let Action::Move(dir) = self.last_action {
            if inner_pos(self.pos) {
                let next = dir.walk(self.pos);
                if bumped {
                    self.record(next, Square::Obstacle);
                } else {
                    self.pos = next;
                }
            }
        }
    }

    /// The first direction towards a position the cleaner knows nothing
    /// of; failing that, a random one of those not known to be obstacles.
    fn choose_dir(&self) -> (r: Dir)
        ensures
            explores(self.map_spec(), self.pos_spec(), r),
    {
        let dirs = Dir::enumerate();
        if !inner_pos(self.pos) {
            return Dir::Up;
        }
        let mut i: usize = 0;
        while i < 4
            invariant
                i <= 4,
                inner(self.pos),
                dirs@ == seq![Dir::Up, Dir::Down, Dir::Left, Dir::Right],
                forall|k: int| 0 <= k < i ==> #[trigger] self.map_spec().dom().contains(
                    to_pos(walk_spec(dir_at(k), (self.pos.0 as int, self.pos.1 as int)))),
            decreases 4 - i,
        {
            let target = dirs[i].walk(self.pos);
            if self.lookup(target).is_none() {
                proof {
                    assert(dirs[i as int] == dir_at(i as int));
                    assert(target == to_pos(walk_spec(dir_at(i as int), (self.pos.0 as int, self.pos.1 as int))));
                }
                return dirs[i];
            }
            proof {
                assert(dirs[i as int] == dir_at(i as int));
                assert(target == to_pos(walk_spec(dir_at(i as int), (self.pos.0 as int, self.pos.1 as int))));
            }
            i += 1;
        }
        let mut passable: Vec<Dir> = Vec::new();
        let mut j: usize = 0;
        while j < 4
            invariant
                j <= 4,
                inner(self.pos),
            decreases 4 - j,
        {
            let target = dirs[j].walk(self.pos);
            let known = self.lookup(target);
            if !(known == Some(Square::Obstacle)) {
                passable.push(dirs[j]);
            }
            j += 1;
        }
        if passable.len() == 0 {
            Dir::Up
        } else {
            passable[random_below(passable.len())]
        }
    }
}

/// A step from `p` in direction `d` goes to a position the map knows
/// nothing of, whenever one of the four next to `p` is such a position.
pub open spec fn explores(map: Map<Pos, Square>, p: Pos, d: Dir) -> bool {
    inner(p) && (exists|k: int| 0 <= k < 4 && !#[trigger] map.dom().contains(
        to_pos(walk_spec(dir_at(k), (p.0 as int, p.1 as int))))) ==> !map.dom().contains(
        to_pos(walk_spec(d, (p.0 as int, p.1 as int))))
}

/// The direction at place `k` of `Dir::enumerate`.
pub open spec fn dir_at(k: int) -> Dir {
    if k == 0 {
        Dir::Up
    } else if k == 1 {
        Dir::Down
    } else if k == 2 {
        Dir::Left
    } else {
        Dir::Right
    }
}

/// The position with the given coordinates.
pub open spec fn to_pos(p: (int, int)) -> Pos {
    (p.0 as isize, p.1 as isize)
}

/// Whether a step from `p` stays within `isize`.
fn inner_pos(p: Pos) -> (r: bool)
    ensures
        r == inner(p),
{
    isize::MIN < p.0 && p.0 < isize::MAX && isize::MIN < p.1 && p.1 < isize::MAX
}

impl Perceptor<Rectangle> for BumpCleaner {
    type Percept = (Bumped, Square);

    open spec fn observe_spec(&self, world: Rectangle) -> (Bumped, Square) {
        (world.bumped_spec(), under_bot(world))
    }

    /// Whether the last move bumped, and the square under the cleaner.
    fn observe(&self, world: &Rectangle) -> (r: (Bumped, Square))
        ensures
            r.0 == world.bumped_spec(),
            Some(r.1) == world.at(world.bot_spec().0 as int, world.bot_spec().1 as int),
    {
        (world.bumped(), world.square_under_bot())
    }
}

impl Agent<Rectangle, (Bumped, Square)> for BumpCleaner {
    type A = Action;

    open spec fn steps(&self, percept: (Bumped, Square), after: Self, action: Action) -> bool {
        &&& after.map_spec() == self.map_after(percept.0)
        &&& after.pos_spec() == self.pos_after(percept.0)
        &&& after.last_spec() == action
        &&& percept.1 == Square::Dirty ==> action == Action::Clean
        &&& percept.1 != Square::Dirty ==> (action matches Action::Move(d) && explores(after.map_spec(), after.pos_spec(), d))
    }

    /// Updates the map, then cleans a dirty square or moves on, towards a
    /// square it knows nothing of when there is one.
    fn step(&mut self, percept: (Bumped, Square)) -> (r: Action)
        ensures
            final(self).map_spec() == old(self).map_after(percept.0),
            final(self).pos_spec() == old(self).pos_after(percept.0),
            final(self).last_spec() == r,
            percept.1 == Square::Dirty ==> r == Action::Clean,
            percept.1 != Square::Dirty ==> (r matches Action::Move(d) && explores(final(self).map_spec(), final(self).pos_spec(), d)),
    {
        let (bumped, square) = percept;
        self.update_map(bumped);
        let action = if square == Square::Dirty {
            Action::Clean
        } else {
            Action::Move(self.choose_dir())
        };
        self.last_action = action;
        action
    }
}

} // verus!

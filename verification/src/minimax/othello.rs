use vstd::prelude::*;

verus! {

/// The number of squares on a side of the board.
pub const SIDE: usize = 8;

/// The number of squares of the board.
pub const DISKS: usize = 64;

/// A square, numbered row by row from the top left.
pub type Pos = usize;

/// The number of the square in column `x` of row `y`.
pub open spec fn pos_spec(x: int, y: int) -> int {
    x + y * 8
}

/// The square in column `x` of row `y`.
pub fn pos(x: isize, y: isize) -> (r: Pos)
    requires
        0 <= x,
        0 <= y,
        x + y * 8 <= usize::MAX,
    ensures
        r == pos_spec(x as int, y as int),
{
    (x as usize) + (y as usize) * SIDE
}

/// The column and row of a square.
pub fn unpos(p: Pos) -> (r: (isize, isize))
    requires
        p < DISKS,
    ensures
        r.0 == p % 8,
        r.1 == p / 8,
{
    ((p % SIDE) as isize, (p / SIDE) as isize)
}

/// Whether column `x` and row `y` are on the board.
pub open spec fn in_bound_spec(x: int, y: int) -> bool {
    0 <= x < 8 && 0 <= y < 8
}

/// Whether column `x` and row `y` are on the board.
pub fn in_bound(x: isize, y: isize) -> (r: bool)
    ensures
        r == in_bound_spec(x as int, y as int),
{
    x >= 0 && y >= 0 && x < (SIDE as isize) && y < (SIDE as isize)
}

/// Whether the square is a corner.
pub fn corners(p: Pos) -> (r: bool)
    requires
        p < DISKS,
    ensures
        r == ((p % 8 == 0 || p % 8 == 7) && (p / 8 == 0 || p / 8 == 7)),
{
    let (x, y) = unpos(p);
    let (x, y) = (x as usize, y as usize);
    (x == 0 || x == SIDE - 1) && (y == 0 || y == SIDE - 1)
}

/// Whether the square is on an edge of the board.
pub fn sides(p: Pos) -> (r: bool)
    requires
        p < DISKS,
    ensures
        r == (p % 8 == 0 || p / 8 == 0 || p % 8 == 7 || p / 8 == 7),
{
    let (x, y) = unpos(p);
    let (x, y) = (x as usize, y as usize);
    x == 0 || y == 0 || x == SIDE - 1 || y == SIDE - 1
}

/// A player.
#[derive(Debug, Clone, Copy, PartialEq, Eq, Structural)]
pub enum Player {
    Black,
    White,
}

/// The other player.
pub open spec fn other_spec(p: Player) -> Player {
    match p {
        Player::Black => Player::White,
        Player::White => Player::Black,
    }
}

impl Player {
    /// The other player.
    pub fn other(self) -> (r: Self)
        ensures
            r == other_spec(self),
    {
        match self {
            Player::Black => Player::White,
            Player::White => Player::Black,
        }
    }
}

/// What a square holds.
#[derive(Debug, Clone, Copy, PartialEq, Eq, Structural)]
pub enum Disk {
    Occupied(Player),
    Empty,
}

/// The disk a character stands for, if any: `●` or `.` for black, `○` or
/// `o` for white, `□` or a space for an empty square.
pub open spec fn char_disk(c: char) -> Option<Disk> {
    if c == '●' || c == '.' {
        Some(Disk::Occupied(Player::Black))
    } else if c == '○' || c == 'o' {
        Some(Disk::Occupied(Player::White))
    } else if c == '□' || c == ' ' {
        Some(Disk::Empty)
    } else {
        None
    }
}

impl Disk {
    /// The character the disk is drawn with.
    pub fn char(self) -> (r: char)
        ensures
            char_disk(r) == Some(self),
    {
        match self {
            Disk::Occupied(Player::Black) => '●',
            Disk::Occupied(Player::White) => '○',
            Disk::Empty => '□',
        }
    }

    /// The disk that `c` stands for (see `char_disk`).
    pub fn try_from(c: char) -> (r: Result<Disk, &'static str>)
        ensures
            r matches Ok(d) ==> char_disk(c) == Some(d),
            r is Err <==> char_disk(c) is None,
    {
        if c == '●' || c == '.' {
            Ok(Disk::Occupied(Player::Black))
        } else if c == '○' || c == 'o' {
            Ok(Disk::Occupied(Player::White))
        } else if c == '□' || c == ' ' {
            Ok(Disk::Empty)
        } else {
            Err("TryFrom<char> for Disk: invalid character")
        }
    }
}

/// `j` steps of `d`, where `d` is -1, 0 or 1.
pub open spec fn steps(j: int, d: int) -> int {
    if d == 1 {
        j
    } else if d == -1 {
        -j
    } else {
        0
    }
}

/// The squares 1 to `n` steps from (x, y) in direction (dx, dy) are on the
/// board and hold disks of `q`, and the square after them does not.
pub open spec fn run_of(b: Seq<Disk>, x: int, y: int, dx: int, dy: int, q: Player, n: nat) -> bool {
    &&& forall|j: int| #![trigger steps(j, dx), steps(j, dy)] 1 <= j <= n ==> in_bound_spec(x + steps(j, dx), y + steps(j, dy))
        && b[pos_spec(x + steps(j, dx), y + steps(j, dy))] == Disk::Occupied(q)
    &&& !(in_bound_spec(x + steps(n + 1int, dx), y + steps(n + 1int, dy))
        && b[pos_spec(x + steps(n + 1int, dx), y + steps(n + 1int, dy))] == Disk::Occupied(q))
}

/// The squares a disk of `me` placed at (x, y) flips in direction (dx, dy):
/// the run of opposing disks next to it, when a disk of `me` closes it.
pub open spec fn flips_towards(b: Seq<Disk>, x: int, y: int, dx: int, dy: int, me: Player) -> Seq<Pos> {
    if exists|n: nat| #[trigger] run_of(b, x, y, dx, dy, other_spec(me), n)
        && in_bound_spec(x + steps(n + 1int, dx), y + steps(n + 1int, dy))
        && b[pos_spec(x + steps(n + 1int, dx), y + steps(n + 1int, dy))] == Disk::Occupied(me) {
        let n = choose|n: nat| #[trigger] run_of(b, x, y, dx, dy, other_spec(me), n)
            && in_bound_spec(x + steps(n + 1int, dx), y + steps(n + 1int, dy))
            && b[pos_spec(x + steps(n + 1int, dx), y + steps(n + 1int, dy))] == Disk::Occupied(me);
        Seq::new(n, |k: int| pos_spec(x + steps(k + 1, dx), y + steps(k + 1, dy)) as Pos)
    } else {
        Seq::empty()
    }
}

/// A run has one length.
proof fn lemma_run_unique(b: Seq<Disk>, x: int, y: int, dx: int, dy: int, q: Player, n: nat, m: nat)
    requires
        run_of(b, x, y, dx, dy, q, n),
        run_of(b, x, y, dx, dy, q, m),
    ensures
        n == m,
{
    if n < m {
        assert(1 <= n + 1 <= m);
        assert(in_bound_spec(x + steps(n + 1int, dx), y + steps(n + 1int, dy)));
    } else if m < n {
        assert(1 <= m + 1 <= n);
        assert(in_bound_spec(x + steps(m + 1int, dx), y + steps(m + 1int, dy)));
    }
}

/// The eight directions, in the order they are searched.
pub open spec fn dir(k: int) -> (int, int) {
    if k == 0 {
        (1, 0)
    } else if k == 1 {
        (-1, 0)
    } else if k == 2 {
        (0, 1)
    } else if k == 3 {
        (0, -1)
    } else if k == 4 {
        (1, 1)
    } else if k == 5 {
        (1, -1)
    } else if k == 6 {
        (-1, 1)
    } else {
        (-1, -1)
    }
}

/// The squares flipped in the first `upto` directions.
pub open spec fn flips(b: Seq<Disk>, x: int, y: int, me: Player, upto: int) -> Seq<Pos>
    decreases upto,
{
    if upto <= 0 {
        Seq::empty()
    } else {
        flips(b, x, y, me, upto - 1) + flips_towards(b, x, y, dir(upto - 1).0, dir(upto - 1).1, me)
    }
}

/// An othello position: the board and the player to move.
#[derive(Clone, Copy, Debug, PartialEq)]
pub struct Othello {
    pub next_player: Player,
    pub board: [Disk; 64],
}

impl Othello {
    /// The starting position: two disks of each colour in the centre, black
    /// to move.
    pub fn init() -> (r: Self)
        ensures
            r.next_player == Player::Black,
            forall|i: int| 0 <= i < 64 ==> #[trigger] r.board@[i] == if i == 27 || i == 36 {
                Disk::Occupied(Player::White)
            } else if i == 35 || i == 28 {
                Disk::Occupied(Player::Black)
            } else {
                Disk::Empty
            },
    {
        let mut board = [Disk::Empty; 64];
        board[pos(3, 3)] = Disk::Occupied(Player::White);
        board[pos(4, 4)] = Disk::Occupied(Player::White);
        board[pos(3, 4)] = Disk::Occupied(Player::Black);
        board[pos(4, 3)] = Disk::Occupied(Player::Black);
        Othello { next_player: Player::Black, board }
    }

    /// The disk in column `x` of row `y`.
    pub fn get(&self, x: isize, y: isize) -> (r: Disk)
        requires
            in_bound_spec(x as int, y as int),
        ensures
            r == self.board@[pos_spec(x as int, y as int)],
    {
        self.board[pos(x, y)]
    }

    /// The disk on square `p`.
    pub fn get_pos(&self, p: Pos) -> (r: Disk)
        requires
            p < DISKS,
        ensures
            r == self.board@[p as int],
    {
        let (x, y) = unpos(p);
        assert(pos_spec(x as int, y as int) == p) by (nonlinear_arith)
            requires
                x == p % 8,
                y == p / 8;
        self.get(x, y)
    }

    /// The squares a disk placed at (x, y) by the player to move flips in
    /// direction (dx, dy).
    pub fn flippable_towards(&self, from: (isize, isize), step: (isize, isize)) -> (r: Vec<Pos>)
        requires
            in_bound_spec(from.0 as int, from.1 as int),
            -1 <= step.0 <= 1,
            -1 <= step.1 <= 1,
            step.0 != 0 || step.1 != 0,
        ensures
            r@ == flips_towards(self.board@, from.0 as int, from.1 as int, step.0 as int, step.1 as int, self.next_player),
    {
        let (mut x, mut y) = from;
        let (dx, dy) = step;
        let ghost b = self.board@;
        let ghost me = self.next_player;
        let ghost x0 = from.0 as int;
        let ghost y0 = from.1 as int;
        let mut path: Vec<Pos> = Vec::new();
        let other = self.next_player.other();
        x += dx;
        y += dy;
        let ghost mut k: nat = 0;
        while in_bound(x, y) && self.get(x, y) == Disk::Occupied(other)
            invariant
                b == self.board@,
                me == self.next_player,
                other == other_spec(me),
                -1 <= dx <= 1,
                -1 <= dy <= 1,
                dx != 0 || dy != 0,
                in_bound_spec(x0, y0),
                k <= 7,
                x == x0 + steps(k + 1int, dx as int),
                y == y0 + steps(k + 1int, dy as int),
                forall|j: int| #![trigger steps(j, dx as int), steps(j, dy as int)] 1 <= j <= k ==> in_bound_spec(x0 + steps(j, dx as int), y0 + steps(j, dy as int))
                    && b[pos_spec(x0 + steps(j, dx as int), y0 + steps(j, dy as int))] == Disk::Occupied(other),
                path@ == Seq::new(k, |j: int| pos_spec(x0 + steps(j + 1, dx as int), y0 + steps(j + 1, dy as int)) as Pos),
            decreases 7 - k,
        {
            path.push(pos(x, y));
            proof {
                assert(path@ =~= Seq::new((k + 1) as nat, |j: int| pos_spec(x0 + steps(j + 1, dx as int), y0 + steps(j + 1, dy as int)) as Pos));
                k = k + 1;
                // the square `k` steps away is on the board, so `k` is at most 7
                assert(in_bound_spec(x0 + steps(k as int, dx as int), y0 + steps(k as int, dy as int)));
                assert(x + dx == x0 + steps(k + 1int, dx as int));
                assert(y + dy == y0 + steps(k + 1int, dy as int));
            }
            x += dx;
            y += dy;
        }
        proof {
            assert(run_of(b, x0, y0, dx as int, dy as int, other, k));
        }
        if in_bound(x, y) && self.get(x, y) == Disk::Occupied(self.next_player) {
            proof {
                let n = choose|n: nat| #[trigger] run_of(b, x0, y0, dx as int, dy as int, other_spec(me), n)
                    && in_bound_spec(x0 + steps(n + 1int, dx as int), y0 + steps(n + 1int, dy as int))
                    && b[pos_spec(x0 + steps(n + 1int, dx as int), y0 + steps(n + 1int, dy as int))] == Disk::Occupied(me);
                lemma_run_unique(b, x0, y0, dx as int, dy as int, other, n, k);
            }
            path
        } else {
            proof {
                if exists|n: nat| #[trigger] run_of(b, x0, y0, dx as int, dy as int, other_spec(me), n)
                    && in_bound_spec(x0 + steps(n + 1int, dx as int), y0 + steps(n + 1int, dy as int))
                    && b[pos_spec(x0 + steps(n + 1int, dx as int), y0 + steps(n + 1int, dy as int))] == Disk::Occupied(me) {
                    let n = choose|n: nat| #[trigger] run_of(b, x0, y0, dx as int, dy as int, other_spec(me), n)
                        && in_bound_spec(x0 + steps(n + 1int, dx as int), y0 + steps(n + 1int, dy as int))
                        && b[pos_spec(x0 + steps(n + 1int, dx as int), y0 + steps(n + 1int, dy as int))] == Disk::Occupied(me);
                    lemma_run_unique(b, x0, y0, dx as int, dy as int, other, n, k);
                }
            }
            Vec::new()
        }
    }
}

/// Every square the first `upto` directions flip lies on the board.
proof fn lemma_flips_on_board(b: Seq<Disk>, x: int, y: int, me: Player, upto: int)
    requires
        in_bound_spec(x, y),
    ensures
        forall|i: int| 0 <= i < flips(b, x, y, me, upto).len() ==> #[trigger] flips(b, x, y, me, upto)[i] < 64,
    decreases upto,
{
    if upto > 0 {
        lemma_flips_on_board(b, x, y, me, upto - 1);
        let (dx, dy) = dir(upto - 1);
        let t = flips_towards(b, x, y, dx, dy, me);
        let f0 = flips(b, x, y, me, upto - 1);
        assert forall|i: int| 0 <= i < t.len() implies #[trigger] t[i] < 64 by {
            let n = choose|n: nat| #[trigger] run_of(b, x, y, dx, dy, other_spec(me), n)
                && in_bound_spec(x + steps(n + 1int, dx), y + steps(n + 1int, dy))
                && b[pos_spec(x + steps(n + 1int, dx), y + steps(n + 1int, dy))] == Disk::Occupied(me);
            assert(1 <= i + 1 <= n);
            assert(in_bound_spec(x + steps(i + 1, dx), y + steps(i + 1, dy)));
        }
        assert forall|i: int| 0 <= i < flips(b, x, y, me, upto).len() implies #[trigger] flips(b, x, y, me, upto)[i] < 64 by {
            if i < f0.len() {
                assert(flips(b, x, y, me, upto)[i] == f0[i]);
            } else {
                assert(flips(b, x, y, me, upto)[i] == t[i - f0.len()]);
            }
        }
    }
}

/// The board after `me` puts disks on the squares `ps`.
pub open spec fn put_all(b: Seq<Disk>, ps: Seq<Pos>, me: Player) -> Seq<Disk> {
    Seq::new(b.len(), |i: int| if ps.contains(i as Pos) { Disk::Occupied(me) } else { b[i] })
}

/// The weight of a square in the evaluation: 5 for a corner, 3 for another
/// square on an edge, 1 otherwise.
pub open spec fn weight(p: int) -> int {
    if (p % 8 == 0 || p % 8 == 7) && (p / 8 == 0 || p / 8 == 7) {
        5
    } else if p % 8 == 0 || p / 8 == 0 || p % 8 == 7 || p / 8 == 7 {
        3
    } else {
        1
    }
}

/// The weighted count of black disks less that of white disks among the first
/// `upto` squares.
pub open spec fn balance(b: Seq<Disk>, upto: int) -> int
    decreases upto,
{
    if upto <= 0 {
        0
    } else {
        balance(b, upto - 1) + match b[upto - 1] {
            Disk::Occupied(Player::Black) => weight(upto - 1),
            Disk::Occupied(Player::White) => -weight(upto - 1),
            Disk::Empty => 0,
        }
    }
}

proof fn lemma_balance_bound(b: Seq<Disk>, upto: int)
    ensures
        -5 * upto <= balance(b, upto) <= 5 * upto || upto < 0,
    decreases upto,
{
    if upto > 0 {
        lemma_balance_bound(b, upto - 1);
    }
}

/// The column and row of the `i`-th character of a drawing of the board, one
/// row per line.
pub open spec fn col_row(cs: Seq<char>, i: int) -> (int, int)
    decreases i,
{
    if i <= 0 {
        (0, 0)
    } else {
        let (x, y) = col_row(cs, i - 1);
        if cs[i - 1] == '\n' { (0, y + 1) } else { (x + 1, y) }
    }
}

/// The board that the first `i` characters of a drawing draw on an empty
/// board.
pub open spec fn drawn(cs: Seq<char>, i: int) -> Seq<Disk>
    decreases i,
{
    if i <= 0 {
        Seq::new(64, |k: int| Disk::Empty)
    } else {
        let b = drawn(cs, i - 1);
        if cs[i - 1] == '\n' {
            b
        } else {
            let (x, y) = col_row(cs, i - 1);
            b.update(pos_spec(x, y), char_disk(cs[i - 1]).unwrap())
        }
    }
}

/// The drawing has at most eight lines of at most eight characters that
/// stand for disks.
pub open spec fn drawing_fits(cs: Seq<char>) -> bool {
    &&& forall|i: int| 0 <= i < cs.len() && cs[i] != '\n' ==> #[trigger] char_disk(cs[i]) is Some
        && col_row(cs, i).0 < 8 && col_row(cs, i).1 < 8
    &&& forall|i: int| 0 <= i < cs.len() && cs[i] == '\n' ==> #[trigger] col_row(cs, i).1 < 8
}

proof fn lemma_col_row_nonneg(cs: Seq<char>, i: int)
    ensures
        col_row(cs, i).0 >= 0,
        col_row(cs, i).1 >= 0,
    decreases i,
{
    if i > 0 {
        lemma_col_row_nonneg(cs, i - 1);
    }
}

proof fn lemma_drawn_len(cs: Seq<char>, i: int)
    requires
        drawing_fits(cs),
        i <= cs.len(),
    ensures
        drawn(cs, i).len() == 64,
    decreases i,
{
    if i > 0 {
        lemma_drawn_len(cs, i - 1);
        lemma_col_row_nonneg(cs, i - 1);
        if cs[i - 1] != '\n' {
            assert(char_disk(cs[i - 1]) is Some);
        }
    }
}

impl Othello {
    /// The position drawn by `s`, row by row, one line per row (see
    /// `char_disk`), with `next_player` to move.
    pub fn parse(s: &str, next_player: Player) -> (r: Self)
        requires
            drawing_fits(s@),
        ensures
            r.next_player == next_player,
            r.board@ == drawn(s@, s@.len() as int),
    {
        let ghost cs = s@;
        let n = s.unicode_len();
        let mut board = [Disk::Empty; 64];
        let mut x: usize = 0;
        let mut y: usize = 0;
        let mut i: usize = 0;
        assert(board@ =~= drawn(cs, 0));
        while i < n
            invariant
                cs == s@,
                n == cs.len(),
                i <= n,
                drawing_fits(cs),
                (x as int, y as int) == col_row(cs, i as int),
                board@ == drawn(cs, i as int),
            decreases n - i,
        {
            let c = s.get_char(i);
            proof {
                lemma_col_row_nonneg(cs, i as int);
                lemma_drawn_len(cs, i as int);
            }
            if c == '\n' {
                assert(col_row(cs, i as int).1 < 8);
                x = 0;
                y += 1;
            } else {
                assert(char_disk(cs[i as int]) is Some);
                match Disk::try_from(c) {
                    Ok(d) => {
                        board[pos(x as isize, y as isize)] = d;
                    },
                    Err(_) => {},
                }
                x += 1;
            }
            i += 1;
        }
        Othello { board, next_player }
    }

    /// The squares a disk placed on `placed` by the player to move flips, in
    /// all eight directions.
    pub fn flippable(&self, placed: Pos) -> (r: Vec<Pos>)
        requires
            placed < DISKS,
        ensures
            r@ == flips(self.board@, placed as int % 8, placed as int / 8, self.next_player, 8),
    {
        let dirs: [(isize, isize); 8] = [(1, 0), (-1, 0), (0, 1), (0, -1), (1, 1), (1, -1), (-1, 1), (-1, -1)];
        let (x, y) = unpos(placed);
        let ghost b = self.board@;
        let mut r: Vec<Pos> = Vec::new();
        let mut k: usize = 0;
        while k < 8
            invariant
                k <= 8,
                b == self.board@,
                x == placed % 8,
                y == placed / 8,
                placed < 64,
                forall|j: int| 0 <= j < 8 ==> #[trigger] dirs@[j] == (dir(j).0 as isize, dir(j).1 as isize),
                r@ == flips(b, x as int, y as int, self.next_player, k as int),
            decreases 8 - k,
        {
            let d = dirs[k];
            assert(dirs@[k as int] == d);
            let part = self.flippable_towards((x, y), d);
            let ghost before = r@;
            let mut j: usize = 0;
            while j < part.len()
                invariant
                    j <= part@.len(),
                    r@ == before + part@.subrange(0, j as int),
                decreases part.len() - j,
            {
                r.push(part[j]);
                assert(part@.subrange(0, j + 1) =~= part@.subrange(0, j as int).push(part@[j as int]));
                j += 1;
            }
            assert(part@.subrange(0, part@.len() as int) =~= part@);
            k += 1;
        }
        r
    }

    /// Whether the player to move may place a disk on `placed`: it flips some
    /// disk.
    pub fn valid(&self, placed: Pos) -> (r: bool)
        requires
            placed < DISKS,
        ensures
            r == (flips(self.board@, placed as int % 8, placed as int / 8, self.next_player, 8).len() > 0),
    {
        self.flippable(placed).len() > 0
    }

    /// The position after the player to move places a disk on `placed`: the
    /// disks it flips and the placed one become the player's, and the other
    /// player moves next.
    pub fn place(&self, placed: Pos) -> (r: Self)
        requires
            placed < DISKS,
            flips(self.board@, placed as int % 8, placed as int / 8, self.next_player, 8).len() > 0,
        ensures
            r.next_player == other_spec(self.next_player),
            r.board@ == put_all(self.board@, flips(self.board@, placed as int % 8, placed as int / 8, self.next_player, 8).push(placed), self.next_player),
    {
        let ghost b = self.board@;
        let ghost me = self.next_player;
        let mut flipped = self.flippable(placed);
        flipped.push(placed);
        proof {
            lemma_flips_on_board(b, placed as int % 8, placed as int / 8, me, 8);
        }
        let mut board = self.board;
        let mut k: usize = 0;
        while k < flipped.len()
            invariant
                k <= flipped@.len(),
                forall|i: int| 0 <= i < flipped@.len() ==> #[trigger] flipped@[i] < 64,
                me == self.next_player,
                board@.len() == 64,
                forall|i: int| 0 <= i < 64 ==> #[trigger] board@[i] == if flipped@.subrange(0, k as int).contains(i as Pos) {
                    Disk::Occupied(me)
                } else {
                    b[i]
                },
            decreases flipped.len() - k,
        {
            let p = flipped[k];
            board[p] = Disk::Occupied(self.next_player);
            proof {
                let done = flipped@.subrange(0, k + 1);
                assert(done =~= flipped@.subrange(0, k as int).push(p));
                assert forall|i: int| 0 <= i < 64 implies #[trigger] board@[i] == if done.contains(i as Pos) {
                    Disk::Occupied(me)
                } else {
                    b[i]
                } by {
                    if i == p as int {
                        assert(done[k as int] == p);
                    } else {
                        if flipped@.subrange(0, k as int).contains(i as Pos) {
                            let m = choose|m: int| 0 <= m < k && flipped@.subrange(0, k as int)[m] == i as Pos;
                            assert(done[m] == i as Pos);
                        }
                        if done.contains(i as Pos) {
                            let m = choose|m: int| 0 <= m < done.len() && done[m] == i as Pos;
                            assert(flipped@.subrange(0, k as int)[m] == i as Pos);
                        }
                    }
                }
            }
            k += 1;
        }
        let r = Othello { next_player: self.next_player.other(), board };
        assert(flipped@.subrange(0, flipped@.len() as int) =~= flipped@);
        assert(r.board@ =~= put_all(b, flipped@, me));
        r
    }
}

/// A move: pass, or place a disk on a square.
#[derive(Debug, Clone, Copy, PartialEq, Eq, Structural)]
pub enum Move {
    Pass,
    Place(Pos),
}

/// An othello position searched to a depth limit.
pub struct OthelloEnv {
    pub othello: Othello,
    pub depth_limit: u32,
}

impl OthelloEnv {
    /// The starting position, to be searched `depth_limit` moves deep.
    pub fn init(depth_limit: u32) -> (r: Self)
        ensures
            r.depth_limit == depth_limit,
            r.othello.next_player == Player::Black,
    {
        OthelloEnv { othello: Othello::init(), depth_limit }
    }

    /// The squares, in increasing order, where the player to move may place a
    /// disk; a pass when there is none.
    pub fn actions(&self) -> (r: Vec<Move>)
        ensures
            r@.len() > 0,
            r@ == seq![Move::Pass] || forall|k: int| 0 <= k < r@.len() ==> (#[trigger] r@[k] matches Move::Place(p)
                && p < 64 && self.othello.board@[p as int] == Disk::Empty
                && flips(self.othello.board@, p as int % 8, p as int / 8, self.othello.next_player, 8).len() > 0),
            forall|p: int| 0 <= p < 64 && self.othello.board@[p] == Disk::Empty
                && flips(self.othello.board@, p % 8, p / 8, self.othello.next_player, 8).len() > 0
                ==> r@.contains(Move::Place(p as Pos)),
    {
        let mut moves: Vec<Move> = Vec::new();
        let mut p: usize = 0;
        while p < DISKS
            invariant
                p <= 64,
                forall|k: int| 0 <= k < moves@.len() ==> (#[trigger] moves@[k] matches Move::Place(q)
                    && q < p && self.othello.board@[q as int] == Disk::Empty
                    && flips(self.othello.board@, q as int % 8, q as int / 8, self.othello.next_player, 8).len() > 0),
                forall|q: int| 0 <= q < p && self.othello.board@[q] == Disk::Empty
                    && flips(self.othello.board@, q % 8, q / 8, self.othello.next_player, 8).len() > 0
                    ==> moves@.contains(Move::Place(q as Pos)),
            decreases 64 - p,
        {
            if self.othello.get_pos(p) == Disk::Empty && self.othello.valid(p) {
                let ghost before = moves@;
                moves.push(Move::Place(p));
                proof {
                    assert forall|q: int| 0 <= q < p + 1 && self.othello.board@[q] == Disk::Empty
                        && flips(self.othello.board@, q % 8, q / 8, self.othello.next_player, 8).len() > 0
                        implies moves@.contains(Move::Place(q as Pos)) by {
                        if q < p {
                            let m = choose|m: int| 0 <= m < before.len() && before[m] == Move::Place(q as Pos);
                            assert(moves@[m] == Move::Place(q as Pos));
                        } else {
                            assert(moves@[moves@.len() - 1] == Move::Place(q as Pos));
                        }
                    }
                }
            }
            p += 1;
        }
        if moves.len() == 0 {
            moves.push(Move::Pass);
            assert(moves@ =~= seq![Move::Pass]);
        }
        moves
    }

    /// The position after `action`, one move less deep.
    pub fn result(&self, action: Move) -> (r: Self)
        requires
            self.depth_limit > 0,
            action matches Move::Place(p) ==> p < 64
                && flips(self.othello.board@, p as int % 8, p as int / 8, self.othello.next_player, 8).len() > 0,
        ensures
            r.depth_limit == self.depth_limit - 1,
            r.othello.next_player == other_spec(self.othello.next_player),
            action is Pass ==> r.othello.board@ == self.othello.board@,
            action matches Move::Place(p) ==> r.othello.board@ == put_all(self.othello.board@,
                flips(self.othello.board@, p as int % 8, p as int / 8, self.othello.next_player, 8).push(p), self.othello.next_player),
    {
        let othello = match action {
            Move::Pass => Othello { next_player: self.othello.next_player.other(), board: self.othello.board },
            Move::Place(p) => self.othello.place(p),
        };
        OthelloEnv { othello, depth_limit: self.depth_limit - 1 }
    }

    /// At the depth limit, the weighted count of black disks less that of
    /// white disks (see `weight`); `None` above it.
    pub fn utility(&self) -> (r: Option<i32>)
        ensures
            self.depth_limit > 0 ==> r is None,
            self.depth_limit == 0 ==> r == Some(balance(self.othello.board@, 64) as i32),
    {
        if self.depth_limit > 0 {
            return None;
        }
        let ghost b = self.othello.board@;
        let mut black_eval: i32 = 0;
        let mut white_eval: i32 = 0;
        let mut i: usize = 0;
        while i < DISKS
            invariant
                i <= 64,
                b == self.othello.board@,
                0 <= black_eval <= 5 * i,
                0 <= white_eval <= 5 * i,
                black_eval - white_eval == balance(b, i as int),
            decreases 64 - i,
        {
            let eval: i32 = if corners(i) {
                5
            } else if sides(i) {
                3
            } else {
                1
            };
            assert(eval == weight(i as int));
            match self.othello.board[i] {
                Disk::Occupied(Player::Black) => black_eval += eval,
                Disk::Occupied(Player::White) => white_eval += eval,
                Disk::Empty => {},
            }
            i += 1;
        }
        Some(black_eval - white_eval)
    }
}

} // verus!

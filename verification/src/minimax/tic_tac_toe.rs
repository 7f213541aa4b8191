use vstd::prelude::*;
use crate::strings::push_char;

verus! {

/// What a square of the board holds.
#[derive(Clone, Copy, PartialEq, Eq, Structural, Debug)]
pub enum Piece {
    X,
    O,
    Empty,
}

/// The character a piece is drawn with.
pub open spec fn piece_char(p: Piece) -> char {
    match p {
        Piece::X => 'x',
        Piece::O => 'o',
        Piece::Empty => '.',
    }
}

/// The piece a character stands for, if any.
pub open spec fn char_piece(c: char) -> Option<Piece> {
    if c == 'x' || c == 'X' {
        Some(Piece::X)
    } else if c == 'o' || c == 'O' {
        Some(Piece::O)
    } else if c == '.' || c == ' ' {
        Some(Piece::Empty)
    } else {
        None
    }
}

impl Piece {
    /// The character the piece is drawn with.
    pub fn char(self) -> (r: char)
        ensures
            r == piece_char(self),
    {
        match self {
            Piece::X => 'x',
            Piece::O => 'o',
            Piece::Empty => '.',
        }
    }

    /// The piece that `c` stands for: `x`/`X`, `o`/`O`, and `.` or a space
    /// for an empty square.
    pub fn try_from(c: char) -> (r: Result<Piece, &'static str>)
        ensures
            r matches Ok(p) ==> char_piece(c) == Some(p),
            r is Err <==> char_piece(c) is None,
    {
        if c == 'x' || c == 'X' {
            Ok(Piece::X)
        } else if c == 'o' || c == 'O' {
            Ok(Piece::O)
        } else if c == '.' || c == ' ' {
            Ok(Piece::Empty)
        } else {
            Err("TryFrom<char> for Piece: invalid character for pieces")
        }
    }
}

/// The three squares of line `k`: rows, then columns, then diagonals.
pub open spec fn line(k: int) -> (int, int, int) {
    if k == 0 {
        (0, 1, 2)
    } else if k == 1 {
        (3, 4, 5)
    } else if k == 2 {
        (6, 7, 8)
    } else if k == 3 {
        (0, 3, 6)
    } else if k == 4 {
        (1, 4, 7)
    } else if k == 5 {
        (2, 5, 8)
    } else if k == 6 {
        (0, 4, 8)
    } else {
        (2, 4, 6)
    }
}

/// The number of `p` pieces on line `k`.
pub open spec fn on_line(b: Seq<Piece>, k: int, p: Piece) -> int {
    let (i, j, l) = line(k);
    (if b[i] == p { 1int } else { 0int }) + (if b[j] == p { 1int } else { 0int }) + (if b[l] == p { 1int } else { 0int })
}

/// The opponent's piece.
pub open spec fn opponent(p: Piece) -> Piece {
    if p == Piece::X { Piece::O } else { Piece::X }
}

/// Among the first `upto` lines, those holding exactly `n` pieces `p` and
/// none of the opponent's.
pub open spec fn unblocked_lines(b: Seq<Piece>, p: Piece, n: int, upto: int) -> int
    decreases upto,
{
    if upto <= 0 {
        0
    } else {
        unblocked_lines(b, p, n, upto - 1) + if on_line(b, upto - 1, p) == n && on_line(b, upto - 1, opponent(p)) == 0 {
            1int
        } else {
            0int
        }
    }
}

/// The number of squares among the first `upto` that hold `p`.
pub open spec fn count_pieces(b: Seq<Piece>, p: Piece, upto: int) -> int
    decreases upto,
{
    if upto <= 0 {
        0
    } else {
        count_pieces(b, p, upto - 1) + if b[upto - 1] == p { 1int } else { 0int }
    }
}

proof fn lemma_unblocked_bounds(b: Seq<Piece>, p: Piece, n: int, upto: int)
    ensures
        0 <= unblocked_lines(b, p, n, upto) <= if upto < 0 { 0 } else { upto },
    decreases upto,
{
    if upto > 0 {
        lemma_unblocked_bounds(b, p, n, upto - 1);
    }
}

proof fn lemma_count_bounds(b: Seq<Piece>, p: Piece, upto: int)
    ensures
        0 <= count_pieces(b, p, upto) <= if upto < 0 { 0 } else { upto },
    decreases upto,
{
    if upto > 0 {
        lemma_count_bounds(b, p, upto - 1);
    }
}

/// A tic-tac-toe position: squares 0 to 8, row by row.
pub struct TicTacToe {
    pieces: [Piece; 9],
}

impl View for TicTacToe {
    type V = Seq<Piece>;

    closed spec fn view(&self) -> Seq<Piece> {
        self.pieces@
    }
}

impl TicTacToe {
    /// The numbers of lines open to X with one, two and three X pieces, and
    /// the same for O.
    pub open spec fn unblocked_spec(&self) -> ((int, int, int), (int, int, int)) {
        let b = self@;
        (
            (unblocked_lines(b, Piece::X, 1, 8), unblocked_lines(b, Piece::X, 2, 8), unblocked_lines(b, Piece::X, 3, 8)),
            (unblocked_lines(b, Piece::O, 1, 8), unblocked_lines(b, Piece::O, 2, 8), unblocked_lines(b, Piece::O, 3, 8)),
        )
    }

    /// The piece whose turn it is: X moves first, and O when X has more
    /// pieces on the board.
    pub open spec fn next_spec(&self) -> Piece {
        if count_pieces(self@, Piece::X, 9) > count_pieces(self@, Piece::O, 9) {
            Piece::O
        } else {
            Piece::X
        }
    }

    /// `Some(1)` when X has a line, else `Some(-1)` when O has one, else
    /// `Some(0)` when the board is full, else `None`.
    pub open spec fn utility_spec(&self) -> Option<i32> {
        let ((_, _, x3), (_, _, o3)) = self.unblocked_spec();
        if x3 >= 1 {
            Some(1i32)
        } else if o3 >= 1 {
            Some(-1i32)
        } else if count_pieces(self@, Piece::Empty, 9) == 0 {
            Some(0i32)
        } else {
            None
        }
    }

    /// The empty board.
    pub fn init() -> (r: Self)
        ensures
            r@ == Seq::new(9, |i: int| Piece::Empty),
    {
        let r = TicTacToe { pieces: [Piece::Empty; 9] };
        assert(r@ =~= Seq::new(9, |i: int| Piece::Empty));
        r
    }

    /// The board that `s` draws row by row with one character per square
    /// (see `Piece::try_from`).
    pub fn parse(s: &str) -> (r: Self)
        requires
            s@.len() == 9,
            forall|i: int| 0 <= i < 9 ==> #[trigger] char_piece(s@[i]) is Some,
        ensures
            forall|i: int| 0 <= i < 9 ==> Some(#[trigger] r@[i]) == char_piece(s@[i]),
    {
        let mut pieces = [Piece::Empty; 9];
        let mut i: usize = 0;
        while i < 9
            invariant
                i <= 9,
                s@.len() == 9,
                forall|k: int| 0 <= k < 9 ==> #[trigger] char_piece(s@[k]) is Some,
                forall|k: int| 0 <= k < i ==> Some(#[trigger] pieces@[k]) == char_piece(s@[k]),
            decreases 9 - i,
        {
            let c = s.get_char(i);
            match Piece::try_from(c) {
                Ok(p) => {
                    pieces[i] = p;
                },
                Err(_) => {
                    assert(char_piece(s@[i as int]) is Some);
                },
            }
            i += 1;
        }
        TicTacToe { pieces }
    }

    fn count_on_line(&self, a: usize, b: usize, c: usize, p: Piece) -> (r: i32)
        requires
            a < 9 && b < 9 && c < 9,
        ensures
            r == (if self@[a as int] == p { 1int } else { 0int }) + (if self@[b as int] == p { 1int } else { 0int })
                + (if self@[c as int] == p { 1int } else { 0int }),
    {
        let mut n: i32 = 0;
        if self.pieces[a] == p {
            n += 1;
        }
        if self.pieces[b] == p {
            n += 1;
        }
        if self.pieces[c] == p {
            n += 1;
        }
        n
    }

    /// For each player, the numbers of lines without an opposing piece that
    /// hold one, two and three of its own.
    pub fn unblocked(&self) -> (r: ((i32, i32, i32), (i32, i32, i32)))
        ensures
            ((r.0.0 as int, r.0.1 as int, r.0.2 as int), (r.1.0 as int, r.1.1 as int, r.1.2 as int)) == self.unblocked_spec(),
    {
        let lines: [(usize, usize, usize); 8] = [
            (0, 1, 2),
            (3, 4, 5),
            (6, 7, 8),
            (0, 3, 6),
            (1, 4, 7),
            (2, 5, 8),
            (0, 4, 8),
            (2, 4, 6),
        ];
        let ghost b = self@;
        let mut x1: i32 = 0;
        let mut x2: i32 = 0;
        let mut x3: i32 = 0;
        let mut o1: i32 = 0;
        let mut o2: i32 = 0;
        let mut o3: i32 = 0;
        let mut k: usize = 0;
        while k < 8
            invariant
                k <= 8,
                b == self@,
                forall|j: int| 0 <= j < 8 ==> #[trigger] lines@[j] == (line(j).0 as usize, line(j).1 as usize, line(j).2 as usize),
                x1 == unblocked_lines(b, Piece::X, 1, k as int),
                x2 == unblocked_lines(b, Piece::X, 2, k as int),
                x3 == unblocked_lines(b, Piece::X, 3, k as int),
                o1 == unblocked_lines(b, Piece::O, 1, k as int),
                o2 == unblocked_lines(b, Piece::O, 2, k as int),
                o3 == unblocked_lines(b, Piece::O, 3, k as int),
            decreases 8 - k,
        {
            proof {
                lemma_unblocked_bounds(b, Piece::X, 1, k as int);
                lemma_unblocked_bounds(b, Piece::X, 2, k as int);
                lemma_unblocked_bounds(b, Piece::X, 3, k as int);
                lemma_unblocked_bounds(b, Piece::O, 1, k as int);
                lemma_unblocked_bounds(b, Piece::O, 2, k as int);
                lemma_unblocked_bounds(b, Piece::O, 3, k as int);
            }
            let (a, m, c) = lines[k];
            assert(lines@[k as int] == (line(k as int).0 as usize, line(k as int).1 as usize, line(k as int).2 as usize));
            let xs = self.count_on_line(a, m, c, Piece::X);
            let os = self.count_on_line(a, m, c, Piece::O);
            assert(xs == on_line(b, k as int, Piece::X));
            assert(os == on_line(b, k as int, Piece::O));
            if os == 0 {
                if xs == 1 {
                    x1 += 1;
                } else if xs == 2 {
                    x2 += 1;
                } else if xs == 3 {
                    x3 += 1;
                }
            }
            if xs == 0 {
                if os == 1 {
                    o1 += 1;
                } else if os == 2 {
                    o2 += 1;
                } else if os == 3 {
                    o3 += 1;
                }
            }
            k += 1;
        }
        ((x1, x2, x3), (o1, o2, o3))
    }

    /// The heuristic value of the position for X: one point per line open to
    /// X with one X, three per line with two, minus the same for O.
    pub fn evaluate(&self) -> (r: i32)
        ensures
            ({
                let ((x1, x2, _), (o1, o2, _)) = self.unblocked_spec();
                r == x1 + 3 * x2 - (o1 + 3 * o2)
            }),
    {
        let ((x1, x2, _), (o1, o2, _)) = self.unblocked();
        proof {
            let b = self@;
            lemma_unblocked_bounds(b, Piece::X, 1, 8);
            lemma_unblocked_bounds(b, Piece::X, 2, 8);
            lemma_unblocked_bounds(b, Piece::O, 1, 8);
            lemma_unblocked_bounds(b, Piece::O, 2, 8);
        }
        x1 + 3 * x2 - (o1 + 3 * o2)
    }

    fn count(&self, p: Piece) -> (r: usize)
        ensures
            r == count_pieces(self@, p, 9),
    {
        let mut n: usize = 0;
        let mut i: usize = 0;
        while i < 9
            invariant
                i <= 9,
                n == count_pieces(self@, p, i as int),
            decreases 9 - i,
        {
            proof {
                lemma_count_bounds(self@, p, i as int);
            }
            if self.pieces[i] == p {
                n += 1;
            }
            i += 1;
        }
        n
    }

    /// The piece to be placed next: O when there are more X pieces than O
    /// pieces on the board, else X.
    pub fn next_piece(&self) -> (r: Piece)
        ensures
            r == self.next_spec(),
    {
        let xs = self.count(Piece::X);
        let os = self.count(Piece::O);
        if xs > os {
            Piece::O
        } else {
            Piece::X
        }
    }

    /// Whether no square is empty.
    pub fn filled(&self) -> (r: bool)
        ensures
            r == (count_pieces(self@, Piece::Empty, 9) == 0),
    {
        self.count(Piece::Empty) == 0
    }

    /// The empty squares, in increasing order.
    pub fn actions(&self) -> (r: Vec<usize>)
        ensures
            forall|k: int| 0 <= k < r@.len() ==> #[trigger] r@[k] < 9 && self@[r@[k] as int] == Piece::Empty,
            forall|i: int| 0 <= i < 9 && self@[i] == Piece::Empty ==> r@.contains(i as usize),
            forall|a: int, c: int| 0 <= a < c < r@.len() ==> r@[a] < r@[c],
    {
        let mut r: Vec<usize> = Vec::new();
        let mut i: usize = 0;
        while i < 9
            invariant
                i <= 9,
                forall|k: int| 0 <= k < r@.len() ==> #[trigger] r@[k] < i && self@[r@[k] as int] == Piece::Empty,
                forall|j: int| 0 <= j < i && self@[j] == Piece::Empty ==> r@.contains(j as usize),
                forall|a: int, c: int| 0 <= a < c < r@.len() ==> r@[a] < r@[c],
            decreases 9 - i,
        {
            if self.pieces[i] == Piece::Empty {
                let ghost before = r@;
                r.push(i);
                proof {
                    assert forall|j: int| 0 <= j <= i && self@[j] == Piece::Empty implies r@.contains(j as usize) by {
                        if j < i {
                            assert(before.contains(j as usize));
                            let k = choose|k: int| 0 <= k < before.len() && before[k] == j as usize;
                            assert(r@[k] == j as usize);
                        } else {
                            assert(r@[r@.len() - 1] == i);
                        }
                    }
                }
            }
            i += 1;
        }
        r
    }

    /// The position after the player to move puts its piece on square
    /// `action`.
    pub fn result(&self, action: usize) -> (r: Self)
        requires
            action < 9,
        ensures
            r@ == self@.update(action as int, self.next_spec()),
    {
        let mut pieces = self.pieces;
        pieces[action] = self.next_piece();
        TicTacToe { pieces }
    }

    /// The outcome of a finished game for X: 1 for a win, -1 for a loss, 0
    /// for a draw; `None` while the game goes on.
    pub fn utility(&self) -> (r: Option<i32>)
        ensures
            r == self.utility_spec(),
    {
        let ((_, _, x3), (_, _, o3)) = self.unblocked();
        if x3 >= 1 {
            Some(1)
        } else if o3 >= 1 {
            Some(-1)
        } else if self.filled() {
            Some(0)
        } else {
            None
        }
    }

    /// The piece on square `i`.
    pub fn piece(&self, i: usize) -> (r: Piece)
        requires
            i < 9,
        ensures
            r == self@[i as int],
    {
        self.pieces[i]
    }

    /// The board drawn as its three rows of pieces, separated by slashes.
    pub fn text(&self) -> (r: String)
        ensures
            r@ == board_text(self@),
    {
        let mut r = String::new();
        let mut i: usize = 0;
        while i < 9
            invariant
                i <= 9,
                self@.len() == 9,
                r@ == board_text_upto(self@, i as int),
            decreases 9 - i,
        {
            if i == 3 || i == 6 {
                push_char(&mut r, '/');
            }
            push_char(&mut r, self.pieces[i].char());
            i += 1;
        }
        r
    }
}

/// The first `n` squares of the board drawn row by row, a slash before the
/// start of each row but the first.
pub open spec fn board_text_upto(b: Seq<Piece>, n: int) -> Seq<char>
    decreases n,
{
    if n <= 0 {
        Seq::empty()
    } else {
        let before = board_text_upto(b, n - 1);
        let sep = if n - 1 == 3 || n - 1 == 6 { before.push('/') } else { before };
        sep.push(piece_char(b[n - 1]))
    }
}

/// Some row, column or diagonal of board `b` holds three `p` pieces.
pub open spec fn three_in_a_row(b: Seq<Piece>, p: Piece) -> bool {
    ||| (b[0] == p && b[1] == p && b[2] == p)
    ||| (b[3] == p && b[4] == p && b[5] == p)
    ||| (b[6] == p && b[7] == p && b[8] == p)
    ||| (b[0] == p && b[3] == p && b[6] == p)
    ||| (b[1] == p && b[4] == p && b[7] == p)
    ||| (b[2] == p && b[5] == p && b[8] == p)
    ||| (b[0] == p && b[4] == p && b[8] == p)
    ||| (b[2] == p && b[4] == p && b[6] == p)
}

/// Every square of board `b` holds a piece.
pub open spec fn board_full(b: Seq<Piece>) -> bool {
    forall|i: int| 0 <= i < 9 ==> #[trigger] b[i] != Piece::Empty
}

/// A line full of `p` pieces is counted among the lines `p` holds three of.
proof fn lemma_full_line_counted(b: Seq<Piece>, p: Piece, m: int, upto: int)
    requires
        0 <= m < upto <= 8,
        on_line(b, m, p) == 3,
        on_line(b, m, opponent(p)) == 0,
    ensures
        unblocked_lines(b, p, 3, upto) >= 1,
    decreases upto,
{
    lemma_unblocked_bounds(b, p, 3, upto - 1);
    if m < upto - 1 {
        lemma_full_line_counted(b, p, m, upto - 1);
    }
}

/// No line holding three `p` pieces means none is counted.
proof fn lemma_no_line_uncounted(b: Seq<Piece>, p: Piece, upto: int)
    requires
        0 <= upto <= 8,
        p != Piece::Empty,
        !three_in_a_row(b, p),
    ensures
        unblocked_lines(b, p, 3, upto) == 0,
    decreases upto,
{
    if upto > 0 {
        lemma_no_line_uncounted(b, p, upto - 1);
        let m = upto - 1;
        assert(on_line(b, m, p) != 3);
    }
}

/// The board is full exactly when no square is empty.
proof fn lemma_full_count(b: Seq<Piece>, upto: int)
    requires
        0 <= upto <= 9,
    ensures
        (count_pieces(b, Piece::Empty, upto) == 0) == (forall|i: int| 0 <= i < upto ==> #[trigger] b[i] != Piece::Empty),
    decreases upto,
{
    if upto > 0 {
        lemma_full_count(b, upto - 1);
        lemma_count_bounds(b, Piece::Empty, upto - 1);
    }
}

/// X wins as soon as it holds a whole row, column or diagonal, whether or
/// not the board is full and whatever O holds.
pub proof fn law_three_x_win(t: TicTacToe)
    requires
        three_in_a_row(t@, Piece::X),
    ensures
        t.utility_spec() == Some(1i32),
{
    let b = t@;
    let m: int = if b[0] == Piece::X && b[1] == Piece::X && b[2] == Piece::X {
        0
    } else if b[3] == Piece::X && b[4] == Piece::X && b[5] == Piece::X {
        1
    } else if b[6] == Piece::X && b[7] == Piece::X && b[8] == Piece::X {
        2
    } else if b[0] == Piece::X && b[3] == Piece::X && b[6] == Piece::X {
        3
    } else if b[1] == Piece::X && b[4] == Piece::X && b[7] == Piece::X {
        4
    } else if b[2] == Piece::X && b[5] == Piece::X && b[8] == Piece::X {
        5
    } else if b[0] == Piece::X && b[4] == Piece::X && b[8] == Piece::X {
        6
    } else {
        7
    };
    lemma_full_line_counted(b, Piece::X, m, 8);
}

/// O wins when it holds a whole row, column or diagonal and X holds none.
pub proof fn law_three_o_win(t: TicTacToe)
    requires
        three_in_a_row(t@, Piece::O),
        !three_in_a_row(t@, Piece::X),
    ensures
        t.utility_spec() == Some(-1i32),
{
    let b = t@;
    lemma_no_line_uncounted(b, Piece::X, 8);
    let m: int = if b[0] == Piece::O && b[1] == Piece::O && b[2] == Piece::O {
        0
    } else if b[3] == Piece::O && b[4] == Piece::O && b[5] == Piece::O {
        1
    } else if b[6] == Piece::O && b[7] == Piece::O && b[8] == Piece::O {
        2
    } else if b[0] == Piece::O && b[3] == Piece::O && b[6] == Piece::O {
        3
    } else if b[1] == Piece::O && b[4] == Piece::O && b[7] == Piece::O {
        4
    } else if b[2] == Piece::O && b[5] == Piece::O && b[8] == Piece::O {
        5
    } else if b[0] == Piece::O && b[4] == Piece::O && b[8] == Piece::O {
        6
    } else {
        7
    };
    lemma_full_line_counted(b, Piece::O, m, 8);
}

/// Without a line of three for either side the game is a draw when the
/// board is full, and goes on otherwise.
pub proof fn law_no_line(t: TicTacToe)
    requires
        !three_in_a_row(t@, Piece::X),
        !three_in_a_row(t@, Piece::O),
    ensures
        board_full(t@) ==> t.utility_spec() == Some(0i32),
        !board_full(t@) ==> t.utility_spec() is None,
{
    let b = t@;
    lemma_no_line_uncounted(b, Piece::X, 8);
    lemma_no_line_uncounted(b, Piece::O, 8);
    lemma_full_count(b, 9);
}

/// The board drawn as its three rows of pieces, separated by slashes.
pub open spec fn board_text(b: Seq<Piece>) -> Seq<char> {
    board_text_upto(b, 9)
}

} // verus!

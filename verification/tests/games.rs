use aima::minimax::tic_tac_toe::{Piece, TicTacToe};
use aima::mdp::worlds::simple_game::{Board, Goto, Players};
use aima::mdp::worlds::three_states::{Move, OTT};
use aima::mdp::worlds::two_terminals::{Dir, Pos};
use aima::mdp::Player;

#[test]
fn tic_tac_toe_init_and_parse() {
    let init = TicTacToe::init();
    for i in 0..9 {
        assert_eq!(init.piece(i), Piece::Empty);
    }
    assert_eq!(init.next_piece(), Piece::X);
    assert_eq!(init.utility(), None);
    assert_eq!(init.evaluate(), 0);
    assert_eq!(init.actions(), (0..9).collect::<Vec<usize>>());

    let board = TicTacToe::parse("xo.X O..x");
    assert_eq!(board.piece(0), Piece::X);
    assert_eq!(board.piece(1), Piece::O);
    assert_eq!(board.piece(2), Piece::Empty);
    assert_eq!(board.piece(3), Piece::X);
    assert_eq!(board.piece(4), Piece::Empty);
    assert_eq!(board.piece(5), Piece::O);
    assert_eq!(board.piece(8), Piece::X);
    assert_eq!(board.actions(), vec![2, 4, 6, 7]);
}

#[test]
fn tic_tac_toe_evaluation() {
    // x in the centre: four open lines with one x
    let board = TicTacToe::parse("....x....");
    assert_eq!(board.unblocked(), ((4, 0, 0), (0, 0, 0)));
    assert_eq!(board.evaluate(), 4);
    assert_eq!(board.next_piece(), Piece::O);
    // o in a corner blocks two of them
    let board = board.result(0);
    assert_eq!(board.piece(0), Piece::O);
    assert_eq!(board.unblocked(), ((3, 0, 0), (2, 0, 0)));
    assert_eq!(board.evaluate(), 1);
    // x x . on the top row, o o . below it
    let board = TicTacToe::parse("xx.oo....");
    assert_eq!(board.unblocked(), ((0, 1, 0), (1, 1, 0)));
    assert_eq!(board.evaluate(), -1);
}

#[test]
fn tic_tac_toe_utility() {
    assert_eq!(TicTacToe::parse("xxxoo....").utility(), Some(1));
    assert_eq!(TicTacToe::parse("ooox.x.x.").utility(), Some(-1));
    assert_eq!(TicTacToe::parse("xoxxoooxx").utility(), Some(0));
    assert!(TicTacToe::parse("xoxxoooxx").filled());
    assert_eq!(TicTacToe::parse("xo.......").utility(), None);
    assert_eq!(Piece::try_from('q'), Err("TryFrom<char> for Piece: invalid character for pieces"));
    assert_eq!(Piece::try_from(' '), Ok(Piece::Empty));
    assert_eq!(Piece::X.char(), 'x');
}

#[test]
fn simple_game_board() {
    let board = Board::new(4);
    assert_eq!(board.states(), 16);
    let start = Players::new(0, 3);
    assert!(board.valid(start));
    assert!(!board.terminal(start));
    assert!(!board.valid(Players::new(2, 2)));
    assert!(!board.valid(Players::new(3, 0)));
    assert!(board.terminal(Players::new(3, 1)));
    assert_eq!(board.reward(Players::new(3, 1)), 1);
    assert_eq!(board.reward(Players::new(1, 0)), -1);
    assert_eq!(board.reward(Players::new(3, 0)), 0);
    assert_eq!(board.reward(start), 0);
    let code = board.encode(Players::new(2, 1));
    assert_eq!(code, 9);
    let back = board.decode(code);
    assert_eq!((back.player_a(), back.player_b()), (2, 1));
    // A on 1 with B on 2: left to 0, right jumps over B to 3
    let moves = board.actions(Players::new(1, 2), Player::Maxer);
    assert_eq!(moves, vec![Goto(Player::Maxer, 0), Goto(Player::Maxer, 3)]);
    // B on 2 with A on 1: left jumps over A to 0, right to 3
    let moves = board.actions(Players::new(1, 2), Player::Miner);
    assert_eq!(moves, vec![Goto(Player::Miner, 0), Goto(Player::Miner, 3)]);
    // A on 0 with B on 1: no square on the left, right jumps to 2
    let moves = board.actions(Players::new(0, 1), Player::Maxer);
    assert_eq!(moves, vec![Goto(Player::Maxer, 2)]);
    assert!(board.actions(Players::new(3, 1), Player::Maxer).is_empty());
    let next = board.apply(start, Goto(Player::Miner, 2));
    assert_eq!((next.player_a(), next.player_b()), (0, 2));
    assert_eq!(Player::Maxer.turn(), Player::Miner);
}

#[test]
fn three_states_codes() {
    for code in 0..3 {
        assert_eq!(OTT::from_usize(code).to_usize(), code);
    }
    assert_eq!(OTT::One.actions(), vec![Move::A, Move::B]);
    assert!(OTT::Three.actions().is_empty());
}

#[test]
fn two_terminals_geometry() {
    let width = 4;
    for i in 0..12 {
        let pos = Pos::from_usize(i, width);
        assert_eq!(pos.to_usize(width), i);
    }
    assert_eq!(Pos::from_usize(6, 4), Pos::new(2, 1));
    let n = Pos::new(1, 1).neighbors();
    assert_eq!(n, [Pos::new(0, 1), Pos::new(2, 1), Pos::new(1, 0), Pos::new(1, 2)]);
    assert_eq!(Dir::N.left(), Dir::W);
    assert_eq!(Dir::N.right(), Dir::E);
    assert_eq!(Dir::S.offset(), (0, -1));
    assert_eq!(Dir::E.from(Pos::new(3, 2)), Pos::new(4, 2));
    for d in [Dir::N, Dir::S, Dir::W, Dir::E] {
        assert_eq!(d.left().right(), d);
    }
}

use aima::minimax::othello::{pos, Disk, Move as OthelloMove, Othello, OthelloEnv, Player as Side};

#[test]
fn flip_test() {
    let before_board = "\
□      □
   ●○   
  ○●●○  
  ○●○●  
  ○●●   
   ●●   
        
□      □";

    let after_board = "\
□      □
   ●○   
  ○●●○  
  ○●○○  
  ○○○○  
   ●●   
        
□      □";

    let before = Othello::parse(before_board, Side::White);
    let after = Othello::parse(after_board, Side::Black);
    assert_eq!(before.place(pos(5, 4)), after);
}

#[test]
fn othello_opening_moves() {
    let env = OthelloEnv::init(5);
    // black's four opening moves
    assert_eq!(
        env.actions(),
        vec![OthelloMove::Place(pos(3, 2)), OthelloMove::Place(pos(2, 3)), OthelloMove::Place(pos(5, 4)), OthelloMove::Place(pos(4, 5))]
    );
    let init = Othello::init();
    assert!(init.valid(pos(3, 2)));
    assert!(!init.valid(pos(0, 0)));
    assert_eq!(init.flippable(pos(3, 2)), vec![pos(3, 3)]);
    let next = env.result(OthelloMove::Place(pos(3, 2)));
    assert_eq!(next.othello.get(3, 3), Disk::Occupied(Side::Black));
    assert_eq!(next.othello.next_player, Side::White);
    assert_eq!(next.depth_limit, 4);
    assert_eq!(env.utility(), None);
    // at the depth limit: four centre disks of weight one, two each
    assert_eq!(OthelloEnv::init(0).utility(), Some(0));
    assert_eq!(Disk::Empty.char(), '□');
    assert_eq!(Disk::try_from('o'), Ok(Disk::Occupied(Side::White)));
}

#[test]
fn tic_tac_toe_text_draws_rows() {
    assert_eq!(TicTacToe::parse("xo.X O..x").text(), "xo./x.o/..x");
    assert_eq!(TicTacToe::init().text(), ".../.../...");
}

#[test]
fn square_numbers_round_trip() {
    for i in 0..12usize {
        let p = Pos::from_usize(i, 4);
        assert_eq!(p.to_usize(4), i);
    }
}

use petgraph::graph::NodeIndex;
use aima::and_or_search::vaccum_cleaner::{belief_results, explore, labels, Action, Cleanliness, Erratic, Pos};
use aima::and_or_search::{and_or_search, Plan};
use aima::searching::eight_puzzle::{inversions, manhattan_distance, Eight, EMPTY};
use aima::searching::eight_queens::Queens;
use aima::searching::genetic::{fittest, genetic_search, Genetic};
use aima::searching::river_crossing::{solve_river_crossing, RiverSide};
use aima::searching::vaccum_cleaner::{Cleanliness as Square, Room};

const GOAL: [u32; 9] = [1, 2, 3, 4, 5, 6, 7, 8, EMPTY];

#[test]
fn solvable_test() {
    assert!(Eight::new(GOAL).solvable());
    assert!(!Eight::new([1, 2, 3, 4, 5, 6, 8, 7, EMPTY]).solvable());
}

#[test]
fn eight_puzzle_moves() {
    let goal = Eight::new(GOAL);
    assert!(goal.is_goal());
    assert_eq!(goal.heuristic(), 0);
    assert_eq!(goal.empty_idx(), 8);
    // the empty square in the corner: tiles slide in from above and from the left
    let succs = goal.successors();
    assert_eq!(succs.len(), 2);
    assert_eq!(succs[0], Eight::new([1, 2, 3, 4, 5, EMPTY, 7, 8, 6]));
    assert_eq!(succs[1], Eight::new([1, 2, 3, 4, 5, 6, 7, EMPTY, 8]));
    assert_eq!(succs[0].heuristic(), 1);
    assert_eq!(inversions(&[1, 2, 3, 4, 5, 6, 8, 7, EMPTY]), 1);
    assert_eq!(inversions(&[8, 7, 6, 5, 4, 3, 2, 1, EMPTY]), 28);
    assert_eq!(manhattan_distance(3, 0, 8), 4);
    assert_eq!(manhattan_distance(3, 5, 3), 2);
}

#[test]
fn eight_puzzle_solve() {
    let start = Eight::new([1, 2, 3, 4, EMPTY, 6, 7, 5, 8]);
    let (path, cost) = start.solve().unwrap();
    assert_eq!(path[0], start);
    assert!(path.last().unwrap().is_goal());
    assert_eq!(cost, 2);
    assert_eq!(path.len(), 3);
}

#[test]
fn queens_solve() {
    let queens = Queens::new([0; 8]);
    assert_eq!(queens.heuristic(), 28);
    assert!(!queens.is_goal());
    assert_eq!(queens.successors().len(), 56);
    // one queen away from a solution
    let near = Queens::new([0, 4, 7, 5, 2, 6, 1, 0]);
    let solved = near.solve();
    assert!(solved.is_goal());
    assert_eq!(solved.heuristic(), 0);
    assert!(Queens::new([0, 4, 7, 5, 2, 6, 1, 3]).is_goal());
}

#[test]
fn river_crossing_solve() {
    let path = solve_river_crossing(3, 3).unwrap();
    assert_eq!(path[0], RiverSide::init(3, 3));
    assert!(path.last().unwrap().goal());
    for state in &path {
        assert!(state.missionary_this() + state.missionary_other() == 3);
    }
    assert_eq!(RiverSide::init(3, 3).heuristic(), 5);
}

fn top_row_dirty() -> Room {
    let (d, c) = (Square::Dirty, Square::Clean);
    Room::new((1, 1), 3, vec![d, d, d, c, c, c, c, c, c])
}

#[test]
fn room_heuristic_and_goal() {
    let room = top_row_dirty();
    assert_eq!(room.heuristic(), 5);
    assert!(!room.is_goal());
    assert_eq!(room.cleaner_pos(), (1, 1));
    let clean = Room::new((0, 0), 2, vec![Square::Clean; 4]);
    assert!(clean.is_goal());
    assert_eq!(clean.heuristic(), 0);
    let one = Room::new((0, 0), 2, vec![Square::Dirty, Square::Clean, Square::Clean, Square::Clean]);
    assert_eq!(one.heuristic(), 1);
    assert_eq!(Square::Dirty.char(), '%');
    assert_eq!(Square::Clean.char(), '.');
}

#[test]
fn room_successors() {
    let room = top_row_dirty();
    let succs = room.successors();
    // suck, then up, down, left, right
    assert_eq!(succs.len(), 5);
    assert_eq!(succs[0].cleaner_pos(), (1, 1));
    assert_eq!(succs[0].squares(), room.squares());
    assert_eq!(succs[1].cleaner_pos(), (1, 0));
    assert_eq!(succs[2].cleaner_pos(), (1, 2));
    assert_eq!(succs[3].cleaner_pos(), (0, 1));
    assert_eq!(succs[4].cleaner_pos(), (2, 1));
    // sucking on a dirty square cleans it
    let sucked = &succs[1].successors()[0];
    assert_eq!(sucked.squares()[1], Square::Clean);
    assert_eq!(sucked.heuristic(), 3);
    // in a corner only two moves are possible
    let corner = Room::new((0, 0), 3, vec![Square::Clean; 9]);
    assert_eq!(corner.successors().len(), 3);
}

#[test]
fn room_solve() {
    let room = top_row_dirty();
    let (path, cost) = room.solve().unwrap();
    assert_eq!(path[0], room);
    assert!(path.last().unwrap().is_goal());
    assert_eq!(cost, 7);
    assert_eq!(path.len(), 8);
    assert!(room.heuristic() <= cost);
}

fn plan_reaches(state: Erratic, plan: &Plan<Erratic, Action>) -> bool {
    match plan {
        Plan::Goal => state.left == Cleanliness::Clean && state.right == Cleanliness::Clean,
        Plan::Or(action, sub) => match sub.as_ref() {
            Plan::And(branches) => {
                let results = match action {
                    Action::Suck => state.clean(),
                    Action::Left => vec![Erratic { agent: Pos::Left, ..state }],
                    Action::Right => vec![Erratic { agent: Pos::Right, ..state }],
                };
                results.iter().all(|r| branches.iter().any(|(s, p)| s == r && plan_reaches(*s, p)))
            }
            _ => false,
        },
        Plan::And(_) => false,
    }
}

#[test]
fn and_or_plan_for_erratic_world() {
    for start in Erratic::enumerate() {
        let plan = and_or_search(&start).ok().unwrap();
        assert!(plan_reaches(start, &plan));
    }
}

#[test]
fn erratic_world_labels() {
    let dirty = Erratic { left: Cleanliness::Dirty, right: Cleanliness::Dirty, agent: Pos::Left };
    assert_eq!(dirty.label(), 1);
    assert_eq!(dirty.clean().len(), 2);
    let all = Erratic::enumerate();
    assert_eq!(labels(&all), vec![1, 2, 3, 4, 5, 6, 7, 8]);
    let after = belief_results(&all, Action::Left);
    assert_eq!(labels(&after), vec![1, 3, 5, 7]);
}

#[test]
fn explore_erratic_world() {
    let g = explore(Erratic::enumerate());
    let node = |i: usize| g[NodeIndex::new(i)].clone();
    let edge = |e: usize| {
        let r = &g.raw_edges()[e];
        (r.source().index(), r.target().index(), r.weight)
    };
    assert_eq!(node(0), vec![1, 2, 3, 4, 5, 6, 7, 8]);
    assert_eq!(g.edge_count(), 3 * g.node_count());
    // sucking somewhere in an unknown world may lead anywhere
    assert_eq!(edge(0), (0, 0, Action::Suck));
    assert_eq!(edge(1), (0, 1, Action::Left));
    assert_eq!(edge(2), (0, 2, Action::Right));
    assert_eq!(node(1), vec![1, 3, 5, 7]);
    assert_eq!(node(2), vec![2, 4, 6, 8]);
    for i in 0..g.node_count() {
        for j in 0..i {
            assert_ne!(node(i), node(j));
        }
    }
    // a single known state
    let one = Erratic { left: Cleanliness::Clean, right: Cleanliness::Clean, agent: Pos::Left };
    let g = explore(vec![one]);
    assert_eq!(g[NodeIndex::new(0)], vec![7]);
    let r = &g.raw_edges()[1];
    assert_eq!((r.source().index(), r.target().index(), r.weight), (0, 0, Action::Left));
}

#[derive(Clone, Debug, PartialEq)]
struct Bits(u8);

impl Genetic for Bits {
    fn fitness_spec(&self) -> u32 {
        self.0.count_ones()
    }

    fn good_enough_spec(&self) -> bool {
        self.0 == 0xFF
    }

    fn bred(&self, other: &Self, child: Self) -> bool {
        child.0 == self.0 | other.0
    }

    fn mutated(&self, after: Self) -> bool {
        after.0 == self.0 ^ 1
    }

    fn fitness(&self) -> u32 {
        self.0.count_ones()
    }

    fn reproduce(&self, other: &Self) -> Self {
        Bits(self.0 | other.0)
    }

    fn mutate(&mut self) {
        self.0 ^= 1;
    }

    fn good_enough(&self) -> bool {
        self.0 == 0xFF
    }
}

#[test]
fn fittest_is_last_of_the_best() {
    assert_eq!(fittest(&vec![1, 3, 3, 1]), 2);
    assert_eq!(fittest(&vec![7]), 0);
    assert_eq!(fittest(&vec![0, 5, 2]), 1);
}

#[test]
fn genetic_search_ends() {
    // no generation: the fittest of the first population
    let r = genetic_search(vec![Bits(0b1), Bits(0b11)], 0);
    assert_eq!(r, Some(Bits(0b11)));
    // nobody can be drawn to breed
    assert_eq!(genetic_search(vec![Bits(0), Bits(0)], 3), None);
    // halves that complete each other
    let r = genetic_search(vec![Bits(0xF0), Bits(0x0F)], 200).unwrap();
    assert!(r.good_enough() || r.fitness() >= 4);
    // one generation from parents that can breed always gives an answer
    let r = genetic_search(vec![Bits(0b1), Bits(0b100)], 1).unwrap();
    assert_eq!(r.0 & !0b101, 0);
}

use aima::vaccum_cleaner::rectangle::{dir_of, Dir};
use aima::searching::min_heap::MinHeap;
use aima::searching::utils::{diff, possible_dests};
use aima::vaccum_cleaner::simple::{Cleanliness, ReflexCleaner, TwoSquare};
use aima::vaccum_cleaner::{simulate, CostJudge, MeasureJudge};

#[test]
fn min_heap_orders_by_key() {
    let mut heap: MinHeap<u32, &str> = MinHeap::new();
    assert_eq!(heap.pop(), None);
    assert_eq!(heap.peek(), None);
    heap.push(5, "five");
    heap.push(1, "one");
    heap.push(3, "three");
    heap.push(1, "uno");
    assert_eq!(heap.len(), 4);
    let least = heap.peek().map(|(k, _)| *k);
    assert_eq!(least, Some(1));
    let (k1, _) = heap.pop().unwrap();
    let (k2, _) = heap.pop().unwrap();
    assert_eq!((k1, k2), (1, 1));
    assert_eq!(heap.pop(), Some((3, "three")));
    assert_eq!(heap.pop(), Some((5, "five")));
    assert_eq!(heap.pop(), None);
}

#[test]
fn min_heap_peek_shows_what_pop_gives() {
    let mut heap: MinHeap<u32, &str> = MinHeap::new();
    heap.push(2, "a");
    heap.push(2, "b");
    heap.push(2, "c");
    heap.push(9, "z");
    for _ in 0..4 {
        let shown = heap.peek().map(|(k, v)| (*k, *v));
        assert_eq!(heap.pop(), shown);
    }
    assert_eq!(heap.peek(), None);
}

#[test]
fn min_heap_signed_keys() {
    let mut heap: MinHeap<i64, u8> = MinHeap::new();
    for (k, v) in [(3i64, 0u8), (-7, 1), (0, 2), (-7, 3), (12, 4)] {
        heap.push(k, v);
    }
    let mut keys = vec![];
    while let Some((k, _)) = heap.pop() {
        keys.push(k);
    }
    assert_eq!(keys, vec![-7, -7, 0, 3, 12]);
}

#[test]
fn diff_is_distance() {
    assert_eq!(diff(3, 10), 7);
    assert_eq!(diff(10, 3), 7);
    assert_eq!(diff(4, 4), 0);
    assert_eq!(diff(usize::MAX, 0), usize::MAX);
}

#[test]
fn dests_on_a_grid() {
    // 3x3 board, centre square
    assert_eq!(possible_dests(4, 3, 9), vec![1, 7, 3, 5]);
    // corner
    assert_eq!(possible_dests(0, 3, 9), vec![3, 1]);
    assert_eq!(possible_dests(8, 3, 9), vec![5, 7]);
}

#[test]
fn reflex_cleaner_scores() {
    let worlds = TwoSquare::enumerate();
    let agents = ReflexCleaner::enumerate();
    let expected = [[2000, 2000], [1998, 1999], [1999, 1998], [1996, 1996]];
    for (i, world) in worlds.iter().enumerate() {
        for (j, agent) in agents.iter().enumerate() {
            let score = simulate(*world, *agent, MeasureJudge::default());
            assert_eq!(score, expected[i][j]);
        }
    }
}

#[test]
fn reflex_cleaner_costs() {
    // every step moves or cleans, at a cost of one
    let world = TwoSquare::new(Cleanliness::Clean, Cleanliness::Clean);
    let agent = ReflexCleaner::enumerate()[0];
    assert_eq!(simulate(world, agent, CostJudge::default()), 1000);
}

#[test]
fn draws_pick_directions_in_order() {
    assert_eq!(dir_of(0), Dir::Up);
    assert_eq!(dir_of(1), Dir::Down);
    assert_eq!(dir_of(2), Dir::Left);
    assert_eq!(dir_of(7), Dir::Right);
}

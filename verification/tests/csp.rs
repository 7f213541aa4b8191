use aima::csp::colors::{count_solutions, map_init, valid};
use aima::csp::sudoku::{sudoku_init, Zones, SIDE};
use aima::csp::{ac3_total, backtracking_search};
use std::collections::HashSet;

#[test]
fn zones_test() {
    let mut zones = Zones::new(4);
    let mut all = vec![];
    while let Some(zone) = zones.next() {
        all.push(zone);
    }
    assert_eq!(all, &[vec![0, 1, 4, 5], vec![2, 3, 6, 7], vec![8, 9, 12, 13], vec![10, 11, 14, 15],]);
}

#[test]
fn sudoku_test() {
    let (vars, csp) = sudoku_init();
    let assignment = backtracking_search(vars, &csp).expect("sudoku test: Inconsistency on empty board");

    let one_to_nine: HashSet<u8> = (1..=9).collect();
    for rc in 0..SIDE {
        let row: HashSet<u8> = (0..SIDE).map(|i| assignment[rc * SIDE + i]).collect();
        let col: HashSet<u8> = (0..SIDE).map(|i| assignment[i * SIDE + rc]).collect();
        assert_eq!(row, one_to_nine);
        assert_eq!(col, one_to_nine);
    }
    let mut zones = Zones::new(SIDE);
    while let Some(zone) = zones.next() {
        let numbers: HashSet<u8> = zone.into_iter().map(|i| assignment[i]).collect();
        assert_eq!(numbers, one_to_nine);
    }
}

#[test]
fn sudoku_graph_shape() {
    let (vars, csp) = sudoku_init();
    assert_eq!(vars.len(), 81);
    assert_eq!(csp.node_count(), 81);
    // each cell meets 8 others in its row, 8 in its column and 4 more in its box
    assert_eq!(csp.edge_count(), 81 * 20 / 2);
}

#[test]
fn map_colouring_with_three_colours() {
    let (a1, a2, a3, a4, h, t, f1, f2) = (0, 1, 2, 3, 4, 5, 6, 7);
    let edges = [(a1, a2), (a2, a3), (a3, a4), (a1, h), (a2, h), (a3, h), (a4, h), (h, t), (t, f1), (t, f2)];
    let (vars, csp) = map_init(8, 3, &edges);
    assert_eq!(vars.len(), 8);
    let assignment = backtracking_search(vars, &csp).unwrap();
    for (a, b) in edges.iter() {
        assert_ne!(assignment[*a as usize], assignment[*b as usize]);
    }
    assert!(assignment.iter().all(|c| *c < 3));
}

#[test]
fn australia_with_fixed_colours_is_inconsistent() {
    const RED: u32 = 0;
    const GREEN: u32 = 1;
    let (wa, nt, sa, q, nsw, v, _t) = (0, 1, 2, 3, 4, 5, 6);
    let (mut vars, csp) = map_init(
        7,
        3,
        &[(wa, nt), (nt, q), (q, nsw), (nsw, v), (sa, wa), (sa, nt), (sa, q), (sa, nsw), (sa, v)],
    );
    vars[wa as usize] = Some(GREEN).into_iter().collect();
    vars[v as usize] = Some(RED).into_iter().collect();
    assert!(ac3_total(&mut vars, &csp).is_err());
}

#[test]
fn two_colours_do_not_colour_a_triangle() {
    let (vars, csp) = map_init(3, 2, &[(0, 1), (1, 2), (2, 0)]);
    assert!(backtracking_search(vars, &csp).is_err());
    let (vars, csp) = map_init(3, 3, &[(0, 1), (1, 2), (2, 0)]);
    let a = backtracking_search(vars, &csp).unwrap();
    assert!(a[0] != a[1] && a[1] != a[2] && a[2] != a[0]);
}

#[test]
fn map_init_adds_regions_for_endpoints() {
    let (vars, csp) = map_init(2, 4, &[(0, 4)]);
    assert_eq!(csp.node_count(), 5);
    assert_eq!(vars.len(), 5);
    assert_eq!(vars[3].len(), 4);
}

#[test]
fn arc_consistency_narrows_domains() {
    let (mut vars, csp) = map_init(2, 2, &[(0, 1)]);
    vars[0] = Some(1).into_iter().collect();
    assert!(ac3_total(&mut vars, &csp).is_ok());
    assert_eq!(vars[1], Some(0).into_iter().collect());
}

fn australia_borders() -> Vec<(u32, u32)> {
    let (wa, nt, sa, q, nsw, v) = (0, 1, 2, 3, 4, 5);
    vec![(wa, nt), (nt, q), (q, nsw), (nsw, v), (sa, wa), (sa, nt), (sa, q), (sa, nsw), (sa, v)]
}

#[test]
fn australia_colourings_counted() {
    let (_, map) = map_init(7, 1, &australia_borders());
    // South Australia borders a triangle: two colours are not enough
    assert_eq!(count_solutions(&mut vec![], 2, &map), 0);
    // the mainland takes 3 * 2 ways, Tasmania any of the three colours
    assert_eq!(count_solutions(&mut vec![], 3, &map), 18);
    assert_eq!(count_solutions(&mut vec![], 4, &map), 768);
    // with the first regions fixed
    let mut partial = vec![0, 1, 2];
    assert_eq!(count_solutions(&mut partial, 3, &map), 3);
    assert_eq!(partial, vec![0, 1, 2]);
}

#[test]
fn colourings_checked_along_borders() {
    let (_, map) = map_init(7, 1, &australia_borders());
    assert!(valid(&[0, 1, 2, 0, 1, 0, 2], &map));
    assert!(!valid(&[0, 0], &map));
    // regions not yet coloured are not checked
    assert!(valid(&[0, 1], &map));
}

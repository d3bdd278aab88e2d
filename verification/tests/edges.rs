use aoc25::day08::{Coord, Edge};

#[test]
fn test_dist_sq_formula() {
    let a = Coord { x: 0, y: 0, z: 0 };
    let b = Coord { x: 1, y: 2, z: 2 };
    assert_eq!(a.dist_sq(&b), 9);
    assert_eq!(b.dist_sq(&a), 9);
    assert_eq!(a.dist_sq(&a), 0);
}

#[test]
fn test_edge_carries_distance() {
    let a = Coord { x: -1, y: 0, z: 0 };
    let b = Coord { x: 2, y: 4, z: 0 };
    let e = Edge::new(&a, &b);
    assert_eq!(e.src, a);
    assert_eq!(e.dst, b);
    assert_eq!(e.dist_sq, 25);
}

#[test]
fn test_get_edges_sorted_pairs() {
    let pts = vec![
        Coord { x: 0, y: 0, z: 0 },
        Coord { x: 10, y: 0, z: 0 },
        Coord { x: 11, y: 0, z: 0 },
    ];
    let edges = aoc25::day08::get_edges(&pts);
    // Three pairs, in ascending distance order.
    assert_eq!(edges.len(), 3);
    assert_eq!(edges[0].dist_sq, 1);
    assert_eq!(edges[1].dist_sq, 100);
    assert_eq!(edges[2].dist_sq, 121);
}

#[test]
fn test_get_edges_empty_and_single() {
    let none: Vec<Coord> = vec![];
    assert_eq!(aoc25::day08::get_edges(&none).len(), 0);
    let one = vec![Coord { x: 1, y: 1, z: 1 }];
    assert_eq!(aoc25::day08::get_edges(&one).len(), 0);
}

use aoc25::day09::{Coord, Floor};

#[test]
fn test_floor() {
    let coords = vec![
        Coord { i: 7, j: 1 },
        Coord { i: 11, j: 1 },
        Coord { i: 11, j: 7 },
        Coord { i: 9, j: 7 },
        Coord { i: 9, j: 5 },
        Coord { i: 2, j: 5 },
        Coord { i: 2, j: 3 },
        Coord { i: 7, j: 3 },
    ];

    let n = coords.len();
    let floor = Floor::new(coords);

    let edges = floor.polygon_edges();

    assert_eq!(edges.len(), n)
}

fn example_floor() -> Floor {
    Floor::new(vec![
        Coord { i: 7, j: 1 },
        Coord { i: 11, j: 1 },
        Coord { i: 11, j: 7 },
        Coord { i: 9, j: 7 },
        Coord { i: 9, j: 5 },
        Coord { i: 2, j: 5 },
        Coord { i: 2, j: 3 },
        Coord { i: 7, j: 3 },
    ])
}

#[test]
fn test_vertices_count_as_inside() {
    let floor = example_floor();
    assert!(floor.is_coord_inside_polygon(Coord { i: 7, j: 1 }));
    assert!(floor.is_coord_inside_polygon(Coord { i: 2, j: 5 }));
}

#[test]
fn test_edge_points_count_as_inside() {
    let floor = example_floor();
    // On the edge from (7,1) to (11,1).
    assert!(floor.is_coord_inside_polygon(Coord { i: 9, j: 1 }));
}

#[test]
fn test_far_point_is_outside_and_repeatable() {
    let floor = example_floor();
    assert!(!floor.is_coord_inside_polygon(Coord { i: 0, j: 0 }));
    assert!(!floor.is_coord_inside_polygon(Coord { i: 0, j: 0 }));
    assert!(!floor.is_coord_inside_polygon(Coord { i: 100, j: 100 }));
}

#[test]
fn test_area_formula() {
    let a = Coord { i: 0, j: 0 };
    let b = Coord { i: 2, j: 3 };
    assert_eq!(a.area(&b), 12);
    assert_eq!(b.area(&a), 12);
    assert_eq!(a.area(&a), 1);
}

#[test]
fn test_rect_edges_ring() {
    let floor = example_floor();
    let p = Coord { i: 0, j: 0 };
    let q = Coord { i: 3, j: 3 };
    let ring = floor.rect_edges(p, q);
    // Rows 1..=2 give two points each, columns 1..=2 give two points each.
    assert_eq!(ring.len(), 8);
    assert!(ring.contains(&Coord { i: 1, j: 1 }));
    assert!(ring.contains(&Coord { i: 2, j: 2 }));
    assert!(!ring.contains(&Coord { i: 0, j: 0 }));
}

#[test]
fn test_part1_max_area() {
    let coords = vec![
        Coord { i: 0, j: 0 },
        Coord { i: 1, j: 1 },
        Coord { i: 4, j: 9 },
    ];
    // The pair (0,0)-(4,9) spans 5 * 10 = 50 points.
    assert_eq!(aoc25::day09::part1(&coords), 50);
}

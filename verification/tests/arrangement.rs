use minkowski::angle::Angle;
use minkowski::arrangement::{
    build_rotation, find_arrivals, push_edge_nodes, split_edges, Node, Pseudovert, Split,
};
use minkowski::convolution::{reduced_convolution, Conv, Vert};
use minkowski::crossing::{
    crossing, find_crossings, find_tips, intersection, is_adjacent, locate, Crossing, Param,
    RatPoint,
};
use minkowski::geometry::Point;
use minkowski::sorting::{sort, Ranked};
use minkowski::walk::{next_in_run, trace_loops};

fn edge(p: (usize, usize, i64, i64), q: (usize, usize, i64, i64)) -> Conv {
    Conv {
        p: Vert { i: p.0, j: p.1, z: Point::new(p.2, p.3) },
        q: Vert { i: q.0, j: q.1, z: Point::new(q.2, q.3) },
        v: Point::new(q.2 - p.2, q.3 - p.3),
    }
}

fn ratio(num: u64, den: u64) -> Param {
    Param { num, den }
}

fn given(i: usize, j: usize) -> Pseudovert {
    Pseudovert::Given { i, j }
}

fn steiner(m: usize, n: usize) -> Pseudovert {
    Pseudovert::Steiner { m, n }
}

fn node(at: Pseudovert, dir: (i64, i64), leaving: bool, tip: usize) -> Node {
    Node { at, angle: Angle::of(Point::new(dir.0, dir.1)), leaving, tip }
}

fn polygon(coords: &[(i64, i64)]) -> Vec<Point> {
    coords.iter().map(|&(x, y)| Point::new(x, y)).collect()
}

#[test]
fn intersection_gives_both_positions() {
    let e0 = edge((0, 0, 0, 0), (0, 1, 4, 0));
    let e1 = edge((5, 5, 1, -1), (5, 6, 1, 3));
    assert_eq!(intersection(&e0, &e1), Some((ratio(4, 16), ratio(4, 16))));
    assert_eq!(intersection(&e1, &e0), Some((ratio(4, 16), ratio(4, 16))));
    let e2 = edge((7, 7, 3, 3), (7, 8, 3, -3));
    assert_eq!(intersection(&e0, &e2), Some((ratio(18, 24), ratio(12, 24))));
    assert_eq!(intersection(&e2, &e0), Some((ratio(12, 24), ratio(18, 24))));
}

#[test]
fn intersection_at_an_end_is_none() {
    let e0 = edge((0, 0, 0, 0), (0, 1, 4, 0));
    assert_eq!(intersection(&e0, &edge((5, 5, 1, 0), (5, 6, 1, 3))), None);
    assert_eq!(intersection(&e0, &edge((5, 5, 1, -3), (5, 6, 1, 0))), None);
    assert_eq!(intersection(&e0, &edge((5, 5, 0, -1), (5, 6, 0, 1))), None);
    assert_eq!(intersection(&e0, &edge((5, 5, 4, -1), (5, 6, 4, 1))), None);
    assert_eq!(intersection(&e0, &edge((5, 5, 5, -1), (5, 6, 5, 1))), None);
}

#[test]
fn parallel_edges_do_not_intersect() {
    let e0 = edge((0, 0, 0, 0), (0, 1, 4, 0));
    assert_eq!(intersection(&e0, &edge((5, 5, 1, 0), (5, 6, 3, 0))), None);
    assert_eq!(intersection(&e0, &edge((5, 5, 1, 1), (5, 6, 3, 1))), None);
    assert_eq!(intersection(&e0, &edge((5, 5, 2, 2), (5, 5, 2, 2))), None);
}

#[test]
fn adjacent_edges_are_not_tested() {
    let e0 = edge((0, 0, 0, 0), (0, 1, 4, 0));
    let across = |p: (usize, usize), q: (usize, usize)| edge((p.0, p.1, 1, -1), (q.0, q.1, 1, 3));
    assert!(crossing(&e0, &across((5, 5), (5, 6))).is_some());
    assert!(is_adjacent(&e0, &across((0, 0), (5, 6))));
    assert!(is_adjacent(&e0, &across((0, 1), (5, 6))));
    assert!(is_adjacent(&e0, &across((5, 5), (0, 0))));
    assert!(is_adjacent(&e0, &across((5, 5), (0, 1))));
    assert!(is_adjacent(&e0, &across((0, 5), (0, 6))));
    assert!(!is_adjacent(&e0, &across((0, 5), (1, 5))));
    assert!(!is_adjacent(&e0, &across((5, 0), (5, 1))));
    assert!(!is_adjacent(&e0, &across((5, 5), (5, 6))));
    assert_eq!(crossing(&e0, &across((0, 5), (0, 6))), None);
    let level = edge((0, 2, 0, 0), (1, 2, 4, 0));
    assert!(is_adjacent(&level, &across((7, 2), (8, 2))));
    assert!(!is_adjacent(&level, &across((7, 2), (8, 3))));
}

#[test]
fn point_along_an_edge() {
    let e = edge((0, 0, 2, -1), (0, 1, 6, 7));
    assert_eq!(locate(&e, &ratio(1, 4)), RatPoint { x: 12, y: 4, d: 4 });
    assert_eq!(locate(&e, &ratio(3, 5)), RatPoint { x: 22, y: 19, d: 5 });
    assert_eq!(RatPoint::from_point(Point::new(-3, 9)), RatPoint { x: -3, y: 9, d: 1 });
}

#[test]
fn positions_are_ordered_as_ratios() {
    assert!(ratio(1, 3).precedes(&ratio(1, 2)));
    assert!(!ratio(1, 2).precedes(&ratio(1, 3)));
    assert!(!ratio(2, 4).precedes(&ratio(1, 2)));
    assert!(!ratio(1, 2).precedes(&ratio(2, 4)));
    let most = u64::MAX;
    assert!(ratio(most - 1, most).precedes(&ratio(most, most)));
}

#[test]
fn crossings_are_found_pair_by_pair() {
    let edges = vec![
        edge((0, 0, 0, 0), (0, 1, 4, 0)),
        edge((5, 5, 3, 3), (5, 6, 3, -3)),
        edge((7, 7, 1, -1), (7, 8, 1, 3)),
        edge((9, 9, 0, 2), (9, 10, 4, 2)),
    ];
    let xs = find_crossings(&edges);
    assert_eq!(
        xs,
        vec![
            Crossing { m: 0, n: 1, t_m: ratio(18, 24), t_n: ratio(12, 24) },
            Crossing { m: 0, n: 2, t_m: ratio(4, 16), t_n: ratio(4, 16) },
            Crossing { m: 1, n: 3, t_m: ratio(4, 24), t_n: ratio(18, 24) },
            Crossing { m: 2, n: 3, t_m: ratio(12, 16), t_n: ratio(4, 16) },
        ]
    );
    let tips = find_tips(&edges, &xs);
    assert_eq!(tips.len(), 4 + 2 * 4);
    assert_eq!(tips[0], RatPoint { x: 4, y: 0, d: 1 });
    assert_eq!(tips[3], RatPoint { x: 4, y: 2, d: 1 });
    assert_eq!(tips[4], RatPoint { x: 72, y: 0, d: 24 });
    assert_eq!(tips[5], tips[4]);
    assert_eq!(tips[6], RatPoint { x: 16, y: 0, d: 16 });
    assert_eq!(tips[8], RatPoint { x: 72, y: 48, d: 24 });
    assert_eq!(tips[10], RatPoint { x: 16, y: 32, d: 16 });
    assert_eq!(tips[11], tips[10]);
}

#[test]
fn crossings_are_dealt_to_their_edges() {
    let edges = vec![
        edge((0, 0, 0, 0), (0, 1, 4, 0)),
        edge((5, 5, 3, 3), (5, 6, 3, -3)),
        edge((7, 7, 1, -1), (7, 8, 1, 3)),
        edge((9, 9, 0, 2), (9, 10, 4, 2)),
    ];
    let xs = find_crossings(&edges);
    let found = split_edges(&xs, 4);
    assert_eq!(found.len(), 4);
    assert_eq!(
        found[0],
        vec![
            Split { t: ratio(18, 24), m: 0, n: 1, tip: 4 },
            Split { t: ratio(4, 16), m: 0, n: 2, tip: 6 },
        ]
    );
    assert_eq!(
        found[2],
        vec![
            Split { t: ratio(4, 16), m: 0, n: 2, tip: 7 },
            Split { t: ratio(12, 16), m: 2, n: 3, tip: 10 },
        ]
    );
    assert_eq!(split_edges(&xs, 2).len(), 2);
    assert_eq!(
        split_edges(&xs, 2)[1],
        vec![
            Split { t: ratio(12, 24), m: 0, n: 1, tip: 3 },
            Split { t: ratio(4, 24), m: 1, n: 3, tip: 6 },
        ]
    );
    assert!(split_edges(&xs, 0).is_empty());
}

#[test]
fn chain_is_ordered_along_the_edge() {
    let edges = vec![
        edge((0, 0, 0, 0), (0, 1, 4, 0)),
        edge((5, 5, 3, 3), (5, 6, 3, -3)),
        edge((7, 7, 1, -1), (7, 8, 1, 3)),
        edge((9, 9, 0, 2), (9, 10, 4, 2)),
    ];
    let xs = find_crossings(&edges);
    let found = split_edges(&xs, 4);
    assert_eq!(
        sort(&found[0]),
        vec![
            Split { t: ratio(4, 16), m: 0, n: 2, tip: 6 },
            Split { t: ratio(18, 24), m: 0, n: 1, tip: 4 },
        ]
    );
    assert_eq!(
        sort(&found[1]),
        vec![
            Split { t: ratio(4, 24), m: 1, n: 3, tip: 8 },
            Split { t: ratio(12, 24), m: 0, n: 1, tip: 5 },
        ]
    );
    assert_eq!(
        sort(&found[3]),
        vec![
            Split { t: ratio(4, 16), m: 2, n: 3, tip: 11 },
            Split { t: ratio(18, 24), m: 1, n: 3, tip: 9 },
        ]
    );
}

#[test]
fn equal_positions_go_by_the_pair_of_edges() {
    let a = Split { t: ratio(1, 2), m: 3, n: 9, tip: 40 };
    let b = Split { t: ratio(2, 4), m: 3, n: 7, tip: 50 };
    let c = Split { t: ratio(3, 6), m: 1, n: 9, tip: 60 };
    let d = Split { t: ratio(1, 3), m: 8, n: 9, tip: 70 };
    assert_eq!(sort(&vec![a, b, c, d]), vec![d, c, b, a]);
    assert!(b.is_before(&a));
    assert!(!a.is_before(&b));
    assert!(!a.is_before(&a));
    let e = Split { t: ratio(1, 2), m: 3, n: 9, tip: 41 };
    assert!(a.is_before(&e));
}

#[test]
fn nodes_of_one_edge() {
    let e = edge((2, 3, 0, 0), (2, 4, 4, 0));
    let chain = vec![
        Split { t: ratio(1, 4), m: 0, n: 2, tip: 6 },
        Split { t: ratio(3, 4), m: 0, n: 1, tip: 4 },
    ];
    let mut nodes = vec![node(given(9, 9), (1, 1), true, 99)];
    push_edge_nodes(&mut nodes, &e, 0, &chain);
    assert_eq!(
        nodes,
        vec![
            node(given(9, 9), (1, 1), true, 99),
            node(given(2, 3), (4, 0), true, 6),
            node(steiner(0, 2), (-4, 0), false, 6),
            node(steiner(0, 2), (4, 0), true, 4),
            node(steiner(0, 1), (-4, 0), false, 4),
            node(steiner(0, 1), (4, 0), true, 0),
            node(given(2, 4), (-4, 0), false, 0),
        ]
    );
}

#[test]
fn places_are_ordered_sums_first() {
    assert!(given(9, 9).precedes(&steiner(0, 0)));
    assert!(!steiner(0, 0).precedes(&given(9, 9)));
    assert!(given(1, 9).precedes(&given(2, 0)));
    assert!(given(1, 2).precedes(&given(1, 3)));
    assert!(!given(1, 3).precedes(&given(1, 3)));
    assert!(steiner(1, 9).precedes(&steiner(2, 3)));
    assert!(steiner(2, 3).precedes(&steiner(2, 4)));
    assert!(!steiner(2, 4).precedes(&steiner(2, 3)));
}

#[test]
fn nodes_are_ordered_by_place_direction_and_end_before_start() {
    let a = node(given(0, 0), (1, 0), true, 5);
    let b = node(given(0, 0), (2, 0), false, 7);
    let c = node(given(0, 0), (0, -1), true, 9);
    let d = node(given(0, 1), (0, -1), false, 1);
    let e = node(steiner(0, 1), (-1, -1), true, 2);
    let f = node(given(0, 0), (3, 0), false, 6);
    assert_eq!(sort(&vec![e, d, a, b, c, f]), vec![c, f, b, a, d, e]);
    assert!(b.is_before(&a));
    assert!(!a.is_before(&b));
    assert!(f.is_before(&b));
}

#[test]
fn sort_keeps_equal_elements_in_their_order() {
    let a = node(given(0, 0), (1, 0), true, 5);
    let b = node(given(0, 0), (2, 0), true, 5);
    assert!(!a.is_before(&b) && !b.is_before(&a));
    assert_eq!(sort(&vec![a, b]), vec![a, b]);
    assert_eq!(sort(&vec![b, a]), vec![b, a]);
    assert_eq!(sort(&Vec::<Node>::new()), vec![]);
}

#[test]
fn rotation_of_a_square() {
    let edges = reduced_convolution(
        &polygon(&[(0, 0), (1, 0), (1, 1), (0, 1)]),
        &polygon(&[(0, 0)]),
    );
    let xs = find_crossings(&edges);
    assert!(xs.is_empty());
    let nodes = build_rotation(&edges, &xs);
    assert_eq!(
        nodes,
        vec![
            node(given(0, 0), (1, 0), true, 0),
            node(given(0, 0), (0, 1), false, 3),
            node(given(1, 0), (0, 1), true, 1),
            node(given(1, 0), (-1, 0), false, 0),
            node(given(2, 0), (0, -1), false, 1),
            node(given(2, 0), (-1, 0), true, 2),
            node(given(3, 0), (0, -1), true, 3),
            node(given(3, 0), (1, 0), false, 2),
        ]
    );
    let arrivals = find_arrivals(&nodes, 4);
    assert_eq!(arrivals, vec![3, 4, 7, 1]);
    assert_eq!(next_in_run(&nodes, 0), 1);
    assert_eq!(next_in_run(&nodes, 1), 0);
    assert_eq!(next_in_run(&nodes, 6), 7);
    assert_eq!(next_in_run(&nodes, 7), 6);
    assert_eq!(trace_loops(&nodes, &arrivals), vec![vec![0, 1, 2, 3]]);
}

#[test]
fn walk_that_meets_an_earlier_walk_yields_nothing() {
    let nodes = vec![
        node(given(0, 0), (1, 0), false, 0),
        node(given(0, 0), (0, 1), true, 0),
        node(given(1, 0), (1, 0), false, 1),
        node(given(1, 0), (0, 1), true, 0),
    ];
    let arrivals = find_arrivals(&nodes, 2);
    assert_eq!(arrivals, vec![0, 2]);
    assert_eq!(trace_loops(&nodes, &arrivals), vec![vec![0]]);
}

#[test]
fn place_without_a_way_on_ends_the_walk() {
    let nodes = vec![
        node(given(0, 0), (1, 0), false, 0),
        node(given(1, 0), (1, 0), false, 1),
        node(given(1, 0), (0, 1), true, 0),
    ];
    let arrivals = find_arrivals(&nodes, 2);
    assert_eq!(trace_loops(&nodes, &arrivals), Vec::<Vec<usize>>::new());
}

#[test]
fn run_of_three_is_walked_round() {
    let nodes = vec![
        node(given(0, 0), (1, 0), false, 0),
        node(given(1, 0), (1, 0), false, 1),
        node(given(1, 0), (0, 1), false, 2),
        node(given(1, 0), (-1, 0), true, 0),
        node(given(2, 0), (-1, 0), true, 1),
    ];
    assert_eq!(next_in_run(&nodes, 0), 0);
    assert_eq!(next_in_run(&nodes, 1), 2);
    assert_eq!(next_in_run(&nodes, 2), 3);
    assert_eq!(next_in_run(&nodes, 3), 1);
    assert_eq!(next_in_run(&nodes, 4), 4);
}

#[test]
fn crossing_with_coordinates_at_the_ends_of_the_range() {
    let far = 1 << 30;
    let e0 = edge((0, 0, -far, -far), (0, 1, far, far));
    let e1 = edge((5, 5, -far, far), (5, 6, far, -far));
    let den = 1u64 << 63;
    assert_eq!(crossing(&e0, &e1), Some((ratio(den / 2, den), ratio(den / 2, den))));
    assert_eq!(crossing(&e1, &e0), Some((ratio(den / 2, den), ratio(den / 2, den))));
    assert_eq!(locate(&e0, &ratio(den / 2, den)), RatPoint { x: 0, y: 0, d: den as i128 });
    assert_eq!(
        locate(&e0, &ratio(den - 1, den)),
        RatPoint {
            x: -(far as i128) * (den as i128) + (den as i128 - 1) * 2 * (far as i128),
            y: -(far as i128) * (den as i128) + (den as i128 - 1) * 2 * (far as i128),
            d: den as i128
        }
    );
    let e2 = edge((7, 7, 2 * far, 2 * far - 2), (7, 8, 2 * far - 2, 2 * far));
    let e3 = edge((8, 8, 0, 0), (8, 9, 2 * far, 2 * far));
    let (t3, t2) = crossing(&e3, &e2).unwrap();
    assert_eq!(t2, ratio(1 << 32, 1 << 33));
    assert_eq!(t3, ratio((1 << 33) - 4, 1 << 33));
    assert!(ratio(den / 2, den).precedes(&t3));
    assert!(t2.precedes(&t3));
}

use minkowski::convolution::{reduced_convolution, Conv};
use minkowski::crossing::RatPoint;
use minkowski::geometry::Point;
use minkowski::loops::extract_loops;
use minkowski::sum::{edge_segments, minkowski, zip_points};

fn polygon(coords: &[(i64, i64)]) -> Vec<Point> {
    coords.iter().map(|&(x, y)| Point::new(x, y)).collect()
}

fn gcd(a: i128, b: i128) -> i128 {
    if b == 0 {
        a.abs()
    } else {
        gcd(b, a % b)
    }
}

/// Each coordinate as a fraction in lowest terms.
fn fractions(points: &[RatPoint]) -> Vec<((i128, i128), (i128, i128))> {
    points
        .iter()
        .map(|p| {
            assert!(p.d > 0);
            let gx = gcd(p.x, p.d);
            let gy = gcd(p.y, p.d);
            ((p.x / gx, p.d / gx), (p.y / gy, p.d / gy))
        })
        .collect()
}

fn whole(points: &[RatPoint]) -> Vec<(i128, i128)> {
    fractions(points)
        .iter()
        .map(|&((x, dx), (y, dy))| {
            assert_eq!((dx, dy), (1, 1));
            (x, y)
        })
        .collect()
}

fn sum(a: &[(i64, i64)], b: &[(i64, i64)]) -> (Vec<Conv>, Vec<Vec<RatPoint>>) {
    let edges = reduced_convolution(&polygon(a), &polygon(b));
    let loops = extract_loops(&edges);
    (edges, loops)
}

/// The loop without the points that lie on the line through their
/// neighbours, counted from its least point.
fn corners(points: &[(i128, i128)]) -> Vec<(i128, i128)> {
    let n = points.len();
    let mut kept = Vec::new();
    for k in 0..n {
        let p = points[(k + n - 1) % n];
        let q = points[k];
        let r = points[(k + 1) % n];
        if (q.0 - p.0) * (r.1 - q.1) - (r.0 - q.0) * (q.1 - p.1) != 0 {
            kept.push(q);
        }
    }
    let least = (0..kept.len()).min_by_key(|&k| kept[k]).unwrap();
    kept.rotate_left(least);
    kept
}

/// Whether `p`, `q` lie on the edge, `q` not before `p` along it.
fn on_edge(e: &Conv, p: &RatPoint, q: &RatPoint) -> bool {
    let along = |r: &RatPoint| {
        let dx = r.x - (e.p.z.x as i128) * r.d;
        let dy = r.y - (e.p.z.y as i128) * r.d;
        let vx = e.v.x as i128;
        let vy = e.v.y as i128;
        if dx * vy - dy * vx != 0 {
            return None;
        }
        let t = dx * vx + dy * vy;
        let len = (vx * vx + vy * vy) * r.d;
        if 0 <= t && t <= len {
            Some((t, len))
        } else {
            None
        }
    };
    match (along(p), along(q)) {
        (Some((tp, lp)), Some((tq, lq))) => tp * lq <= tq * lp,
        _ => false,
    }
}

const SQUARE: [(i64, i64); 4] = [(0, 0), (1, 0), (1, 1), (0, 1)];
const HEXAGON: [(i64, i64); 6] = [(0, 0), (2, 0), (2, 1), (1, 1), (1, 2), (0, 2)];
const DART: [(i64, i64); 4] = [(0, 0), (4, 2), (0, 4), (1, 2)];
const TRIANGLE: [(i64, i64); 3] = [(0, 0), (2, 1), (1, 3)];
const NOTCHED: [(i64, i64); 8] =
    [(0, 0), (3, 0), (3, 1), (1, 1), (1, 3), (3, 3), (3, 4), (0, 4)];

#[test]
fn unit_squares_give_one_loop() {
    let (edges, loops) = sum(&SQUARE, &SQUARE);
    assert_eq!(edges.len(), 16);
    assert_eq!(loops.len(), 1);
    assert_eq!(
        whole(&loops[0]),
        vec![(1, 0), (2, 0), (2, 1), (2, 2), (1, 2), (0, 2), (0, 1), (0, 0)]
    );
    assert_eq!(corners(&whole(&loops[0])), vec![(0, 0), (2, 0), (2, 2), (0, 2)]);
}

#[test]
fn square_and_point_give_the_square() {
    let (edges, loops) = sum(&SQUARE, &[(0, 0)]);
    assert_eq!(edges.len(), 4);
    assert_eq!(loops.len(), 1);
    assert_eq!(whole(&loops[0]), vec![(1, 0), (1, 1), (0, 1), (0, 0)]);
    assert_eq!(corners(&whole(&loops[0])), vec![(0, 0), (1, 0), (1, 1), (0, 1)]);
}

#[test]
fn point_and_square_give_the_square_moved() {
    let (_, loops) = sum(&[(5, 5)], &SQUARE);
    assert_eq!(loops.len(), 1);
    assert_eq!(whole(&loops[0]), vec![(6, 5), (6, 6), (5, 6), (5, 5)]);
}

#[test]
fn two_points_give_no_loop() {
    let (edges, loops) = sum(&[(5, 5)], &[(1, 2)]);
    assert!(edges.is_empty());
    assert!(loops.is_empty());
}

#[test]
fn no_edges_give_no_loop() {
    assert!(extract_loops(&[]).is_empty());
}

#[test]
fn two_segments_give_a_rectangle() {
    let (edges, loops) = sum(&[(0, 0), (2, 0)], &[(0, 0), (0, 3)]);
    assert_eq!(edges.len(), 4);
    assert_eq!(loops.len(), 1);
    assert_eq!(whole(&loops[0]), vec![(0, 0), (2, 0), (2, 3), (0, 3)]);
}

#[test]
fn convex_polygons_give_one_loop() {
    let (edges, loops) = sum(&TRIANGLE, &[(0, 0), (5, 1), (4, 4), (-1, 2)]);
    assert_eq!(edges.len(), 7);
    assert_eq!(loops.len(), 1);
    assert_eq!(
        whole(&loops[0]),
        vec![(5, 1), (7, 2), (6, 5), (5, 7), (0, 5), (-1, 2), (0, 0)]
    );
}

#[test]
fn square_and_hexagon() {
    let (edges, loops) = sum(&SQUARE, &HEXAGON);
    assert_eq!(edges.len(), 22);
    assert_eq!(loops.len(), 1);
    assert_eq!(
        whole(&loops[0]),
        vec![(2, 0), (3, 0), (3, 1), (3, 2), (2, 2), (2, 3), (1, 3), (0, 3), (0, 1), (0, 0)]
    );
}

#[test]
fn two_hexagons() {
    let (edges, loops) = sum(&HEXAGON, &HEXAGON);
    assert_eq!(edges.len(), 32);
    assert_eq!(loops.len(), 1);
    assert_eq!(
        whole(&loops[0]),
        vec![
            (2, 0),
            (4, 0),
            (4, 1),
            (4, 2),
            (3, 2),
            (3, 3),
            (2, 3),
            (2, 4),
            (1, 4),
            (0, 4),
            (0, 2),
            (0, 0)
        ]
    );
}

#[test]
fn crossing_edges_meet_in_a_rational_point() {
    let (edges, loops) = sum(&DART, &TRIANGLE);
    assert_eq!(edges.len(), 10);
    assert_eq!(loops.len(), 1);
    assert_eq!(
        fractions(&loops[0]),
        vec![
            ((2, 1), (1, 1)),
            ((6, 1), (3, 1)),
            ((5, 1), (5, 1)),
            ((1, 1), (7, 1)),
            ((0, 1), (4, 1)),
            ((4, 5), (12, 5)),
            ((0, 1), (0, 1)),
        ]
    );
}

#[test]
fn two_darts() {
    let (edges, loops) = sum(&DART, &DART);
    assert_eq!(edges.len(), 16);
    assert_eq!(loops.len(), 1);
    assert_eq!(
        whole(&loops[0]),
        vec![(4, 2), (8, 4), (4, 6), (0, 8), (1, 6), (0, 4), (1, 2), (0, 0)]
    );
}

#[test]
fn notch_wider_than_the_square_stays_open() {
    let (edges, loops) = sum(&NOTCHED, &SQUARE);
    assert_eq!(edges.len(), 28);
    assert_eq!(loops.len(), 1);
    assert_eq!(
        whole(&loops[0]),
        vec![
            (1, 0),
            (4, 0),
            (4, 1),
            (4, 2),
            (3, 2),
            (2, 2),
            (2, 3),
            (4, 3),
            (4, 4),
            (4, 5),
            (3, 5),
            (0, 5),
            (0, 4),
            (0, 0)
        ]
    );
}

#[test]
fn notched_polygon_and_triangle() {
    let (edges, loops) = sum(
        &[(0, 0), (3, 0), (3, 1), (1, 1), (1, 2), (3, 2), (3, 3), (0, 3)],
        &TRIANGLE,
    );
    assert_eq!(edges.len(), 13);
    assert_eq!(loops.len(), 1);
    assert_eq!(
        fractions(&loops[0]),
        vec![
            ((5, 1), (1, 1)),
            ((5, 1), (2, 1)),
            ((23, 5), (14, 5)),
            ((5, 1), (3, 1)),
            ((5, 1), (4, 1)),
            ((4, 1), (6, 1)),
            ((1, 1), (6, 1)),
            ((0, 1), (3, 1)),
            ((0, 1), (0, 1)),
            ((3, 1), (0, 1)),
        ]
    );
}

#[test]
fn edges_that_only_touch_do_not_cross() {
    let (edges, loops) = sum(
        &[(0, 0), (3, 0), (3, 1), (1, 1), (1, 2), (3, 2), (3, 3), (0, 3)],
        &SQUARE,
    );
    assert_eq!(edges.len(), 28);
    assert!(loops.is_empty());
}

#[test]
fn loops_are_closed_and_have_no_gap() {
    let shapes: [&[(i64, i64)]; 5] = [&SQUARE, &HEXAGON, &DART, &TRIANGLE, &NOTCHED];
    for a in shapes {
        for b in shapes {
            let (edges, loops) = sum(a, b);
            for points in &loops {
                assert!(!points.is_empty());
                for k in 0..points.len() {
                    let p = &points[k];
                    let q = &points[(k + 1) % points.len()];
                    assert!(edges.iter().any(|e| on_edge(e, p, q)), "{:?} {:?}", p, q);
                }
            }
        }
    }
}

#[test]
fn translation_moves_every_loop_by_the_sum() {
    let (_, plain) = sum(&DART, &TRIANGLE);
    let a: Vec<(i64, i64)> = DART.iter().map(|&(x, y)| (x + 7, y - 2)).collect();
    let b: Vec<(i64, i64)> = TRIANGLE.iter().map(|&(x, y)| (x - 20, y + 5)).collect();
    let (_, moved) = sum(&a, &b);
    assert_eq!(moved.len(), plain.len());
    for (m, p) in moved.iter().zip(plain.iter()) {
        assert_eq!(m.len(), p.len());
        for (x, y) in m.iter().zip(p.iter()) {
            assert_eq!(x.d, y.d);
            assert_eq!(x.x, y.x - 13 * y.d);
            assert_eq!(x.y, y.y + 3 * y.d);
        }
    }
}

#[test]
fn translation_by_the_same_vector_moves_by_twice_the_vector() {
    let (_, plain) = sum(&SQUARE, &HEXAGON);
    let a: Vec<(i64, i64)> = SQUARE.iter().map(|&(x, y)| (x + 3, y + 4)).collect();
    let b: Vec<(i64, i64)> = HEXAGON.iter().map(|&(x, y)| (x + 3, y + 4)).collect();
    let (_, moved) = sum(&a, &b);
    assert_eq!(moved.len(), 1);
    let expected: Vec<(i128, i128)> =
        whole(&plain[0]).iter().map(|&(x, y)| (x + 6, y + 8)).collect();
    assert_eq!(whole(&moved[0]), expected);
}

#[test]
fn coordinates_at_the_ends_of_the_range() {
    let far = 1 << 30;
    let a = [(-far, -far), (far, 0), (-far, far), (-far + 1, 0)];
    let b = [(0, 0), (far, far / 2), (far / 2, far)];
    let (edges, loops) = sum(&a, &b);
    assert_eq!(edges.len(), 9);
    assert_eq!(loops.len(), 1);
    assert_eq!(
        whole(&loops[0]),
        vec![
            (0, -536870912),
            (2147483648, 536870912),
            (1610612736, 1073741824),
            (-536870912, 2147483648),
            (-1073741824, 1073741824),
            (-1073741823, 0),
            (-1073741824, -1073741824),
        ]
    );
}

#[test]
fn zip_takes_as_many_as_both_lists_have() {
    assert_eq!(zip_points(&[1, 2, 3], &[4, 5]), vec![Point::new(1, 4), Point::new(2, 5)]);
    assert_eq!(zip_points(&[], &[4, 5]), vec![]);
}

#[test]
fn sum_of_flat_coordinates() {
    let sum = minkowski(&[0, 1, 1, 0], &[0, 0, 1, 1], &[0], &[0]);
    assert_eq!(
        sum.edges,
        vec![
            (Point::new(0, 0), Point::new(1, 0)),
            (Point::new(1, 0), Point::new(1, 1)),
            (Point::new(1, 1), Point::new(0, 1)),
            (Point::new(0, 1), Point::new(0, 0)),
        ]
    );
    assert_eq!(sum.polygons.len(), 1);
    assert_eq!(whole(&sum.polygons[0]), vec![(1, 0), (1, 1), (0, 1), (0, 0)]);
}

#[test]
fn segments_of_edges() {
    let edges = reduced_convolution(&polygon(&SQUARE), &polygon(&[(2, 3)]));
    assert_eq!(
        edge_segments(&edges),
        vec![
            (Point::new(2, 3), Point::new(3, 3)),
            (Point::new(3, 3), Point::new(3, 4)),
            (Point::new(3, 4), Point::new(2, 4)),
            (Point::new(2, 4), Point::new(2, 3)),
        ]
    );
}

#[test]
fn crossing_with_long_edges() {
    let k = 1 << 28;
    let dart: Vec<(i64, i64)> = DART.iter().map(|&(x, y)| (x * k, y * k)).collect();
    let triangle: Vec<(i64, i64)> = TRIANGLE.iter().map(|&(x, y)| (x * k, y * k)).collect();
    let (edges, loops) = sum(&dart, &triangle);
    assert_eq!(edges.len(), 10);
    assert_eq!(loops.len(), 1);
    assert_eq!(
        fractions(&loops[0]),
        vec![
            ((536870912, 1), (268435456, 1)),
            ((1610612736, 1), (805306368, 1)),
            ((1342177280, 1), (1342177280, 1)),
            ((268435456, 1), (1879048192, 1)),
            ((0, 1), (1073741824, 1)),
            ((1073741824, 5), (3221225472, 5)),
            ((0, 1), (0, 1)),
        ]
    );
}

#[test]
fn pentagon_and_triangle_give_one_loop_of_all_edges() {
    let (edges, loops) = sum(
        &[(0, 0), (4, 1), (5, 4), (2, 6), (-1, 3)],
        &[(0, 0), (3, -1), (1, 2)],
    );
    assert_eq!(edges.len(), 5 + 3);
    assert_eq!(loops.len(), 1);
    assert_eq!(loops[0].len(), 5 + 3);
    assert_eq!(
        whole(&loops[0]),
        vec![(3, -1), (7, 0), (8, 3), (6, 6), (3, 8), (0, 5), (-1, 3), (0, 0)]
    );
}

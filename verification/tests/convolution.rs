use minkowski::convolution::{convolve, polygon_is_in_range, reduced_convolution, Conv};
use minkowski::geometry::Point;

fn points(coords: &[(i64, i64)]) -> Vec<Point> {
    coords.iter().map(|&(x, y)| Point::new(x, y)).collect()
}

fn ends(edges: &[Conv]) -> Vec<((i64, i64), (i64, i64))> {
    edges.iter().map(|e| ((e.p.z.x, e.p.z.y), (e.q.z.x, e.q.z.y))).collect()
}

fn ids(edges: &[Conv]) -> Vec<((usize, usize), (usize, usize))> {
    edges.iter().map(|e| ((e.p.i, e.p.j), (e.q.i, e.q.j))).collect()
}

fn unit_square() -> Vec<Point> {
    points(&[(0, 0), (1, 0), (1, 1), (0, 1)])
}

fn hexagon() -> Vec<Point> {
    points(&[(0, 0), (2, 0), (2, 1), (1, 1), (1, 2), (0, 2)])
}

#[test]
fn triangle_and_quadrilateral_give_seven_edges() {
    let a = points(&[(0, 0), (2, 1), (1, 3)]);
    let b = points(&[(0, 0), (5, 1), (4, 4), (-1, 2)]);
    let edges = reduced_convolution(&a, &b);
    assert_eq!(edges.len(), 3 + 4);
    assert_eq!(
        ends(&edges),
        vec![
            ((0, 0), (5, 1)),
            ((-1, 2), (0, 0)),
            ((7, 2), (6, 5)),
            ((5, 7), (0, 5)),
            ((5, 1), (7, 2)),
            ((6, 5), (5, 7)),
            ((0, 5), (-1, 2)),
        ]
    );
}

#[test]
fn edges_carry_the_indices_of_their_vertices() {
    let a = points(&[(0, 0), (2, 1), (1, 3)]);
    let b = points(&[(0, 0), (5, 1), (4, 4), (-1, 2)]);
    let edges = reduced_convolution(&a, &b);
    assert_eq!(
        ids(&edges),
        vec![
            ((0, 0), (0, 1)),
            ((0, 3), (0, 0)),
            ((1, 1), (1, 2)),
            ((2, 2), (2, 3)),
            ((0, 1), (1, 1)),
            ((1, 2), (2, 2)),
            ((2, 3), (0, 3)),
        ]
    );
    for e in &edges {
        assert_eq!(e.v, e.q.z.minus(e.p.z));
    }
}

#[test]
fn parallel_edges_are_taken_at_both_ends() {
    let a = unit_square();
    let edges = reduced_convolution(&a, &a);
    assert_eq!(edges.len(), 16);
    assert_eq!(
        ends(&edges[..8]),
        vec![
            ((0, 0), (1, 0)),
            ((0, 1), (0, 0)),
            ((1, 0), (2, 0)),
            ((2, 0), (2, 1)),
            ((2, 1), (2, 2)),
            ((2, 2), (1, 2)),
            ((1, 2), (0, 2)),
            ((0, 2), (0, 1)),
        ]
    );
}

#[test]
fn no_edge_stands_at_a_reflex_vertex() {
    let a = unit_square();
    let b = hexagon();
    let edges = reduced_convolution(&a, &b);
    assert_eq!(edges.len(), 22);
    let mut at_vertices_of_b = Vec::new();
    convolve(&b, &a, &mut at_vertices_of_b, true);
    assert_eq!(at_vertices_of_b.len(), 10);
    assert_eq!(ends(&at_vertices_of_b), ends(&edges[12..]));
    for e in &at_vertices_of_b {
        assert_eq!(e.p.j, e.q.j);
        assert_ne!(e.p.j, 3);
    }
    let mut count = [0; 6];
    for e in &at_vertices_of_b {
        count[e.p.j] += 1;
    }
    assert_eq!(count, [2, 2, 2, 0, 2, 2]);
}

#[test]
fn reflex_vertex_of_the_first_polygon_gives_no_edge() {
    let a = hexagon();
    let b = unit_square();
    let mut edges = Vec::new();
    convolve(&a, &b, &mut edges, false);
    for e in &edges {
        assert_eq!(e.p.i, e.q.i);
        assert_ne!(e.p.i, 3);
    }
}

#[test]
fn single_point_has_no_edges_of_its_own() {
    let a = unit_square();
    let b = points(&[(0, 0)]);
    let edges = reduced_convolution(&a, &b);
    assert_eq!(
        ends(&edges),
        vec![((0, 0), (1, 0)), ((1, 0), (1, 1)), ((1, 1), (0, 1)), ((0, 1), (0, 0))]
    );
    assert_eq!(
        ids(&edges),
        vec![((0, 0), (1, 0)), ((1, 0), (2, 0)), ((2, 0), (3, 0)), ((3, 0), (0, 0))]
    );
    let mut first = Vec::new();
    convolve(&a, &b, &mut first, false);
    assert!(first.is_empty());
}

#[test]
fn two_points_give_no_edge() {
    let edges = reduced_convolution(&points(&[(5, 5)]), &points(&[(1, 2)]));
    assert!(edges.is_empty());
}

#[test]
fn convolve_appends() {
    let a = unit_square();
    let mut edges = Vec::new();
    convolve(&a, &a, &mut edges, false);
    let first = ends(&edges);
    convolve(&a, &a, &mut edges, true);
    assert_eq!(edges.len(), 16);
    assert_eq!(ends(&edges[..8]), first);
}

#[test]
fn rotation_of_either_polygon_keeps_the_set_of_edges() {
    let a = hexagon();
    let b = points(&[(0, 0), (4, 2), (0, 4), (1, 2)]);
    let mut plain = ends(&reduced_convolution(&a, &b));
    plain.sort();
    for ra in 0..=a.len() {
        for rb in 0..=b.len() {
            let mut a1 = a.clone();
            a1.rotate_left(ra % a.len());
            let mut b1 = b.clone();
            b1.rotate_left(rb % b.len());
            let mut turned = ends(&reduced_convolution(&a1, &b1));
            turned.sort();
            assert_eq!(turned, plain);
        }
    }
}

#[test]
fn translation_moves_every_edge_by_the_sum() {
    let a = hexagon();
    let b = points(&[(0, 0), (4, 2), (0, 4), (1, 2)]);
    let plain = reduced_convolution(&a, &b);
    let a1: Vec<Point> = a.iter().map(|p| Point::new(p.x + 10, p.y - 3)).collect();
    let b1: Vec<Point> = b.iter().map(|p| Point::new(p.x - 4, p.y + 100)).collect();
    let moved = reduced_convolution(&a1, &b1);
    assert_eq!(ids(&moved), ids(&plain));
    assert_eq!(moved.len(), plain.len());
    for (m, e) in moved.iter().zip(plain.iter()) {
        assert_eq!(m.p.z, Point::new(e.p.z.x + 6, e.p.z.y + 97));
        assert_eq!(m.q.z, Point::new(e.q.z.x + 6, e.q.z.y + 97));
        assert_eq!(m.v, e.v);
    }
}

#[test]
fn range_of_coordinates() {
    assert!(polygon_is_in_range(&unit_square()));
    assert!(polygon_is_in_range(&points(&[])));
    assert!(polygon_is_in_range(&points(&[(1 << 30, 0), (0, -(1 << 30))])));
    assert!(!polygon_is_in_range(&points(&[(0, 0), ((1 << 30) + 1, 0)])));
}

#[test]
fn polygons_at_the_ends_of_the_range() {
    let far = 1 << 30;
    let a = points(&[(-far, -far), (far, -far), (far, far), (-far, far)]);
    let edges = reduced_convolution(&a, &a);
    assert_eq!(edges.len(), 16);
    assert_eq!(ends(&edges)[4], ((2 * far, 0), (2 * far, 2 * far)));
    assert_eq!(edges[4].v, Point::new(0, 2 * far));
}

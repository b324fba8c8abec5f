use vstd::prelude::*;
use crate::convolution::{
    convolution, polygon_in_range, reduced_convolution, segment, Conv,
};
use crate::crossing::RatPoint;
use crate::geometry::Point;
use crate::loops::{extract_loops, loops_of};
use crate::walk::lists_view;

verus! {

/// The sum of two polygons: the edges of their reduced convolution, each
/// as its two ends, and the loops of its boundary.
pub struct Minkowski {
    pub edges: Vec<(Point, Point)>,
    pub polygons: Vec<Vec<RatPoint>>,
}

/// The points with the given abscissas and ordinates, as many as both
/// lists have.
pub open spec fn zipped(xs: Seq<i64>, ys: Seq<i64>) -> Seq<Point> {
    Seq::new(
        if xs.len() <= ys.len() {
            xs.len()
        } else {
            ys.len()
        },
        |k: int| Point { x: xs[k], y: ys[k] },
    )
}

/// Computes [`zipped`].
pub fn zip_points(xs: &[i64], ys: &[i64]) -> (points: Vec<Point>)
    ensures
        points@ == zipped(xs@, ys@),
{
    let len: usize = if xs.len() <= ys.len() {
        xs.len()
    } else {
        ys.len()
    };
    let mut points: Vec<Point> = Vec::new();
    let mut k: usize = 0;
    while k < len
        invariant
            k <= len,
            len <= xs@.len(),
            len <= ys@.len(),
            points@ == zipped(xs@, ys@).take(k as int),
            zipped(xs@, ys@).len() == len,
        decreases len - k,
    {
        points.push(Point { x: xs[k], y: ys[k] });
        proof {
            assert(points@ =~= zipped(xs@, ys@).take(k + 1));
        }
        k += 1;
    }
    proof {
        assert(points@ =~= zipped(xs@, ys@));
    }
    points
}

/// The segments of the edges, in their order.
pub fn edge_segments(edges: &[Conv]) -> (found: Vec<(Point, Point)>)
    ensures
        found@ == edges@.map_values(|e: Conv| segment(e)),
{
    let mut found: Vec<(Point, Point)> = Vec::new();
    let mut k: usize = 0;
    while k < edges.len()
        invariant
            k <= edges.len(),
            found@ == edges@.map_values(|e: Conv| segment(e)).take(k as int),
        decreases edges.len() - k,
    {
        found.push((edges[k].p.z, edges[k].q.z));
        proof {
            assert(found@ =~= edges@.map_values(|e: Conv| segment(e)).take(k + 1));
        }
        k += 1;
    }
    proof {
        assert(found@ =~= edges@.map_values(|e: Conv| segment(e)));
    }
    found
}

/// Sums two polygons, each given by the abscissas and the ordinates of its
/// vertices.
pub fn minkowski(xs0: &[i64], ys0: &[i64], xs1: &[i64], ys1: &[i64]) -> (sum: Minkowski)
    requires
        zipped(xs0@, ys0@).len() >= 1,
        zipped(xs1@, ys1@).len() >= 1,
        polygon_in_range(zipped(xs0@, ys0@)),
        polygon_in_range(zipped(xs1@, ys1@)),
    ensures
        sum.edges@ == convolution(zipped(xs0@, ys0@), zipped(xs1@, ys1@)).map_values(
            |e: Conv| segment(e),
        ),
        lists_view(sum.polygons@) == loops_of(
            convolution(zipped(xs0@, ys0@), zipped(xs1@, ys1@)),
        ),
{
    let a = zip_points(xs0, ys0);
    let b = zip_points(xs1, ys1);
    let convolved = reduced_convolution(a.as_slice(), b.as_slice());
    Minkowski {
        edges: edge_segments(convolved.as_slice()),
        polygons: extract_loops(convolved.as_slice()),
    }
}

} // verus!

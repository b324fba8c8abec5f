use vstd::prelude::*;

verus! {

/// Largest absolute value that a polygon coordinate may have.
///
/// With coordinates in this range every product formed while crossings are
/// located and ordered fits in 128 bits.
pub const COORD_LIMIT: i64 = 0x4000_0000;

/// A vector of the integer plane, the model of [`Point`].
pub struct Vector {
    pub x: int,
    pub y: int,
}

impl Vector {
    /// Componentwise sum.
    pub open spec fn plus(self, other: Vector) -> Vector {
        Vector { x: self.x + other.x, y: self.y + other.y }
    }

    /// Componentwise difference.
    pub open spec fn minus(self, other: Vector) -> Vector {
        Vector { x: self.x - other.x, y: self.y - other.y }
    }

    /// The opposite vector.
    pub open spec fn negated(self) -> Vector {
        Vector { x: -self.x, y: -self.y }
    }

    /// Whether both coordinates are at most `bound` in absolute value.
    pub open spec fn within(self, bound: int) -> bool {
        -bound <= self.x <= bound && -bound <= self.y <= bound
    }
}

/// Cross product `u.x * v.y - v.x * u.y`: positive where `v` lies
/// counter-clockwise of `u`, zero where the two are parallel.
pub open spec fn cross(u: Vector, v: Vector) -> int {
    u.x * v.y - v.x * u.y
}

/// The tie-inclusive turn test: `v` is not clockwise of `u`.
pub open spec fn pos_cross(u: Vector, v: Vector) -> bool {
    cross(u, v) >= 0
}

/// A point, or a difference of points, with integer coordinates.
#[derive(Clone, Copy, Debug, PartialEq, Eq, Structural)]
pub struct Point {
    pub x: i64,
    pub y: i64,
}

impl View for Point {
    type V = Vector;

    open spec fn view(&self) -> Vector {
        Vector { x: self.x as int, y: self.y as int }
    }
}

/// The product of two 64-bit integers lies within `2^126` of zero.
pub proof fn lemma_product_bound(a: i64, b: i64)
    ensures
        -0x4000_0000_0000_0000_0000_0000_0000_0000 < a * b
            <= 0x4000_0000_0000_0000_0000_0000_0000_0000,
{
    assert(-0x4000_0000_0000_0000_0000_0000_0000_0000 < a * b
        <= 0x4000_0000_0000_0000_0000_0000_0000_0000) by (nonlinear_arith)
        requires
            -0x8000_0000_0000_0000 <= a < 0x8000_0000_0000_0000,
            -0x8000_0000_0000_0000 <= b < 0x8000_0000_0000_0000,
    ;
}

/// If `|a| <= m` and `|b| <= n` then `|a * b| <= m * n`.
pub proof fn lemma_product_within(a: int, b: int, m: int, n: int)
    requires
        -m <= a <= m,
        -n <= b <= n,
    ensures
        -(m * n) <= a * b <= m * n,
{
    assert(-(m * n) <= a * b <= m * n) by (nonlinear_arith)
        requires
            -m <= a <= m,
            -n <= b <= n,
    ;
}

impl Point {
    /// The point with the given coordinates.
    pub fn new(x: i64, y: i64) -> (p: Point)
        ensures
            p.x == x,
            p.y == y,
    {
        Point { x, y }
    }

    /// Whether the point may be a polygon vertex: both coordinates are at
    /// most [`COORD_LIMIT`] in absolute value.
    pub open spec fn in_range(self) -> bool {
        self@.within(COORD_LIMIT as int)
    }

    /// Decides [`Point::in_range`].
    pub fn is_in_range(&self) -> (b: bool)
        ensures
            b == self.in_range(),
    {
        -COORD_LIMIT <= self.x && self.x <= COORD_LIMIT && -COORD_LIMIT <= self.y && self.y
            <= COORD_LIMIT
    }

    /// Componentwise sum.
    pub fn plus(self, other: Point) -> (r: Point)
        requires
            i64::MIN <= self.x + other.x <= i64::MAX,
            i64::MIN <= self.y + other.y <= i64::MAX,
        ensures
            r@ == self@.plus(other@),
    {
        Point { x: self.x + other.x, y: self.y + other.y }
    }

    /// Componentwise difference.
    pub fn minus(self, other: Point) -> (r: Point)
        requires
            i64::MIN <= self.x - other.x <= i64::MAX,
            i64::MIN <= self.y - other.y <= i64::MAX,
        ensures
            r@ == self@.minus(other@),
    {
        Point { x: self.x - other.x, y: self.y - other.y }
    }
}

/// Computes [`cross`] exactly; no pair of 64-bit vectors overflows it.
pub fn cross_product(u: Point, v: Point) -> (r: i128)
    ensures
        r == cross(u@, v@),
{
    proof {
        lemma_product_bound(u.x, v.y);
        lemma_product_bound(v.x, u.y);
    }
    let a: i128 = (u.x as i128) * (v.y as i128);
    let b: i128 = (v.x as i128) * (u.y as i128);
    a - b
}

/// Decides [`pos_cross`].
pub fn is_pos_cross(u: Point, v: Point) -> (b: bool)
    ensures
        b == pos_cross(u@, v@),
{
    cross_product(u, v) >= 0
}

/// For three vectors, the cross products are tied by
/// `cross(a, c) * b.x == cross(a, b) * c.x + cross(b, c) * a.x`.
pub proof fn lemma_cross_chain_x(a: Vector, b: Vector, c: Vector)
    ensures
        cross(a, c) * b.x == cross(a, b) * c.x + cross(b, c) * a.x,
{
    assert((a.x * c.y - c.x * a.y) * b.x == (a.x * c.y) * b.x - (c.x * a.y) * b.x)
        by (nonlinear_arith);
    assert((a.x * b.y - b.x * a.y) * c.x == (a.x * b.y) * c.x - (b.x * a.y) * c.x)
        by (nonlinear_arith);
    assert((b.x * c.y - c.x * b.y) * a.x == (b.x * c.y) * a.x - (c.x * b.y) * a.x)
        by (nonlinear_arith);
    assert((a.x * c.y) * b.x == (b.x * c.y) * a.x) by (nonlinear_arith);
    assert((c.x * a.y) * b.x == (b.x * a.y) * c.x) by (nonlinear_arith);
    assert((a.x * b.y) * c.x == (c.x * b.y) * a.x) by (nonlinear_arith);
}

/// For three vectors, the cross products are tied by
/// `cross(a, c) * b.y == cross(a, b) * c.y + cross(b, c) * a.y`.
pub proof fn lemma_cross_chain(a: Vector, b: Vector, c: Vector)
    ensures
        cross(a, c) * b.y == cross(a, b) * c.y + cross(b, c) * a.y,
{
    assert((a.x * c.y - c.x * a.y) * b.y == (a.x * c.y) * b.y - (c.x * a.y) * b.y)
        by (nonlinear_arith);
    assert((a.x * b.y - b.x * a.y) * c.y == (a.x * b.y) * c.y - (b.x * a.y) * c.y)
        by (nonlinear_arith);
    assert((b.x * c.y - c.x * b.y) * a.y == (b.x * c.y) * a.y - (c.x * b.y) * a.y)
        by (nonlinear_arith);
    assert((a.x * c.y) * b.y == (a.x * b.y) * c.y) by (nonlinear_arith);
    assert((c.x * a.y) * b.y == (c.x * b.y) * a.y) by (nonlinear_arith);
    assert((b.x * a.y) * c.y == (b.x * c.y) * a.y) by (nonlinear_arith);
}

/// The sign of a product is the product of the signs.
pub proof fn lemma_sign_of_product(p: int, q: int)
    ensures
        p > 0 && q > 0 ==> p * q > 0,
        p < 0 && q < 0 ==> p * q > 0,
        p > 0 && q < 0 ==> p * q < 0,
        p < 0 && q > 0 ==> p * q < 0,
        p == 0 || q == 0 ==> p * q == 0,
{
    assert(p > 0 && q > 0 ==> p * q > 0) by (nonlinear_arith);
    assert(p < 0 && q < 0 ==> p * q > 0) by (nonlinear_arith);
    assert(p > 0 && q < 0 ==> p * q < 0) by (nonlinear_arith);
    assert(p < 0 && q > 0 ==> p * q < 0) by (nonlinear_arith);
    assert(p == 0 || q == 0 ==> p * q == 0) by (nonlinear_arith);
}

/// The cross product of a vector with itself is zero.
pub proof fn lemma_cross_self(a: Vector)
    ensures
        cross(a, a) == 0,
{
}

/// The cross product changes its sign when the two vectors change places.
pub proof fn lemma_cross_swap(a: Vector, b: Vector)
    ensures
        cross(a, b) == -cross(b, a),
{
    assert(a.x * b.y - b.x * a.y == -(b.x * a.y - a.x * b.y)) by (nonlinear_arith);
}

/// Cross product is additive in its second argument.
pub proof fn lemma_cross_additive(v: Vector, p: Vector, q: Vector)
    ensures
        cross(v, p.plus(q)) == cross(v, p) + cross(v, q),
{
    assert(v.x * (p.y + q.y) == v.x * p.y + v.x * q.y) by (nonlinear_arith);
    assert((p.x + q.x) * v.y == p.x * v.y + q.x * v.y) by (nonlinear_arith);
}

/// Cross product with the opposite vector is the opposite.
pub proof fn lemma_cross_negated(v: Vector, w: Vector)
    ensures
        cross(v, w.negated()) == -cross(v, w),
{
    assert(v.x * (-w.y) == -(v.x * w.y)) by (nonlinear_arith);
    assert((-w.x) * v.y == -(w.x * v.y)) by (nonlinear_arith);
}

} // verus!

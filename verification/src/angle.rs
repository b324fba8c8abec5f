use vstd::prelude::*;
use crate::geometry::{
    cross, cross_product, lemma_cross_chain, lemma_cross_self, lemma_cross_swap,
    lemma_sign_of_product, Point, Vector,
};

verus! {

/// The four parts of the plane by which directions are ordered first, in
/// the order in which the polar angle passes through them from `-pi` up.
#[derive(Clone, Copy, Debug, PartialEq, Eq, Structural)]
pub enum Region {
    /// Below the horizontal axis.
    NegativeY,
    /// On the horizontal axis, at or right of the origin.
    NonnegativeX,
    /// Above the horizontal axis.
    PositiveY,
    /// On the horizontal axis, left of the origin.
    NegativeX,
}

impl Region {
    /// Position of the region in the order of the polar angle, from 1.
    pub open spec fn rank(self) -> int {
        match self {
            Region::NegativeY => 1,
            Region::NonnegativeX => 2,
            Region::PositiveY => 3,
            Region::NegativeX => 4,
        }
    }

    /// The region in which a vector lies.
    pub open spec fn of(v: Vector) -> Region {
        if v.y < 0 {
            Region::NegativeY
        } else if v.y > 0 {
            Region::PositiveY
        } else if v.x < 0 {
            Region::NegativeX
        } else {
            Region::NonnegativeX
        }
    }

    /// Computes [`Region::rank`].
    pub fn index(&self) -> (r: u8)
        ensures
            r == self.rank(),
    {
        match self {
            Region::NegativeY => 1,
            Region::NonnegativeX => 2,
            Region::PositiveY => 3,
            Region::NegativeX => 4,
        }
    }
}

/// A direction used as a sort key. The order follows the polar angle of the
/// vector; a direction that has no finite vector is `Indeterminate`, and
/// all such directions form one class below every other.
#[derive(Clone, Copy, Debug, PartialEq, Eq, Structural)]
pub enum Angle {
    Indeterminate,
    Direction { x: i64, y: i64 },
}

impl Angle {
    /// The region of the direction; `None` for an indeterminate one.
    pub open spec fn spec_region(self) -> Option<Region> {
        match self {
            Angle::Indeterminate => None,
            Angle::Direction { x, y } => Some(Region::of(Vector { x: x as int, y: y as int })),
        }
    }

    /// Rank of the region, with 0 for an indeterminate direction.
    pub open spec fn rank(self) -> int {
        match self.spec_region() {
            None => 0,
            Some(r) => r.rank(),
        }
    }

    /// The vector of the direction; the zero vector for an indeterminate one.
    pub open spec fn vector(self) -> Vector {
        match self {
            Angle::Indeterminate => Vector { x: 0, y: 0 },
            Angle::Direction { x, y } => Vector { x: x as int, y: y as int },
        }
    }

    /// The strict angle order: `self` comes before `other` where its region
    /// comes first, or where both lie in one region and `other` is
    /// counter-clockwise of `self`.
    pub open spec fn before(self, other: Angle) -> bool {
        self.rank() < other.rank() || (self.rank() == other.rank() && cross(
            self.vector(),
            other.vector(),
        ) > 0)
    }

    /// Neither comes before the other: both are indeterminate, or they
    /// point the same way.
    pub open spec fn same(self, other: Angle) -> bool {
        !self.before(other) && !other.before(self)
    }

    /// The direction of a vector.
    pub fn of(v: Point) -> (a: Angle)
        ensures
            a == (Angle::Direction { x: v.x, y: v.y }),
            a.vector() == v@,
    {
        Angle::Direction { x: v.x, y: v.y }
    }

    /// Returns `None` for an indeterminate direction, else its region.
    pub fn region(&self) -> (r: Option<Region>)
        ensures
            r == self.spec_region(),
    {
        match self {
            Angle::Indeterminate => None,
            Angle::Direction { x, y } => {
                if *y < 0 {
                    Some(Region::NegativeY)
                } else if *y > 0 {
                    Some(Region::PositiveY)
                } else if *x < 0 {
                    Some(Region::NegativeX)
                } else {
                    Some(Region::NonnegativeX)
                }
            },
        }
    }

    /// Computes [`Angle::rank`].
    fn region_index(&self) -> (r: u8)
        ensures
            r == self.rank(),
    {
        match self.region() {
            None => 0,
            Some(r) => r.index(),
        }
    }

    /// Decides [`Angle::before`].
    pub fn precedes(&self, other: &Angle) -> (b: bool)
        ensures
            b == self.before(*other),
    {
        let r0: u8 = self.region_index();
        let r1: u8 = other.region_index();
        if r0 != r1 {
            r0 < r1
        } else {
            match (self, other) {
                (Angle::Direction { x: x0, y: y0 }, Angle::Direction { x: x1, y: y1 }) => {
                    cross_product(Point { x: *x0, y: *y0 }, Point { x: *x1, y: *y1 }) > 0
                },
                _ => false,
            }
        }
    }

    /// Decides [`Angle::same`].
    pub fn coincides(&self, other: &Angle) -> (b: bool)
        ensures
            b == self.same(*other),
    {
        !self.precedes(other) && !other.precedes(self)
    }
}

/// Among three vectors of one region above or below the horizontal axis,
/// the sign of `cross(a, c)` follows from those of `cross(a, b)` and
/// `cross(b, c)` where these agree.
proof fn lemma_cross_in_region(a: Vector, b: Vector, c: Vector)
    requires
        (a.y > 0 && b.y > 0 && c.y > 0) || (a.y < 0 && b.y < 0 && c.y < 0),
    ensures
        cross(a, b) > 0 && cross(b, c) >= 0 ==> cross(a, c) > 0,
        cross(a, b) >= 0 && cross(b, c) > 0 ==> cross(a, c) > 0,
        cross(a, b) <= 0 && cross(b, c) <= 0 ==> cross(a, c) <= 0,
{
    lemma_cross_chain(a, b, c);
    lemma_sign_of_product(cross(a, c), b.y);
    lemma_sign_of_product(cross(a, b), c.y);
    lemma_sign_of_product(cross(b, c), a.y);
}

/// Two vectors on the horizontal axis are parallel.
proof fn lemma_cross_on_axis(a: Vector, b: Vector)
    requires
        a.y == 0,
        b.y == 0,
    ensures
        cross(a, b) == 0,
{
    lemma_sign_of_product(a.x, b.y);
    lemma_sign_of_product(b.x, a.y);
}

/// The angle order on vectors: `u` comes before `v` where its region comes
/// first, or where both lie in one region and `v` is counter-clockwise of
/// `u`.
pub open spec fn direction_before(u: Vector, v: Vector) -> bool {
    Region::of(u).rank() < Region::of(v).rank() || (Region::of(u).rank() == Region::of(v).rank()
        && cross(u, v) > 0)
}

/// Neither vector comes before the other: they point the same way.
pub open spec fn direction_same(u: Vector, v: Vector) -> bool {
    !direction_before(u, v) && !direction_before(v, u)
}

/// The angle order on vectors is a strict weak order.
pub proof fn lemma_direction_order(u: Vector, v: Vector, w: Vector)
    ensures
        !direction_before(u, u),
        !(direction_before(u, v) && direction_before(v, u)),
        direction_before(u, v) && direction_before(v, w) ==> direction_before(u, w),
        !direction_before(u, v) && !direction_before(v, w) ==> !direction_before(u, w),
{
    lemma_cross_self(u);
    lemma_cross_swap(u, v);
    if Region::of(u).rank() == Region::of(v).rank() && Region::of(v).rank() == Region::of(
        w,
    ).rank() {
        if u.y == 0 {
            lemma_cross_on_axis(u, v);
            lemma_cross_on_axis(u, w);
        } else {
            lemma_cross_in_region(u, v, w);
        }
    }
}

impl Angle {
    /// Between two directions that have vectors, the order is the angle
    /// order of the vectors.
    pub proof fn lemma_before_is_direction_before(a: Angle, b: Angle)
        requires
            a is Direction,
            b is Direction,
        ensures
            a.before(b) == direction_before(a.vector(), b.vector()),
            a.same(b) == direction_same(a.vector(), b.vector()),
    {
    }

    /// No direction comes before itself.
    pub proof fn lemma_irreflexive(a: Angle)
        ensures
            !a.before(a),
            a.same(a),
    {
        lemma_cross_self(a.vector());
    }

    /// Of two directions at most one comes before the other, so exactly
    /// one of three holds: the first comes before the second, the second
    /// before the first, or the two are the same.
    pub proof fn lemma_asymmetric(a: Angle, b: Angle)
        ensures
            !(a.before(b) && b.before(a)),
            a.before(b) || b.before(a) || a.same(b),
            a.same(b) == b.same(a),
    {
        lemma_cross_swap(a.vector(), b.vector());
    }

    /// The order is transitive.
    pub proof fn lemma_transitive(a: Angle, b: Angle, c: Angle)
        requires
            a.before(b),
            b.before(c),
        ensures
            a.before(c),
    {
        if a.rank() == b.rank() && b.rank() == c.rank() {
            if a.vector().y == 0 {
                lemma_cross_on_axis(a.vector(), b.vector());
            } else {
                lemma_cross_in_region(a.vector(), b.vector(), c.vector());
            }
        }
    }

    /// What does not come before is transitive too: if `a` does not come
    /// before `b`, nor `b` before `c`, then `a` does not come before `c`.
    /// With this, being the same direction is an equivalence, and the order
    /// is a strict total order of the classes of same directions.
    pub proof fn lemma_negatively_transitive(a: Angle, b: Angle, c: Angle)
        requires
            !a.before(b),
            !b.before(c),
        ensures
            !a.before(c),
    {
        if a.rank() == b.rank() && b.rank() == c.rank() {
            if a.vector().y == 0 {
                lemma_cross_on_axis(a.vector(), c.vector());
            } else {
                lemma_cross_in_region(a.vector(), b.vector(), c.vector());
            }
        }
    }

    /// All indeterminate directions are the same, and they come before
    /// every other direction.
    pub proof fn lemma_indeterminate_least(a: Angle, b: Angle)
        requires
            a is Indeterminate,
        ensures
            b is Indeterminate ==> a.same(b),
            b is Direction ==> a.before(b),
            !b.before(a),
    {
        lemma_cross_self(a.vector());
        lemma_sign_of_product(0, b.vector().y);
        lemma_sign_of_product(b.vector().x, 0);
    }

    /// The order follows the polar angle: within the half plane above the
    /// horizontal axis, and within the one below, a direction comes before
    /// those that lie counter-clockwise of it; every direction below the
    /// axis comes before the directions along the positive axis, these
    /// before every direction above the axis, and these before the
    /// directions along the negative axis.
    pub proof fn lemma_follows_polar_angle(a: Angle, b: Angle)
        requires
            a is Direction,
            b is Direction,
        ensures
            a.vector().y < 0 && b.vector().y >= 0 ==> a.before(b),
            a.vector().y == 0 && a.vector().x >= 0 && b.vector().y > 0 ==> a.before(b),
            a.vector().y >= 0 && b.vector().y == 0 && b.vector().x < 0 && !(a.vector().y == 0
                && a.vector().x < 0) ==> a.before(b),
            a.vector().y == 0 && b.vector().y == 0 && (a.vector().x < 0) == (b.vector().x < 0)
                ==> a.same(b),
            (a.vector().y > 0 && b.vector().y > 0) || (a.vector().y < 0 && b.vector().y < 0)
                ==> a.before(b) == (cross(a.vector(), b.vector()) > 0),
    {
        if a.vector().y == 0 && b.vector().y == 0 {
            lemma_cross_on_axis(a.vector(), b.vector());
            lemma_cross_on_axis(b.vector(), a.vector());
        }
    }
}

} // verus!

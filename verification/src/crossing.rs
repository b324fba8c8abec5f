use vstd::prelude::*;
use crate::convolution::{edges_wf, Conv};
use crate::geometry::{cross, cross_product, lemma_product_within, Point};

verus! {

/// A position along an edge, strictly between its ends: the ratio
/// `num / den` with `0 < num < den`.
#[derive(Clone, Copy, Debug, PartialEq, Eq, Structural)]
pub struct Param {
    pub num: u64,
    pub den: u64,
}

impl Param {
    /// The ratio lies strictly between 0 and 1.
    pub open spec fn wf(self) -> bool {
        0 < self.num < self.den
    }

    /// `self` is the smaller ratio.
    pub open spec fn before(self, other: Param) -> bool {
        self.num * other.den < other.num * self.den
    }

    /// Decides [`Param::before`] by cross-multiplication.
    pub fn precedes(&self, other: &Param) -> (b: bool)
        ensures
            b == self.before(*other),
    {
        proof {
            lemma_product_within(
                self.num as int,
                other.den as int,
                0xffff_ffff_ffff_ffff,
                0xffff_ffff_ffff_ffff,
            );
            lemma_product_within(
                other.num as int,
                self.den as int,
                0xffff_ffff_ffff_ffff,
                0xffff_ffff_ffff_ffff,
            );
        }
        (self.num as u128) * (other.den as u128) < (other.num as u128) * (self.den as u128)
    }
}

/// For ratios with positive denominators, `a / da < b / db` and
/// `b / db <= c / dc` give `a / da < c / dc`, and so do `<=` and `<` in
/// this order; two `<=` give `<=`.
proof fn lemma_ratio_chain(a: int, da: int, b: int, db: int, c: int, dc: int)
    requires
        da > 0,
        db > 0,
        dc > 0,
    ensures
        a * db < b * da && b * dc <= c * db ==> a * dc < c * da,
        a * db <= b * da && b * dc < c * db ==> a * dc < c * da,
        a * db <= b * da && b * dc <= c * db ==> a * dc <= c * da,
{
    assert((a * db) * dc == (a * dc) * db) by (nonlinear_arith);
    assert((b * da) * dc == (b * dc) * da) by (nonlinear_arith);
    assert((c * db) * da == (c * da) * db) by (nonlinear_arith);
    assert(a * db < b * da ==> (a * db) * dc < (b * da) * dc) by (nonlinear_arith)
        requires
            dc > 0,
    ;
    assert(a * db <= b * da ==> (a * db) * dc <= (b * da) * dc) by (nonlinear_arith)
        requires
            dc > 0,
    ;
    assert(b * dc < c * db ==> (b * dc) * da < (c * db) * da) by (nonlinear_arith)
        requires
            da > 0,
    ;
    assert(b * dc <= c * db ==> (b * dc) * da <= (c * db) * da) by (nonlinear_arith)
        requires
            da > 0,
    ;
    assert((a * dc) * db < (c * da) * db ==> a * dc < c * da) by (nonlinear_arith)
        requires
            db > 0,
    ;
    assert((a * dc) * db <= (c * da) * db ==> a * dc <= c * da) by (nonlinear_arith)
        requires
            db > 0,
    ;
}

impl Param {
    /// Among ratios with positive denominators the order is a strict weak
    /// order.
    pub proof fn lemma_order(a: Param, b: Param, c: Param)
        requires
            a.den > 0,
            b.den > 0,
            c.den > 0,
        ensures
            !a.before(a),
            a.before(b) && b.before(c) ==> a.before(c),
            !a.before(b) && !b.before(c) ==> !a.before(c),
            a.before(b) && !c.before(b) ==> a.before(c),
            !b.before(a) && b.before(c) ==> a.before(c),
    {
        lemma_ratio_chain(
            a.num as int,
            a.den as int,
            b.num as int,
            b.den as int,
            c.num as int,
            c.den as int,
        );
        lemma_ratio_chain(
            c.num as int,
            c.den as int,
            b.num as int,
            b.den as int,
            a.num as int,
            a.den as int,
        );
    }
}

/// A point with rational coordinates `x / d` and `y / d`, `d > 0`.
#[derive(Clone, Copy, Debug, PartialEq, Eq, Structural)]
pub struct RatPoint {
    pub x: i128,
    pub y: i128,
    pub d: i128,
}

impl RatPoint {
    /// The rational point that is the integer point `p`.
    pub open spec fn whole(p: Point) -> RatPoint {
        RatPoint { x: p.x as i128, y: p.y as i128, d: 1 }
    }

    /// Computes [`RatPoint::whole`].
    pub fn from_point(p: Point) -> (r: RatPoint)
        ensures
            r == RatPoint::whole(p),
    {
        RatPoint { x: p.x as i128, y: p.y as i128, d: 1 }
    }
}

/// Whether `num / den` lies strictly between 0 and 1. A zero denominator
/// gives no ratio and so `false`.
pub open spec fn strictly_inside(num: int, den: int) -> bool {
    (den > 0 && 0 < num < den) || (den < 0 && den < num < 0)
}

/// Absolute value.
pub open spec fn magnitude(x: int) -> int {
    if x < 0 {
        -x
    } else {
        x
    }
}

/// Two edges between which no crossing is looked for: they share an end,
/// or all four ends lie over one vertex of the first polygon, or all four
/// lie over one vertex of the second. For simple polygons such edges meet
/// at shared ends only.
pub open spec fn adjacent(e0: Conv, e1: Conv) -> bool {
    ||| e0.p.same_id(e1.p)
    ||| e0.q.same_id(e1.p)
    ||| e0.p.same_id(e1.q)
    ||| e0.q.same_id(e1.q)
    ||| (e0.p.i == e0.q.i && e0.p.i == e1.p.i && e0.p.i == e1.q.i)
    ||| (e0.p.j == e0.q.j && e0.p.j == e1.p.j && e0.p.j == e1.q.j)
}

/// Denominator of both crossing parameters of two edges.
pub open spec fn crossing_den(e0: Conv, e1: Conv) -> int {
    cross(e0.v@, e1.v@)
}

/// Numerator of the crossing parameter along `e0`.
pub open spec fn crossing_num0(e0: Conv, e1: Conv) -> int {
    cross(e1.p.z@.minus(e0.p.z@), e1.v@)
}

/// Numerator of the crossing parameter along `e1`.
pub open spec fn crossing_num1(e0: Conv, e1: Conv) -> int {
    cross(e1.p.z@.minus(e0.p.z@), e0.v@)
}

/// The two edges meet in a point that lies strictly inside both. Parallel
/// edges do not: their denominator is zero.
pub open spec fn intersects(e0: Conv, e1: Conv) -> bool {
    &&& strictly_inside(crossing_num0(e0, e1), crossing_den(e0, e1))
    &&& strictly_inside(crossing_num1(e0, e1), crossing_den(e0, e1))
}

/// The two edges are not adjacent and meet strictly inside both.
pub open spec fn crosses(e0: Conv, e1: Conv) -> bool {
    !adjacent(e0, e1) && intersects(e0, e1)
}

/// Where two crossing edges meet: the position along the first and the
/// position along the second.
pub open spec fn crossing_params(e0: Conv, e1: Conv) -> (Param, Param) {
    let den = magnitude(crossing_den(e0, e1)) as u64;
    (
        Param { num: magnitude(crossing_num0(e0, e1)) as u64, den },
        Param { num: magnitude(crossing_num1(e0, e1)) as u64, den },
    )
}

/// The point at position `t` along the edge `e`.
pub open spec fn point_along(e: Conv, t: Param) -> RatPoint {
    RatPoint {
        x: (e.p.z.x * t.den + t.num * e.v.x) as i128,
        y: (e.p.z.y * t.den + t.num * e.v.y) as i128,
        d: t.den as i128,
    }
}

/// Decides [`adjacent`].
pub fn is_adjacent(e0: &Conv, e1: &Conv) -> (b: bool)
    ensures
        b == adjacent(*e0, *e1),
{
    (e0.p.i == e1.p.i && e0.p.j == e1.p.j) || (e0.q.i == e1.p.i && e0.q.j == e1.p.j) || (e0.p.i
        == e1.q.i && e0.p.j == e1.q.j) || (e0.q.i == e1.q.i && e0.q.j == e1.q.j) || (e0.p.i
        == e0.q.i && e0.p.i == e1.p.i && e0.p.i == e1.q.i) || (e0.p.j == e0.q.j && e0.p.j
        == e1.p.j && e0.p.j == e1.q.j)
}

/// Bounds of the crossing numerators and denominator of well-formed edges.
pub proof fn lemma_crossing_bounds(e0: Conv, e1: Conv)
    requires
        e0.wf(),
        e1.wf(),
    ensures
        -0x8000_0000_0000_0000 <= crossing_den(e0, e1) <= 0x8000_0000_0000_0000,
        -0x1_0000_0000_0000_0000 <= crossing_num0(e0, e1) <= 0x1_0000_0000_0000_0000,
        -0x1_0000_0000_0000_0000 <= crossing_num1(e0, e1) <= 0x1_0000_0000_0000_0000,
{
    let w = e1.p.z@.minus(e0.p.z@);
    lemma_product_within(e0.v@.x, e1.v@.y, 0x8000_0000, 0x8000_0000);
    lemma_product_within(e1.v@.x, e0.v@.y, 0x8000_0000, 0x8000_0000);
    lemma_product_within(w.x, e1.v@.y, 0x1_0000_0000, 0x8000_0000);
    lemma_product_within(e1.v@.x, w.y, 0x8000_0000, 0x1_0000_0000);
    lemma_product_within(w.x, e0.v@.y, 0x1_0000_0000, 0x8000_0000);
    lemma_product_within(e0.v@.x, w.y, 0x8000_0000, 0x1_0000_0000);
}

/// Decides [`strictly_inside`].
fn is_strictly_inside(num: i128, den: i128) -> (b: bool)
    ensures
        b == strictly_inside(num as int, den as int),
{
    (den > 0 && 0 < num && num < den) || (den < 0 && den < num && num < 0)
}

/// The absolute value of a number that has one in 64 bits.
fn magnitude_of(x: i128) -> (r: u64)
    requires
        -0xffff_ffff_ffff_ffff <= x <= 0xffff_ffff_ffff_ffff,
    ensures
        r == magnitude(x as int),
{
    if x < 0 {
        (-x) as u64
    } else {
        x as u64
    }
}

/// Solves for the point in which two edges meet: `None` unless it lies
/// strictly inside both, else its position along each.
pub fn intersection(e0: &Conv, e1: &Conv) -> (r: Option<(Param, Param)>)
    requires
        e0.wf(),
        e1.wf(),
    ensures
        r.is_some() == intersects(*e0, *e1),
        r.is_some() ==> r.unwrap() == crossing_params(*e0, *e1),
        r.is_some() ==> r.unwrap().0.wf() && r.unwrap().1.wf(),
{
    proof {
        lemma_crossing_bounds(*e0, *e1);
    }
    let w = e1.p.z.minus(e0.p.z);
    let den: i128 = cross_product(e0.v, e1.v);
    let num0: i128 = cross_product(w, e1.v);
    let num1: i128 = cross_product(w, e0.v);
    if is_strictly_inside(num0, den) && is_strictly_inside(num1, den) {
        let d: u64 = magnitude_of(den);
        Some((Param { num: magnitude_of(num0), den: d }, Param { num: magnitude_of(num1), den: d }))
    } else {
        None
    }
}

/// Looks for the crossing of two edges: `None` where they are adjacent or
/// do not meet, else the position of the crossing along each.
pub fn crossing(e0: &Conv, e1: &Conv) -> (r: Option<(Param, Param)>)
    requires
        e0.wf(),
        e1.wf(),
    ensures
        r.is_some() == crosses(*e0, *e1),
        r.is_some() ==> r.unwrap() == crossing_params(*e0, *e1),
        r.is_some() ==> r.unwrap().0.wf() && r.unwrap().1.wf(),
{
    if is_adjacent(e0, e1) {
        None
    } else {
        intersection(e0, e1)
    }
}

/// Computes [`point_along`] for a position whose denominator is that of a
/// crossing.
pub fn locate(e: &Conv, t: &Param) -> (r: RatPoint)
    requires
        e.wf(),
        t.wf(),
        t.den <= 0x8000_0000_0000_0000,
    ensures
        r == point_along(*e, *t),
        r.d > 0,
{
    proof {
        lemma_product_within(e.p.z.x as int, t.den as int, 0x8000_0000, 0x8000_0000_0000_0000);
        lemma_product_within(e.p.z.y as int, t.den as int, 0x8000_0000, 0x8000_0000_0000_0000);
        lemma_product_within(t.num as int, e.v.x as int, 0x8000_0000_0000_0000, 0x8000_0000);
        lemma_product_within(t.num as int, e.v.y as int, 0x8000_0000_0000_0000, 0x8000_0000);
    }
    RatPoint {
        x: (e.p.z.x as i128) * (t.den as i128) + (t.num as i128) * (e.v.x as i128),
        y: (e.p.z.y as i128) * (t.den as i128) + (t.num as i128) * (e.v.y as i128),
        d: t.den as i128,
    }
}

/// A crossing of two edges, `m < n`, with its position along each.
#[derive(Clone, Copy, Debug, PartialEq, Eq, Structural)]
pub struct Crossing {
    /// Index of the first edge.
    pub m: usize,
    /// Index of the second edge.
    pub n: usize,
    /// Position along the first edge.
    pub t_m: Param,
    /// Position along the second edge.
    pub t_n: Param,
}

/// The crossing of the edges with indices `m` and `n`.
pub open spec fn crossing_at(edges: Seq<Conv>, m: int, n: int) -> Crossing {
    let t = crossing_params(edges[m], edges[n]);
    Crossing { m: m as usize, n: n as usize, t_m: t.0, t_n: t.1 }
}

/// The crossings of edge `m` with the edges `m + 1 .. hi`, by rising index.
pub open spec fn crossings_row(edges: Seq<Conv>, m: int, hi: int) -> Seq<Crossing>
    decreases hi - m,
{
    if hi <= m + 1 {
        Seq::empty()
    } else if crosses(edges[m], edges[hi - 1]) {
        crossings_row(edges, m, hi - 1).push(crossing_at(edges, m, hi - 1))
    } else {
        crossings_row(edges, m, hi - 1)
    }
}

/// The crossings of the edges `0 .. upto` with every later edge: row by
/// row, so ordered by the pair of indices.
pub open spec fn crossings_upto(edges: Seq<Conv>, upto: int) -> Seq<Crossing>
    decreases upto,
{
    if upto <= 0 {
        Seq::empty()
    } else {
        crossings_upto(edges, upto - 1) + crossings_row(edges, upto - 1, edges.len() as int)
    }
}

/// All crossings among the edges, ordered by the pair of edge indices.
pub open spec fn crossings(edges: Seq<Conv>) -> Seq<Crossing> {
    crossings_upto(edges, edges.len() as int)
}

/// Finds every crossing among the edges.
pub fn find_crossings(edges: &[Conv]) -> (xs: Vec<Crossing>)
    requires
        edges_wf(edges@),
    ensures
        xs@ == crossings(edges@),
{
    let mut xs: Vec<Crossing> = Vec::new();
    let len: usize = edges.len();
    let mut m: usize = 0;
    while m < len
        invariant
            len == edges@.len(),
            m <= len,
            edges_wf(edges@),
            xs@ == crossings_upto(edges@, m as int),
        decreases len - m,
    {
        let ghost before = xs@;
        let mut n: usize = m + 1;
        while n < len
            invariant
                len == edges@.len(),
                m < len,
                m < n <= len,
                edges_wf(edges@),
                xs@ == before + crossings_row(edges@, m as int, n as int),
            decreases len - n,
        {
            match crossing(&edges[m], &edges[n]) {
                Some((t_m, t_n)) => {
                    xs.push(Crossing { m, n, t_m, t_n });
                },
                None => {},
            }
            n += 1;
        }
        m += 1;
    }
    xs
}

/// The positions of a crossing lie strictly inside the two edges, and
/// their common denominator is at most `2^63`.
pub proof fn lemma_crossing_params(e0: Conv, e1: Conv)
    requires
        e0.wf(),
        e1.wf(),
        crosses(e0, e1),
    ensures
        crossing_params(e0, e1).0.wf(),
        crossing_params(e0, e1).1.wf(),
        crossing_params(e0, e1).0.den == crossing_params(e0, e1).1.den,
        crossing_params(e0, e1).0.den <= 0x8000_0000_0000_0000,
{
    lemma_crossing_bounds(e0, e1);
}

/// `c` is the crossing of the two edges that it names, and these cross.
pub open spec fn crossing_ok(edges: Seq<Conv>, c: Crossing) -> bool {
    &&& c.m < c.n < edges.len()
    &&& crosses(edges[c.m as int], edges[c.n as int])
    &&& c == crossing_at(edges, c.m as int, c.n as int)
}

/// Every crossing of a row is the crossing of two edges that cross.
pub proof fn lemma_crossings_row_ok(edges: Seq<Conv>, m: int, hi: int)
    requires
        0 <= m,
        hi <= edges.len() <= usize::MAX,
    ensures
        forall|k: int|
            0 <= k < crossings_row(edges, m, hi).len() ==> crossing_ok(
                edges,
                #[trigger] crossings_row(edges, m, hi)[k],
            ),
    decreases hi - m,
{
    if hi > m + 1 {
        lemma_crossings_row_ok(edges, m, hi - 1);
        let rest = crossings_row(edges, m, hi - 1);
        let all = crossings_row(edges, m, hi);
        assert forall|k: int| 0 <= k < all.len() implies crossing_ok(edges, #[trigger] all[k]) by {
            if k < rest.len() {
                assert(all[k] == rest[k]);
            } else {
                assert(all[k] == crossing_at(edges, m, hi - 1));
            }
        }
    }
}

/// Every crossing found is the crossing of two edges that cross.
pub proof fn lemma_crossings_ok(edges: Seq<Conv>, upto: int)
    requires
        upto <= edges.len() <= usize::MAX,
    ensures
        forall|k: int|
            0 <= k < crossings_upto(edges, upto).len() ==> crossing_ok(
                edges,
                #[trigger] crossings_upto(edges, upto)[k],
            ),
    decreases upto,
{
    if upto > 0 {
        lemma_crossings_ok(edges, upto - 1);
        lemma_crossings_row_ok(edges, upto - 1, edges.len() as int);
        let rest = crossings_upto(edges, upto - 1);
        let row = crossings_row(edges, upto - 1, edges.len() as int);
        let all = crossings_upto(edges, upto);
        assert forall|k: int| 0 <= k < all.len() implies crossing_ok(edges, #[trigger] all[k]) by {
            if k < rest.len() {
                assert(all[k] == rest[k]);
            } else {
                assert(all[k] == row[k - rest.len()]);
            }
        }
    }
}

/// A pair of edges that cross is in its row.
pub proof fn lemma_crossings_row_complete(edges: Seq<Conv>, m: int, hi: int, n: int)
    requires
        m < n < hi,
        crosses(edges[m], edges[n]),
    ensures
        crossings_row(edges, m, hi).contains(crossing_at(edges, m, n)),
    decreases hi - m,
{
    let rest = crossings_row(edges, m, hi - 1);
    let all = crossings_row(edges, m, hi);
    if n == hi - 1 {
        assert(all[rest.len() as int] == crossing_at(edges, m, n));
    } else {
        lemma_crossings_row_complete(edges, m, hi - 1, n);
        let k = choose|k: int| 0 <= k < rest.len() && rest[k] == crossing_at(edges, m, n);
        assert(all[k] == rest[k]);
    }
}

/// Every pair of edges that cross is among the crossings; with
/// [`lemma_crossings_ok`], the crossings are the pairs that cross and no
/// others.
pub proof fn lemma_crossings_complete(edges: Seq<Conv>, upto: int, m: int, n: int)
    requires
        0 <= m < upto <= edges.len(),
        m < n < edges.len(),
        crosses(edges[m], edges[n]),
    ensures
        crossings_upto(edges, upto).contains(crossing_at(edges, m, n)),
    decreases upto,
{
    let rest = crossings_upto(edges, upto - 1);
    let row = crossings_row(edges, upto - 1, edges.len() as int);
    let all = crossings_upto(edges, upto);
    let x = crossing_at(edges, m, n);
    if m == upto - 1 {
        lemma_crossings_row_complete(edges, m, edges.len() as int, n);
        let k = choose|k: int| 0 <= k < row.len() && row[k] == x;
        assert(all[rest.len() + k] == x);
    } else {
        lemma_crossings_complete(edges, upto - 1, m, n);
        let k = choose|k: int| 0 <= k < rest.len() && rest[k] == x;
        assert(all[k] == x);
    }
}

/// The pair of edges of `c` comes before that of `d`.
pub open spec fn pair_before(c: Crossing, d: Crossing) -> bool {
    c.m < d.m || (c.m == d.m && c.n < d.n)
}

/// The crossings of a row are those of edge `m` with edges below `hi`, by
/// rising index of these.
proof fn lemma_crossings_row_sorted(edges: Seq<Conv>, m: int, hi: int)
    requires
        0 <= m,
        hi <= edges.len() <= usize::MAX,
    ensures
        forall|k: int|
            0 <= k < crossings_row(edges, m, hi).len() ==> (#[trigger] crossings_row(
                edges,
                m,
                hi,
            )[k]).m == m && crossings_row(edges, m, hi)[k].n < hi,
        forall|k: int, l: int|
            0 <= k < l < crossings_row(edges, m, hi).len() ==> pair_before(
                #[trigger] crossings_row(edges, m, hi)[k],
                #[trigger] crossings_row(edges, m, hi)[l],
            ),
    decreases hi - m,
{
    if hi > m + 1 {
        lemma_crossings_row_sorted(edges, m, hi - 1);
        let rest = crossings_row(edges, m, hi - 1);
        let all = crossings_row(edges, m, hi);
        assert forall|k: int| 0 <= k < all.len() implies (#[trigger] all[k]).m == m && all[k].n
            < hi by {
            if k < rest.len() {
                assert(all[k] == rest[k]);
            }
        }
        assert forall|k: int, l: int| 0 <= k < l < all.len() implies pair_before(
            #[trigger] all[k],
            #[trigger] all[l],
        ) by {
            assert(all[k] == rest[k]);
            if l < rest.len() {
                assert(all[l] == rest[l]);
            }
        }
    }
}

/// The crossings stand in the order of their pairs of edges, so none
/// stands twice.
pub proof fn lemma_crossings_sorted(edges: Seq<Conv>, upto: int)
    requires
        upto <= edges.len() <= usize::MAX,
    ensures
        forall|k: int|
            0 <= k < crossings_upto(edges, upto).len() ==> (#[trigger] crossings_upto(
                edges,
                upto,
            )[k]).m < upto,
        forall|k: int, l: int|
            0 <= k < l < crossings_upto(edges, upto).len() ==> pair_before(
                #[trigger] crossings_upto(edges, upto)[k],
                #[trigger] crossings_upto(edges, upto)[l],
            ),
    decreases upto,
{
    if upto > 0 {
        lemma_crossings_sorted(edges, upto - 1);
        lemma_crossings_row_sorted(edges, upto - 1, edges.len() as int);
        let rest = crossings_upto(edges, upto - 1);
        let row = crossings_row(edges, upto - 1, edges.len() as int);
        let all = crossings_upto(edges, upto);
        assert forall|k: int| 0 <= k < all.len() implies (#[trigger] all[k]).m < upto by {
            if k < rest.len() {
                assert(all[k] == rest[k]);
            } else {
                assert(all[k] == row[k - rest.len()]);
            }
        }
        assert forall|k: int, l: int| 0 <= k < l < all.len() implies pair_before(
            #[trigger] all[k],
            #[trigger] all[l],
        ) by {
            if l < rest.len() {
                assert(all[k] == rest[k] && all[l] == rest[l]);
            } else if k < rest.len() {
                assert(all[k] == rest[k] && all[l] == row[l - rest.len()]);
            } else {
                assert(all[k] == row[k - rest.len()] && all[l] == row[l - rest.len()]);
            }
        }
    }
}

/// The point in which arc number `n` ends: for the last arc of an edge the
/// end of the edge, for another arc the crossing, located along the first of
/// the two edges that cross there.
pub open spec fn tip_point(edges: Seq<Conv>, xs: Seq<Crossing>, n: int) -> RatPoint {
    if n < edges.len() {
        RatPoint::whole(edges[n].q.z)
    } else {
        let c = xs[(n - edges.len()) / 2];
        point_along(edges[c.m as int], c.t_m)
    }
}

/// The points in which the arcs end, by arc number.
pub open spec fn tip_points(edges: Seq<Conv>, xs: Seq<Crossing>) -> Seq<RatPoint> {
    Seq::new(edges.len() + 2 * xs.len(), |n: int| tip_point(edges, xs, n))
}

/// Computes [`tip_points`].
pub fn find_tips(edges: &[Conv], xs: &Vec<Crossing>) -> (tips: Vec<RatPoint>)
    requires
        edges_wf(edges@),
        xs@ == crossings(edges@),
    ensures
        tips@ == tip_points(edges@, xs@),
{
    let mut tips: Vec<RatPoint> = Vec::new();
    let len: usize = edges.len();
    let mut n: usize = 0;
    while n < len
        invariant
            len == edges@.len(),
            n <= len,
            tips@ == tip_points(edges@, xs@).take(n as int),
        decreases len - n,
    {
        tips.push(RatPoint::from_point(edges[n].q.z));
        proof {
            assert(tips@ =~= tip_points(edges@, xs@).take(n + 1));
        }
        n += 1;
    }
    proof {
        lemma_crossings_ok(edges@, edges@.len() as int);
    }
    let mut k: usize = 0;
    while k < xs.len()
        invariant
            len == edges@.len(),
            k <= xs.len(),
            edges_wf(edges@),
            forall|k: int| 0 <= k < xs.len() ==> crossing_ok(edges@, #[trigger] xs[k]),
            tips@ == tip_points(edges@, xs@).take(len + 2 * k),
        decreases xs.len() - k,
    {
        let c = xs[k];
        proof {
            assert(crossing_ok(edges@, xs[k as int]));
            lemma_crossing_params(edges@[c.m as int], edges@[c.n as int]);
        }
        let z = locate(&edges[c.m], &c.t_m);
        tips.push(z);
        tips.push(z);
        proof {
            assert(tips@ =~= tip_points(edges@, xs@).take(len + 2 * (k + 1)));
        }
        k += 1;
    }
    proof {
        assert(tips@ =~= tip_points(edges@, xs@));
    }
    tips
}

} // verus!

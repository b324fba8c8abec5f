use minkowski::angle::{Angle, Region};
use minkowski::geometry::{cross_product, is_pos_cross, Point};

fn direction(x: i64, y: i64) -> Angle {
    Angle::of(Point::new(x, y))
}

fn samples() -> Vec<(i64, i64)> {
    let mut all = Vec::new();
    for x in -3..=3 {
        for y in -3..=3 {
            if (x, y) != (0, 0) {
                all.push((x, y));
            }
        }
    }
    all
}

fn polar(v: (i64, i64)) -> f64 {
    (v.1 as f64).atan2(v.0 as f64)
}

#[test]
fn cross_product_of_small_vectors() {
    assert_eq!(cross_product(Point::new(1, 0), Point::new(0, 1)), 1);
    assert_eq!(cross_product(Point::new(0, 1), Point::new(1, 0)), -1);
    assert_eq!(cross_product(Point::new(2, 3), Point::new(5, 7)), 2 * 7 - 5 * 3);
    assert_eq!(cross_product(Point::new(2, 3), Point::new(4, 6)), 0);
}

#[test]
fn cross_product_at_the_ends_of_the_range() {
    let least = i64::MIN;
    let most = i64::MAX;
    assert_eq!(
        cross_product(Point::new(least, most), Point::new(most, least)),
        (least as i128) * (least as i128) - (most as i128) * (most as i128)
    );
    assert_eq!(
        cross_product(Point::new(least, least), Point::new(most, least)),
        (least as i128) * (least as i128) - (most as i128) * (least as i128)
    );
}

#[test]
fn pos_cross_includes_ties() {
    assert!(is_pos_cross(Point::new(1, 0), Point::new(0, 1)));
    assert!(is_pos_cross(Point::new(1, 1), Point::new(2, 2)));
    assert!(is_pos_cross(Point::new(1, 1), Point::new(-2, -2)));
    assert!(is_pos_cross(Point::new(0, 0), Point::new(5, -7)));
    assert!(!is_pos_cross(Point::new(0, 1), Point::new(1, 0)));
}

#[test]
fn point_arithmetic() {
    let p = Point::new(3, -4);
    let q = Point::new(-10, 6);
    assert_eq!(p.plus(q), Point::new(-7, 2));
    assert_eq!(p.minus(q), Point::new(13, -10));
    assert!(p.is_in_range());
    assert!(Point::new(1 << 30, -(1 << 30)).is_in_range());
    assert!(!Point::new((1 << 30) + 1, 0).is_in_range());
    assert!(!Point::new(0, -(1 << 30) - 1).is_in_range());
}

#[test]
fn regions_of_directions() {
    assert_eq!(direction(1, -1).region(), Some(Region::NegativeY));
    assert_eq!(direction(-5, -1).region(), Some(Region::NegativeY));
    assert_eq!(direction(0, 0).region(), Some(Region::NonnegativeX));
    assert_eq!(direction(7, 0).region(), Some(Region::NonnegativeX));
    assert_eq!(direction(-2, 3).region(), Some(Region::PositiveY));
    assert_eq!(direction(-2, 0).region(), Some(Region::NegativeX));
    assert_eq!(Angle::Indeterminate.region(), None);
    assert_eq!(Region::NegativeY.index(), 1);
    assert_eq!(Region::NonnegativeX.index(), 2);
    assert_eq!(Region::PositiveY.index(), 3);
    assert_eq!(Region::NegativeX.index(), 4);
}

#[test]
fn angle_order_follows_polar_angle() {
    for &a in &samples() {
        for &b in &samples() {
            let before = direction(a.0, a.1).precedes(&direction(b.0, b.1));
            assert_eq!(before, polar(a) < polar(b), "{:?} {:?}", a, b);
            let same = direction(a.0, a.1).coincides(&direction(b.0, b.1));
            assert_eq!(same, polar(a) == polar(b), "{:?} {:?}", a, b);
        }
    }
}

#[test]
fn angle_order_is_a_strict_total_order() {
    let all = samples();
    for &a in &all {
        let x = direction(a.0, a.1);
        assert!(!x.precedes(&x));
        for &b in &all {
            let y = direction(b.0, b.1);
            let count = [x.precedes(&y), y.precedes(&x), x.coincides(&y)]
                .iter()
                .filter(|&&h| h)
                .count();
            assert_eq!(count, 1);
            for &c in &all {
                let z = direction(c.0, c.1);
                if x.precedes(&y) && y.precedes(&z) {
                    assert!(x.precedes(&z));
                }
                if x.coincides(&y) && y.coincides(&z) {
                    assert!(x.coincides(&z));
                }
            }
        }
    }
}

#[test]
fn indeterminate_directions_are_equal_and_least() {
    let none = Angle::Indeterminate;
    assert!(none.coincides(&Angle::Indeterminate));
    assert!(!none.precedes(&Angle::Indeterminate));
    for &a in &samples() {
        let x = direction(a.0, a.1);
        assert!(none.precedes(&x));
        assert!(!x.precedes(&none));
        assert!(!x.coincides(&none));
    }
    assert!(none.precedes(&direction(0, 0)));
}

#[test]
fn zero_vector_points_along_the_positive_axis() {
    assert!(direction(0, 0).coincides(&direction(4, 0)));
    assert!(direction(0, -1).precedes(&direction(0, 0)));
    assert!(direction(0, 0).precedes(&direction(1, 1)));
    assert!(direction(0, 0).precedes(&direction(-1, 0)));
}

#[test]
fn angle_order_of_long_vectors() {
    let a = direction(i64::MAX, i64::MAX - 1);
    let b = direction(i64::MAX - 1, i64::MAX);
    assert!(a.precedes(&b));
    assert!(!b.precedes(&a));
    let c = direction(i64::MIN, i64::MIN);
    let d = direction(i64::MIN, i64::MIN + 1);
    assert!(d.precedes(&c));
    assert!(!c.precedes(&d));
    assert!(c.precedes(&a));
}

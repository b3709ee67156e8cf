use spatial_index::geometry2d::{
    Coordinate, Point, Rectangle, RectangleContainsParameter, Vector2D,
};
use spatial_index::r_tree::insert::dimensions::{DimExtremes, Ratio};
use spatial_index::text::{digits_text, signed_text, unsigned_text};

fn rect(x0: i64, y0: i64, x1: i64, y1: i64) -> Rectangle<i64> {
    Rectangle { low: Point::new(x0, y0), high: Point::new(x1, y1) }
}

#[test]
fn vector_holds_its_components() {
    let v = Vector2D::new(3i64, -4i64);
    assert_eq!(v.x, 3);
    assert_eq!(v.y, -4);
}

#[test]
fn vectors_component_by_component() {
    let a = Vector2D::new(7i64, -7i64);
    let b = Vector2D::new(2i64, 3i64);
    assert_eq!(a.add(&b), Vector2D::new(9, -4));
    assert_eq!(a.sub(&b), Vector2D::new(5, -10));
    assert_eq!(a.mul(&b), Vector2D::new(14, -21));
    assert_eq!(a.div(&b), Vector2D::new(3, -2));
    assert_eq!(a.rem(&b), Vector2D::new(1, -1));
    let c = Vector2D::new(-2i64, -2i64);
    assert_eq!(a.div(&c), Vector2D::new(-3, 3));
    assert_eq!(a.rem(&c), Vector2D::new(1, -1));
    let small = Vector2D::new(7i32, -7i32);
    assert_eq!(small.add(&small), Vector2D::new(14, -14));
    assert_eq!(small.rem(&Vector2D::new(4, 4)), Vector2D::new(3, -3));
    // the dividend is the sum of the remainder and the divisor times the quotient
    let q = a.div(&b);
    let r = a.rem(&b);
    assert_eq!(b.mul(&q).add(&r), a);
}

#[test]
fn intersects_counts_borders() {
    let a = rect(0, 0, 10, 10);
    assert!(a.intersects(&rect(10, 10, 20, 20)));
    assert!(a.intersects(&rect(5, 5, 6, 6)));
    assert!(a.intersects(&rect(-5, 3, 0, 4)));
    assert!(!a.intersects(&rect(11, 0, 20, 10)));
    assert!(!a.intersects(&rect(0, 11, 10, 20)));
    assert!(!a.intersects(&rect(-3, -3, -1, -1)));
}

#[test]
fn contains_points_and_rectangles() {
    let a = rect(0, 0, 10, 10);
    assert!(a.contains(&RectangleContainsParameter::Point(Point::new(0, 10))));
    assert!(a.contains(&RectangleContainsParameter::Point(Point::new(5, 5))));
    assert!(!a.contains(&RectangleContainsParameter::Point(Point::new(11, 5))));
    assert!(!a.contains(&RectangleContainsParameter::Point(Point::new(5, -1))));
    assert!(a.contains(&RectangleContainsParameter::Rectangle(rect(0, 0, 10, 10))));
    assert!(a.contains(&RectangleContainsParameter::Rectangle(rect(2, 3, 4, 5))));
    assert!(!a.contains(&RectangleContainsParameter::Rectangle(rect(2, 3, 11, 5))));
    assert!(!a.contains(&RectangleContainsParameter::Rectangle(rect(-1, 3, 4, 5))));
}

#[test]
fn merge_is_the_bounding_box() {
    assert_eq!(rect(0, 0, 10, 10).merge(&rect(12, -3, 15, 15)), rect(0, -3, 15, 15));
    assert_eq!(rect(5, 5, 6, 6).merge(&rect(0, 0, 10, 10)), rect(0, 0, 10, 10));
    assert_eq!(rect(1, 2, 3, 4).merge(&rect(1, 2, 3, 4)), rect(1, 2, 3, 4));
}

#[test]
fn area_is_width_times_height() {
    assert_eq!(rect(0, 0, 10, 10).area(), 100);
    assert_eq!(rect(-2, 3, 5, 7).area(), 28);
    assert_eq!(rect(4, 4, 4, 9).area(), 0);
    assert_eq!(rect(5, 0, 0, 3).area(), -15);
}

#[test]
fn area_at_the_limit() {
    let l: i64 = 1_073_741_823;
    assert_eq!(rect(-l, -l, l, l).area(), 4 * l * l);
    let s: i32 = 16_383;
    let r: Rectangle<i32> = Rectangle { low: Point::new(-s, -s), high: Point::new(s, s) };
    assert_eq!(r.area(), 4 * s * s);
}

#[test]
fn coordinate_arithmetic() {
    assert!(3i64.less_than(4));
    assert!(!4i64.less_than(4));
    assert!(4i64.equals(4));
    assert_eq!(7i64.plus(9), 16);
    assert_eq!((-7i32).plus(9), 2);
    assert_eq!(7i64.minus(9), -2);
    assert_eq!(7i64.remainder(2), 1);
    assert_eq!((-7i64).remainder(2), -1);
    assert_eq!(7i64.remainder(-2), 1);
    assert_eq!((-7i64).remainder(-2), -1);
    assert_eq!((-8i32).remainder(4), 0);
    assert_eq!(i64::MIN.remainder(2), 0);
    assert_eq!(7i64.times(-3), -21);
    assert_eq!(7i64.quotient(2), 3);
    assert_eq!((-7i64).quotient(2), -3);
    assert_eq!(7i64.quotient(-2), -3);
    assert_eq!((-7i64).quotient(-2), 3);
    assert_eq!((-7i32).quotient(2), -3);
    assert_eq!(7i32.minus(9), -2);
    assert_eq!(7i32.times(3), 21);
    assert_eq!((-12i64).to_text(), "-12");
    assert_eq!(12i32.to_text(), "12");
}

#[test]
fn extremes_follow_the_intervals() {
    let mut e = DimExtremes::new(5i64, 8i64, 0);
    assert_eq!((e.min_low, e.max_low, e.min_high, e.max_high), (5, 5, 8, 8));
    assert_eq!((e.low_idx, e.high_idx), (0, 0));
    // a lower high side takes the place of `min_high`
    e.update(2, 6, 1);
    assert_eq!((e.min_low, e.max_low, e.min_high, e.max_high), (2, 5, 6, 8));
    assert_eq!((e.low_idx, e.high_idx), (0, 1));
    // a higher low side takes the place of `max_low`
    e.update(7, 12, 2);
    assert_eq!((e.min_low, e.max_low, e.min_high, e.max_high), (2, 7, 6, 12));
    assert_eq!((e.low_idx, e.high_idx), (2, 1));
    e.update(9, 10, 3);
    assert_eq!((e.min_low, e.max_low, e.min_high, e.max_high), (2, 9, 6, 12));
    assert_eq!((e.low_idx, e.high_idx), (3, 1));
    // sides that are level change nothing
    e.update(9, 6, 4);
    assert_eq!((e.min_low, e.max_low, e.min_high, e.max_high), (2, 9, 6, 12));
    assert_eq!((e.low_idx, e.high_idx), (3, 1));
    // an extent of 10 over a gap of -3
    assert!(matches!(e.normalized(), Ratio::Finite(-3)));
}

#[test]
fn extent_over_overlap() {
    let mut e = DimExtremes::new(0i64, 10i64, 0);
    e.update(2, 30, 1);
    e.update(8, 12, 2);
    assert_eq!((e.min_low, e.max_low, e.min_high, e.max_high), (0, 8, 10, 30));
    assert_eq!((e.low_idx, e.high_idx), (2, 0));
    // an extent of 30 over a gap of 2
    assert!(matches!(e.normalized(), Ratio::Finite(15)));
}

#[test]
fn ratios_by_zero() {
    assert!(matches!(Ratio::of(6i64, 0), Ratio::PositiveInfinity));
    assert!(matches!(Ratio::of(-6i64, 0), Ratio::NegativeInfinity));
    assert!(matches!(Ratio::of(0i64, 0), Ratio::Undefined));
    assert!(matches!(Ratio::of(7i64, 2), Ratio::Finite(3)));
    assert!(matches!(Ratio::of(-7i64, 2), Ratio::Finite(-3)));
    let inf: Ratio<i64> = Ratio::PositiveInfinity;
    let neg: Ratio<i64> = Ratio::NegativeInfinity;
    let nan: Ratio<i64> = Ratio::Undefined;
    let two: Ratio<i64> = Ratio::Finite(2);
    let three: Ratio<i64> = Ratio::Finite(3);
    assert!(three.exceeds(&two));
    assert!(!two.exceeds(&three));
    assert!(!two.exceeds(&two));
    assert!(inf.exceeds(&two));
    assert!(!two.exceeds(&inf));
    assert!(two.exceeds(&neg));
    assert!(!neg.exceeds(&two));
    assert!(inf.exceeds(&neg));
    assert!(!inf.exceeds(&inf));
    assert!(!neg.exceeds(&neg));
    assert!(!nan.exceeds(&two));
    assert!(!two.exceeds(&nan));
    assert!(!nan.exceeds(&nan));
    assert!(!inf.exceeds(&nan));
}

#[test]
fn integers_in_decimal() {
    assert_eq!(digits_text(0), "0");
    assert_eq!(digits_text(7), "7");
    assert_eq!(digits_text(10), "10");
    assert_eq!(digits_text(1234567890), "1234567890");
    assert_eq!(digits_text(u64::MAX), "18446744073709551615");
    assert_eq!(unsigned_text(42), "42");
    assert_eq!(signed_text(0), "0");
    assert_eq!(signed_text(-1), "-1");
    assert_eq!(signed_text(305), "305");
    assert_eq!(signed_text(i64::MAX), "9223372036854775807");
    assert_eq!(signed_text(i64::MIN), "-9223372036854775808");
}

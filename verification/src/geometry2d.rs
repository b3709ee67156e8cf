//! Points and axis-aligned rectangles in the plane, over any integer-valued
//! coordinate type.

use crate::text::{decimal, signed_text};
use vstd::prelude::*;

verus! {

/// Quotient of `a` by `b` rounded toward zero, as machine integers divide.
pub open spec fn truncated_quotient(a: int, b: int) -> int
    recommends
        b != 0,
{
    if a >= 0 {
        a / b
    } else {
        -((-a) / b)
    }
}

/// Remainder of `a` by `b` as machine integers compute it: what is left of `a`
/// when `b` times the truncated quotient is taken away. It has the sign of `a`.
pub open spec fn truncated_remainder(a: int, b: int) -> int
    recommends
        b != 0,
{
    if a >= 0 {
        a % b
    } else {
        -((-a) % b)
    }
}

/// A coordinate on one axis.
///
/// Every coordinate stands for a mathematical integer, its `value`; order and
/// arithmetic on coordinates are order and arithmetic on those integers. The
/// arithmetic methods ask that the exact result can be held by the type.
pub trait Coordinate: Copy + Sized {
    /// The integer this coordinate stands for.
    spec fn value(self) -> int;

    /// Whether the type can hold the integer `v`.
    spec fn holds(v: int) -> bool;

    /// A magnitude `l` such that the type holds every integer up to `8 * (l * l)`
    /// in magnitude. Rectangles whose coordinates stay within `-l ..= l` can be
    /// merged, measured and compared by area without leaving the type's range.
    spec fn limit() -> int;

    /// The limit is at least one.
    proof fn limit_is_positive()
        ensures
            Self::limit() >= 1,
    ;

    /// The defining property of `limit`.
    proof fn limit_is_safe(v: int)
        requires
            -8 * (Self::limit() * Self::limit()) <= v <= 8 * (Self::limit() * Self::limit()),
        ensures
            Self::holds(v),
    ;

    /// Equal values are the same coordinate.
    proof fn value_is_injective(a: Self, b: Self)
        requires
            a.value() == b.value(),
        ensures
            a == b,
    ;

    /// The coordinate of the origin.
    fn zero() -> (z: Self)
        ensures
            z.value() == 0,
    ;

    /// The coordinate at the limit.
    fn at_limit() -> (l: Self)
        ensures
            l.value() == Self::limit(),
    ;

    /// `self < rhs`
    fn less_than(self, rhs: Self) -> (r: bool)
        ensures
            r == (self.value() < rhs.value()),
    ;

    /// `self == rhs`
    fn equals(self, rhs: Self) -> (r: bool)
        ensures
            r == (self.value() == rhs.value()),
    ;

    /// `self + rhs`
    fn plus(self, rhs: Self) -> (r: Self)
        requires
            Self::holds(self.value() + rhs.value()),
        ensures
            r.value() == self.value() + rhs.value(),
    ;

    /// `self - rhs`
    fn minus(self, rhs: Self) -> (r: Self)
        requires
            Self::holds(self.value() - rhs.value()),
        ensures
            r.value() == self.value() - rhs.value(),
    ;

    /// `self * rhs`
    fn times(self, rhs: Self) -> (r: Self)
        requires
            Self::holds(self.value() * rhs.value()),
        ensures
            r.value() == self.value() * rhs.value(),
    ;

    /// `self / rhs`, rounded toward zero.
    fn quotient(self, rhs: Self) -> (r: Self)
        requires
            rhs.value() != 0,
            Self::holds(truncated_quotient(self.value(), rhs.value())),
        ensures
            r.value() == truncated_quotient(self.value(), rhs.value()),
    ;

    /// `self % rhs`, with the sign of `self`. The machine computes the
    /// quotient on the way, so the type must hold that too.
    fn remainder(self, rhs: Self) -> (r: Self)
        requires
            rhs.value() != 0,
            Self::holds(truncated_quotient(self.value(), rhs.value())),
        ensures
            r.value() == truncated_remainder(self.value(), rhs.value()),
    ;

    /// The coordinate in decimal.
    fn to_text(&self) -> (text: String)
        ensures
            text@ == decimal(self.value()),
    ;
}

impl Coordinate for i32 {
    open spec fn value(self) -> int {
        self as int
    }

    open spec fn holds(v: int) -> bool {
        i32::MIN <= v <= i32::MAX
    }

    open spec fn limit() -> int {
        16_383
    }

    proof fn limit_is_positive() {
    }

    proof fn limit_is_safe(v: int) {
    }

    proof fn value_is_injective(a: Self, b: Self) {
    }

    fn zero() -> (z: Self) {
        0
    }

    fn at_limit() -> (l: Self) {
        16_383
    }

    fn less_than(self, rhs: Self) -> (r: bool) {
        self < rhs
    }

    fn equals(self, rhs: Self) -> (r: bool) {
        self == rhs
    }

    fn plus(self, rhs: Self) -> (r: Self) {
        self + rhs
    }

    fn minus(self, rhs: Self) -> (r: Self) {
        self - rhs
    }

    fn times(self, rhs: Self) -> (r: Self) {
        self * rhs
    }

    fn quotient(self, rhs: Self) -> (r: Self) {
        proof {
            lemma_truncated_quotient_bound(self as int, rhs as int);
        }
        self / rhs
    }

    fn remainder(self, rhs: Self) -> (r: Self) {
        proof {
            lemma_truncated_quotient_bound(self as int, rhs as int);
            lemma_truncated_remainder_bound(self as int, rhs as int);
        }
        self % rhs
    }

    fn to_text(&self) -> (text: String) {
        signed_text(*self as i64)
    }
}

impl Coordinate for i64 {
    open spec fn value(self) -> int {
        self as int
    }

    open spec fn holds(v: int) -> bool {
        i64::MIN <= v <= i64::MAX
    }

    open spec fn limit() -> int {
        1_073_741_823
    }

    proof fn limit_is_positive() {
    }

    proof fn limit_is_safe(v: int) {
    }

    proof fn value_is_injective(a: Self, b: Self) {
    }

    fn zero() -> (z: Self) {
        0
    }

    fn at_limit() -> (l: Self) {
        1_073_741_823
    }

    fn less_than(self, rhs: Self) -> (r: bool) {
        self < rhs
    }

    fn equals(self, rhs: Self) -> (r: bool) {
        self == rhs
    }

    fn plus(self, rhs: Self) -> (r: Self) {
        self + rhs
    }

    fn minus(self, rhs: Self) -> (r: Self) {
        self - rhs
    }

    fn times(self, rhs: Self) -> (r: Self) {
        self * rhs
    }

    fn quotient(self, rhs: Self) -> (r: Self) {
        proof {
            lemma_truncated_quotient_bound(self as int, rhs as int);
        }
        self / rhs
    }

    fn remainder(self, rhs: Self) -> (r: Self) {
        proof {
            lemma_truncated_quotient_bound(self as int, rhs as int);
            lemma_truncated_remainder_bound(self as int, rhs as int);
        }
        self % rhs
    }

    fn to_text(&self) -> (text: String) {
        signed_text(*self)
    }
}

/// A truncated quotient is no larger in magnitude than its dividend, and
/// reaches that magnitude with the opposite sign only for a divisor of `-1`.
pub proof fn lemma_truncated_quotient_bound(a: int, b: int)
    requires
        b != 0,
    ensures
        a >= 0 ==> -a <= truncated_quotient(a, b) <= a,
        a < 0 ==> a <= truncated_quotient(a, b) <= -a,
        a < 0 && b != -1 ==> truncated_quotient(a, b) < -a,
{
    let m = if a >= 0 { a } else { -a };
    let q = m / b;
    if b > 0 {
        vstd::arithmetic::div_mod::lemma_div_pos_is_pos(m, b);
        vstd::arithmetic::div_mod::lemma_div_is_ordered_by_denominator(m, 1, b);
        vstd::arithmetic::div_mod::lemma_div_basics(m);
    } else {
        assert(-m <= q <= 0 && (b != -1 && m > 0 ==> -m < q)) by (nonlinear_arith)
            requires
                q == m / b,
                b < 0,
                m >= 0,
        ;
    }
}

/// A truncated remainder is smaller in magnitude than its divisor and no
/// larger than its dividend.
pub proof fn lemma_truncated_remainder_bound(a: int, b: int)
    requires
        b != 0,
    ensures
        a >= 0 ==> 0 <= truncated_remainder(a, b) <= a,
        a < 0 ==> a <= truncated_remainder(a, b) <= 0,
        b > 0 ==> -b < truncated_remainder(a, b) < b,
        b < 0 ==> b < truncated_remainder(a, b) < -b,
{
    let m = if a >= 0 { a } else { -a };
    let r = m % b;
    assert(0 <= r <= m && (b > 0 ==> r < b) && (b < 0 ==> r < -b)) by (nonlinear_arith)
        requires
            r == m % b,
            b != 0,
            m >= 0,
    ;
}

/// A vector, or a point, in the plane.
#[derive(Clone, Copy, Debug, PartialEq)]
pub struct Vector2D<T: Coordinate> {
    pub x: T,
    pub y: T,
}

/// A point is a vector from the origin.
pub type Point<T> = Vector2D<T>;

impl<T: Coordinate> Vector2D<T> {
    /// The vector with these components.
    pub fn new(x: T, y: T) -> (v: Self)
        ensures
            v.x == x,
            v.y == y,
    {
        Self { x, y }
    }

    /// The sum, component by component.
    pub fn add(&self, rhs: &Self) -> (sum: Self)
        requires
            T::holds(self.x.value() + rhs.x.value()),
            T::holds(self.y.value() + rhs.y.value()),
        ensures
            sum.x.value() == self.x.value() + rhs.x.value(),
            sum.y.value() == self.y.value() + rhs.y.value(),
    {
        Vector2D::new(self.x.plus(rhs.x), self.y.plus(rhs.y))
    }

    /// The difference, component by component.
    pub fn sub(&self, rhs: &Self) -> (difference: Self)
        requires
            T::holds(self.x.value() - rhs.x.value()),
            T::holds(self.y.value() - rhs.y.value()),
        ensures
            difference.x.value() == self.x.value() - rhs.x.value(),
            difference.y.value() == self.y.value() - rhs.y.value(),
    {
        Vector2D::new(self.x.minus(rhs.x), self.y.minus(rhs.y))
    }

    /// The product, component by component.
    pub fn mul(&self, rhs: &Self) -> (product: Self)
        requires
            T::holds(self.x.value() * rhs.x.value()),
            T::holds(self.y.value() * rhs.y.value()),
        ensures
            product.x.value() == self.x.value() * rhs.x.value(),
            product.y.value() == self.y.value() * rhs.y.value(),
    {
        Vector2D::new(self.x.times(rhs.x), self.y.times(rhs.y))
    }

    /// The quotient, rounded toward zero, component by component.
    pub fn div(&self, rhs: &Self) -> (quotient: Self)
        requires
            rhs.x.value() != 0,
            rhs.y.value() != 0,
            T::holds(truncated_quotient(self.x.value(), rhs.x.value())),
            T::holds(truncated_quotient(self.y.value(), rhs.y.value())),
        ensures
            quotient.x.value() == truncated_quotient(self.x.value(), rhs.x.value()),
            quotient.y.value() == truncated_quotient(self.y.value(), rhs.y.value()),
    {
        Vector2D::new(self.x.quotient(rhs.x), self.y.quotient(rhs.y))
    }

    /// The remainder, with the sign of the dividend, component by component.
    pub fn rem(&self, rhs: &Self) -> (remainder: Self)
        requires
            rhs.x.value() != 0,
            rhs.y.value() != 0,
            T::holds(truncated_quotient(self.x.value(), rhs.x.value())),
            T::holds(truncated_quotient(self.y.value(), rhs.y.value())),
        ensures
            remainder.x.value() == truncated_remainder(self.x.value(), rhs.x.value()),
            remainder.y.value() == truncated_remainder(self.y.value(), rhs.y.value()),
    {
        Vector2D::new(self.x.remainder(rhs.x), self.y.remainder(rhs.y))
    }

    /// Both components lie within the coordinate type's `limit`.
    pub open spec fn within_limit(self) -> bool {
        &&& -T::limit() <= self.x.value() <= T::limit()
        &&& -T::limit() <= self.y.value() <= T::limit()
    }

    /// Whether both components lie within the coordinate type's `limit`.
    pub fn is_within_limit(&self) -> (b: bool)
        ensures
            b == self.within_limit(),
    {
        proof {
            T::limit_is_positive();
            let l = T::limit();
            assert(l <= 8 * (l * l)) by (nonlinear_arith)
                requires
                    l >= 1,
            ;
            T::limit_is_safe(-l);
        }
        let high = T::at_limit();
        let low = T::zero().minus(high);
        !self.x.less_than(low) && !high.less_than(self.x) && !self.y.less_than(low)
            && !high.less_than(self.y)
    }
}

/// An axis-aligned rectangle, given by its lowest and its highest corner.
///
/// Nothing enforces that `low` lies below `high`; see `is_ordered`.
#[derive(Clone, Copy, Debug, PartialEq)]
pub struct Rectangle<T: Coordinate> {
    pub low: Point<T>,
    pub high: Point<T>,
}

/// What a rectangle can be asked to contain.
pub enum RectangleContainsParameter<T: Coordinate> {
    Point(Point<T>),
    Rectangle(Rectangle<T>),
}

impl<T: Coordinate> Rectangle<T> {
    /// `low` is no higher than `high` on either axis.
    pub open spec fn is_ordered(self) -> bool {
        &&& self.low.x.value() <= self.high.x.value()
        &&& self.low.y.value() <= self.high.y.value()
    }

    /// All four coordinates lie within the coordinate type's `limit`.
    pub open spec fn within_limit(self) -> bool {
        self.low.within_limit() && self.high.within_limit()
    }

    /// The rectangles share a point, their borders included.
    pub open spec fn spec_intersects(self, other: Self) -> bool {
        &&& self.low.x.value() <= other.high.x.value()
        &&& self.high.x.value() >= other.low.x.value()
        &&& self.low.y.value() <= other.high.y.value()
        &&& self.high.y.value() >= other.low.y.value()
    }

    /// `other` lies inside `self`, borders included.
    pub open spec fn spec_contains_rectangle(self, other: Self) -> bool {
        &&& self.low.x.value() <= other.low.x.value()
        &&& self.high.x.value() >= other.high.x.value()
        &&& self.low.y.value() <= other.low.y.value()
        &&& self.high.y.value() >= other.high.y.value()
    }

    /// `point` lies inside `self`, borders included.
    pub open spec fn spec_contains_point(self, point: Point<T>) -> bool {
        &&& self.low.x.value() <= point.x.value()
        &&& self.high.x.value() >= point.x.value()
        &&& self.low.y.value() <= point.y.value()
        &&& self.high.y.value() >= point.y.value()
    }

    /// `target` lies inside `self`, borders included.
    pub open spec fn spec_contains(self, target: RectangleContainsParameter<T>) -> bool {
        match target {
            RectangleContainsParameter::Rectangle(rectangle) => self.spec_contains_rectangle(
                rectangle,
            ),
            RectangleContainsParameter::Point(point) => self.spec_contains_point(point),
        }
    }

    /// The smallest rectangle that encloses both: on each axis the lower of the
    /// two low sides and the higher of the two high sides. Where two sides are
    /// level, the side of `other` is taken.
    pub open spec fn spec_merge(self, other: Self) -> Self {
        Rectangle {
            low: Vector2D {
                x: if self.low.x.value() < other.low.x.value() {
                    self.low.x
                } else {
                    other.low.x
                },
                y: if self.low.y.value() < other.low.y.value() {
                    self.low.y
                } else {
                    other.low.y
                },
            },
            high: Vector2D {
                x: if self.high.x.value() > other.high.x.value() {
                    self.high.x
                } else {
                    other.high.x
                },
                y: if self.high.y.value() > other.high.y.value() {
                    self.high.y
                } else {
                    other.high.y
                },
            },
        }
    }

    /// Width times height.
    pub open spec fn spec_area(self) -> int {
        (self.high.x.value() - self.low.x.value()) * (self.high.y.value() - self.low.y.value())
    }

    /// The type can hold the width, the height and their product.
    pub open spec fn area_fits(self) -> bool {
        &&& T::holds(self.high.x.value() - self.low.x.value())
        &&& T::holds(self.high.y.value() - self.low.y.value())
        &&& T::holds(self.spec_area())
    }

    /// The point rectangle whose two corners are both `point`.
    pub open spec fn spec_at(point: Point<T>) -> Self {
        Rectangle { low: point, high: point }
    }

    /// Whether all four coordinates lie within the coordinate type's `limit`.
    pub fn is_within_limit(&self) -> (b: bool)
        ensures
            b == self.within_limit(),
    {
        self.low.is_within_limit() && self.high.is_within_limit()
    }

    /// Whether the rectangles share a point, their borders included.
    pub fn intersects(&self, other: &Rectangle<T>) -> (b: bool)
        ensures
            b == self.spec_intersects(*other),
    {
        !other.high.x.less_than(self.low.x) && !self.high.x.less_than(other.low.x)
            && !other.high.y.less_than(self.low.y) && !self.high.y.less_than(other.low.y)
    }

    /// Whether `target` lies inside `self`, borders included.
    pub fn contains(&self, target: &RectangleContainsParameter<T>) -> (b: bool)
        ensures
            b == self.spec_contains(*target),
    {
        match target {
            RectangleContainsParameter::Rectangle(rectangle) => {
                !rectangle.low.x.less_than(self.low.x) && !self.high.x.less_than(rectangle.high.x)
                    && !rectangle.low.y.less_than(self.low.y) && !self.high.y.less_than(
                    rectangle.high.y,
                )
            },
            RectangleContainsParameter::Point(point) => {
                !point.x.less_than(self.low.x) && !self.high.x.less_than(point.x)
                    && !point.y.less_than(self.low.y) && !self.high.y.less_than(point.y)
            },
        }
    }

    /// The smallest rectangle that encloses both.
    pub fn merge(&self, other: &Rectangle<T>) -> (merged: Self)
        ensures
            merged == self.spec_merge(*other),
    {
        let low_x = if self.low.x.less_than(other.low.x) {
            self.low.x
        } else {
            other.low.x
        };
        let high_x = if other.high.x.less_than(self.high.x) {
            self.high.x
        } else {
            other.high.x
        };
        let low_y = if self.low.y.less_than(other.low.y) {
            self.low.y
        } else {
            other.low.y
        };
        let high_y = if other.high.y.less_than(self.high.y) {
            self.high.y
        } else {
            other.high.y
        };

        Self { low: Vector2D::new(low_x, low_y), high: Vector2D::new(high_x, high_y) }
    }

    /// Width times height. The type must be able to hold them and their product,
    /// as it can for every rectangle within the limit (`lemma_area_within_limit`).
    pub fn area(&self) -> (a: T)
        requires
            self.area_fits(),
        ensures
            a.value() == self.spec_area(),
    {
        let w = self.high.x.minus(self.low.x);
        let h = self.high.y.minus(self.low.y);
        w.times(h)
    }
}

/// Anything that occupies a region of the plane.
pub trait Spacial<T: Coordinate> {
    /// Whether the bounding box is defined.
    spec fn has_mbb(&self) -> bool;

    /// The minimum bounding box.
    spec fn spec_mbb(&self) -> Rectangle<T>;

    /// Return the minimum bounding box
    fn mbb(&self) -> (r: Rectangle<T>)
        requires
            self.has_mbb(),
        ensures
            r == self.spec_mbb(),
    ;
}

/// Within the limit, widths and heights are at most `2 * limit` in magnitude,
/// areas at most `4 * limit * limit`.
pub proof fn lemma_area_within_limit<T: Coordinate>(r: Rectangle<T>)
    requires
        r.within_limit(),
    ensures
        r.area_fits(),
        -4 * (T::limit() * T::limit()) <= r.spec_area() <= 4 * (T::limit() * T::limit()),
{
    let l = T::limit();
    let w = r.high.x.value() - r.low.x.value();
    let h = r.high.y.value() - r.low.y.value();
    T::limit_is_positive();
    assert(-4 * (l * l) <= w * h <= 4 * (l * l) && l <= l * l) by (nonlinear_arith)
        requires
            -2 * l <= w <= 2 * l,
            -2 * l <= h <= 2 * l,
            l >= 1,
    ;
    T::limit_is_safe(w);
    T::limit_is_safe(h);
    T::limit_is_safe(w * h);
}

/// Merging keeps coordinates within the limit.
pub proof fn lemma_merge_within_limit<T: Coordinate>(a: Rectangle<T>, b: Rectangle<T>)
    requires
        a.within_limit(),
        b.within_limit(),
    ensures
        a.spec_merge(b).within_limit(),
{
}

/// A merged rectangle contains both of its parts.
pub proof fn lemma_merge_contains<T: Coordinate>(a: Rectangle<T>, b: Rectangle<T>)
    ensures
        a.spec_merge(b).spec_contains_rectangle(a),
        a.spec_merge(b).spec_contains_rectangle(b),
{
}

} // verus!

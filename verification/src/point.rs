use vstd::prelude::*;
use vstd::arithmetic::div_mod::{
    lemma_fundamental_div_mod,
    lemma_fundamental_div_mod_converse_div,
};
use vstd::arithmetic::mul::lemma_mul_equality_converse;
use crate::errors::PointError;

verus! {

/// Coordinates and curve coefficients are kept within this bound so that the
/// curve equation and the group-law formulas can be evaluated exactly in
/// 128-bit arithmetic.
pub const COORDINATE_LIMIT: i64 = 0x400_0000_0000;

/// The short Weierstrass curve equation `y^2 = x^3 + a*x + b`, exactly,
/// over the integers.
pub open spec fn on_curve(a: int, b: int, x: int, y: int) -> bool {
    y * y == x * x * x + a * x + b
}

/// A product of two bounded factors is bounded by the product of the bounds.
proof fn lemma_product_bound(x: int, y: int, bx: int, by: int)
    by (nonlinear_arith)
    requires
        -bx <= x <= bx,
        -by <= y <= by,
    ensures
        -(bx * by) <= x * y <= bx * by,
{
}

/// A point of the curve `y^2 = x^3 + A*x + B`: either an affine coordinate
/// pair or the point at infinity (both coordinates absent), which is the
/// identity of the addition law.
#[derive(Debug, Clone, Copy)]
pub struct Point<const A: u64, const B: u64> {
    x: Option<i64>,
    y: Option<i64>,
}

impl<const A: u64, const B: u64> Point<A, B> {
    /// The point at infinity, as a value.
    pub closed spec fn spec_infinity() -> Self {
        Point { x: None, y: None }
    }

    /// The affine point with the given coordinate options, as stored.
    pub closed spec fn spec_from_options(x: Option<i64>, y: Option<i64>) -> Self {
        Point { x, y }
    }

    pub closed spec fn is_infinity(self) -> bool {
        self.x is None && self.y is None
    }

    pub closed spec fn is_affine(self) -> bool {
        self.x is Some && self.y is Some
    }

    pub closed spec fn coord_x(self) -> int {
        self.x->0 as int
    }

    pub closed spec fn coord_y(self) -> int {
        self.y->0 as int
    }

    /// Value equality of the stored coordinate pairs.
    pub closed spec fn same_coordinates(self, other: Self) -> bool {
        self.x == other.x && self.y == other.y
    }

    pub open spec fn in_range(v: int) -> bool {
        -(COORDINATE_LIMIT as int) <= v <= COORDINATE_LIMIT as int
    }

    /// A point is valid when it is the point at infinity, or an affine pair
    /// that satisfies the curve equation exactly and fits the coordinate
    /// bound. Only valid points can be constructed.
    pub open spec fn is_valid(self) -> bool {
        self.is_infinity() || (self.is_affine() && on_curve(
            A as int,
            B as int,
            self.coord_x(),
            self.coord_y(),
        ) && Self::in_range(self.coord_x()) && Self::in_range(self.coord_y()))
    }

    /// Validating constructor: an affine pair must lie on the curve, a fully
    /// absent pair is the point at infinity, and a half-specified pair is
    /// malformed.
    pub fn new(x: Option<i64>, y: Option<i64>) -> (r: Result<Self, PointError>)
        requires
            x is Some && y is Some ==> Self::in_range(x->0 as int) && Self::in_range(y->0 as int)
                && A <= COORDINATE_LIMIT as u64 && B <= COORDINATE_LIMIT as u64,
        ensures
            r is Ok <==> ((x is None && y is None) || (x is Some && y is Some && on_curve(
                A as int,
                B as int,
                x->0 as int,
                y->0 as int,
            ))),
            r is Ok ==> r->Ok_0 == Self::spec_from_options(x, y) && r->Ok_0.is_valid(),
            r is Ok && x is Some && y is Some ==> r->Ok_0.is_affine() && r->Ok_0.coord_x() == x->0
                && r->Ok_0.coord_y() == y->0,
            r is Ok && x is None ==> r->Ok_0.is_infinity(),
            x is Some && y is Some && !on_curve(A as int, B as int, x->0 as int, y->0 as int)
                ==> r == Err::<Self, PointError>(PointError::NotOnCurve),
            (x is Some) != (y is Some) ==> r == Err::<Self, PointError>(PointError::InvalidPoint),
    {
        match (x, y) {
            (Some(xv), Some(yv)) => {
                let xw: i128 = xv as i128;
                let yw: i128 = yv as i128;
                proof {
                    let bound = COORDINATE_LIMIT as int;
                    lemma_product_bound(yw as int, yw as int, bound, bound);
                    lemma_product_bound(xw as int, xw as int, bound, bound);
                    lemma_product_bound(xw as int * xw as int, xw as int, bound * bound, bound);
                    lemma_product_bound(A as int, xw as int, bound, bound);
                }
                let left: i128 = yw * yw;
                let right: i128 = xw * xw * xw + (A as i128) * xw + (B as i128);
                if left == right {
                    Ok(Point { x, y })
                } else {
                    Err(PointError::NotOnCurve)
                }
            },
            (None, None) => Ok(Point { x: None, y: None }),
            _ => Err(PointError::InvalidPoint),
        }
    }

    /// The tangent slope at an affine point with nonzero ordinate,
    /// `(3*x^2 + A) / (2*y)`, as an exact integer quotient.
    pub open spec fn spec_tangent_slope(self) -> int {
        (3 * self.coord_x() * self.coord_x() + A as int) / (2 * self.coord_y())
    }

    /// The chord slope through two affine points with distinct abscissas,
    /// `(y2 - y1) / (x2 - x1)`, as an exact integer quotient.
    pub open spec fn spec_chord_slope(self, other: Self) -> int {
        (other.coord_y() - self.coord_y()) / (other.coord_x() - self.coord_x())
    }

    /// The abscissa of the sum: `m^2 - x1 - x2`.
    pub open spec fn spec_third_x(m: int, x1: int, x2: int) -> int {
        m * m - x1 - x2
    }

    /// The ordinate of the sum: `m*(x1 - x3) - y1`.
    pub open spec fn spec_third_y(m: int, x1: int, x3: int, y1: int) -> int {
        m * (x1 - x3) - y1
    }

    /// The chord-and-tangent group law, as a mathematical function on point
    /// values: infinity is the identity; equal points double along the
    /// tangent (or give infinity on a horizontal tangent); distinct points
    /// with one abscissa lie on a vertical line and give infinity; distinct
    /// abscissas are joined by a chord.
    pub open spec fn spec_add(self, other: Self) -> Self {
        if self.is_infinity() {
            other
        } else if other.is_infinity() {
            self
        } else if self.same_coordinates(other) {
            if self.coord_y() == 0 {
                Self::spec_infinity()
            } else {
                let m = self.spec_tangent_slope();
                let x3 = Self::spec_third_x(m, self.coord_x(), self.coord_x());
                let y3 = Self::spec_third_y(m, self.coord_x(), x3, self.coord_y());
                Self::spec_from_options(Some(x3 as i64), Some(y3 as i64))
            }
        } else if self.coord_x() == other.coord_x() {
            Self::spec_infinity()
        } else {
            let m = self.spec_chord_slope(other);
            let x3 = Self::spec_third_x(m, self.coord_x(), other.coord_x());
            let y3 = Self::spec_third_y(m, self.coord_x(), x3, self.coord_y());
            Self::spec_from_options(Some(x3 as i64), Some(y3 as i64))
        }
    }

    /// Whether the group-law formulas for `self + other` are exact and stay
    /// within the coordinate range: the slope division must leave no
    /// remainder (the curve is taken over the integers) and the resulting
    /// coordinates must fit. The identity and vertical cases always are.
    pub open spec fn addition_defined(self, other: Self) -> bool {
        if self.is_infinity() || other.is_infinity() {
            true
        } else if self.same_coordinates(other) {
            self.coord_y() == 0 || ((3 * self.coord_x() * self.coord_x() + A as int) % (2
                * self.coord_y()) == 0 && Self::in_range(
                Self::spec_third_x(self.spec_tangent_slope(), self.coord_x(), self.coord_x()),
            ) && Self::in_range(
                Self::spec_third_y(
                    self.spec_tangent_slope(),
                    self.coord_x(),
                    Self::spec_third_x(self.spec_tangent_slope(), self.coord_x(), self.coord_x()),
                    self.coord_y(),
                ),
            ))
        } else if self.coord_x() == other.coord_x() {
            true
        } else {
            (other.coord_y() - self.coord_y()) % (other.coord_x() - self.coord_x()) == 0
                && Self::in_range(
                Self::spec_third_x(self.spec_chord_slope(other), self.coord_x(), other.coord_x()),
            ) && Self::in_range(
                Self::spec_third_y(
                    self.spec_chord_slope(other),
                    self.coord_x(),
                    Self::spec_third_x(
                        self.spec_chord_slope(other),
                        self.coord_x(),
                        other.coord_x(),
                    ),
                    self.coord_y(),
                ),
            )
        }
    }

    /// The point at infinity has no coordinates, is valid, and is no affine
    /// point.
    pub proof fn lemma_infinity_shape()
        ensures
            Self::spec_infinity().is_infinity(),
            !Self::spec_infinity().is_affine(),
            Self::spec_infinity().is_valid(),
    {
    }

    /// How `spec_from_options` relates to the point observers: the stored
    /// options are handed back unchanged.
    pub proof fn lemma_from_options_shape(x: Option<i64>, y: Option<i64>)
        ensures
            Self::spec_from_options(x, y).is_affine() <==> (x is Some && y is Some),
            Self::spec_from_options(x, y).is_infinity() <==> (x is None && y is None),
            x is Some ==> Self::spec_from_options(x, y).coord_x() == x->0,
            y is Some ==> Self::spec_from_options(x, y).coord_y() == y->0,
    {
    }

    /// Point equality is value equality of the coordinate pairs, with the
    /// two points at infinity equal to each other.
    pub proof fn lemma_equality_is_coordinate_equality(p: Self, q: Self)
        ensures
            p.same_coordinates(q) <==> p == q,
    {
    }

    /// The point at infinity is the identity of the addition law, on either
    /// side, for every valid point.
    pub proof fn lemma_infinity_is_identity(p: Self)
        requires
            p.is_valid(),
        ensures
            Self::spec_infinity().spec_add(p) == p,
            p.spec_add(Self::spec_infinity()) == p,
    {
        if p.is_infinity() {
            assert(p == Self::spec_infinity());
        }
    }

    /// Two valid affine points with the same abscissa and opposite ordinates
    /// lie on a vertical line: their sum is the point at infinity. This
    /// covers the horizontal-tangent case `y == 0` as well.
    pub proof fn lemma_opposite_points_add_to_infinity(p: Self, q: Self)
        requires
            p.is_valid(),
            q.is_valid(),
            p.is_affine(),
            q.is_affine(),
            p.coord_x() == q.coord_x(),
            p.coord_y() == -q.coord_y(),
        ensures
            p.spec_add(q) == Self::spec_infinity(),
    {
        if p.same_coordinates(q) {
            assert(p.coord_y() == q.coord_y());
            assert(p.coord_y() == 0);
        }
    }

    /// A defined sum of two valid points is again a valid point of the same
    /// curve: the group-law formulas land on the curve.
    pub proof fn lemma_add_preserves_validity(p: Self, q: Self)
        requires
            p.is_valid(),
            q.is_valid(),
            p.addition_defined(q),
        ensures
            p.spec_add(q).is_valid(),
    {
        if p.is_infinity() || q.is_infinity() {
        } else if p.same_coordinates(q) {
            if p.coord_y() == 0 {
            } else {
                let cx = p.coord_x();
                let cy = p.coord_y();
                let m = p.spec_tangent_slope();
                let x3 = Self::spec_third_x(m, cx, cx);
                let y3 = Self::spec_third_y(m, cx, x3, cy);
                lemma_fundamental_div_mod(3 * cx * cx + A as int, 2 * cy);
                assert((2 * cy) * m == m * (2 * cy)) by (nonlinear_arith);
                lemma_tangent_result_on_curve(A as int, B as int, cx, cy, m, x3, y3);
            }
        } else if p.coord_x() == q.coord_x() {
        } else {
            let x1 = p.coord_x();
            let y1 = p.coord_y();
            let x2 = q.coord_x();
            let y2 = q.coord_y();
            let m = p.spec_chord_slope(q);
            let x3 = Self::spec_third_x(m, x1, x2);
            let y3 = Self::spec_third_y(m, x1, x3, y1);
            lemma_fundamental_div_mod(y2 - y1, x2 - x1);
            assert((x2 - x1) * m == m * (x2 - x1)) by (nonlinear_arith);
            lemma_chord_result_on_curve(A as int, B as int, x1, y1, x2, y2, m, x3, y3);
        }
    }

    /// The addition law is commutative: whenever `p + q` is defined, so is
    /// `q + p`, and the two sums are the same point.
    pub proof fn lemma_add_commutes(p: Self, q: Self)
        requires
            p.is_valid(),
            q.is_valid(),
            p.addition_defined(q),
        ensures
            q.addition_defined(p),
            p.spec_add(q) == q.spec_add(p),
    {
        if p.is_infinity() {
            if q.is_infinity() {
                assert(p == Self::spec_infinity());
                assert(q == Self::spec_infinity());
            }
        } else if q.is_infinity() {
        } else if p.same_coordinates(q) {
            assert(p == q);
        } else if p.coord_x() == q.coord_x() {
        } else {
            let x1 = p.coord_x();
            let y1 = p.coord_y();
            let x2 = q.coord_x();
            let y2 = q.coord_y();
            let m = p.spec_chord_slope(q);
            lemma_fundamental_div_mod(y2 - y1, x2 - x1);
            lemma_exact_div_negated(y2 - y1, x2 - x1);
            assert(y1 - y2 == -(y2 - y1));
            assert(x1 - x2 == -(x2 - x1));
            assert(q.spec_chord_slope(p) == m);
            assert((x2 - x1) * m == m * (x2 - x1)) by (nonlinear_arith);
            assert(m * (x2 - Self::spec_third_x(m, x1, x2)) == m * (x1 - Self::spec_third_x(
                m,
                x1,
                x2,
            )) + m * (x2 - x1)) by (nonlinear_arith);
            assert(Self::spec_third_x(m, x2, x1) == Self::spec_third_x(m, x1, x2));
            assert(Self::spec_third_y(m, x2, Self::spec_third_x(m, x1, x2), y2)
                == Self::spec_third_y(m, x1, Self::spec_third_x(m, x1, x2), y1));
        }
    }

    /// The identity element of the addition law; never fails.
    pub fn point_at_infinity() -> (r: Self)
        ensures
            r == Self::spec_infinity(),
            r.is_valid(),
    {
        Point::<A, B>::new(None, None).unwrap()
    }
}

impl<const A: u64, const B: u64> std::cmp::PartialEq<Point<A, B>> for Point<A, B> {
    /// Value equality on the coordinate pairs; two points at infinity are equal.
    fn eq(&self, other: &Point<A, B>) -> (r: bool) {
        let same_x: bool = match (self.x, other.x) {
            (Some(a), Some(b)) => a == b,
            (None, None) => true,
            _ => false,
        };
        let same_y: bool = match (self.y, other.y) {
            (Some(a), Some(b)) => a == b,
            (None, None) => true,
            _ => false,
        };
        same_x && same_y
    }
}

impl<const A: u64, const B: u64> vstd::std_specs::cmp::PartialEqSpecImpl<Point<A, B>> for Point<A, B> {
    open spec fn obeys_eq_spec() -> bool {
        true
    }

    open spec fn eq_spec(&self, other: &Point<A, B>) -> bool {
        self.same_coordinates(*other)
    }
}

/// Exact signed division: when `d` divides `n`, the quotient computed on
/// magnitudes with the sign reapplied is the mathematical quotient.
fn exact_div(n: i128, d: i128) -> (q: i128)
    requires
        d != 0,
        n % d == 0,
        i128::MIN < n,
        i128::MIN < d,
    ensures
        q == n as int / d as int,
        q * d == n,
{
    let ghost nw = n as int;
    let ghost dw = d as int;
    let ghost k = nw / dw;
    proof {
        lemma_fundamental_div_mod(nw, dw);
        assert(nw == dw * k);
    }
    let negative: bool = (n < 0) != (d < 0);
    let nn: u128 = if n < 0 {
        (-n) as u128
    } else {
        n as u128
    };
    let dd: u128 = if d < 0 {
        (-d) as u128
    } else {
        d as u128
    };
    let ghost ka = if k < 0 {
        -k
    } else {
        k
    };
    proof {
        assert(nn as int == dd as int * ka) by (nonlinear_arith)
            requires
                nw == dw * k,
                dw != 0,
                nn as int == (if nw < 0 { -nw } else { nw }),
                dd as int == (if dw < 0 { -dw } else { dw }),
                ka == (if k < 0 { -k } else { k }),
        ;
        assert(ka * dd as int + 0 == nn as int) by (nonlinear_arith)
            requires
                nn as int == dd as int * ka,
        ;
        lemma_fundamental_div_mod_converse_div(nn as int, dd as int, ka, 0);
    }
    let qq: u128 = nn / dd;
    proof {
        assert(qq as int == ka);
        assert(((nw < 0) != (dw < 0)) ==> k <= 0) by (nonlinear_arith)
            requires
                nw == dw * k,
                dw != 0,
        ;
        assert(!((nw < 0) != (dw < 0)) ==> k >= 0) by (nonlinear_arith)
            requires
                nw == dw * k,
                dw != 0,
        ;
    }
    let q: i128 = if negative {
        -(qq as i128)
    } else {
        qq as i128
    };
    proof {
        assert(q == k);
        assert(q * d == n) by (nonlinear_arith)
            requires
                nw == dw * k,
                q == k,
                nw == n as int,
                dw == d as int,
        ;
    }
    q
}

/// The deviation of a reflected line point from the curve factors through
/// `x1 - x3`: for `y3 == m*(x1 - x3) - y1` and `(x1, y1)` on the curve,
/// `y3^2 - (x3^3 + a*x3 + b) == (x1 - x3) * (m^2*(x1 - x3) - 2*m*y1 + x1^2 + x1*x3 + x3^2 + a)`.
proof fn lemma_line_deviation_factors(
    a: int,
    b: int,
    x1: int,
    y1: int,
    m: int,
    x3: int,
    y3: int,
)
    requires
        on_curve(a, b, x1, y1),
        y3 == m * (x1 - x3) - y1,
    ensures
        y3 * y3 - (x3 * x3 * x3 + a * x3 + b) == (x1 - x3) * (m * m * (x1 - x3) - 2 * m * y1 + x1
            * x1 + x1 * x3 + x3 * x3 + a),
{
    let dx = x1 - x3;
    assert(y3 * y3 == (m * m) * (dx * dx) - 2 * (m * dx) * y1 + y1 * y1) by (nonlinear_arith)
        requires
            y3 == m * dx - y1,
    ;
    assert(x1 * x1 * x1 - x3 * x3 * x3 + a * (x1 - x3) == dx * (x1 * x1 + x1 * x3 + x3 * x3 + a))
        by (nonlinear_arith)
        requires
            dx == x1 - x3,
    ;
    assert((m * m) * (dx * dx) - 2 * (m * dx) * y1 == dx * (m * m * dx - 2 * m * y1))
        by (nonlinear_arith);
    assert(dx * (m * m * dx - 2 * m * y1) + dx * (x1 * x1 + x1 * x3 + x3 * x3 + a) == dx * (m * m
        * dx - 2 * m * y1 + x1 * x1 + x1 * x3 + x3 * x3 + a)) by (nonlinear_arith);
    assert(m * m * (x1 - x3) == m * m * dx);
    assert(a * (x1 - x3) == a * x1 - a * x3) by (nonlinear_arith);
    assert(2 * (m * dx) * y1 == 2 * m * y1 * dx) by (nonlinear_arith);
    assert(dx * (m * m * dx - 2 * m * y1) == (m * m) * (dx * dx) - 2 * m * y1 * dx)
        by (nonlinear_arith);
}

/// When an exact chord through two distinct points of the curve is reflected
/// at its third intersection, the resulting point satisfies the curve
/// equation again: the three intersection abscissas of a line and the curve
/// sum to the square of the slope.
proof fn lemma_chord_result_on_curve(
    a: int,
    b: int,
    x1: int,
    y1: int,
    x2: int,
    y2: int,
    m: int,
    x3: int,
    y3: int,
)
    requires
        on_curve(a, b, x1, y1),
        on_curve(a, b, x2, y2),
        x1 != x2,
        m * (x2 - x1) == y2 - y1,
        x3 == m * m - x1 - x2,
        y3 == m * (x1 - x3) - y1,
    ensures
        on_curve(a, b, x3, y3),
{
    let du = x2 - x1;
    let dy = y2 - y1;
    // Difference of the two curve equations with the chord substituted for y.
    assert(du * (x1 * x1 + x1 * x2 + x2 * x2 + a) == x2 * x2 * x2 - x1 * x1 * x1 + a * (x2 - x1))
        by (nonlinear_arith)
        requires
            du == x2 - x1,
    ;
    assert(du * (m * (2 * y1 + m * du)) == (m * du) * (2 * y1 + m * du)) by (nonlinear_arith);
    assert(dy * (2 * y1 + dy) == y2 * y2 - y1 * y1) by (nonlinear_arith)
        requires
            dy == y2 - y1,
    ;
    assert(a * (x2 - x1) == a * x2 - a * x1) by (nonlinear_arith);
    assert(m * du == dy);
    assert(du * (m * (2 * y1 + m * du)) == du * (x1 * x1 + x1 * x2 + x2 * x2 + a));
    lemma_mul_equality_converse(
        du,
        m * (2 * y1 + m * du),
        x1 * x1 + x1 * x2 + x2 * x2 + a,
    );
    assert(m * (2 * y1 + m * du) == 2 * (m * y1) + (m * m) * du) by (nonlinear_arith);
    assert(2 * m * y1 == 2 * (m * y1)) by (nonlinear_arith);
    // The deviation of the reflected point from the curve factors.
    lemma_line_deviation_factors(a, b, x1, y1, m, x3, y3);
    let bracket = m * m * (x1 - x3) - 2 * m * y1 + x1 * x1 + x1 * x3 + x3 * x3 + a;
    assert(m * m * (x1 - x3) + (m * m) * du == m * m * (x2 - x3)) by (nonlinear_arith)
        requires
            du == x2 - x1,
    ;
    assert(bracket == m * m * (x2 - x3) - x1 * x2 - x2 * x2 + x1 * x3 + x3 * x3);
    assert(m * m * (x2 - x3) - x1 * x2 - x2 * x2 + x1 * x3 + x3 * x3 == (x2 - x3) * (m * m - x1
        - x2 - x3)) by (nonlinear_arith);
    assert(m * m - x1 - x2 - x3 == 0);
    assert((x2 - x3) * 0 == 0) by (nonlinear_arith);
    assert((x1 - x3) * 0 == 0) by (nonlinear_arith);
}

/// When the exact tangent at a point with nonzero ordinate is reflected at
/// its third intersection, the resulting point satisfies the curve equation.
proof fn lemma_tangent_result_on_curve(
    a: int,
    b: int,
    x1: int,
    y1: int,
    m: int,
    x3: int,
    y3: int,
)
    requires
        on_curve(a, b, x1, y1),
        y1 != 0,
        m * (2 * y1) == 3 * x1 * x1 + a,
        x3 == m * m - 2 * x1,
        y3 == m * (x1 - x3) - y1,
    ensures
        on_curve(a, b, x3, y3),
{
    lemma_line_deviation_factors(a, b, x1, y1, m, x3, y3);
    let bracket = m * m * (x1 - x3) - 2 * m * y1 + x1 * x1 + x1 * x3 + x3 * x3 + a;
    assert(2 * m * y1 == m * (2 * y1)) by (nonlinear_arith);
    assert(3 * x1 * x1 == 3 * (x1 * x1)) by (nonlinear_arith);
    assert(2 * x1 * x1 == 2 * (x1 * x1)) by (nonlinear_arith);
    assert(bracket == m * m * (x1 - x3) - 2 * x1 * x1 + x1 * x3 + x3 * x3);
    assert(m * m * (x1 - x3) == (x3 + 2 * x1) * (x1 - x3)) by (nonlinear_arith)
        requires
            x3 == m * m - 2 * x1,
    ;
    assert((x3 + 2 * x1) * (x1 - x3) - 2 * x1 * x1 + x1 * x3 + x3 * x3 == 0) by (nonlinear_arith);
    assert((x1 - x3) * 0 == 0) by (nonlinear_arith);
}

/// An exact division is unchanged when dividend and divisor are both negated.
proof fn lemma_exact_div_negated(n: int, d: int)
    requires
        d != 0,
        n % d == 0,
    ensures
        (-n) % (-d) == 0,
        (-n) / (-d) == n / d,
{
    lemma_fundamental_div_mod(n, d);
    lemma_fundamental_div_mod(-n, -d);
    let k = n / d;
    let k2 = (-n) / (-d);
    let r2 = (-n) % (-d);
    assert(r2 == (-d) * (k - k2)) by (nonlinear_arith)
        requires
            n == d * k,
            -n == (-d) * k2 + r2,
    ;
    assert(k == k2 && r2 == 0) by (nonlinear_arith)
        requires
            r2 == (-d) * (k - k2),
            d != 0,
            0 <= r2 < (if -d < 0 { d } else { -d }),
    ;
}

impl<const A: u64, const B: u64> std::ops::Add<Point<A, B>> for Point<A, B> {
    type Output = Self;

    /// The chord-and-tangent group law. Both operands must be valid points
    /// of the same curve, and the formulas must be exact and in range
    /// (`addition_defined`); the result is `spec_add` of the operands.
    fn add(self, other: Point<A, B>) -> (r: Self) {
        match (self.x, self.y, other.x, other.y) {
            (None, None, _, _) => other,
            (_, _, None, None) => self,
            (Some(x1), Some(y1), Some(x2), Some(y2)) => {
                if x1 == x2 && y1 == y2 {
                    if y1 == 0 {
                        Self::point_at_infinity()
                    } else {
                        let xw: i128 = x1 as i128;
                        let yw: i128 = y1 as i128;
                        proof {
                            let bound = COORDINATE_LIMIT as int;
                            lemma_product_bound(3 * xw as int, xw as int, 3 * bound, bound);
                        }
                        let num: i128 = 3 * xw * xw + A as i128;
                        let den: i128 = 2 * yw;
                        let m: i128 = exact_div(num, den);
                        let ghost x3s = Self::spec_third_x(
                            self.spec_tangent_slope(),
                            self.coord_x(),
                            self.coord_x(),
                        );
                        proof {
                            assert(m as int == self.spec_tangent_slope());
                            assert(m as int * m as int == x3s + xw as int + xw as int);
                            assert(-0x80_0000 <= m as int <= 0x80_0000) by (nonlinear_arith)
                                requires
                                    m as int * m as int <= 3 * (COORDINATE_LIMIT as int),
                            ;
                        }
                        let x3: i128 = m * m - 2 * xw;
                        proof {
                            lemma_product_bound(
                                m as int,
                                xw as int - x3 as int,
                                0x80_0000,
                                2 * (COORDINATE_LIMIT as int),
                            );
                        }
                        let y3: i128 = m * (xw - x3) - yw;
                        Point { x: Some(x3 as i64), y: Some(y3 as i64) }
                    }
                } else if x1 == x2 {
                    Self::point_at_infinity()
                } else {
                    let x1w: i128 = x1 as i128;
                    let y1w: i128 = y1 as i128;
                    let x2w: i128 = x2 as i128;
                    let y2w: i128 = y2 as i128;
                    let num: i128 = y2w - y1w;
                    let den: i128 = x2w - x1w;
                    let m: i128 = exact_div(num, den);
                    let ghost x3s = Self::spec_third_x(
                        self.spec_chord_slope(other),
                        self.coord_x(),
                        other.coord_x(),
                    );
                    proof {
                        assert(m as int == self.spec_chord_slope(other));
                        assert(m as int * m as int == x3s + x1w as int + x2w as int);
                        assert(-0x80_0000 <= m as int <= 0x80_0000) by (nonlinear_arith)
                            requires
                                m as int * m as int <= 3 * (COORDINATE_LIMIT as int),
                        ;
                    }
                    let x3: i128 = m * m - x1w - x2w;
                    proof {
                        lemma_product_bound(
                            m as int,
                            x1w as int - x3 as int,
                            0x80_0000,
                            2 * (COORDINATE_LIMIT as int),
                        );
                    }
                    let y3: i128 = m * (x1w - x3) - y1w;
                    Point { x: Some(x3 as i64), y: Some(y3 as i64) }
                }
            },
            _ => {
                proof {
                    assert(false);
                }
                Point { x: None, y: None }
            },
        }
    }
}

impl<const A: u64, const B: u64> vstd::std_specs::ops::AddSpecImpl<Point<A, B>> for Point<A, B> {
    open spec fn obeys_add_spec() -> bool {
        true
    }

    open spec fn add_req(self, rhs: Point<A, B>) -> bool {
        self.is_valid() && rhs.is_valid() && self.addition_defined(rhs)
    }

    open spec fn add_spec(self, rhs: Point<A, B>) -> Self {
        self.spec_add(rhs)
    }
}

} // verus!

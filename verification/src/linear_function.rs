//! The parametric representation of a 2D line that the rasterizers scan
//! against: either a line through two points with distinct x coordinates,
//! or an explicitly vertical line.
//!
//! All coordinates are integers, so every point on the ideal line is a
//! rational number; the solvers return that rational value truncated
//! toward zero, exactly.

use crate::geometry::Point;
use vstd::arithmetic::div_mod::lemma_div_is_ordered;
use vstd::arithmetic::div_mod::lemma_div_multiples_vanish;
use vstd::arithmetic::div_mod::lemma_div_nonincreasing;
use vstd::arithmetic::div_mod::lemma_div_pos_is_pos;
use vstd::arithmetic::div_mod::lemma_fundamental_div_mod;
use vstd::arithmetic::div_mod::lemma_fundamental_div_mod_converse_div;
use vstd::arithmetic::div_mod::lemma_mod_division_less_than_divisor;
use vstd::prelude::*;

verus! {

/// Integer division truncating toward zero (the rounding of Rust's `/` on
/// signed integers), expressed over Euclidean division on `int`.
pub open spec fn trunc_div(a: int, b: int) -> int
    recommends
        b != 0,
{
    if a == 0 {
        0
    } else if a > 0 && b > 0 {
        a / b
    } else if a < 0 && b < 0 {
        (a * -1) / (b * -1)
    } else if a < 0 {
        ((a * -1) / b) * -1
    } else {
        (a / (b * -1)) * -1
    }
}

/// The y value (truncated toward zero) at abscissa `a` of the ideal line
/// through `(a1, b1)` and `(a2, b2)`; also the x value at ordinate `a`
/// when the roles of the axes are swapped.
pub open spec fn interp(a1: int, b1: int, a2: int, b2: int, a: int) -> int
    recommends
        a1 != a2,
{
    trunc_div(b1 * (a2 - a1) + (b2 - b1) * (a - a1), a2 - a1)
}

/// Truncating division is unchanged when both operands are negated.
pub proof fn lemma_trunc_div_neg(a: int, b: int)
    requires
        b != 0,
    ensures
        trunc_div(a, b) == trunc_div(-a, -b),
{
    assert(a * -1 == -a);
    assert(b * -1 == -b);
    assert((-a) * -1 == a);
    assert((-b) * -1 == b);
}

/// For a positive divisor, the truncated quotient of a number lying
/// between two exact multiples lies between the two factors.
pub proof fn lemma_trunc_div_between(lo: int, hi: int, num: int, den: int)
    requires
        den > 0,
        lo * den <= num,
        num <= hi * den,
    ensures
        lo <= trunc_div(num, den),
        trunc_div(num, den) <= hi,
{
    let q = num / den;
    let r = num % den;
    lemma_fundamental_div_mod(num, den);
    lemma_mod_division_less_than_divisor(num, den);
    assert(num == den * q + r);
    assert(0 <= r < den);
    assert((lo * den) / den == lo) by {
        lemma_div_multiples_vanish(lo, den);
        assert(lo * den == den * lo) by (nonlinear_arith);
    }
    assert((hi * den) / den == hi) by {
        lemma_div_multiples_vanish(hi, den);
        assert(hi * den == den * hi) by (nonlinear_arith);
    }
    lemma_div_is_ordered(lo * den, num, den);
    lemma_div_is_ordered(num, hi * den, den);
    assert(lo <= q <= hi);
    if num == 0 {
        assert(trunc_div(num, den) == 0);
        assert(den * q + r == 0);
        assert(q == 0 && r == 0) by (nonlinear_arith)
            requires
                den > 0,
                0 <= r < den,
                den * q + r == 0,
        ;
    } else if num > 0 {
        assert(trunc_div(num, den) == q);
    } else {
        let m = num * -1;
        assert(m == -num);
        if r == 0 {
            assert(m == den * (-q)) by (nonlinear_arith)
                requires
                    num == den * q + r,
                    r == 0,
                    m == -num,
            ;
            lemma_div_multiples_vanish(-q, den);
            assert(m / den == -q);
            assert(trunc_div(num, den) == (m / den) * -1);
            assert(trunc_div(num, den) == q);
        } else {
            assert(m == (-q - 1) * den + (den - r)) by (nonlinear_arith)
                requires
                    num == den * q + r,
                    m == -num,
            ;
            lemma_fundamental_div_mod_converse_div(m, den, -q - 1, den - r);
            assert(m / den == -q - 1);
            assert(trunc_div(num, den) == (m / den) * -1);
            assert(trunc_div(num, den) == q + 1);
            assert(q < hi) by (nonlinear_arith)
                requires
                    den > 0,
                    den * q + r <= hi * den,
                    r >= 1,
            ;
        }
    }
}

/// A quotient of exact multiples is recovered exactly: `(k*d)/d == k`
/// under truncation toward zero, for either sign of `d`.
pub proof fn lemma_trunc_div_exact(k: int, d: int)
    requires
        d != 0,
    ensures
        trunc_div(k * d, d) == k,
{
    if d > 0 {
        lemma_trunc_div_between(k, k, k * d, d);
    } else {
        lemma_trunc_div_neg(k * d, d);
        assert(-(k * d) == k * (-d)) by (nonlinear_arith);
        lemma_trunc_div_between(k, k, k * (-d), -d);
    }
}

/// The magnitude of a truncated quotient never exceeds the magnitude of
/// the dividend.
pub proof fn lemma_trunc_div_abs_bound(a: int, b: int)
    requires
        b != 0,
    ensures
        trunc_div(a, b) <= (if a >= 0 { a } else { -a }),
        trunc_div(a, b) >= (if a >= 0 { -a } else { a }),
{
    if a == 0 {
    } else if a > 0 && b > 0 {
        lemma_div_pos_is_pos(a, b);
        lemma_div_nonincreasing(a, b);
    } else if a < 0 && b < 0 {
        lemma_div_pos_is_pos(a * -1, b * -1);
        lemma_div_nonincreasing(a * -1, b * -1);
    } else if a < 0 {
        lemma_div_pos_is_pos(a * -1, b);
        lemma_div_nonincreasing(a * -1, b);
    } else {
        lemma_div_pos_is_pos(a, b * -1);
        lemma_div_nonincreasing(a, b * -1);
    }
}

/// Interpolating at an abscissa between the two defining abscissas yields
/// an ordinate between the two defining ordinates.
pub proof fn lemma_interp_bounds(a1: int, b1: int, a2: int, b2: int, a: int)
    requires
        a1 != a2,
        vstd::math::min(a1, a2) <= a <= vstd::math::max(a1, a2),
    ensures
        vstd::math::min(b1, b2) <= interp(a1, b1, a2, b2, a),
        interp(a1, b1, a2, b2, a) <= vstd::math::max(b1, b2),
{
    let d = a2 - a1;
    let e = b2 - b1;
    let t = a - a1;
    let num = b1 * d + e * t;
    if d > 0 {
        assert(0 <= t <= d);
        if e >= 0 {
            assert(b1 * d <= num && num <= b2 * d) by (nonlinear_arith)
                requires
                    d > 0,
                    e >= 0,
                    0 <= t <= d,
                    num == b1 * d + e * t,
                    b2 == b1 + e,
            ;
            lemma_trunc_div_between(b1, b2, num, d);
        } else {
            assert(b2 * d <= num && num <= b1 * d) by (nonlinear_arith)
                requires
                    d > 0,
                    e < 0,
                    0 <= t <= d,
                    num == b1 * d + e * t,
                    b2 == b1 + e,
            ;
            lemma_trunc_div_between(b2, b1, num, d);
        }
    } else {
        lemma_trunc_div_neg(num, d);
        let d2 = -d;
        let t2 = -t;
        assert(0 <= t2 <= d2);
        assert(-num == b1 * d2 + e * t2) by (nonlinear_arith)
            requires
                num == b1 * d + e * t,
                d2 == -d,
                t2 == -t,
        ;
        if e >= 0 {
            assert(b1 * d2 <= -num && -num <= b2 * d2) by (nonlinear_arith)
                requires
                    d2 > 0,
                    e >= 0,
                    0 <= t2 <= d2,
                    -num == b1 * d2 + e * t2,
                    b2 == b1 + e,
            ;
            lemma_trunc_div_between(b1, b2, -num, d2);
        } else {
            assert(b2 * d2 <= -num && -num <= b1 * d2) by (nonlinear_arith)
                requires
                    d2 > 0,
                    e < 0,
                    0 <= t2 <= d2,
                    -num == b1 * d2 + e * t2,
                    b2 == b1 + e,
            ;
            lemma_trunc_div_between(b2, b1, -num, d2);
        }
    }
}

/// Interpolation is exact at the two defining points.
pub proof fn lemma_interp_exact(a1: int, b1: int, a2: int, b2: int)
    requires
        a1 != a2,
    ensures
        interp(a1, b1, a2, b2, a1) == b1,
        interp(a1, b1, a2, b2, a2) == b2,
{
    let d = a2 - a1;
    assert(b1 * d + (b2 - b1) * (a1 - a1) == b1 * d) by (nonlinear_arith);
    lemma_trunc_div_exact(b1, d);
    assert(b1 * d + (b2 - b1) * (a2 - a1) == b2 * d) by (nonlinear_arith)
        requires
            d == a2 - a1,
    ;
    lemma_trunc_div_exact(b2, d);
}

/// A line in the plane: `Standard` spans two points with distinct x
/// coordinates; `Vertical` has no slope and is identified by its fixed x.
#[derive(Clone, Copy, Debug, PartialEq, Eq, Structural)]
pub enum LinearFunction {
    Standard { x1: i32, y1: i32, x2: i32, y2: i32 },
    Vertical { x: i32 },
}

impl LinearFunction {
    /// Well-formed lines never carry two endpoints with the same x in the
    /// `Standard` variant.
    pub open spec fn wf(self) -> bool {
        match self {
            LinearFunction::Standard { x1, x2, .. } => x1 != x2,
            LinearFunction::Vertical { .. } => true,
        }
    }

    pub open spec fn is_vertical(self) -> bool {
        match self {
            LinearFunction::Standard { .. } => false,
            LinearFunction::Vertical { .. } => true,
        }
    }

    /// `solve_x` divides by the y extent of a `Standard` line, so it is
    /// answerable only when that extent is nonzero (or on a vertical line).
    pub open spec fn solvable_x(self) -> bool {
        match self {
            LinearFunction::Standard { y1, y2, .. } => y1 != y2,
            LinearFunction::Vertical { .. } => true,
        }
    }

    /// The line through the two given points: vertical when the x
    /// coordinates coincide, standard otherwise.
    pub open spec fn from_points_spec(p1: Point, p2: Point) -> LinearFunction {
        if p1.x == p2.x {
            LinearFunction::Vertical { x: p1.x }
        } else {
            LinearFunction::Standard { x1: p1.x, y1: p1.y, x2: p2.x, y2: p2.y }
        }
    }

    /// The y value of the ideal line at `x`, truncated toward zero.
    /// Meaningless for vertical lines, which have every y at their one x.
    pub open spec fn solve_y_spec(self, x: int) -> int
        recommends
            self.wf(),
            !self.is_vertical(),
    {
        match self {
            LinearFunction::Standard { x1, y1, x2, y2 } => interp(
                x1 as int,
                y1 as int,
                x2 as int,
                y2 as int,
                x,
            ),
            LinearFunction::Vertical { .. } => 0,
        }
    }

    /// The x value of the ideal line at `y`, truncated toward zero; the
    /// fixed x for a vertical line.
    pub open spec fn solve_x_spec(self, y: int) -> int
        recommends
            self.wf(),
            self.solvable_x(),
    {
        match self {
            LinearFunction::Standard { x1, y1, x2, y2 } => interp(
                y1 as int,
                x1 as int,
                y2 as int,
                x2 as int,
                y,
            ),
            LinearFunction::Vertical { x } => x as int,
        }
    }

    /// Construct the line through two distinct points.  Two coincident
    /// points determine no line, so they are ruled out up front.
    pub fn from_points(p1: &Point, p2: &Point) -> (r: LinearFunction)
        requires
            p1.x != p2.x || p1.y != p2.y,
        ensures
            r == LinearFunction::from_points_spec(*p1, *p2),
            r.wf(),
    {
        if p1.x == p2.x {
            return LinearFunction::Vertical { x: p1.x };
        }
        LinearFunction::Standard { x1: p1.x, y1: p1.y, x2: p2.x, y2: p2.y }
    }

    /// Solve for x at the given y: the truncated value of the ideal line,
    /// or the fixed x of a vertical line.
    pub fn solve_x(&self, y: i32) -> (r: i32)
        requires
            self.wf(),
            self.solvable_x(),
            i32::MIN <= self.solve_x_spec(y as int) <= i32::MAX,
        ensures
            r == self.solve_x_spec(y as int),
    {
        match self {
            LinearFunction::Standard { x1, y1, x2, y2 } => interp_exec(*y1, *x1, *y2, *x2, y),
            LinearFunction::Vertical { x } => *x,
        }
    }

    /// Solve for y at the given x: the truncated value of the ideal line.
    /// A vertical line has no y for a single x, so it is excluded by
    /// precondition.
    pub fn solve_y(&self, x: i32) -> (r: i32)
        requires
            self.wf(),
            !self.is_vertical(),
            i32::MIN <= self.solve_y_spec(x as int) <= i32::MAX,
        ensures
            r == self.solve_y_spec(x as int),
    {
        match self {
            LinearFunction::Standard { x1, y1, x2, y2 } => interp_exec(*x1, *y1, *x2, *y2, x),
            LinearFunction::Vertical { .. } => {
                proof {
                    assert(false);
                }
                0
            },
        }
    }
}

/// Evaluate `interp` in executable code: the whole computation fits
/// comfortably in 128-bit intermediates.
fn interp_exec(a1: i32, b1: i32, a2: i32, b2: i32, a: i32) -> (r: i32)
    requires
        a1 != a2,
        i32::MIN <= interp(a1 as int, b1 as int, a2 as int, b2 as int, a as int) <= i32::MAX,
    ensures
        r == interp(a1 as int, b1 as int, a2 as int, b2 as int, a as int),
{
    let d: i128 = a2 as i128 - a1 as i128;
    let e: i128 = b2 as i128 - b1 as i128;
    let t: i128 = a as i128 - a1 as i128;
    proof {
        assert((b1 as i128) * d <= 0x40000000000000000 && (b1 as i128) * d
            >= -0x40000000000000000) by (nonlinear_arith)
            requires
                -0x80000000 <= b1 <= 0x7fffffff,
                -0x100000000 <= d <= 0x100000000,
        ;
        assert(e * t <= 0x100000000000000000 && e * t >= -0x100000000000000000)
            by (nonlinear_arith)
            requires
                -0x100000000 <= e <= 0x100000000,
                -0x100000000 <= t <= 0x100000000,
        ;
    }
    let num: i128 = b1 as i128 * d + e * t;
    let q_opt: Option<i128> = num.checked_div(d);
    proof {
        lemma_trunc_div_abs_bound(num as int, d as int);
    }
    match q_opt {
        Some(q) => {
            proof {
                assert(q == trunc_div(num as int, d as int));
                assert(num as int == (b1 as int) * (a2 - a1) + (b2 - b1) * (a - a1));
            }
            q as i32
        },
        None => {
            proof {
                assert(false);
            }
            0
        },
    }
}

/// Law: building a line from two points with distinct x coordinates and
/// solving for y at either defining x returns that point's y exactly.
pub proof fn lemma_from_points_solve_y_roundtrip(p1: Point, p2: Point)
    requires
        p1.x != p2.x,
    ensures
        LinearFunction::from_points_spec(p1, p2).solve_y_spec(p1.x as int) == p1.y,
        LinearFunction::from_points_spec(p1, p2).solve_y_spec(p2.x as int) == p2.y,
{
    lemma_interp_exact(p1.x as int, p1.y as int, p2.x as int, p2.y as int);
}

/// Law: the line through a vertical pair of points solves x to the shared
/// x coordinate, whatever y is asked about.
pub proof fn lemma_vertical_solve_x(p1: Point, p2: Point, y: int)
    requires
        p1.x == p2.x,
    ensures
        LinearFunction::from_points_spec(p1, p2).solve_x_spec(y) == p1.x,
{
}

/// On any abscissa between the two defining points, `solve_y` stays
/// between the two defining ordinates (so scanning a segment never leaves
/// its bounding box).
pub proof fn lemma_solve_y_spec_in_segment(p1: Point, p2: Point, x: int)
    requires
        p1.x != p2.x,
        vstd::math::min(p1.x as int, p2.x as int) <= x <= vstd::math::max(p1.x as int, p2.x as int),
    ensures
        vstd::math::min(p1.y as int, p2.y as int) <= LinearFunction::from_points_spec(
            p1,
            p2,
        ).solve_y_spec(x) <= vstd::math::max(p1.y as int, p2.y as int),
{
    lemma_interp_bounds(p1.x as int, p1.y as int, p2.x as int, p2.y as int, x);
}

} // verus!

//! Integer coordinates, segments, vertex events and the exact side predicates on them.

use crate::text::{push_signed, signed_decimal};
use vstd::prelude::*;

verus! {

/// A point of the integer grid.
#[derive(Clone, Copy, Debug, PartialEq, Eq, Structural)]
pub struct Coords {
    pub x: i32,
    pub y: i32,
}

/// A point of the plane.
pub ghost struct Point {
    pub x: real,
    pub y: real,
}

/// A vertex event: the place of an inserted endpoint, whose height bounds trapezoids.
#[derive(Clone, Copy, Debug, PartialEq, Eq, Structural)]
pub struct Nexus {
    pub at: Coords,
}

/// A line segment, directed from its lower endpoint `lo` to its upper endpoint `hi`.
#[derive(Clone, Copy, Debug, PartialEq, Eq, Structural)]
pub struct Segment {
    pub lo: Coords,
    pub hi: Coords,
}

/// Twice the signed area of the triangle `a`, `b`, `p`: positive exactly when `p` lies
/// strictly to the left of the line directed from `a` to `b`, zero when it lies on it.
pub open spec fn orient(a: Coords, b: Coords, p: Coords) -> int {
    (b.x - a.x) * (p.y - a.y) - (b.y - a.y) * (p.x - a.x)
}

/// How much faster the line through `a` and `b` runs to the right than the line through
/// `lo` and `hi`, scaled by both rises.
pub open spec fn slope_gap(a: Coords, b: Coords, lo: Coords, hi: Coords) -> int {
    (b.x - a.x) * (hi.y - lo.y) - (b.y - a.y) * (hi.x - lo.x)
}

/// The side, relative to the line directed from `a` to `b`, of the point at height `d` on
/// the line through `lo` and `hi`: `orient` of that point, scaled by `hi.y - lo.y`. It is
/// `orient` of `lo`, scaled, plus what the side changes on the way from `lo` up to `d`.
pub open spec fn orient_at(a: Coords, b: Coords, lo: Coords, hi: Coords, d: int) -> int {
    slope_gap(a, b, lo, hi) * (d - lo.y) + (hi.y - lo.y) * orient(a, b, lo)
}

/// `orient` for a point of the plane: twice the signed area of the triangle `a`, `b`, `p`.
#[verifier::opaque]
pub open spec fn turn(a: Coords, b: Coords, p: Point) -> real {
    (b.x - a.x) as real * (p.y - a.y as real) - (b.y - a.y) as real * (p.x - a.x as real)
}

/// `orient_at` for any height: the side, relative to the line directed from `a` to `b`,
/// of the point at height `y` on the line through `lo` and `hi`, scaled by `hi.y - lo.y`.
#[verifier::opaque]
pub open spec fn turn_at(a: Coords, b: Coords, lo: Coords, hi: Coords, y: real) -> real {
    slope_gap(a, b, lo, hi) as real * (y - lo.y as real) + (hi.y - lo.y) as real * (orient(
        a,
        b,
        lo,
    ) as real)
}

/// Whether `p` lies strictly to the left of the line directed from `a` to `b`.
/// A point on the line counts as right of it.
pub open spec fn left_of(a: Coords, b: Coords, p: Point) -> bool {
    turn(a, b, p) > 0real
}

/// For a point of the grid `turn` is `orient`, so the point lies left of a line exactly
/// when `orient` is positive.
pub proof fn lemma_turn_of_grid(a: Coords, b: Coords, p: Coords)
    ensures
        turn(a, b, p.point()) == orient(a, b, p) as real,
        left_of(a, b, p.point()) <==> orient(a, b, p) > 0,
{
    reveal(turn);
    assert((b.x - a.x) as real * (p.y as real - a.y as real) - (b.y - a.y) as real * (p.x as real
        - a.x as real) == orient(a, b, p) as real) by (nonlinear_arith);
}

proof fn lemma_sign_between_real(gap: real, f0: real, f1: real, f: real, y0: real, y1: real, y: real)
    by (nonlinear_arith)
    requires
        y0 <= y <= y1,
        f - f0 == gap * (y - y0),
        f - f1 == gap * (y - y1),
    ensures
        f0 >= 0real && f1 >= 0real ==> f >= 0real,
        f0 <= 0real && f1 <= 0real ==> f <= 0real,
{
}

proof fn lemma_sign_of_sum_real(rise: real, o: real, f: real, by: real, w: real)
    by (nonlinear_arith)
    requires
        rise > 0real,
        by > 0real,
        rise * o == f + by * w,
    ensures
        f >= 0real && w > 0real ==> o > 0real,
        f <= 0real && w <= 0real ==> o <= 0real,
{
}

proof fn lemma_mul_comm(a: real, b: real)
    by (nonlinear_arith)
    ensures
        a * b == b * a,
{
}

proof fn lemma_mul_assoc(a: real, b: real, c: real)
    by (nonlinear_arith)
    ensures
        a * (b * c) == (a * b) * c,
{
}

proof fn lemma_mul_over_sub(a: real, b: real, c: real)
    by (nonlinear_arith)
    ensures
        a * (b - c) == a * b - a * c,
{
}

proof fn lemma_mul_over_add(a: real, b: real, c: real)
    by (nonlinear_arith)
    ensures
        a * (b + c) == a * b + a * c,
{
}

/// `k * (m * x - n * y)` with the factor `k` moved into both products.
proof fn lemma_scale_difference(k: real, m: real, x: real, n: real, y: real)
    ensures
        k * (m * x - n * y) == (m * k) * x - (n * k) * y,
{
    lemma_mul_over_sub(k, m * x, n * y);
    lemma_mul_assoc(k, m, x);
    lemma_mul_assoc(k, n, y);
    lemma_mul_comm(k, m);
    lemma_mul_comm(k, n);
}

proof fn lemma_product_sign(a: real, b: real)
    by (nonlinear_arith)
    ensures
        a > 0real && b > 0real ==> a * b > 0real,
        a < 0real && b < 0real ==> a * b > 0real,
        a > 0real && b < 0real ==> a * b < 0real,
        a < 0real && b > 0real ==> a * b < 0real,
        a == 0real ==> a * b == 0real,
{
}

proof fn lemma_strict_between_real(gap: real, f0: real, f1: real, f: real, y0: real, y1: real, y: real)
    requires
        y0 < y < y1,
        f - f0 == gap * (y - y0),
        f - f1 == gap * (y - y1),
    ensures
        f0 >= 0real && f1 >= 0real && (f0 > 0real || f1 > 0real) ==> f > 0real,
        f0 <= 0real && f1 <= 0real && (f0 < 0real || f1 < 0real) ==> f < 0real,
{
    lemma_product_sign(gap, y - y0);
    lemma_product_sign(gap, y - y1);
}

proof fn lemma_split_real(bx: real, by: real, run: real, rise: real, u: real, v: real, w: real, t: real)
    ensures
        rise * (bx * (u + v) - by * (t + w)) == (bx * rise - by * run) * u + rise * (bx * v - by
            * w) + by * (run * u - rise * t),
{
    let a = bx * rise;
    let b = by * run;
    let c = by * rise;
    lemma_scale_difference(rise, bx, u + v, by, t + w);
    lemma_scale_difference(rise, bx, v, by, w);
    lemma_scale_difference(by, run, u, rise, t);
    lemma_mul_comm(rise, by);
    lemma_mul_comm(run, by);
    lemma_mul_comm(a - b, u);
    lemma_mul_over_sub(u, a, b);
    lemma_mul_comm(u, a);
    lemma_mul_comm(u, b);
    lemma_mul_over_add(a, u, v);
    lemma_mul_over_add(c, t, w);
}

/// At a height of the grid `turn_at` is `orient_at`.
pub proof fn lemma_turn_at_of_grid(a: Coords, b: Coords, lo: Coords, hi: Coords, d: int)
    ensures
        turn_at(a, b, lo, hi, d as real) == orient_at(a, b, lo, hi, d) as real,
{
    reveal(turn_at);
    let gap = slope_gap(a, b, lo, hi);
    let base = (hi.y - lo.y) * orient(a, b, lo);
    assert(gap as real * (d as real - lo.y as real) == (gap * (d - lo.y)) as real)
        by (nonlinear_arith);
    assert((hi.y - lo.y) as real * (orient(a, b, lo) as real) == base as real)
        by (nonlinear_arith)
        requires
            base == (hi.y - lo.y) * orient(a, b, lo),
    ;
}

/// `turn_at` changes with the height at the rate of the slope gap.
pub proof fn lemma_turn_at_affine(a: Coords, b: Coords, lo: Coords, hi: Coords, y: real, z: real)
    ensures
        turn_at(a, b, lo, hi, y) - turn_at(a, b, lo, hi, z) == slope_gap(a, b, lo, hi) as real * (y
            - z),
{
    reveal(turn_at);
    let gap = slope_gap(a, b, lo, hi) as real;
    lemma_mul_over_sub(gap, y - lo.y as real, z - lo.y as real);
}

/// Strictly between two heights of the grid, `turn_at` has the strict sign that
/// `orient_at` has at one of them, if at the other it has the same sign or is zero.
pub proof fn lemma_turn_at_strictly_between(
    a: Coords,
    b: Coords,
    lo: Coords,
    hi: Coords,
    y0: int,
    y1: int,
    y: real,
)
    requires
        (y0 as real) < y < (y1 as real),
    ensures
        orient_at(a, b, lo, hi, y0) >= 0 && orient_at(a, b, lo, hi, y1) >= 0 && (orient_at(
            a,
            b,
            lo,
            hi,
            y0,
        ) > 0 || orient_at(a, b, lo, hi, y1) > 0) ==> turn_at(a, b, lo, hi, y) > 0real,
        orient_at(a, b, lo, hi, y0) <= 0 && orient_at(a, b, lo, hi, y1) <= 0 && (orient_at(
            a,
            b,
            lo,
            hi,
            y0,
        ) < 0 || orient_at(a, b, lo, hi, y1) < 0) ==> turn_at(a, b, lo, hi, y) < 0real,
{
    let gap = slope_gap(a, b, lo, hi) as real;
    lemma_turn_at_of_grid(a, b, lo, hi, y0);
    lemma_turn_at_of_grid(a, b, lo, hi, y1);
    let f0 = turn_at(a, b, lo, hi, y0 as real);
    let f1 = turn_at(a, b, lo, hi, y1 as real);
    let f = turn_at(a, b, lo, hi, y);
    lemma_turn_at_affine(a, b, lo, hi, y, y0 as real);
    lemma_turn_at_affine(a, b, lo, hi, y, y1 as real);
    lemma_strict_between_real(gap, f0, f1, f, y0 as real, y1 as real, y);
}

/// Between two heights of the grid, `turn_at` has the sign that `orient_at` has at both of
/// them.
pub proof fn lemma_turn_at_between(
    a: Coords,
    b: Coords,
    lo: Coords,
    hi: Coords,
    y0: int,
    y1: int,
    y: real,
)
    requires
        y0 as real <= y <= y1 as real,
    ensures
        orient_at(a, b, lo, hi, y0) >= 0 && orient_at(a, b, lo, hi, y1) >= 0 ==> turn_at(
            a,
            b,
            lo,
            hi,
            y,
        ) >= 0real,
        orient_at(a, b, lo, hi, y0) <= 0 && orient_at(a, b, lo, hi, y1) <= 0 ==> turn_at(
            a,
            b,
            lo,
            hi,
            y,
        ) <= 0real,
{
    let gap = slope_gap(a, b, lo, hi) as real;
    lemma_turn_at_of_grid(a, b, lo, hi, y0);
    lemma_turn_at_of_grid(a, b, lo, hi, y1);
    let f0 = turn_at(a, b, lo, hi, y0 as real);
    let f1 = turn_at(a, b, lo, hi, y1 as real);
    let f = turn_at(a, b, lo, hi, y);
    lemma_turn_at_affine(a, b, lo, hi, y, y0 as real);
    lemma_turn_at_affine(a, b, lo, hi, y, y1 as real);
    lemma_sign_between_real(gap, f0, f1, f, y0 as real, y1 as real, y);
}

/// How the sides of a point relative to two lines are tied: the side relative to the line
/// through `a` and `b`, scaled by the rise of the other line, is the side of the other
/// line at the point's height plus the side relative to the other line, scaled by the
/// rise of the first.
pub proof fn lemma_turn_split(a: Coords, b: Coords, lo: Coords, hi: Coords, p: Point)
    ensures
        (hi.y - lo.y) as real * turn(a, b, p) == turn_at(a, b, lo, hi, p.y) + (b.y - a.y) as real
            * turn(lo, hi, p),
{
    let bx = (b.x - a.x) as real;
    let by = (b.y - a.y) as real;
    let run = (hi.x - lo.x) as real;
    let rise = (hi.y - lo.y) as real;
    let u = p.y - lo.y as real;
    let v = (lo.y - a.y) as real;
    let w = (lo.x - a.x) as real;
    let t = p.x - lo.x as real;
    let gap = slope_gap(a, b, lo, hi) as real;
    let base = orient(a, b, lo) as real;
    reveal(turn);
    reveal(turn_at);
    lemma_split_real(bx, by, run, rise, u, v, w, t);
    assert(gap == bx * rise - by * run) by (nonlinear_arith)
        requires
            gap == ((b.x - a.x) * (hi.y - lo.y) - (b.y - a.y) * (hi.x - lo.x)) as real,
            bx == (b.x - a.x) as real,
            by == (b.y - a.y) as real,
            run == (hi.x - lo.x) as real,
            rise == (hi.y - lo.y) as real,
    ;
    assert(base == bx * v - by * w) by (nonlinear_arith)
        requires
            base == ((b.x - a.x) * (lo.y - a.y) - (b.y - a.y) * (lo.x - a.x)) as real,
            bx == (b.x - a.x) as real,
            by == (b.y - a.y) as real,
            v == (lo.y - a.y) as real,
            w == (lo.x - a.x) as real,
    ;
    assert(u + v == p.y - a.y as real);
    assert(t + w == p.x - a.x as real);
    let whole = bx * (u + v) - by * (t + w);
    let other = run * u - rise * t;
    assert(turn(a, b, p) == whole);
    assert(turn(lo, hi, p) == other);
    assert(turn_at(a, b, lo, hi, p.y) == gap * u + rise * base);
    assert(rise * turn(a, b, p) == rise * whole);
    assert(gap * u == (bx * rise - by * run) * u);
    assert(rise * base == rise * (bx * v - by * w));
}

/// The point at height `y` on the line through `lo` and `hi`.
pub open spec fn point_at(lo: Coords, hi: Coords, y: real) -> Point {
    Point {
        x: lo.x as real + ((hi.x - lo.x) as real * (y - lo.y as real)) / ((hi.y - lo.y) as real),
        y,
    }
}

proof fn lemma_divide_back(a: real, b: real)
    by (nonlinear_arith)
    requires
        b != 0real,
    ensures
        b * (a / b) == a,
{
}

/// The point at a height on a line lies on the line.
pub proof fn lemma_point_at(lo: Coords, hi: Coords, y: real)
    requires
        lo.y < hi.y,
    ensures
        turn(lo, hi, point_at(lo, hi, y)) == 0real,
        point_at(lo, hi, y).y == y,
{
    reveal(turn);
    let run = (hi.x - lo.x) as real;
    let rise = (hi.y - lo.y) as real;
    let u = y - lo.y as real;
    lemma_divide_back(run * u, rise);
}

/// Of two points at one height, the second on the line through `lo` and `hi`, the first
/// lies left of the line exactly when it lies left of the second.
pub proof fn lemma_left_at_one_height(lo: Coords, hi: Coords, q: Point, x: Point)
    requires
        lo.y < hi.y,
        turn(lo, hi, x) == 0real,
        q.y == x.y,
    ensures
        left_of(lo, hi, q) <==> q.x < x.x,
{
    reveal(turn);
    let run = (hi.x - lo.x) as real;
    let rise = (hi.y - lo.y) as real;
    lemma_mul_over_sub(rise, x.x - lo.x as real, q.x - lo.x as real);
    lemma_product_sign(rise, x.x - q.x);
    assert(turn(lo, hi, q) - turn(lo, hi, x) == rise * (x.x - q.x));
}

/// For a point on the line through `lo` and `hi`, `turn` relative to the line through
/// `a` and `b` has the sign of `turn_at` at the height of the point.
pub proof fn lemma_side_of_point_on(a: Coords, b: Coords, lo: Coords, hi: Coords, p: Point)
    requires
        lo.y < hi.y,
        turn(lo, hi, p) == 0real,
    ensures
        left_of(a, b, p) <==> turn_at(a, b, lo, hi, p.y) > 0real,
        turn(a, b, p) == 0real <==> turn_at(a, b, lo, hi, p.y) == 0real,
{
    lemma_turn_split(a, b, lo, hi, p);
    lemma_mul_comm((b.y - a.y) as real, turn(lo, hi, p));
    lemma_product_sign(turn(lo, hi, p), (b.y - a.y) as real);
    lemma_product_sign((hi.y - lo.y) as real, turn(a, b, p));
    lemma_mul_comm((hi.y - lo.y) as real, turn(a, b, p));
    lemma_product_sign(turn(a, b, p), (hi.y - lo.y) as real);
}

/// For a point on the line through `a` and `b`: where at its height the line through `lo`
/// and `hi` is strictly right of that line, the point is strictly left of the line through
/// `lo` and `hi`.
pub proof fn lemma_on_first_line(a: Coords, b: Coords, lo: Coords, hi: Coords, p: Point)
    requires
        a.y < b.y,
        lo.y < hi.y,
        turn(a, b, p) == 0real,
        turn_at(a, b, lo, hi, p.y) < 0real,
    ensures
        left_of(lo, hi, p),
{
    lemma_turn_split(a, b, lo, hi, p);
    lemma_mul_comm((hi.y - lo.y) as real, turn(a, b, p));
    lemma_product_sign(turn(a, b, p), (hi.y - lo.y) as real);
    lemma_product_sign((b.y - a.y) as real, turn(lo, hi, p));
    lemma_mul_comm((b.y - a.y) as real, turn(lo, hi, p));
    lemma_product_sign(turn(lo, hi, p), (b.y - a.y) as real);
}

/// For a point on the line through `lo` and `hi`: it lies on the side of the line through
/// `a` and `b` on which the line through `lo` and `hi` is at its height.
pub proof fn lemma_on_second_line(a: Coords, b: Coords, lo: Coords, hi: Coords, p: Point)
    requires
        a.y < b.y,
        lo.y < hi.y,
        turn(lo, hi, p) == 0real,
    ensures
        turn_at(a, b, lo, hi, p.y) > 0real ==> left_of(a, b, p),
        turn_at(a, b, lo, hi, p.y) <= 0real ==> !left_of(a, b, p),
{
    lemma_turn_split(a, b, lo, hi, p);
    lemma_mul_comm((b.y - a.y) as real, turn(lo, hi, p));
    lemma_product_sign(turn(lo, hi, p), (b.y - a.y) as real);
    lemma_product_sign((hi.y - lo.y) as real, turn(a, b, p));
    lemma_mul_comm((hi.y - lo.y) as real, turn(a, b, p));
    lemma_product_sign(turn(a, b, p), (hi.y - lo.y) as real);
}

/// A point on a given side of the line through `lo` and `hi` is on the same side of the
/// line through `a` and `b`, if at the point's height the first line is on that side of
/// the second: to the left of the left one, or not to the left of the right one.
pub proof fn lemma_side_carries(a: Coords, b: Coords, lo: Coords, hi: Coords, p: Point)
    requires
        a.y < b.y,
        lo.y < hi.y,
    ensures
        turn_at(a, b, lo, hi, p.y) >= 0real && left_of(lo, hi, p) ==> left_of(a, b, p),
        turn_at(a, b, lo, hi, p.y) <= 0real && !left_of(lo, hi, p) ==> !left_of(a, b, p),
{
    lemma_turn_split(a, b, lo, hi, p);
    lemma_sign_of_sum_real(
        (hi.y - lo.y) as real,
        turn(a, b, p),
        turn_at(a, b, lo, hi, p.y),
        (b.y - a.y) as real,
        turn(lo, hi, p),
    );
}

proof fn lemma_product_bound(u: int, v: int, m: int, n: int)
    by (nonlinear_arith)
    requires
        -m <= u <= m,
        -n <= v <= n,
    ensures
        -(m * n) <= u * v <= m * n,
{
}

/// Computes `orient(a, b, p)` exactly.
pub fn orientation(a: Coords, b: Coords, p: Coords) -> (o: i128)
    ensures
        o == orient(a, b, p),
{
    let bx: i128 = b.x as i128 - a.x as i128;
    let by: i128 = b.y as i128 - a.y as i128;
    let px: i128 = p.x as i128 - a.x as i128;
    let py: i128 = p.y as i128 - a.y as i128;
    proof {
        lemma_product_bound(bx as int, py as int, 0x1_0000_0000, 0x1_0000_0000);
        lemma_product_bound(by as int, px as int, 0x1_0000_0000, 0x1_0000_0000);
    }
    bx * py - by * px
}

/// Computes `orient_at(a, b, lo, hi, d)` exactly.
pub fn orientation_at(a: Coords, b: Coords, lo: Coords, hi: Coords, d: i32) -> (o: i128)
    ensures
        o == orient_at(a, b, lo, hi, d as int),
{
    let bx: i128 = b.x as i128 - a.x as i128;
    let by: i128 = b.y as i128 - a.y as i128;
    let rise: i128 = hi.y as i128 - lo.y as i128;
    let run: i128 = hi.x as i128 - lo.x as i128;
    let climb: i128 = d as i128 - lo.y as i128;
    proof {
        lemma_product_bound(bx as int, rise as int, 0x1_0000_0000, 0x1_0000_0000);
        lemma_product_bound(by as int, run as int, 0x1_0000_0000, 0x1_0000_0000);
    }
    let gap: i128 = bx * rise - by * run;
    let base: i128 = orientation(a, b, lo);
    proof {
        lemma_product_bound(
            (lo.y - a.y) as int,
            bx as int,
            0x1_0000_0000,
            0x1_0000_0000,
        );
        lemma_product_bound(
            (lo.x - a.x) as int,
            by as int,
            0x1_0000_0000,
            0x1_0000_0000,
        );
        assert(bx * (lo.y - a.y) == (lo.y - a.y) * bx) by (nonlinear_arith);
        assert(by * (lo.x - a.x) == (lo.x - a.x) * by) by (nonlinear_arith);
        lemma_product_bound(gap as int, climb as int, 0x2_0000_0000_0000_0000, 0x1_0000_0000);
        lemma_product_bound(rise as int, base as int, 0x1_0000_0000, 0x2_0000_0000_0000_0000);
    }
    gap * climb + rise * base
}

impl Coords {
    /// The point with the given coordinates.
    pub fn new(x: i32, y: i32) -> (c: Self)
        ensures
            c.x == x,
            c.y == y,
    {
        Coords { x, y }
    }

    /// The point of the plane with these coordinates.
    pub open spec fn point(self) -> Point {
        Point { x: self.x as real, y: self.y as real }
    }

    /// The point as text: both coordinates in decimal, in parentheses.
    pub open spec fn spec_text(&self) -> Seq<char> {
        "("@ + signed_decimal(self.x as int) + ", "@ + signed_decimal(self.y as int) + ")"@
    }

    /// Appends the point as text to `out`.
    pub fn push_text(&self, out: &mut String)
        ensures
            final(out)@ == old(out)@ + self.spec_text(),
    {
        out.append("(");
        push_signed(out, self.x);
        out.append(", ");
        push_signed(out, self.y);
        out.append(")");
        assert(out@ =~= old(out)@ + self.spec_text());
    }

    /// The point as text.
    pub fn to_text(&self) -> (text: String)
        ensures
            text@ == self.spec_text(),
    {
        let mut text = String::new();
        self.push_text(&mut text);
        assert(text@ =~= self.spec_text());
        text
    }
}

impl Nexus {
    /// The vertex event at `at`.
    pub fn new(at: Coords) -> (n: Self)
        ensures
            n.at == at,
    {
        Nexus { at }
    }

    /// The height at which this event bounds trapezoids.
    pub fn height(&self) -> (h: i32)
        ensures
            h == self.at.y,
    {
        self.at.y
    }
}

impl Segment {
    /// A segment is well formed when its upper endpoint is strictly higher than its lower one.
    pub open spec fn wf(&self) -> bool {
        self.lo.y < self.hi.y
    }

    /// The segment between `a` and `b`, or `None` when the two are at the same height.
    pub fn new(a: Coords, b: Coords) -> (s: Option<Self>)
        ensures
            a.y == b.y <==> s is None,
            a.y < b.y ==> s == Some(Segment { lo: a, hi: b }),
            b.y < a.y ==> s == Some(Segment { lo: b, hi: a }),
            s is Some ==> s.unwrap().wf(),
    {
        if a.y < b.y {
            Some(Segment { lo: a, hi: b })
        } else if b.y < a.y {
            Some(Segment { lo: b, hi: a })
        } else {
            None
        }
    }

    /// Whether `p` is an inner point of the segment: it lies on the line through the
    /// segment, strictly between the heights of its endpoints.
    pub open spec fn runs_through(&self, p: Point) -> bool {
        turn(self.lo, self.hi, p) == 0real && (self.lo.y as real) < p.y < (self.hi.y as real)
    }

    /// Decides whether the grid point `p` lies strictly to the left of the line through
    /// this segment.
    pub fn is_right_of(&self, p: Coords) -> (yes: bool)
        ensures
            yes == left_of(self.lo, self.hi, p.point()),
    {
        proof {
            lemma_turn_of_grid(self.lo, self.hi, p);
        }
        orientation(self.lo, self.hi, p) > 0
    }
}

/// Whether `p` is a point of segment `e`, endpoints included.
pub open spec fn lies_on(e: Segment, p: Point) -> bool {
    turn(e.lo, e.hi, p) == 0real && e.lo.y as real <= p.y <= e.hi.y as real
}

/// Whether `p` is at the height of an endpoint of `e`.
pub open spec fn at_end_height(e: Segment, p: Point) -> bool {
    p.y == e.lo.y as real || p.y == e.hi.y as real
}

/// Whether `e` and `s` keep apart: a point of both is an endpoint of both.
pub open spec fn apart(e: Segment, s: Segment) -> bool {
    forall|p: Point| #[trigger] lies_on(e, p) && lies_on(s, p) ==> at_end_height(e, p) && at_end_height(s, p)
}


/// Of two points at one height, the one further left has the greater `turn`: the one
/// further right is further to the right of the line, or less far to the left of it.
pub proof fn lemma_turn_falls_to_the_right(lo: Coords, hi: Coords, q: Point, r: Point)
    requires
        lo.y < hi.y,
        q.y == r.y,
    ensures
        q.x < r.x <==> turn(lo, hi, q) > turn(lo, hi, r),
        q.x == r.x <==> turn(lo, hi, q) == turn(lo, hi, r),
{
    reveal(turn);
    let rise = (hi.y - lo.y) as real;
    lemma_mul_over_sub(rise, r.x - lo.x as real, q.x - lo.x as real);
    lemma_product_sign(rise, r.x - q.x);
    assert(turn(lo, hi, q) - turn(lo, hi, r) == rise * (r.x - q.x));
}

/// Two points at one height on the line through `lo` and `hi` are one point.
pub proof fn lemma_one_point_at_a_height(lo: Coords, hi: Coords, p: Point, q: Point)
    requires
        lo.y < hi.y,
        turn(lo, hi, p) == 0real,
        turn(lo, hi, q) == 0real,
        p.y == q.y,
    ensures
        p == q,
{
    lemma_left_at_one_height(lo, hi, p, q);
    lemma_left_at_one_height(lo, hi, q, p);
    reveal(turn);
    let rise = (hi.y - lo.y) as real;
    lemma_mul_over_sub(rise, p.x - lo.x as real, q.x - lo.x as real);
    lemma_product_sign(rise, p.x - q.x);
}

/// The endpoints of a segment lie on its line.
pub proof fn lemma_ends_on_line(s: Segment)
    ensures
        turn(s.lo, s.hi, s.lo.point()) == 0real,
        turn(s.lo, s.hi, s.hi.point()) == 0real,
{
    lemma_turn_of_grid(s.lo, s.hi, s.lo);
    lemma_turn_of_grid(s.lo, s.hi, s.hi);
    assert(orient(s.lo, s.hi, s.lo) == 0) by (nonlinear_arith);
    assert(orient(s.lo, s.hi, s.hi) == 0) by (nonlinear_arith);
}

} // verus!

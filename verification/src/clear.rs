//! Why a segment can be inserted exactly when it keeps apart from the inserted segments.

use crate::geom::{
    apart, at_end_height, left_of, lemma_ends_on_line, lemma_one_point_at_a_height,
    lemma_point_at,
    lemma_side_of_point_on, lemma_turn_at_affine, lemma_turn_at_of_grid,
    lemma_turn_at_strictly_between, lies_on, orient, orient_at, point_at, slope_gap, turn,
    turn_at, Coords, Point, Segment,
};
use crate::idx::TrapezoidIdx;
use crate::route::{lemma_admits_traced, lemma_inner_point_on_path};
use crate::model::{leaf_for, lemma_leaf_for_is_leaf, Decomposition};
use crate::querynode::{descending, QueryNode, QueryNodeBranch};
use crate::route::{corner, leaf_under, sends_left_under, stays_left_of, stays_right_of};
use vstd::prelude::*;

verus! {

proof fn lemma_quotient(a: real, b: real)
    by (nonlinear_arith)
    requires
        b != 0real,
    ensures
        b * (a / b) == a,
        (a > 0real && b > 0real) || (a < 0real && b < 0real) ==> a / b > 0real,
{
}

proof fn lemma_scaled_less(g: real, x: real, q: real)
    by (nonlinear_arith)
    requires
        g > 0real,
        x < q,
    ensures
        g * x < g * q,
{
}

proof fn lemma_scaled_more(g: real, x: real, q: real)
    by (nonlinear_arith)
    requires
        g < 0real,
        x < q,
    ensures
        g * x > g * q,
{
}

proof fn lemma_sign_of_product(a: real, b: real)
    by (nonlinear_arith)
    ensures
        a > 0real && b > 0real ==> a * b > 0real,
        a < 0real && b < 0real ==> a * b > 0real,
        a > 0real && b < 0real ==> a * b < 0real,
        a < 0real && b > 0real ==> a * b < 0real,
        a == 0real || b == 0real ==> a * b == 0real,
{
}

/// Close below height `d` the line through `s` keeps the side of the line through `a` and
/// `b` that the search for the part of `s` just below `d` takes at an X test: the margin
/// returned is positive, and at every height less than the margin below `d` the point of
/// `s` lies left of the line exactly when the search goes left.
pub proof fn lemma_x_test_near(a: Coords, b: Coords, s: Segment, d: int) -> (margin: real)
    requires
        s.wf(),
        s.lo.y < d,
    ensures
        margin > 0real,
        forall|y: real|
            d as real - margin < y < d as real ==> (left_of(
                a,
                b,
                #[trigger] point_at(s.lo, s.hi, y),
            ) <==> sends_left_under(QueryNodeBranch::X(a, b), s, d)),
{
    let o = orient_at(a, b, s.lo, s.hi, d) as real;
    let gap = slope_gap(a, b, s.lo, s.hi) as real;
    lemma_turn_at_of_grid(a, b, s.lo, s.hi, d);
    lemma_turn_at_of_grid(a, b, s.lo, s.hi, s.lo.y as int);
    lemma_turn_at_affine(a, b, s.lo, s.hi, s.lo.y as real, d as real);
    let margin = if (o > 0real && gap > 0real) || (o < 0real && gap < 0real) {
        o / gap
    } else {
        1real
    };
    if gap != 0real {
        lemma_quotient(o, gap);
    }
    assert forall|y: real| d as real - margin < y < d as real implies (left_of(
        a,
        b,
        #[trigger] point_at(s.lo, s.hi, y),
    ) <==> sends_left_under(QueryNodeBranch::X(a, b), s, d)) by {
        let p = point_at(s.lo, s.hi, y);
        lemma_point_at(s.lo, s.hi, y);
        lemma_side_of_point_on(a, b, s.lo, s.hi, p);
        lemma_turn_at_affine(a, b, s.lo, s.hi, y, d as real);
        let f = turn_at(a, b, s.lo, s.hi, y);
        assert(f == o + gap * (y - d as real));
        lemma_sign_of_product(gap, y - d as real);
        if o > 0real {
            if gap > 0real {
                lemma_scaled_less(gap, d as real - y, o / gap);
                lemma_mul_neg(gap, d as real - y);
            }
            assert(f > 0real);
        } else if o < 0real {
            if gap < 0real {
                lemma_scaled_more(gap, d as real - y, o / gap);
                lemma_mul_neg(gap, d as real - y);
            }
            assert(f < 0real);
        } else {
            let at_lo = turn_at(a, b, s.lo, s.hi, s.lo.y as real);
            assert(at_lo == gap * (s.lo.y as real - d as real));
            lemma_sign_of_product(gap, s.lo.y as real - d as real);
            lemma_rise_times_orient(a, b, s);
        }
    }
    margin
}

proof fn lemma_mul_neg(g: real, x: real)
    by (nonlinear_arith)
    ensures
        g * (0real - x) == 0real - g * x,
{
}

/// At the height of the lower endpoint of `s`, `orient_at` is `orient` of that endpoint,
/// scaled by the rise of `s`; so it has the sign of `orient`.
proof fn lemma_rise_times_orient(a: Coords, b: Coords, s: Segment)
    requires
        s.wf(),
    ensures
        orient_at(a, b, s.lo, s.hi, s.lo.y as int) > 0 <==> orient(a, b, s.lo) > 0,
        orient_at(a, b, s.lo, s.hi, s.lo.y as int) < 0 <==> orient(a, b, s.lo) < 0,
{
    let rise = s.hi.y - s.lo.y;
    let o = orient(a, b, s.lo);
    assert(slope_gap(a, b, s.lo, s.hi) * (s.lo.y - s.lo.y) == 0) by (nonlinear_arith);
    assert(rise > 0 ==> (rise * o > 0 <==> o > 0) && (rise * o < 0 <==> o < 0))
        by (nonlinear_arith);
}

/// Close below height `d` the points of `s` pass a test as the search for the part of
/// `s` just below `d` does.
pub proof fn lemma_test_near(test: QueryNodeBranch, s: Segment, d: int) -> (margin: real)
    requires
        s.wf(),
        s.lo.y < d,
    ensures
        margin > 0real,
        forall|y: real|
            d as real - margin < y < d as real ==> (test.sends_left(
                #[trigger] point_at(s.lo, s.hi, y),
            ) <==> sends_left_under(test, s, d)),
{
    match test {
        QueryNodeBranch::X(a, b) => lemma_x_test_near(a, b, s, d),
        QueryNodeBranch::Y(c) => {
            let margin = if c.y < d {
                (d - c.y) as real
            } else {
                1real
            };
            assert forall|y: real| d as real - margin < y < d as real implies (test.sends_left(
                #[trigger] point_at(s.lo, s.hi, y),
            ) <==> sends_left_under(test, s, d)) by {
                lemma_point_at(s.lo, s.hi, y);
            }
            margin
        },
    }
}

/// Close below height `d` the search for a point of `s` ends where the search for the
/// part of `s` just below `d` ends.
pub proof fn lemma_search_near(nodes: Seq<QueryNode>, q: int, s: Segment, d: int) -> (margin: real)
    requires
        descending(nodes),
        0 <= q < nodes.len(),
        s.wf(),
        s.lo.y < d,
    ensures
        margin > 0real,
        forall|y: real|
            d as real - margin < y < d as real ==> leaf_for(
                nodes,
                q,
                #[trigger] point_at(s.lo, s.hi, y),
            ) == leaf_under(nodes, q, s, d),
    decreases nodes.len() - q,
{
    match nodes[q] {
        QueryNode::Branch(left, right, test) => {
            let here = lemma_test_near(test, s, d);
            let next = if sends_left_under(test, s, d) {
                left@
            } else {
                right@
            };
            let below = lemma_search_near(nodes, next, s, d);
            let margin = if here < below {
                here
            } else {
                below
            };
            assert forall|y: real| d as real - margin < y < d as real implies leaf_for(
                nodes,
                q,
                #[trigger] point_at(s.lo, s.hi, y),
            ) == leaf_under(nodes, q, s, d) by {
                let p = point_at(s.lo, s.hi, y);
                assert(test.sends_left(p) <==> sends_left_under(test, s, d));
                assert(leaf_for(nodes, next, p) == leaf_under(nodes, next, s, d));
            }
            margin
        },
        QueryNode::Sink(_) => 1real,
    }
}

/// The point of `s` at a height close below `d`, in the trapezoid in which the search
/// for the part of `s` just below `d` ends.
pub proof fn lemma_part_near(dec: Decomposition, s: Segment, d: int) -> (margin: real)
    requires
        dec.sound(),
        s.wf(),
        s.lo.y < d,
    ensures
        margin > 0real,
        0 <= dec.under(s, d)@ < dec.trapezoids.len(),
        forall|y: real|
            d as real - margin < y < d as real ==> dec.contains(
                dec.under(s, d)@,
                #[trigger] point_at(s.lo, s.hi, y),
            ),
{
    let margin = lemma_search_near(dec.nodes, dec.root, s, d);
    crate::route::lemma_leaf_under_is_leaf(dec.nodes, dec.root, s, d);
    assert(dec.leaf_returns(leaf_under(dec.nodes, dec.root, s, d)));
    assert forall|y: real| d as real - margin < y < d as real implies dec.contains(
        dec.under(s, d)@,
        #[trigger] point_at(s.lo, s.hi, y),
    ) by {
        let p = point_at(s.lo, s.hi, y);
        assert(leaf_for(dec.nodes, dec.root, p) == leaf_under(dec.nodes, dec.root, s, d));
        assert(dec.locate(p) == dec.under(s, d)@);
        assert(dec.contains(dec.locate(p), p));
    }
    margin
}

/// A function that changes at the rate `gap` and is not zero at `h` keeps its sign at some
/// height less than `margin` below `h`.
proof fn lemma_affine_near(at_h: real, gap: real, h: real, margin: real) -> (y: real)
    requires
        margin > 0real,
        at_h != 0real,
    ensures
        h - margin < y < h,
        at_h > 0real ==> at_h + gap * (y - h) > 0real,
        at_h < 0real ==> at_h + gap * (y - h) < 0real,
{
    if (at_h > 0real && gap > 0real) || (at_h < 0real && gap < 0real) {
        let q = at_h / gap;
        lemma_quotient(at_h, gap);
        let step = if margin < q {
            margin / 2real
        } else {
            q / 2real
        };
        let y = h - step;
        lemma_mul_neg(gap, step);
        if gap > 0real {
            lemma_scaled_less(gap, step, q);
        } else {
            lemma_scaled_more(gap, step, q);
        }
        assert(gap * (y - h) == 0real - gap * step);
        y
    } else {
        let y = h - margin / 2real;
        lemma_sign_of_product(gap, y - h);
        y
    }
}

/// A function that changes at the rate `gap` and has different signs at `low` and at `y1`
/// is zero at a height above `low` and not above `y1`.
proof fn lemma_affine_zero(at_low: real, at_1: real, gap: real, low: real, y1: real) -> (y: real)
    requires
        low < y1,
        at_1 - at_low == gap * (y1 - low),
        (at_low > 0real && at_1 <= 0real) || (at_low < 0real && at_1 >= 0real),
    ensures
        low < y <= y1,
        at_low + gap * (y - low) == 0real,
{
    lemma_sign_of_product(gap, y1 - low);
    assert(gap != 0real);
    let q = at_low / gap;
    lemma_quotient(at_low, gap);
    lemma_quotient(0real - at_low, gap);
    let y = low - q;
    lemma_mul_neg(gap, q);
    assert(gap * (y - low) == 0real - at_low);
    if y > y1 {
        if gap > 0real {
            lemma_scaled_less(gap, y1 - low, y - low);
        } else {
            lemma_scaled_more(gap, y1 - low, y - low);
        }
        assert(false);
    }
    if y <= low {
        lemma_sign_of_product(gap, y - low);
        assert(false);
    }
    y
}

/// The side of `e` on which `s` is at height `y`, for the point of `s` at that height.
pub proof fn lemma_side_at(e: Segment, s: Segment, y: real)
    requires
        s.wf(),
    ensures
        left_of(e.lo, e.hi, point_at(s.lo, s.hi, y)) <==> turn_at(e.lo, e.hi, s.lo, s.hi, y)
            > 0real,
        turn(e.lo, e.hi, point_at(s.lo, s.hi, y)) == 0real <==> turn_at(
            e.lo,
            e.hi,
            s.lo,
            s.hi,
            y,
        ) == 0real,
        turn(s.lo, s.hi, point_at(s.lo, s.hi, y)) == 0real,
        point_at(s.lo, s.hi, y).y == y,
{
    lemma_point_at(s.lo, s.hi, y);
    lemma_side_of_point_on(e.lo, e.hi, s.lo, s.hi, point_at(s.lo, s.hi, y));
}

/// Where `s` meets the line of `e` at a height within both, the two keep apart only if
/// the height is that of an endpoint of both.
proof fn lemma_meeting_is_corner(e: Segment, s: Segment, y: real)
    requires
        s.wf(),
        apart(e, s),
        e.lo.y as real <= y <= e.hi.y as real,
        s.lo.y as real <= y <= s.hi.y as real,
        turn_at(e.lo, e.hi, s.lo, s.hi, y) == 0real,
    ensures
        y == e.lo.y as real || y == e.hi.y as real,
        y == s.lo.y as real || y == s.hi.y as real,
{
    lemma_side_at(e, s, y);
    let p = point_at(s.lo, s.hi, y);
    assert(lies_on(e, p));
    assert(lies_on(s, p));
}

/// A segment `s` that keeps apart from `e` and is on one side of `e` close below height
/// `h` stays on this side of `e` between the heights `low` and `h`: on the left where
/// `left` is set, else on the right.
proof fn lemma_stays_aside(e: Segment, s: Segment, low: int, h: int, margin: real, left: bool)
    requires
        e.wf(),
        s.wf(),
        apart(e, s),
        e.lo.y <= low < h <= e.hi.y,
        s.lo.y <= low,
        h <= s.hi.y,
        margin > 0real,
        forall|y: real|
            h as real - margin < y < h as real ==> (left_of(
                e.lo,
                e.hi,
                #[trigger] point_at(s.lo, s.hi, y),
            ) <==> left),
    ensures
        left ==> stays_left_of(e, s, low, h),
        !left ==> stays_right_of(e, s, low, h),
{
    let gap = slope_gap(e.lo, e.hi, s.lo, s.hi) as real;
    let at_h = turn_at(e.lo, e.hi, s.lo, s.hi, h as real);
    let at_low = turn_at(e.lo, e.hi, s.lo, s.hi, low as real);
    lemma_turn_at_of_grid(e.lo, e.hi, s.lo, s.hi, h);
    lemma_turn_at_of_grid(e.lo, e.hi, s.lo, s.hi, low);
    let span = if margin < (h - low) as real {
        margin
    } else {
        (h - low) as real
    };
    let y1 = h as real - span / 2real;
    let at_1 = turn_at(e.lo, e.hi, s.lo, s.hi, y1);
    lemma_side_at(e, s, y1);
    let p1 = point_at(s.lo, s.hi, y1);
    assert(left_of(e.lo, e.hi, p1) <==> left);
    lemma_turn_at_affine(e.lo, e.hi, s.lo, s.hi, y1, low as real);
    lemma_turn_at_affine(e.lo, e.hi, s.lo, s.hi, h as real, low as real);
    // At `y1`, strictly inside `s`, the two do not meet.
    if at_1 == 0real {
        lemma_meeting_is_corner(e, s, y1);
        assert(false);
    }
    // At `h` the side is that close below `h`, or the two meet.
    if (left && at_h < 0real) || (!left && at_h > 0real) {
        let y = lemma_affine_near(at_h, gap, h as real, margin);
        lemma_turn_at_affine(e.lo, e.hi, s.lo, s.hi, y, h as real);
        lemma_side_at(e, s, y);
        assert(left_of(e.lo, e.hi, point_at(s.lo, s.hi, y)) <==> left);
        assert(false);
    }
    // At `low` too, or else the two meet in between.
    if (left && at_low < 0real) || (!left && at_low > 0real) {
        let y = lemma_affine_zero(at_low, at_1, gap, low as real, y1);
        lemma_turn_at_affine(e.lo, e.hi, s.lo, s.hi, y, low as real);
        lemma_meeting_is_corner(e, s, y);
        assert(false);
    }
    if at_h == 0real {
        lemma_meeting_is_corner(e, s, h as real);
    }
    if at_low == 0real {
        lemma_meeting_is_corner(e, s, low as real);
    }
    if at_h == 0real && at_low == 0real {
        lemma_sign_of_product(gap, h as real - low as real);
        lemma_sign_of_product(gap, y1 - low as real);
        assert(false);
    }
}

impl Decomposition {
    /// Whether `s` keeps apart from every segment of the decomposition.
    pub open spec fn clear_of(self, s: Segment) -> bool {
        forall|k: int| 0 <= k < self.segments.len() ==> apart(#[trigger] self.segments[k], s)
    }

    /// Whether the point of `s` at height `h` is found in a trapezoid whose lower bound is
    /// at this height.
    pub open spec fn anchored(self, s: Segment, h: int) -> bool {
        self.bound_at(self.trapezoids[self.locate(point_at(s.lo, s.hi, h as real))]@.down, h)
    }
}

/// The point of `s` at height `h` lies in the region of trapezoid `t`, if `t` reaches
/// from not above `h` to above `h` and `s` is strictly left of its right bound and not
/// left of its left bound there.
proof fn lemma_holds_point_at(dec: Decomposition, t: int, s: Segment, h: int)
    requires
        dec.sound(),
        s.wf(),
        0 <= t < dec.trapezoids.len(),
        dec.floor_admits(dec.trapezoids[t]@.down, h as real),
        dec.ceiling_admits(dec.trapezoids[t]@.up, h as real),
        dec.trapezoids[t]@.left matches Some(f) ==> orient_at(
            dec.segments[f@].lo,
            dec.segments[f@].hi,
            s.lo,
            s.hi,
            h,
        ) <= 0,
        dec.trapezoids[t]@.right matches Some(g) ==> orient_at(
            dec.segments[g@].lo,
            dec.segments[g@].hi,
            s.lo,
            s.hi,
            h,
        ) > 0,
    ensures
        dec.locate(point_at(s.lo, s.hi, h as real)) == t,
{
    let p = point_at(s.lo, s.hi, h as real);
    lemma_point_at(s.lo, s.hi, h as real);
    if let Some(f) = dec.trapezoids[t]@.left {
        let e = dec.segments[f@];
        lemma_turn_at_of_grid(e.lo, e.hi, s.lo, s.hi, h);
        lemma_side_at(e, s, h as real);
    }
    if let Some(g) = dec.trapezoids[t]@.right {
        let e = dec.segments[g@];
        lemma_turn_at_of_grid(e.lo, e.hi, s.lo, s.hi, h);
        lemma_side_at(e, s, h as real);
    }
    assert(dec.contains(t, p));
}

/// A segment that keeps apart from every segment of the decomposition can run through
/// each of the trapezoids that it meets below height `h`.
proof fn lemma_level_clear(dec: Decomposition, s: Segment, h: int, top: bool)
    requires
        dec.wf(),
        s.wf(),
        dec.clear_of(s),
        s.lo.y < h <= s.hi.y,
        top ==> h == s.hi.y,
        !top ==> h < s.hi.y && dec.anchored(s, h),
    ensures
        dec.clear_below(s, h, top),
    decreases h - s.lo.y,
{
    let margin = lemma_part_near(dec, s, h);
    let t = dec.under(s, h)@;
    let z = dec.trapezoids[t]@;
    assert(dec.paired(t));
    assert(dec.formed(t));
    let low = dec.low(z.down, s);
    // The lower bound lies below `h`.
    let y0 = h as real - margin / 2real;
    assert(dec.contains(t, point_at(s.lo, s.hi, y0)));
    lemma_point_at(s.lo, s.hi, y0);
    assert(dec.floor_below(z.down, h));
    // The upper bound does not.
    if let Some(u) = z.up {
        let top_y = dec.nexuses[u@].at.y;
        if top_y < h {
            let span = if margin < (h - top_y) as real {
                margin
            } else {
                (h - top_y) as real
            };
            let y = h as real - span / 2real;
            assert(dec.contains(t, point_at(s.lo, s.hi, y)));
            lemma_point_at(s.lo, s.hi, y);
            assert(false);
        }
    }
    // Between `low` and `h` the segment stays between the two bounds.
    if let Some(f) = z.left {
        let e = dec.segments[f@];
        assert(e.wf());
        assert(apart(e, s));
        assert forall|y: real| h as real - margin < y < h as real implies (left_of(
            e.lo,
            e.hi,
            #[trigger] point_at(s.lo, s.hi, y),
        ) <==> false) by {
            assert(dec.contains(t, point_at(s.lo, s.hi, y)));
        }
        lemma_stays_aside(e, s, low, h, margin, false);
    }
    if let Some(g) = z.right {
        let e = dec.segments[g@];
        assert(e.wf());
        assert(apart(e, s));
        assert forall|y: real| h as real - margin < y < h as real implies (left_of(
            e.lo,
            e.hi,
            #[trigger] point_at(s.lo, s.hi, y),
        ) <==> true) by {
            assert(dec.contains(t, point_at(s.lo, s.hi, y)));
        }
        lemma_stays_aside(e, s, low, h, margin, true);
    }
    assert(dec.left_clears(z.left, s, low, h));
    assert(dec.right_clears(z.right, s, low, h));
    // Below the topmost trapezoid the upper bound is at `h`.
    if !top {
        let reaches_higher = match z.up {
            Some(u) => dec.nexuses[u@].at.y > h,
            None => true,
        };
        if reaches_higher {
            lemma_holds_point_at(dec, t, s, h);
            assert(false);
        }
    }
    assert(dec.crossable(t, s, h, top));
    if let Some(n) = z.down {
        let next = dec.nexuses[n@].at.y as int;
        if s.lo.y < next < h {
            assert(low == next);
            lemma_holds_point_at(dec, t, s, next);
            assert(dec.anchored(s, next));
            lemma_level_clear(dec, s, next, false);
        }
    }
}

/// A well-formed segment that keeps apart from every inserted segment (a point of it
/// and of another is an endpoint of both) can be inserted.
pub proof fn lemma_apart_segment_is_admitted(dec: Decomposition, s: Segment)
    requires
        dec.wf(),
        s.wf(),
        dec.clear_of(s),
    ensures
        dec.admits(s),
{
    lemma_level_clear(dec, s, s.hi.y as int, true);
}

/// The value at height `y` of a function that is `at_h` at height `h` and changes at the
/// rate `gap`.
pub open spec fn affine(at_h: real, gap: real, h: real, y: real) -> real {
    at_h + gap * (y - h)
}

/// A function that changes at a fixed rate and is not zero at `h` keeps its sign at all
/// heights less than the margin returned away from `h`.
proof fn lemma_affine_keeps(at_h: real, gap: real, h: real) -> (margin: real)
    requires
        at_h != 0real,
    ensures
        margin > 0real,
        forall|y: real|
            h - margin < y < h + margin ==> (at_h > 0real ==> #[trigger] affine(at_h, gap, h, y)
                > 0real) && (at_h < 0real ==> affine(at_h, gap, h, y) < 0real),
{
    if gap == 0real {
        assert forall|y: real| h - 1real < y < h + 1real implies (at_h > 0real
            ==> #[trigger] affine(at_h, gap, h, y) > 0real) && (at_h < 0real ==> affine(
            at_h,
            gap,
            h,
            y,
        ) < 0real) by {
            lemma_sign_of_product(gap, y - h);
        }
        1real
    } else {
        let size = if at_h > 0real {
            at_h
        } else {
            0real - at_h
        };
        let rate = if gap > 0real {
            gap
        } else {
            0real - gap
        };
        let margin = size / rate;
        lemma_quotient(size, rate);
        assert forall|y: real| h - margin < y < h + margin implies (at_h > 0real
            ==> #[trigger] affine(at_h, gap, h, y) > 0real) && (at_h < 0real ==> affine(
            at_h,
            gap,
            h,
            y,
        ) < 0real) by {
            // The change is less than `rate * margin`, which is `size`.
            lemma_scaled_less(rate, y - h, margin);
            lemma_scaled_less(rate, h - y, margin);
            lemma_mul_neg(rate, y - h);
            lemma_mul_neg(gap, y - h);
            assert(rate * (h - y) == 0real - rate * (y - h));
            if gap > 0real {
                assert(gap * (y - h) == rate * (y - h));
            } else {
                assert(rate == 0real - gap);
                lemma_negated_product(gap, y - h);
                assert(gap * (y - h) == 0real - rate * (y - h));
            }
        }
        margin
    }
}

proof fn lemma_negated_product(g: real, x: real)
    by (nonlinear_arith)
    ensures
        (0real - g) * x == 0real - g * x,
{
}

/// Close to height `h` the points of `e` keep the strict side of the line through `a` and
/// `b` that the point of `e` at height `h` has.
proof fn lemma_side_keeps(a: Coords, b: Coords, e: Segment, h: real) -> (margin: real)
    requires
        e.wf(),
        turn(a, b, point_at(e.lo, e.hi, h)) != 0real,
    ensures
        margin > 0real,
        forall|y: real|
            h - margin < y < h + margin ==> (turn(a, b, point_at(e.lo, e.hi, h)) > 0real ==> turn(
                a,
                b,
                #[trigger] point_at(e.lo, e.hi, y),
            ) > 0real) && (turn(a, b, point_at(e.lo, e.hi, h)) < 0real ==> turn(
                a,
                b,
                point_at(e.lo, e.hi, y),
            ) < 0real),
{
    let ab = Segment { lo: a, hi: b };
    lemma_side_at(ab, e, h);
    let at_h = turn_at(a, b, e.lo, e.hi, h);
    let gap = slope_gap(a, b, e.lo, e.hi) as real;
    lemma_rise_turn(a, b, e, h);
    let margin = lemma_affine_keeps(at_h, gap, h);
    assert forall|y: real| h - margin < y < h + margin implies (turn(
        a,
        b,
        point_at(e.lo, e.hi, h),
    ) > 0real ==> turn(a, b, #[trigger] point_at(e.lo, e.hi, y)) > 0real) && (turn(
        a,
        b,
        point_at(e.lo, e.hi, h),
    ) < 0real ==> turn(a, b, point_at(e.lo, e.hi, y)) < 0real) by {
        lemma_turn_at_affine(a, b, e.lo, e.hi, y, h);
        assert(turn_at(a, b, e.lo, e.hi, y) == affine(at_h, gap, h, y));
        lemma_rise_turn(a, b, e, y);
    }
    margin
}

/// For the point of `e` at height `y`, `turn` relative to the line through `a` and `b` has
/// the sign of `turn_at`.
pub proof fn lemma_rise_turn(a: Coords, b: Coords, e: Segment, y: real)
    requires
        e.wf(),
    ensures
        turn(a, b, point_at(e.lo, e.hi, y)) > 0real <==> turn_at(a, b, e.lo, e.hi, y) > 0real,
        turn(a, b, point_at(e.lo, e.hi, y)) < 0real <==> turn_at(a, b, e.lo, e.hi, y) < 0real,
{
    let p = point_at(e.lo, e.hi, y);
    lemma_point_at(e.lo, e.hi, y);
    crate::geom::lemma_turn_split(a, b, e.lo, e.hi, p);
    lemma_sign_of_product((b.y - a.y) as real, turn(e.lo, e.hi, p));
    lemma_sign_of_product((e.hi.y - e.lo.y) as real, turn(a, b, p));
}

impl Decomposition {
    /// Whether `p` is strictly right of the line of the left bound of trapezoid `t` and
    /// strictly left of the line of its right bound.
    pub open spec fn between_sides(self, t: int, p: Point) -> bool {
        let z = self.trapezoids[t]@;
        &&& match z.left {
            Some(f) => turn(self.segments[f@].lo, self.segments[f@].hi, p) < 0real,
            None => true,
        }
        &&& match z.right {
            Some(g) => turn(self.segments[g@].lo, self.segments[g@].hi, p) > 0real,
            None => true,
        }
    }

    /// Whether trapezoid `t` reaches from strictly below height `h` up to `h` at least.
    pub open spec fn hangs_from(self, t: int, h: int) -> bool {
        let z = self.trapezoids[t]@;
        self.floor_below(z.down, h) && match z.up {
            Some(u) => h <= self.nexuses[u@].at.y,
            None => true,
        }
    }
}

/// An inner point of `e` close to its point at height `h`, above or below it, that lies in
/// the region of trapezoid `t`; the point of `e` at height `h` lies strictly between the
/// sides of `t`, and `t` reaches to the side where the point is sought.
pub proof fn lemma_along_inside(dec: Decomposition, t: int, e: Segment, h: int, upward: bool) -> (y:
    real)
    requires
        dec.sound(),
        0 <= t < dec.trapezoids.len(),
        e.wf(),
        e.lo.y <= h <= e.hi.y,
        upward ==> h < e.hi.y,
        !upward ==> e.lo.y < h,
        dec.between_sides(t, point_at(e.lo, e.hi, h as real)),
        upward ==> dec.floor_admits(dec.trapezoids[t]@.down, h as real) && dec.ceiling_admits(
            dec.trapezoids[t]@.up,
            h as real,
        ),
        !upward ==> dec.hangs_from(t, h),
    ensures
        dec.contains(t, point_at(e.lo, e.hi, y)),
        e.runs_through(point_at(e.lo, e.hi, y)),
{
    let z = dec.trapezoids[t]@;
    assert(dec.paired(t));
    let on_left = match z.left {
        Some(f) => lemma_side_keeps(dec.segments[f@].lo, dec.segments[f@].hi, e, h as real),
        None => 1real,
    };
    let on_right = match z.right {
        Some(g) => lemma_side_keeps(dec.segments[g@].lo, dec.segments[g@].hi, e, h as real),
        None => 1real,
    };
    let height = if upward {
        match z.up {
            Some(u) => (dec.nexuses[u@].at.y - h) as real,
            None => 1real,
        }
    } else {
        match z.down {
            Some(d) => (h - dec.nexuses[d@].at.y) as real,
            None => 1real,
        }
    };
    let room = if upward {
        (e.hi.y - h) as real
    } else {
        (h - e.lo.y) as real
    };
    let a = if on_left < on_right {
        on_left
    } else {
        on_right
    };
    let b = if height < room {
        height
    } else {
        room
    };
    let least = if a < b {
        a
    } else {
        b
    };
    let y = if upward {
        h as real + least / 2real
    } else {
        h as real - least / 2real
    };
    lemma_point_at(e.lo, e.hi, y);
    let q = point_at(e.lo, e.hi, y);
    assert(dec.contains(t, q));
    y
}

/// An inner point of `s` at a height at which `s` stays on the right of `f` lies
/// strictly right of the line through `f`.
pub proof fn lemma_strictly_right(f: Segment, s: Segment, y0: int, y1: int, p: Point)
    requires
        f.wf(),
        s.wf(),
        crate::route::stays_right_of(f, s, y0, y1),
        s.lo.y <= y0 < y1 <= s.hi.y,
        y0 as real <= p.y,
        p.y < y1 as real,
        s.runs_through(p),
    ensures
        turn(f.lo, f.hi, p) < 0real,
{
    if p.y > y0 as real {
        lemma_turn_at_strictly_between(f.lo, f.hi, s.lo, s.hi, y0, y1, p.y);
    } else {
        lemma_turn_at_of_grid(f.lo, f.hi, s.lo, s.hi, y0);
    }
    lemma_point_at(s.lo, s.hi, p.y);
    lemma_one_point_at_a_height(s.lo, s.hi, p, point_at(s.lo, s.hi, p.y));
    lemma_rise_turn(f.lo, f.hi, s, p.y);
}

/// A point of `s` that is not an endpoint of `s` is no point of a segment of the
/// decomposition, if `s` can be inserted.
proof fn lemma_inner_point_is_free(dec: Decomposition, s: Segment, k: int, p: Point)
    requires
        dec.sound(),
        dec.seated(),
        dec.admits(s),
        0 <= k < dec.segments.len(),
        s.runs_through(p),
    ensures
        !lies_on(dec.segments[k], p),
{
    if !lies_on(dec.segments[k], p) {
        return ;
    }
    let e = dec.segments[k];
    let path = dec.path(s);
    lemma_admits_traced(dec, s);
    let j = lemma_inner_point_on_path(dec, path, s, p);
    let t = path[j]@;
    let z = dec.trapezoids[t]@;
    let low = dec.low(z.down, s);
    let top_y = dec.entry(path, s, j);
    assert(dec.paired(t));
    assert(dec.formed(t));
    assert(dec.crossable(t, s, top_y, j == 0));
    assert(e.wf());
    if let Some(f) = z.left {
        assert(dec.segments[f@].wf());
        lemma_strictly_right(dec.segments[f@], s, low, top_y, p);
    }
    assert(dec.between_sides(t, p));
    if e.runs_through(p) {
        assert(false);
    } else {
        lemma_point_at(e.lo, e.hi, p.y);
        lemma_one_point_at_a_height(e.lo, e.hi, p, point_at(e.lo, e.hi, p.y));
        if p.y == e.lo.y as real {
            let y = lemma_along_inside(dec, t, e, e.lo.y as int, true);
            lemma_found_inside(dec, t, k, point_at(e.lo, e.hi, y));
            assert(false);
        } else {
            let h = e.hi.y as int;
            if dec.floor_below(z.down, h) {
                let y = lemma_along_inside(dec, t, e, h, false);
                lemma_found_inside(dec, t, k, point_at(e.lo, e.hi, y));
                assert(false);
            } else {
                assert(low == h);
                assert(!dec.ends_in(t, s));
                assert(j < path.len() - 1);
                let t2 = path[j + 1]@;
                let z2 = dec.trapezoids[t2]@;
                let low2 = dec.low(z2.down, s);
                assert(dec.entry(path, s, j + 1) == h);
                assert(dec.crossable(t2, s, h, false));
                assert(dec.paired(t2));
                lemma_point_at(s.lo, s.hi, h as real);
                lemma_one_point_at_a_height(s.lo, s.hi, p, point_at(s.lo, s.hi, h as real));
                if let Some(f) = z2.left {
                    let ff = dec.segments[f@];
                    lemma_turn_at_of_grid(ff.lo, ff.hi, s.lo, s.hi, h);
                    lemma_rise_turn(ff.lo, ff.hi, s, h as real);
                }
                if let Some(g) = z2.right {
                    let gg = dec.segments[g@];
                    lemma_turn_at_of_grid(gg.lo, gg.hi, s.lo, s.hi, h);
                    lemma_rise_turn(gg.lo, gg.hi, s, h as real);
                }
                assert(dec.between_sides(t2, p));
                let y = lemma_along_inside(dec, t2, e, h, false);
                lemma_found_inside(dec, t2, k, point_at(e.lo, e.hi, y));
                assert(false);
            }
        }
    }
}

/// An inner point of segment `k` that lies in the region of trapezoid `t` shows that the
/// segment is the left bound of `t`.
pub proof fn lemma_found_inside(dec: Decomposition, t: int, k: int, q: Point)
    requires
        dec.sound(),
        dec.seated_below(k + 1),
        0 <= t < dec.trapezoids.len(),
        0 <= k < dec.segments.len(),
        dec.contains(t, q),
        dec.segments[k].runs_through(q),
    ensures
        dec.trapezoids[t]@.left matches Some(f) && f@ == k,
{
    lemma_leaf_for_is_leaf(dec.nodes, dec.root, q);
    assert(dec.leaf_returns(leaf_for(dec.nodes, dec.root, q)));
    assert(dec.contains(dec.locate(q), q));
}

/// An endpoint of `s` is no inner point of a segment of the decomposition, if `s` can be
/// inserted.
proof fn lemma_end_is_free(dec: Decomposition, s: Segment, k: int, at_top: bool)
    requires
        dec.wf(),
        dec.admits(s),
        0 <= k < dec.segments.len(),
    ensures
        !dec.segments[k].runs_through(
            if at_top {
                s.hi.point()
            } else {
                s.lo.point()
            },
        ),
{
    let e = dec.segments[k];
    let x = if at_top {
        s.hi.point()
    } else {
        s.lo.point()
    };
    if !e.runs_through(x) {
        return ;
    }
    let h = if at_top {
        s.hi.y as int
    } else {
        s.lo.y as int
    };
    let path = dec.path(s);
    lemma_admits_traced(dec, s);
    let j = if at_top {
        0
    } else {
        path.len() - 1
    };
    let t = path[j]@;
    let z = dec.trapezoids[t]@;
    let low = dec.low(z.down, s);
    let top_y = dec.entry(path, s, j);
    assert(dec.paired(t));
    assert(dec.formed(t));
    assert(dec.crossable(t, s, top_y, j == 0));
    assert(e.wf());
    if !at_top {
        assert(dec.ends_in(t, s));
        assert(low == h);
    }
    lemma_ends_on_line(s);
    lemma_point_at(s.lo, s.hi, h as real);
    lemma_one_point_at_a_height(s.lo, s.hi, x, point_at(s.lo, s.hi, h as real));
    lemma_point_at(e.lo, e.hi, h as real);
    lemma_one_point_at_a_height(e.lo, e.hi, x, point_at(e.lo, e.hi, h as real));
    lemma_turn_at_of_grid(e.lo, e.hi, s.lo, s.hi, h);
    lemma_rise_turn(e.lo, e.hi, s, h as real);
    lemma_side_at(e, s, h as real);
    // The segment is no bound of the trapezoid, and the endpoint lies on no bound.
    if let Some(f) = z.left {
        let ff = dec.segments[f@];
        assert(ff.wf());
        lemma_turn_at_of_grid(ff.lo, ff.hi, s.lo, s.hi, h);
        lemma_rise_turn(ff.lo, ff.hi, s, h as real);
        lemma_side_at(ff, s, h as real);
        if f@ != k && turn(ff.lo, ff.hi, x) == 0real {
            assert(lies_on(ff, x));
            assert(lies_on(e, x));
            if f@ < k {
                assert(apart(dec.segments[f@], dec.segments[k]));
            } else {
                assert(apart(dec.segments[k], dec.segments[f@]));
            }
            assert(false);
        }
    }
    if let Some(g) = z.right {
        let gg = dec.segments[g@];
        assert(gg.wf());
        lemma_turn_at_of_grid(gg.lo, gg.hi, s.lo, s.hi, h);
        lemma_rise_turn(gg.lo, gg.hi, s, h as real);
        lemma_side_at(gg, s, h as real);
        if g@ != k && turn(gg.lo, gg.hi, x) == 0real {
            assert(lies_on(gg, x));
            assert(lies_on(e, x));
            if g@ < k {
                assert(apart(dec.segments[g@], dec.segments[k]));
            } else {
                assert(apart(dec.segments[k], dec.segments[g@]));
            }
            assert(false);
        }
    }
    assert(dec.between_sides(t, x));
    let y = lemma_along_inside(dec, t, e, h, !at_top);
    lemma_found_inside(dec, t, k, point_at(e.lo, e.hi, y));
    assert(false);
}

/// A segment that can be inserted keeps apart from every segment of the decomposition.
pub proof fn lemma_admitted_segment_is_apart(dec: Decomposition, s: Segment)
    requires
        dec.wf(),
        dec.admits(s),
    ensures
        dec.clear_of(s),
{
    assert forall|k: int| 0 <= k < dec.segments.len() implies apart(
        #[trigger] dec.segments[k],
        s,
    ) by {
        let e = dec.segments[k];
        assert forall|p: Point| #[trigger] lies_on(e, p) && lies_on(s, p) implies at_end_height(
            e,
            p,
        ) && at_end_height(s, p) by {
            if s.runs_through(p) {
                lemma_inner_point_is_free(dec, s, k, p);
            }
            lemma_ends_on_line(s);
            if p.y == s.hi.y as real {
                lemma_one_point_at_a_height(s.lo, s.hi, p, s.hi.point());
                lemma_end_is_free(dec, s, k, true);
            } else {
                lemma_one_point_at_a_height(s.lo, s.hi, p, s.lo.point());
                lemma_end_is_free(dec, s, k, false);
            }
        }
    }
}

/// A segment can be inserted exactly when it is well formed and keeps apart from every
/// inserted segment: a point of it and of another is an endpoint of both.
pub proof fn lemma_admits_means_apart(dec: Decomposition, s: Segment)
    requires
        dec.wf(),
    ensures
        dec.admits(s) <==> s.wf() && dec.clear_of(s),
{
    if dec.admits(s) {
        lemma_admitted_segment_is_apart(dec, s);
    }
    if s.wf() && dec.clear_of(s) {
        lemma_apart_segment_is_admitted(dec, s);
    }
}

} // verus!

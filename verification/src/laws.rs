//! What the invariant of a decomposition says of its trapezoids, leaves and regions.

use crate::geom::{
    lemma_left_at_one_height, lemma_point_at, lemma_turn_of_grid, point_at, Point, Segment,
};
use crate::settle::{end_of, lemma_no_vertex_inside};
use crate::idx::handle;
use crate::model::{designated, leaf_for, lemma_leaf_for_is_leaf, Decomposition};
use crate::querynode::QueryNode;
use vstd::prelude::*;

verus! {

/// Trapezoids and leaves correspond one to one: the sink of every trapezoid is a leaf that
/// designates this trapezoid, and every leaf designates a trapezoid whose sink is this
/// leaf.
pub proof fn lemma_sinks_and_leaves_correspond(d: Decomposition)
    requires
        d.wf(),
    ensures
        forall|t: int|
            0 <= t < d.trapezoids.len() ==> 0 <= (#[trigger] d.trapezoids[t])@.sink@
                < d.nodes.len() && d.nodes[d.trapezoids[t]@.sink@] == QueryNode::Sink(handle(t)),
        forall|q: int|
            0 <= q < d.nodes.len() && (#[trigger] d.nodes[q]) is Sink ==> 0 <= designated(
                d.nodes[q],
            ) < d.trapezoids.len() && d.trapezoids[designated(d.nodes[q])]@.sink@ == q,
{
    assert forall|t: int| 0 <= t < d.trapezoids.len() implies 0 <= (#[trigger] d.trapezoids[t])@.sink@
        < d.nodes.len() && d.nodes[d.trapezoids[t]@.sink@] == QueryNode::Sink(handle(t)) by {
        assert(d.paired(t));
    }
    assert forall|q: int| 0 <= q < d.nodes.len() && (#[trigger] d.nodes[q]) is Sink implies 0
        <= designated(d.nodes[q]) < d.trapezoids.len() && d.trapezoids[designated(
        d.nodes[q],
    )]@.sink@ == q by {
        assert(d.leaf_returns(q));
    }
}

/// The regions of the trapezoids partition the plane: every point lies in the region of
/// some trapezoid, and no point lies in the regions of two.
pub proof fn lemma_regions_partition_the_plane(d: Decomposition, p: Point)
    requires
        d.wf(),
    ensures
        exists|t: int| 0 <= t < d.trapezoids.len() && d.contains(t, p),
        forall|t: int, u: int|
            0 <= t < d.trapezoids.len() && 0 <= u < d.trapezoids.len() && d.contains(t, p)
                && d.contains(u, p) ==> t == u,
{
    lemma_locate_finds_the_region(d, p);
    assert(d.contains(d.locate(p), p));
}

/// Point location is correct: the trapezoid in which the search for a point ends is in
/// range, and it is the one and only trapezoid whose region holds the point.
pub proof fn lemma_locate_finds_the_region(d: Decomposition, p: Point)
    requires
        d.wf(),
    ensures
        0 <= d.locate(p) < d.trapezoids.len(),
        forall|t: int| 0 <= t < d.trapezoids.len() ==> (d.contains(t, p) <==> d.locate(p) == t),
{
    lemma_leaf_for_is_leaf(d.nodes, d.root, p);
    assert(d.leaf_returns(leaf_for(d.nodes, d.root, p)));
    assert(d.contains(d.locate(p), p));
}

/// Every inner point of an inserted segment is found in a trapezoid that has this segment
/// as its left bound.
pub proof fn lemma_segment_bounds_its_points(d: Decomposition, k: int, p: Point)
    requires
        d.wf(),
        0 <= k < d.segments.len(),
        d.segments[k].runs_through(p),
    ensures
        d.trapezoids[d.locate(p)]@.left matches Some(si) && si@ == k,
{
}

/// No two inserted segments cross or overlap: a point that is an inner point of two of
/// them is an inner point of one and the same segment.
pub proof fn lemma_segments_do_not_cross(d: Decomposition, j: int, k: int, p: Point)
    requires
        d.wf(),
        0 <= j < d.segments.len(),
        0 <= k < d.segments.len(),
        d.segments[j].runs_through(p),
        d.segments[k].runs_through(p),
    ensures
        j == k,
{
    lemma_segment_bounds_its_points(d, j, p);
    lemma_segment_bounds_its_points(d, k, p);
}

/// Whether every segment of `b` is a segment of `a`.
pub open spec fn holds_segments_of(a: Decomposition, b: Decomposition) -> bool {
    forall|j: int|
        0 <= j < b.segments.len() ==> exists|k: int|
            0 <= k < a.segments.len() && #[trigger] a.segments[k] == #[trigger] b.segments[j]
}

/// Whether two decompositions hold the same segments, in whatever order.
pub open spec fn same_segments(a: Decomposition, b: Decomposition) -> bool {
    holds_segments_of(a, b) && holds_segments_of(b, a)
}

/// Whether `p` is at the height of no endpoint of a segment of `d`.
pub open spec fn off_vertex_heights(d: Decomposition, p: Point) -> bool {
    forall|k: int|
        0 <= k < d.segments.len() ==> p.y != (#[trigger] d.segments[k]).lo.y as real && p.y
            != d.segments[k].hi.y as real
}

/// The segment that bounds trapezoid `t` on the left, if there is one.
pub open spec fn left_segment(d: Decomposition, t: int) -> Option<Segment> {
    match d.trapezoids[t]@.left {
        Some(si) => Some(d.segments[si@]),
        None => None,
    }
}

/// The segment that bounds trapezoid `t` on the right, if there is one.
pub open spec fn right_segment(d: Decomposition, t: int) -> Option<Segment> {
    match d.trapezoids[t]@.right {
        Some(si) => Some(d.segments[si@]),
        None => None,
    }
}

/// The invariant, as one fact.
#[verifier::opaque]
pub open spec fn valid(d: Decomposition) -> bool {
    d.wf()
}

/// Whether segment `e` passes the height of `p` strictly between its endpoints.
pub open spec fn passes(e: Segment, p: Point) -> bool {
    (e.lo.y as real) < p.y < (e.hi.y as real)
}

/// What the trapezoid of `p` is known to be like: it is in range, its region holds `p`,
/// and the segments that bound it pass the height of `p`.
proof fn lemma_home(d: Decomposition, p: Point)
    requires
        valid(d),
        off_vertex_heights(d, p),
    ensures
        0 <= d.locate(p) < d.trapezoids.len(),
        d.contains(d.locate(p), p),
        d.paired(d.locate(p)),
        left_segment(d, d.locate(p)) matches Some(f) ==> f.wf() && passes(f, p) && point_at(
            f.lo,
            f.hi,
            p.y,
        ).x <= p.x,
        right_segment(d, d.locate(p)) matches Some(g) ==> g.wf() && passes(g, p) && p.x
            < point_at(g.lo, g.hi, p.y).x,
{
    reveal(valid);
    lemma_locate_finds_the_region(d, p);
    let t = d.locate(p);
    assert(d.contains(t, p));
    assert(d.paired(t));
    assert(d.formed(t));
    if let Some(si) = d.trapezoids[t]@.left {
        let f = d.segments[si@];
        assert(f.wf());
        lemma_point_at(f.lo, f.hi, p.y);
        lemma_left_at_one_height(f.lo, f.hi, p, point_at(f.lo, f.hi, p.y));
    }
    if let Some(si) = d.trapezoids[t]@.right {
        let g = d.segments[si@];
        assert(g.wf());
        lemma_point_at(g.lo, g.hi, p.y);
        lemma_left_at_one_height(g.lo, g.hi, p, point_at(g.lo, g.hi, p.y));
    }
}

/// The left bound of the trapezoid of `p` is the nearest segment on the left: a segment
/// that passes the height of `p` on the left of `p` or through `p` passes it on the line
/// of the left bound or further left.
proof fn lemma_left_bound_is_nearest(d: Decomposition, p: Point, k: int)
    requires
        valid(d),
        off_vertex_heights(d, p),
        0 <= k < d.segments.len(),
        passes(d.segments[k], p),
        point_at(d.segments[k].lo, d.segments[k].hi, p.y).x <= p.x,
    ensures
        left_segment(d, d.locate(p)) matches Some(f) && point_at(
            d.segments[k].lo,
            d.segments[k].hi,
            p.y,
        ).x <= point_at(f.lo, f.hi, p.y).x,
{
    reveal(valid);
    let e = d.segments[k];
    let x = point_at(e.lo, e.hi, p.y);
    let t = d.locate(p);
    lemma_home(d, p);
    assert(e.wf());
    lemma_point_at(e.lo, e.hi, p.y);
    let nearer = match left_segment(d, t) {
        Some(f) => point_at(f.lo, f.hi, p.y).x < x.x,
        None => true,
    };
    if nearer {
        if let Some(f) = left_segment(d, t) {
            lemma_point_at(f.lo, f.hi, p.y);
            lemma_left_at_one_height(f.lo, f.hi, x, point_at(f.lo, f.hi, p.y));
        }
        if let Some(g) = right_segment(d, t) {
            lemma_point_at(g.lo, g.hi, p.y);
            lemma_left_at_one_height(g.lo, g.hi, x, point_at(g.lo, g.hi, p.y));
        }
        assert(d.contains(t, x));
        lemma_locate_finds_the_region(d, x);
        assert(e.runs_through(x));
        lemma_segment_bounds_its_points(d, k, x);
        assert(false);
    }
}

/// The right bound of the trapezoid of `p` is the nearest segment on the right: a segment
/// that passes the height of `p` on the right of `p` passes it on the line of the right
/// bound or further right.
proof fn lemma_right_bound_is_nearest(d: Decomposition, p: Point, k: int)
    requires
        valid(d),
        off_vertex_heights(d, p),
        0 <= k < d.segments.len(),
        passes(d.segments[k], p),
        p.x < point_at(d.segments[k].lo, d.segments[k].hi, p.y).x,
    ensures
        right_segment(d, d.locate(p)) matches Some(g) && point_at(g.lo, g.hi, p.y).x <= point_at(
            d.segments[k].lo,
            d.segments[k].hi,
            p.y,
        ).x,
{
    reveal(valid);
    let e = d.segments[k];
    let x = point_at(e.lo, e.hi, p.y);
    let t = d.locate(p);
    lemma_home(d, p);
    assert(e.wf());
    lemma_point_at(e.lo, e.hi, p.y);
    let nearer = match right_segment(d, t) {
        Some(g) => x.x < point_at(g.lo, g.hi, p.y).x,
        None => true,
    };
    if nearer {
        if let Some(f) = left_segment(d, t) {
            lemma_point_at(f.lo, f.hi, p.y);
            lemma_left_at_one_height(f.lo, f.hi, x, point_at(f.lo, f.hi, p.y));
        }
        if let Some(g) = right_segment(d, t) {
            lemma_point_at(g.lo, g.hi, p.y);
            lemma_left_at_one_height(g.lo, g.hi, x, point_at(g.lo, g.hi, p.y));
        }
        assert(d.contains(t, x));
        lemma_locate_finds_the_region(d, x);
        assert(e.runs_through(x));
        lemma_segment_bounds_its_points(d, k, x);
        assert(false);
    }
}

/// Two segments of one decomposition that pass a height in the same point are the same.
proof fn lemma_one_segment_at_a_point(d: Decomposition, e: Segment, f: Segment, j: int, k: int, y: real)
    requires
        valid(d),
        0 <= j < d.segments.len(),
        0 <= k < d.segments.len(),
        d.segments[j] == e,
        d.segments[k] == f,
        (e.lo.y as real) < y < (e.hi.y as real),
        (f.lo.y as real) < y < (f.hi.y as real),
        point_at(e.lo, e.hi, y).x == point_at(f.lo, f.hi, y).x,
    ensures
        e == f,
{
    reveal(valid);
    assert(e.wf() && f.wf());
    lemma_point_at(e.lo, e.hi, y);
    lemma_point_at(f.lo, f.hi, y);
    let x = point_at(e.lo, e.hi, y);
    assert(x == point_at(f.lo, f.hi, y));
    lemma_segments_do_not_cross(d, j, k, x);
}

/// The left and right bound of the trapezoid in which a point is found do not depend on
/// the order of insertion: in two decompositions that hold the same segments, a point
/// that is not at the height of a vertex is found in trapezoids with the same segment on
/// the left and the same segment on the right.
pub proof fn lemma_sides_do_not_depend_on_order(a: Decomposition, b: Decomposition, p: Point)
    requires
        a.wf(),
        b.wf(),
        same_segments(a, b),
        off_vertex_heights(a, p),
    ensures
        left_segment(a, a.locate(p)) == left_segment(b, b.locate(p)),
        right_segment(a, a.locate(p)) == right_segment(b, b.locate(p)),
{
    assert(off_vertex_heights(b, p)) by {
        assert forall|k: int| 0 <= k < b.segments.len() implies p.y != (
        #[trigger] b.segments[k]).lo.y as real && p.y != b.segments[k].hi.y as real by {
            let j = choose|j: int|
                0 <= j < a.segments.len() && #[trigger] a.segments[j] == b.segments[k];
            assert(a.segments[j] == b.segments[k]);
        }
    }
    assert(valid(a) && valid(b)) by {
        reveal(valid);
    }
    lemma_left_agrees(a, b, p);
    lemma_left_agrees(b, a, p);
    lemma_right_agrees(a, b, p);
    lemma_right_agrees(b, a, p);
}

/// Where the trapezoid of `p` in `a` has a segment on the left, its trapezoid in `b` has
/// the same segment on the left.
proof fn lemma_left_agrees(a: Decomposition, b: Decomposition, p: Point)
    requires
        valid(a),
        valid(b),
        same_segments(a, b),
        off_vertex_heights(a, p),
        off_vertex_heights(b, p),
    ensures
        left_segment(a, a.locate(p)) is Some ==> left_segment(b, b.locate(p)) == left_segment(
            a,
            a.locate(p),
        ),
{
    lemma_home(a, p);
    lemma_home(b, p);
    if let Some(si) = a.trapezoids[a.locate(p)]@.left {
        let f = a.segments[si@];
        let k = choose|k: int|
            0 <= k < b.segments.len() && #[trigger] b.segments[k] == a.segments[si@];
        lemma_left_bound_is_nearest(b, p, k);
        let sj = b.trapezoids[b.locate(p)]@.left.unwrap();
        let g = b.segments[sj@];
        let j = choose|j: int|
            0 <= j < a.segments.len() && #[trigger] a.segments[j] == b.segments[sj@];
        lemma_left_bound_is_nearest(a, p, j);
        lemma_one_segment_at_a_point(a, f, g, si@, j, p.y);
    }
}

/// Where the trapezoid of `p` in `a` has a segment on the right, its trapezoid in `b` has
/// the same segment on the right.
proof fn lemma_right_agrees(a: Decomposition, b: Decomposition, p: Point)
    requires
        valid(a),
        valid(b),
        same_segments(a, b),
        off_vertex_heights(a, p),
        off_vertex_heights(b, p),
    ensures
        right_segment(a, a.locate(p)) is Some ==> right_segment(b, b.locate(p)) == right_segment(
            a,
            a.locate(p),
        ),
{
    lemma_home(a, p);
    lemma_home(b, p);
    if let Some(si) = a.trapezoids[a.locate(p)]@.right {
        let f = a.segments[si@];
        let k = choose|k: int|
            0 <= k < b.segments.len() && #[trigger] b.segments[k] == a.segments[si@];
        lemma_right_bound_is_nearest(b, p, k);
        let sj = b.trapezoids[b.locate(p)]@.right.unwrap();
        let g = b.segments[sj@];
        let j = choose|j: int|
            0 <= j < a.segments.len() && #[trigger] a.segments[j] == b.segments[sj@];
        lemma_right_bound_is_nearest(a, p, j);
        lemma_one_segment_at_a_point(a, f, g, si@, j, p.y);
    }
}

/// The height of the lower bound of trapezoid `t`, if it has one.
pub open spec fn floor_height(d: Decomposition, t: int) -> Option<int> {
    match d.trapezoids[t]@.down {
        Some(n) => Some(d.nexuses[n@].at.y as int),
        None => None,
    }
}

/// The height of the upper bound of trapezoid `t`, if it has one.
pub open spec fn ceiling_height(d: Decomposition, t: int) -> Option<int> {
    match d.trapezoids[t]@.up {
        Some(n) => Some(d.nexuses[n@].at.y as int),
        None => None,
    }
}

/// A vertex between the sides of a trapezoid and above its lower bound is not below its
/// upper bound.
proof fn lemma_vertex_is_outside(d: Decomposition, t: int, k: int, at_hi: bool)
    requires
        valid(d),
        0 <= t < d.trapezoids.len(),
        d.vertex_between(
            k,
            at_hi,
            end_of(d.segments[k], at_hi).y as int,
            d.trapezoids[t]@.left,
            d.trapezoids[t]@.right,
        ),
        d.floor_below(d.trapezoids[t]@.down, end_of(d.segments[k], at_hi).y as int),
    ensures
        !d.ceiling_admits(d.trapezoids[t]@.up, end_of(d.segments[k], at_hi).y as real),
{
    reveal(valid);
    lemma_no_vertex_inside(d, d.segments.len() as int, t, k, at_hi);
}

/// A vertex that lies between the sides of the trapezoid of `p` in `a`, at a height below
/// `p`, is not above the lower bound of the trapezoid of `p` in `b`.
proof fn lemma_floor_is_not_lower(a: Decomposition, b: Decomposition, p: Point, k: int, at_hi: bool)
    requires
        valid(a),
        valid(b),
        same_segments(a, b),
        off_vertex_heights(a, p),
        off_vertex_heights(b, p),
        a.vertex_between(
            k,
            at_hi,
            end_of(a.segments[k], at_hi).y as int,
            a.trapezoids[a.locate(p)]@.left,
            a.trapezoids[a.locate(p)]@.right,
        ),
        (end_of(a.segments[k], at_hi).y as real) < p.y,
    ensures
        floor_height(b, b.locate(p)) matches Some(h) && end_of(a.segments[k], at_hi).y <= h,
{
    let e = a.segments[k];
    let v = end_of(e, at_hi);
    let j = choose|j: int| 0 <= j < b.segments.len() && #[trigger] b.segments[j] == a.segments[k];
    lemma_left_agrees(a, b, p);
    lemma_left_agrees(b, a, p);
    lemma_right_agrees(a, b, p);
    lemma_right_agrees(b, a, p);
    lemma_home(a, p);
    lemma_home(b, p);
    let tb = b.locate(p);
    let lower = match floor_height(b, tb) {
        Some(h) => h < v.y,
        None => true,
    };
    if lower {
        assert(b.vertex_between(j, at_hi, v.y as int, b.trapezoids[tb]@.left, b.trapezoids[tb]@.right));
        lemma_vertex_is_outside(b, tb, j, at_hi);
        assert(false);
    }
}

/// A vertex that lies between the sides of the trapezoid of `p` in `a`, at a height above
/// `p`, is not below the upper bound of the trapezoid of `p` in `b`.
proof fn lemma_ceiling_is_not_higher(a: Decomposition, b: Decomposition, p: Point, k: int, at_hi: bool)
    requires
        valid(a),
        valid(b),
        same_segments(a, b),
        off_vertex_heights(a, p),
        off_vertex_heights(b, p),
        a.vertex_between(
            k,
            at_hi,
            end_of(a.segments[k], at_hi).y as int,
            a.trapezoids[a.locate(p)]@.left,
            a.trapezoids[a.locate(p)]@.right,
        ),
        p.y < end_of(a.segments[k], at_hi).y as real,
    ensures
        ceiling_height(b, b.locate(p)) matches Some(h) && h <= end_of(a.segments[k], at_hi).y,
{
    let e = a.segments[k];
    let v = end_of(e, at_hi);
    let j = choose|j: int| 0 <= j < b.segments.len() && #[trigger] b.segments[j] == a.segments[k];
    lemma_left_agrees(a, b, p);
    lemma_left_agrees(b, a, p);
    lemma_right_agrees(a, b, p);
    lemma_right_agrees(b, a, p);
    lemma_home(a, p);
    lemma_home(b, p);
    let tb = b.locate(p);
    let higher = match ceiling_height(b, tb) {
        Some(h) => v.y < h,
        None => true,
    };
    if higher {
        assert(b.vertex_between(j, at_hi, v.y as int, b.trapezoids[tb]@.left, b.trapezoids[tb]@.right));
        lemma_vertex_is_outside(b, tb, j, at_hi);
        assert(false);
    }
}

/// The lower and upper bound of the trapezoid in which a point is found do not depend on
/// the order of insertion either: in two decompositions that hold the same segments, a
/// point that is not at the height of a vertex is found in trapezoids that end at the same
/// heights, below and above.
pub proof fn lemma_heights_do_not_depend_on_order(a: Decomposition, b: Decomposition, p: Point)
    requires
        a.wf(),
        b.wf(),
        same_segments(a, b),
        off_vertex_heights(a, p),
    ensures
        floor_height(a, a.locate(p)) == floor_height(b, b.locate(p)),
        ceiling_height(a, a.locate(p)) == ceiling_height(b, b.locate(p)),
{
    assert(off_vertex_heights(b, p)) by {
        assert forall|k: int| 0 <= k < b.segments.len() implies p.y != (
        #[trigger] b.segments[k]).lo.y as real && p.y != b.segments[k].hi.y as real by {
            let j = choose|j: int|
                0 <= j < a.segments.len() && #[trigger] a.segments[j] == b.segments[k];
            assert(a.segments[j] == b.segments[k]);
        }
    }
    assert(valid(a) && valid(b)) by {
        reveal(valid);
    }
    lemma_bounds_agree(a, b, p);
    lemma_bounds_agree(b, a, p);
}

/// Where the trapezoid of `p` in `a` has a lower or upper bound, its trapezoid in `b` has
/// one that is not further from `p`.
proof fn lemma_bounds_agree(a: Decomposition, b: Decomposition, p: Point)
    requires
        valid(a),
        valid(b),
        same_segments(a, b),
        off_vertex_heights(a, p),
        off_vertex_heights(b, p),
    ensures
        floor_height(a, a.locate(p)) matches Some(h) ==> (floor_height(b, b.locate(p)) matches Some(
            g,
        ) && h <= g),
        ceiling_height(a, a.locate(p)) matches Some(h) ==> (ceiling_height(
            b,
            b.locate(p),
        ) matches Some(g) && g <= h),
{
    lemma_home(a, p);
    let t = a.locate(p);
    let z = a.trapezoids[t]@;
    assert(a.based(t)) by {
        reveal(valid);
    }
    if let Some(n) = z.down {
        let h = a.nexuses[n@].at.y as int;
        let (k, at_hi) = choose|k: int, at_hi: bool| #[trigger]
            a.vertex_between(k, at_hi, h, z.left, z.right);
        lemma_floor_is_not_lower(a, b, p, k, at_hi);
    }
    if let Some(n) = z.up {
        let h = a.nexuses[n@].at.y as int;
        let (k, at_hi) = choose|k: int, at_hi: bool| #[trigger]
            a.vertex_between(k, at_hi, h, z.left, z.right);
        lemma_ceiling_is_not_higher(a, b, p, k, at_hi);
    }
}

/// The partition does not depend on the order of insertion: in two decompositions that
/// hold the same segments, a point that is not at the height of a vertex is found in
/// trapezoids with the same region.
pub proof fn lemma_regions_do_not_depend_on_order(
    a: Decomposition,
    b: Decomposition,
    p: Point,
    q: Point,
)
    requires
        a.wf(),
        b.wf(),
        same_segments(a, b),
        off_vertex_heights(a, p),
    ensures
        a.contains(a.locate(p), q) <==> b.contains(b.locate(p), q),
{
    lemma_sides_do_not_depend_on_order(a, b, p);
    lemma_heights_do_not_depend_on_order(a, b, p);
    lemma_locate_finds_the_region(a, p);
    lemma_locate_finds_the_region(b, p);
    assert(a.paired(a.locate(p)));
    assert(b.paired(b.locate(p)));
}

} // verus!

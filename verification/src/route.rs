//! The path of a segment through a decomposition: the trapezoids through which it runs,
//! and what must hold of them for the segment to be inserted.

use crate::geom::{
    left_of, lemma_on_first_line, lemma_on_second_line, lemma_side_carries,
    lemma_turn_at_between, lemma_turn_at_of_grid, lemma_turn_at_strictly_between, orient,
    orient_at, turn, Point, Segment,
};
use crate::idx::{NexusIdx, SegmentIdx, TrapezoidIdx};
use crate::model::{designee, extends, Decomposition};
use crate::querynode::{descending, QueryNode, QueryNodeBranch};
use vstd::prelude::*;

verus! {

/// Whether a search for the part of `s` just below height `d` continues in the left
/// subtree: for a Y test, when `d` is not above the height of the test; for an X test, when
/// the point of `s` at height `d` lies strictly left of the line through the anchors, or
/// lies on it while the lower endpoint of `s` lies strictly left of it.
pub open spec fn sends_left_under(test: QueryNodeBranch, s: Segment, d: int) -> bool {
    match test {
        QueryNodeBranch::X(a, b) => {
            let o = orient_at(a, b, s.lo, s.hi, d);
            o > 0 || (o == 0 && orient(a, b, s.lo) > 0)
        },
        QueryNodeBranch::Y(c) => d <= c.y,
    }
}

/// The leaf in which a search for the part of `s` just below height `d` ends when it
/// starts at node `q`.
pub open spec fn leaf_under(nodes: Seq<QueryNode>, q: int, s: Segment, d: int) -> int
    decreases nodes.len() - q,
{
    if 0 <= q < nodes.len() {
        match nodes[q] {
            QueryNode::Branch(left, right, test) => if q < left@ < nodes.len() && q < right@
                < nodes.len() {
                if sends_left_under(test, s, d) {
                    leaf_under(nodes, left@, s, d)
                } else {
                    leaf_under(nodes, right@, s, d)
                }
            } else {
                q
            },
            QueryNode::Sink(_) => q,
        }
    } else {
        q
    }
}

/// Whether `y` is the height of an endpoint of `s` and of an endpoint of `e`: where the two
/// lines meet at this height, they meet in a vertex of both segments.
pub open spec fn corner(e: Segment, s: Segment, y: int) -> bool {
    (y == s.lo.y || y == s.hi.y) && (y == e.lo.y || y == e.hi.y)
}

/// Whether `s` stays on the right of `e` between the heights `y0` and `y1`: at both
/// heights it lies right of the line through `e`, or on it in a vertex of both.
pub open spec fn stays_right_of(e: Segment, s: Segment, y0: int, y1: int) -> bool {
    let o0 = orient_at(e.lo, e.hi, s.lo, s.hi, y0);
    let o1 = orient_at(e.lo, e.hi, s.lo, s.hi, y1);
    &&& o0 <= 0 && o1 <= 0 && (o0 < 0 || o1 < 0)
    &&& o0 == 0 ==> corner(e, s, y0)
    &&& o1 == 0 ==> corner(e, s, y1)
}

/// Whether `s` stays on the left of `e` between the heights `y0` and `y1`: at both heights
/// it lies left of the line through `e`, or on it in a vertex of both.
pub open spec fn stays_left_of(e: Segment, s: Segment, y0: int, y1: int) -> bool {
    let o0 = orient_at(e.lo, e.hi, s.lo, s.hi, y0);
    let o1 = orient_at(e.lo, e.hi, s.lo, s.hi, y1);
    &&& o0 >= 0 && o1 >= 0 && (o0 > 0 || o1 > 0)
    &&& o0 == 0 ==> corner(e, s, y0)
    &&& o1 == 0 ==> corner(e, s, y1)
}

/// Whether the trapezoid of slot `t` is named in `path` at position `from` or behind it.
pub open spec fn on_path(path: Seq<TrapezoidIdx>, from: int, t: int) -> bool {
    exists|j: int| 0 <= from <= j < path.len() && (#[trigger] path[j])@ == t
}

/// Whether `p` lies between the heights of the two endpoints of `s`, the lower included.
pub open spec fn beside(s: Segment, p: Point) -> bool {
    s.lo.y as real <= p.y < s.hi.y as real
}

impl Decomposition {
    /// The trapezoid in which a search for the part of `s` just below height `d` ends.
    pub open spec fn under(self, s: Segment, d: int) -> TrapezoidIdx {
        designee(self.nodes[leaf_under(self.nodes, self.root, s, d)])
    }

    /// The height from which `s` runs upwards through a trapezoid with lower bound
    /// `bound`: the height of the bound, or that of the lower endpoint of `s` where the
    /// bound is absent or lower.
    pub open spec fn low(self, bound: Option<NexusIdx>, s: Segment) -> int {
        match bound {
            Some(ni) => if self.nexuses[ni@].at.y > s.lo.y {
                self.nexuses[ni@].at.y as int
            } else {
                s.lo.y as int
            },
            None => s.lo.y as int,
        }
    }

    /// Whether `s` does not go on below trapezoid `t`: the lower bound of `t` is absent or
    /// not above the lower endpoint of `s`.
    pub open spec fn ends_in(self, t: int, s: Segment) -> bool {
        match self.trapezoids[t]@.down {
            Some(ni) => self.nexuses[ni@].at.y <= s.lo.y,
            None => true,
        }
    }

    /// Whether `s`, between the heights `y0` and `y1`, stays clear of a left bound: on the
    /// right of it.
    pub open spec fn left_clears(self, bound: Option<SegmentIdx>, s: Segment, y0: int, y1: int) -> bool {
        match bound {
            Some(e) => stays_right_of(self.segments[e@], s, y0, y1),
            None => true,
        }
    }

    /// Whether `s`, between the heights `y0` and `y1`, stays clear of a right bound: on the
    /// left of it.
    pub open spec fn right_clears(self, bound: Option<SegmentIdx>, s: Segment, y0: int, y1: int) -> bool {
        match bound {
            Some(e) => stays_left_of(self.segments[e@], s, y0, y1),
            None => true,
        }
    }

    /// Whether `s` can run through trapezoid `t` downwards from height `d`: the lower
    /// bound of `t` lies below `d`, its upper bound is at `d` (or, for the topmost
    /// trapezoid, not below `d`), and from `d` down to the lower bound or to its own lower
    /// endpoint `s` stays between the lines of the left and right bound.
    pub open spec fn crossable(self, t: int, s: Segment, d: int, top: bool) -> bool {
        let z = self.trapezoids[t]@;
        &&& self.floor_below(z.down, d)
        &&& match z.up {
            Some(u) => if top {
                d <= self.nexuses[u@].at.y
            } else {
                self.nexuses[u@].at.y == d
            },
            None => top,
        }
        &&& self.left_clears(z.left, s, self.low(z.down, s), d)
        &&& self.right_clears(z.right, s, self.low(z.down, s), d)
    }

    /// The trapezoids through which `s` runs below height `d`, from top to bottom.
    pub open spec fn crossing(self, s: Segment, d: int) -> Seq<TrapezoidIdx>
        decreases d - s.lo.y,
    {
        if d <= s.lo.y {
            Seq::empty()
        } else {
            let t = self.under(s, d);
            match self.trapezoids[t@]@.down {
                Some(ni) => if s.lo.y < self.nexuses[ni@].at.y < d {
                    seq![t] + self.crossing(s, self.nexuses[ni@].at.y as int)
                } else {
                    seq![t]
                },
                None => seq![t],
            }
        }
    }

    /// Whether `s` can run through each of the trapezoids that it meets below height `d`.
    pub open spec fn clear_below(self, s: Segment, d: int, top: bool) -> bool
        decreases d - s.lo.y,
    {
        if d <= s.lo.y {
            true
        } else {
            let t = self.under(s, d)@;
            &&& self.crossable(t, s, d, top)
            &&& match self.trapezoids[t]@.down {
                Some(ni) => s.lo.y < self.nexuses[ni@].at.y < d ==> self.clear_below(
                    s,
                    self.nexuses[ni@].at.y as int,
                    false,
                ),
                None => true,
            }
        }
    }

    /// The trapezoids through which `s` runs, from top to bottom.
    pub open spec fn path(self, s: Segment) -> Seq<TrapezoidIdx> {
        self.crossing(s, s.hi.y as int)
    }

    /// Whether `s` can be inserted: it is well formed, and it can run through each of the
    /// trapezoids that it meets without leaving it sideways and without touching its left
    /// or right bound but in a vertex of both.
    pub open spec fn admits(self, s: Segment) -> bool {
        s.wf() && self.clear_below(s, s.hi.y as int, true)
    }

    /// The height at which `s` enters element `j` of `path` from above.
    pub open spec fn entry(self, path: Seq<TrapezoidIdx>, s: Segment, j: int) -> int {
        if j == 0 {
            s.hi.y as int
        } else {
            self.low(self.trapezoids[path[j - 1]@]@.down, s)
        }
    }

    /// What is known of the list of trapezoids through which `s` runs: each is in range
    /// and can be crossed from the height at which `s` enters it, which lies above the
    /// lower endpoint of `s`; `s` goes on below each but the last; and no trapezoid occurs
    /// twice. With `open` set the topmost trapezoid may reach above `s`.
    pub open spec fn traced_with(self, path: Seq<TrapezoidIdx>, s: Segment, open: bool) -> bool {
        &&& path.len() >= 1
        &&& forall|j: int|
            0 <= j < path.len() ==> 0 <= (#[trigger] path[j])@ < self.trapezoids.len()
                && self.crossable(path[j]@, s, self.entry(path, s, j), j == 0 && open)
                && s.lo.y < self.entry(path, s, j) <= s.hi.y
        &&& forall|j: int| 0 <= j < path.len() - 1 ==> !self.ends_in((#[trigger] path[j])@, s)
        &&& self.ends_in(path[path.len() - 1]@, s)
        &&& forall|j: int, k: int|
            0 <= j < k < path.len() ==> (#[trigger] path[j])@ != (#[trigger] path[k])@
    }

    /// What is known of the list of trapezoids through which `s` runs, as they are found.
    pub open spec fn traced(self, path: Seq<TrapezoidIdx>, s: Segment) -> bool {
        self.traced_with(path, s, true)
    }

    /// Whether `s` can split trapezoid `t` from bottom to top: `t` is bounded below and
    /// above, `s` reaches over its whole height, and between the two heights `s` stays
    /// between the lines of the left and the right bound.
    pub open spec fn passable(self, t: int, s: Segment) -> bool {
        let z = self.trapezoids[t]@;
        match (z.down, z.up) {
            (Some(d), Some(u)) => {
                let y0 = self.nexuses[d@].at.y as int;
                let y1 = self.nexuses[u@].at.y as int;
                &&& s.lo.y <= y0
                &&& y1 <= s.hi.y
                &&& self.left_clears(z.left, s, y0, y1)
                &&& self.right_clears(z.right, s, y0, y1)
            },
            _ => false,
        }
    }

    /// Whether trapezoid `upper` lies on top of trapezoid `lower`: the lower bound of the
    /// one and the upper bound of the other are at the same height.
    pub open spec fn stacked(self, upper: int, lower: int) -> bool {
        match (self.trapezoids[upper]@.down, self.trapezoids[lower]@.up) {
            (Some(d), Some(u)) => self.nexuses[d@].at.y == self.nexuses[u@].at.y,
            _ => false,
        }
    }

    /// Whether the trapezoids of `path` are ready to be split along `s`: each is in range
    /// and can be split by `s` from bottom to top, each lies on top of the next, and none
    /// occurs twice.
    pub open spec fn ready(self, path: Seq<TrapezoidIdx>, s: Segment) -> bool {
        &&& path.len() >= 1
        &&& forall|j: int|
            0 <= j < path.len() ==> 0 <= (#[trigger] path[j])@ < self.trapezoids.len()
                && self.passable(path[j]@, s)
        &&& forall|j: int|
            0 <= j < path.len() - 1 ==> self.stacked((#[trigger] path[j])@, path[j + 1]@)
        &&& forall|j: int, k: int|
            0 <= j < k < path.len() ==> (#[trigger] path[j])@ != (#[trigger] path[k])@
    }
}

/// A search for a part of a segment that starts in range ends at a leaf in range.
pub proof fn lemma_leaf_under_is_leaf(nodes: Seq<QueryNode>, q: int, s: Segment, d: int)
    requires
        descending(nodes),
        0 <= q < nodes.len(),
    ensures
        q <= leaf_under(nodes, q, s, d) < nodes.len(),
        nodes[leaf_under(nodes, q, s, d)] is Sink,
    decreases nodes.len() - q,
{
    match nodes[q] {
        QueryNode::Branch(left, right, test) => {
            if sends_left_under(test, s, d) {
                lemma_leaf_under_is_leaf(nodes, left@, s, d);
            } else {
                lemma_leaf_under_is_leaf(nodes, right@, s, d);
            }
        },
        QueryNode::Sink(_) => {},
    }
}

/// In a trapezoid that `s` can split, a point between the two heights that is left of `s`
/// is left of the right bound, and one that is not left of `s` is not left of the left
/// bound.
pub proof fn lemma_passable_sides(d: Decomposition, t: int, s: Segment, p: Point)
    requires
        forall|e: int| 0 <= e < d.segments.len() ==> (#[trigger] d.segments[e]).wf(),
        d.well_linked(t),
        s.wf(),
        d.passable(t, s),
        d.floor_admits(d.trapezoids[t]@.down, p.y),
        d.ceiling_admits(d.trapezoids[t]@.up, p.y),
    ensures
        left_of(s.lo, s.hi, p) ==> d.right_admits(d.trapezoids[t]@.right, p),
        !left_of(s.lo, s.hi, p) ==> d.left_admits(d.trapezoids[t]@.left, p),
{
    let z = d.trapezoids[t]@;
    let y0 = d.nexuses[z.down.unwrap()@].at.y as int;
    let y1 = d.nexuses[z.up.unwrap()@].at.y as int;
    if let Some(e) = z.right {
        let g = d.segments[e@];
        assert(g.wf());
        lemma_turn_at_between(g.lo, g.hi, s.lo, s.hi, y0, y1, p.y);
        lemma_side_carries(g.lo, g.hi, s.lo, s.hi, p);
    }
    if let Some(e) = z.left {
        let g = d.segments[e@];
        assert(g.wf());
        lemma_turn_at_between(g.lo, g.hi, s.lo, s.hi, y0, y1, p.y);
        lemma_side_carries(g.lo, g.hi, s.lo, s.hi, p);
    }
}

/// What was found of a path stays true while segments, vertex events and trapezoids are
/// added and the trapezoids of the path stay as they are.
pub proof fn lemma_traced_grown(
    before: Decomposition,
    after: Decomposition,
    path: Seq<TrapezoidIdx>,
    s: Segment,
    open: bool,
)
    requires
        before.bijective(),
        before.traced_with(path, s, open),
        extends(after.segments, before.segments),
        extends(after.nexuses, before.nexuses),
        before.trapezoids.len() <= after.trapezoids.len(),
        forall|j: int|
            0 <= j < path.len() ==> after.trapezoids[(#[trigger] path[j])@]
                == before.trapezoids[path[j]@],
    ensures
        after.traced_with(path, s, open),
{
    assert forall|j: int| 0 <= j < path.len() implies 0 <= (#[trigger] path[j])@
        < after.trapezoids.len() && after.crossable(
        path[j]@,
        s,
        after.entry(path, s, j),
        j == 0 && open,
    ) && s.lo.y < after.entry(path, s, j) <= s.hi.y by {
        assert(before.paired(path[j]@));
        if j > 0 {
            assert(before.paired(path[j - 1]@));
        }
        assert(after.entry(path, s, j) == before.entry(path, s, j));
    }
    assert forall|j: int| 0 <= j < path.len() - 1 implies !after.ends_in(
        (#[trigger] path[j])@,
        s,
    ) by {
        assert(before.paired(path[j]@));
    }
    assert(before.paired(path[path.len() - 1]@));
}

/// Once the topmost trapezoid of a path ends at the height of the upper endpoint of `s`,
/// it is crossed like the others: from its upper bound.
pub proof fn lemma_traced_topped(
    before: Decomposition,
    after: Decomposition,
    path: Seq<TrapezoidIdx>,
    s: Segment,
)
    requires
        before.bijective(),
        before.traced_with(path, s, true),
        after.segments == before.segments,
        after.nexuses == before.nexuses,
        before.trapezoids.len() <= after.trapezoids.len(),
        forall|j: int|
            0 < j < path.len() ==> after.trapezoids[(#[trigger] path[j])@]
                == before.trapezoids[path[j]@],
        after.trapezoids[path[0]@]@.left == before.trapezoids[path[0]@]@.left,
        after.trapezoids[path[0]@]@.right == before.trapezoids[path[0]@]@.right,
        after.trapezoids[path[0]@]@.down == before.trapezoids[path[0]@]@.down,
        after.trapezoids[path[0]@]@.up matches Some(u) && 0 <= u@ < after.nexuses.len()
            && after.nexuses[u@].at.y == s.hi.y,
    ensures
        after.traced_with(path, s, false),
{
    assert forall|j: int| 0 <= j < path.len() implies 0 <= (#[trigger] path[j])@
        < after.trapezoids.len() && after.crossable(path[j]@, s, after.entry(path, s, j), false)
        && s.lo.y < after.entry(path, s, j) <= s.hi.y by {
        assert(before.paired(path[j]@));
        if j > 0 {
            assert(before.paired(path[j - 1]@));
        }
        assert(after.entry(path, s, j) == before.entry(path, s, j));
    }
    assert forall|j: int| 0 <= j < path.len() - 1 implies !after.ends_in(
        (#[trigger] path[j])@,
        s,
    ) by {
        assert(before.paired(path[j]@));
    }
    assert(before.paired(path[path.len() - 1]@));
}

/// Once the lowest trapezoid of a path starts at the height of the lower endpoint of `s`,
/// in place or as a new trapezoid that took the place of the old one in the path, every
/// trapezoid of the path is ready to be split along `s`.
pub proof fn lemma_ready(
    before: Decomposition,
    after: Decomposition,
    path: Seq<TrapezoidIdx>,
    last: TrapezoidIdx,
    s: Segment,
)
    requires
        before.bijective(),
        before.traced_with(path, s, false),
        after.segments == before.segments,
        after.nexuses == before.nexuses,
        before.trapezoids.len() <= after.trapezoids.len(),
        forall|j: int|
            0 <= j < path.len() - 1 ==> after.trapezoids[(#[trigger] path[j])@]
                == before.trapezoids[path[j]@],
        0 <= last@ < after.trapezoids.len(),
        last == path[path.len() - 1] || last@ >= before.trapezoids.len(),
        after.trapezoids[last@]@.left == before.trapezoids[path[path.len() - 1]@]@.left,
        after.trapezoids[last@]@.right == before.trapezoids[path[path.len() - 1]@]@.right,
        after.trapezoids[last@]@.up == before.trapezoids[path[path.len() - 1]@]@.up,
        after.trapezoids[last@]@.down matches Some(n) && 0 <= n@ < after.nexuses.len()
            && after.nexuses[n@].at.y == s.lo.y,
    ensures
        after.ready(path.update(path.len() - 1, last), s),
{
    let k = path.len() - 1;
    let next = path.update(k, last);
    assert forall|j: int| 0 <= j < next.len() implies 0 <= (#[trigger] next[j])@
        < after.trapezoids.len() && after.passable(next[j]@, s) by {
        assert(before.paired(path[j]@));
        assert(before.crossable(path[j]@, s, before.entry(path, s, j), false));
        if j < k {
            assert(!before.ends_in(path[j]@, s));
        }
    }
    assert forall|j: int| 0 <= j < next.len() - 1 implies after.stacked(
        (#[trigger] next[j])@,
        next[j + 1]@,
    ) by {
        assert(before.paired(path[j]@));
        assert(!before.ends_in(path[j]@, s));
        assert(before.crossable(path[j + 1]@, s, before.entry(path, s, j + 1), false));
    }
    assert forall|i: int, j: int| 0 <= i < j < next.len() implies (#[trigger] next[i])@ != (
    #[trigger] next[j])@ by {
        assert(path[i]@ != path[j]@);
    }
}

/// An inner point of `e`, at a height at which `s` stays on the right of `e`, lies strictly
/// left of `s`.
pub proof fn lemma_inner_point_is_left(e: Segment, s: Segment, y0: int, y1: int, p: Point)
    requires
        e.wf(),
        s.wf(),
        stays_right_of(e, s, y0, y1),
        y0 as real <= p.y,
        p.y < y1 as real,
        e.runs_through(p),
    ensures
        left_of(s.lo, s.hi, p),
{
    if p.y > y0 as real {
        lemma_turn_at_strictly_between(e.lo, e.hi, s.lo, s.hi, y0, y1, p.y);
    } else {
        lemma_turn_at_of_grid(e.lo, e.hi, s.lo, s.hi, y0);
    }
    lemma_on_first_line(e.lo, e.hi, s.lo, s.hi, p);
}

/// An inner point of `s`, at a height at which `s` stays on the left of `g`, lies strictly
/// left of `g`.
pub proof fn lemma_inner_point_stays_left(g: Segment, s: Segment, y0: int, y1: int, p: Point)
    requires
        g.wf(),
        s.wf(),
        stays_left_of(g, s, y0, y1),
        s.lo.y <= y0 < y1 <= s.hi.y,
        y0 as real <= p.y,
        p.y < y1 as real,
        s.runs_through(p),
    ensures
        left_of(g.lo, g.hi, p),
{
    if p.y > y0 as real {
        lemma_turn_at_strictly_between(g.lo, g.hi, s.lo, s.hi, y0, y1, p.y);
    } else {
        lemma_turn_at_of_grid(g.lo, g.hi, s.lo, s.hi, y0);
    }
    lemma_on_second_line(g.lo, g.hi, s.lo, s.hi, p);
}

/// A point of the line through `s`, at a height at which `s` stays on the right of `f`,
/// does not lie left of `f`.
pub proof fn lemma_inner_point_stays_right(f: Segment, s: Segment, y0: int, y1: int, p: Point)
    requires
        f.wf(),
        s.wf(),
        stays_right_of(f, s, y0, y1),
        y0 as real <= p.y <= y1 as real,
        turn(s.lo, s.hi, p) == 0real,
    ensures
        !left_of(f.lo, f.hi, p),
{
    lemma_turn_at_between(f.lo, f.hi, s.lo, s.hi, y0, y1, p.y);
    lemma_on_second_line(f.lo, f.hi, s.lo, s.hi, p);
}

/// The position in the path of `s` of the trapezoid through which `s` runs at height `y`,
/// searched from position `j` on.
pub proof fn lemma_level(
    d: Decomposition,
    path: Seq<TrapezoidIdx>,
    s: Segment,
    y: real,
    j: int,
) -> (k: int)
    requires
        d.traced(path, s),
        0 <= j < path.len(),
        s.lo.y as real <= y,
        y < d.entry(path, s, j) as real,
    ensures
        j <= k < path.len(),
        d.low(d.trapezoids[path[k]@]@.down, s) as real <= y,
        y < d.entry(path, s, k) as real,
    decreases path.len() - j,
{
    if y >= d.low(d.trapezoids[path[j]@]@.down, s) as real {
        j
    } else {
        if j == path.len() - 1 {
            assert(d.ends_in(path[j]@, s));
        }
        lemma_level(d, path, s, y, j + 1)
    }
}

/// An inner point of a segment that can be inserted is found in a trapezoid of its path.
pub proof fn lemma_inner_point_on_path(
    d: Decomposition,
    path: Seq<TrapezoidIdx>,
    s: Segment,
    p: Point,
) -> (k: int)
    requires
        d.sound(),
        s.wf(),
        d.traced(path, s),
        s.runs_through(p),
    ensures
        0 <= k < path.len(),
        d.locate(p) == path[k]@,
        d.contains(path[k]@, p),
        d.low(d.trapezoids[path[k]@]@.down, s) as real <= p.y,
        p.y < d.entry(path, s, k) as real,
{
    let k = lemma_level(d, path, s, p.y, 0);
    let t = path[k]@;
    let z = d.trapezoids[t]@;
    let y0 = d.low(z.down, s);
    let y1 = d.entry(path, s, k);
    assert(d.paired(t));
    assert(d.crossable(t, s, y1, k == 0));
    assert(s.lo.y < y1 <= s.hi.y);
    if let Some(f) = z.left {
        assert(d.segments[f@].wf());
        lemma_inner_point_stays_right(d.segments[f@], s, y0, y1, p);
    }
    if let Some(g) = z.right {
        assert(d.segments[g@].wf());
        lemma_inner_point_stays_left(d.segments[g@], s, y0, y1, p);
    }
    assert(d.contains(t, p));
    k
}

/// What is known of the path of a segment that can be inserted, shown from height `d`
/// down: `found` holds the trapezoids met above `d`.
proof fn lemma_traced_from(
    dec: Decomposition,
    s: Segment,
    d: int,
    top: bool,
    found: Seq<TrapezoidIdx>,
)
    requires
        dec.sound(),
        s.wf(),
        s.lo.y < d <= s.hi.y,
        top == (found.len() == 0),
        top ==> d == s.hi.y,
        dec.clear_below(s, d, top),
        forall|j: int|
            0 <= j < found.len() ==> 0 <= (#[trigger] found[j])@ < dec.trapezoids.len()
                && dec.crossable(found[j]@, s, dec.entry(found, s, j), j == 0) && s.lo.y
                < dec.entry(found, s, j) <= s.hi.y && !dec.ends_in(found[j]@, s) && d <= dec.low(
                dec.trapezoids[found[j]@]@.down,
                s,
            ),
        !top ==> d == dec.low(dec.trapezoids[found[found.len() - 1]@]@.down, s),
        forall|j: int, k: int|
            0 <= j < k < found.len() ==> (#[trigger] found[j])@ != (#[trigger] found[k])@,
    ensures
        dec.traced(found + dec.crossing(s, d), s),
    decreases d - s.lo.y,
{
    let ti = dec.under(s, d);
    lemma_leaf_under_is_leaf(dec.nodes, dec.root, s, d);
    assert(dec.leaf_returns(leaf_under(dec.nodes, dec.root, s, d)));
    assert(dec.paired(ti@));
    assert(dec.formed(ti@));
    assert(dec.crossable(ti@, s, d, top));
    let more = found.push(ti);
    assert forall|j: int| 0 <= j < more.len() implies dec.entry(more, s, j) == (if j
        < found.len() {
        dec.entry(found, s, j)
    } else {
        d
    }) by {}
    assert forall|j: int| 0 <= j < found.len() implies found[j]@ != ti@ by {
        assert(found[j] == more[j]);
    }
    let goes_on = match dec.trapezoids[ti@]@.down {
        Some(ni) => s.lo.y < dec.nexuses[ni@].at.y < d,
        None => false,
    };
    if goes_on {
        let h = dec.nexuses[dec.trapezoids[ti@]@.down.unwrap()@].at.y as int;
        lemma_traced_from(dec, s, h, false, more);
        assert(found + dec.crossing(s, d) =~= more + dec.crossing(s, h));
    } else {
        assert(dec.crossing(s, d) =~= seq![ti]);
        assert(found + dec.crossing(s, d) =~= more);
        assert(dec.ends_in(ti@, s));
        assert(dec.traced(more, s));
    }
}

/// The path of a segment that can be inserted is as the search for it finds it.
pub proof fn lemma_admits_traced(dec: Decomposition, s: Segment)
    requires
        dec.sound(),
        dec.admits(s),
    ensures
        dec.traced(dec.path(s), s),
{
    lemma_traced_from(dec, s, s.hi.y as int, true, Seq::empty());
    assert(Seq::<TrapezoidIdx>::empty() + dec.crossing(s, s.hi.y as int) =~= dec.path(s));
}

} // verus!

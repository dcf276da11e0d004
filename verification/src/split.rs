//! The steps of refinement: cutting one trapezoid at a height or along a segment, with
//! the matching rewrite of its leaf in the query DAG.

use crate::geom::{left_of, Point};
use crate::idx::{NexusIdx, SegmentIdx, TrapezoidIdx};
use crate::effect::lemma_refine;
use crate::route::lemma_passable_sides;
use crate::querynode::QueryNode;
use crate::trapezoidation::Trapezoidation;
use vstd::prelude::*;

verus! {

impl Trapezoidation {
    /// Cuts trapezoid `ti` at the height of vertex event `ni`, which lies strictly between
    /// its lower and upper bound. `ti` becomes the part below, the part above is new, and
    /// the leaf of `ti` becomes a Y branch over two new leaves.
    pub(crate) fn cut_at(&mut self, ti: TrapezoidIdx, ni: NexusIdx) -> (upper: TrapezoidIdx)
        requires
            old(self)@.sound(),
            0 <= ti@ < old(self)@.trapezoids.len(),
            0 <= ni@ < old(self)@.nexuses.len(),
            old(self)@.floor_below(
                old(self)@.trapezoids[ti@]@.down,
                old(self)@.nexuses[ni@].at.y as int,
            ),
            old(self)@.ceiling_admits(
                old(self)@.trapezoids[ti@]@.up,
                old(self)@.nexuses[ni@].at.y as real,
            ),
        ensures
            final(self)@.sound(),
            final(self)@ == old(self)@.cut(ti@, ni),
            upper@ == old(self)@.trapezoids.len(),
            forall|p: Point| #[trigger]
                final(self)@.locate(p) == old(self)@.relocated(
                    p,
                    ti@,
                    p.y < old(self)@.nexuses[ni@].at.y as real,
                    ti@,
                    upper@,
                ),
    {
        let whole = *self.trapezoids.get(ti);
        let qi = whole.sink();
        proof {
            assert(self@.paired(ti@));
        }
        let upper = self.trapezoids.allocate(whole);
        let qi_down = self.query_nodes.allocate(QueryNode::root(ti));
        let qi_up = self.query_nodes.allocate(QueryNode::root(upper));
        let at = self.nexuses.get(ni).at;
        let (first, second) = self.query_nodes.get_mut(qi).branch_y(qi_down, qi_up, at, upper);
        *self.query_nodes.get_mut(qi_down) = first;
        *self.query_nodes.get_mut(qi_up) = second;
        let above = self.trapezoids.get_mut(ti).split_horizontal(qi_down, qi_up, ni);
        *self.trapezoids.get_mut(upper) = above;
        proof {
            let before = old(self)@;
            let after = self@;
            assert(before.formed(ti@));
            assert forall|p: Point| #[trigger] before.contains(ti@, p) implies (if p.y < at.y as real {
                after.contains(ti@, p)
            } else {
                after.contains(upper@, p)
            }) by {}
            assert forall|p: Point| #[trigger] after.contains(ti@, p) implies before.contains(
                ti@,
                p,
            ) && p.y < at.y as real by {}
            assert forall|p: Point| #[trigger] after.contains(upper@, p) implies before.contains(
                ti@,
                p,
            ) && !(p.y < at.y as real) by {}
            lemma_refine(before, after, ti@, qi_down@, qi_up@, ti@, upper@);
            assert(after.trapezoids =~= before.cut(ti@, ni).trapezoids);
            assert(after.nodes =~= before.cut(ti@, ni).nodes);
        }
        upper
    }

    /// Cuts trapezoid `ti` along segment `si`, which passes through it from bottom to top.
    /// `ti` becomes the part on the left, the part on the right is new, and the leaf of
    /// `ti` becomes an X branch over two new leaves.
    pub(crate) fn fence(&mut self, ti: TrapezoidIdx, si: SegmentIdx) -> (right: TrapezoidIdx)
        requires
            old(self)@.sound(),
            0 <= ti@ < old(self)@.trapezoids.len(),
            0 <= si@ < old(self)@.segments.len(),
            old(self)@.passable(ti@, old(self)@.segments[si@]),
        ensures
            final(self)@.sound(),
            final(self)@ == old(self)@.fence(ti@, si),
            right@ == old(self)@.trapezoids.len(),
            final(self)@.split_from(old(self)@, ti@, si, ti@, right@),
    {
        let whole = *self.trapezoids.get(ti);
        let qi = whole.sink();
        proof {
            assert(self@.paired(ti@));
        }
        let right = self.trapezoids.allocate(whole);
        let qi_left = self.query_nodes.allocate(QueryNode::root(ti));
        let qi_right = self.query_nodes.allocate(QueryNode::root(right));
        let s = *self.segments.get(si);
        let (first, second) = self.query_nodes.get_mut(qi).branch_x(
            qi_left,
            qi_right,
            s.lo,
            s.hi,
            right,
        );
        *self.query_nodes.get_mut(qi_left) = first;
        *self.query_nodes.get_mut(qi_right) = second;
        let beyond = self.trapezoids.get_mut(ti).split_vertical(qi_left, qi_right, si);
        *self.trapezoids.get_mut(right) = beyond;
        proof {
            let before = old(self)@;
            let after = self@;
            assert(before.formed(ti@));
            assert(s.wf());
            assert forall|p: Point| #[trigger] after.contains(ti@, p) implies before.contains(
                ti@,
                p,
            ) && left_of(s.lo, s.hi, p) by {
                lemma_passable_sides(before, ti@, s, p);
            }
            assert forall|p: Point| #[trigger] after.contains(right@, p) implies before.contains(
                ti@,
                p,
            ) && !left_of(s.lo, s.hi, p) by {
                lemma_passable_sides(before, ti@, s, p);
            }
            lemma_refine(before, after, ti@, qi_left@, qi_right@, ti@, right@);
            assert(after.trapezoids =~= before.fence(ti@, si).trapezoids);
            assert(after.nodes =~= before.fence(ti@, si).nodes);
        }
        right
    }

    /// Cuts trapezoid `ti` along segment `si` and joins the part on the left to `above`,
    /// the part on the left of the trapezoid cut just before, which lies on top of `ti`
    /// and has the same left bound. `above` grows down to the lower bound of `ti`, `ti`
    /// becomes the part on the right, and the leaf of `ti` becomes an X branch over the
    /// leaf of `above` and one new leaf.
    pub(crate) fn fence_joining_left(&mut self, ti: TrapezoidIdx, si: SegmentIdx, above: TrapezoidIdx)
        requires
            old(self)@.sound(),
            0 <= ti@ < old(self)@.trapezoids.len(),
            0 <= above@ < old(self)@.trapezoids.len(),
            0 <= si@ < old(self)@.segments.len(),
            above@ != ti@,
            old(self)@.passable(ti@, old(self)@.segments[si@]),
            old(self)@.trapezoids[above@]@.right == Some(si),
            old(self)@.trapezoids[above@]@.left == old(self)@.trapezoids[ti@]@.left,
            old(self)@.stacked(above@, ti@),
            old(self)@.trapezoids[above@]@.sink@ > old(self)@.trapezoids[ti@]@.sink@,
        ensures
            final(self)@.sound(),
            final(self)@ == old(self)@.join_left(ti@, si, above@),
            final(self)@.split_from(old(self)@, ti@, si, above@, ti@),
    {
        let whole = *self.trapezoids.get(ti);
        let qi = whole.sink();
        let qi_old = self.trapezoids.get(above).sink();
        proof {
            assert(self@.paired(ti@));
            assert(self@.paired(above@));
            assert(self@.formed(ti@));
            assert(self@.formed(above@));
        }
        let qi_new = self.query_nodes.allocate(QueryNode::root(ti));
        let s = *self.segments.get(si);
        let previous = self.query_nodes.get_mut(qi).merge_x(qi_old, qi_new, s.lo, s.hi);
        *self.query_nodes.get_mut(qi_new) = previous;
        if let Some(ni) = whole.down() {
            self.trapezoids.get_mut(above).set_down(ni);
        }
        self.trapezoids.get_mut(ti).set_left(si);
        self.trapezoids.get_mut(ti).set_sink(qi_new);
        proof {
            let before = old(self)@;
            let after = self@;
            assert(s.wf());
            assert forall|p: Point| #[trigger] before.contains(ti@, p) implies (if left_of(s.lo, s.hi, p) {
                after.contains(above@, p)
            } else {
                after.contains(ti@, p)
            }) by {}
            assert forall|p: Point| #[trigger] after.contains(ti@, p) implies before.contains(
                ti@,
                p,
            ) && !left_of(s.lo, s.hi, p) by {
                lemma_passable_sides(before, ti@, s, p);
            }
            assert forall|p: Point| #[trigger] after.contains(above@, p) implies (before.contains(
                ti@,
                p,
            ) && left_of(s.lo, s.hi, p)) || before.contains(above@, p) by {
                if !before.contains(above@, p) {
                    lemma_passable_sides(before, ti@, s, p);
                }
            }
            assert forall|p: Point| #[trigger] before.contains(above@, p) implies after.contains(
                above@,
                p,
            ) by {}
            lemma_refine(before, after, ti@, qi_old@, qi_new@, above@, ti@);
            assert(after.trapezoids =~= before.join_left(ti@, si, above@).trapezoids);
            assert(after.nodes =~= before.join_left(ti@, si, above@).nodes);
        }
    }

    /// Cuts trapezoid `ti` along segment `si` and joins the part on the right to `above`,
    /// the part on the right of the trapezoid cut just before, which lies on top of `ti`
    /// and has the same right bound. `above` grows down to the lower bound of `ti`, `ti`
    /// becomes the part on the left, and the leaf of `ti` becomes an X branch over the
    /// leaf of `above` and one new leaf.
    pub(crate) fn fence_joining_right(&mut self, ti: TrapezoidIdx, si: SegmentIdx, above: TrapezoidIdx)
        requires
            old(self)@.sound(),
            0 <= ti@ < old(self)@.trapezoids.len(),
            0 <= above@ < old(self)@.trapezoids.len(),
            0 <= si@ < old(self)@.segments.len(),
            above@ != ti@,
            old(self)@.passable(ti@, old(self)@.segments[si@]),
            old(self)@.trapezoids[above@]@.left == Some(si),
            old(self)@.trapezoids[above@]@.right == old(self)@.trapezoids[ti@]@.right,
            old(self)@.stacked(above@, ti@),
            old(self)@.trapezoids[above@]@.sink@ > old(self)@.trapezoids[ti@]@.sink@,
        ensures
            final(self)@.sound(),
            final(self)@ == old(self)@.join_right(ti@, si, above@),
            final(self)@.split_from(old(self)@, ti@, si, ti@, above@),
    {
        let whole = *self.trapezoids.get(ti);
        let qi = whole.sink();
        let qi_old = self.trapezoids.get(above).sink();
        proof {
            assert(self@.paired(ti@));
            assert(self@.paired(above@));
            assert(self@.formed(ti@));
            assert(self@.formed(above@));
        }
        let qi_new = self.query_nodes.allocate(QueryNode::root(ti));
        let s = *self.segments.get(si);
        let previous = self.query_nodes.get_mut(qi).merge_x(qi_new, qi_old, s.lo, s.hi);
        *self.query_nodes.get_mut(qi_new) = previous;
        if let Some(ni) = whole.down() {
            self.trapezoids.get_mut(above).set_down(ni);
        }
        self.trapezoids.get_mut(ti).set_right(si);
        self.trapezoids.get_mut(ti).set_sink(qi_new);
        proof {
            let before = old(self)@;
            let after = self@;
            assert(s.wf());
            assert forall|p: Point| #[trigger] before.contains(ti@, p) implies (if left_of(s.lo, s.hi, p) {
                after.contains(ti@, p)
            } else {
                after.contains(above@, p)
            }) by {}
            assert forall|p: Point| #[trigger] after.contains(ti@, p) implies before.contains(
                ti@,
                p,
            ) && left_of(s.lo, s.hi, p) by {
                lemma_passable_sides(before, ti@, s, p);
            }
            assert forall|p: Point| #[trigger] after.contains(above@, p) implies (before.contains(
                ti@,
                p,
            ) && !left_of(s.lo, s.hi, p)) || before.contains(above@, p) by {
                if !before.contains(above@, p) {
                    lemma_passable_sides(before, ti@, s, p);
                }
            }
            assert forall|p: Point| #[trigger] before.contains(above@, p) implies after.contains(
                above@,
                p,
            ) by {}
            lemma_refine(before, after, ti@, qi_new@, qi_old@, ti@, above@);
            assert(after.trapezoids =~= before.join_right(ti@, si, above@).trapezoids);
            assert(after.nodes =~= before.join_right(ti@, si, above@).nodes);
        }
    }
}

} // verus!

//! What the changes of an insertion do to the search for a point, and why they keep the
//! invariant.

use crate::geom::{left_of, Point, Segment};
use crate::idx::{handle, NexusIdx, SegmentIdx, TrapezoidIdx};
use crate::model::{extends, leaf_for, lemma_leaf_for_is_leaf, Decomposition};
use crate::querynode::{descending, QueryNode};
use crate::route::{beside, lemma_inner_point_is_left, lemma_inner_point_on_path, on_path};
use vstd::prelude::*;

verus! {

impl Decomposition {
    /// The trapezoid in which a search for `p` ends after trapezoid `ti` was divided in
    /// two: in `first` or `second` as `goes_first` tells, where it ended in `ti` before.
    pub open spec fn relocated(
        self,
        p: Point,
        ti: int,
        goes_first: bool,
        first: int,
        second: int,
    ) -> int {
        if self.locate(p) == ti {
            if goes_first {
                first
            } else {
                second
            }
        } else {
            self.locate(p)
        }
    }

    /// Whether `p` is found in the same trapezoid as in `before`, and this trapezoid is as
    /// it was.
    pub open spec fn keeps(self, before: Decomposition, p: Point) -> bool {
        self.locate(p) == before.locate(p) && self.trapezoids[self.locate(p)]
            == before.trapezoids[before.locate(p)]
    }

    /// Whether the trapezoid in which `p` is found has the left and right bound of the
    /// one in which it was found in `before`.
    pub open spec fn same_sides(self, before: Decomposition, p: Point) -> bool {
        let z = self.trapezoids[self.locate(p)]@;
        let b = before.trapezoids[before.locate(p)]@;
        z.left == b.left && z.right == b.right
    }

    /// Whether the trapezoid in which `p` is found is the part, on the side of `p`, of the
    /// one in which it was found in `before`, split along segment `si`: where `p` lies
    /// left of the segment it has the segment on the right and the old bound on the left,
    /// else the segment on the left and the old bound on the right.
    pub open spec fn sided(self, before: Decomposition, p: Point, si: SegmentIdx) -> bool {
        let z = self.trapezoids[self.locate(p)]@;
        let b = before.trapezoids[before.locate(p)]@;
        if left_of(self.segments[si@].lo, self.segments[si@].hi, p) {
            z.right == Some(si) && z.left == b.left
        } else {
            z.left == Some(si) && z.right == b.right
        }
    }

    /// Whether an upper or lower bound is there, in range and at height `y`.
    pub open spec fn bound_at(self, bound: Option<NexusIdx>, y: int) -> bool {
        match bound {
            Some(n) => 0 <= n@ < self.nexuses.len() && self.nexuses[n@].at.y == y,
            None => false,
        }
    }

    /// Whether the trapezoid in which `p` is found has its lower bound at height `y`.
    pub open spec fn floored_at(self, p: Point, y: int) -> bool {
        self.bound_at(self.trapezoids[self.locate(p)]@.down, y)
    }

    /// Whether the trapezoid in which `p` is found has its upper bound at height `y`.
    pub open spec fn capped_at(self, p: Point, y: int) -> bool {
        self.bound_at(self.trapezoids[self.locate(p)]@.up, y)
    }

    /// Whether this decomposition is `before` with trapezoid `ti` cut at height `y`, where
    /// `done` is set, and with nothing but vertex events added otherwise: the part of
    /// `ti` above the cut is the one new trapezoid, and the points of `ti` at or above
    /// `y` are found there.
    pub open spec fn sliced(self, before: Decomposition, done: bool, ti: int, y: int) -> bool {
        &&& extends(self.nexuses, before.nexuses)
        &&& self.trapezoids.len() == before.trapezoids.len() + (if done {
            1int
        } else {
            0int
        })
        &&& forall|t: int|
            0 <= t < before.trapezoids.len() && (t != ti || !done) ==> #[trigger] self.trapezoids[t]
                == before.trapezoids[t]
        &&& forall|p: Point| #[trigger]
            self.locate(p) == (if done {
                before.relocated(p, ti, p.y < y as real, ti, before.trapezoids.len() as int)
            } else {
                before.locate(p)
            })
        &&& done ==> {
            let lower = self.trapezoids[ti]@;
            let upper = self.trapezoids[before.trapezoids.len() as int]@;
            let whole = before.trapezoids[ti]@;
            &&& self.bound_at(upper.down, y)
            &&& self.bound_at(lower.up, y)
            &&& lower.down == whole.down
            &&& upper.up == whole.up
            &&& lower.left == whole.left && lower.right == whole.right
            &&& upper.left == whole.left && upper.right == whole.right
        }
    }

    /// Whether this decomposition is `before` with trapezoid `ti` split along segment `si`
    /// into the trapezoids `tl` on the left and `tr` on the right: the points of `ti` left
    /// of the segment are found in `tl`, the others in `tr`; no other trapezoid changes
    /// its left or right bound, and none but these three changes at all.
    pub open spec fn split_from(
        self,
        before: Decomposition,
        ti: int,
        si: SegmentIdx,
        tl: int,
        tr: int,
    ) -> bool {
        &&& self.segments == before.segments
        &&& before.trapezoids.len() <= self.trapezoids.len()
        &&& forall|p: Point| #[trigger]
            self.locate(p) == before.relocated(
                p,
                ti,
                left_of(before.segments[si@].lo, before.segments[si@].hi, p),
                tl,
                tr,
            )
        &&& forall|t: int|
            0 <= t < before.trapezoids.len() && t != ti ==> (#[trigger] self.trapezoids[t])@.left
                == before.trapezoids[t]@.left && self.trapezoids[t]@.right
                == before.trapezoids[t]@.right && (t != tl && t != tr ==> self.trapezoids[t]
                == before.trapezoids[t])
        &&& self.trapezoids[tl]@.right == Some(si)
        &&& self.trapezoids[tl]@.left == before.trapezoids[ti]@.left
        &&& self.trapezoids[tr]@.left == Some(si)
        &&& self.trapezoids[tr]@.right == before.trapezoids[ti]@.right
    }

    /// What the split along segment `si` has done to the search for `p` once the
    /// trapezoids of `path` before position `i` are split, where `before` is the
    /// decomposition before the first split: a point in a trapezoid still to be split is
    /// found there; a point in one that is split is found in a trapezoid bounded by the
    /// segment, which is not among those still to be split; a point off the path keeps
    /// its trapezoid.
    pub open spec fn fenced_upto(
        self,
        before: Decomposition,
        path: Seq<TrapezoidIdx>,
        i: int,
        si: SegmentIdx,
        p: Point,
    ) -> bool {
        if on_path(path, i, before.locate(p)) {
            self.keeps(before, p)
        } else if on_path(path, 0, before.locate(p)) {
            self.sided(before, p, si) && !on_path(path, i, self.locate(p))
        } else {
            self.keeps(before, p)
        }
    }

    /// What the cuts at the endpoints of `s` do to the search for `p`, where `before` is
    /// the decomposition before them and `path` and `next` the path of `s` before and
    /// after them: a point off the path keeps its trapezoid; a point on the path between
    /// the heights of the endpoints is on the new path; a point on the path above or
    /// below is off the new path, in a trapezoid that ends at the height of the endpoint.
    pub open spec fn staged(
        self,
        before: Decomposition,
        path: Seq<TrapezoidIdx>,
        next: Seq<TrapezoidIdx>,
        s: Segment,
        p: Point,
    ) -> bool {
        if !on_path(path, 0, before.locate(p)) {
            self.keeps(before, p) && !on_path(next, 0, self.locate(p))
        } else if beside(s, p) {
            on_path(next, 0, self.locate(p)) && self.same_sides(before, p)
        } else if p.y >= s.hi.y as real {
            !on_path(next, 0, self.locate(p)) && self.floored_at(p, s.hi.y as int)
                && self.same_sides(before, p)
        } else {
            !on_path(next, 0, self.locate(p)) && self.capped_at(p, s.lo.y as int)
                && self.same_sides(before, p)
        }
    }

    /// What the split along segment `si` does to the search for `p`, where `before` is the
    /// decomposition before it and `path` the path of the segment: a point on the path is
    /// found in a trapezoid bounded by the segment, a point off the path keeps its
    /// trapezoid.
    pub open spec fn fenced_off(
        self,
        before: Decomposition,
        path: Seq<TrapezoidIdx>,
        si: SegmentIdx,
        p: Point,
    ) -> bool {
        if on_path(path, 0, before.locate(p)) {
            self.sided(before, p, si)
        } else {
            self.keeps(before, p)
        }
    }

    /// What the insertion of `s` as segment `si` does to the search for `p`, where
    /// `before` is the decomposition before it. A point in a trapezoid through which `s`
    /// does not run keeps its trapezoid, which is as it was. A point in a trapezoid
    /// through which `s` runs is found in a trapezoid bounded by `s` on the side of the
    /// point, where it lies between the heights of the endpoints of `s`; else in a
    /// trapezoid as before that ends at the height of the endpoint that it is beyond.
    pub open spec fn divided(
        self,
        before: Decomposition,
        s: Segment,
        si: SegmentIdx,
        p: Point,
    ) -> bool {
        if !on_path(before.path(s), 0, before.locate(p)) {
            self.keeps(before, p)
        } else if beside(s, p) {
            self.sided(before, p, si)
        } else if p.y >= s.hi.y as real {
            self.floored_at(p, s.hi.y as int) && self.same_sides(before, p)
        } else {
            self.capped_at(p, s.lo.y as int) && self.same_sides(before, p)
        }
    }
}

/// Turning leaf `q` into a branch, and adding nodes behind the old ones, changes no
/// search that ended elsewhere, and sends a search that ended at `q` on from there.
pub proof fn lemma_leaf_for_after_branching(
    before: Seq<QueryNode>,
    after: Seq<QueryNode>,
    q: int,
    start: int,
    p: Point,
)
    requires
        descending(before),
        descending(after),
        before.len() <= after.len(),
        0 <= q < before.len(),
        before[q] is Sink,
        forall|i: int| 0 <= i < before.len() && i != q ==> after[i] == before[i],
        0 <= start < before.len(),
    ensures
        leaf_for(before, start, p) != q ==> leaf_for(after, start, p) == leaf_for(
            before,
            start,
            p,
        ),
        leaf_for(before, start, p) == q ==> leaf_for(after, start, p) == leaf_for(after, q, p),
    decreases before.len() - start,
{
    if start != q {
        match before[start] {
            QueryNode::Branch(left, right, test) => {
                if test.sends_left(p) {
                    lemma_leaf_for_after_branching(before, after, q, left@, p);
                } else {
                    lemma_leaf_for_after_branching(before, after, q, right@, p);
                }
            },
            QueryNode::Sink(_) => {},
        }
    }
}

/// One step of refinement keeps the invariant. The step turns the leaf `q` of trapezoid
/// `ti` into a branch with the leaves `l` and `r` as children, which designate the
/// trapezoids `tl` and `tr`; one of the two is `ti` itself, the other is new or is an older
/// trapezoid that grows. The regions of `tl` and `tr` divide the old region of `ti` as the
/// test of the branch tells, and an older trapezoid only gains what `ti` loses.
pub proof fn lemma_refine(
    before: Decomposition,
    after: Decomposition,
    ti: int,
    l: int,
    r: int,
    tl: int,
    tr: int,
)
    requires
        before.sound(),
        0 <= ti < before.trapezoids.len(),
        extends(after.segments, before.segments),
        extends(after.nexuses, before.nexuses),
        forall|s: int| 0 <= s < after.segments.len() ==> (#[trigger] after.segments[s]).wf(),
        after.root == before.root,
        before.nodes.len() <= after.nodes.len(),
        forall|i: int|
            0 <= i < before.nodes.len() && i != before.trapezoids[ti]@.sink@
                ==> #[trigger] after.nodes[i] == before.nodes[i],
        forall|i: int|
            before.nodes.len() <= i < after.nodes.len() ==> (#[trigger] after.nodes[i]) is Sink
                && (i == l || i == r),
        after.nodes[before.trapezoids[ti]@.sink@] matches QueryNode::Branch(left, right, _)
            && left@ == l && right@ == r,
        before.trapezoids[ti]@.sink@ < l < after.nodes.len(),
        before.trapezoids[ti]@.sink@ < r < after.nodes.len(),
        after.nodes[l] matches QueryNode::Sink(t) && t@ == tl,
        after.nodes[r] matches QueryNode::Sink(t) && t@ == tr,
        before.trapezoids.len() <= after.trapezoids.len(),
        0 <= tl < after.trapezoids.len(),
        0 <= tr < after.trapezoids.len(),
        tl != tr,
        ti == tl || ti == tr,
        forall|t: int|
            0 <= t < after.trapezoids.len() && t != tl && t != tr ==> t
                < before.trapezoids.len() && #[trigger] after.trapezoids[t]
                == before.trapezoids[t],
        after.well_linked(tl),
        after.well_linked(tr),
        after.trapezoids[tl]@.sink@ == l,
        after.trapezoids[tr]@.sink@ == r,
        after.upright(tl) && after.fenced(tl),
        after.upright(tr) && after.fenced(tr),
        forall|p: Point| #[trigger]
            before.contains(ti, p) ==> (if after.nodes[before.trapezoids[ti]@.sink@]->Branch_2.sends_left(
                p,
            ) {
                after.contains(tl, p)
            } else {
                after.contains(tr, p)
            }),
        forall|p: Point| #[trigger]
            after.contains(tl, p) ==> (before.contains(ti, p)
                && after.nodes[before.trapezoids[ti]@.sink@]->Branch_2.sends_left(p)) || (tl
                != ti && tl < before.trapezoids.len() && before.contains(tl, p)),
        forall|p: Point| #[trigger]
            after.contains(tr, p) ==> (before.contains(ti, p)
                && !after.nodes[before.trapezoids[ti]@.sink@]->Branch_2.sends_left(p)) || (tr
                != ti && tr < before.trapezoids.len() && before.contains(tr, p)),
        tl != ti && tl < before.trapezoids.len() ==> before.trapezoids[tl]@.sink@ == l
            && forall|p: Point| #[trigger] before.contains(tl, p) ==> after.contains(tl, p),
        tr != ti && tr < before.trapezoids.len() ==> before.trapezoids[tr]@.sink@ == r
            && forall|p: Point| #[trigger] before.contains(tr, p) ==> after.contains(tr, p),
    ensures
        after.sound(),
        forall|p: Point| #[trigger]
            after.locate(p) == (if before.locate(p) == ti {
                if after.nodes[before.trapezoids[ti]@.sink@]->Branch_2.sends_left(p) {
                    tl
                } else {
                    tr
                }
            } else {
                before.locate(p)
            }),
{
    let q = before.trapezoids[ti]@.sink@;
    assert(before.paired(ti));
    assert(descending(after.nodes)) by {
        assert forall|i: int| 0 <= i < after.nodes.len() implies match #[trigger] after.nodes[i] {
            QueryNode::Branch(left, right, _) => i < left@ < after.nodes.len() && i < right@
                < after.nodes.len(),
            QueryNode::Sink(_) => true,
        } by {
            if i < before.nodes.len() && i != q {
                assert(after.nodes[i] == before.nodes[i]);
            }
        }
    }
    assert forall|t: int| 0 <= t < after.trapezoids.len() implies #[trigger] after.paired(t)
        && after.formed(t) by {
        if t != tl && t != tr {
            assert(after.trapezoids[t] == before.trapezoids[t]);
            assert(t < before.trapezoids.len());
            assert(before.paired(t));
            assert(before.formed(t));
            let k = before.trapezoids[t]@.sink@;
            assert(before.leaf_returns(q));
            assert(k != q);
            assert(after.nodes[k] == before.nodes[k]);
        }
    }
    assert forall|t: int| 0 <= t < after.trapezoids.len() implies #[trigger] after.formed(t) by {
        assert(after.paired(t));
    }
    assert forall|i: int| 0 <= i < after.nodes.len() implies #[trigger] after.leaf_returns(i) by {
        if i == l || i == r {
        } else if i != q {
            assert(after.nodes[i] == before.nodes[i]);
            assert(before.leaf_returns(i));
            if let QueryNode::Sink(t) = before.nodes[i] {
                assert(before.paired(t@));
                if t@ == tl || t@ == tr {
                    assert(false);
                } else {
                    assert(after.trapezoids[t@] == before.trapezoids[t@]);
                }
            }
        }
    }
    assert forall|p: Point| after.contains(#[trigger] after.locate(p), p) by {
        lemma_search_after_refine(before, after, ti, l, r, tl, tr, p);
        let lf = leaf_for(before.nodes, before.root, p);
        lemma_leaf_for_is_leaf(before.nodes, before.root, p);
        assert(before.contains(before.locate(p), p));
        assert(before.leaf_returns(lf));
        if lf != q {
            let t = before.locate(p);
            assert(before.paired(t));
            if t != tl && t != tr {
                assert(after.trapezoids[t] == before.trapezoids[t]);
            }
        }
    }
    assert forall|t: int, p: Point|
        0 <= t < after.trapezoids.len() && #[trigger] after.contains(t, p) implies after.locate(p)
        == t by {
        lemma_search_after_refine(before, after, ti, l, r, tl, tr, p);
        let lf = leaf_for(before.nodes, before.root, p);
        lemma_leaf_for_is_leaf(before.nodes, before.root, p);
        assert(before.leaf_returns(lf));
        if t != tl && t != tr {
            assert(after.trapezoids[t] == before.trapezoids[t]);
            assert(before.paired(t));
            assert(before.contains(t, p));
        } else if t == tl {
            if before.contains(ti, p) && after.nodes[q]->Branch_2.sends_left(p) {
            } else {
                assert(before.contains(tl, p));
                assert(before.paired(tl));
            }
        } else {
            if before.contains(ti, p) && !after.nodes[q]->Branch_2.sends_left(p) {
            } else {
                assert(before.contains(tr, p));
                assert(before.paired(tr));
            }
        }
    }
    assert forall|p: Point| #[trigger]
        after.locate(p) == (if before.locate(p) == ti {
            if after.nodes[q]->Branch_2.sends_left(p) {
                tl
            } else {
                tr
            }
        } else {
            before.locate(p)
        }) by {
        lemma_search_after_refine(before, after, ti, l, r, tl, tr, p);
        lemma_leaf_for_is_leaf(before.nodes, before.root, p);
        let lf = leaf_for(before.nodes, before.root, p);
        assert(before.leaf_returns(lf));
        if before.locate(p) == ti {
            assert(before.paired(ti));
        }
    }
}

/// Where a search ends after a step of refinement: where it ended before, unless that
/// was the leaf of `ti`; then in `tl` or `tr`, as the new test tells.
proof fn lemma_search_after_refine(
    before: Decomposition,
    after: Decomposition,
    ti: int,
    l: int,
    r: int,
    tl: int,
    tr: int,
    p: Point,
)
    requires
        before.sound(),
        descending(after.nodes),
        0 <= ti < before.trapezoids.len(),
        after.root == before.root,
        before.nodes.len() <= after.nodes.len(),
        forall|i: int|
            0 <= i < before.nodes.len() && i != before.trapezoids[ti]@.sink@
                ==> #[trigger] after.nodes[i] == before.nodes[i],
        after.nodes[before.trapezoids[ti]@.sink@] matches QueryNode::Branch(left, right, _)
            && left@ == l && right@ == r,
        before.trapezoids[ti]@.sink@ < l < after.nodes.len(),
        before.trapezoids[ti]@.sink@ < r < after.nodes.len(),
        after.nodes[l] matches QueryNode::Sink(t) && t@ == tl,
        after.nodes[r] matches QueryNode::Sink(t) && t@ == tr,
    ensures
        leaf_for(before.nodes, before.root, p) != before.trapezoids[ti]@.sink@ ==> {
            &&& leaf_for(after.nodes, after.root, p) == leaf_for(before.nodes, before.root, p)
            &&& after.locate(p) == before.locate(p)
            &&& before.locate(p) != ti
        },
        leaf_for(before.nodes, before.root, p) == before.trapezoids[ti]@.sink@ ==> {
            &&& before.locate(p) == ti
            &&& after.locate(p) == (if after.nodes[before.trapezoids[ti]@.sink@]->Branch_2.sends_left(
                p,
            ) {
                tl
            } else {
                tr
            })
        },
{
    let q = before.trapezoids[ti]@.sink@;
    assert(before.paired(ti));
    lemma_leaf_for_is_leaf(before.nodes, before.root, p);
    lemma_leaf_for_after_branching(before.nodes, after.nodes, q, before.root, p);
    let lf = leaf_for(before.nodes, before.root, p);
    assert(before.leaf_returns(lf));
    if lf == q {
        assert(leaf_for(after.nodes, l, p) == l);
        assert(leaf_for(after.nodes, r, p) == r);
        assert(leaf_for(after.nodes, q, p) == if after.nodes[q]->Branch_2.sends_left(p) {
            l
        } else {
            r
        });
    } else {
        assert(after.nodes[lf] == before.nodes[lf]);
    }
}

/// Adding segments and vertex events, with the trapezoids and the query DAG unchanged,
/// keeps the invariant.
pub proof fn lemma_grown(before: Decomposition, after: Decomposition)
    requires
        before.sound(),
        extends(after.segments, before.segments),
        extends(after.nexuses, before.nexuses),
        forall|s: int| 0 <= s < after.segments.len() ==> (#[trigger] after.segments[s]).wf(),
        after.trapezoids == before.trapezoids,
        after.nodes == before.nodes,
        after.root == before.root,
    ensures
        after.sound(),
{
    assert forall|t: int| 0 <= t < after.trapezoids.len() implies #[trigger] after.paired(t) by {
        assert(before.paired(t));
    }
    assert forall|t: int| 0 <= t < after.trapezoids.len() implies #[trigger] after.formed(t) by {
        assert(before.paired(t));
        assert(before.formed(t));
    }
    assert forall|q: int| 0 <= q < after.nodes.len() implies #[trigger] after.leaf_returns(q) by {
        assert(before.leaf_returns(q));
    }
    assert forall|p: Point| after.contains(#[trigger] after.locate(p), p) by {
        lemma_leaf_for_is_leaf(before.nodes, before.root, p);
        assert(before.leaf_returns(leaf_for(before.nodes, before.root, p)));
        assert(before.paired(before.locate(p)));
        assert(before.contains(before.locate(p), p));
    }
    assert forall|t: int, p: Point|
        0 <= t < after.trapezoids.len() && #[trigger] after.contains(t, p) implies after.locate(p)
        == t by {
        assert(before.paired(t));
        assert(before.contains(t, p));
    }
}

/// How the cuts at the two endpoints of `s` change the search for a point. Here `bare`
/// is the decomposition in which the path was found, `before` the same with `s` stored,
/// `middle` the one after the cut at the upper endpoint (made where `open` is set), and
/// `after` the one after the cut at the lower endpoint (made where `short` is set).
#[verifier::rlimit(50)]
pub proof fn lemma_staged(
    bare: Decomposition,
    before: Decomposition,
    middle: Decomposition,
    after: Decomposition,
    path: Seq<TrapezoidIdx>,
    next: Seq<TrapezoidIdx>,
    s: Segment,
    open: bool,
    short: bool,
)
    requires
        before.sound(),
        before == bare.with_segment(s),
        s.wf(),
        before.traced(path, s),
        middle.trapezoids.len() <= usize::MAX,
        middle.sliced(before, open, path[0]@, s.hi.y as int),
        !open ==> before.bound_at(before.trapezoids[path[0]@]@.up, s.hi.y as int),
        after.sliced(middle, short, path[path.len() - 1]@, s.lo.y as int),
        !short ==> middle.bound_at(middle.trapezoids[path[path.len() - 1]@]@.down, s.lo.y as int),
        next == (if short {
            path.update(path.len() - 1, handle(middle.trapezoids.len() as int))
        } else {
            path
        }),
    ensures
        forall|p: Point| #[trigger] after.staged(bare, path, next, s, p),
{
    assert forall|p: Point| #[trigger] after.staged(bare, path, next, s, p) by {
        assert(bare.locate(p) == before.locate(p));
        let k = path.len() - 1;
        let t0 = before.locate(p);
        let t3 = middle.locate(p);
        let t5 = after.locate(p);
        lemma_leaf_for_is_leaf(before.nodes, before.root, p);
        assert(before.leaf_returns(leaf_for(before.nodes, before.root, p)));
        assert(before.paired(t0));
        assert(before.contains(t0, p));
        assert(before.paired(path[k]@));
        if on_path(path, 0, t0) {
            let j = choose|j: int| 0 <= j < path.len() && (#[trigger] path[j])@ == t0;
            assert(before.crossable(path[j]@, s, before.entry(path, s, j), j == 0));
            assert(s.lo.y < before.entry(path, s, j) <= s.hi.y);
            if j < k {
                assert(!before.ends_in(path[j]@, s));
                assert(path[j]@ != path[k]@);
            }
            if j > 0 {
                assert(path[0]@ != path[j]@);
            }
            if beside(s, p) {
                assert(t3 == t0);
                assert(next[j]@ == t5);
            } else if p.y >= s.hi.y as real {
                assert(j == 0 && open);
                assert(t3 == before.trapezoids.len());
                assert(t5 == t3);
                assert(after.trapezoids[t5] == middle.trapezoids[t3]);
                assert forall|i: int| 0 <= i < next.len() implies (#[trigger] next[i])@ != t5 by {
                    if i < k {
                        assert(path[i]@ < before.trapezoids.len());
                    }
                }
            } else {
                assert(j == k);
                if !short {
                    assert(middle.trapezoids[path[k]@]@.down == before.trapezoids[path[k]@]@.down);
                }
                assert(short);
                assert(t3 == t0);
                assert(t5 == t0);
                assert forall|i: int| 0 <= i < next.len() implies (#[trigger] next[i])@ != t5 by {
                    if i < k {
                        assert(path[i]@ != path[k]@);
                    }
                }
            }
        } else {
            assert(path[0]@ != t0);
            assert(path[k]@ != t0);
            assert(t3 == t0);
            assert(t5 == t0);
            assert(middle.trapezoids[t0] == before.trapezoids[t0]);
            assert(after.trapezoids[t0] == middle.trapezoids[t0]);
            assert forall|i: int| 0 <= i < next.len() implies (#[trigger] next[i])@ != t5 by {
                if i < k {
                    assert(path[i]@ != t0);
                }
            }
        }
    }
}

/// One more trapezoid of the path split along segment `si`: what held of the search for
/// each point with the trapezoids before position `i` split holds with those before
/// `i + 1` split.
pub proof fn lemma_fenced_step(
    start: Decomposition,
    before: Decomposition,
    after: Decomposition,
    path: Seq<TrapezoidIdx>,
    i: int,
    next: int,
    si: SegmentIdx,
    tl: int,
    tr: int,
)
    requires
        start.sound(),
        before.sound(),
        0 <= i < path.len(),
        next == i + 1,
        0 <= si@ < before.segments.len(),
        forall|j: int, k: int|
            0 <= j < k < path.len() ==> (#[trigger] path[j])@ != (#[trigger] path[k])@,
        forall|j: int| 0 <= j < path.len() ==> 0 <= (#[trigger] path[j])@ < start.trapezoids.len(),
        start.trapezoids.len() <= before.trapezoids.len(),
        before.segments == start.segments,
        forall|p: Point| #[trigger] before.fenced_upto(start, path, i, si, p),
        after.split_from(before, path[i]@, si, tl, tr),
        forall|j: int| i < j < path.len() ==> (#[trigger] path[j])@ != tl && path[j]@ != tr,
        tl >= start.trapezoids.len() || on_path(path, 0, tl),
        tr >= start.trapezoids.len() || on_path(path, 0, tr),
    ensures
        forall|p: Point| #[trigger] after.fenced_upto(start, path, next, si, p),
{
    let ti = path[i]@;
    assert forall|p: Point| #[trigger] after.fenced_upto(start, path, next, si, p) by {
        let t0 = start.locate(p);
        let x = before.locate(p);
        lemma_leaf_for_is_leaf(start.nodes, start.root, p);
        assert(start.leaf_returns(leaf_for(start.nodes, start.root, p)));
        lemma_leaf_for_is_leaf(before.nodes, before.root, p);
        assert(before.leaf_returns(leaf_for(before.nodes, before.root, p)));
        assert(0 <= x < before.trapezoids.len());
        assert(before.fenced_upto(start, path, i, si, p));
        assert(after.locate(p) == before.relocated(
            p,
            ti,
            left_of(before.segments[si@].lo, before.segments[si@].hi, p),
            tl,
            tr,
        ));
        if on_path(path, next, t0) {
            let j = choose|j: int| 0 <= next <= j < path.len() && (#[trigger] path[j])@ == t0;
            assert(on_path(path, i, t0));
            assert(path[i]@ != path[j]@);
            assert(x == t0);
            assert(after.locate(p) == t0);
        } else if on_path(path, i, t0) {
            let j = choose|j: int| 0 <= i <= j < path.len() && (#[trigger] path[j])@ == t0;
            assert(j == i);
            assert(on_path(path, 0, t0));
            assert(x == ti);
            assert(!on_path(path, next, tl));
            assert(!on_path(path, next, tr));
            assert(after.sided(start, p, si));
        } else if on_path(path, 0, t0) {
            assert(before.sided(start, p, si));
            assert(!on_path(path, i, x));
            assert(x != ti);
            assert(after.locate(p) == x);
            assert(after.trapezoids[x]@.left == before.trapezoids[x]@.left);
            assert(after.trapezoids[x]@.right == before.trapezoids[x]@.right);
            assert(after.sided(start, p, si));
        } else {
            assert(t0 != ti);
            assert(x == t0);
            assert(after.trapezoids[t0] == before.trapezoids[t0]);
        }
    }
}

/// What the cuts at the endpoints and the split along the segment do together to the
/// search for each point.
pub proof fn lemma_divided(
    before: Decomposition,
    middle: Decomposition,
    after: Decomposition,
    next: Seq<TrapezoidIdx>,
    s: Segment,
    si: SegmentIdx,
)
    requires
        forall|p: Point| #[trigger] middle.staged(before, before.path(s), next, s, p),
        forall|p: Point| #[trigger] after.fenced_off(middle, next, si, p),
        after.nexuses == middle.nexuses,
    ensures
        forall|p: Point| #[trigger] after.divided(before, s, si, p),
{
    assert forall|p: Point| #[trigger] after.divided(before, s, si, p) by {
        assert(middle.staged(before, before.path(s), next, s, p));
        assert(after.fenced_off(middle, next, si, p));
    }
}

/// After the insertion of `s` every segment is again the left bound of the trapezoids in
/// which its inner points are found: the new segment, because its inner points were
/// found in the trapezoids of its path, which are split along it; an older segment,
/// because `s` stays strictly right of it where it bounds a trapezoid of the path.
pub proof fn lemma_seated(before: Decomposition, after: Decomposition, s: Segment, si: SegmentIdx)
    requires
        before.wf(),
        s.wf(),
        before.traced(before.path(s), s),
        after.segments == before.segments.push(s),
        si@ == before.segments.len(),
        forall|p: Point| #[trigger] after.divided(before, s, si, p),
    ensures
        after.seated(),
{
    let path = before.path(s);
    assert forall|k: int, p: Point|
        0 <= k < after.segments.len() && #[trigger] after.segments[k].runs_through(
            p,
        ) implies (after.trapezoids[after.locate(p)]@.left matches Some(h) && h@ == k) by {
        assert(after.divided(before, s, si, p));
        let t0 = before.locate(p);
        if k == before.segments.len() {
            let j = lemma_inner_point_on_path(before, path, s, p);
            assert(on_path(path, 0, t0));
            assert(beside(s, p));
            assert(after.sided(before, p, si));
        } else {
            let e = before.segments[k];
            assert(after.segments[k] == e);
            assert(before.segments[k].runs_through(p));
            lemma_leaf_for_is_leaf(before.nodes, before.root, p);
            assert(before.leaf_returns(leaf_for(before.nodes, before.root, p)));
            assert(before.paired(t0));
            assert(before.contains(t0, p));
            if on_path(path, 0, t0) && beside(s, p) {
                let j = choose|j: int| 0 <= j < path.len() && (#[trigger] path[j])@ == t0;
                let z = before.trapezoids[t0]@;
                let y0 = before.low(z.down, s);
                let y1 = before.entry(path, s, j);
                assert(before.crossable(path[j]@, s, y1, j == 0));
                assert(e.wf());
                lemma_inner_point_is_left(e, s, y0, y1, p);
            }
        }
    }
}

} // verus!

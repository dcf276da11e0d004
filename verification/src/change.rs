//! The changes that an insertion makes to a decomposition, as functions of the model.

use crate::geom::{Nexus, Segment};
use crate::idx::{handle, NexusIdx, SegmentIdx, TrapezoidIdx};
use crate::model::Decomposition;
use crate::querynode::{QueryNode, QueryNodeBranch};
use crate::trapezoid::TrapezoidView;
use vstd::prelude::*;

verus! {

impl Decomposition {
    /// The decomposition with `s` added to its segments.
    pub open spec fn with_segment(self, s: Segment) -> Decomposition {
        Decomposition { segments: self.segments.push(s), ..self }
    }

    /// The decomposition with `n` added to its vertex events.
    pub open spec fn with_nexus(self, n: Nexus) -> Decomposition {
        Decomposition { nexuses: self.nexuses.push(n), ..self }
    }

    /// The decomposition with trapezoid `ti` cut at the height of vertex event `ni`: `ti`
    /// becomes the part below, the part above is a new trapezoid, and the leaf of `ti`
    /// becomes a Y branch over two new leaves, the first for `ti`.
    pub open spec fn cut(self, ti: int, ni: NexusIdx) -> Decomposition {
        let z = self.trapezoids[ti]@;
        let n = self.nodes.len() as int;
        let lower = TrapezoidView { up: Some(ni), sink: handle(n), ..z };
        let upper = TrapezoidView { down: Some(ni), sink: handle(n + 1), ..z };
        let test = QueryNodeBranch::Y(self.nexuses[ni@].at);
        Decomposition {
            trapezoids: self.trapezoids.update(ti, lower.record()).push(upper.record()),
            nodes: self.nodes.update(z.sink@, QueryNode::Branch(handle(n), handle(n + 1), test)).push(
                QueryNode::Sink(handle(ti)),
            ).push(QueryNode::Sink(handle(self.trapezoids.len() as int))),
            ..self
        }
    }

    /// The decomposition with trapezoid `ti` split along segment `si`: `ti` becomes the
    /// part on the left, the part on the right is a new trapezoid, and the leaf of `ti`
    /// becomes an X branch over two new leaves, the first for `ti`.
    pub open spec fn fence(self, ti: int, si: SegmentIdx) -> Decomposition {
        let z = self.trapezoids[ti]@;
        let n = self.nodes.len() as int;
        let left = TrapezoidView { right: Some(si), sink: handle(n), ..z };
        let right = TrapezoidView { left: Some(si), sink: handle(n + 1), ..z };
        let test = QueryNodeBranch::X(self.segments[si@].lo, self.segments[si@].hi);
        Decomposition {
            trapezoids: self.trapezoids.update(ti, left.record()).push(right.record()),
            nodes: self.nodes.update(z.sink@, QueryNode::Branch(handle(n), handle(n + 1), test)).push(
                QueryNode::Sink(handle(ti)),
            ).push(QueryNode::Sink(handle(self.trapezoids.len() as int))),
            ..self
        }
    }

    /// The decomposition with trapezoid `ti` split along segment `si` and the part on the
    /// left joined to trapezoid `above`: `above` grows down to the lower bound of `ti`,
    /// `ti` becomes the part on the right, and the leaf of `ti` becomes an X branch over
    /// the leaf of `above` and a new leaf for `ti`.
    pub open spec fn join_left(self, ti: int, si: SegmentIdx, above: int) -> Decomposition {
        let z = self.trapezoids[ti]@;
        let a = self.trapezoids[above]@;
        let n = self.nodes.len() as int;
        let grown = TrapezoidView { down: z.down, ..a };
        let right = TrapezoidView { left: Some(si), sink: handle(n), ..z };
        let test = QueryNodeBranch::X(self.segments[si@].lo, self.segments[si@].hi);
        Decomposition {
            trapezoids: self.trapezoids.update(above, grown.record()).update(ti, right.record()),
            nodes: self.nodes.update(z.sink@, QueryNode::Branch(a.sink, handle(n), test)).push(
                QueryNode::Sink(handle(ti)),
            ),
            ..self
        }
    }

    /// The decomposition with trapezoid `ti` split along segment `si` and the part on the
    /// right joined to trapezoid `above`: `above` grows down to the lower bound of `ti`,
    /// `ti` becomes the part on the left, and the leaf of `ti` becomes an X branch over a
    /// new leaf for `ti` and the leaf of `above`.
    pub open spec fn join_right(self, ti: int, si: SegmentIdx, above: int) -> Decomposition {
        let z = self.trapezoids[ti]@;
        let a = self.trapezoids[above]@;
        let n = self.nodes.len() as int;
        let grown = TrapezoidView { down: z.down, ..a };
        let left = TrapezoidView { right: Some(si), sink: handle(n), ..z };
        let test = QueryNodeBranch::X(self.segments[si@].lo, self.segments[si@].hi);
        Decomposition {
            trapezoids: self.trapezoids.update(above, grown.record()).update(ti, left.record()),
            nodes: self.nodes.update(z.sink@, QueryNode::Branch(handle(n), a.sink, test)).push(
                QueryNode::Sink(handle(ti)),
            ),
            ..self
        }
    }

    /// Whether trapezoid `t` reaches above the upper endpoint of `s`.
    pub open spec fn open_above(self, t: int, s: Segment) -> bool {
        match self.trapezoids[t]@.up {
            Some(u) => self.nexuses[u@].at.y > s.hi.y,
            None => true,
        }
    }

    /// Whether trapezoid `t` reaches below the lower endpoint of `s`.
    pub open spec fn open_below(self, t: int, s: Segment) -> bool {
        match self.trapezoids[t]@.down {
            Some(n) => self.nexuses[n@].at.y < s.lo.y,
            None => true,
        }
    }

    /// The decomposition with `s` stored and the first trapezoid of `path` cut at the
    /// upper endpoint of `s`, where it reaches above it.
    pub open spec fn topped(self, s: Segment, path: Seq<TrapezoidIdx>) -> Decomposition {
        let stored = self.with_segment(s);
        if stored.open_above(path[0]@, s) {
            stored.with_nexus(Nexus { at: s.hi }).cut(path[0]@, handle(stored.nexuses.len() as int))
        } else {
            stored
        }
    }

    /// The decomposition with `s` stored and the first and last trapezoid of `path` cut
    /// at the upper and lower endpoint of `s`, where they reach beyond them.
    pub open spec fn prepared(self, s: Segment, path: Seq<TrapezoidIdx>) -> Decomposition {
        let topped = self.topped(s, path);
        let bottom = path[path.len() - 1]@;
        if topped.open_below(bottom, s) {
            topped.with_nexus(Nexus { at: s.lo }).cut(bottom, handle(topped.nexuses.len() as int))
        } else {
            topped
        }
    }

    /// The path of `s` after the cuts at its endpoints: where the last trapezoid was cut,
    /// its new part above the cut takes its place.
    pub open spec fn prepared_path(self, s: Segment, path: Seq<TrapezoidIdx>) -> Seq<
        TrapezoidIdx,
    > {
        let topped = self.topped(s, path);
        if topped.open_below(path[path.len() - 1]@, s) {
            path.update(path.len() - 1, handle(topped.trapezoids.len() as int))
        } else {
            path
        }
    }

    /// The decomposition with the trapezoids of `path` from position `i` on split along
    /// segment `si`, where `left` and `right` are the parts of the trapezoid before on the
    /// two sides of the segment. A part whose outer bound is that of the part above it
    /// is joined to it, on the left first.
    pub open spec fn threaded(
        self,
        si: SegmentIdx,
        path: Seq<TrapezoidIdx>,
        i: int,
        left: TrapezoidIdx,
        right: TrapezoidIdx,
    ) -> Decomposition
        decreases path.len() - i,
    {
        if i < 0 || i >= path.len() {
            self
        } else {
            let ti = path[i];
            if self.trapezoids[left@]@.left == self.trapezoids[ti@]@.left {
                self.join_left(ti@, si, left@).threaded(si, path, i + 1, left, ti)
            } else if self.trapezoids[right@]@.right == self.trapezoids[ti@]@.right {
                self.join_right(ti@, si, right@).threaded(si, path, i + 1, ti, right)
            } else {
                self.fence(ti@, si).threaded(
                    si,
                    path,
                    i + 1,
                    ti,
                    handle(self.trapezoids.len() as int),
                )
            }
        }
    }

    /// The decomposition with every trapezoid of `path` split along segment `si`, from
    /// the first to the last.
    pub open spec fn split_along(self, si: SegmentIdx, path: Seq<TrapezoidIdx>) -> Decomposition {
        self.fence(path[0]@, si).threaded(
            si,
            path,
            1,
            path[0],
            handle(self.trapezoids.len() as int),
        )
    }

    /// The decomposition with `s` inserted: `s` is stored, the trapezoids through which it
    /// runs are cut at its endpoints and then split along it.
    pub open spec fn inserted(self, s: Segment) -> Decomposition {
        self.prepared(s, self.path(s)).split_along(
            handle(self.segments.len() as int),
            self.prepared_path(s, self.path(s)),
        )
    }

    /// The decomposition with the segments of `list` inserted one after another.
    pub open spec fn inserted_all(self, list: Seq<Segment>) -> Decomposition
        decreases list.len(),
    {
        if list.len() == 0 {
            self
        } else {
            self.inserted_all(list.drop_last()).inserted(list.last())
        }
    }

    /// Whether each segment of `list` can be inserted once those before it are.
    pub open spec fn admits_all(self, list: Seq<Segment>) -> bool
        decreases list.len(),
    {
        list.len() == 0 || (self.admits_all(list.drop_last()) && self.inserted_all(
            list.drop_last(),
        ).admits(list.last()))
    }
}

} // verus!

//! The mathematical model of a decomposition: four lists and a root, the search through
//! the query DAG, the regions of the trapezoids, and the invariant that ties them together.

use crate::geom::{apart, left_of, Nexus, Point, Segment};
use crate::idx::{handle, NexusIdx, SegmentIdx, TrapezoidIdx};
use crate::querynode::{descending, QueryNode};
use crate::trapezoid::Trapezoid;
use vstd::prelude::*;

verus! {

/// What a trapezoidation holds, as plain lists: slot `i` of each list is the element that
/// the handle with view `i` names.
pub ghost struct Decomposition {
    pub segments: Seq<Segment>,
    pub nexuses: Seq<Nexus>,
    pub trapezoids: Seq<Trapezoid>,
    pub nodes: Seq<QueryNode>,
    pub root: int,
}

/// The leaf in which a search for `p` ends when it starts at node `q`: a branch sends the
/// search to its left or right child by its test, a leaf ends it.
pub open spec fn leaf_for(nodes: Seq<QueryNode>, q: int, p: Point) -> int
    decreases nodes.len() - q,
{
    if 0 <= q < nodes.len() {
        match nodes[q] {
            QueryNode::Branch(left, right, test) => if q < left@ < nodes.len() && q < right@
                < nodes.len() {
                if test.sends_left(p) {
                    leaf_for(nodes, left@, p)
                } else {
                    leaf_for(nodes, right@, p)
                }
            } else {
                q
            },
            QueryNode::Sink(_) => q,
        }
    } else {
        q
    }
}

/// The trapezoid that a leaf designates (that of slot 0 for a branch).
pub open spec fn designee(node: QueryNode) -> TrapezoidIdx {
    match node {
        QueryNode::Sink(ti) => ti,
        QueryNode::Branch(_, _, _) => handle(0),
    }
}

/// The slot of the trapezoid that a leaf designates (0 for a branch).
pub open spec fn designated(node: QueryNode) -> int {
    designee(node)@
}

/// Whether `longer` starts with the elements of `shorter`.
pub open spec fn extends<T>(longer: Seq<T>, shorter: Seq<T>) -> bool {
    &&& shorter.len() <= longer.len()
    &&& forall|i: int| 0 <= i < shorter.len() ==> #[trigger] longer[i] == shorter[i]
}

impl Decomposition {
    /// Whether a lower bound lets a point of height `y` in: the bound is absent or not
    /// above `y`.
    pub open spec fn floor_admits(self, bound: Option<NexusIdx>, y: real) -> bool {
        match bound {
            Some(ni) => self.nexuses[ni@].at.y as real <= y,
            None => true,
        }
    }

    /// Whether a lower bound lies strictly below height `y`, or is absent.
    pub open spec fn floor_below(self, bound: Option<NexusIdx>, y: int) -> bool {
        match bound {
            Some(ni) => self.nexuses[ni@].at.y < y,
            None => true,
        }
    }

    /// Whether an upper bound lets a point of height `y` in: the bound is absent or
    /// strictly above `y`.
    pub open spec fn ceiling_admits(self, bound: Option<NexusIdx>, y: real) -> bool {
        match bound {
            Some(ni) => y < self.nexuses[ni@].at.y as real,
            None => true,
        }
    }

    /// Whether a left bound lets `p` in: the bound is absent, or `p` lies on the line
    /// through the segment or to the right of it.
    pub open spec fn left_admits(self, bound: Option<SegmentIdx>, p: Point) -> bool {
        match bound {
            Some(si) => !left_of(self.segments[si@].lo, self.segments[si@].hi, p),
            None => true,
        }
    }

    /// Whether a right bound lets `p` in: the bound is absent, or `p` lies strictly to the
    /// left of the line through the segment.
    pub open spec fn right_admits(self, bound: Option<SegmentIdx>, p: Point) -> bool {
        match bound {
            Some(si) => left_of(self.segments[si@].lo, self.segments[si@].hi, p),
            None => true,
        }
    }

    /// Whether `p` lies in the region of trapezoid `t`: between its two heights (the lower
    /// one included) and between the lines of its two segments (the left one included).
    pub open spec fn contains(self, t: int, p: Point) -> bool {
        let z = self.trapezoids[t]@;
        &&& self.floor_admits(z.down, p.y)
        &&& self.ceiling_admits(z.up, p.y)
        &&& self.left_admits(z.left, p)
        &&& self.right_admits(z.right, p)
    }

    /// The trapezoid in which a search for `p` from the root ends.
    pub open spec fn locate(self, p: Point) -> int {
        designated(self.nodes[leaf_for(self.nodes, self.root, p)])
    }

    /// Whether the handles that trapezoid `t` holds name slots of the lists.
    pub open spec fn well_linked(self, t: int) -> bool {
        let z = self.trapezoids[t]@;
        &&& z.left matches Some(si) ==> 0 <= si@ < self.segments.len()
        &&& z.right matches Some(si) ==> 0 <= si@ < self.segments.len()
        &&& z.down matches Some(ni) ==> 0 <= ni@ < self.nexuses.len()
        &&& z.up matches Some(ni) ==> 0 <= ni@ < self.nexuses.len()
        &&& 0 <= z.sink@ < self.nodes.len()
    }

    /// Whether the lower bound of trapezoid `t` lies strictly below its upper bound.
    pub open spec fn upright(self, t: int) -> bool {
        let z = self.trapezoids[t]@;
        z.down matches Some(d) ==> (z.up matches Some(u) ==> self.nexuses[d@].at.y
            < self.nexuses[u@].at.y)
    }

    /// Whether segment `si` reaches from the lower to the upper bound of trapezoid `t`,
    /// both of which then exist.
    pub open spec fn spans(self, si: SegmentIdx, t: int) -> bool {
        let z = self.trapezoids[t]@;
        &&& z.down matches Some(d) && self.segments[si@].lo.y <= self.nexuses[d@].at.y
        &&& z.up matches Some(u) && self.nexuses[u@].at.y <= self.segments[si@].hi.y
    }

    /// Whether the segments that bound trapezoid `t` on the left and right reach over its
    /// whole height, so that its region is the part of the plane between them.
    pub open spec fn fenced(self, t: int) -> bool {
        let z = self.trapezoids[t]@;
        &&& z.left matches Some(si) ==> self.spans(si, t)
        &&& z.right matches Some(si) ==> self.spans(si, t)
    }

    /// Whether the sink of trapezoid `t` is a leaf that designates `t`.
    pub open spec fn sink_returns(self, t: int) -> bool {
        self.nodes[self.trapezoids[t]@.sink@] matches QueryNode::Sink(ti) && ti@ == t
    }

    /// Whether trapezoid `t` holds handles in range and has a sink that designates it.
    pub open spec fn paired(self, t: int) -> bool {
        self.well_linked(t) && self.sink_returns(t)
    }

    /// Whether trapezoid `t` has a positive height and is fenced by its segments.
    pub open spec fn formed(self, t: int) -> bool {
        self.upright(t) && self.fenced(t)
    }

    /// Whether node `q`, if it is a leaf, designates a trapezoid whose sink is `q`.
    pub open spec fn leaf_returns(self, q: int) -> bool {
        self.nodes[q] matches QueryNode::Sink(ti) ==> 0 <= ti@ < self.trapezoids.len()
            && self.trapezoids[ti@]@.sink@ == q
    }

    /// The one-to-one correspondence between trapezoids and leaves: the sink of every
    /// trapezoid is a leaf that designates it, and every leaf designates a trapezoid whose
    /// sink it is.
    pub open spec fn bijective(self) -> bool {
        &&& forall|t: int| 0 <= t < self.trapezoids.len() ==> #[trigger] self.paired(t)
        &&& forall|q: int| 0 <= q < self.nodes.len() ==> #[trigger] self.leaf_returns(q)
    }

    /// Whether every trapezoid has a positive height and is fenced by its segments.
    pub open spec fn shaped(self) -> bool {
        forall|t: int| 0 <= t < self.trapezoids.len() ==> #[trigger] self.formed(t)
    }

    /// Whether every search ends in a trapezoid whose region holds the point searched for.
    pub open spec fn covering(self) -> bool {
        forall|p: Point| self.contains(#[trigger] self.locate(p), p)
    }

    /// Whether a trapezoid whose region holds a point is the one in which the search for
    /// that point ends.
    pub open spec fn exclusive(self) -> bool {
        forall|t: int, p: Point|
            0 <= t < self.trapezoids.len() && #[trigger] self.contains(t, p) ==> self.locate(p)
                == t
    }

    /// Whether every inner point of every segment is found in a trapezoid that has this
    /// segment as its left bound. (A point on a segment counts as right of it.)
    pub open spec fn seated(self) -> bool {
        forall|k: int, p: Point|
            0 <= k < self.segments.len() && #[trigger] self.segments[k].runs_through(p) ==> (
            self.trapezoids[self.locate(p)]@.left matches Some(si) && si@ == k)
    }

    /// Whether every inner point of each of the first `n` segments is found in a trapezoid
    /// that has this segment as its left bound.
    pub open spec fn seated_below(self, n: int) -> bool {
        forall|k: int, p: Point|
            0 <= k < n && k < self.segments.len() && #[trigger] self.segments[k].runs_through(p)
                ==> (self.trapezoids[self.locate(p)]@.left matches Some(si) && si@ == k)
    }

    /// Whether the segments keep apart from each other: a point of two of them is an
    /// endpoint of both.
    pub open spec fn apart_all(self) -> bool {
        forall|j: int, k: int|
            0 <= j < k < self.segments.len() ==> apart(
                #[trigger] self.segments[j],
                #[trigger] self.segments[k],
            )
    }

    /// The invariant of a decomposition: it is sound, every segment is the left bound of
    /// the trapezoids in which its inner points are found, the segments keep apart from
    /// each other, and every trapezoid ends, below and above, at the height of a vertex
    /// between its sides.
    pub open spec fn wf(self) -> bool {
        self.sound() && self.seated() && self.apart_all() && self.settled()
    }

    /// Whether the decomposition is sound: the query DAG descends from a root in range,
    /// every segment is well formed, trapezoids and leaves correspond one to one, every
    /// trapezoid is shaped, and the regions of the trapezoids partition the plane in the
    /// way the query DAG tells.
    pub open spec fn sound(self) -> bool {
        &&& descending(self.nodes)
        &&& 0 <= self.root < self.nodes.len()
        &&& forall|s: int| 0 <= s < self.segments.len() ==> (#[trigger] self.segments[s]).wf()
        &&& self.bijective()
        &&& self.shaped()
        &&& self.covering()
        &&& self.exclusive()
    }
}

/// A search that starts in range ends at a leaf in range, at or behind its start.
pub proof fn lemma_leaf_for_is_leaf(nodes: Seq<QueryNode>, q: int, p: Point)
    requires
        descending(nodes),
        0 <= q < nodes.len(),
    ensures
        q <= leaf_for(nodes, q, p) < nodes.len(),
        nodes[leaf_for(nodes, q, p)] is Sink,
    decreases nodes.len() - q,
{
    match nodes[q] {
        QueryNode::Branch(left, right, test) => {
            if test.sends_left(p) {
                lemma_leaf_for_is_leaf(nodes, left@, p);
            } else {
                lemma_leaf_for_is_leaf(nodes, right@, p);
            }
        },
        QueryNode::Sink(_) => {},
    }
}

} // verus!

//! The trapezoidation: the arenas of segments, vertex events, trapezoids and query nodes,
//! and point location in them.

use crate::geom::{Coords, Nexus, Point, Segment};
use crate::idx::{
    Arena, NexusIdx, Nexuses, QueryIdx, QueryNodes, SegmentIdx, Segments, TrapezoidIdx,
    Trapezoids,
};
use crate::laws::lemma_locate_finds_the_region;
use crate::model::{designated, leaf_for, lemma_leaf_for_is_leaf, Decomposition};
use crate::querynode::QueryNode;
use crate::trapezoid::Trapezoid;
use vstd::prelude::*;

verus! {

/// A trapezoidal decomposition of the plane together with its point-location DAG.
pub struct Trapezoidation {
    pub(crate) segments: Arena<Segment, Segments>,
    pub(crate) nexuses: Arena<Nexus, Nexuses>,
    pub(crate) trapezoids: Arena<Trapezoid, Trapezoids>,
    pub(crate) query_nodes: Arena<QueryNode, QueryNodes>,
    pub(crate) root: QueryIdx,
}

impl View for Trapezoidation {
    type V = Decomposition;

    open(crate) spec fn view(&self) -> Decomposition {
        Decomposition {
            segments: self.segments@,
            nexuses: self.nexuses@,
            trapezoids: self.trapezoids@,
            nodes: self.query_nodes@,
            root: self.root@,
        }
    }
}

impl Trapezoidation {
    /// The decomposition of the plane without segments: one trapezoid, unbounded on all
    /// four sides, and one leaf that designates it.
    pub fn new() -> (whole: Self)
        ensures
            whole@.wf(),
            whole@.segments.len() == 0,
            whole@.nexuses.len() == 0,
            whole@.trapezoids.len() == 1,
            whole@.nodes.len() == 1,
            whole@.root == 0,
            whole@.nodes[0] is Sink,
            designated(whole@.nodes[0]) == 0,
            whole@.trapezoids[0]@.left is None,
            whole@.trapezoids[0]@.right is None,
            whole@.trapezoids[0]@.down is None,
            whole@.trapezoids[0]@.up is None,
            whole@.trapezoids[0]@.sink@ == 0,
    {
        let mut trapezoids: Arena<Trapezoid, Trapezoids> = Arena::new();
        let mut query_nodes: Arena<QueryNode, QueryNodes> = Arena::new();
        let root = QueryIdx::new(0);
        let ti = trapezoids.allocate(Trapezoid::all(root));
        let qi = query_nodes.allocate(QueryNode::root(ti));
        let whole = Trapezoidation {
            segments: Arena::new(),
            nexuses: Arena::new(),
            trapezoids,
            query_nodes,
            root,
        };
        proof {
            let d = whole@;
            assert(d.paired(0));
            assert(d.leaf_returns(0));
            assert(d.formed(0));
            assert(d.based(0));
            assert forall|p: Point| d.contains(#[trigger] d.locate(p), p) by {
                assert(leaf_for(d.nodes, 0, p) == 0);
            }
            assert forall|t: int, p: Point|
                0 <= t < d.trapezoids.len() && #[trigger] d.contains(t, p) implies d.locate(p)
                == t by {
                assert(leaf_for(d.nodes, 0, p) == 0);
            }
        }
        whole
    }

    /// Every slot of the four arenas can be named by a handle.
    pub proof fn lemma_sizes_fit(&self)
        ensures
            self@.segments.len() <= usize::MAX,
            self@.nexuses.len() <= usize::MAX,
            self@.trapezoids.len() <= usize::MAX,
            self@.nodes.len() <= usize::MAX,
    {
        self.segments.lemma_len_fits();
        self.nexuses.lemma_len_fits();
        self.trapezoids.lemma_len_fits();
        self.query_nodes.lemma_len_fits();
    }

    /// The root of the query DAG.
    pub fn root(&self) -> (qi: QueryIdx)
        ensures
            qi@ == self@.root,
    {
        self.root
    }

    /// The number of trapezoids.
    pub fn trapezoid_count(&self) -> (n: usize)
        ensures
            n == self@.trapezoids.len(),
    {
        self.trapezoids.len()
    }

    /// The number of query nodes.
    pub fn query_node_count(&self) -> (n: usize)
        ensures
            n == self@.nodes.len(),
    {
        self.query_nodes.len()
    }

    /// The number of inserted segments.
    pub fn segment_count(&self) -> (n: usize)
        ensures
            n == self@.segments.len(),
    {
        self.segments.len()
    }

    /// The number of vertex events.
    pub fn nexus_count(&self) -> (n: usize)
        ensures
            n == self@.nexuses.len(),
    {
        self.nexuses.len()
    }

    /// The trapezoid that `ti` names.
    pub fn trapezoid(&self, ti: TrapezoidIdx) -> (t: &Trapezoid)
        requires
            0 <= ti@ < self@.trapezoids.len(),
        ensures
            *t == self@.trapezoids[ti@],
    {
        self.trapezoids.get(ti)
    }

    /// The query node that `qi` names.
    pub fn query_node(&self, qi: QueryIdx) -> (node: &QueryNode)
        requires
            0 <= qi@ < self@.nodes.len(),
        ensures
            *node == self@.nodes[qi@],
    {
        self.query_nodes.get(qi)
    }

    /// The segment that `si` names.
    pub fn segment(&self, si: SegmentIdx) -> (s: &Segment)
        requires
            0 <= si@ < self@.segments.len(),
        ensures
            *s == self@.segments[si@],
    {
        self.segments.get(si)
    }

    /// The vertex event that `ni` names.
    pub fn nexus(&self, ni: NexusIdx) -> (n: &Nexus)
        requires
            0 <= ni@ < self@.nexuses.len(),
        ensures
            *n == self@.nexuses[ni@],
    {
        self.nexuses.get(ni)
    }

    /// All query nodes, in the order of their handles.
    pub fn query_nodes(&self) -> (nodes: &[QueryNode])
        ensures
            nodes@ == self@.nodes,
    {
        self.query_nodes.as_slice()
    }

    /// Finds the trapezoid whose region holds `p` by a descent through the query DAG from
    /// its root. The result depends on the decomposition and the point alone; it is the
    /// one trapezoid whose region holds `p`.
    pub fn locate(&self, p: Coords) -> (ti: TrapezoidIdx)
        requires
            self@.wf(),
        ensures
            ti@ == self@.locate(p.point()),
            0 <= ti@ < self@.trapezoids.len(),
            forall|t: int|
                0 <= t < self@.trapezoids.len() ==> (self@.contains(t, p.point()) <==> t
                    == ti@),
    {
        let mut qi = self.root;
        proof {
            lemma_leaf_for_is_leaf(self@.nodes, self@.root, p.point());
        }
        loop
            invariant
                self@.wf(),
                0 <= qi@ < self@.nodes.len(),
                leaf_for(self@.nodes, qi@, p.point()) == leaf_for(
                    self@.nodes,
                    self@.root,
                    p.point(),
                ),
            decreases self@.nodes.len() - qi@,
        {
            match self.query_nodes.get(qi) {
                QueryNode::Branch(left, right, test) => {
                    if test.goes_left(p) {
                        qi = *left;
                    } else {
                        qi = *right;
                    }
                },
                QueryNode::Sink(ti) => {
                    proof {
                        lemma_locate_finds_the_region(self@, p.point());
                    }
                    return *ti;
                },
            }
        }
    }
}

} // verus!

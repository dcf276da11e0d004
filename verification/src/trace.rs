//! Following a segment through the decomposition: which trapezoids it runs through, and
//! whether it can run through each of them.

use crate::geom::{orientation_at, Segment};
use crate::idx::{NexusIdx, SegmentIdx, TrapezoidIdx};
use crate::route::{corner, leaf_under, lemma_leaf_under_is_leaf};
use crate::querynode::QueryNode;
use crate::trapezoid::Trapezoid;
use crate::trapezoidation::Trapezoidation;
use vstd::prelude::*;

verus! {

/// Decides whether `y` is the height of an endpoint of `s` and of an endpoint of `e`.
fn at_corner(e: &Segment, s: &Segment, y: i32) -> (yes: bool)
    ensures
        yes == corner(*e, *s, y as int),
{
    (y == s.lo.y || y == s.hi.y) && (y == e.lo.y || y == e.hi.y)
}

impl Trapezoidation {
    /// Finds the trapezoid that holds the part of `s` just below height `d` by a descent
    /// through the query DAG from its root.
    pub fn locate_under(&self, s: &Segment, d: i32) -> (ti: TrapezoidIdx)
        requires
            self@.wf(),
        ensures
            ti == self@.under(*s, d as int),
            0 <= ti@ < self@.trapezoids.len(),
    {
        let mut qi = self.root;
        proof {
            lemma_leaf_under_is_leaf(self@.nodes, self@.root, *s, d as int);
        }
        loop
            invariant
                self@.wf(),
                0 <= qi@ < self@.nodes.len(),
                leaf_under(self@.nodes, qi@, *s, d as int) == leaf_under(
                    self@.nodes,
                    self@.root,
                    *s,
                    d as int,
                ),
            decreases self@.nodes.len() - qi@,
        {
            match self.query_nodes.get(qi) {
                QueryNode::Branch(left, right, test) => {
                    if test.goes_left_under(s, d) {
                        qi = *left;
                    } else {
                        qi = *right;
                    }
                },
                QueryNode::Sink(ti) => {
                    proof {
                        assert(self@.leaf_returns(qi@));
                    }
                    return *ti;
                },
            }
        }
    }

    /// The height of a lower bound, or that of the lower endpoint of `s` where the bound
    /// is absent or lower.
    fn low_of(&self, bound: Option<NexusIdx>, s: &Segment) -> (y: i32)
        requires
            bound matches Some(ni) ==> 0 <= ni@ < self@.nexuses.len(),
        ensures
            y == self@.low(bound, *s),
    {
        match bound {
            Some(ni) => {
                let h = self.nexuses.get(ni).height();
                if h > s.lo.y {
                    h
                } else {
                    s.lo.y
                }
            },
            None => s.lo.y,
        }
    }

    fn clears_on_left(&self, bound: Option<SegmentIdx>, s: &Segment, y0: i32, y1: i32) -> (clear: bool)
        requires
            bound matches Some(si) ==> 0 <= si@ < self@.segments.len(),
        ensures
            clear == self@.left_clears(bound, *s, y0 as int, y1 as int),
    {
        match bound {
            Some(si) => {
                let e = self.segments.get(si);
                let o0 = orientation_at(e.lo, e.hi, s.lo, s.hi, y0);
                let o1 = orientation_at(e.lo, e.hi, s.lo, s.hi, y1);
                o0 <= 0 && o1 <= 0 && (o0 < 0 || o1 < 0) && (o0 != 0 || at_corner(e, s, y0)) && (o1
                    != 0 || at_corner(e, s, y1))
            },
            None => true,
        }
    }

    fn clears_on_right(&self, bound: Option<SegmentIdx>, s: &Segment, y0: i32, y1: i32) -> (clear: bool)
        requires
            bound matches Some(si) ==> 0 <= si@ < self@.segments.len(),
        ensures
            clear == self@.right_clears(bound, *s, y0 as int, y1 as int),
    {
        match bound {
            Some(si) => {
                let e = self.segments.get(si);
                let o0 = orientation_at(e.lo, e.hi, s.lo, s.hi, y0);
                let o1 = orientation_at(e.lo, e.hi, s.lo, s.hi, y1);
                o0 >= 0 && o1 >= 0 && (o0 > 0 || o1 > 0) && (o0 != 0 || at_corner(e, s, y0)) && (o1
                    != 0 || at_corner(e, s, y1))
            },
            None => true,
        }
    }

    /// Decides whether `s` can run through trapezoid `ti` downwards from height `d`.
    fn can_cross(&self, ti: TrapezoidIdx, s: &Segment, d: i32, top: bool) -> (yes: bool)
        requires
            self@.wf(),
            0 <= ti@ < self@.trapezoids.len(),
        ensures
            yes == self@.crossable(ti@, *s, d as int, top),
    {
        proof {
            assert(self@.paired(ti@));
        }
        let t: &Trapezoid = self.trapezoids.get(ti);
        let below = match t.down() {
            Some(ni) => self.nexuses.get(ni).height() < d,
            None => true,
        };
        let above = match t.up() {
            Some(ni) => if top {
                d <= self.nexuses.get(ni).height()
            } else {
                self.nexuses.get(ni).height() == d
            },
            None => top,
        };
        let y0 = self.low_of(t.down(), s);
        below && above && self.clears_on_left(t.left(), s, y0, d) && self.clears_on_right(
            t.right(),
            s,
            y0,
            d,
        )
    }

    /// Follows `s` from its upper endpoint down to its lower one and lists the trapezoids
    /// through which it runs, from top to bottom; the flag tells whether it can run
    /// through each of them. The list is complete only where the flag is set.
    pub fn trace(&self, s: &Segment) -> (found: (Vec<TrapezoidIdx>, bool))
        requires
            self@.wf(),
            s.wf(),
        ensures
            found.1 == self@.admits(*s),
            found.1 ==> found.0@ == self@.path(*s) && self@.traced(found.0@, *s),
    {
        let mut path: Vec<TrapezoidIdx> = Vec::new();
        let mut d: i32 = s.hi.y;
        let mut top: bool = true;
        loop
            invariant
                self@.wf(),
                s.wf(),
                s.lo.y < d <= s.hi.y,
                top == (path@.len() == 0),
                top ==> d == s.hi.y,
                self@.admits(*s) == self@.clear_below(*s, d as int, top),
                self@.path(*s) == path@ + self@.crossing(*s, d as int),
                forall|j: int|
                    0 <= j < path@.len() ==> 0 <= (#[trigger] path@[j])@ < self@.trapezoids.len()
                        && self@.crossable(path@[j]@, *s, self@.entry(path@, *s, j), j == 0)
                        && s.lo.y < self@.entry(path@, *s, j) <= s.hi.y
                        && !self@.ends_in(path@[j]@, *s) && d <= self@.low(
                        self@.trapezoids[path@[j]@]@.down,
                        *s,
                    ),
                !top ==> d == self@.low(self@.trapezoids[path@[path@.len() - 1]@]@.down, *s),
                forall|j: int, k: int|
                    0 <= j < k < path@.len() ==> (#[trigger] path@[j])@ != (#[trigger] path@[k])@,
            decreases d - s.lo.y,
        {
            let ti = self.locate_under(s, d);
            if !self.can_cross(ti, s, d, top) {
                return (path, false);
            }
            proof {
                assert(self@.paired(ti@));
                assert(self@.formed(ti@));
            }
            let ghost before = path@;
            path.push(ti);
            proof {
                assert(path@ =~= before + seq![ti]);
                assert forall|j: int| 0 <= j < before.len() implies before[j]@ != ti@ by {
                    assert(before[j] == path@[j]);
                }
                assert forall|j: int| 0 <= j < path@.len() implies self@.entry(path@, *s, j)
                    == self@.entry(before.push(ti), *s, j) by {}
            }
            let lower = self.trapezoids.get(ti).down();
            let next: Option<i32> = match lower {
                Some(ni) => {
                    let h = self.nexuses.get(ni).height();
                    if h > s.lo.y {
                        Some(h)
                    } else {
                        None
                    }
                },
                None => None,
            };
            match next {
                Some(h) => {
                    proof {
                        assert(before + (seq![ti] + self@.crossing(*s, h as int)) =~= path@
                            + self@.crossing(*s, h as int));
                    }
                    d = h;
                    top = false;
                },
                None => {
                    proof {
                        assert(self@.crossing(*s, d as int) =~= seq![ti]);
                        assert(before + seq![ti] =~= path@);
                    }
                    return (path, true);
                },
            }
        }
    }

    /// Decides whether `s` can be inserted, without changing anything. A well-formed
    /// segment that keeps apart from the inserted segments can.
    pub fn admits(&self, s: &Segment) -> (yes: bool)
        requires
            self@.wf(),
        ensures
            yes == self@.admits(*s),
            yes <==> s.wf() && self@.clear_of(*s),
    {
        proof {
            crate::clear::lemma_admits_means_apart(self@, *s);
        }
        if s.lo.y < s.hi.y {
            let (_, clear) = self.trace(s);
            clear
        } else {
            false
        }
    }
}

} // verus!

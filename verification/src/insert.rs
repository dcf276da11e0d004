//! Insertion of one segment: the trapezoids through which it runs are cut at its two
//! endpoints, then split along it from top to bottom, and parts that the segment
//! separates from the vertex that once divided them are merged again.

use crate::geom::{apart, Nexus, Point, Segment};
use crate::idx::{handle, SegmentIdx, TrapezoidIdx};
use crate::clear::lemma_admits_means_apart;
use crate::effect::{
    lemma_divided, lemma_fenced_step, lemma_grown, lemma_seated, lemma_staged,
};
use crate::route::{lemma_ready, lemma_traced_grown, lemma_traced_topped, on_path};
use crate::settle::{lemma_primed, lemma_settle_first, lemma_settle_last, lemma_settle_step};
use crate::trapezoidation::Trapezoidation;
use vstd::prelude::*;

verus! {

/// Why a segment was not inserted.
#[derive(Clone, Copy, Debug, PartialEq, Eq, Structural)]
pub enum InsertError {
    /// The two endpoints of the segment are at the same height.
    Flat,
    /// The segment does not keep apart from a segment inserted before: it crosses,
    /// overlaps or touches it. Two segments may share a vertex.
    Blocked,
}

/// Decides whether two bounds are the same segment, or both absent.
fn same_bound(a: Option<SegmentIdx>, b: Option<SegmentIdx>) -> (same: bool)
    ensures
        same == (a == b),
{
    match (a, b) {
        (Some(x), Some(y)) => x == y,
        (None, None) => true,
        _ => false,
    }
}

impl Trapezoidation {
    /// Cuts the first trapezoid of the path of `s` at the height of the upper endpoint of
    /// `s`, where it reaches above it, and tells whether it did.
    fn cut_top(&mut self, s: Segment, path: &Vec<TrapezoidIdx>) -> (open: bool)
        requires
            old(self)@.sound(),
            s.wf(),
            old(self)@.traced(path@, s),
        ensures
            final(self)@.sound(),
            open == old(self)@.open_above(path@[0]@, s),
            final(self)@ == (if open {
                old(self)@.with_nexus(Nexus { at: s.hi }).cut(
                    path@[0]@,
                    handle(old(self)@.nexuses.len() as int),
                )
            } else {
                old(self)@
            }),
            final(self)@.traced_with(path@, s, false),
            final(self)@.sliced(old(self)@, open, path@[0]@, s.hi.y as int),
            !open ==> old(self)@.bound_at(old(self)@.trapezoids[path@[0]@]@.up, s.hi.y as int),
    {
        let top = path[0];
        proof {
            assert(self@.paired(top@));
        }
        let open = match self.trapezoids.get(top).up() {
            Some(u) => self.nexuses.get(u).height() > s.hi.y,
            None => true,
        };
        let ghost d1 = self@;
        if open {
            let ni = self.nexuses.allocate(Nexus::new(s.hi));
            proof {
                assert(self@ == d1.with_nexus(Nexus { at: s.hi }));
                lemma_grown(d1, self@);
                lemma_traced_grown(d1, self@, path@, s, true);
                assert(self@.paired(top@));
            }
            let ghost d2 = self@;
            let _ = self.cut_at(top, ni);
            proof {
                lemma_traced_topped(d2, self@, path@, s);
                assert forall|p: Point| #[trigger]
                    self@.locate(p) == d1.relocated(
                        p,
                        top@,
                        p.y < s.hi.y as real,
                        top@,
                        d1.trapezoids.len() as int,
                    ) by {
                    assert(d2.locate(p) == d1.locate(p));
                }
            }
        } else {
            proof {
                lemma_traced_topped(d1, d1, path@, s);
            }
        }
        open
    }

    /// Cuts the last trapezoid of the path of `s` at the height of the lower endpoint of
    /// `s`, where it reaches below it, and tells whether it did. In `path` the part above
    /// the cut takes the place of the whole.
    fn cut_bottom(&mut self, s: Segment, path: &mut Vec<TrapezoidIdx>) -> (short: bool)
        requires
            old(self)@.sound(),
            s.wf(),
            old(self)@.traced_with(old(path)@, s, false),
        ensures
            final(self)@.sound(),
            short == old(self)@.open_below(old(path)@[old(path)@.len() - 1]@, s),
            final(self)@ == (if short {
                old(self)@.with_nexus(Nexus { at: s.lo }).cut(
                    old(path)@[old(path)@.len() - 1]@,
                    handle(old(self)@.nexuses.len() as int),
                )
            } else {
                old(self)@
            }),
            final(path)@ == (if short {
                old(path)@.update(
                    old(path)@.len() - 1,
                    handle(old(self)@.trapezoids.len() as int),
                )
            } else {
                old(path)@
            }),
            final(self)@.ready(final(path)@, s),
            final(self)@.sliced(
                old(self)@,
                short,
                old(path)@[old(path)@.len() - 1]@,
                s.lo.y as int,
            ),
            !short ==> old(self)@.bound_at(
                old(self)@.trapezoids[old(path)@[old(path)@.len() - 1]@]@.down,
                s.lo.y as int,
            ),
    {
        let k = path.len();
        let bottom = path[k - 1];
        proof {
            assert(self@.paired(bottom@));
            self.lemma_sizes_fit();
        }
        let short = match self.trapezoids.get(bottom).down() {
            Some(n) => self.nexuses.get(n).height() < s.lo.y,
            None => true,
        };
        let ghost d3 = self@;
        if short {
            let ni = self.nexuses.allocate(Nexus::new(s.lo));
            proof {
                assert(self@ == d3.with_nexus(Nexus { at: s.lo }));
                lemma_grown(d3, self@);
                lemma_traced_grown(d3, self@, path@, s, false);
                assert(self@.paired(bottom@));
            }
            let ghost d4 = self@;
            let upper = self.cut_at(bottom, ni);
            proof {
                lemma_ready(d4, self@, path@, upper, s);
                assert forall|p: Point| #[trigger]
                    self@.locate(p) == d3.relocated(
                        p,
                        bottom@,
                        p.y < s.lo.y as real,
                        bottom@,
                        d3.trapezoids.len() as int,
                    ) by {
                    assert(d4.locate(p) == d3.locate(p));
                }
            }
            path.set(k - 1, upper);
        } else {
            proof {
                lemma_ready(d3, d3, path@, bottom, s);
                assert(path@.update(k - 1, bottom) =~= path@);
            }
        }
        short
    }

    /// Stores `s` and cuts the first and the last trapezoid of its path at the heights of
    /// its upper and lower endpoint, where they reach beyond them. In `path` the part of
    /// the last trapezoid above the cut takes the place of the whole.
    fn prepare(&mut self, s: Segment, path: &mut Vec<TrapezoidIdx>) -> (si: SegmentIdx)
        requires
            old(self)@.wf(),
            old(self)@.clear_of(s),
            s.wf(),
            old(self)@.traced(old(path)@, s),
        ensures
            final(self)@.sound(),
            final(self)@ == old(self)@.prepared(s, old(path)@),
            final(path)@ == old(self)@.prepared_path(s, old(path)@),
            si@ == old(self)@.segments.len(),
            final(self)@.segments == old(self)@.segments.push(s),
            final(self)@.ready(final(path)@, s),
            final(self)@.primed(final(path)@, si),
            final(self)@.settled_off(final(path)@),
            forall|p: Point| #[trigger]
                final(self)@.staged(old(self)@, old(path)@, final(path)@, s, p),
    {
        let ghost d0 = self@;
        let ghost path0 = path@;
        let si = self.segments.allocate(s);
        let ghost d1 = self@;
        proof {
            assert(d1 == d0.with_segment(s));
            lemma_grown(d0, d1);
            lemma_traced_grown(d0, d1, path@, s, true);
        }
        let open = self.cut_top(s, path);
        let ghost d3 = self@;
        proof {
            self.lemma_sizes_fit();
        }
        let short = self.cut_bottom(s, path);
        proof {
            let d5 = self@;
            lemma_staged(d0, d1, d3, d5, path0, path@, s, open, short);
            lemma_primed(d0, d1, d3, d5, path0, path@, s, si, open, short);
        }
        si
    }

    /// Splits the trapezoids of `path` along segment `si`, from top to bottom. Where the
    /// part on one side has the same outer bound as the part above it, the two are one
    /// trapezoid: the upper one grows downwards.
    fn thread(&mut self, si: SegmentIdx, path: &Vec<TrapezoidIdx>)
        requires
            old(self)@.sound(),
            0 <= si@ < old(self)@.segments.len(),
            old(self)@.ready(path@, old(self)@.segments[si@]),
            old(self)@.primed(path@, si),
            old(self)@.settled_off(path@),
        ensures
            final(self)@.sound(),
            final(self)@.settled(),
            final(self)@ == old(self)@.split_along(si, path@),
            final(self)@.segments == old(self)@.segments,
            final(self)@.nexuses == old(self)@.nexuses,
            forall|p: Point| #[trigger] final(self)@.fenced_off(old(self)@, path@, si, p),
    {
        let ghost start = self@;
        let ghost s = start.segments[si@];
        let ghost goal = start.split_along(si, path@);
        let k = path.len();
        let first = path[0];
        let mut left = first;
        proof {
            assert(start.paired(first@));
        }
        let mut right = self.fence(first, si);
        proof {
            self.lemma_sizes_fit();
            assert forall|p: Point| #[trigger] start.fenced_upto(start, path@, 0, si, p) by {}
            lemma_fenced_step(start, start, self@, path@, 0, 1, si, left@, right@);
            lemma_settle_first(start, self@, path@, si);
        }
        let mut i: usize = 1;
        while i < k
            invariant
                self@.sound(),
                start.sound(),
                1 <= i <= k,
                k == path@.len(),
                goal == self@.threaded(si, path@, i as int, left, right),
                start.primed(path@, si),
                start.settled_off(path@),
                self@.settled_but(path@, i as int, left@, right@),
                self@.parts_of(start, path@[i - 1]@, si, left@, right@),
                forall|p: Point| #[trigger] self@.fenced_upto(start, path@, i as int, si, p),
                left@ >= start.trapezoids.len() || on_path(path@, 0, left@),
                right@ >= start.trapezoids.len() || on_path(path@, 0, right@),
                self@.segments == start.segments,
                self@.nexuses == start.nexuses,
                self@.root == start.root,
                0 <= si@ < start.segments.len(),
                s == start.segments[si@],
                start.ready(path@, s),
                start.trapezoids.len() <= self@.trapezoids.len(),
                start.nodes.len() <= self@.nodes.len(),
                forall|j: int|
                    i <= j < k ==> self@.trapezoids[(#[trigger] path@[j])@]
                        == start.trapezoids[path@[j]@] && path@[j]@ != left@ && path@[j]@
                        != right@,
                0 <= left@ < self@.trapezoids.len(),
                0 <= right@ < self@.trapezoids.len(),
                left@ != right@,
                self@.trapezoids[left@]@.right == Some(si),
                self@.trapezoids[right@]@.left == Some(si),
                self@.trapezoids[left@]@.sink@ >= start.nodes.len(),
                self@.trapezoids[right@]@.sink@ >= start.nodes.len(),
                self@.trapezoids[left@]@.down == start.trapezoids[path@[i - 1]@]@.down,
                self@.trapezoids[right@]@.down == start.trapezoids[path@[i - 1]@]@.down,
            decreases k - i,
        {
            let ti = path[i];
            proof {
                assert(start.paired(ti@));
                assert(start.passable(ti@, s));
                assert(start.stacked(path@[i - 1]@, path@[i - 1 + 1]@));
                assert(self@.trapezoids[ti@] == start.trapezoids[ti@]);
            }
            let here = *self.trapezoids.get(ti);
            let ghost before = self@;
            let ghost was_left = left@;
            let ghost was_right = right@;
            let ghost kind: int;
            if same_bound(self.trapezoids.get(left).left(), here.left()) {
                self.fence_joining_left(ti, si, left);
                right = ti;
                proof {
                    kind = 1;
                }
            } else if same_bound(self.trapezoids.get(right).right(), here.right()) {
                self.fence_joining_right(ti, si, right);
                left = ti;
                proof {
                    kind = 2;
                }
            } else {
                let beyond = self.fence(ti, si);
                left = ti;
                right = beyond;
                proof {
                    kind = 0;
                }
            }
            proof {
                self.lemma_sizes_fit();
                lemma_fenced_step(
                    start,
                    before,
                    self@,
                    path@,
                    i as int,
                    i + 1,
                    si,
                    left@,
                    right@,
                );
                lemma_settle_step(
                    start,
                    before,
                    self@,
                    path@,
                    i as int,
                    i + 1,
                    si,
                    was_left,
                    was_right,
                    kind,
                );
            }
            i += 1;
        }
        proof {
            assert forall|p: Point| #[trigger] self@.fenced_off(start, path@, si, p) by {
                assert(self@.fenced_upto(start, path@, k as int, si, p));
            }
            lemma_settle_last(start, self@, path@, si, left@, right@);
        }
    }

    /// Inserts segment `s`. It is inserted exactly when it is well formed and keeps apart
    /// from the segments inserted before: it shares with each at most vertices. The
    /// trapezoids through which `s` runs are found first; where `s` cannot run through
    /// one of them nothing is changed. Else the topmost and the
    /// lowest of them are cut at the heights of the endpoints of `s`, and each is split
    /// along `s`: a point of a trapezoid through which `s` does not run is found where it
    /// was, a point beside `s` in a trapezoid through which it runs is found in a
    /// trapezoid bounded by `s`.
    pub fn insert(&mut self, s: Segment) -> (outcome: Result<SegmentIdx, InsertError>)
        requires
            old(self)@.wf(),
        ensures
            final(self)@.wf(),
            outcome is Ok <==> s.wf() && old(self)@.clear_of(s),
            match outcome {
                Ok(si) => {
                    &&& old(self)@.admits(s)
                    &&& final(self)@ == old(self)@.inserted(s)
                    &&& final(self)@.segments == old(self)@.segments.push(s)
                    &&& si@ == old(self)@.segments.len()
                    &&& forall|p: Point| #[trigger] final(self)@.divided(old(self)@, s, si, p)
                },
                Err(InsertError::Flat) => !s.wf() && final(self)@ == old(self)@,
                Err(InsertError::Blocked) => s.wf() && !old(self)@.admits(s) && final(self)@
                    == old(self)@,
            },
    {
        if !(s.lo.y < s.hi.y) {
            return Err(InsertError::Flat);
        }
        proof {
            lemma_admits_means_apart(self@, s);
        }
        let (mut path, clear) = self.trace(&s);
        if !clear {
            return Err(InsertError::Blocked);
        }
        let si = self.prepare(s, &mut path);
        let ghost middle = self@;
        self.thread(si, &path);
        proof {
            lemma_divided(old(self)@, middle, self@, path@, s, si);
            lemma_seated(old(self)@, self@, s, si);
            assert(self@.apart_all()) by {
                assert forall|j: int, k: int| 0 <= j < k < self@.segments.len() implies apart(
                    #[trigger] self@.segments[j],
                    #[trigger] self@.segments[k],
                ) by {
                    if k < old(self)@.segments.len() {
                        assert(apart(old(self)@.segments[j], old(self)@.segments[k]));
                    } else {
                        assert(apart(old(self)@.segments[j], s));
                    }
                }
            }
        }
        Ok(si)
    }

    /// Inserts the segments of `segments` one after another, and stops at the first that
    /// is not inserted: the error tells its position and why.
    pub fn insert_all(&mut self, segments: &[Segment]) -> (outcome: Result<(), (usize, InsertError)>)
        requires
            old(self)@.wf(),
        ensures
            final(self)@.wf(),
            outcome is Ok ==> {
                &&& old(self)@.admits_all(segments@)
                &&& final(self)@ == old(self)@.inserted_all(segments@)
                &&& final(self)@.segments == old(self)@.segments + segments@
            },
            outcome matches Err(stop) ==> {
                &&& stop.0 < segments@.len()
                &&& old(self)@.admits_all(segments@.take(stop.0 as int))
                &&& final(self)@ == old(self)@.inserted_all(segments@.take(stop.0 as int))
                &&& final(self)@.segments == old(self)@.segments + segments@.take(stop.0 as int)
                &&& !final(self)@.admits(segments@[stop.0 as int])
                &&& stop.1 == (if segments@[stop.0 as int].wf() {
                    InsertError::Blocked
                } else {
                    InsertError::Flat
                })
            },
    {
        let ghost start = self@;
        let mut i: usize = 0;
        proof {
            assert(start.segments + segments@.take(0) =~= start.segments);
        }
        while i < segments.len()
            invariant
                i <= segments@.len(),
                start == old(self)@,
                self@.wf(),
                start.admits_all(segments@.take(i as int)),
                self@ == start.inserted_all(segments@.take(i as int)),
                self@.segments == start.segments + segments@.take(i as int),
            decreases segments@.len() - i,
        {
            proof {
                assert(segments@.take(i + 1).drop_last() =~= segments@.take(i as int));
                assert(segments@.take(i + 1).last() == segments@[i as int]);
                assert((start.segments + segments@.take(i as int)).push(segments@[i as int])
                    =~= start.segments + segments@.take(i + 1));
            }
            match self.insert(segments[i]) {
                Ok(_) => {},
                Err(e) => {
                    return Err((i, e));
                },
            }
            i += 1;
        }
        proof {
            assert(segments@.take(i as int) =~= segments@);
        }
        Ok(())
    }
}

} // verus!

//! Why the lower and upper bound of a trapezoid are where they are: at each of them a
//! vertex lies between the sides of the trapezoid, and none lies in between.

use crate::clear::{lemma_along_inside, lemma_found_inside, lemma_rise_turn};
use crate::geom::{
    apart, lemma_ends_on_line, lemma_one_point_at_a_height, lemma_point_at,
    lemma_turn_at_of_grid, lemma_turn_falls_to_the_right, lemma_turn_of_grid, lies_on, orient,
    orient_at, point_at, turn, Coords, Point, Segment,
};
use crate::idx::{handle, SegmentIdx, TrapezoidIdx};
use crate::model::{extends, Decomposition};
use crate::route::on_path;
use vstd::prelude::*;

verus! {

/// The lower or upper endpoint of a segment.
pub open spec fn end_of(e: Segment, at_hi: bool) -> Coords {
    if at_hi {
        e.hi
    } else {
        e.lo
    }
}

impl Decomposition {
    /// Whether the chosen endpoint of segment `k` is at height `h`, not left of the line
    /// of `a` and not right of the line of `b`.
    pub open spec fn vertex_between(
        self,
        k: int,
        at_hi: bool,
        h: int,
        a: Option<SegmentIdx>,
        b: Option<SegmentIdx>,
    ) -> bool {
        let v = end_of(self.segments[k], at_hi);
        &&& 0 <= k < self.segments.len()
        &&& v.y == h
        &&& match a {
            Some(f) => orient(self.segments[f@].lo, self.segments[f@].hi, v) <= 0,
            None => true,
        }
        &&& match b {
            Some(g) => orient(self.segments[g@].lo, self.segments[g@].hi, v) >= 0,
            None => true,
        }
    }

    /// Whether some vertex is at height `h` between the lines of `a` and `b`.
    pub open spec fn gated(self, h: int, a: Option<SegmentIdx>, b: Option<SegmentIdx>) -> bool {
        exists|k: int, at_hi: bool| #[trigger] self.vertex_between(k, at_hi, h, a, b)
    }

    /// Whether the lower bound of trapezoid `t`, if it has one, is at the height of a
    /// vertex that lies between its sides.
    pub open spec fn grounded(self, t: int) -> bool {
        let z = self.trapezoids[t]@;
        match z.down {
            Some(n) => self.gated(self.nexuses[n@].at.y as int, z.left, z.right),
            None => true,
        }
    }

    /// Whether the upper bound of trapezoid `t`, if it has one, is at the height of a
    /// vertex that lies between its sides.
    pub open spec fn roofed(self, t: int) -> bool {
        let z = self.trapezoids[t]@;
        match z.up {
            Some(n) => self.gated(self.nexuses[n@].at.y as int, z.left, z.right),
            None => true,
        }
    }

    /// Whether both the lower and the upper bound of trapezoid `t` are at the height of a
    /// vertex between its sides.
    pub open spec fn based(self, t: int) -> bool {
        self.grounded(t) && self.roofed(t)
    }

    /// Whether every trapezoid ends, below and above, at the height of a vertex between
    /// its sides.
    pub open spec fn settled(self) -> bool {
        forall|t: int| 0 <= t < self.trapezoids.len() ==> #[trigger] self.based(t)
    }
}

/// A trapezoid holds no vertex of the first `n` segments between its sides and strictly
/// between its heights: a vertex between its sides and above its lower bound is not below
/// its upper bound.
pub proof fn lemma_no_vertex_inside(dec: Decomposition, n: int, t: int, k: int, at_hi: bool)
    requires
        dec.sound(),
        dec.seated_below(n),
        dec.apart_all(),
        0 <= t < dec.trapezoids.len(),
        0 <= k < n,
        dec.vertex_between(
            k,
            at_hi,
            end_of(dec.segments[k], at_hi).y as int,
            dec.trapezoids[t]@.left,
            dec.trapezoids[t]@.right,
        ),
        dec.floor_below(dec.trapezoids[t]@.down, end_of(dec.segments[k], at_hi).y as int),
    ensures
        !dec.ceiling_admits(dec.trapezoids[t]@.up, end_of(dec.segments[k], at_hi).y as real),
{
    let e = dec.segments[k];
    let v = end_of(e, at_hi);
    let h = v.y as int;
    let x = v.point();
    let z = dec.trapezoids[t]@;
    if !dec.ceiling_admits(z.up, h as real) {
        return ;
    }
    assert(dec.paired(t));
    assert(dec.formed(t));
    assert(e.wf());
    lemma_ends_on_line(e);
    lemma_point_at(e.lo, e.hi, h as real);
    lemma_one_point_at_a_height(e.lo, e.hi, x, point_at(e.lo, e.hi, h as real));
    assert(lies_on(e, x));
    if let Some(f) = z.left {
        let ff = dec.segments[f@];
        lemma_turn_of_grid(ff.lo, ff.hi, v);
        if turn(ff.lo, ff.hi, x) == 0real {
            assert(lies_on(ff, x));
            if f@ < k {
                assert(apart(dec.segments[f@], dec.segments[k]));
            } else if k < f@ {
                assert(apart(dec.segments[k], dec.segments[f@]));
            }
            assert(false);
        }
    }
    if let Some(g) = z.right {
        let gg = dec.segments[g@];
        lemma_turn_of_grid(gg.lo, gg.hi, v);
        if turn(gg.lo, gg.hi, x) == 0real {
            assert(lies_on(gg, x));
            if g@ < k {
                assert(apart(dec.segments[g@], dec.segments[k]));
            } else if k < g@ {
                assert(apart(dec.segments[k], dec.segments[g@]));
            }
            assert(false);
        }
    }
    assert(dec.between_sides(t, x));
    let y = lemma_along_inside(dec, t, e, h, !at_hi);
    assert(dec.seated_below(k + 1));
    lemma_found_inside(dec, t, k, point_at(e.lo, e.hi, y));
    assert(false);
}

impl Decomposition {
    /// Whether no trapezoid is bounded by a segment from position `n` on.
    pub open spec fn sides_below(self, n: int) -> bool {
        forall|t: int|
            0 <= t < self.trapezoids.len() ==> match (#[trigger] self.trapezoids[t])@.left {
                Some(f) => f@ < n,
                None => true,
            } && match self.trapezoids[t]@.right {
                Some(g) => g@ < n,
                None => true,
            }
    }

    /// Whether the decomposition is ready for the split along its last segment `si`
    /// through the trapezoids of `path`: it is sound, its segments keep apart, the
    /// segments before the last are the left bounds of the trapezoids of their inner
    /// points and the only bounds, and the trapezoids of the path are ready.
    pub open spec fn primed(self, path: Seq<TrapezoidIdx>, si: SegmentIdx) -> bool {
        &&& self.sound()
        &&& self.apart_all()
        &&& si@ == self.segments.len() - 1
        &&& self.seated_below(si@)
        &&& self.sides_below(si@)
        &&& self.ready(path, self.segments[si@])
        &&& self.bound_at(self.trapezoids[path[0]@]@.up, self.segments[si@].hi.y as int)
        &&& self.bound_at(
            self.trapezoids[path[path.len() - 1]@]@.down,
            self.segments[si@].lo.y as int,
        )
    }

    /// Whether every trapezoid off the path ends at vertices, below and above, and every
    /// trapezoid of the path but the first ends at a vertex above.
    pub open spec fn settled_off(self, path: Seq<TrapezoidIdx>) -> bool {
        &&& forall|t: int|
            0 <= t < self.trapezoids.len() && !on_path(path, 0, t) ==> #[trigger] self.based(t)
        &&& forall|i: int| 1 <= i < path.len() ==> self.roofed((#[trigger] path[i])@)
    }

    /// Whether every trapezoid ends at vertices, below and above, but those of the path
    /// from position `i` on and the trapezoids `l` and `r`; and these two end at a vertex
    /// above.
    pub open spec fn settled_but(self, path: Seq<TrapezoidIdx>, i: int, l: int, r: int) -> bool {
        &&& forall|t: int|
            0 <= t < self.trapezoids.len() && !on_path(path, i, t) && t != l && t != r
                ==> #[trigger] self.based(t)
        &&& self.roofed(l)
        &&& self.roofed(r)
    }

    /// Whether `l` and `r` are the parts on the left and right of the segment `si` of the
    /// trapezoid `t` as it was in `start`, or of what was joined to them: they have its
    /// lower bound, `l` has its left bound and `r` its right bound, and the segment bounds
    /// them on the other side.
    pub open spec fn parts_of(self, start: Decomposition, t: int, si: SegmentIdx, l: int, r: int) -> bool {
        let whole = start.trapezoids[t]@;
        let left = self.trapezoids[l]@;
        let right = self.trapezoids[r]@;
        &&& 0 <= l < self.trapezoids.len()
        &&& 0 <= r < self.trapezoids.len()
        &&& l != r
        &&& left.left == whole.left && left.right == Some(si) && left.down == whole.down
        &&& right.left == Some(si) && right.right == whole.right && right.down == whole.down
    }

    /// The height of the upper bound of trapezoid `t` (0 where it has none).
    pub open spec fn top_of(self, t: int) -> int {
        match self.trapezoids[t]@.up {
            Some(u) => self.nexuses[u@].at.y as int,
            None => 0,
        }
    }
}

/// What is known of the segment that is split along at the height between two
/// trapezoids of its path: the height is strictly between those of its endpoints, and
/// its point at this height lies strictly between the sides of both trapezoids.
proof fn lemma_between_at_joint(dec: Decomposition, path: Seq<TrapezoidIdx>, si: SegmentIdx, i: int)
    requires
        dec.primed(path, si),
        1 <= i < path.len(),
    ensures
        dec.segments[si@].wf(),
        dec.segments[si@].lo.y < dec.top_of(path[i]@) < dec.segments[si@].hi.y,
        dec.between_sides(
            path[i]@,
            point_at(dec.segments[si@].lo, dec.segments[si@].hi, dec.top_of(path[i]@) as real),
        ),
        dec.between_sides(
            path[i - 1]@,
            point_at(dec.segments[si@].lo, dec.segments[si@].hi, dec.top_of(path[i]@) as real),
        ),
        dec.hangs_from(path[i]@, dec.top_of(path[i]@)),
        dec.floor_admits(dec.trapezoids[path[i - 1]@]@.down, dec.top_of(path[i]@) as real),
        dec.ceiling_admits(dec.trapezoids[path[i - 1]@]@.up, dec.top_of(path[i]@) as real),
        dec.trapezoids[path[i]@]@.up is Some,
        dec.trapezoids[path[i - 1]@]@.down is Some,
        turn(
            dec.segments[si@].lo,
            dec.segments[si@].hi,
            point_at(dec.segments[si@].lo, dec.segments[si@].hi, dec.top_of(path[i]@) as real),
        ) == 0real,
{
    let s = dec.segments[si@];
    let up = path[i - 1]@;
    let dn = path[i]@;
    let h = dec.top_of(dn);
    assert(dec.passable(path[i]@, s));
    assert(dec.passable(path[i - 1]@, s));
    assert(dec.stacked(path[i - 1]@, path[i - 1 + 1]@));
    assert(dec.paired(up) && dec.paired(dn));
    assert(dec.formed(up) && dec.formed(dn));
    assert(s.wf());
    lemma_point_at(s.lo, s.hi, h as real);
    if let Some(f) = dec.trapezoids[up]@.left {
        let e = dec.segments[f@];
        lemma_turn_at_of_grid(e.lo, e.hi, s.lo, s.hi, h);
        lemma_rise_turn(e.lo, e.hi, s, h as real);
    }
    if let Some(f) = dec.trapezoids[up]@.right {
        let e = dec.segments[f@];
        lemma_turn_at_of_grid(e.lo, e.hi, s.lo, s.hi, h);
        lemma_rise_turn(e.lo, e.hi, s, h as real);
    }
    if let Some(f) = dec.trapezoids[dn]@.left {
        let e = dec.segments[f@];
        lemma_turn_at_of_grid(e.lo, e.hi, s.lo, s.hi, h);
        lemma_rise_turn(e.lo, e.hi, s, h as real);
    }
    if let Some(f) = dec.trapezoids[dn]@.right {
        let e = dec.segments[f@];
        lemma_turn_at_of_grid(e.lo, e.hi, s.lo, s.hi, h);
        lemma_rise_turn(e.lo, e.hi, s, h as real);
    }
}

/// A segment whose point at height `h` lies strictly between the sides of a trapezoid,
/// of which it is not the left bound, does not go on into the trapezoid: where the
/// trapezoid reaches up from `h`, the segment ends at `h`; where it reaches down to `h`,
/// the segment starts there.
proof fn lemma_bound_ends(dec: Decomposition, n: int, t: int, g: int, h: int, upward: bool)
    requires
        dec.sound(),
        dec.seated_below(n),
        0 <= g < n,
        g < dec.segments.len(),
        0 <= t < dec.trapezoids.len(),
        dec.segments[g].lo.y <= h <= dec.segments[g].hi.y,
        dec.between_sides(t, point_at(dec.segments[g].lo, dec.segments[g].hi, h as real)),
        upward ==> dec.floor_admits(dec.trapezoids[t]@.down, h as real) && dec.ceiling_admits(
            dec.trapezoids[t]@.up,
            h as real,
        ),
        !upward ==> dec.hangs_from(t, h),
        !(dec.trapezoids[t]@.left matches Some(f) && f@ == g),
    ensures
        upward ==> dec.segments[g].hi.y == h,
        !upward ==> dec.segments[g].lo.y == h,
{
    let e = dec.segments[g];
    assert(e.wf());
    if (upward && h < e.hi.y) || (!upward && e.lo.y < h) {
        let y = lemma_along_inside(dec, t, e, h, upward);
        assert(dec.seated_below(g + 1));
        lemma_found_inside(dec, t, g, point_at(e.lo, e.hi, y));
        assert(false);
    }
}

/// What is known of the point at height `h` of a segment that spans this height: it lies
/// on the segment, and an endpoint at this height is this point.
proof fn lemma_point_of(e: Segment, h: int)
    requires
        e.wf(),
        e.lo.y <= h <= e.hi.y,
    ensures
        turn(e.lo, e.hi, point_at(e.lo, e.hi, h as real)) == 0real,
        point_at(e.lo, e.hi, h as real).y == h as real,
        lies_on(e, point_at(e.lo, e.hi, h as real)),
        e.lo.y == h ==> e.lo.point() == point_at(e.lo, e.hi, h as real),
        e.hi.y == h ==> e.hi.point() == point_at(e.lo, e.hi, h as real),
{
    lemma_point_at(e.lo, e.hi, h as real);
    lemma_ends_on_line(e);
    if e.lo.y == h {
        lemma_one_point_at_a_height(e.lo, e.hi, e.lo.point(), point_at(e.lo, e.hi, h as real));
    }
    if e.hi.y == h {
        lemma_one_point_at_a_height(e.lo, e.hi, e.hi.point(), point_at(e.lo, e.hi, h as real));
    }
}

impl Decomposition {
    /// Whether the chosen endpoint of segment `k` is at height `h` and lies between the
    /// lines of `a` and `b` and between those of `a` and `c`, or of `c` and `b` where
    /// `left` is set: between the sides of two trapezoids, one on top of the other, that
    /// have one side in common.
    pub open spec fn vertex_at_joint(
        self,
        k: int,
        at_hi: bool,
        h: int,
        a: Option<SegmentIdx>,
        b: Option<SegmentIdx>,
        c: Option<SegmentIdx>,
        left: bool,
    ) -> bool {
        if left {
            self.vertex_between(k, at_hi, h, a, b) && self.vertex_between(k, at_hi, h, c, b)
        } else {
            self.vertex_between(k, at_hi, h, a, b) && self.vertex_between(k, at_hi, h, a, c)
        }
    }
}

/// Where two trapezoids of the path, one on top of the other, have different right
/// bounds, a vertex lies at the height between them, right of the segment that is split
/// along or on it, and not right of the right bound of either.
proof fn lemma_gate_right(dec: Decomposition, path: Seq<TrapezoidIdx>, si: SegmentIdx, i: int)
    requires
        dec.primed(path, si),
        1 <= i < path.len(),
        dec.trapezoids[path[i - 1]@]@.right != dec.trapezoids[path[i]@]@.right,
    ensures
        exists|k: int, at_hi: bool| #[trigger]
            dec.vertex_at_joint(
                k,
                at_hi,
                dec.top_of(path[i]@),
                Some(si),
                dec.trapezoids[path[i - 1]@]@.right,
                dec.trapezoids[path[i]@]@.right,
                false,
            ),
{
    let s = dec.segments[si@];
    let up = path[i - 1]@;
    let dn = path[i]@;
    let h = dec.top_of(dn);
    let sh = point_at(s.lo, s.hi, h as real);
    lemma_between_at_joint(dec, path, si, i);
    assert(dec.passable(path[i]@, s));
    assert(dec.passable(path[i - 1]@, s));
    assert(dec.stacked(path[i - 1]@, path[i - 1 + 1]@));
    assert(dec.paired(up) && dec.paired(dn));
    assert(dec.formed(up) && dec.formed(dn));
    let zu = dec.trapezoids[up]@;
    let zd = dec.trapezoids[dn]@;
    assert(dec.trapezoids[up] == dec.trapezoids[up]);
    match (zu.right, zd.right) {
        (Some(gu), Some(gd)) => {
            let a = dec.segments[gu@];
            let b = dec.segments[gd@];
            assert(a.wf() && b.wf());
            lemma_point_of(a, h);
            lemma_point_of(b, h);
            let pa = point_at(a.lo, a.hi, h as real);
            let pb = point_at(b.lo, b.hi, h as real);
            lemma_turn_falls_to_the_right(a.lo, a.hi, sh, pa);
            lemma_turn_falls_to_the_right(b.lo, b.hi, sh, pb);
            lemma_turn_falls_to_the_right(s.lo, s.hi, sh, pa);
            lemma_turn_falls_to_the_right(s.lo, s.hi, sh, pb);
            lemma_turn_falls_to_the_right(b.lo, b.hi, pb, pa);
            lemma_turn_falls_to_the_right(a.lo, a.hi, pb, pa);
            if let Some(f) = zd.left {
                let e = dec.segments[f@];
                assert(e.wf());
                lemma_turn_falls_to_the_right(e.lo, e.hi, sh, pa);
            }
            if let Some(f) = zu.left {
                let e = dec.segments[f@];
                assert(e.wf());
                lemma_turn_falls_to_the_right(e.lo, e.hi, sh, pb);
            }
            let c = turn(b.lo, b.hi, pa);
            if c >= 0real {
                if c > 0real {
                    lemma_bound_ends(dec, si@, dn, gu@, h, false);
                } else {
                    if gu@ < gd@ {
                        assert(apart(dec.segments[gu@], dec.segments[gd@]));
                    } else {
                        assert(apart(dec.segments[gd@], dec.segments[gu@]));
                    }
                }
                assert(a.lo.y == h);
                lemma_turn_of_grid(s.lo, s.hi, a.lo);
                lemma_turn_of_grid(a.lo, a.hi, a.lo);
                lemma_turn_of_grid(b.lo, b.hi, a.lo);
                assert(dec.vertex_at_joint(gu@, false, h, Some(si), zu.right, zd.right, false));
            } else {
                lemma_bound_ends(dec, si@, up, gd@, h, true);
                assert(b.hi.y == h);
                lemma_turn_of_grid(s.lo, s.hi, b.hi);
                lemma_turn_of_grid(a.lo, a.hi, b.hi);
                lemma_turn_of_grid(b.lo, b.hi, b.hi);
                assert(dec.vertex_at_joint(gd@, true, h, Some(si), zu.right, zd.right, false));
            }
        },
        (Some(gu), None) => {
            let a = dec.segments[gu@];
            assert(a.wf());
            lemma_point_of(a, h);
            let pa = point_at(a.lo, a.hi, h as real);
            lemma_turn_falls_to_the_right(a.lo, a.hi, sh, pa);
            lemma_turn_falls_to_the_right(s.lo, s.hi, sh, pa);
            if let Some(f) = zd.left {
                let e = dec.segments[f@];
                assert(e.wf());
                lemma_turn_falls_to_the_right(e.lo, e.hi, sh, pa);
            }
            lemma_bound_ends(dec, si@, dn, gu@, h, false);
            lemma_turn_of_grid(s.lo, s.hi, a.lo);
            lemma_turn_of_grid(a.lo, a.hi, a.lo);
            assert(dec.vertex_at_joint(gu@, false, h, Some(si), zu.right, zd.right, false));
        },
        (None, Some(gd)) => {
            let b = dec.segments[gd@];
            assert(b.wf());
            lemma_point_of(b, h);
            let pb = point_at(b.lo, b.hi, h as real);
            lemma_turn_falls_to_the_right(b.lo, b.hi, sh, pb);
            lemma_turn_falls_to_the_right(s.lo, s.hi, sh, pb);
            if let Some(f) = zu.left {
                let e = dec.segments[f@];
                assert(e.wf());
                lemma_turn_falls_to_the_right(e.lo, e.hi, sh, pb);
            }
            lemma_bound_ends(dec, si@, up, gd@, h, true);
            lemma_turn_of_grid(s.lo, s.hi, b.hi);
            lemma_turn_of_grid(b.lo, b.hi, b.hi);
            assert(dec.vertex_at_joint(gd@, true, h, Some(si), zu.right, zd.right, false));
        },
        (None, None) => {},
    }
}

/// Where two trapezoids of the path, one on top of the other, have different left
/// bounds, a vertex lies at the height between them, left of the segment that is split
/// along or on it, and not left of the left bound of either.
proof fn lemma_gate_left(dec: Decomposition, path: Seq<TrapezoidIdx>, si: SegmentIdx, i: int)
    requires
        dec.primed(path, si),
        1 <= i < path.len(),
        dec.trapezoids[path[i - 1]@]@.left != dec.trapezoids[path[i]@]@.left,
    ensures
        exists|k: int, at_hi: bool| #[trigger]
            dec.vertex_at_joint(
                k,
                at_hi,
                dec.top_of(path[i]@),
                dec.trapezoids[path[i - 1]@]@.left,
                Some(si),
                dec.trapezoids[path[i]@]@.left,
                true,
            ),
{
    let s = dec.segments[si@];
    let up = path[i - 1]@;
    let dn = path[i]@;
    let h = dec.top_of(dn);
    let sh = point_at(s.lo, s.hi, h as real);
    lemma_between_at_joint(dec, path, si, i);
    assert(dec.passable(path[i]@, s));
    assert(dec.passable(path[i - 1]@, s));
    assert(dec.stacked(path[i - 1]@, path[i - 1 + 1]@));
    assert(dec.paired(up) && dec.paired(dn));
    assert(dec.formed(up) && dec.formed(dn));
    let zu = dec.trapezoids[up]@;
    let zd = dec.trapezoids[dn]@;
    match (zu.left, zd.left) {
        (Some(fu), Some(fd)) => {
            let a = dec.segments[fu@];
            let b = dec.segments[fd@];
            assert(a.wf() && b.wf());
            lemma_point_of(a, h);
            lemma_point_of(b, h);
            let pa = point_at(a.lo, a.hi, h as real);
            let pb = point_at(b.lo, b.hi, h as real);
            lemma_turn_falls_to_the_right(a.lo, a.hi, pa, sh);
            lemma_turn_falls_to_the_right(b.lo, b.hi, pb, sh);
            lemma_turn_falls_to_the_right(s.lo, s.hi, pa, sh);
            lemma_turn_falls_to_the_right(s.lo, s.hi, pb, sh);
            lemma_turn_falls_to_the_right(b.lo, b.hi, pa, pb);
            lemma_turn_falls_to_the_right(a.lo, a.hi, pa, pb);
            if let Some(g) = zd.right {
                let e = dec.segments[g@];
                assert(e.wf());
                lemma_turn_falls_to_the_right(e.lo, e.hi, pa, sh);
            }
            if let Some(g) = zu.right {
                let e = dec.segments[g@];
                assert(e.wf());
                lemma_turn_falls_to_the_right(e.lo, e.hi, pb, sh);
            }
            let c = turn(b.lo, b.hi, pa);
            if c <= 0real {
                if c < 0real {
                    lemma_bound_ends(dec, si@, dn, fu@, h, false);
                } else {
                    if fu@ < fd@ {
                        assert(apart(dec.segments[fu@], dec.segments[fd@]));
                    } else {
                        assert(apart(dec.segments[fd@], dec.segments[fu@]));
                    }
                }
                assert(a.lo.y == h);
                lemma_turn_of_grid(s.lo, s.hi, a.lo);
                lemma_turn_of_grid(a.lo, a.hi, a.lo);
                lemma_turn_of_grid(b.lo, b.hi, a.lo);
                assert(dec.vertex_at_joint(fu@, false, h, zu.left, Some(si), zd.left, true));
            } else {
                lemma_bound_ends(dec, si@, up, fd@, h, true);
                assert(b.hi.y == h);
                lemma_turn_of_grid(s.lo, s.hi, b.hi);
                lemma_turn_of_grid(a.lo, a.hi, b.hi);
                lemma_turn_of_grid(b.lo, b.hi, b.hi);
                assert(dec.vertex_at_joint(fd@, true, h, zu.left, Some(si), zd.left, true));
            }
        },
        (Some(fu), None) => {
            let a = dec.segments[fu@];
            assert(a.wf());
            lemma_point_of(a, h);
            let pa = point_at(a.lo, a.hi, h as real);
            lemma_turn_falls_to_the_right(a.lo, a.hi, pa, sh);
            lemma_turn_falls_to_the_right(s.lo, s.hi, pa, sh);
            if let Some(g) = zd.right {
                let e = dec.segments[g@];
                assert(e.wf());
                lemma_turn_falls_to_the_right(e.lo, e.hi, pa, sh);
            }
            lemma_bound_ends(dec, si@, dn, fu@, h, false);
            lemma_turn_of_grid(s.lo, s.hi, a.lo);
            lemma_turn_of_grid(a.lo, a.hi, a.lo);
            assert(dec.vertex_at_joint(fu@, false, h, zu.left, Some(si), zd.left, true));
        },
        (None, Some(fd)) => {
            let b = dec.segments[fd@];
            assert(b.wf());
            lemma_point_of(b, h);
            let pb = point_at(b.lo, b.hi, h as real);
            lemma_turn_falls_to_the_right(b.lo, b.hi, pb, sh);
            lemma_turn_falls_to_the_right(s.lo, s.hi, pb, sh);
            if let Some(g) = zu.right {
                let e = dec.segments[g@];
                assert(e.wf());
                lemma_turn_falls_to_the_right(e.lo, e.hi, pb, sh);
            }
            lemma_bound_ends(dec, si@, up, fd@, h, true);
            lemma_turn_of_grid(s.lo, s.hi, b.hi);
            lemma_turn_of_grid(b.lo, b.hi, b.hi);
            assert(dec.vertex_at_joint(fd@, true, h, zu.left, Some(si), zd.left, true));
        },
        (None, None) => {},
    }
}

/// Two trapezoids of the path, one on top of the other, differ in their left or in
/// their right bound: the vertex at the height between them ends a bound of one.
proof fn lemma_sides_differ(dec: Decomposition, path: Seq<TrapezoidIdx>, si: SegmentIdx, i: int)
    requires
        dec.primed(path, si),
        1 <= i < path.len(),
        dec.roofed(path[i]@),
    ensures
        dec.trapezoids[path[i - 1]@]@.left != dec.trapezoids[path[i]@]@.left
            || dec.trapezoids[path[i - 1]@]@.right != dec.trapezoids[path[i]@]@.right,
{
    let s = dec.segments[si@];
    let up = path[i - 1]@;
    let dn = path[i]@;
    let h = dec.top_of(dn);
    let zu = dec.trapezoids[up]@;
    let zd = dec.trapezoids[dn]@;
    if zu.left == zd.left && zu.right == zd.right {
        lemma_between_at_joint(dec, path, si, i);
        assert(dec.stacked(path[i - 1]@, path[i - 1 + 1]@));
        assert(dec.paired(up) && dec.paired(dn));
        assert(dec.formed(up) && dec.formed(dn));
        let (k, at_hi) = choose|k: int, at_hi: bool| #[trigger]
            dec.vertex_between(k, at_hi, h, zd.left, zd.right);
        let e = dec.segments[k];
        let v = end_of(e, at_hi);
        let x = v.point();
        assert(e.wf());
        lemma_point_of(e, h);
        assert(lies_on(e, x));
        if let Some(f) = zd.left {
            let ff = dec.segments[f@];
            lemma_turn_of_grid(ff.lo, ff.hi, v);
            if turn(ff.lo, ff.hi, x) == 0real {
                assert(lies_on(ff, x));
                if f@ < k {
                    assert(apart(dec.segments[f@], dec.segments[k]));
                } else if k < f@ {
                    assert(apart(dec.segments[k], dec.segments[f@]));
                }
                assert(false);
            }
        }
        if let Some(g) = zd.right {
            let gg = dec.segments[g@];
            lemma_turn_of_grid(gg.lo, gg.hi, v);
            if turn(gg.lo, gg.hi, x) == 0real {
                assert(lies_on(gg, x));
                if g@ < k {
                    assert(apart(dec.segments[g@], dec.segments[k]));
                } else if k < g@ {
                    assert(apart(dec.segments[k], dec.segments[g@]));
                }
                assert(false);
            }
        }
        assert(dec.between_sides(up, x));
        assert(dec.between_sides(dn, x));
        if at_hi {
            lemma_bound_ends(dec, si@, dn, k, h, false);
        } else {
            lemma_bound_ends(dec, si@, up, k, h, true);
        }
        assert(false);
    }
}

/// An endpoint of the segment that is split along lies between the sides of a trapezoid
/// of the path that ends at its height.
proof fn lemma_own_vertex(dec: Decomposition, path: Seq<TrapezoidIdx>, si: SegmentIdx, j: int, at_hi: bool)
    requires
        dec.primed(path, si),
        0 <= j < path.len(),
        at_hi ==> j == 0,
        !at_hi ==> j == path.len() - 1,
    ensures
        dec.vertex_between(
            si@,
            at_hi,
            end_of(dec.segments[si@], at_hi).y as int,
            dec.trapezoids[path[j]@]@.left,
            Some(si),
        ),
        dec.vertex_between(
            si@,
            at_hi,
            end_of(dec.segments[si@], at_hi).y as int,
            Some(si),
            dec.trapezoids[path[j]@]@.right,
        ),
{
    let s = dec.segments[si@];
    let t = path[j]@;
    let v = end_of(s, at_hi);
    let h = v.y as int;
    assert(dec.passable(path[j]@, s));
    assert(dec.paired(t));
    assert(s.wf());
    lemma_point_of(s, h);
    lemma_turn_of_grid(s.lo, s.hi, v);
    if let Some(f) = dec.trapezoids[t]@.left {
        let e = dec.segments[f@];
        lemma_turn_at_of_grid(e.lo, e.hi, s.lo, s.hi, h);
        lemma_rise_turn(e.lo, e.hi, s, h as real);
        lemma_turn_of_grid(e.lo, e.hi, v);
    }
    if let Some(g) = dec.trapezoids[t]@.right {
        let e = dec.segments[g@];
        lemma_turn_at_of_grid(e.lo, e.hi, s.lo, s.hi, h);
        lemma_rise_turn(e.lo, e.hi, s, h as real);
        lemma_turn_of_grid(e.lo, e.hi, v);
    }
}

/// After the split of the first trapezoid of the path, every trapezoid ends at vertices
/// but those of the rest of the path and the two parts, which end at a vertex above.
pub proof fn lemma_settle_first(
    start: Decomposition,
    after: Decomposition,
    path: Seq<TrapezoidIdx>,
    si: SegmentIdx,
)
    requires
        start.primed(path, si),
        start.settled_off(path),
        after == start.fence(path[0]@, si),
    ensures
        after.settled_but(path, 1, path[0]@, start.trapezoids.len() as int),
        after.parts_of(start, path[0]@, si, path[0]@, start.trapezoids.len() as int),
{
    let t = path[0]@;
    let n = start.trapezoids.len() as int;
    let s = start.segments[si@];
    assert(start.paired(t));
    assert(start.passable(path[0]@, s));
    lemma_own_vertex(start, path, si, 0, true);
    assert(after.roofed(t)) by {
        assert(after.vertex_between(si@, true, s.hi.y as int, after.trapezoids[t]@.left, Some(si)));
    }
    assert(after.roofed(n)) by {
        assert(after.vertex_between(si@, true, s.hi.y as int, Some(si), after.trapezoids[n]@.right));
    }
    assert forall|u: int|
        0 <= u < after.trapezoids.len() && !on_path(path, 1, u) && u != t && u != n
        implies #[trigger] after.based(u) by {
        assert(after.trapezoids[u] == start.trapezoids[u]);
        if on_path(path, 0, u) {
            let j = choose|j: int| 0 <= 0 <= j < path.len() && (#[trigger] path[j])@ == u;
            assert(j >= 1);
            assert(on_path(path, 1, u));
        }
        assert(start.based(u));
        lemma_same_record_is_based(start, after, u);
    }
}

/// A trapezoid that is the same in two decompositions with the same segments and vertex
/// events ends at vertices in the one as in the other.
proof fn lemma_same_record_is_based(before: Decomposition, after: Decomposition, t: int)
    requires
        before.segments == after.segments,
        before.nexuses == after.nexuses,
        0 <= t < before.trapezoids.len(),
        t < after.trapezoids.len(),
        before.trapezoids[t] == after.trapezoids[t],
    ensures
        before.grounded(t) ==> after.grounded(t),
        before.roofed(t) ==> after.roofed(t),
{
    let z = before.trapezoids[t]@;
    if before.grounded(t) {
        if let Some(n) = z.down {
            let h = before.nexuses[n@].at.y as int;
            let (k, at_hi) = choose|k: int, at_hi: bool| #[trigger]
                before.vertex_between(k, at_hi, h, z.left, z.right);
            assert(after.vertex_between(k, at_hi, h, z.left, z.right));
        }
    }
    if before.roofed(t) {
        if let Some(n) = z.up {
            let h = before.nexuses[n@].at.y as int;
            let (k, at_hi) = choose|k: int, at_hi: bool| #[trigger]
                before.vertex_between(k, at_hi, h, z.left, z.right);
            assert(after.vertex_between(k, at_hi, h, z.left, z.right));
        }
    }
}

/// The trapezoid that is part on the left, and the one on the right, after the split of
/// trapezoid `ti` of the kind told: 0 for a split in two, 1 where the part on the left
/// is joined to `left`, 2 where the part on the right is joined to `right`.
pub open spec fn parts_after(before: Decomposition, kind: int, ti: int, left: int, right: int) -> (
    int,
    int,
) {
    if kind == 1 {
        (left, ti)
    } else if kind == 2 {
        (ti, right)
    } else {
        (ti, before.trapezoids.len() as int)
    }
}

/// One more trapezoid of the path split: every trapezoid ends at vertices but those of
/// the rest of the path and the two parts, which end at a vertex above.
pub proof fn lemma_settle_step(
    start: Decomposition,
    before: Decomposition,
    after: Decomposition,
    path: Seq<TrapezoidIdx>,
    i: int,
    next: int,
    si: SegmentIdx,
    left: int,
    right: int,
    kind: int,
)
    requires
        start.primed(path, si),
        start.settled_off(path),
        1 <= i < path.len(),
        next == i + 1,
        0 <= kind <= 2,
        before.segments == start.segments,
        before.nexuses == start.nexuses,
        start.trapezoids.len() <= before.trapezoids.len(),
        before.trapezoids[path[i]@] == start.trapezoids[path[i]@],
        before.parts_of(start, path[i - 1]@, si, left, right),
        left != path[i]@,
        right != path[i]@,
        before.settled_but(path, i, left, right),
        kind == 1 ==> before.trapezoids[left]@.left == before.trapezoids[path[i]@]@.left && after
            == before.join_left(path[i]@, si, left),
        kind == 2 ==> before.trapezoids[left]@.left != before.trapezoids[path[i]@]@.left
            && before.trapezoids[right]@.right == before.trapezoids[path[i]@]@.right && after
            == before.join_right(path[i]@, si, right),
        kind == 0 ==> before.trapezoids[left]@.left != before.trapezoids[path[i]@]@.left
            && before.trapezoids[right]@.right != before.trapezoids[path[i]@]@.right && after
            == before.fence(path[i]@, si),
    ensures
        after.settled_but(
            path,
            next,
            parts_after(before, kind, path[i]@, left, right).0,
            parts_after(before, kind, path[i]@, left, right).1,
        ),
        after.parts_of(
            start,
            path[i]@,
            si,
            parts_after(before, kind, path[i]@, left, right).0,
            parts_after(before, kind, path[i]@, left, right).1,
        ),
{
    let ti = path[i]@;
    let n = before.trapezoids.len() as int;
    let h = start.top_of(ti);
    let zu = start.trapezoids[path[i - 1]@]@;
    let zd = start.trapezoids[ti]@;
    let (l, r) = parts_after(before, kind, ti, left, right);
    assert(start.stacked(path[i - 1]@, path[i - 1 + 1]@));
    assert(start.paired(ti));
    assert(start.roofed(path[i]@));
    lemma_sides_differ(start, path, si, i);
    if zu.left != zd.left {
        lemma_gate_left(start, path, si, i);
        let (k, e) = choose|k: int, e: bool| #[trigger]
            start.vertex_at_joint(k, e, h, zu.left, Some(si), zd.left, true);
        assert(after.vertex_between(k, e, h, zu.left, Some(si)));
        assert(after.vertex_between(k, e, h, zd.left, Some(si)));
        if kind != 1 {
            assert(after.grounded(left));
            assert(after.roofed(ti));
        }
    }
    if zu.right != zd.right {
        lemma_gate_right(start, path, si, i);
        let (k, e) = choose|k: int, e: bool| #[trigger]
            start.vertex_at_joint(k, e, h, Some(si), zu.right, zd.right, false);
        assert(after.vertex_between(k, e, h, Some(si), zu.right));
        assert(after.vertex_between(k, e, h, Some(si), zd.right));
        if kind != 2 {
            assert(after.grounded(right));
            assert(after.roofed(r));
        }
    }
    lemma_keeps_roof(before, after, left);
    lemma_keeps_roof(before, after, right);
    assert(after.roofed(l));
    assert(after.roofed(r));
    assert forall|u: int|
        0 <= u < after.trapezoids.len() && !on_path(path, next, u) && u != l && u != r
        implies #[trigger] after.based(u) by {
        if u == left || u == right {
        } else {
            assert(u != ti);
            assert(u < n);
            assert(after.trapezoids[u] == before.trapezoids[u]);
            if on_path(path, i, u) {
                let j = choose|j: int| 0 <= i <= j < path.len() && (#[trigger] path[j])@ == u;
                assert(j >= next);
                assert(on_path(path, next, u));
            }
            assert(before.based(u));
            lemma_same_record_is_based(before, after, u);
        }
    }
}

/// A trapezoid that keeps its upper bound and its sides keeps the vertex at which it ends
/// above.
proof fn lemma_keeps_roof(before: Decomposition, after: Decomposition, t: int)
    requires
        before.segments == after.segments,
        before.nexuses == after.nexuses,
        0 <= t < before.trapezoids.len(),
        t < after.trapezoids.len(),
        before.roofed(t),
    ensures
        after.trapezoids[t]@.up == before.trapezoids[t]@.up && after.trapezoids[t]@.left
            == before.trapezoids[t]@.left && after.trapezoids[t]@.right
            == before.trapezoids[t]@.right ==> after.roofed(t),
{
    let z = before.trapezoids[t]@;
    if let Some(n) = z.up {
        let h = before.nexuses[n@].at.y as int;
        let (k, at_hi) = choose|k: int, at_hi: bool| #[trigger]
            before.vertex_between(k, at_hi, h, z.left, z.right);
        assert(after.vertex_between(k, at_hi, h, z.left, z.right));
    }
}

/// After the split of the last trapezoid of the path every trapezoid ends at vertices:
/// the two parts end below at the lower endpoint of the segment.
pub proof fn lemma_settle_last(
    start: Decomposition,
    after: Decomposition,
    path: Seq<TrapezoidIdx>,
    si: SegmentIdx,
    left: int,
    right: int,
)
    requires
        start.primed(path, si),
        after.segments == start.segments,
        after.nexuses == start.nexuses,
        after.parts_of(start, path[path.len() - 1]@, si, left, right),
        after.settled_but(path, path.len() as int, left, right),
    ensures
        after.settled(),
{
    let last = path.len() - 1;
    let s = start.segments[si@];
    lemma_own_vertex(start, path, si, last, false);
    assert(start.paired(path[last]@));
    assert(after.grounded(left)) by {
        assert(after.vertex_between(
            si@,
            false,
            s.lo.y as int,
            after.trapezoids[left]@.left,
            Some(si),
        ));
    }
    assert(after.grounded(right)) by {
        assert(after.vertex_between(
            si@,
            false,
            s.lo.y as int,
            Some(si),
            after.trapezoids[right]@.right,
        ));
    }
    assert forall|t: int| 0 <= t < after.trapezoids.len() implies #[trigger] after.based(t) by {
        if t != left && t != right {
            assert(!on_path(path, path.len() as int, t));
        }
    }
}

/// A trapezoid that has the upper bound and the sides of a trapezoid of an earlier
/// decomposition, which ended at a vertex above, ends at a vertex above.
proof fn lemma_roof_carries(before: Decomposition, after: Decomposition, tb: int, ta: int)
    requires
        extends(after.segments, before.segments),
        extends(after.nexuses, before.nexuses),
        0 <= tb < before.trapezoids.len(),
        0 <= ta < after.trapezoids.len(),
        before.well_linked(tb),
        before.roofed(tb),
        after.trapezoids[ta]@.up == before.trapezoids[tb]@.up,
        after.trapezoids[ta]@.left == before.trapezoids[tb]@.left,
        after.trapezoids[ta]@.right == before.trapezoids[tb]@.right,
    ensures
        after.roofed(ta),
{
    let z = before.trapezoids[tb]@;
    if let Some(n) = z.up {
        let h = before.nexuses[n@].at.y as int;
        let (k, at_hi) = choose|k: int, at_hi: bool| #[trigger]
            before.vertex_between(k, at_hi, h, z.left, z.right);
        assert(after.segments[k] == before.segments[k]);
        assert(after.vertex_between(k, at_hi, h, z.left, z.right));
    }
}

/// A trapezoid that has the lower bound and the sides of a trapezoid of an earlier
/// decomposition, which ended at a vertex below, ends at a vertex below.
proof fn lemma_ground_carries(before: Decomposition, after: Decomposition, tb: int, ta: int)
    requires
        extends(after.segments, before.segments),
        extends(after.nexuses, before.nexuses),
        0 <= tb < before.trapezoids.len(),
        0 <= ta < after.trapezoids.len(),
        before.well_linked(tb),
        before.grounded(tb),
        after.trapezoids[ta]@.down == before.trapezoids[tb]@.down,
        after.trapezoids[ta]@.left == before.trapezoids[tb]@.left,
        after.trapezoids[ta]@.right == before.trapezoids[tb]@.right,
    ensures
        after.grounded(ta),
{
    let z = before.trapezoids[tb]@;
    if let Some(n) = z.down {
        let h = before.nexuses[n@].at.y as int;
        let (k, at_hi) = choose|k: int, at_hi: bool| #[trigger]
            before.vertex_between(k, at_hi, h, z.left, z.right);
        assert(after.segments[k] == before.segments[k]);
        assert(after.vertex_between(k, at_hi, h, z.left, z.right));
    }
}

/// An endpoint of a segment that can be inserted lies between the sides of the first
/// trapezoid of its path, for the upper endpoint, or of the last, for the lower one.
proof fn lemma_end_between(
    bare: Decomposition,
    after: Decomposition,
    path: Seq<TrapezoidIdx>,
    s: Segment,
    j: int,
    at_hi: bool,
)
    requires
        bare.sound(),
        s.wf(),
        bare.traced(path, s),
        after.segments == bare.segments.push(s),
        0 <= j < path.len(),
        at_hi ==> j == 0,
        !at_hi ==> j == path.len() - 1,
    ensures
        after.vertex_between(
            bare.segments.len() as int,
            at_hi,
            end_of(s, at_hi).y as int,
            bare.trapezoids[path[j]@]@.left,
            bare.trapezoids[path[j]@]@.right,
        ),
{
    let t = path[j]@;
    let v = end_of(s, at_hi);
    let h = v.y as int;
    assert(bare.crossable(path[j]@, s, bare.entry(path, s, j), j == 0));
    assert(bare.paired(t));
    if !at_hi {
        assert(bare.ends_in(path[j]@, s));
    }
    lemma_point_of(s, h);
    if let Some(f) = bare.trapezoids[t]@.left {
        let e = bare.segments[f@];
        assert(after.segments[f@] == e);
        lemma_turn_at_of_grid(e.lo, e.hi, s.lo, s.hi, h);
        lemma_rise_turn(e.lo, e.hi, s, h as real);
        lemma_turn_of_grid(e.lo, e.hi, v);
    }
    if let Some(g) = bare.trapezoids[t]@.right {
        let e = bare.segments[g@];
        assert(after.segments[g@] == e);
        lemma_turn_at_of_grid(e.lo, e.hi, s.lo, s.hi, h);
        lemma_rise_turn(e.lo, e.hi, s, h as real);
        lemma_turn_of_grid(e.lo, e.hi, v);
    }
}

/// After the cuts at the endpoints of a segment that keeps apart, the decomposition is
/// ready for the split along the segment, and every trapezoid off its path ends at
/// vertices.
pub proof fn lemma_primed(
    bare: Decomposition,
    before: Decomposition,
    middle: Decomposition,
    after: Decomposition,
    path: Seq<TrapezoidIdx>,
    next: Seq<TrapezoidIdx>,
    s: Segment,
    si: SegmentIdx,
    open: bool,
    short: bool,
)
    requires
        bare.sound(),
        bare.seated(),
        bare.apart_all(),
        bare.settled(),
        bare.clear_of(s),
        s.wf(),
        bare.traced(path, s),
        before == bare.with_segment(s),
        si@ == bare.segments.len(),
        middle.trapezoids.len() <= usize::MAX,
        middle.segments == before.segments,
        after.segments == before.segments,
        middle.sliced(before, open, path[0]@, s.hi.y as int),
        !open ==> before.bound_at(before.trapezoids[path[0]@]@.up, s.hi.y as int),
        after.sliced(middle, short, path[path.len() - 1]@, s.lo.y as int),
        !short ==> middle.bound_at(middle.trapezoids[path[path.len() - 1]@]@.down, s.lo.y as int),
        next == (if short {
            path.update(path.len() - 1, handle(middle.trapezoids.len() as int))
        } else {
            path
        }),
        after.sound(),
        after.ready(next, s),
        forall|p: Point| #[trigger] after.staged(bare, path, next, s, p),
    ensures
        after.primed(next, si),
        after.settled_off(next),
{
    let n = bare.segments.len() as int;
    let last = path.len() - 1;
    let top = path[0]@;
    let bottom = path[last]@;
    let n0 = bare.trapezoids.len() as int;
    assert(bare.paired(top) && bare.paired(bottom));
    assert forall|j: int, k: int| 0 <= j < k < after.segments.len() implies apart(
        #[trigger] after.segments[j],
        #[trigger] after.segments[k],
    ) by {
        if k < n {
            assert(apart(bare.segments[j], bare.segments[k]));
        } else {
            assert(apart(bare.segments[j], s));
        }
    }
    assert forall|k: int, p: Point|
        0 <= k < n && k < after.segments.len() && #[trigger] after.segments[k].runs_through(
            p,
        ) implies (after.trapezoids[after.locate(p)]@.left matches Some(f) && f@ == k) by {
        assert(bare.segments[k].runs_through(p));
        assert(after.staged(bare, path, next, s, p));
    }
    assert forall|t: int| 0 <= t < after.trapezoids.len() implies match (
    #[trigger] after.trapezoids[t])@.left {
        Some(f) => f@ < n,
        None => true,
    } && match after.trapezoids[t]@.right {
        Some(g) => g@ < n,
        None => true,
    } by {
        let origin = if t < n0 {
            t
        } else if open && t == n0 {
            top
        } else {
            bottom
        };
        assert(bare.paired(origin));
        assert(after.trapezoids[t]@.left == bare.trapezoids[origin]@.left);
        assert(after.trapezoids[t]@.right == bare.trapezoids[origin]@.right);
    }
    assert(after.primed(next, si));
    lemma_end_between(bare, after, path, s, 0, true);
    lemma_end_between(bare, after, path, s, last, false);
    assert forall|t: int|
        0 <= t < after.trapezoids.len() && !on_path(next, 0, t) implies #[trigger] after.based(
        t,
    ) by {
        if t >= n0 {
            // The part above the upper endpoint.
            assert(open && t == n0);
            assert(bare.based(top));
            lemma_roof_carries(bare, after, top, t);
            assert(after.vertex_between(
                n,
                true,
                s.hi.y as int,
                after.trapezoids[t]@.left,
                after.trapezoids[t]@.right,
            ));
        } else if t == bottom {
            // The part below the lower endpoint.
            assert(short);
            assert(bare.based(bottom));
            lemma_ground_carries(bare, after, bottom, t);
            assert(after.vertex_between(
                n,
                false,
                s.lo.y as int,
                after.trapezoids[t]@.left,
                after.trapezoids[t]@.right,
            ));
        } else {
            if t == top {
                assert(next[0]@ == t);
                assert(false);
            }
            assert(bare.based(t));
            assert(bare.paired(t));
            lemma_roof_carries(bare, after, t, t);
            lemma_ground_carries(bare, after, t, t);
        }
    }
    assert forall|i: int| 1 <= i < next.len() implies after.roofed((#[trigger] next[i])@) by {
        assert(path[0]@ != path[i]@);
        assert(bare.based(path[i]@));
        assert(bare.paired(path[i]@));
        if i < last {
            assert(path[i]@ != path[last]@);
        }
        lemma_roof_carries(bare, after, path[i]@, next[i]@);
    }
}

} // verus!

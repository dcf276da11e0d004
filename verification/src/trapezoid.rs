//! The trapezoid record: a region of the plane between two segments and two heights.

use crate::idx::{NexusIdx, QueryIdx, SegmentIdx};
use vstd::prelude::*;

verus! {

/// A trapezoid of the decomposition: up to two segments bound it on the left and right,
/// up to two vertex events below and above, and one leaf of the query DAG designates it.
#[derive(Clone, Copy, Debug)]
pub struct Trapezoid {
    /// The segment on the left; without one the trapezoid is unbounded to the left.
    pub(crate) left: Option<SegmentIdx>,
    /// The segment on the right; without one the trapezoid is unbounded to the right.
    pub(crate) right: Option<SegmentIdx>,
    /// The vertex event whose height is the lower bound; without one the trapezoid is
    /// unbounded downwards.
    pub(crate) down: Option<NexusIdx>,
    /// The vertex event whose height is the upper bound; without one the trapezoid is
    /// unbounded upwards.
    pub(crate) up: Option<NexusIdx>,
    /// The leaf of the query DAG that designates this trapezoid.
    pub(crate) sink: QueryIdx,
}

/// What a [`Trapezoid`] holds: its four bounds and the leaf that designates it.
pub ghost struct TrapezoidView {
    pub left: Option<SegmentIdx>,
    pub right: Option<SegmentIdx>,
    pub down: Option<NexusIdx>,
    pub up: Option<NexusIdx>,
    pub sink: QueryIdx,
}

impl TrapezoidView {
    /// The trapezoid that holds these bounds and this sink.
    pub open(crate) spec fn record(self) -> Trapezoid {
        Trapezoid {
            left: self.left,
            right: self.right,
            down: self.down,
            up: self.up,
            sink: self.sink,
        }
    }
}

impl View for Trapezoid {
    type V = TrapezoidView;

    open(crate) spec fn view(&self) -> TrapezoidView {
        TrapezoidView {
            left: self.left,
            right: self.right,
            down: self.down,
            up: self.up,
            sink: self.sink,
        }
    }
}

/// The text of an upper or lower bound: its label between dashes on a line of its own,
/// or nothing when the trapezoid is unbounded there.
pub open spec fn height_text(bound: Option<NexusIdx>) -> Seq<char> {
    match bound {
        Some(ni) => "-"@ + ni.spec_text() + "-\n"@,
        None => Seq::empty(),
    }
}

/// The text of a left or right bound: its label in square brackets, or nothing when the
/// trapezoid is unbounded there.
pub open spec fn side_text(bound: Option<SegmentIdx>) -> Seq<char> {
    match bound {
        Some(si) => "["@ + si.spec_text() + "]"@,
        None => Seq::empty(),
    }
}

fn push_height(out: &mut String, bound: Option<NexusIdx>)
    ensures
        final(out)@ == old(out)@ + height_text(bound),
{
    match bound {
        Some(ni) => {
            out.append("-");
            ni.push_text(out);
            out.append("-\n");
            assert(out@ =~= old(out)@ + height_text(bound));
        },
        None => {
            assert(out@ =~= old(out)@ + height_text(bound));
        },
    }
}

fn push_side(out: &mut String, bound: Option<SegmentIdx>)
    ensures
        final(out)@ == old(out)@ + side_text(bound),
{
    match bound {
        Some(si) => {
            out.append("[");
            si.push_text(out);
            out.append("]");
            assert(out@ =~= old(out)@ + side_text(bound));
        },
        None => {
            assert(out@ =~= old(out)@ + side_text(bound));
        },
    }
}

impl Trapezoid {
    /// Trapezoids are determined by what they hold.
    pub proof fn lemma_view_injective(a: Self, b: Self)
        ensures
            a@ == b@ <==> a == b,
    {
    }

    /// The trapezoid that is unbounded on all four sides, designated by leaf `sink`.
    pub fn all(sink: QueryIdx) -> (whole: Self)
        ensures
            whole@ == (TrapezoidView { left: None, right: None, down: None, up: None, sink }),
    {
        Self { left: None, right: None, down: None, up: None, sink }
    }

    /// Splits the trapezoid along segment `si`. The trapezoid itself becomes the part on
    /// the left, with leaf `qi_left`; the part on the right is returned, with leaf
    /// `qi_right`. Both keep the lower and upper bound.
    pub fn split_vertical(
        &mut self,
        qi_left: QueryIdx,
        qi_right: QueryIdx,
        si: SegmentIdx,
    ) -> (t_right: Self)
        ensures
            final(self)@ == (TrapezoidView { right: Some(si), sink: qi_left, ..old(self)@ }),
            t_right@ == (TrapezoidView { left: Some(si), sink: qi_right, ..old(self)@ }),
    {
        let t_right = Self {
            left: Some(si),
            right: self.right,
            down: self.down,
            up: self.up,
            sink: qi_right,
        };

        self.right = Some(si);
        self.sink = qi_left;

        t_right
    }

    /// Cuts the trapezoid at the height of vertex event `ni`. The trapezoid itself becomes
    /// the part below, with leaf `qi_down`; the part above is returned, with leaf `qi_up`.
    /// Both keep the left and right bound.
    pub fn split_horizontal(
        &mut self,
        qi_down: QueryIdx,
        qi_up: QueryIdx,
        ni: NexusIdx,
    ) -> (t_up: Self)
        ensures
            final(self)@ == (TrapezoidView { up: Some(ni), sink: qi_down, ..old(self)@ }),
            t_up@ == (TrapezoidView { down: Some(ni), sink: qi_up, ..old(self)@ }),
    {
        let t_up = Self {
            left: self.left,
            right: self.right,
            down: Some(ni),
            up: self.up,
            sink: qi_up,
        };

        self.up = Some(ni);
        self.sink = qi_down;

        t_up
    }

    /// Makes `ni` the lower bound; nothing else changes.
    pub fn set_down(&mut self, ni: NexusIdx)
        ensures
            final(self)@ == (TrapezoidView { down: Some(ni), ..old(self)@ }),
    {
        self.down = Some(ni);
    }

    /// Makes `si` the left bound; nothing else changes.
    pub fn set_left(&mut self, si: SegmentIdx)
        ensures
            final(self)@ == (TrapezoidView { left: Some(si), ..old(self)@ }),
    {
        self.left = Some(si);
    }

    /// Makes `si` the right bound; nothing else changes.
    pub fn set_right(&mut self, si: SegmentIdx)
        ensures
            final(self)@ == (TrapezoidView { right: Some(si), ..old(self)@ }),
    {
        self.right = Some(si);
    }

    /// Makes `qi` the leaf that designates the trapezoid; nothing else changes.
    pub fn set_sink(&mut self, qi: QueryIdx)
        ensures
            final(self)@ == (TrapezoidView { sink: qi, ..old(self)@ }),
    {
        self.sink = qi;
    }

    /// The left bound.
    pub fn left(&self) -> (bound: Option<SegmentIdx>)
        ensures
            bound == self@.left,
    {
        self.left
    }

    /// The right bound.
    pub fn right(&self) -> (bound: Option<SegmentIdx>)
        ensures
            bound == self@.right,
    {
        self.right
    }

    /// The upper bound.
    pub fn up(&self) -> (bound: Option<NexusIdx>)
        ensures
            bound == self@.up,
    {
        self.up
    }

    /// The lower bound.
    pub fn down(&self) -> (bound: Option<NexusIdx>)
        ensures
            bound == self@.down,
    {
        self.down
    }

    /// The leaf that designates the trapezoid.
    pub fn sink(&self) -> (qi: QueryIdx)
        ensures
            qi == self@.sink,
    {
        self.sink
    }

    /// The trapezoid as text: the upper bound on a line of its own, then the sink between
    /// the left and right bounds, then the lower bound on a line of its own.
    pub open spec fn spec_text(&self) -> Seq<char> {
        height_text(self@.up) + side_text(self@.left) + self@.sink.spec_text() + side_text(
            self@.right,
        ) + "\n"@ + height_text(self@.down)
    }

    /// The trapezoid as text.
    pub fn to_text(&self) -> (text: String)
        ensures
            text@ == self.spec_text(),
    {
        let mut text = String::new();
        push_height(&mut text, self.up);
        push_side(&mut text, self.left);
        self.sink.push_text(&mut text);
        push_side(&mut text, self.right);
        text.append("\n");
        push_height(&mut text, self.down);
        assert(text@ =~= self.spec_text());
        text
    }
}

} // verus!

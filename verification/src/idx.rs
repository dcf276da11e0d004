//! Typed handles into append-only arenas.

use crate::text::{decimal, push_decimal};
use core::marker::PhantomData;
use vstd::prelude::*;

verus! {

/// A copyable handle to one slot of an [`Arena`] of kind `T`. The kind only tells the
/// handles of different arenas apart; no value of it is ever stored.
///
/// Two handles are equal exactly when they name the same slot.
#[derive(Debug)]
pub struct Idx<T> {
    pub slot: usize,
    pub kind: PhantomData<T>,
}

impl<T> View for Idx<T> {
    type V = int;

    /// The number of the slot that the handle names.
    open spec fn view(&self) -> int {
        self.slot as int
    }
}

/// The handle of kind `T` that names slot `slot`.
pub open spec fn handle<T>(slot: int) -> Idx<T> {
    Idx { slot: slot as usize, kind: PhantomData }
}

impl<T> Clone for Idx<T> {
    fn clone(&self) -> (copy: Self)
        ensures
            copy == *self,
    {
        *self
    }
}

impl<T> Copy for Idx<T> {

}

impl<T> PartialEq for Idx<T> {
    fn eq(&self, other: &Self) -> (same: bool) {
        self.slot == other.slot
    }
}

impl<T> vstd::std_specs::cmp::PartialEqSpecImpl for Idx<T> {
    open spec fn obeys_eq_spec() -> bool {
        true
    }

    open spec fn eq_spec(&self, other: &Self) -> bool {
        self@ == other@
    }
}

impl<T> Eq for Idx<T> {

}

impl<T> Idx<T> {
    /// The handle of slot `slot`.
    pub fn new(slot: usize) -> (handle: Self)
        ensures
            handle@ == slot,
    {
        Idx { slot, kind: PhantomData }
    }

    /// The number of the slot that the handle names.
    pub fn index(&self) -> (slot: usize)
        ensures
            slot == self@,
    {
        self.slot
    }
}

/// The kind of the handles to query nodes.
#[derive(Debug)]
pub struct QueryNodes;

/// The kind of the handles to trapezoids.
#[derive(Debug)]
pub struct Trapezoids;

/// The kind of the handles to segments.
#[derive(Debug)]
pub struct Segments;

/// The kind of the handles to vertex events.
#[derive(Debug)]
pub struct Nexuses;

/// A handle to a query node.
pub type QueryIdx = Idx<QueryNodes>;

/// A handle to a trapezoid.
pub type TrapezoidIdx = Idx<Trapezoids>;

/// A handle to a segment.
pub type SegmentIdx = Idx<Segments>;

/// A handle to a vertex event.
pub type NexusIdx = Idx<Nexuses>;

impl IdxDisplay for QueryNodes {
    open spec fn prefix() -> Seq<char> {
        "q"@
    }

    fn push_prefix(out: &mut String) {
        out.append("q");
    }
}

impl IdxDisplay for Trapezoids {
    open spec fn prefix() -> Seq<char> {
        "t"@
    }

    fn push_prefix(out: &mut String) {
        out.append("t");
    }
}

impl IdxDisplay for Segments {
    open spec fn prefix() -> Seq<char> {
        "s"@
    }

    fn push_prefix(out: &mut String) {
        out.append("s");
    }
}

impl IdxDisplay for Nexuses {
    open spec fn prefix() -> Seq<char> {
        "n"@
    }

    fn push_prefix(out: &mut String) {
        out.append("n");
    }
}

/// The single-letter prefix under which the handles of a kind are displayed.
pub trait IdxDisplay {
    /// The prefix, as text.
    spec fn prefix() -> Seq<char>;

    /// Appends the prefix to `out`.
    fn push_prefix(out: &mut String)
        ensures
            final(out)@ == old(out)@ + Self::prefix(),
    ;
}

impl<T: IdxDisplay> Idx<T> {
    /// The label of the handle: the prefix of its element type, then the slot in decimal.
    pub open spec fn spec_text(&self) -> Seq<char> {
        T::prefix() + decimal(self@ as nat)
    }

    /// Appends the label of the handle to `out`.
    pub fn push_text(&self, out: &mut String)
        ensures
            final(out)@ == old(out)@ + self.spec_text(),
    {
        T::push_prefix(out);
        push_decimal(out, self.slot as u64);
        assert(out@ =~= old(out)@ + self.spec_text());
    }

    /// The label of the handle.
    pub fn to_text(&self) -> (text: String)
        ensures
            text@ == self.spec_text(),
    {
        let mut text = String::new();
        self.push_text(&mut text);
        assert(text@ =~= self.spec_text());
        text
    }
}

/// A growable collection of elements of type `T` whose slots are never freed, addressed
/// by handles of kind `K`.
pub struct Arena<T, K> {
    items: Vec<T>,
    kind: PhantomData<K>,
}

impl<T, K> View for Arena<T, K> {
    type V = Seq<T>;

    /// The stored elements, in order of allocation.
    closed spec fn view(&self) -> Seq<T> {
        self.items@
    }
}

impl<T, K> Arena<T, K> {
    /// An arena without elements.
    pub fn new() -> (arena: Self)
        ensures
            arena@ == Seq::<T>::empty(),
    {
        Arena { items: Vec::new(), kind: PhantomData }
    }

    /// The number of allocated slots.
    pub fn len(&self) -> (n: usize)
        ensures
            n == self@.len(),
    {
        self.items.len()
    }

    /// The number of slots is one that a handle can hold.
    pub proof fn lemma_len_fits(&self)
        ensures
            self@.len() <= usize::MAX,
    {
        assert(self.items.len() == self.items@.len());
    }

    /// Whether `handle` names a slot of this arena.
    pub open spec fn has(&self, handle: Idx<K>) -> bool {
        0 <= handle@ < self@.len()
    }

    /// Decides whether `handle` names a slot of this arena.
    pub fn holds(&self, handle: Idx<K>) -> (yes: bool)
        ensures
            yes == self.has(handle),
    {
        handle.slot < self.items.len()
    }

    /// Appends `value` and returns the handle of its slot; no earlier slot changes.
    pub fn allocate(&mut self, value: T) -> (handle: Idx<K>)
        ensures
            final(self)@ == old(self)@.push(value),
            handle@ == old(self)@.len(),
    {
        let slot: usize = self.items.len();
        self.items.push(value);
        Idx::new(slot)
    }

    /// The element in the slot that `handle` names.
    pub fn get(&self, handle: Idx<K>) -> (element: &T)
        requires
            self.has(handle),
        ensures
            *element == self@[handle@],
    {
        &self.items[handle.slot]
    }

    /// Mutable access to the element in the slot that `handle` names.
    pub fn get_mut(&mut self, handle: Idx<K>) -> (element: &mut T)
        requires
            old(self).has(handle),
        ensures
            *element == old(self)@[handle@],
            final(self)@ == old(self)@.update(handle@, *final(element)),
    {
        &mut self.items[handle.slot]
    }

    /// The elements as a slice, in order of allocation.
    pub fn as_slice(&self) -> (items: &[T])
        ensures
            items@ == self@,
    {
        self.items.as_slice()
    }
}

} // verus!

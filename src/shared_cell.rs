use crate::collector::{Collector, CollectorView};
use crate::shared::{acquired, released, Shared, SharedInner};
use core::marker::PhantomData;
use vstd::prelude::*;

verus! {

/// A mutable memory location that holds a [`Shared<T>`].
///
/// The cell holds exactly one counted reference to the allocation it points
/// to. [`SharedCell::get`] hands out further references; [`SharedCell::replace`]
/// and [`SharedCell::into_inner`] hand the cell's own reference over.
pub struct SharedCell<T> {
    node: usize,
    phantom: PhantomData<Shared<T>>,
}

impl<T> SharedCell<T> {
    /// The index of the allocation the cell holds.
    pub closed spec fn id(&self) -> usize {
        self.node
    }

    /// Constructs a new `SharedCell` holding the reference `value`.
    pub fn new(value: Shared<T>) -> (r: SharedCell<T>)
        ensures
            r.id() == value.id(),
    {
        SharedCell { node: value.into_node(), phantom: PhantomData }
    }

    /// Gets a copy of the contained [`Shared<T>`], incrementing its reference
    /// count in the process.
    pub fn get(&self, c: &mut Collector<SharedInner<T>>) -> (r: Shared<T>)
        requires
            old(c).wf(),
            old(c)@.is_live(self.id()),
            old(c)@.nodes[self.id()].count < usize::MAX,
        ensures
            final(c).wf(),
            r.id() == self.id(),
            final(c)@ == acquired(old(c)@, self.id()),
            final(c).traversal() == old(c).traversal(),
            final(c).sentinel() == old(c).sentinel(),
    {
        let held = Shared::from_node(self.node);
        let r = held.duplicate(c);
        held.into_node();
        r
    }

    /// Replaces the contained reference with `value` and returns the one the
    /// cell held. No reference count changes: the cell's reference goes to the
    /// caller, and `value`'s to the cell.
    pub fn replace(&mut self, value: Shared<T>) -> (r: Shared<T>)
        ensures
            r.id() == old(self).id(),
            final(self).id() == value.id(),
    {
        let old = Shared::from_node(self.node);
        self.node = value.into_node();
        old
    }

    /// Replaces the contained reference with `value` and gives up the one the
    /// cell held.
    pub fn set(&mut self, c: &mut Collector<SharedInner<T>>, value: Shared<T>)
        requires
            old(c).wf(),
            old(c)@.is_live(old(self).id()),
            old(c)@.nodes[old(self).id()].count >= 1,
        ensures
            final(self).id() == value.id(),
            final(c).wf(),
            final(c)@ == released(old(c)@, old(self).id()),
            final(c).sentinel() == old(c).sentinel(),
    {
        let old = self.replace(value);
        old.release(c);
    }

    /// Consumes the cell and returns the reference it held, without changing
    /// the reference count.
    pub fn into_inner(self) -> (r: Shared<T>)
        ensures
            r.id() == self.id(),
    {
        Shared::from_node(self.node)
    }

    /// Gives up the cell and the reference it holds.
    pub fn release(self, c: &mut Collector<SharedInner<T>>)
        requires
            old(c).wf(),
            old(c)@.is_live(self.id()),
            old(c)@.nodes[self.id()].count >= 1,
        ensures
            final(c).wf(),
            final(c)@ == released(old(c)@, self.id()),
            final(c).sentinel() == old(c).sentinel(),
    {
        self.into_inner().release(c);
    }
}

/// Putting back into a cell what `replace` took out of it: the cell holds its
/// original allocation again, live and with the references it had, less only
/// the reference that was handed in and is now given up.
pub proof fn lemma_set_after_replace<T>(v: CollectorView<SharedInner<T>>, held: usize, x: usize)
    requires
        v.valid(),
        v.is_live(held),
        v.is_live(x),
        v.nodes[x].count >= 1,
        held == x ==> v.nodes[held].count >= 2,
    ensures
        released(v, x).is_live(held),
        released(v, x).nodes[held].data == v.nodes[held].data,
        released(v, x).nodes[held].count == v.nodes[held].count - (if held == x { 1int } else { 0 }),
{
    crate::shared::lemma_release_counts(v, x);
}

} // verus!

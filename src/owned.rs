use crate::collector::{Collector, Handle, Node};
use core::marker::PhantomData;
use vstd::prelude::*;

verus! {

/// An owned smart pointer with deferred collection, analogous to `Box`.
///
/// When an `Owned<T>` is given up with [`Owned::release`], its allocation is
/// added to the drop queue of its [`Collector`]; the payload is dropped when the
/// collector next collects.
pub struct Owned<T> {
    node: usize,
    phantom: PhantomData<T>,
}

impl<T> Owned<T> {
    /// The index of the allocation this pointer owns.
    pub closed spec fn id(&self) -> usize {
        self.node
    }

    /// Constructs a new `Owned<T>` holding `data`, allocated in `c`.
    pub fn new(handle: &Handle, c: &mut Collector<T>, data: T) -> (r: Owned<T>)
        requires
            old(c).wf(),
            old(c)@.handles > 0,
            old(c)@.allocs < usize::MAX,
        ensures
            final(c).wf(),
            !old(c)@.nodes.contains_key(r.id()),
            final(c)@ == old(c)@.allocate(r.id(), data),
            final(c).traversal() == old(c).traversal(),
            final(c).sentinel() == old(c).sentinel(),
    {
        let node = Node::allocate(handle, c, data);
        Owned { node, phantom: PhantomData }
    }

    /// Shared access to the payload.
    pub fn deref<'a>(&self, c: &'a Collector<T>) -> (r: &'a T)
        requires
            c.wf(),
            c@.is_live(self.id()),
        ensures
            *r == c@.nodes[self.id()],
    {
        c.data_ref(self.node)
    }

    /// Exclusive access to the payload.
    pub fn deref_mut<'a>(&mut self, c: &'a mut Collector<T>) -> (r: &'a mut T)
        requires
            old(c).wf(),
            old(c)@.is_live(old(self).id()),
        ensures
            *final(self) == *old(self),
            *r == old(c)@.nodes[old(self).id()],
            final(c).wf(),
            final(c)@ == old(c)@.with_data(old(self).id(), *final(r)),
            final(c).traversal() == old(c).traversal(),
            final(c).sentinel() == old(c).sentinel(),
    {
        c.data_mut(self.node)
    }

    /// Allocates a new `Owned<T>` in the same collector, holding a clone of
    /// the payload. A handle is taken for the allocation and given up again.
    pub fn duplicate(&self, c: &mut Collector<T>) -> (r: Owned<T>)
        where
            T: Clone,
        requires
            old(c).wf(),
            old(c)@.is_live(self.id()),
            old(c)@.handles < usize::MAX,
            old(c)@.allocs < usize::MAX,
        ensures
            final(c).wf(),
            !old(c)@.nodes.contains_key(r.id()),
            r.id() != self.id(),
            final(c)@.nodes.dom() == old(c)@.nodes.dom().insert(r.id()),
            forall|j: usize| j != r.id() && old(c)@.nodes.contains_key(j) ==> #[trigger] final(c)@.nodes[j] == old(c)@.nodes[j],
            final(c)@.pending == old(c)@.pending,
            final(c)@.handles == old(c)@.handles,
            final(c)@.allocs == old(c)@.allocs + 1,
            final(c)@.is_live(self.id()),
            final(c)@.is_live(r.id()),
            final(c).traversal() == old(c).traversal(),
            final(c).sentinel() == old(c).sentinel(),
    {
        let data = self.deref(c).clone();
        let handle = Node::handle(c, self.node);
        let r = Owned::new(&handle, c, data);
        handle.release(c);
        proof {
            old(c).lemma_view_valid();
            if old(c)@.pending.contains(r.id()) {
                let k = choose|k: int| 0 <= k < old(c)@.pending.len() && old(c)@.pending[k] == r.id();
                assert(old(c)@.nodes.contains_key(old(c)@.pending[k]));
            }
        }
        r
    }

    /// Gives up the pointer: its allocation goes to the end of the drop queue.
    pub fn release(self, c: &mut Collector<T>)
        requires
            old(c).wf(),
            old(c)@.is_live(self.id()),
        ensures
            final(c).wf(),
            final(c)@ == old(c)@.queue_drop(self.id()),
            final(c).traversal() == old(c).traversal().push(self.id()),
            final(c).sentinel() == old(c).sentinel(),
    {
        Node::queue_drop(c, self.node);
    }
}

} // verus!

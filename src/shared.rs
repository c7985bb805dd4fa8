use crate::collector::{Collector, CollectorView, Handle, Node};
use core::marker::PhantomData;
use vstd::prelude::*;

verus! {

/// The payload of a [`Shared`] allocation: the reference count and the data.
pub struct SharedInner<T> {
    pub count: usize,
    pub data: T,
}

/// The state after one more reference to shared allocation `i` is taken.
pub open spec fn acquired<T>(v: CollectorView<SharedInner<T>>, i: usize) -> CollectorView<SharedInner<T>> {
    v.with_data(i, SharedInner { count: (v.nodes[i].count + 1) as usize, data: v.nodes[i].data })
}

/// The state after one reference to shared allocation `i` is given up. When it
/// was the last one, the allocation is queued for dropping.
pub open spec fn released<T>(v: CollectorView<SharedInner<T>>, i: usize) -> CollectorView<SharedInner<T>> {
    let n = v.nodes[i];
    if n.count == 1 {
        v.with_data(i, SharedInner { count: 0, data: n.data }).queue_drop(i)
    } else {
        v.with_data(i, SharedInner { count: (n.count - 1) as usize, data: n.data })
    }
}

/// A reference-counted smart pointer with deferred collection, analogous to
/// `Arc`.
///
/// When the reference count of a `Shared<T>` goes to zero, its allocation is
/// added to the drop queue of its [`Collector`].
pub struct Shared<T> {
    node: usize,
    phantom: PhantomData<SharedInner<T>>,
}

impl<T> Shared<T> {
    /// The index of the allocation this pointer refers to.
    pub closed spec fn id(&self) -> usize {
        self.node
    }

    /// A pointer to allocation `node`, taking over one reference that is
    /// already counted.
    pub(crate) fn from_node(node: usize) -> (r: Shared<T>)
        ensures
            r.id() == node,
    {
        Shared { node, phantom: PhantomData }
    }

    /// The index of the allocation, taking over the reference this pointer
    /// counted.
    pub(crate) fn into_node(self) -> (r: usize)
        ensures
            r == self.id(),
    {
        self.node
    }

    /// Constructs a new `Shared<T>` holding `data`, with a reference count of one.
    pub fn new(handle: &Handle, c: &mut Collector<SharedInner<T>>, data: T) -> (r: Shared<T>)
        requires
            old(c).wf(),
            old(c)@.handles > 0,
            old(c)@.allocs < usize::MAX,
        ensures
            final(c).wf(),
            !old(c)@.nodes.contains_key(r.id()),
            final(c)@ == old(c)@.allocate(r.id(), SharedInner { count: 1, data }),
            final(c).traversal() == old(c).traversal(),
            final(c).sentinel() == old(c).sentinel(),
    {
        let node = Node::allocate(handle, c, SharedInner { count: 1, data });
        Shared { node, phantom: PhantomData }
    }

    /// Shared access to the data.
    pub fn deref<'a>(&self, c: &'a Collector<SharedInner<T>>) -> (r: &'a T)
        requires
            c.wf(),
            c@.is_live(self.id()),
        ensures
            *r == c@.nodes[self.id()].data,
    {
        &c.data_ref(self.node).data
    }

    /// Takes one more reference to the same allocation.
    pub fn duplicate(&self, c: &mut Collector<SharedInner<T>>) -> (r: Shared<T>)
        requires
            old(c).wf(),
            old(c)@.is_live(self.id()),
            old(c)@.nodes[self.id()].count < usize::MAX,
        ensures
            final(c).wf(),
            r.id() == self.id(),
            final(c)@ == acquired(old(c)@, self.id()),
            final(c).traversal() == old(c).traversal(),
            final(c).sentinel() == old(c).sentinel(),
    {
        let inner = c.data_mut(self.node);
        inner.count = inner.count + 1;
        Shared { node: self.node, phantom: PhantomData }
    }

    /// Gives up this reference. When it was the last one, the allocation goes
    /// to the end of the drop queue.
    pub fn release(self, c: &mut Collector<SharedInner<T>>)
        requires
            old(c).wf(),
            old(c)@.is_live(self.id()),
            old(c)@.nodes[self.id()].count >= 1,
        ensures
            final(c).wf(),
            final(c)@ == released(old(c)@, self.id()),
            final(c).sentinel() == old(c).sentinel(),
            old(c)@.nodes[self.id()].count == 1 ==> final(c).traversal() == old(c).traversal().push(self.id()),
            old(c)@.nodes[self.id()].count > 1 ==> final(c).traversal() == old(c).traversal(),
    {
        let inner = c.data_mut(self.node);
        inner.count = inner.count - 1;
        let last = inner.count == 0;
        if last {
            Node::queue_drop(c, self.node);
        }
    }

    /// Exclusive access to the data if no other reference to the allocation
    /// exists; otherwise `None`.
    pub fn get_mut<'a>(this: &mut Self, c: &'a mut Collector<SharedInner<T>>) -> (r: Option<&'a mut T>)
        requires
            old(c).wf(),
            old(c)@.is_live(old(this).id()),
        ensures
            *final(this) == *old(this),
            r is Some <==> old(c)@.nodes[old(this).id()].count == 1,
            final(c).wf(),
            final(c).traversal() == old(c).traversal(),
            final(c).sentinel() == old(c).sentinel(),
            r matches Some(x) ==> *x == old(c)@.nodes[old(this).id()].data
                && final(c)@ == old(c)@.with_data(old(this).id(), SharedInner { count: 1, data: *final(x) }),
            r is None ==> final(c)@ == old(c)@,
    {
        if c.data_ref(this.node).count == 1 {
            Some(&mut c.data_mut(this.node).data)
        } else {
            None
        }
    }
}

/// Taking a reference and giving it up again leaves the collector as it was.
pub proof fn lemma_acquire_then_release<T>(v: CollectorView<SharedInner<T>>, i: usize)
    requires
        v.valid(),
        v.is_live(i),
        1 <= v.nodes[i].count < usize::MAX,
    ensures
        released(acquired(v, i), i) == v,
{
    let a = acquired(v, i);
    assert(a.nodes[i].count == v.nodes[i].count + 1);
    assert(released(a, i).nodes =~= v.nodes);
    assert(released(a, i).pending =~= v.pending);
}

/// The reference count of a live allocation only reaches zero through giving
/// up its last reference, and exactly then the allocation is queued, once.
/// Any other release leaves it live with one reference fewer.
pub proof fn lemma_release_counts<T>(v: CollectorView<SharedInner<T>>, i: usize)
    requires
        v.valid(),
        v.is_live(i),
        v.nodes[i].count >= 1,
    ensures
        released(v, i).valid(),
        v.nodes[i].count == 1 ==> !released(v, i).is_live(i)
            && released(v, i).pending == v.pending.push(i)
            && released(v, i).nodes[i].count == 0,
        v.nodes[i].count > 1 ==> released(v, i).is_live(i)
            && released(v, i).pending == v.pending
            && released(v, i).nodes[i].count == v.nodes[i].count - 1,
        forall|j: usize| j != i ==> (v.is_live(j) <==> #[trigger] released(v, i).is_live(j)),
{
    let w = v.with_data(i, SharedInner { count: 0, data: v.nodes[i].data });
    if v.nodes[i].count == 1 {
        assert(w.nodes.dom() =~= v.nodes.dom());
        w.lemma_queue_drop_valid(i);
    } else {
        let u = v.with_data(i, SharedInner { count: (v.nodes[i].count - 1) as usize, data: v.nodes[i].data });
        assert(u.nodes.dom() =~= v.nodes.dom());
    }
}

} // verus!

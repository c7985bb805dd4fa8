use vstd::prelude::*;

verus! {

/// The link field of a node.
///
/// Until a node is queued for dropping it belongs to its owner; from the moment
/// it is queued the field holds the index of its successor in the drop queue.
enum Link {
    /// Not queued yet.
    Unqueued,
    /// Queued, with the successor in the queue, if any.
    Queued(Option<usize>),
}

/// An allocation of a [`Collector`]: the link used by the drop queue and the
/// payload.
pub struct Node<T> {
    link: Link,
    /// The data stored in this allocation.
    pub data: T,
}

/// The successor that place `i` of `slots` links to, if it is in the queue.
spec fn next_in<T>(slots: Seq<Slot<T>>, i: usize) -> Option<usize> {
    match slots[i as int] {
        Slot::Sentinel(n) => n,
        Slot::Used(node) => match node.link {
            Link::Queued(n) => n,
            Link::Unqueued => None,
        },
        Slot::Free => None,
    }
}

/// One place of the collector's arena.
enum Slot<T> {
    /// Reclaimed; may be handed out again.
    Free,
    /// The sentinel of the drop queue, with its successor.
    Sentinel(Option<usize>),
    /// An allocation, queued or not.
    Used(Node<T>),
}

/// A producer token of a [`Collector`]. The collector counts the live handles.
pub struct Handle {
    marker: (),
}

/// What a collector holds, in mathematical terms.
pub struct CollectorView<T> {
    /// The payload of every allocation that has not been reclaimed yet, by index.
    pub nodes: Map<usize, T>,
    /// The allocations queued for dropping, in the order they will be reclaimed.
    pub pending: Seq<usize>,
    /// The number of live handles.
    pub handles: nat,
    /// The number of allocations not reclaimed yet.
    pub allocs: nat,
}

impl<T> CollectorView<T> {
    /// An allocation that its owner still holds: allocated and not queued.
    pub open spec fn is_live(self, i: usize) -> bool {
        self.nodes.contains_key(i) && !self.pending.contains(i)
    }

    /// The state after allocating index `i` with payload `data`.
    pub open spec fn allocate(self, i: usize, data: T) -> Self {
        CollectorView { nodes: self.nodes.insert(i, data), allocs: self.allocs + 1, ..self }
    }

    /// The state after the owner of allocation `i` gives it up.
    pub open spec fn queue_drop(self, i: usize) -> Self {
        CollectorView { pending: self.pending.push(i), ..self }
    }

    /// The state after the first queued allocation is reclaimed.
    pub open spec fn reclaim_first(self) -> Self {
        CollectorView {
            nodes: self.nodes.remove(self.pending[0]),
            pending: self.pending.drop_first(),
            allocs: (self.allocs - 1) as nat,
            ..self
        }
    }

    /// The state after the payload of allocation `i` is replaced by `data`.
    pub open spec fn with_data(self, i: usize, data: T) -> Self {
        CollectorView { nodes: self.nodes.insert(i, data), ..self }
    }

    /// The state after one more handle is made.
    pub open spec fn add_handle(self) -> Self {
        CollectorView { handles: self.handles + 1, ..self }
    }

    /// The state after one handle is dropped.
    pub open spec fn remove_handle(self) -> Self {
        CollectorView { handles: (self.handles - 1) as nat, ..self }
    }

    /// The state after every queued allocation has been reclaimed.
    pub open spec fn drained(self) -> Self {
        CollectorView {
            nodes: self.nodes.remove_keys(self.pending.to_set()),
            pending: Seq::empty(),
            allocs: (self.allocs - self.pending.len()) as nat,
            ..self
        }
    }

    /// What every reachable state satisfies: the counter of allocations
    /// matches the allocations, and every allocation is queued at most once.
    pub open spec fn valid(self) -> bool {
        &&& self.nodes.dom().finite()
        &&& self.allocs == self.nodes.len()
        &&& self.pending.no_duplicates()
        &&& forall|k: int| 0 <= k < self.pending.len() ==> self.nodes.contains_key(#[trigger] self.pending[k])
    }

    /// Reclaiming the first queued allocation leaves the drained state as it was.
    pub proof fn lemma_reclaim_first_drained(self)
        requires
            self.valid(),
            self.pending.len() > 0,
        ensures
            self.reclaim_first().drained() == self.drained(),
    {
        let p = self.pending;
        let r = self.reclaim_first();
        assert(p.to_set() =~= p.drop_first().to_set().insert(p[0])) by {
            assert forall|x: usize| p.to_set().contains(x) implies p.drop_first().to_set().insert(p[0]).contains(x) by {
                let k = choose|k: int| 0 <= k < p.len() && p[k] == x;
                if k > 0 {
                    assert(p.drop_first()[k - 1] == x);
                }
            }
            assert forall|x: usize| p.drop_first().to_set().contains(x) implies p.to_set().contains(x) by {
                let k = choose|k: int| 0 <= k < p.len() - 1 && p.drop_first()[k] == x;
                assert(p[k + 1] == x);
            }
            assert(p.contains(p[0]));
        }
        assert(self.nodes.contains_key(p[0]));
        assert(self.nodes.len() > 0) by {
            assert(self.nodes.remove(p[0]).len() == self.nodes.len() - 1);
        }
        assert(r.drained().nodes =~= self.drained().nodes);
    }

    /// The view of a brand-new collector.
    pub open spec fn empty() -> Self {
        CollectorView { nodes: Map::empty(), pending: Seq::empty(), handles: 0, allocs: 0 }
    }
}

/// The owner of a drop queue and of the allocations made through its handles.
///
/// The drop queue is an intrusive singly linked list through the nodes' link
/// fields, from `head` to `tail`, that always holds the sentinel exactly
/// once. Reclaimed places of the arena are kept on a free list and reused.
pub struct Collector<T> {
    slots: Vec<Slot<T>>,
    free: Vec<usize>,
    head: usize,
    tail: usize,
    stub: usize,
    handles: usize,
    allocs: usize,
    /// The queued allocations ahead of the sentinel, from `head` on.
    before: Ghost<Seq<usize>>,
    /// The queued allocations behind the sentinel, up to `tail`.
    after: Ghost<Seq<usize>>,
    /// The indices of the places that hold an allocation.
    used: Ghost<Set<usize>>,
}

impl<T> Collector<T> {
    /// The successor that place `i` links to, if it is in the queue.
    pub closed spec fn next_of(&self, i: usize) -> Option<usize> {
        next_in(self.slots@, i)
    }

    /// The drop queue in traversal order, from the head to the tail.
    pub closed spec fn traversal(&self) -> Seq<usize> {
        self.before@.push(self.stub) + self.after@
    }

    /// The index of the sentinel.
    pub closed spec fn sentinel(&self) -> usize {
        self.stub
    }

    /// The consumer's position: the first node of the traversal.
    pub closed spec fn head_index(&self) -> usize {
        self.head
    }

    /// The producers' position: the last node of the traversal.
    pub closed spec fn tail_index(&self) -> usize {
        self.tail
    }

    /// The allocations, the queue and the counters, in mathematical terms.
    pub closed spec fn view(&self) -> CollectorView<T> {
        CollectorView {
            nodes: self.used@.mk_map(|i: usize| self.slots@[i as int]->Used_0.data),
            pending: self.before@ + self.after@,
            handles: self.handles as nat,
            allocs: self.allocs as nat,
        }
    }

    /// The representation invariant.
    pub closed spec fn wf(&self) -> bool {
        let q = self.traversal();
        let p = self.before@ + self.after@;
        &&& self.stub < self.slots@.len()
        &&& self.slots@[self.stub as int] is Sentinel
        &&& forall|i: int|
            0 <= i < self.slots@.len() && i != self.stub ==> !(self.slots@[i] is Sentinel)
        &&& q[0] == self.head
        &&& q.last() == self.tail
        &&& forall|k: int| 0 <= k < q.len() - 1 ==> #[trigger] next_in(self.slots@, q[k]) == Some(q[k + 1])
        &&& self.next_of(self.tail) is None
        &&& q.no_duplicates()
        &&& forall|k: int| 0 <= k < q.len() ==> #[trigger] q[k] < self.slots@.len()
        &&& forall|k: int| 0 <= k < p.len() ==> self.used@.contains(#[trigger] p[k])
        &&& forall|k: int|
            0 <= k < p.len() ==> self.slots@[#[trigger] p[k] as int]->Used_0.link is Queued
        &&& self.used@.finite()
        &&& forall|i: usize|
            #[trigger] self.used@.contains(i) <==> (i < self.slots@.len()
                && self.slots@[i as int] is Used)
        &&& self.allocs == self.used@.len()
        &&& self.free@.no_duplicates()
        &&& forall|k: int|
            0 <= k < self.free@.len() ==> #[trigger] self.free@[k] < self.slots@.len()
                && self.slots@[self.free@[k] as int] is Free
    }

    /// Constructs a new `Collector`, whose queue holds the sentinel alone.
    pub fn new() -> (r: Collector<T>)
        ensures
            r.wf(),
            r@ == CollectorView::<T>::empty(),
            r.traversal() == seq![r.sentinel()],
            r.head_index() == r.sentinel(),
            r.tail_index() == r.sentinel(),
            r.next_of(r.sentinel()) is None,
    {
        let mut slots: Vec<Slot<T>> = Vec::new();
        slots.push(Slot::Sentinel(None));
        let r = Collector {
            slots,
            free: Vec::new(),
            head: 0,
            tail: 0,
            stub: 0,
            handles: 0,
            allocs: 0,
            before: Ghost(Seq::empty()),
            after: Ghost(Seq::empty()),
            used: Ghost(Set::empty()),
        };
        assert(r.traversal() =~= seq![0usize]);
        assert(r@.nodes =~= Map::empty());
        assert(r@.pending =~= Seq::empty());
        r
    }
}

/// The slot `s` with its successor set to `n`.
spec fn relinked<T>(s: Slot<T>, n: Option<usize>) -> Slot<T> {
    match s {
        Slot::Sentinel(_) => Slot::Sentinel(n),
        Slot::Used(node) => Slot::Used(Node { link: Link::Queued(n), data: node.data }),
        Slot::Free => Slot::Free,
    }
}

impl<T> Collector<T> {
    /// Every well-formed collector has a valid view.
    pub proof fn lemma_view_valid(&self)
        requires
            self.wf(),
        ensures
            self@.valid(),
    {
        let m = self@.nodes;
        assert(m.dom() =~= self.used@);
        let p = self.before@ + self.after@;
        let q = self.traversal();
        assert forall|a: int, b: int| 0 <= a < b < p.len() implies p[a] != p[b] by {
            let qa = if a < self.before@.len() { a } else { a + 1 };
            let qb = if b < self.before@.len() { b } else { b + 1 };
            assert(q[qa] == p[a]);
            assert(q[qb] == p[b]);
        }
        assert forall|k: int| 0 <= k < p.len() implies m.contains_key(#[trigger] p[k]) by {
            assert(self.used@.contains(p[k]));
        }
    }

    /// The traversal holds the sentinel and the queued allocations, and
    /// nothing else.
    proof fn lemma_traversal_members(&self, x: usize)
        requires
            self.wf(),
        ensures
            self.traversal().contains(x) <==> (x == self.stub || self@.pending.contains(x)),
            self.traversal().contains(x) ==> x < self.slots@.len(),
    {
        let q = self.traversal();
        let b = self.before@;
        let p = self.before@ + self.after@;
        if q.contains(x) {
            let k = choose|k: int| 0 <= k < q.len() && q[k] == x;
            if k < b.len() {
                assert(p[k] == x);
            } else if k > b.len() {
                assert(p[k - 1] == x);
            }
        }
        if p.contains(x) {
            let k = choose|k: int| 0 <= k < p.len() && p[k] == x;
            if k < b.len() {
                assert(q[k] == x);
            } else {
                assert(q[k + 1] == x);
            }
        }
        if x == self.stub {
            assert(q[b.len() as int] == x);
        }
    }

    fn next_index(&self, i: usize) -> (r: Option<usize>)
        requires
            i < self.slots@.len(),
        ensures
            r == self.next_of(i),
    {
        match &self.slots[i] {
            Slot::Sentinel(n) => *n,
            Slot::Used(node) => match node.link {
                Link::Queued(n) => n,
                Link::Unqueued => None,
            },
            Slot::Free => None,
        }
    }

    fn set_next(&mut self, i: usize, n: Option<usize>)
        requires
            i < old(self).slots@.len(),
        ensures
            final(self).slots@ == old(self).slots@.update(i as int, relinked(old(self).slots@[i as int], n)),
            final(self).free == old(self).free,
            final(self).head == old(self).head,
            final(self).tail == old(self).tail,
            final(self).stub == old(self).stub,
            final(self).handles == old(self).handles,
            final(self).allocs == old(self).allocs,
            final(self).before == old(self).before,
            final(self).after == old(self).after,
            final(self).used == old(self).used,
    {
        let mut s = Slot::Free;
        std::mem::swap(&mut self.slots[i], &mut s);
        let s2 = match s {
            Slot::Sentinel(_) => Slot::Sentinel(n),
            Slot::Used(node) => Slot::Used(Node { link: Link::Queued(n), data: node.data }),
            Slot::Free => Slot::Free,
        };
        self.slots[i] = s2;
    }
}

impl<T> Node<T> {
    /// Allocates a node holding `data` through `handle`. The node is not queued
    /// for dropping until [`Node::queue_drop`] is called on it.
    pub fn allocate(handle: &Handle, c: &mut Collector<T>, data: T) -> (r: usize)
        requires
            old(c).wf(),
            old(c)@.handles > 0,
            old(c)@.allocs < usize::MAX,
        ensures
            final(c).wf(),
            !old(c)@.nodes.contains_key(r),
            final(c)@ == old(c)@.allocate(r, data),
            final(c).traversal() == old(c).traversal(),
            final(c).sentinel() == old(c).sentinel(),
    {
        let node = Slot::Used(Node { link: Link::Unqueued, data });
        let i: usize;
        match c.free.pop() {
            Some(f) => {
                i = f;
                c.slots[f] = node;
            },
            None => {
                i = c.slots.len();
                c.slots.push(node);
            },
        }
        assert(!c.used@.contains(i));
        c.used = Ghost(c.used@.insert(i));
        c.allocs = c.allocs + 1;
        proof {
            let q = c.traversal();
            assert forall|k: int| 0 <= k < q.len() implies #[trigger] q[k] != i by {
                old(c).lemma_traversal_members(q[k]);
                old(c).lemma_traversal_members(i);
                assert(q.contains(q[k]));
                if q[k] != old(c).stub {
                    assert(old(c).used@.contains(q[k]));
                }
            }
            assert forall|k: int| 0 <= k < q.len() - 1 implies #[trigger] next_in(c.slots@, q[k]) == Some(q[k + 1]) by {
                assert(q[k] != i);
                assert(next_in(old(c).slots@, q[k]) == Some(q[k + 1]));
            }
            assert forall|k: int| 0 <= k < c.free@.len() implies #[trigger] c.free@[k] != i by {
                assert(old(c).free@[k] == c.free@[k]);
                assert(old(c).free@.last() == i);
            }
            assert(c@.nodes =~= old(c)@.nodes.insert(i, c.slots@[i as int]->Used_0.data));
        }
        i
    }

    /// Adds allocation `i` to the drop queue of `c`. Its payload is dropped by a
    /// later [`Collector::collect_one`] or [`Collector::collect`].
    pub fn queue_drop(c: &mut Collector<T>, i: usize)
        requires
            old(c).wf(),
            old(c)@.is_live(i),
        ensures
            final(c).wf(),
            final(c)@ == old(c)@.queue_drop(i),
            final(c).traversal() == old(c).traversal().push(i),
            final(c).sentinel() == old(c).sentinel(),
            final(c).head_index() == old(c).head_index(),
            final(c).tail_index() == i,
            final(c).next_of(i) is None,
            final(c).next_of(old(c).tail_index()) == Some(i),
    {
        proof {
            old(c).lemma_view_valid();
            old(c).lemma_traversal_members(i);
            assert(old(c).used@.contains(i));
        }
        c.set_next(i, None);
        let prev = c.tail;
        c.tail = i;
        c.set_next(prev, Some(i));
        c.after = Ghost(c.after@.push(i));
        proof {
            assert(c.traversal() =~= old(c).traversal().push(i));
            assert(c@.pending =~= old(c)@.pending.push(i));
            assert(c@.nodes =~= old(c)@.nodes);
            let q = c.traversal();
            let oq = old(c).traversal();
            assert forall|k: int| 0 <= k < q.len() - 1 implies #[trigger] next_in(c.slots@, q[k]) == Some(q[k + 1]) by {
                assert(oq.contains(q[k]));
                assert(q[k] != i);
                if k < q.len() - 2 {
                    assert(q[k] != prev);
                    assert(next_in(old(c).slots@, q[k]) == Some(q[k + 1]));
                } else {
                    old(c).lemma_traversal_members(prev);
                    assert(oq.contains(prev));
                    if prev != old(c).stub {
                        assert(old(c).used@.contains(prev));
                    }
                }
            }
            assert(q.no_duplicates());
            assert(q[q.len() - 2] == prev);
            assert(next_in(c.slots@, q[q.len() - 2]) == Some(q[q.len() - 1]));
            let p = c.before@ + c.after@;
            assert forall|k: int| 0 <= k < p.len() implies c.slots@[#[trigger] p[k] as int]->Used_0.link is Queued by {
                if k < p.len() - 1 {
                    assert(old(c)@.pending[k] == p[k]);
                }
            }
        }
    }
}

impl<T> Collector<T> {
    /// Moves the head past the sentinel and links the sentinel in again at the
    /// tail, behind every queued allocation.
    fn step_past_sentinel(&mut self, next: usize)
        requires
            old(self).wf(),
            old(self).head == old(self).stub,
            old(self).next_of(old(self).head) == Some(next),
        ensures
            final(self).wf(),
            final(self)@ == old(self)@,
            final(self).stub == old(self).stub,
            final(self).tail == final(self).stub,
            final(self).before@ == old(self).after@,
            final(self).after@.len() == 0,
            final(self).before@.len() > 0,
    {
        let ghost q = self.traversal();
        proof {
            assert(self.before@.len() == 0) by {
                if self.before@.len() > 0 {
                    assert(q[0] == self.before@[0]);
                    assert(q[self.before@.len() as int] == self.stub);
                }
            }
            assert(q[0] == self.stub);
            assert(q.len() > 1) by {
                if q.len() == 1 {
                    assert(self.tail == self.stub);
                }
            }
            assert(self.after@[0] == q[1]);
        }
        let s = self.head;
        self.head = next;
        self.set_next(s, None);
        let prev = self.tail;
        self.tail = s;
        self.set_next(prev, Some(s));
        self.before = Ghost(self.after@);
        self.after = Ghost(Seq::empty());
        proof {
            let nq = self.traversal();
            assert(nq =~= q.drop_first().push(s));
            assert(self.before@ + self.after@ =~= old(self).before@ + old(self).after@);
            assert forall|k: int| 0 <= k < nq.len() - 1 implies #[trigger] next_in(self.slots@, nq[k]) == Some(nq[k + 1]) by {
                assert(nq[k] == q[k + 1]);
                assert(nq[k] != s);
                if k < nq.len() - 2 {
                    assert(nq[k] != prev);
                    assert(next_in(old(self).slots@, q[k + 1]) == Some(q[k + 2]));
                } else {
                    assert(prev == q.last());
                    old(self).lemma_traversal_members(prev);
                    assert(q.contains(prev));
                    assert(old(self).used@.contains(prev));
                }
            }
            assert(nq.no_duplicates());
            assert forall|j: usize| #[trigger] self.used@.contains(j) implies self.slots@[j as int]->Used_0.data
                == old(self).slots@[j as int]->Used_0.data by {}
            assert(self@.nodes =~= old(self)@.nodes);
        }
    }

    /// Reclaims the allocation at the head, which is queued ahead of the
    /// sentinel: its payload is dropped and its place goes on the free list.
    fn reclaim_head(&mut self)
        requires
            old(self).wf(),
            old(self).before@.len() > 0,
        ensures
            final(self).wf(),
            final(self)@ == old(self)@.reclaim_first(),
            final(self).stub == old(self).stub,
            final(self).tail == old(self).tail,
            final(self).after@ == old(self).after@,
    {
        let ghost q = self.traversal();
        let ghost b = self.before@;
        let h = self.head;
        proof {
            self.lemma_view_valid();
            assert(q[0] == b[0]);
            assert(q.len() > 1);
            assert(self.used@.contains(h)) by {
                assert((b + self.after@)[0] == h);
            }
            assert(h != self.stub);
            assert forall|k: int| 0 <= k < self.free@.len() implies #[trigger] self.free@[k] != h by {}
            assert(self.used@.remove(h).len() == self.used@.len() - 1);
        }
        let n = self.next_index(h);
        self.head = n.unwrap();
        self.slots[h] = Slot::Free;
        self.free.push(h);
        self.allocs = self.allocs - 1;
        self.used = Ghost(self.used@.remove(h));
        self.before = Ghost(b.drop_first());
        proof {
            let nq = self.traversal();
            assert(nq =~= q.drop_first());
            let op = b + old(self).after@;
            assert(self.before@ + self.after@ =~= op.drop_first());
            assert forall|k: int| 0 <= k < nq.len() - 1 implies #[trigger] next_in(self.slots@, nq[k]) == Some(nq[k + 1]) by {
                assert(nq[k] == q[k + 1]);
                assert(next_in(old(self).slots@, q[k + 1]) == Some(q[k + 2]));
            }
            assert forall|k: int| 0 <= k < nq.len() implies #[trigger] nq[k] != h by {
                assert(nq[k] == q[k + 1]);
            }
            let p = self.before@ + self.after@;
            assert forall|k: int| 0 <= k < p.len() implies self.used@.contains(#[trigger] p[k]) by {
                assert(p[k] == op[k + 1]);
                assert(op[0] == h);
                assert(old(self).used@.contains(op[k + 1]));
            }
            assert(self@.nodes =~= old(self)@.nodes.remove(h));
        }
    }

    /// Attempts to drop the first allocation in the queue. Returns true iff one
    /// was queued; it is then reclaimed. When the head is the sentinel, the
    /// sentinel is first linked in again as the new tail.
    pub fn collect_one(&mut self) -> (r: bool)
        requires
            old(self).wf(),
        ensures
            final(self).wf(),
            r == (old(self)@.pending.len() > 0),
            r ==> final(self)@ == old(self)@.reclaim_first(),
            !r ==> *final(self) == *old(self),
            final(self).sentinel() == old(self).sentinel(),
            r && old(self).head_index() == old(self).sentinel() ==> final(self).tail_index()
                == final(self).sentinel(),
    {
        let next = self.next_index(self.head);
        let ghost q = self.traversal();
        match next {
            None => {
                proof {
                    assert(q.len() == 1) by {
                        if q.len() > 1 {
                            assert(next_in(self.slots@, q[0]) == Some(q[1]));
                        }
                    }
                    assert(self.before@.len() == 0 && self.after@.len() == 0) by {
                        assert(q.len() == self.before@.len() + 1 + self.after@.len());
                    }
                }
                return false;
            },
            Some(n) => {
                if self.head == self.stub {
                    self.step_past_sentinel(n);
                } else {
                    proof {
                        if self.before@.len() == 0 {
                            assert(q[0] == self.stub);
                        }
                    }
                }
                self.reclaim_head();
                true
            },
        }
    }

    /// Drops all of the garbage in the queue: every queued allocation is
    /// reclaimed, and the queue is left holding the sentinel alone.
    pub fn collect(&mut self)
        requires
            old(self).wf(),
        ensures
            final(self).wf(),
            final(self)@ == old(self)@.drained(),
            final(self).traversal() == seq![final(self).sentinel()],
            final(self).head_index() == final(self).sentinel(),
            final(self).tail_index() == final(self).sentinel(),
            final(self).next_of(final(self).sentinel()) is None,
            final(self).sentinel() == old(self).sentinel(),
    {
        proof {
            self.lemma_view_valid();
        }
        loop
            invariant
                self.wf(),
                self@.drained() == old(self)@.drained(),
                self.sentinel() == old(self).sentinel(),
            ensures
                self.wf(),
                self@.drained() == old(self)@.drained(),
                self.sentinel() == old(self).sentinel(),
                self@.pending.len() == 0,
            decreases self@.pending.len(),
        {
            let ghost v = self@;
            proof {
                self.lemma_view_valid();
            }
            if !self.collect_one() {
                break;
            }
            proof {
                CollectorView::lemma_reclaim_first_drained(v);
            }
        }
        proof {
            self.lemma_view_valid();
        }
        assert(self@.pending.to_set() =~= Set::empty());
        assert(self@.nodes =~= self@.nodes.remove_keys(self@.pending.to_set()));
        assert(self.before@.len() == 0 && self.after@.len() == 0);
        assert(self.traversal() =~= seq![self.stub]);
        assert(self@.pending =~= Seq::empty());
        assert(self@.drained() =~= self@);
    }
}

impl<T> Collector<T> {
    /// Gets a [`Handle`] to this `Collector`.
    pub fn handle(&mut self) -> (r: Handle)
        requires
            old(self).wf(),
            old(self)@.handles < usize::MAX,
        ensures
            final(self).wf(),
            final(self)@ == old(self)@.add_handle(),
            final(self).traversal() == old(self).traversal(),
            final(self).sentinel() == old(self).sentinel(),
    {
        self.handles = self.handles + 1;
        Handle { marker: () }
    }

    /// Gets the number of live [`Handle`]s to this `Collector`.
    pub fn handle_count(&self) -> (r: usize)
        ensures
            r == self@.handles,
    {
        self.handles
    }

    /// Gets the number of live allocations associated with this `Collector`.
    pub fn alloc_count(&self) -> (r: usize)
        ensures
            r == self@.allocs,
    {
        self.allocs
    }

    /// Frees the collector if no handle and no allocation is left; otherwise
    /// hands it back unchanged.
    pub fn try_cleanup(self) -> (r: Result<(), Self>)
        ensures
            r is Ok <==> (self@.handles == 0 && self@.allocs == 0),
            r matches Err(c) ==> c == self,
    {
        if self.handles == 0 && self.allocs == 0 {
            Ok(())
        } else {
            Err(self)
        }
    }
}

impl Handle {
    /// Makes another handle to the same collector.
    pub fn duplicate<T>(&self, c: &mut Collector<T>) -> (r: Handle)
        requires
            old(c).wf(),
            old(c)@.handles < usize::MAX,
        ensures
            final(c).wf(),
            final(c)@ == old(c)@.add_handle(),
            final(c).traversal() == old(c).traversal(),
            final(c).sentinel() == old(c).sentinel(),
    {
        c.handle()
    }

    /// Gives up this handle.
    pub fn release<T>(self, c: &mut Collector<T>)
        requires
            old(c).wf(),
            old(c)@.handles > 0,
        ensures
            final(c).wf(),
            final(c)@ == old(c)@.remove_handle(),
            final(c).traversal() == old(c).traversal(),
            final(c).sentinel() == old(c).sentinel(),
    {
        c.handles = c.handles - 1;
    }
}

impl<T> Node<T> {
    /// Gets a [`Handle`] to the collector of allocation `i`, which must not be
    /// queued yet.
    pub fn handle(c: &mut Collector<T>, i: usize) -> (r: Handle)
        requires
            old(c).wf(),
            old(c)@.is_live(i),
            old(c)@.handles < usize::MAX,
        ensures
            final(c).wf(),
            final(c)@ == old(c)@.add_handle(),
            final(c).traversal() == old(c).traversal(),
            final(c).sentinel() == old(c).sentinel(),
    {
        c.handle()
    }
}

impl<T> Collector<T> {
    /// The payload of allocation `i`.
    pub(crate) fn data_ref(&self, i: usize) -> (r: &T)
        requires
            self.wf(),
            self@.nodes.contains_key(i),
        ensures
            *r == self@.nodes[i],
    {
        proof {
            assert(self.used@.contains(i));
        }
        match &self.slots[i] {
            Slot::Used(node) => &node.data,
            _ => vstd::pervasive::unreached(),
        }
    }

    /// Whether `c` is `self` with the payload of allocation `i` replaced by `d`.
    pub(crate) closed spec fn same_but_data(&self, c: &Self, i: usize, d: T) -> bool {
        &&& c.slots@ == self.slots@.update(
            i as int,
            Slot::Used(Node { link: self.slots@[i as int]->Used_0.link, data: d }),
        )
        &&& c.free == self.free
        &&& c.head == self.head
        &&& c.tail == self.tail
        &&& c.stub == self.stub
        &&& c.handles == self.handles
        &&& c.allocs == self.allocs
        &&& c.before == self.before
        &&& c.after == self.after
        &&& c.used == self.used
    }

    /// Replacing the payload of an allocation keeps the collector well formed.
    proof fn lemma_data_irrelevant(&self, i: usize)
        requires
            self.wf(),
            self.used@.contains(i),
        ensures
            forall|c: Self, d: T| #[trigger] self.same_but_data(&c, i, d) ==> c.wf() && c@ == self@.with_data(i, d),
    {
        assert forall|c: Self, d: T| #[trigger] self.same_but_data(&c, i, d) implies c.wf() && c@ == self@.with_data(i, d) by {
            let q = self.traversal();
            assert(c.traversal() == q);
            assert forall|k: int| 0 <= k < q.len() - 1 implies #[trigger] next_in(c.slots@, q[k]) == Some(q[k + 1]) by {
                assert(next_in(self.slots@, q[k]) == Some(q[k + 1]));
            }
            assert(c@.nodes =~= self@.nodes.insert(i, d));
        }
    }

    /// Exclusive access to the payload of allocation `i`.
    pub(crate) fn data_mut(&mut self, i: usize) -> (r: &mut T)
        requires
            old(self).wf(),
            old(self)@.nodes.contains_key(i),
        ensures
            *r == old(self)@.nodes[i],
            old(self).same_but_data(final(self), i, *final(r)),
            final(self).wf(),
            final(self)@ == old(self)@.with_data(i, *final(r)),
            final(self).traversal() == old(self).traversal(),
            final(self).sentinel() == old(self).sentinel(),
    {
        proof {
            assert(self.used@.contains(i));
            self.lemma_data_irrelevant(i);
        }
        match &mut self.slots[i] {
            Slot::Used(node) => &mut node.data,
            _ => vstd::pervasive::unreached(),
        }
    }
}

impl<T> CollectorView<T> {
    /// Giving up a live allocation keeps the view valid and leaves the other
    /// allocations as they were; the allocation is queued once, at the end.
    pub proof fn lemma_queue_drop_valid(self, i: usize)
        requires
            self.valid(),
            self.is_live(i),
        ensures
            self.queue_drop(i).valid(),
            !self.queue_drop(i).is_live(i),
            forall|j: usize| j != i ==> (self.is_live(j) <==> #[trigger] self.queue_drop(i).is_live(j)),
    {
        let p = self.pending.push(i);
        assert forall|k: int| 0 <= k < p.len() implies self.nodes.contains_key(#[trigger] p[k]) by {
            if k < self.pending.len() {
                assert(p[k] == self.pending[k]);
            }
        }
        assert(p[p.len() - 1] == i);
        assert forall|j: usize| j != i implies (self.is_live(j) <==> #[trigger] self.queue_drop(i).is_live(j)) by {
            if p.contains(j) {
                let k = choose|k: int| 0 <= k < p.len() && p[k] == j;
                assert(self.pending[k] == j);
            }
            if self.pending.contains(j) {
                let k = choose|k: int| 0 <= k < self.pending.len() && self.pending[k] == j;
                assert(p[k] == j);
            }
        }
    }

    /// Each step of collection reclaims the allocation that was given up
    /// first, which no owner holds any more, removes it for good, and leaves
    /// every allocation that is still held untouched.
    pub proof fn lemma_reclaim_spares_live(self)
        requires
            self.valid(),
            self.pending.len() > 0,
        ensures
            !self.is_live(self.pending[0]),
            self.nodes.contains_key(self.pending[0]),
            !self.reclaim_first().nodes.contains_key(self.pending[0]),
            !self.reclaim_first().pending.contains(self.pending[0]),
            self.reclaim_first().valid(),
            forall|j: usize| #[trigger] self.is_live(j) ==> self.reclaim_first().is_live(j)
                && self.reclaim_first().nodes[j] == self.nodes[j],
    {
        let p = self.pending;
        let r = self.reclaim_first();
        assert(p.contains(p[0]));
        assert(self.nodes.remove(p[0]).len() == self.nodes.len() - 1);
        assert forall|k: int| 0 <= k < r.pending.len() implies r.nodes.contains_key(#[trigger] r.pending[k]) by {
            assert(r.pending[k] == p[k + 1]);
            assert(self.nodes.contains_key(p[k + 1]));
        }
        assert(!r.pending.contains(p[0])) by {
            if r.pending.contains(p[0]) {
                let k = choose|k: int| 0 <= k < r.pending.len() && r.pending[k] == p[0];
                assert(p[k + 1] == p[0]);
            }
        }
        assert forall|j: usize| #[trigger] self.is_live(j) implies r.is_live(j) && r.nodes[j] == self.nodes[j] by {
            if r.pending.contains(j) {
                let k = choose|k: int| 0 <= k < r.pending.len() && r.pending[k] == j;
                assert(p[k + 1] == j);
            }
        }
    }

    /// After a full collection every allocation has exactly one of two fates:
    /// it is still held by its owner and kept as it was, or it had been given
    /// up and is reclaimed. Nothing is left in the queue.
    pub proof fn lemma_drained_outcome(self)
        requires
            self.valid(),
        ensures
            self.drained().valid(),
            self.drained().pending.len() == 0,
            forall|j: usize| #[trigger] self.drained().nodes.contains_key(j) <==> self.is_live(j),
            forall|j: usize| #[trigger] self.is_live(j) ==> self.drained().nodes[j] == self.nodes[j],
    {
        let d = self.drained();
        let s = self.pending.to_set();
        assert forall|j: usize| #[trigger] d.nodes.contains_key(j) <==> self.is_live(j) by {
            assert(s.contains(j) <==> self.pending.contains(j));
        }
        self.lemma_pending_len();
        assert(d.nodes.dom() =~= self.nodes.dom().difference(s));
        assert(s.subset_of(self.nodes.dom()));
        vstd::set_lib::lemma_set_intersect_union_lens(self.nodes.dom(), s);
        assert(self.nodes.dom().intersect(s) =~= s);
        assert(self.nodes.dom().union(s) =~= self.nodes.dom());
        assert(self.nodes.dom().difference(s).len() + s.len() == self.nodes.dom().len()) by {
            vstd::set_lib::lemma_set_difference_len(self.nodes.dom(), s);
        }
    }

    /// The queue holds no more allocations than the collector counts.
    proof fn lemma_pending_len(self)
        requires
            self.valid(),
        ensures
            self.pending.to_set().len() == self.pending.len(),
            self.pending.len() <= self.allocs,
            self.pending.to_set().subset_of(self.nodes.dom()),
    {
        self.pending.unique_seq_to_set();
        assert(self.pending.to_set().subset_of(self.nodes.dom()));
        vstd::set_lib::lemma_len_subset(self.pending.to_set(), self.nodes.dom());
    }

    /// Once every owner has given up its allocation, a full collection leaves
    /// no allocation behind.
    pub proof fn lemma_drain_without_owners(self)
        requires
            self.valid(),
            forall|j: usize| !self.is_live(j),
        ensures
            self.drained().allocs == 0,
            self.drained().nodes.dom() == Set::<usize>::empty(),
    {
        self.lemma_drained_outcome();
        assert(self.drained().nodes.dom() =~= Set::<usize>::empty());
    }

    /// Collecting twice in a row does no more than collecting once.
    pub proof fn lemma_drained_idempotent(self)
        requires
            self.valid(),
        ensures
            self.drained().drained() == self.drained(),
    {
        let d = self.drained();
        assert(d.pending.to_set() =~= Set::empty());
        assert(d.drained().nodes =~= d.nodes);
        assert(d.drained().pending =~= d.pending);
    }

    /// A brand-new collector has nothing to collect, and neither a handle nor
    /// an allocation that would keep it from being cleaned up.
    pub proof fn lemma_empty_collector()
        ensures
            Self::empty().valid(),
            Self::empty().pending.len() == 0,
            Self::empty().handles == 0 && Self::empty().allocs == 0,
    {
        assert(Self::empty().nodes.dom() =~= Set::empty());
    }
}

impl<T> Collector<T> {
    /// How the queue hangs together: it runs by the links from the head to the
    /// tail, which has no successor, and it holds the sentinel and exactly the
    /// queued allocations.
    pub proof fn lemma_queue_shape(&self)
        requires
            self.wf(),
        ensures
            self.traversal()[0] == self.head_index(),
            self.traversal().last() == self.tail_index(),
            self.next_of(self.tail_index()) is None,
            forall|k: int|
                0 <= k < self.traversal().len() - 1 ==> #[trigger] self.next_of(self.traversal()[k])
                    == Some(self.traversal()[k + 1]),
            self.traversal().len() == self@.pending.len() + 1,
            forall|x: usize|
                #[trigger] self.traversal().contains(x) <==> (x == self.sentinel()
                    || self@.pending.contains(x)),
    {
        let q = self.traversal();
        assert forall|k: int| 0 <= k < q.len() - 1 implies #[trigger] self.next_of(q[k]) == Some(q[k + 1]) by {
            assert(next_in(self.slots@, q[k]) == Some(q[k + 1]));
        }
        assert forall|x: usize| #[trigger] q.contains(x) <==> (x == self.stub || self@.pending.contains(x)) by {
            self.lemma_traversal_members(x);
        }
    }

    /// The sentinel appears exactly once in the traversal of the queue.
    pub proof fn lemma_sentinel_once(&self)
        requires
            self.wf(),
        ensures
            exists|k: int|
                0 <= k < self.traversal().len() && self.traversal()[k] == self.sentinel() && forall|j: int|
                    0 <= j < self.traversal().len() && #[trigger] self.traversal()[j] == self.sentinel() ==> j == k,
    {
        let q = self.traversal();
        let k = self.before@.len() as int;
        assert(q[k] == self.stub);
    }
}

} // verus!

use vstd::prelude::*;

use crate::epoch::{next_epoch, Global, Local};

verus! {

/// Room in each of the reclaimer's queues; at least twice the number of
/// workers, plus one.
pub const STACK_CAP: usize = 33;

/// How many retired nodes a worker gathers before handing them on; at
/// least two.
pub const STACK_LIMIT: usize = 8;

/// The collector a worker uses with an [`AtomicStack`].
pub type StackCollector = Local<usize, STACK_LIMIT, STACK_CAP>;

/// A node of the stack: the payload, until a pop takes it, and the index of
/// the node below.
pub struct Node<C> {
    data: Option<C>,
    next: Option<usize>,
}

impl<C> Node<C> {
    /// The payload, unless a pop took it.
    pub closed spec fn payload(&self) -> Option<C> {
        self.data
    }

    /// The index of the node below, if any.
    pub closed spec fn below(&self) -> Option<usize> {
        self.next
    }

    /// A node that owns `data` and has nothing below it.
    pub fn new(data: C) -> (r: Self)
        ensures
            r.payload() == Some(data),
            r.below() is None,
    {
        Node { data: Some(data), next: None }
    }
}

/// A Treiber stack over an arena of nodes, addressed by index.
///
/// A popped node is retired to the epoch reclaimer; its slot is freed, and
/// may be handed to a later push, only when the reclaimer gives it back.
/// The length is kept exactly: it is the number of payloads on the stack.
pub struct AtomicStack<C> {
    length: usize,
    head: Option<usize>,
    nodes: Vec<Option<Node<C>>>,
    free: Vec<usize>,
    garbage_collector: Global<usize, STACK_CAP>,
    /// The indices of the nodes on the stack, bottom first.
    chain: Ghost<Seq<usize>>,
}

impl<C> View for AtomicStack<C> {
    type V = Seq<C>;

    /// The payloads on the stack, bottom first.
    closed spec fn view(&self) -> Seq<C> {
        Seq::new(
            self.chain@.len(),
            |k: int| self.nodes@[self.chain@[k] as int]->Some_0.data->Some_0,
        )
    }
}

impl<C> AtomicStack<C> {
    /// The node at height `k` holds a payload and links to the node below.
    closed spec fn linked(&self, k: int) -> bool {
        let i = self.chain@[k] as int;
        &&& 0 <= i < self.nodes@.len()
        &&& self.nodes@[i] is Some
        &&& self.nodes@[i]->Some_0.data is Some
        &&& self.nodes@[i]->Some_0.next == if k == 0 {
            None
        } else {
            Some(self.chain@[k - 1])
        }
    }

    closed spec fn wf_nodes(&self) -> bool {
        &&& self.length == self.chain@.len()
        &&& self.chain@.no_duplicates()
        &&& self.head == if self.chain@.len() == 0 {
            None
        } else {
            Some(self.chain@.last())
        }
        &&& forall|k: int| 0 <= k < self.chain@.len() ==> #[trigger] self.linked(k)
        &&& self.free@.no_duplicates()
        &&& forall|j: int|
            0 <= j < self.free@.len() ==> {
                &&& (#[trigger] self.free@[j]) < self.nodes@.len()
                &&& self.nodes@[self.free@[j] as int] is None
            }
    }

    /// The nodes, the links and the free slots alone make a stack
    /// well-formed.
    proof fn lemma_wf_nodes_frame(a: &Self, b: &Self)
        requires
            a.wf_nodes(),
            b.length == a.length,
            b.head == a.head,
            b.nodes == a.nodes,
            b.free == a.free,
            b.chain == a.chain,
        ensures
            b.wf_nodes(),
            b@ == a@,
    {
        assert forall|k: int| 0 <= k < b.chain@.len() implies #[trigger] b.linked(k) by {
            assert(a.linked(k));
        }
        assert(b@ =~= a@);
    }

    /// A pin that was counted in one epoch and withdrawn from the same
    /// epoch leaves every count as it was.
    proof fn lemma_unpinned(a: &Self, b: &Self, c: &Self)
        requires
            forall|e: int| 0 <= e < 3 ==> a.garbage_collector.pinned_in(e) == 0,
            exists|at: int|
                Global::pins_shifted(&a.garbage_collector, &b.garbage_collector, at, 1)
                    && Global::pins_shifted(&b.garbage_collector, &c.garbage_collector, at, -1),
        ensures
            forall|e: int| 0 <= e < 3 ==> c.garbage_collector.pinned_in(e) == 0,
    {
        let at = choose|at: int|
            Global::pins_shifted(&a.garbage_collector, &b.garbage_collector, at, 1)
                && Global::pins_shifted(&b.garbage_collector, &c.garbage_collector, at, -1);
        assert forall|e: int| 0 <= e < 3 implies c.garbage_collector.pinned_in(e) == 0 by {
            assert(b.garbage_collector.pinned_in(e) == a.garbage_collector.pinned_in(e) + if e
                == at {
                1int
            } else {
                0int
            });
        }
    }

    /// Well-formed, with no worker pinned: every operation unpins before it
    /// returns.
    pub closed spec fn wf(&self) -> bool {
        &&& self.wf_nodes()
        &&& self.garbage_collector.wf()
        &&& forall|e: int| 0 <= e < 3 ==> self.garbage_collector.pinned_in(e) == 0
        &&& 0 <= self.garbage_collector.epoch() < 3
        &&& self.garbage_collector.queued(next_epoch(self.garbage_collector.epoch())).len() == 0
    }

    /// The index of the node on top, which a pop retires.
    pub closed spec fn top_index(&self) -> usize {
        self.chain@.last()
    }

    /// An empty stack.
    pub fn new() -> (r: Self)
        ensures
            r.wf(),
            r@ == Seq::<C>::empty(),
    {
        let r = AtomicStack {
            length: 0,
            head: None,
            nodes: Vec::new(),
            free: Vec::new(),
            garbage_collector: Global::new(),
            chain: Ghost(Seq::empty()),
        };
        assert(r@ =~= Seq::<C>::empty());
        r
    }

    /// A fresh collector for a worker that will use this stack.
    pub fn get_gc(&self) -> (r: StackCollector)
        ensures
            r.wf(),
            r.pinned() == 0,
            r@ == Seq::<usize>::empty(),
    {
        Local::new()
    }

    /// Frees the slots that the reclaimer handed back. A slot is freed only
    /// while it holds a node whose payload was taken; the nodes on the stack
    /// always hold theirs.
    fn reclaim(&mut self, freed: Vec<usize>)
        requires
            old(self).wf_nodes(),
        ensures
            final(self).wf_nodes(),
            final(self)@ == old(self)@,
            final(self).chain == old(self).chain,
            final(self).head == old(self).head,
            final(self).garbage_collector == old(self).garbage_collector,
    {
        let mut i: usize = 0;
        while i < freed.len()
            invariant
                self.wf_nodes(),
                self@ == old(self)@,
                self.chain == old(self).chain,
                self.head == old(self).head,
                self.garbage_collector == old(self).garbage_collector,
                self.nodes@.len() == old(self).nodes@.len(),
            decreases freed@.len() - i,
        {
            let index = freed[i];
            let taken = if index < self.nodes.len() {
                match &self.nodes[index] {
                    Some(node) => node.data.is_none(),
                    None => false,
                }
            } else {
                false
            };
            if taken {
                let ghost before = *self;
                assert forall|k: int| 0 <= k < self.chain@.len() implies self.chain@[k]
                    != index by {
                    assert(self.linked(k));
                }
                assert(!self.free@.contains(index)) by {
                    if self.free@.contains(index) {
                        let j = choose|j: int| 0 <= j < self.free@.len() && self.free@[j] == index;
                        assert(self.free@[j] < self.nodes@.len());
                    }
                }
                self.nodes.set(index, None);
                self.free.push(index);
                assert forall|k: int| 0 <= k < self.chain@.len() implies #[trigger] self.linked(
                    k,
                ) by {
                    assert(before.linked(k));
                }
                assert forall|j: int| 0 <= j < self.free@.len() implies {
                    &&& (#[trigger] self.free@[j]) < self.nodes@.len()
                    &&& self.nodes@[self.free@[j] as int] is None
                } by {
                    if j < before.free@.len() {
                        assert(before.free@[j] < before.nodes@.len());
                    }
                }
                assert(self@ =~= before@) by {
                    assert forall|k: int| 0 <= k < self.chain@.len() implies self@[k]
                        == before@[k] by {
                        assert(before.linked(k));
                    }
                }
            }
            i = i + 1;
        }
    }

    /// Pushes `element` on top.
    pub fn push(&mut self, element: C, gc: &mut StackCollector)
        requires
            old(self).wf(),
            old(gc).wf(),
            old(gc).pinned() == 0,
            old(self)@.len() < usize::MAX,
        ensures
            final(self).wf(),
            final(self)@ == old(self)@.push(element),
            final(gc).wf(),
            final(gc).pinned() == 0,
            final(gc)@ == old(gc)@,
    {
        let ghost start = *self;
        let freed = gc.pin(&mut self.garbage_collector);
        proof {
            Self::lemma_wf_nodes_frame(&start, &*self);
        }
        self.reclaim(freed);
        let ghost before = *self;
        let head = self.head;
        let node = Node { data: Some(element), next: head };
        let index = match self.free.pop() {
            Some(i) => {
                assert(before.free@[before.free@.len() - 1] == i);
                self.nodes.set(i, Some(node));
                i
            },
            None => {
                self.nodes.push(Some(node));
                self.nodes.len() - 1
            },
        };
        assert forall|k: int| 0 <= k < before.chain@.len() implies before.chain@[k] != index by {
            assert(before.linked(k));
        }
        // Holding the stack exclusively, the head cannot change between the
        // snapshot and the swap, so the swap succeeds at once.
        self.head = Some(index);
        self.length = self.length + 1;
        proof {
            self.chain@ = before.chain@.push(index);
        }
        assert forall|k: int| 0 <= k < self.chain@.len() implies #[trigger] self.linked(k) by {
            if k < before.chain@.len() {
                assert(before.linked(k));
            }
        }
        assert forall|j: int| 0 <= j < self.free@.len() implies {
            &&& (#[trigger] self.free@[j]) < self.nodes@.len()
            &&& self.nodes@[self.free@[j] as int] is None
        } by {
            assert(before.free@[j] < before.nodes@.len());
            assert(before.free@[j] != index);
        }
        assert(self@ =~= before@.push(element)) by {
            assert forall|k: int| 0 <= k < before.chain@.len() implies self@[k] == before@[k] by {
                assert(before.linked(k));
            }
        }
        let ghost settled = *self;
        gc.unpin(&mut self.garbage_collector);
        proof {
            Self::lemma_wf_nodes_frame(&settled, &*self);
            Self::lemma_unpinned(&start, &settled, &*self);
        }
    }

    /// Pops the top payload, or returns `None` when the stack is empty. The
    /// popped node is retired to the reclaimer through `gc`.
    pub fn pop(&mut self, gc: &mut StackCollector) -> (r: Option<C>)
        requires
            old(self).wf(),
            old(gc).wf(),
            old(gc).pinned() == 0,
        ensures
            final(self).wf(),
            final(gc).wf(),
            final(gc).pinned() == 0,
            old(self)@.len() == 0 ==> final(gc)@ == old(gc)@,
            old(self)@.len() > 0 && old(gc)@.len() < STACK_LIMIT ==> final(gc)@ == old(gc)@.push(
                old(self).top_index(),
            ),
            old(self)@.len() > 0 && old(gc)@.len() >= STACK_LIMIT ==> final(gc)@ == seq![
                old(self).top_index(),
            ],
            old(self)@.len() == 0 ==> r is None && final(self)@ == old(self)@,
            old(self)@.len() > 0 ==> r == Some(old(self)@.last()) && final(self)@ == old(
                self,
            )@.drop_last(),
    {
        let ghost start = *self;
        let freed = gc.pin(&mut self.garbage_collector);
        proof {
            Self::lemma_wf_nodes_frame(&start, &*self);
        }
        self.reclaim(freed);
        let ghost before = *self;
        match self.head {
            None => {
                let ghost settled = *self;
                gc.unpin(&mut self.garbage_collector);
                proof {
                    Self::lemma_wf_nodes_frame(&settled, &*self);
                    Self::lemma_unpinned(&start, &settled, &*self);
                }
                None
            },
            Some(h) => {
                let ghost top = before.chain@.len() - 1;
                assert(before.linked(top));
                let mut slot: Option<Node<C>> = None;
                self.nodes.set_and_swap(h, &mut slot);
                let (data, next) = match slot {
                    Some(node) => (node.data, node.next),
                    None => (None, None),
                };
                self.nodes.set(h, Some(Node { data: None, next }));
                // The swap of the head succeeds at once, as in `push`.
                self.head = next;
                self.length = self.length - 1;
                proof {
                    self.chain@ = before.chain@.drop_last();
                }
                assert forall|k: int| 0 <= k < self.chain@.len() implies #[trigger] self.linked(
                    k,
                ) by {
                    assert(before.linked(k));
                    assert(before.chain@[k] != h);
                }
                assert forall|j: int| 0 <= j < self.free@.len() implies {
                    &&& (#[trigger] self.free@[j]) < self.nodes@.len()
                    &&& self.nodes@[self.free@[j] as int] is None
                } by {
                    assert(before.free@[j] < before.nodes@.len());
                }
                assert(self@ =~= before@.drop_last()) by {
                    assert forall|k: int| 0 <= k < self.chain@.len() implies self@[k]
                        == before@[k] by {
                        assert(before.linked(k));
                        assert(before.chain@[k] != h);
                    }
                }
                let ghost unlinked = *self;
                gc.collect_garbage(&mut self.garbage_collector, h);
                let ghost settled = *self;
                proof {
                    Self::lemma_wf_nodes_frame(&unlinked, &settled);
                    let at = gc.epoch();
                    assert forall|e: int| 0 <= e < 3 implies #[trigger] settled.garbage_collector.pinned_in(e)
                        == start.garbage_collector.pinned_in(e) + if e == at {
                        1int
                    } else {
                        0int
                    } by {
                        assert(unlinked.garbage_collector.pinned_in(e)
                            == settled.garbage_collector.pinned_in(e));
                    }
                    assert(Global::pins_shifted(&start.garbage_collector, &settled.garbage_collector, at, 1));
                }
                gc.unpin(&mut self.garbage_collector);
                proof {
                    Self::lemma_wf_nodes_frame(&settled, &*self);
                    Self::lemma_unpinned(&start, &settled, &*self);
                }
                data
            },
        }
    }

    /// Pops the top payload of a stack that is known not to be empty.
    pub fn unchecked_pop(&mut self, gc: &mut StackCollector) -> (r: C)
        requires
            old(self).wf(),
            old(gc).wf(),
            old(gc).pinned() == 0,
            old(self)@.len() > 0,
        ensures
            final(self).wf(),
            final(gc).wf(),
            final(gc).pinned() == 0,
            old(gc)@.len() < STACK_LIMIT ==> final(gc)@ == old(gc)@.push(old(self).top_index()),
            old(gc)@.len() >= STACK_LIMIT ==> final(gc)@ == seq![old(self).top_index()],
            r == old(self)@.last(),
            final(self)@ == old(self)@.drop_last(),
    {
        self.pop(gc).unwrap()
    }

    /// The number of payloads on the stack.
    pub fn len(&self) -> (r: usize)
        requires
            self.wf(),
        ensures
            r == self@.len(),
    {
        self.length
    }

    /// Whether the stack holds no payload.
    pub fn is_empty(&self) -> (r: bool)
        requires
            self.wf(),
        ensures
            r == (self@.len() == 0),
    {
        self.head.is_none()
    }
}

/// One call on a stack: a push of a payload, or a pop.
pub enum StackOp<C> {
    Push(C),
    Pop,
}

/// What a sequence of calls does to a stack holding `start`, by the
/// contracts of `push` and `pop`: the payloads left on it, bottom first,
/// and the payloads the pops returned, in order.
pub open spec fn run<C>(start: Seq<C>, ops: Seq<StackOp<C>>) -> (Seq<C>, Seq<C>)
    decreases ops.len(),
{
    if ops.len() == 0 {
        (start, Seq::empty())
    } else {
        let (resident, popped) = run(start, ops.drop_last());
        match ops.last() {
            StackOp::Push(x) => (resident.push(x), popped),
            StackOp::Pop => if resident.len() == 0 {
                (resident, popped)
            } else {
                (resident.drop_last(), popped.push(resident.last()))
            },
        }
    }
}

/// The payloads pushed by a sequence of calls, in order.
pub open spec fn pushed<C>(ops: Seq<StackOp<C>>) -> Seq<C>
    decreases ops.len(),
{
    if ops.len() == 0 {
        Seq::empty()
    } else {
        match ops.last() {
            StackOp::Push(x) => pushed(ops.drop_last()).push(x),
            StackOp::Pop => pushed(ops.drop_last()),
        }
    }
}

/// Nothing is lost or made up: over any sequence of pushes and pops, what
/// the stack held at the start together with what was pushed is, as a
/// multiset, what the pops returned together with what is left.
pub proof fn lemma_stack_conservation<C>(start: Seq<C>, ops: Seq<StackOp<C>>)
    ensures
        start.to_multiset().add(pushed(ops).to_multiset()) == run(start, ops).1.to_multiset().add(
            run(start, ops).0.to_multiset(),
        ),
    decreases ops.len(),
{
    broadcast use vstd::seq_lib::group_to_multiset_ensures, vstd::multiset::group_multiset_axioms;

    if ops.len() > 0 {
        let rest = ops.drop_last();
        lemma_stack_conservation(start, rest);
        let (resident, popped) = run(start, rest);
        match ops.last() {
            StackOp::Push(x) => {
                assert(pushed(ops) == pushed(rest).push(x));
                assert(run(start, ops) == (resident.push(x), popped));
                assert(pushed(ops).to_multiset() =~= pushed(rest).to_multiset().insert(x));
                assert(resident.push(x).to_multiset() =~= resident.to_multiset().insert(x));
                let a = start.to_multiset();
                let b = pushed(rest).to_multiset();
                let c = popped.to_multiset();
                let d = resident.to_multiset();
                assert(a.add(b) == c.add(d));
                assert(a.add(b.insert(x)) =~= a.add(b).insert(x));
                assert(c.add(d.insert(x)) =~= c.add(d).insert(x));
            },
            StackOp::Pop => {
                if resident.len() > 0 {
                    let top = resident.last();
                    assert(resident =~= resident.drop_last().push(top));
                    assert(start.to_multiset().add(pushed(ops).to_multiset()) =~= popped.push(
                        top,
                    ).to_multiset().add(resident.drop_last().to_multiset()));
                }
            },
        }
    }
}

/// A push of each payload, in order.
pub open spec fn push_all<C>(xs: Seq<C>) -> Seq<StackOp<C>> {
    xs.map_values(|x: C| StackOp::Push(x))
}

/// `k` pops.
pub open spec fn pop_times<C>(k: nat) -> Seq<StackOp<C>> {
    Seq::new(k, |i: int| StackOp::<C>::Pop)
}

proof fn lemma_run_pushes<C>(start: Seq<C>, xs: Seq<C>)
    ensures
        run(start, push_all(xs)) == (start + xs, Seq::<C>::empty()),
    decreases xs.len(),
{
    if xs.len() > 0 {
        lemma_run_pushes(start, xs.drop_last());
        assert(push_all(xs).drop_last() =~= push_all(xs.drop_last()));
        assert(start + xs =~= (start + xs.drop_last()).push(xs.last()));
    } else {
        assert(push_all(xs) =~= Seq::<StackOp<C>>::empty());
        assert(start + xs =~= start);
    }
}

proof fn lemma_run_pops<C>(start: Seq<C>, ops: Seq<StackOp<C>>, k: nat)
    requires
        k <= run(start, ops).0.len(),
    ensures
        ({
            let (r, p) = run(start, ops);
            run(start, ops + pop_times(k)) == (
                r.subrange(0, r.len() - k),
                p + r.subrange(r.len() - k, r.len() as int).reverse(),
            )
        }),
    decreases k,
{
    let (r, p) = run(start, ops);
    if k == 0 {
        assert(ops + pop_times::<C>(0) =~= ops);
        assert(r.subrange(0, r.len() as int) =~= r);
        assert(p + r.subrange(r.len() as int, r.len() as int).reverse() =~= p);
    } else {
        lemma_run_pops(start, ops, (k - 1) as nat);
        let all = ops + pop_times(k);
        assert(all.drop_last() =~= ops + pop_times((k - 1) as nat));
        assert(all.last() == StackOp::<C>::Pop);
        let rest = r.subrange(0, r.len() - (k - 1));
        assert(rest.last() == r[r.len() - k]);
        assert(rest.drop_last() =~= r.subrange(0, r.len() - k));
        assert((p + r.subrange(r.len() - (k - 1), r.len() as int).reverse()).push(rest.last()) =~= p
            + r.subrange(r.len() - k, r.len() as int).reverse());
    }
}

/// Last in, first out: pushing payloads onto a stack and then popping as
/// many returns them in reverse order and leaves the stack as it was.
pub proof fn lemma_stack_lifo<C>(start: Seq<C>, xs: Seq<C>)
    ensures
        run(start, push_all(xs) + pop_times(xs.len())) == (start, xs.reverse()),
{
    lemma_run_pushes(start, xs);
    lemma_run_pops(start, push_all(xs), xs.len());
    let r = start + xs;
    assert(r.subrange(0, r.len() - xs.len()) =~= start);
    assert(Seq::<C>::empty() + r.subrange(r.len() - xs.len(), r.len() as int).reverse() =~= xs.reverse());
}

} // verus!

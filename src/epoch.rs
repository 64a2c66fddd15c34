use vstd::prelude::*;

use crate::ring::AtomicBuffer;

verus! {

/// A batch of retired items that move together between a worker's
/// collector and the shared queues.
pub struct Bag<T> {
    data: Vec<T>,
}

impl<T> View for Bag<T> {
    type V = Seq<T>;

    closed spec fn view(&self) -> Seq<T> {
        self.data@
    }
}

impl<T> Bag<T> {
    pub fn new() -> (r: Self)
        ensures
            r@ == Seq::<T>::empty(),
    {
        Bag { data: Vec::new() }
    }

    pub fn push(&mut self, data: T)
        ensures
            final(self)@ == old(self)@.push(data),
    {
        self.data.push(data);
    }

    pub fn len(&self) -> (r: usize)
        ensures
            r == self@.len(),
    {
        self.data.len()
    }

    /// Moves every item into a new bag, leaving this one empty.
    pub fn empty(&mut self) -> (r: Bag<T>)
        ensures
            r@ == old(self)@,
            final(self)@ == Seq::<T>::empty(),
    {
        let mut data: Vec<T> = Vec::new();
        std::mem::swap(&mut data, &mut self.data);
        Bag { data }
    }

    /// Hands the items out, in order.
    pub fn into_vec(self) -> (r: Vec<T>)
        ensures
            r@ == self@,
    {
        self.data
    }
}

/// The next epoch after `e`, counting modulo three.
pub open spec fn next_epoch(e: int) -> int {
    (e + 1) % 3
}

/// The epoch before `e`, counting modulo three.
pub open spec fn previous_epoch(e: int) -> int {
    (e + 2) % 3
}

/// All the items of a sequence of bags, bag after bag.
pub open spec fn flatten<T>(bags: Seq<Seq<T>>) -> Seq<T>
    decreases bags.len(),
{
    if bags.len() == 0 {
        Seq::empty()
    } else {
        flatten(bags.drop_last()) + bags.last()
    }
}

/// The shared half of the reclaimer: the current epoch, for each of the
/// three epochs a queue of retired bags, and for each epoch the number of
/// workers pinned in it.
pub struct Global<T, const CAP: usize> {
    epoch: usize,
    bags: [AtomicBuffer<Bag<T>, CAP>; 3],
    status: [usize; 3],
}

impl<T, const CAP: usize> Global<T, CAP> {
    pub closed spec fn wf(&self) -> bool {
        &&& self.epoch < 3
        &&& forall|e: int| 0 <= e < 3 ==> (#[trigger] self.bags[e]).wf()
    }

    /// The current epoch, in `0..3`.
    pub closed spec fn epoch(&self) -> int {
        self.epoch as int
    }

    /// How many workers are pinned in epoch `e`.
    pub closed spec fn pinned_in(&self, e: int) -> int {
        self.status[e] as int
    }

    /// The bags queued for epoch `e`, oldest first, each by its items.
    pub closed spec fn queued(&self, e: int) -> Seq<Seq<T>> {
        self.bags[e]@.map_values(|b: Bag<T>| b@)
    }

    /// Whether the queue of epoch `e` has no room for another bag.
    pub open spec fn queue_full(&self, e: int) -> bool {
        self.queued(e).len() >= CAP
    }

    /// How many workers are pinned, over the three epochs.
    pub open spec fn total_pinned(&self) -> int {
        self.pinned_in(0) + self.pinned_in(1) + self.pinned_in(2)
    }

    /// What the epoch advance does to the epoch and the queues: when no
    /// worker is pinned in the epoch before the current one, its queue is
    /// emptied, its items are `freed`, and the epoch moves on; otherwise
    /// nothing changes and nothing is freed.
    pub open spec fn advance_step(old_g: &Self, new_g: &Self, freed: Seq<T>) -> bool {
        let prev = previous_epoch(old_g.epoch());
        if old_g.pinned_in(prev) == 0 {
            &&& new_g.epoch() == next_epoch(old_g.epoch())
            &&& freed == flatten(old_g.queued(prev))
            &&& new_g.queued(prev) == Seq::<Seq<T>>::empty()
            &&& forall|e: int| 0 <= e < 3 && e != prev ==> new_g.queued(e) == old_g.queued(e)
        } else {
            &&& new_g.epoch() == old_g.epoch()
            &&& freed == Seq::<T>::empty()
            &&& forall|e: int| 0 <= e < 3 ==> new_g.queued(e) == old_g.queued(e)
        }
    }

    /// The pin counts of `new_g` are those of `old_g`, with `delta` added in
    /// epoch `at`.
    pub open spec fn pins_shifted(old_g: &Self, new_g: &Self, at: int, delta: int) -> bool {
        forall|e: int|
            0 <= e < 3 ==> #[trigger] new_g.pinned_in(e) == old_g.pinned_in(e) + if e == at {
                delta
            } else {
                0
            }
    }

    /// Whether the queue of epoch `e` has no room for another bag.
    pub fn queue_is_full(&self, e: usize) -> (r: bool)
        requires
            self.wf(),
            e < 3,
        ensures
            r == self.queue_full(e as int),
    {
        assert(self.bags[e as int].wf());
        self.bags[e].is_full()
    }

    /// A reclaimer in epoch 0 with nothing queued and nobody pinned.
    pub fn new() -> (r: Self)
        requires
            0 < CAP <= usize::MAX / 2,
        ensures
            r.wf(),
            r.epoch() == 0,
            forall|e: int| 0 <= e < 3 ==> r.pinned_in(e) == 0,
            forall|e: int| 0 <= e < 3 ==> r.queued(e) == Seq::<Seq<T>>::empty(),
    {
        let r = Global {
            epoch: 0,
            bags: [AtomicBuffer::new(), AtomicBuffer::new(), AtomicBuffer::new()],
            status: [0, 0, 0],
        };
        assert forall|e: int| 0 <= e < 3 implies r.queued(e) == Seq::<Seq<T>>::empty() by {
            assert(r.queued(e) =~= Seq::<Seq<T>>::empty());
        }
        r
    }

    /// Tries to advance the epoch, then reports the current one.
    ///
    /// The queue of the previous epoch is drained, and its items returned to
    /// be freed, only when no worker is pinned in that epoch. Holding the
    /// reclaimer exclusively, the drain and the step of the epoch cannot be
    /// interleaved with another worker's.
    pub fn get_epoch(&mut self) -> (r: (usize, Vec<T>))
        requires
            old(self).wf(),
        ensures
            final(self).wf(),
            Self::advance_step(old(self), final(self), r.1@),
            Self::pins_shifted(old(self), final(self), 0, 0),
            r.0 == final(self).epoch(),
    {
        let epoch = self.epoch;
        let previous = (epoch + 2) % 3;
        let mut freed: Vec<T> = Vec::new();
        if self.status[previous] == 0 {
            let ghost queue = self.queued(previous as int);
            let mut bags = self.bags[previous].pop_all();
            assert(bags@.map_values(|b: Bag<T>| b@) == queue);
            let ghost seen: Seq<Seq<T>> = Seq::empty();
            let mut out: Vec<T> = Vec::new();
            while bags.len() > 0
                invariant
                    queue == seen + bags@.map_values(|b: Bag<T>| b@),
                    out@ == flatten(seen),
                decreases bags@.len(),
            {
                let b = bags.remove(0);
                let mut items = b.into_vec();
                proof {
                    let s2 = seen.push(b@);
                    assert(s2.drop_last() =~= seen);
                    seen = s2;
                }
                out.append(&mut items);
                assert(queue =~= seen + bags@.map_values(|b: Bag<T>| b@));
            }
            assert(seen =~= queue);
            freed = out;
            self.epoch = (epoch + 1) % 3;
            assert forall|e: int| 0 <= e < 3 implies (#[trigger] self.bags[e]).wf() by {}
            assert(self.queued(previous as int) =~= Seq::<Seq<T>>::empty());
        }
        (self.epoch, freed)
    }
}

/// A worker's half of the reclaimer: the epoch it is pinned in, how deeply
/// it is pinned, and the bag of items it has retired and not yet handed to
/// the shared queues. A bag moves to the queue of the worker's epoch once it
/// holds `LIMIT` items.
pub struct Local<T, const LIMIT: usize, const CAP: usize> {
    epoch: usize,
    pinned: usize,
    buffer: Bag<T>,
}

impl<T, const LIMIT: usize, const CAP: usize> View for Local<T, LIMIT, CAP> {
    type V = Seq<T>;

    /// The items retired by this worker and still in its own bag.
    closed spec fn view(&self) -> Seq<T> {
        self.buffer@
    }
}

impl<T, const LIMIT: usize, const CAP: usize> Local<T, LIMIT, CAP> {
    pub closed spec fn wf(&self) -> bool {
        self.epoch < 3
    }

    /// The epoch this worker was last pinned in.
    pub closed spec fn epoch(&self) -> int {
        self.epoch as int
    }

    /// A well-formed worker is in one of the three epochs.
    pub proof fn lemma_epoch_range(&self)
        requires
            self.wf(),
        ensures
            0 <= self.epoch() < 3,
    {
    }

    /// How many pins are outstanding.
    pub closed spec fn pinned(&self) -> int {
        self.pinned as int
    }

    /// An unpinned worker in epoch 0 with an empty bag.
    pub fn new() -> (r: Self)
        ensures
            r.wf(),
            r.epoch() == 0,
            r.pinned() == 0,
            r@ == Seq::<T>::empty(),
    {
        Local { epoch: 0, pinned: 0, buffer: Bag::new() }
    }

    /// Declares that the worker may hold references into shared data.
    ///
    /// The outermost pin first tries to advance the global epoch, adopts it,
    /// and counts the worker as pinned in it; what the advance freed is
    /// returned. An inner pin only deepens the count.
    pub fn pin(&mut self, global: &mut Global<T, CAP>) -> (freed: Vec<T>)
        requires
            old(self).wf(),
            old(global).wf(),
            old(self).pinned() < usize::MAX,
            forall|e: int| 0 <= e < 3 ==> old(global).pinned_in(e) < usize::MAX,
        ensures
            final(self).wf(),
            final(global).wf(),
            0 <= final(self).epoch() < 3,
            final(self).pinned() == old(self).pinned() + 1,
            final(self)@ == old(self)@,
            old(self).pinned() == 0 ==> {
                &&& Global::advance_step(old(global), final(global), freed@)
                &&& final(self).epoch() == final(global).epoch()
                &&& Global::pins_shifted(old(global), final(global), final(self).epoch(), 1)
            },
            old(self).pinned() > 0 ==> {
                &&& *final(global) == *old(global)
                &&& final(self).epoch() == old(self).epoch()
                &&& freed@ == Seq::<T>::empty()
            },
    {
        let mut freed: Vec<T> = Vec::new();
        if self.pinned == 0 {
            let (epoch, items) = global.get_epoch();
            self.epoch = epoch % 3;
            freed = items;
        }
        let ghost mid = *global;
        assert(global.pinned_in(self.epoch as int) == old(global).pinned_in(self.epoch as int));
        self.pinned = self.pinned + 1;
        if self.pinned == 1 {
            global.status[self.epoch] = global.status[self.epoch] + 1;
            assert(forall|e: int| 0 <= e < 3 ==> global.queued(e) == mid.queued(e));
            assert forall|e: int| 0 <= e < 3 implies #[trigger] global.pinned_in(e) == old(
                global,
            ).pinned_in(e) + if e == self.epoch as int {
                1int
            } else {
                0int
            } by {
                assert(mid.pinned_in(e) == old(global).pinned_in(e));
            }
        }
        freed
    }

    /// Withdraws one pin; the outermost one stops counting the worker as
    /// pinned in its epoch.
    pub fn unpin(&mut self, global: &mut Global<T, CAP>)
        requires
            old(self).wf(),
            old(global).wf(),
            old(self).pinned() > 0,
            old(self).pinned() == 1 ==> old(global).pinned_in(old(self).epoch()) > 0,
        ensures
            final(self).wf(),
            final(global).wf(),
            0 <= old(self).epoch() < 3,
            final(self).pinned() == old(self).pinned() - 1,
            final(self).epoch() == old(self).epoch(),
            final(self)@ == old(self)@,
            final(global).epoch() == old(global).epoch(),
            forall|e: int| 0 <= e < 3 ==> final(global).queued(e) == old(global).queued(e),
            Global::pins_shifted(
                old(global),
                final(global),
                old(self).epoch(),
                if old(self).pinned() == 1 {
                    -1
                } else {
                    0
                },
            ),
    {
        self.pinned = self.pinned - 1;
        if self.pinned == 0 {
            global.status[self.epoch] = global.status[self.epoch] - 1;
        }
    }

    /// Hands an item over for deferred freeing. When the worker's bag
    /// already holds `LIMIT` items, the bag moves to the queue of its epoch
    /// first; the caller sees to it that this queue has room.
    pub fn collect_garbage(&mut self, global: &mut Global<T, CAP>, garbage: T)
        requires
            old(self).wf(),
            old(global).wf(),
            old(self)@.len() >= LIMIT ==> !old(global).queue_full(old(self).epoch()),
        ensures
            final(self).wf(),
            final(global).wf(),
            0 <= final(self).epoch() < 3,
            final(self).pinned() == old(self).pinned(),
            final(self).epoch() == old(self).epoch(),
            final(global).epoch() == old(global).epoch(),
            Global::pins_shifted(old(global), final(global), 0, 0),
            if old(self)@.len() >= LIMIT {
                &&& final(self)@ == seq![garbage]
                &&& final(global).queued(old(self).epoch()) == old(global).queued(
                    old(self).epoch(),
                ).push(old(self)@)
                &&& forall|e: int|
                    0 <= e < 3 && e != old(self).epoch() ==> final(global).queued(e) == old(
                        global,
                    ).queued(e)
            } else {
                &&& final(self)@ == old(self)@.push(garbage)
                &&& *final(global) == *old(global)
            },
    {
        if self.buffer.len() >= LIMIT {
            self.migrate(global);
        }
        self.buffer.push(garbage);
    }

    /// Moves the worker's bag to the queue of its epoch.
    fn migrate(&mut self, global: &mut Global<T, CAP>)
        requires
            old(self).wf(),
            old(global).wf(),
            !old(global).queue_full(old(self).epoch()),
        ensures
            final(self).wf(),
            final(global).wf(),
            final(self).pinned() == old(self).pinned(),
            final(self).epoch() == old(self).epoch(),
            final(self)@ == Seq::<T>::empty(),
            final(global).epoch() == old(global).epoch(),
            Global::pins_shifted(old(global), final(global), 0, 0),
            final(global).queued(old(self).epoch()) == old(global).queued(old(self).epoch()).push(
                old(self)@,
            ),
            forall|e: int|
                0 <= e < 3 && e != old(self).epoch() ==> final(global).queued(e) == old(
                    global,
                ).queued(e),
    {
        let bag = self.buffer.empty();
        global.bags[self.epoch].push(bag);
        assert(global.queued(self.epoch as int) =~= old(global).queued(self.epoch as int).push(
            old(self)@,
        ));
        assert forall|e: int| 0 <= e < 3 implies (#[trigger] global.bags[e]).wf() by {}
    }

    /// Retires the worker: a bag that still holds items moves to the queue
    /// of its epoch, which the caller sees has room.
    pub fn release(self, global: &mut Global<T, CAP>)
        requires
            self.wf(),
            old(global).wf(),
            self@.len() > 0 ==> !old(global).queue_full(self.epoch()),
        ensures
            final(global).wf(),
            final(global).epoch() == old(global).epoch(),
            Global::pins_shifted(old(global), final(global), 0, 0),
            if self@.len() == 0 {
                *final(global) == *old(global)
            } else {
                &&& final(global).queued(self.epoch()) == old(global).queued(self.epoch()).push(
                    self@,
                )
                &&& forall|e: int|
                    0 <= e < 3 && e != self.epoch() ==> final(global).queued(e) == old(
                        global,
                    ).queued(e)
            },
    {
        let mut local = self;
        if local.buffer.len() > 0 {
            local.migrate(global);
        }
    }
}

/// Reclamation frees only a quiescent epoch's bags: when a worker's pin
/// advances the epoch, whatever is freed was queued for an epoch in which no
/// worker was pinned, and the queue of every epoch in which a worker is
/// pinned is left as it was.
pub proof fn lemma_frees_only_quiescent<T, const CAP: usize>(
    g0: Global<T, CAP>,
    g1: Global<T, CAP>,
    freed: Seq<T>,
)
    requires
        0 <= g0.epoch() < 3,
        Global::advance_step(&g0, &g1, freed),
    ensures
        freed.len() > 0 ==> exists|e: int|
            0 <= e < 3 && g0.pinned_in(e) == 0 && freed == flatten(#[trigger] g0.queued(e)),
        forall|e: int| 0 <= e < 3 && g0.pinned_in(e) > 0 ==> #[trigger] g1.queued(e) == g0.queued(e),
{
    let prev = previous_epoch(g0.epoch());
    if freed.len() > 0 {
        assert(g0.pinned_in(prev) == 0);
        assert(freed == flatten(g0.queued(prev)));
    }
}

} // verus!

use vstd::prelude::*;

verus! {

/// A fixed-capacity ring of `CAP` slots with two counters: `end`, the next
/// slot to write, and `finish`, the first slot not yet drained.
///
/// Both counters are kept below `2 * CAP` by subtracting `CAP` from both
/// once `finish` passes the end of the array; the slot of a position is
/// its residue modulo `CAP`.
pub struct AtomicBuffer<T, const CAP: usize> {
    finish: usize,
    end: usize,
    container: Vec<Option<T>>,
}

/// The array slot of a position below `2 * cap`.
pub open spec fn slot_of(i: int, cap: int) -> int {
    if i < cap {
        i
    } else {
        i - cap
    }
}

impl<T, const CAP: usize> View for AtomicBuffer<T, CAP> {
    type V = Seq<T>;

    /// The items that are live, oldest first.
    closed spec fn view(&self) -> Seq<T> {
        Seq::new(
            (self.end - self.finish) as nat,
            |k: int| self.container@[slot_of(self.finish + k, CAP as int)]->Some_0,
        )
    }
}

impl<T, const CAP: usize> AtomicBuffer<T, CAP> {
    pub closed spec fn wf(&self) -> bool {
        &&& 0 < CAP <= usize::MAX / 2
        &&& self.container@.len() == CAP
        &&& self.finish < CAP
        &&& self.finish <= self.end <= self.finish + CAP
        &&& forall|i: int|
            self.finish <= i < self.end ==> (#[trigger] self.container@[slot_of(
                i,
                CAP as int,
            )]) is Some
    }

    /// An empty ring.
    pub fn new() -> (r: Self)
        requires
            0 < CAP <= usize::MAX / 2,
        ensures
            r.wf(),
            r@ == Seq::<T>::empty(),
    {
        let mut container: Vec<Option<T>> = Vec::new();
        let mut i: usize = 0;
        while i < CAP
            invariant
                i <= CAP,
                container@.len() == i,
            decreases CAP - i,
        {
            container.push(None);
            i = i + 1;
        }
        let r = AtomicBuffer { finish: 0, end: 0, container };
        assert(r@ =~= Seq::<T>::empty());
        r
    }

    /// The number of live items.
    pub fn len(&self) -> (r: usize)
        requires
            self.wf(),
        ensures
            r == self@.len(),
    {
        self.end - self.finish
    }

    /// Whether every slot holds a live item.
    pub fn is_full(&self) -> (r: bool)
        requires
            self.wf(),
        ensures
            r == (self@.len() >= CAP),
    {
        self.end - self.finish == CAP
    }

    /// Appends an item after the newest one. At most `CAP` items may be live.
    pub fn push(&mut self, data: T)
        requires
            old(self).wf(),
            old(self)@.len() < CAP,
        ensures
            final(self).wf(),
            final(self)@ == old(self)@.push(data),
    {
        let ghost before = self@;
        let position = self.end;
        let index = if position < CAP {
            position
        } else {
            position - CAP
        };
        self.container.set(index, Some(data));
        self.end = position + 1;
        assert forall|i: int| self.finish <= i < self.end implies (#[trigger] self.container@[slot_of(
            i,
            CAP as int,
        )]) is Some by {
            if i < position {
                assert(slot_of(i, CAP as int) != index as int);
            }
        }
        assert forall|k: int| 0 <= k < before.len() implies self@[k] == before[k] by {
            assert(slot_of(self.finish + k, CAP as int) != index as int);
        }
        assert(self@ =~= before.push(data));
    }

    /// Removes and returns the oldest item, or `None` when no item is live.
    pub fn pop(&mut self) -> (r: Option<T>)
        requires
            old(self).wf(),
        ensures
            final(self).wf(),
            old(self)@.len() == 0 ==> r is None && final(self)@ == old(self)@,
            old(self)@.len() > 0 ==> r == Some(old(self)@[0]) && final(self)@ == old(
                self,
            )@.drop_first(),
    {
        if self.end == self.finish {
            return None;
        }
        let ghost before = self@;
        let position = self.finish;
        let mut item: Option<T> = None;
        self.container.set_and_swap(position, &mut item);
        assert(item == Some(before[0]));
        if position + 1 == CAP {
            self.finish = 0;
            self.end = self.end - CAP;
            assert forall|i: int| self.finish <= i < self.end implies (#[trigger] self.container@[slot_of(
                i,
                CAP as int,
            )]) is Some by {
                assert(old(self).container@[slot_of(i + CAP, CAP as int)] is Some);
            }
            assert forall|k: int| 0 <= k < self@.len() implies self@[k] == before[k + 1] by {
                assert(slot_of(self.finish + k, CAP as int) == slot_of(
                    old(self).finish + k + 1,
                    CAP as int,
                ));
            }
        } else {
            self.finish = position + 1;
            assert forall|i: int| self.finish <= i < self.end implies (#[trigger] self.container@[slot_of(
                i,
                CAP as int,
            )]) is Some by {
                assert(old(self).container@[slot_of(i, CAP as int)] is Some);
                assert(slot_of(i, CAP as int) != position as int);
            }
            assert forall|k: int| 0 <= k < self@.len() implies self@[k] == before[k + 1] by {
                assert(slot_of(self.finish + k, CAP as int) != position as int);
            }
        }
        assert(self@ =~= before.drop_first());
        item
    }

    /// Drains every live item, oldest first, leaving the ring empty.
    pub fn pop_all(&mut self) -> (r: Vec<T>)
        requires
            old(self).wf(),
        ensures
            final(self).wf(),
            r@ == old(self)@,
            final(self)@.len() == 0,
    {
        let ghost all = self@;
        let mut out: Vec<T> = Vec::new();
        while self.end != self.finish
            invariant
                self.wf(),
                all == out@ + self@,
            decreases self@.len(),
        {
            let item = self.pop();
            match item {
                Some(v) => {
                    out.push(v);
                    assert(all =~= out@ + self@);
                },
                None => {},
            }
        }
        assert(out@ =~= all);
        out
    }
}

} // verus!

use vstd::prelude::*;

use crate::stack::AtomicStack;

verus! {

/// A value that can be made ready for reuse before it goes back to a pool.
pub trait Object: Sized {
    fn reuse(&mut self);
}

impl<T> Object for Vec<T> {
    /// A vector is reused empty.
    fn reuse(&mut self) {
        self.clear();
    }
}

impl Object for u8 {
    fn reuse(&mut self) {
    }
}

impl Object for u16 {
    fn reuse(&mut self) {
    }
}

impl Object for u64 {
    fn reuse(&mut self) {
    }
}

impl Object for u128 {
    fn reuse(&mut self) {
    }
}

impl Object for i8 {
    fn reuse(&mut self) {
    }
}

impl Object for i16 {
    fn reuse(&mut self) {
    }
}

impl Object for i64 {
    fn reuse(&mut self) {
    }
}

impl Object for i128 {
    fn reuse(&mut self) {
    }
}

/// A pool of reusable objects, kept on a lock-free stack.
pub struct ObjectPool<C: Object> {
    stack: AtomicStack<C>,
}

impl<C: Object> ObjectPool<C> {
    pub closed spec fn wf(&self) -> bool {
        self.stack.wf()
    }

    /// The objects waiting in the pool.
    pub closed spec fn available(&self) -> Seq<C> {
        self.stack@
    }

    /// An empty pool.
    pub fn new() -> (r: Self)
        ensures
            r.wf(),
            r.available() == Seq::<C>::empty(),
    {
        ObjectPool { stack: AtomicStack::new() }
    }
}

} // verus!

//! Alternative first-in-first-out queues, kept as plain as possible.
//!
//! These carry the same contracts as the queues in [`crate::queue`] but
//! favour the simplest implementation that meets them: both are backed
//! by a single vector whose order is the queue order, so `dequeue`
//! shifts the remaining elements down. That trades the constant-time
//! bound of the main implementations for code that is immediate to
//! read.

use vstd::prelude::*;

verus! {

/// A fixed-capacity first-in-first-out queue over a plain vector.
///
/// When the queue is full, `enqueue` hands the value back.
pub struct RingBufferQueue<T> {
    items: Vec<T>,
    cap: usize,
}

impl<T> View for RingBufferQueue<T> {
    type V = Seq<T>;

    closed spec fn view(&self) -> Seq<T> {
        self.items@
    }
}

impl<T> RingBufferQueue<T> {
    /// The queue never holds more elements than its capacity.
    pub closed spec fn wf(&self) -> bool {
        self.items@.len() <= self.cap
    }

    /// The fixed capacity the queue was created with.
    pub closed spec fn spec_capacity(&self) -> nat {
        self.cap as nat
    }

    /// Creates a queue that can hold up to `cap` elements. `cap` must
    /// be positive: a queue that could hold nothing would be unusable.
    pub fn with_capacity(cap: usize) -> (q: Self)
        requires
            cap > 0,
        ensures
            q.wf(),
            q@ == Seq::<T>::empty(),
            q.spec_capacity() == cap,
    {
        RingBufferQueue { items: Vec::new(), cap }
    }

    /// The number of elements currently queued.
    pub fn len(&self) -> (n: usize)
        ensures
            n == self@.len(),
    {
        self.items.len()
    }

    /// True exactly when the queue holds no elements.
    pub fn is_empty(&self) -> (b: bool)
        ensures
            b == (self@.len() == 0),
    {
        self.items.len() == 0
    }

    /// The fixed capacity of the queue.
    pub fn capacity(&self) -> (n: usize)
        ensures
            n == self.spec_capacity(),
    {
        self.cap
    }

    /// True exactly when the queue holds as many elements as its
    /// capacity allows.
    pub fn is_full(&self) -> (b: bool)
        requires
            self.wf(),
        ensures
            b == (self@.len() == self.spec_capacity()),
    {
        self.items.len() == self.cap
    }

    /// Appends `x` at the back of the queue, or returns it back as
    /// `Err(x)` when the queue is full.
    pub fn enqueue(&mut self, x: T) -> (r: Result<(), T>)
        requires
            old(self).wf(),
        ensures
            final(self).wf(),
            final(self).spec_capacity() == old(self).spec_capacity(),
            old(self)@.len() < old(self).spec_capacity() ==> r is Ok && final(self)@ == old(self)@.push(x),
            old(self)@.len() == old(self).spec_capacity() ==> r == Err::<(), T>(x) && final(self)@ == old(self)@,
    {
        if self.items.len() == self.cap {
            return Err(x);
        }
        self.items.push(x);
        Ok(())
    }

    /// Removes and returns the front element, or `None` when the queue
    /// is empty.
    pub fn dequeue(&mut self) -> (r: Option<T>)
        requires
            old(self).wf(),
        ensures
            final(self).wf(),
            final(self).spec_capacity() == old(self).spec_capacity(),
            old(self)@.len() == 0 ==> r is None && final(self)@ == old(self)@,
            old(self)@.len() > 0 ==> r == Some(old(self)@[0]) && final(self)@ == old(self)@.drop_first(),
    {
        if self.items.len() == 0 {
            return None;
        }
        let x = self.items.remove(0);
        proof {
            assert(self.items@ =~= old(self)@.drop_first());
        }
        Some(x)
    }

    /// Borrows the front element without removing it, or returns `None`
    /// when the queue is empty.
    pub fn peek(&self) -> (r: Option<&T>)
        ensures
            self@.len() == 0 ==> r is None,
            self@.len() > 0 ==> r == Some(&self@[0]),
    {
        if self.items.len() == 0 {
            None
        } else {
            Some(&self.items[0])
        }
    }
}

/// A growable first-in-first-out queue over a plain vector.
///
/// `enqueue` always succeeds; the queue grows as needed.
pub struct LinkedQueue<T> {
    items: Vec<T>,
}

impl<T> View for LinkedQueue<T> {
    type V = Seq<T>;

    closed spec fn view(&self) -> Seq<T> {
        self.items@
    }
}

impl<T> LinkedQueue<T> {
    /// Creates a new empty queue.
    pub fn new() -> (q: Self)
        ensures
            q@ == Seq::<T>::empty(),
    {
        LinkedQueue { items: Vec::new() }
    }

    /// The number of elements currently queued.
    pub fn len(&self) -> (n: usize)
        ensures
            n == self@.len(),
    {
        self.items.len()
    }

    /// True exactly when the queue holds no elements.
    pub fn is_empty(&self) -> (b: bool)
        ensures
            b == (self@.len() == 0),
    {
        self.items.len() == 0
    }

    /// Appends `x` at the back of the queue.
    pub fn enqueue(&mut self, x: T)
        ensures
            final(self)@ == old(self)@.push(x),
    {
        self.items.push(x);
    }

    /// Removes and returns the front element, or `None` when the queue
    /// is empty.
    pub fn dequeue(&mut self) -> (r: Option<T>)
        ensures
            old(self)@.len() == 0 ==> r is None && final(self)@ == old(self)@,
            old(self)@.len() > 0 ==> r == Some(old(self)@[0]) && final(self)@ == old(self)@.drop_first(),
    {
        if self.items.len() == 0 {
            return None;
        }
        let x = self.items.remove(0);
        proof {
            assert(self.items@ =~= old(self)@.drop_first());
        }
        Some(x)
    }

    /// Borrows the front element without removing it, or returns `None`
    /// when the queue is empty.
    pub fn peek(&self) -> (r: Option<&T>)
        ensures
            self@.len() == 0 ==> r is None,
            self@.len() > 0 ==> r == Some(&self@[0]),
    {
        if self.items.len() == 0 {
            None
        } else {
            Some(&self.items[0])
        }
    }
}

} // verus!

//! First-in-first-out queues: a fixed-capacity ring buffer and a
//! growable queue.
//!
//! The abstract value of a queue is the sequence of its elements, front
//! first: `dequeue` removes the first element of that sequence and
//! `enqueue` appends to its end.

use vstd::prelude::*;

verus! {

broadcast use vstd::seq::group_seq_axioms;

/// For an offset below twice the capacity, the remainder is the offset
/// itself or the offset wrapped once around.
pub(crate) proof fn lemma_mod_window(v: int, cap: int)
    requires
        0 < cap,
        0 <= v < 2 * cap,
    ensures
        v % cap == if v < cap {
            v
        } else {
            v - cap
        },
{
    let w = if v < cap {
        v
    } else {
        v - cap
    };
    assert(v % cap == w) by (nonlinear_arith)
        requires
            0 < cap,
            0 <= v < 2 * cap,
            w == if v < cap {
                v
            } else {
                v - cap
            },
    ;
}

/// Distinct offsets within one capacity-sized window land on distinct
/// slots.
pub(crate) proof fn lemma_ring_slots_distinct(h: int, a: int, b: int, cap: int)
    requires
        0 <= h < cap,
        0 <= a < cap,
        0 <= b < cap,
        a != b,
    ensures
        (h + a) % cap != (h + b) % cap,
{
    lemma_mod_window(h + a, cap);
    lemma_mod_window(h + b, cap);
}

/// A fixed-capacity first-in-first-out queue over a circular buffer.
///
/// The buffer never reallocates: when the queue is full, `enqueue`
/// hands the value back, and `enqueue_overwrite` drops the oldest
/// element instead.
pub struct RingBufferQueue<T> {
    buf: Vec<Option<T>>,
    head: usize,
    len: usize,
}

impl<T> View for RingBufferQueue<T> {
    type V = Seq<T>;

    closed spec fn view(&self) -> Seq<T> {
        Seq::new(
            self.len as nat,
            |i: int| self.buf@[(self.head + i) % (self.buf@.len() as int)]->Some_0,
        )
    }
}

impl<T> RingBufferQueue<T> {
    /// The queue is a well-formed ring: the first `len` slots counted
    /// from `head`, wrapping around, hold values; the rest hold none.
    pub closed spec fn wf(&self) -> bool {
        &&& self.len <= self.buf@.len()
        &&& self.head < self.buf@.len()
        &&& forall|j: int|
            0 <= j < self.buf@.len() ==> ((#[trigger] self.buf@[(self.head + j) % (
            self.buf@.len() as int)]) is Some <==> j < self.len)
    }

    /// The fixed capacity the queue was created with.
    pub closed spec fn spec_capacity(&self) -> nat {
        self.buf@.len()
    }

    /// Creates a queue that can hold up to `cap` elements. `cap` must
    /// be positive: a queue that could hold nothing would be unusable.
    pub fn with_capacity(cap: usize) -> (q: Self)
        requires
            cap > 0,
        ensures
            q.wf(),
            q@ == Seq::<T>::empty(),
            q.spec_capacity() == cap,
    {
        let mut buf: Vec<Option<T>> = Vec::new();
        let mut i: usize = 0;
        while i < cap
            invariant
                i <= cap,
                buf@.len() == i,
                forall|j: int| 0 <= j < i ==> (#[trigger] buf@[j]) is None,
            decreases cap - i,
        {
            buf.push(None);
            i += 1;
        }
        let q = RingBufferQueue { buf, head: 0, len: 0 };
        proof {
            assert forall|j: int| 0 <= j < q.buf@.len() implies !((#[trigger] q.buf@[(q.head + j)
                % (q.buf@.len() as int)]) is Some) by {
                lemma_mod_window(q.head + j, q.buf@.len() as int);
            }
            assert(q@ =~= Seq::<T>::empty());
        }
        q
    }

    /// The number of elements currently queued.
    pub fn len(&self) -> (n: usize)
        ensures
            n == self@.len(),
    {
        self.len
    }

    /// True exactly when the queue holds no elements.
    pub fn is_empty(&self) -> (b: bool)
        ensures
            b == (self@.len() == 0),
    {
        self.len == 0
    }

    /// The fixed capacity of the queue.
    pub fn capacity(&self) -> (n: usize)
        ensures
            n == self.spec_capacity(),
    {
        self.buf.len()
    }

    /// True exactly when the queue holds as many elements as its
    /// capacity allows.
    pub fn is_full(&self) -> (b: bool)
        ensures
            b == (self@.len() == self.spec_capacity()),
    {
        self.len == self.buf.len()
    }

    /// Appends `x` at the back of the queue, or returns it back as
    /// `Err(x)` when the queue is full.
    pub fn enqueue(&mut self, x: T) -> (r: Result<(), T>)
        requires
            old(self).wf(),
        ensures
            final(self).wf(),
            final(self).spec_capacity() == old(self).spec_capacity(),
            old(self)@.len() < old(self).spec_capacity() ==> r is Ok && final(self)@ == old(self)@.push(x),
            old(self)@.len() == old(self).spec_capacity() ==> r == Err::<(), T>(x) && final(self)@
                == old(self)@,
    {
        let cap = self.buf.len();
        if self.len == cap {
            return Err(x);
        }
        let tail = if self.len < cap - self.head {
            self.head + self.len
        } else {
            self.len - (cap - self.head)
        };
        proof {
            lemma_mod_window(self.head + self.len, cap as int);
            assert(tail as int == (self.head + self.len) % (cap as int));
            assert(self.buf@[tail as int] is None);
        }
        self.buf[tail] = Some(x);
        self.len = self.len + 1;
        proof {
            let oldq = *old(self);
            let newq = *self;
            let h = newq.head as int;
            let c = cap as int;
            assert forall|j: int| 0 <= j < c implies ((#[trigger] newq.buf@[(h + j) % c]) is Some
                <==> j < newq.len) by {
                lemma_mod_window(h + j, c);
                if j != oldq.len {
                    lemma_ring_slots_distinct(h, j, oldq.len as int, c);
                    assert(newq.buf@[(h + j) % c] == oldq.buf@[(h + j) % c]);
                }
            }
            assert forall|i: int| 0 <= i < newq@.len() implies newq@[i] == oldq@.push(x)[i] by {
                lemma_mod_window(h + i, c);
                if i < oldq.len {
                    lemma_ring_slots_distinct(h, i, oldq.len as int, c);
                    assert(newq.buf@[(h + i) % c] == oldq.buf@[(h + i) % c]);
                } else {
                    assert((h + i) % c == tail as int);
                }
            }
            assert(newq@ =~= oldq@.push(x));
        }
        Ok(())
    }

    /// Removes and returns the front element, or `None` when the queue
    /// is empty.
    pub fn dequeue(&mut self) -> (r: Option<T>)
        requires
            old(self).wf(),
        ensures
            final(self).wf(),
            final(self).spec_capacity() == old(self).spec_capacity(),
            old(self)@.len() == 0 ==> r is None && final(self)@ == old(self)@,
            old(self)@.len() > 0 ==> r == Some(old(self)@[0]) && final(self)@ == old(self)@.drop_first(),
    {
        if self.len == 0 {
            return None;
        }
        let cap = self.buf.len();
        proof {
            lemma_mod_window(self.head as int, cap as int);
            assert(self.buf@[(self.head + 0) % (cap as int)] is Some);
            assert(self.buf@[self.head as int] is Some);
            assert(old(self)@[0] == self.buf@[self.head as int]->Some_0);
        }
        let mut slot: Option<T> = None;
        let head = self.head;
        core::mem::swap(&mut slot, &mut self.buf[head]);
        self.head = if self.head + 1 == cap {
            0
        } else {
            self.head + 1
        };
        self.len = self.len - 1;
        proof {
            let oldq = *old(self);
            let newq = *self;
            let h0 = oldq.head as int;
            let c = cap as int;
            lemma_mod_window(h0 + 1, c);
            assert(newq.head as int == (h0 + 1) % c);
            assert forall|j: int| 0 <= j < c implies ((#[trigger] newq.buf@[(newq.head + j) % c])
                is Some <==> j < newq.len) by {
                lemma_mod_window(newq.head + j, c);
                if j < c - 1 {
                    // the slot at offset j from the new head is the slot at
                    // offset j + 1 from the old head
                    lemma_mod_window(h0 + (j + 1), c);
                    assert((newq.head + j) % c == (h0 + (j + 1)) % c);
                    if (h0 + (j + 1)) % c == h0 {
                        lemma_mod_window(h0, c);
                        lemma_ring_slots_distinct(h0, j + 1, 0, c);
                        assert(false);
                    }
                    assert(newq.buf@[(newq.head + j) % c] == oldq.buf@[(h0 + (j + 1)) % c]);
                } else {
                    // offset c - 1 from the new head is the old head slot,
                    // now vacated
                    lemma_mod_window(h0 + (j + 1) - c, c);
                    assert((newq.head + j) % c == h0);
                    assert(newq.buf@[h0] is None);
                }
            }
            assert forall|i: int| 0 <= i < newq@.len() implies newq@[i] == oldq@.drop_first()[i] by {
                lemma_mod_window(newq.head + i, c);
                lemma_mod_window(h0 + (i + 1), c);
                assert((newq.head + i) % c == (h0 + (i + 1)) % c);
                lemma_ring_slots_distinct(h0, i + 1, 0, c);
                lemma_mod_window(h0, c);
                assert(newq.buf@[(h0 + (i + 1)) % c] == oldq.buf@[(h0 + (i + 1)) % c]);
            }
            assert(newq@ =~= oldq@.drop_first());
        }
        slot
    }

    /// Borrows the front element without removing it, or returns `None`
    /// when the queue is empty.
    pub fn peek(&self) -> (r: Option<&T>)
        requires
            self.wf(),
        ensures
            self@.len() == 0 ==> r is None,
            self@.len() > 0 ==> r == Some(&self@[0]),
    {
        if self.len == 0 {
            None
        } else {
            proof {
                lemma_mod_window(self.head as int, self.buf@.len() as int);
                assert(self.buf@[(self.head + 0) % (self.buf@.len() as int)] is Some);
                assert(self.buf@[self.head as int] is Some);
                assert(self@[0] == self.buf@[self.head as int]->Some_0);
            }
            self.buf[self.head].as_ref()
        }
    }

    /// Appends `x` at the back of the queue; when the queue is full the
    /// oldest element is removed to make room and handed back.
    pub fn enqueue_overwrite(&mut self, x: T) -> (r: Option<T>)
        requires
            old(self).wf(),
        ensures
            final(self).wf(),
            final(self).spec_capacity() == old(self).spec_capacity(),
            old(self)@.len() < old(self).spec_capacity() ==> r is None && final(self)@ == old(self)@.push(x),
            old(self)@.len() == old(self).spec_capacity() ==> r == Some(old(self)@[0]) && final(self)@ == old(self)@.drop_first().push(x),
    {
        if self.len < self.buf.len() {
            let _ = self.enqueue(x);
            None
        } else {
            let old_value = self.dequeue();
            let _ = self.enqueue(x);
            old_value
        }
    }
}

/// Moving the newest pending arrival onto the delivery stack keeps the
/// queue's contents unchanged.
proof fn lemma_shift_between_stacks<T>(inc0: Seq<T>, out0: Seq<T>)
    requires
        inc0.len() > 0,
    ensures
        inc0.drop_last() + out0.push(inc0.last()).reverse() == inc0 + out0.reverse(),
{
    assert(inc0.drop_last() + out0.push(inc0.last()).reverse() =~= inc0 + out0.reverse());
}

/// With the delivery stack non-empty, its top is the front of the
/// queue, and removing it removes the queue's first element.
proof fn lemma_pop_front<T>(out0: Seq<T>, inc0: Seq<T>)
    requires
        out0.len() > 0,
    ensures
        (out0.reverse() + inc0)[0] == out0.last(),
        out0.drop_last().reverse() + inc0 == (out0.reverse() + inc0).drop_first(),
{
    assert((out0.reverse() + inc0)[0] == out0.last());
    assert(out0.drop_last().reverse() + inc0 =~= (out0.reverse() + inc0).drop_first());
}

/// A growable first-in-first-out queue.
///
/// Arrivals are collected on one internal stack and moved in bulk to a
/// second one whose top is the front of the queue, which keeps both
/// `enqueue` and `dequeue` constant-time on average.
pub struct LinkedQueue<T> {
    incoming: Vec<T>,
    outgoing: Vec<T>,
}

impl<T> View for LinkedQueue<T> {
    type V = Seq<T>;

    closed spec fn view(&self) -> Seq<T> {
        self.outgoing@.reverse() + self.incoming@
    }
}

impl<T> LinkedQueue<T> {
    /// Creates a new empty queue.
    pub fn new() -> (q: Self)
        ensures
            q@ == Seq::<T>::empty(),
    {
        let q = LinkedQueue { incoming: Vec::new(), outgoing: Vec::new() };
        proof {
            assert(q@ =~= Seq::<T>::empty());
        }
        q
    }

    /// The number of elements currently queued. The queue's length is
    /// bounded by the machine's address space.
    pub fn len(&self) -> (n: usize)
        requires
            self@.len() <= usize::MAX,
        ensures
            n == self@.len(),
    {
        self.outgoing.len() + self.incoming.len()
    }

    /// True exactly when the queue holds no elements.
    pub fn is_empty(&self) -> (b: bool)
        ensures
            b == (self@.len() == 0),
    {
        self.outgoing.len() == 0 && self.incoming.len() == 0
    }

    /// Appends `x` at the back of the queue.
    pub fn enqueue(&mut self, x: T)
        ensures
            final(self)@ == old(self)@.push(x),
    {
        self.incoming.push(x);
        proof {
            assert(self@ =~= old(self)@.push(x));
        }
    }

    /// Removes and returns the front element, or `None` when the queue
    /// is empty.
    pub fn dequeue(&mut self) -> (r: Option<T>)
        ensures
            old(self)@.len() == 0 ==> r is None && final(self)@ == old(self)@,
            old(self)@.len() > 0 ==> r == Some(old(self)@[0]) && final(self)@ == old(self)@.drop_first(),
    {
        if self.outgoing.len() == 0 {
            if self.incoming.len() == 0 {
                return None;
            }
            proof {
                assert(self.incoming@ + self.outgoing@.reverse() =~= old(self)@);
            }
            while self.incoming.len() > 0
                invariant
                    self.incoming@ + self.outgoing@.reverse() == old(self)@,
                decreases self.incoming@.len(),
            {
                let ghost inc0 = self.incoming@;
                let ghost out0 = self.outgoing@;
                let x = self.incoming.pop().unwrap();
                self.outgoing.push(x);
                proof {
                    lemma_shift_between_stacks(inc0, out0);
                }
            }
            proof {
                assert(self.outgoing@.reverse() =~= old(self)@);
            }
        }
        let ghost out0 = self.outgoing@;
        let ghost inc0 = self.incoming@;
        let ghost view0 = self@;
        proof {
            assert(view0 =~= old(self)@);
            lemma_pop_front(out0, inc0);
        }
        let x = self.outgoing.pop().unwrap();
        proof {
            assert(self@ == out0.drop_last().reverse() + inc0);
        }
        Some(x)
    }

    /// Borrows the front element without removing it, or returns `None`
    /// when the queue is empty.
    pub fn peek(&self) -> (r: Option<&T>)
        ensures
            self@.len() == 0 ==> r is None,
            self@.len() > 0 ==> r == Some(&self@[0]),
    {
        if self.outgoing.len() > 0 {
            proof {
                assert(self@[0] == self.outgoing@.last());
            }
            Some(&self.outgoing[self.outgoing.len() - 1])
        } else if self.incoming.len() > 0 {
            proof {
                assert(self.outgoing@.reverse().len() == 0);
                assert(self@[0] == self.incoming@[0]);
            }
            Some(&self.incoming[0])
        } else {
            None
        }
    }
}

} // verus!

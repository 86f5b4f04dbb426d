//! The mailbox: a first-in first-out queue of control envelopes, one per
//! actor.  Its view is the sequence of queued envelopes in arrival order.

use vstd::prelude::*;

verus! {

/// A FIFO queue with an advisory capacity.  The capacity is the point at
/// which an asynchronous embedding would apply back-pressure; the queue
/// itself always accepts.
#[derive(Debug)]
pub struct Mailbox<T> {
    queue: Vec<T>,
    capacity: usize,
}

impl<T> View for Mailbox<T> {
    type V = Seq<T>;

    closed spec fn view(&self) -> Seq<T> {
        self.queue@
    }
}

impl<T> Mailbox<T> {
    /// The advisory capacity this mailbox was created with.
    pub closed spec fn capacity_spec(&self) -> usize {
        self.capacity
    }

    /// Creates an empty mailbox with the given advisory capacity.
    pub fn new(capacity: usize) -> (r: Mailbox<T>)
        ensures
            r@ == Seq::<T>::empty(),
            r.capacity_spec() == capacity,
    {
        Mailbox { queue: Vec::new(), capacity }
    }

    /// The number of queued envelopes.
    pub fn len(&self) -> (r: usize)
        ensures
            r == self@.len(),
    {
        self.queue.len()
    }

    /// Whether the queue is below its advisory capacity.
    pub fn has_room(&self) -> (r: bool)
        ensures
            r <==> self@.len() < self.capacity_spec(),
    {
        self.queue.len() < self.capacity
    }

    /// Enqueues an envelope at the back.
    pub fn push_back(&mut self, t: T)
        ensures
            final(self)@ == old(self)@.push(t),
            final(self).capacity_spec() == old(self).capacity_spec(),
    {
        self.queue.push(t);
    }

    /// Dequeues the front envelope, if any.
    pub fn pop_front(&mut self) -> (r: Option<T>)
        ensures
            final(self).capacity_spec() == old(self).capacity_spec(),
            old(self)@.len() == 0 ==> r is None && final(self)@ == old(self)@,
            old(self)@.len() > 0 ==> r == Some(old(self)@[0]) && final(self)@ == old(
                self,
            )@.drop_first(),
    {
        if self.queue.len() == 0 {
            None
        } else {
            let t = self.queue.remove(0);
            proof {
                assert(final(self)@ =~= old(self)@.drop_first());
            }
            Some(t)
        }
    }
}

} // verus!

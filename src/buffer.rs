//! The backpressure primitive: a holding queue in front of a bounded channel.
use vstd::prelude::*;

verus! {

/// What an attempt to move held items into the channel came to.
#[derive(Clone, Copy, Debug, PartialEq, Eq, Structural)]
pub enum SendResult {
    /// Every held item was handed over.
    Drained,
    /// The channel is full: some items are still held.
    Pending,
    /// The receiving side is gone: the held items were dropped.
    Disconnect,
}

/// Items waiting to be handed to a bounded channel, oldest first.
#[derive(Debug)]
pub struct Buffer<T> {
    items: Vec<T>,
}

impl<T> View for Buffer<T> {
    type V = Seq<T>;

    closed spec fn view(&self) -> Seq<T> {
        self.items@
    }
}

/// The outcome of `try_send` on a holding queue `held`, when the channel can
/// take `capacity` more items and its receiver is alive or not: the result,
/// the items handed over, and the items still held.
pub open spec fn send_outcome<T>(held: Seq<T>, capacity: nat, connected: bool) -> (
    SendResult,
    Seq<T>,
    Seq<T>,
) {
    if held.len() == 0 {
        (SendResult::Drained, Seq::empty(), held)
    } else if !connected {
        (SendResult::Disconnect, Seq::empty(), Seq::empty())
    } else if capacity < held.len() {
        (SendResult::Pending, held.take(capacity as int), held.skip(capacity as int))
    } else {
        (SendResult::Drained, held, Seq::empty())
    }
}

impl<T> Buffer<T> {
    pub fn new() -> (r: Buffer<T>)
        ensures
            r@ == Seq::<T>::empty(),
    {
        Buffer { items: Vec::new() }
    }

    /// Appends an item; never blocks and never fails.
    pub fn push(&mut self, item: T)
        ensures
            final(self)@ == old(self)@.push(item),
    {
        self.items.push(item);
    }

    pub fn len(&self) -> (r: usize)
        ensures
            r == self@.len(),
    {
        self.items.len()
    }

    pub fn is_empty(&self) -> (r: bool)
        ensures
            r == (self@.len() == 0),
    {
        self.items.len() == 0
    }

    /// Drops every held item.
    pub fn clear(&mut self)
        ensures
            final(self)@ == Seq::<T>::empty(),
    {
        self.items.clear();
    }

    /// Hands the oldest held items to the channel, as many as it can take
    /// (`capacity`), unless its receiver is gone (`connected` false), in which
    /// case everything held is dropped.  Returns the result and the items
    /// handed over, in order.
    pub fn try_send(&mut self, capacity: usize, connected: bool) -> (r: (SendResult, Vec<T>))
        ensures
            r.0 == send_outcome(old(self)@, capacity as nat, connected).0,
            r.1@ == send_outcome(old(self)@, capacity as nat, connected).1,
            final(self)@ == send_outcome(old(self)@, capacity as nat, connected).2,
    {
        if self.items.len() == 0 {
            (SendResult::Drained, Vec::new())
        } else if !connected {
            self.items.clear();
            (SendResult::Disconnect, Vec::new())
        } else if capacity < self.items.len() {
            let mut sent = self.items.split_off(capacity);
            std::mem::swap(&mut sent, &mut self.items);
            (SendResult::Pending, sent)
        } else {
            let mut sent = Vec::new();
            std::mem::swap(&mut sent, &mut self.items);
            (SendResult::Drained, sent)
        }
    }
}

} // verus!

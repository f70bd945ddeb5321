use std::collections::VecDeque;
use vstd::prelude::*;

verus! {

/// Why a channel operation could not produce a value. The engine treats
/// `Closed` as fatal (nothing can arrive any more) and `Empty` as "poll
/// again later".
#[derive(Clone, Copy, Debug, PartialEq, Eq, Structural)]
pub enum ChannelError {
    /// Nothing is queued at the moment (`try_recv`).
    Empty,
    /// Nothing is queued and nothing can arrive later (`recv`).
    Closed,
}

/// FIFO queue shared by the coordinator and the workers, used both for task
/// distribution and for result collection. Items leave in exactly the order
/// they entered, across all producers and consumers collectively: the
/// stop-signal protocol (work items first, then one stop signal per worker)
/// depends on precisely this property and on nothing else.
///
/// The queue has a single owner; every operation takes `&mut self`, so there
/// is no lock to fail and `send` always succeeds. An empty queue therefore
/// cannot produce a value later, and `recv` reports that as `Closed` rather
/// than blocking forever.
pub struct SharedChannel<T> {
    name: String,
    queue: VecDeque<T>,
}

impl<T> View for SharedChannel<T> {
    type V = Seq<T>;

    closed spec fn view(&self) -> Seq<T> {
        self.queue@
    }
}

impl<T: Clone> SharedChannel<T> {
    /// An empty channel. The name is only ever echoed back by [`Self::name`];
    /// it carries no semantics.
    pub fn new(name: &str) -> (c: Self)
        ensures
            c@ == Seq::<T>::empty(),
            c.name_spec()@ == name@,
    {
        SharedChannel { name: name.to_owned(), queue: VecDeque::new() }
    }

    /// The name this channel was created with.
    pub closed spec fn name_spec(&self) -> String {
        self.name
    }

    /// The name this channel was created with.
    pub fn name(&self) -> (n: &str)
        ensures
            n@ == self.name_spec()@,
    {
        self.name.as_str()
    }

    /// Enqueue one item at the back. With a single-owner queue nothing can
    /// fail, but callers written against a fallible transport handle the
    /// `Result` all the same.
    pub fn send(&mut self, data: T) -> (r: Result<(), ChannelError>)
        ensures
            r is Ok,
            final(self)@ == old(self)@.push(data),
            final(self).name_spec() == old(self).name_spec(),
    {
        self.queue.push_back(data);
        Ok(())
    }

    /// Dequeue the front item. On an empty queue no later arrival is
    /// possible, so the failure is reported as `Closed`.
    pub fn recv(&mut self) -> (r: Result<T, ChannelError>)
        ensures
            old(self)@.len() > 0 ==> (r matches Ok(v) && v == old(self)@[0] && final(self)@ == old(
                self,
            )@.drop_first()),
            old(self)@.len() == 0 ==> (r matches Err(e) && e == ChannelError::Closed && final(self)@
                == old(self)@),
            final(self).name_spec() == old(self).name_spec(),
    {
        match self.queue.pop_front() {
            Some(v) => Ok(v),
            None => Err(ChannelError::Closed),
        }
    }

    /// Dequeue the front item without waiting; an empty queue yields the
    /// `Empty` sentinel and the caller polls again later.
    pub fn try_recv(&mut self) -> (r: Result<T, ChannelError>)
        ensures
            old(self)@.len() > 0 ==> (r matches Ok(v) && v == old(self)@[0] && final(self)@ == old(
                self,
            )@.drop_first()),
            old(self)@.len() == 0 ==> (r matches Err(e) && e == ChannelError::Empty && final(self)@
                == old(self)@),
            final(self).name_spec() == old(self).name_spec(),
    {
        match self.queue.pop_front() {
            Some(v) => Ok(v),
            None => Err(ChannelError::Empty),
        }
    }
}

} // verus!

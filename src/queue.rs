//! The ready queue: a bounded FIFO of task indices.

use std::collections::VecDeque;
use vstd::prelude::*;

verus! {

/// Why a submission to the ready queue did not happen.
#[derive(Debug, Clone, Copy, PartialEq, Eq, Structural)]
pub enum SubmitError {
    /// The queue holds as many entries as its capacity allows.
    Full,
    /// The consuming side has shut down; no submission will ever succeed.
    Closed,
}

/// A bounded first-in first-out queue of task indices.
pub struct ReadyQueue {
    entries: VecDeque<usize>,
    capacity: usize,
    closed: bool,
}

impl View for ReadyQueue {
    type V = Seq<usize>;

    /// The queued task indices, front first.
    closed spec fn view(&self) -> Seq<usize> {
        self.entries@
    }
}

impl ReadyQueue {
    /// The fixed number of entries the queue can hold.
    pub closed spec fn cap(&self) -> nat {
        self.capacity as nat
    }

    /// Whether the consuming side has shut down.
    pub closed spec fn is_shut(&self) -> bool {
        self.closed
    }

    /// The queue never holds more than its capacity, the capacity is
    /// positive, and a shut queue is empty.
    pub open spec fn wf(&self) -> bool {
        &&& self@.len() <= self.cap()
        &&& self.cap() > 0
        &&& self.is_shut() ==> self@.len() == 0
    }

    /// An empty, open queue that holds at most `capacity` entries.
    pub fn new(capacity: usize) -> (q: ReadyQueue)
        requires
            capacity > 0,
        ensures
            q.wf(),
            q@ == Seq::<usize>::empty(),
            q.cap() == capacity,
            !q.is_shut(),
    {
        ReadyQueue { entries: VecDeque::new(), capacity, closed: false }
    }

    /// The number of queued entries.
    pub fn len(&self) -> (n: usize)
        ensures
            n == self@.len(),
    {
        self.entries.len()
    }

    /// The capacity the queue was made with.
    pub fn capacity(&self) -> (n: usize)
        ensures
            n == self.cap(),
    {
        self.capacity
    }

    /// Whether the consuming side has shut down.
    pub fn is_closed(&self) -> (b: bool)
        ensures
            b == self.is_shut(),
    {
        self.closed
    }

    /// Appends `task` at the back. A shut queue refuses with `Closed`, a
    /// full one with `Full`; a refused submission leaves the queue as it was.
    pub fn submit(&mut self, task: usize) -> (r: Result<(), SubmitError>)
        requires
            old(self).wf(),
        ensures
            final(self).wf(),
            final(self).cap() == old(self).cap(),
            final(self).is_shut() == old(self).is_shut(),
            old(self).is_shut() ==> r == Err::<(), SubmitError>(SubmitError::Closed),
            !old(self).is_shut() && old(self)@.len() == old(self).cap() ==> r == Err::<(), SubmitError>(SubmitError::Full),
            r is Ok <==> (!old(self).is_shut() && old(self)@.len() < old(self).cap()),
            r is Ok ==> final(self)@ == old(self)@.push(task),
            r is Err ==> final(self)@ == old(self)@,
    {
        if self.closed {
            Err(SubmitError::Closed)
        } else if self.entries.len() >= self.capacity {
            Err(SubmitError::Full)
        } else {
            self.entries.push_back(task);
            Ok(())
        }
    }

    /// Removes and returns the entry at the front, or `None` when the queue
    /// is empty.
    pub fn next(&mut self) -> (r: Option<usize>)
        requires
            old(self).wf(),
        ensures
            final(self).wf(),
            final(self).cap() == old(self).cap(),
            final(self).is_shut() == old(self).is_shut(),
            old(self)@.len() == 0 ==> r is None && final(self)@ == old(self)@,
            old(self)@.len() > 0 ==> r == Some(old(self)@[0]) && final(self)@ == old(self)@.drop_first(),
    {
        self.entries.pop_front()
    }

    /// Shuts the consuming side: pending entries are discarded and every
    /// later submission is refused.
    pub fn close(&mut self)
        requires
            old(self).wf(),
        ensures
            final(self).wf(),
            final(self).cap() == old(self).cap(),
            final(self).is_shut(),
            final(self)@ == Seq::<usize>::empty(),
    {
        self.entries.clear();
        self.closed = true;
    }
}

} // verus!

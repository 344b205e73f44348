use vstd::prelude::*;
use std::collections::VecDeque;

verus! {

/// The ready queue: a first-in first-out queue of items whose order is
/// the order in which they were pushed.  The scheduler keeps one such
/// queue of ready task ids, filled by submissions and completions and
/// drained by the workers; the blocking and waking around it is the
/// caller's concern, so an empty queue simply yields nothing.
pub struct SPMCQueue<T> {
    items: VecDeque<T>,
}

impl<T> View for SPMCQueue<T> {
    type V = Seq<T>;

    closed spec fn view(&self) -> Seq<T> {
        self.items@
    }
}

impl<T> SPMCQueue<T> {
    /// An empty queue.
    pub fn new() -> (q: Self)
        ensures
            q@ == Seq::<T>::empty(),
    {
        SPMCQueue { items: VecDeque::new() }
    }

    /// Append one item at the back.
    pub fn push(&mut self, t: T)
        ensures
            final(self)@ == old(self)@.push(t),
    {
        self.items.push_back(t);
    }

    /// Remove and return the oldest item; nothing when the queue is
    /// empty.
    pub fn pop(&mut self) -> (r: Option<T>)
        ensures
            old(self)@.len() == 0 ==> r is None && final(self)@ == old(self)@,
            old(self)@.len() > 0 ==> r == Some(old(self)@[0]) && final(self)@ == old(self)@.drop_first(),
    {
        self.items.pop_front()
    }

    /// How many items are waiting.
    pub fn len(&self) -> (n: usize)
        ensures
            n == self@.len(),
    {
        self.items.len()
    }
}

} // verus!

use vstd::prelude::*;

use crate::list::{list_merge, MrdtList};
use crate::Mergeable;

verus! {

/// A first-in first-out queue of distinct items over a mergeable list.
#[derive(Clone, Debug, PartialEq, Eq, Hash, Default)]
pub struct MrdtQueue {
    store: MrdtList,
}

impl View for MrdtQueue {
    type V = Seq<u64>;

    closed spec fn view(&self) -> Seq<u64> {
        self.store@
    }
}

impl MrdtQueue {
    pub closed spec fn wf(&self) -> bool {
        self.store.wf()
    }

    pub fn new() -> (r: MrdtQueue)
        ensures
            r.wf(),
            r@ == Seq::<u64>::empty(),
    {
        MrdtQueue { store: MrdtList::new() }
    }

    /// Returns the number of elements in the queue.
    pub fn len(&self) -> (n: usize)
        ensures
            n == self@.len(),
    {
        self.store.len()
    }

    /// Returns `true` if the queue contains no elements.
    pub fn is_empty(&self) -> (b: bool)
        ensures
            b == (self@.len() == 0),
    {
        self.store.is_empty()
    }

    /// The elements, first to last.
    pub fn iter(&self) -> (v: Vec<u64>)
        ensures
            v@ == self@,
    {
        self.store.iter()
    }

    /// Returns `true` if the queue contains the specified value.
    pub fn contains(&self, value: &u64) -> (b: bool)
        requires
            self.wf(),
        ensures
            b == self@.contains(*value),
    {
        self.store.contains(value)
    }

    /// Returns the index of the specified value in the queue.
    pub fn index_of(&self, value: &u64) -> (r: Option<usize>)
        requires
            self.wf(),
        ensures
            match r {
                Some(i) => i < self@.len() && self@[i as int] == *value,
                None => !self@.contains(*value),
            },
    {
        self.store.index_of(value)
    }

    /// Adds a value, which is not in the queue, at the back.
    pub fn push(&mut self, value: u64)
        requires
            old(self).wf(),
            !old(self)@.contains(value),
        ensures
            final(self).wf(),
            final(self)@ == old(self)@.push(value),
    {
        self.store.add(value);
    }

    /// Removes the value at the front and returns it.
    pub fn pop(&mut self) -> (r: Option<u64>)
        requires
            old(self).wf(),
        ensures
            final(self).wf(),
            old(self)@.len() > 0 ==> r == Some(old(self)@[0]) && final(self)@ == old(self)@.remove(0),
            old(self)@.len() == 0 ==> r.is_none() && final(self)@ == old(self)@,
    {
        self.store.remove_at(0)
    }

    /// Three-way merge of queues.
    pub fn merge(lca: &MrdtQueue, left: &MrdtQueue, right: &MrdtQueue) -> (r: MrdtQueue)
        requires
            lca.wf(),
            left.wf(),
            right.wf(),
        ensures
            r.wf(),
            r@ == list_merge(lca@, left@, right@),
    {
        MrdtQueue { store: MrdtList::merge(&lca.store, &left.store, &right.store) }
    }
}

impl Mergeable<MrdtQueue> for MrdtQueue {
    open spec fn well_formed(v: &MrdtQueue) -> bool {
        v.wf()
    }

    fn merge(lca: &MrdtQueue, left: &MrdtQueue, right: &MrdtQueue) -> (r: MrdtQueue) {
        MrdtQueue::merge(lca, left, right)
    }
}

} // verus!

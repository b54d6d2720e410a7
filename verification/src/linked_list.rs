//! A list that grows and shrinks at its front, and counts its elements.

use std::collections::VecDeque;
use vstd::prelude::*;

verus! {

/// A list with its first element in front.
pub struct LinkedList<T> {
    items: VecDeque<T>,
    len: usize,
}

impl<T> View for LinkedList<T> {
    type V = Seq<T>;

    closed spec fn view(&self) -> Seq<T> {
        self.items@
    }
}

impl<T> LinkedList<T> {
    /// The invariant: the count is the number of elements.
    pub closed spec fn wf(&self) -> bool {
        self.len == self.items@.len()
    }

    /// An empty list.
    pub fn new() -> (list: Self)
        ensures
            list.wf(),
            list@ == Seq::<T>::empty(),
    {
        Self { items: VecDeque::new(), len: 0 }
    }

    /// The number of elements.
    pub fn len(&self) -> (len: usize)
        requires
            self.wf(),
        ensures
            len == self@.len(),
    {
        self.len
    }

    /// Takes the first element off the list.
    pub fn pop_front(&mut self) -> (first: Option<T>)
        requires
            old(self).wf(),
        ensures
            final(self).wf(),
            match first {
                Some(elem) => old(self)@.len() > 0 && elem == old(self)@[0] && final(self)@
                    == old(self)@.drop_first(),
                None => old(self)@.len() == 0 && final(self)@ == old(self)@,
            },
    {
        let first = self.items.pop_front();
        if first.is_some() {
            self.len -= 1;
            proof {
                assert(self@ =~= old(self)@.drop_first());
            }
        }
        first
    }

    /// Puts `elem` in front of the list.
    pub fn push_front(&mut self, elem: T)
        requires
            old(self).wf(),
            old(self)@.len() < usize::MAX,
        ensures
            final(self).wf(),
            final(self)@ == seq![elem] + old(self)@,
    {
        self.items.push_front(elem);
        self.len += 1;
    }
}

} // verus!

//! A queue: elements join at the back and leave at the front.

use std::collections::VecDeque;
use vstd::prelude::*;

verus! {

/// A cell of the queue, which holds one element.
pub struct Node<T> {
    elem: T,
}

/// A queue with its oldest element in front.
pub struct List<T> {
    cells: VecDeque<Node<T>>,
}

impl<T> Node<T> {
    /// A cell with `elem` in it.
    pub fn new(elem: T) -> (node: Node<T>)
        ensures
            node.elem() == elem,
    {
        Node { elem }
    }

    /// The element in the cell.
    pub closed spec fn elem(&self) -> T {
        self.elem
    }
}

impl<T> View for List<T> {
    type V = Seq<T>;

    closed spec fn view(&self) -> Seq<T> {
        self.cells@.map_values(|cell: Node<T>| cell.elem)
    }
}

impl<T> List<T> {
    /// An empty queue.
    pub fn new() -> (list: List<T>)
        ensures
            list@ == Seq::<T>::empty(),
    {
        let list = List { cells: VecDeque::new() };
        assert(list@ =~= Seq::<T>::empty());
        list
    }

    /// Puts `elem` at the back of the queue.
    pub fn push_back(&mut self, elem: T)
        ensures
            final(self)@ == old(self)@.push(elem),
    {
        self.cells.push_back(Node::new(elem));
        proof {
            assert(self@ =~= old(self)@.push(elem));
        }
    }

    /// Takes the element at the front off the queue.
    pub fn pop_front(&mut self) -> (first: Option<T>)
        ensures
            match first {
                Some(elem) => old(self)@.len() > 0 && elem == old(self)@[0] && final(self)@
                    == old(self)@.drop_first(),
                None => old(self)@.len() == 0 && final(self)@ == old(self)@,
            },
    {
        match self.cells.pop_front() {
            Some(cell) => {
                proof {
                    assert(self@ =~= old(self)@.drop_first());
                }
                Some(cell.elem)
            },
            None => None,
        }
    }
}

} // verus!

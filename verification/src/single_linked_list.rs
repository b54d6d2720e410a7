//! A singly linked list addressed by position.

use vstd::prelude::*;

verus! {

/// A cell of the list: a value and the rest of the list.
pub struct Link<T> {
    value: T,
    next: Option<Box<Link<T>>>,
}

/// A singly linked list.
pub struct List<T: Copy> {
    head: Option<Box<Link<T>>>,
}

/// The values of a chain of cells, from the first on.
pub closed spec fn values_of<T>(link: Option<Box<Link<T>>>) -> Seq<T>
    decreases link,
{
    match link {
        Some(cell) => seq![cell.value] + values_of(cell.next),
        None => Seq::empty(),
    }
}

/// The value at position `index` of a chain, counted from zero.
fn nth<T: Copy>(link: &Option<Box<Link<T>>>, index: i32) -> (found: Option<T>)
    ensures
        found == if 0 <= index < values_of(*link).len() {
            Some(values_of(*link)[index as int])
        } else {
            None
        },
    decreases *link,
{
    match link {
        Some(cell) => {
            if index == 0 {
                Some(cell.value)
            } else if index < 0 {
                None
            } else {
                let found = nth(&cell.next, index - 1);
                proof {
                    let rest = values_of(cell.next);
                    if 0 <= index < values_of(*link).len() {
                        assert(values_of(*link)[index as int] == rest[index - 1]);
                    }
                }
                found
            }
        },
        None => None,
    }
}

/// Appends `value` to a chain.
fn append<T: Copy>(link: &mut Option<Box<Link<T>>>, value: T)
    ensures
        values_of(*final(link)) == values_of(*old(link)).push(value),
    decreases *old(link),
{
    let taken = link.take();
    match taken {
        Some(mut cell) => {
            let ghost rest = values_of(cell.next);
            append(&mut cell.next, value);
            proof {
                assert(seq![cell.value] + rest.push(value) =~= (seq![cell.value] + rest).push(
                    value,
                ));
            }
            *link = Some(cell);
        },
        None => {
            *link = Some(Box::new(Link { value, next: None }));
            proof {
                reveal_with_fuel(values_of, 2);
                assert(values_of(*link) =~= Seq::<T>::empty().push(value));
            }
        },
    }
}

/// Puts `value` at position `index` of a chain, if the chain reaches that
/// far.
fn insert_at<T: Copy>(link: &mut Option<Box<Link<T>>>, index: i32, value: T)
    requires
        index >= 0,
    ensures
        values_of(*final(link)) == if index <= values_of(*old(link)).len() {
            values_of(*old(link)).insert(index as int, value)
        } else {
            values_of(*old(link))
        },
    decreases *old(link),
{
    let ghost before = values_of(*link);
    if index == 0 {
        let rest = link.take();
        *link = Some(Box::new(Link { value, next: rest }));
        proof {
            assert(values_of(*link) =~= before.insert(0, value));
        }
    } else {
        let taken = link.take();
        match taken {
            Some(mut cell) => {
                let ghost rest = values_of(cell.next);
                insert_at(&mut cell.next, index - 1, value);
                proof {
                    if index <= before.len() {
                        assert(seq![cell.value] + rest.insert(index - 1, value) =~= before.insert(
                            index as int,
                            value,
                        ));
                    }
                }
                *link = Some(cell);
            },
            None => {},
        }
    }
}

/// Takes the value at position `index` out of a chain, if there is one.
fn remove_at<T: Copy>(link: &mut Option<Box<Link<T>>>, index: i32)
    requires
        index >= 0,
    ensures
        values_of(*final(link)) == if index < values_of(*old(link)).len() {
            values_of(*old(link)).remove(index as int)
        } else {
            values_of(*old(link))
        },
    decreases *old(link),
{
    let ghost before = values_of(*link);
    let taken = link.take();
    match taken {
        Some(mut cell) => {
            if index == 0 {
                *link = cell.next.take();
                proof {
                    assert(values_of(*link) =~= before.remove(0));
                }
            } else {
                let ghost rest = values_of(cell.next);
                remove_at(&mut cell.next, index - 1);
                proof {
                    if index < before.len() {
                        assert(seq![cell.value] + rest.remove(index - 1) =~= before.remove(
                            index as int,
                        ));
                    }
                }
                *link = Some(cell);
            }
        },
        None => {},
    }
}

impl<T: Copy> View for List<T> {
    type V = Seq<T>;

    closed spec fn view(&self) -> Seq<T> {
        values_of(self.head)
    }
}

impl<T: Copy> List<T> {
    /// An empty list.
    pub fn new() -> (list: Self)
        ensures
            list@ == Seq::<T>::empty(),
    {
        Self { head: None }
    }

    /// The value at position `index`, counted from zero.
    pub fn get(&self, index: i32) -> (found: Option<T>)
        ensures
            found == if 0 <= index < self@.len() {
                Some(self@[index as int])
            } else {
                None
            },
    {
        nth(&self.head, index)
    }

    /// Puts `value` in front of the list.
    pub fn add_at_head(&mut self, value: T)
        ensures
            final(self)@ == seq![value] + old(self)@,
    {
        let rest = self.head.take();
        self.head = Some(Box::new(Link { value, next: rest }));
    }

    /// Puts `value` behind the list.
    pub fn add_at_tail(&mut self, value: T)
        ensures
            final(self)@ == old(self)@.push(value),
    {
        append(&mut self.head, value);
    }

    /// Takes the value at position `index` out of the list. A position
    /// that the list does not have leaves it as it is.
    pub fn delete_at_index(&mut self, index: i32)
        ensures
            final(self)@ == if 0 <= index < old(self)@.len() {
                old(self)@.remove(index as int)
            } else {
                old(self)@
            },
    {
        if index < 0 {
            return ;
        }
        remove_at(&mut self.head, index);
    }

    /// Puts `value` at position `index`, before what stood there. A
    /// position below zero counts as zero; one beyond the end of the list
    /// leaves the list as it is.
    pub fn add_at_index(&mut self, index: i32, value: T)
        ensures
            final(self)@ == if index <= 0 {
                seq![value] + old(self)@
            } else if index <= old(self)@.len() {
                old(self)@.insert(index as int, value)
            } else {
                old(self)@
            },
    {
        if index <= 0 {
            self.add_at_head(value);
        } else {
            insert_at(&mut self.head, index, value);
        }
    }
}

} // verus!

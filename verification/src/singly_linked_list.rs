//! A generic singly linked list as an algebraic data type:
//! `List<T> = Empty | Node { value: T, next: Box<List<T>> }`.
use vstd::prelude::*;

verus! {

pub enum List<T> {
    Empty,
    Node { value: T, next: Box<List<T>> },
}

impl<T> List<T> {
    /// The elements, from the front.
    pub open spec fn elements(self) -> Seq<T>
        decreases self,
    {
        match self {
            List::Empty => Seq::empty(),
            List::Node { value, next } => seq![value] + next.elements(),
        }
    }

    pub fn new() -> (r: Self)
        ensures
            r.elements() == Seq::<T>::empty(),
    {
        List::Empty
    }

    pub fn is_empty(&self) -> (r: bool)
        ensures
            r == (self.elements().len() == 0),
    {
        match self {
            List::Empty => true,
            List::Node { .. } => false,
        }
    }

    /// Number of elements, counted by walking the list.
    pub fn len(&self) -> (r: usize)
        requires
            self.elements().len() <= usize::MAX,
        ensures
            r == self.elements().len(),
        decreases self,
    {
        match self {
            List::Empty => 0,
            List::Node { next, .. } => 1 + next.len(),
        }
    }

    /// Add `value` at the front, in O(1).
    pub fn push_front(&mut self, value: T)
        ensures
            final(self).elements() == seq![value] + old(self).elements(),
    {
        let mut old = List::Empty;
        std::mem::swap(self, &mut old);
        *self = List::Node { value, next: Box::new(old) };
    }

    /// Remove and return the front element, in O(1).
    pub fn pop_front(&mut self) -> (r: Option<T>)
        ensures
            old(self).elements().len() == 0 ==> r is None && final(self).elements() == old(self).elements(),
            old(self).elements().len() > 0 ==> r == Some(old(self).elements()[0])
                && final(self).elements() == old(self).elements().drop_first(),
    {
        let mut taken = List::Empty;
        std::mem::swap(self, &mut taken);
        match taken {
            List::Empty => None,
            List::Node { value, next } => {
                *self = *next;
                proof {
                    assert(old(self).elements().drop_first() =~= self.elements());
                }
                Some(value)
            },
        }
    }
}

/// Pushing a value and popping it again gives back the value and the list.
pub proof fn lemma_push_pop<T>(elements: Seq<T>, value: T)
    ensures
        (seq![value] + elements)[0] == value,
        (seq![value] + elements).drop_first() == elements,
{
    assert((seq![value] + elements).drop_first() =~= elements);
}

} // verus!

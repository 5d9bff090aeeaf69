//! A first-in, first-out queue of borrowed values.

use std::collections::VecDeque;
use vstd::prelude::*;

verus! {

/// A queue of references. Adding at the back and taking from the front both
/// take constant time.
pub struct Queue<'t, T> {
    items: VecDeque<&'t T>,
}

impl<'t, T> View for Queue<'t, T> {
    type V = Seq<T>;

    /// The queued values, the next one to take first.
    closed spec fn view(&self) -> Seq<T> {
        Seq::new(self.items@.len(), |i: int| *self.items@[i])
    }
}

impl<'t, T> Queue<'t, T> {
    /// An empty queue.
    pub fn new() -> (r: Self)
        ensures
            r@ == Seq::<T>::empty(),
    {
        let r = Queue { items: VecDeque::new() };
        proof {
            assert(r@ =~= Seq::<T>::empty());
        }
        r
    }

    /// A queue that holds the elements of `slice`, the first one in front.
    pub fn from(slice: &'t [T]) -> (r: Self)
        ensures
            r@ == slice@,
    {
        let mut queue = Queue::new();
        queue.append(slice);
        proof {
            assert(queue@ =~= slice@);
        }
        queue
    }

    /// Puts `value` at the back.
    pub fn add(&mut self, value: &'t T)
        ensures
            final(self)@ == old(self)@.push(*value),
    {
        self.items.push_back(value);
        proof {
            assert(self@ =~= old(self)@.push(*value));
        }
    }

    /// Puts the elements of `slice` at the back, in their order.
    pub fn append(&mut self, slice: &'t [T])
        ensures
            final(self)@ == old(self)@ + slice@,
    {
        let mut i: usize = 0;
        while i < slice.len()
            invariant
                i <= slice@.len(),
                self@ == old(self)@ + slice@.subrange(0, i as int),
            decreases slice@.len() - i,
        {
            self.add(&slice[i]);
            proof {
                assert(self@ =~= old(self)@ + slice@.subrange(0, i + 1));
            }
            i = i + 1;
        }
        proof {
            assert(slice@.subrange(0, slice@.len() as int) =~= slice@);
        }
    }

    /// Takes the value at the front, if there is one.
    pub fn take(&mut self) -> (r: Option<&'t T>)
        ensures
            match r {
                Some(value) => {
                    &&& old(self)@.len() > 0
                    &&& *value == old(self)@[0]
                    &&& final(self)@ == old(self)@.drop_first()
                },
                None => {
                    &&& old(self)@.len() == 0
                    &&& final(self)@ == old(self)@
                },
            },
    {
        let r = self.items.pop_front();
        proof {
            if r is Some {
                assert(self@ =~= old(self)@.drop_first());
            }
        }
        r
    }

    /// How many values wait.
    pub fn len(&self) -> (r: usize)
        ensures
            r == self@.len(),
    {
        self.items.len()
    }
}

impl<'t, T> Default for Queue<'t, T> {
    fn default() -> (r: Self)
        ensures
            r@ == Seq::<T>::empty(),
    {
        Self::new()
    }
}

} // verus!

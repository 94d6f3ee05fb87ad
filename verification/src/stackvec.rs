//! A growable buffer that is created with the room it is expected to need.
use vstd::prelude::*;

verus! {

pub struct StackVec<T> {
    pub data: Vec<T>,
}

impl<T> View for StackVec<T> {
    type V = Seq<T>;

    open spec fn view(&self) -> Seq<T> {
        self.data@
    }
}

impl<T> StackVec<T> {
    /// An empty buffer with room for `size` items.
    pub fn New(size: usize) -> (r: Self)
        ensures
            r@.len() == 0,
    {
        StackVec { data: Vec::with_capacity(size) }
    }

    pub fn Push(&mut self, t: T)
        ensures
            final(self)@ == old(self)@.push(t),
    {
        self.data.push(t);
    }

    pub fn Len(&self) -> (r: usize)
        ensures
            r == self@.len(),
    {
        self.data.len()
    }

    pub fn Slice(&self) -> (r: &[T])
        ensures
            r@ == self@,
    {
        self.data.as_slice()
    }

    /// Puts `t` in place of item `i`.
    pub fn Replace(&mut self, i: usize, t: T)
        requires
            i < old(self)@.len(),
        ensures
            final(self)@ == old(self)@.update(i as int, t),
    {
        self.data.set(i, t);
    }

    pub fn Clear(&mut self)
        ensures
            final(self)@.len() == 0,
    {
        self.data.clear();
    }
}

} // verus!

//! A vector with a fixed capacity `N`, for tables whose size is bounded up front.

use vstd::prelude::*;

verus! {

/// A vector that holds at most `N` elements.
pub struct ConstVec<T, const N: usize> {
    data: Vec<T>,
}

/// Walks the elements of a `ConstVec` in order.
pub struct ConstVecIter<'a, T, const N: usize> {
    vec: &'a ConstVec<T, N>,
    idx: usize,
}

impl<T, const N: usize> View for ConstVec<T, N> {
    type V = Seq<T>;

    closed spec fn view(&self) -> Seq<T> {
        self.data@
    }
}

impl<T, const N: usize> ConstVec<T, N> {
    /// The length never exceeds the capacity.
    pub open spec fn wf(&self) -> bool {
        self@.len() <= N
    }

    pub fn new() -> (r: ConstVec<T, N>)
        ensures
            r.wf(),
            r@ == Seq::<T>::empty(),
    {
        ConstVec { data: Vec::new() }
    }

    /// The element at `idx`, if there is one.
    pub fn get(&self, idx: usize) -> (r: Option<&T>)
        ensures
            idx < self@.len() ==> r == Some(&self@[idx as int]),
            idx >= self@.len() ==> r is None,
    {
        if idx < self.data.len() {
            Some(&self.data[idx])
        } else {
            None
        }
    }

    pub fn len(&self) -> (r: usize)
        ensures
            r == self@.len(),
    {
        self.data.len()
    }

    pub fn is_empty(&self) -> (r: bool)
        ensures
            r == (self@.len() == 0),
    {
        self.data.len() == 0
    }

    /// Appends `value`; the vector must not be full.
    pub fn push(&mut self, value: T)
        requires
            old(self).wf(),
            old(self)@.len() < N,
        ensures
            final(self).wf(),
            final(self)@ == old(self)@.push(value),
    {
        self.data.push(value);
    }

    /// A cursor over the elements, from the first.
    pub fn iter(&self) -> (r: ConstVecIter<'_, T, N>)
        ensures
            r.seq() == self@,
            r.pos() == 0,
    {
        ConstVecIter { vec: self, idx: 0 }
    }
}

impl<'a, T, const N: usize> ConstVecIter<'a, T, N> {
    /// The elements walked over.
    pub closed spec fn seq(&self) -> Seq<T> {
        self.vec@
    }

    /// How many elements have been handed out.
    pub closed spec fn pos(&self) -> int {
        self.idx as int
    }

    /// The next element, or `None` once all have been handed out.
    pub fn next(&mut self) -> (r: Option<&'a T>)
        ensures
            final(self).seq() == old(self).seq(),
            old(self).pos() < old(self).seq().len() ==> r == Some(&old(self).seq()[old(self).pos()])
                && final(self).pos() == old(self).pos() + 1,
            old(self).pos() >= old(self).seq().len() ==> r is None && final(self).pos() == old(
                self,
            ).pos(),
    {
        if self.idx < self.vec.len() {
            let r = self.vec.get(self.idx);
            self.idx = self.idx + 1;
            r
        } else {
            None
        }
    }
}

} // verus!

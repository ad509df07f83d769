//! Small shared helpers: size units and a vector addressed from a base index.

use vstd::prelude::*;

verus! {

pub const KILOBYTE: usize = 1000;

pub const MEGABYTE: usize = 1000_000;

pub const GIGABYTE: usize = 1000_000_000;

/// A vector whose first element is addressed by `offset` rather than 0.
pub struct OffsetVec<T> {
    vec: Vec<T>,
    offset: usize,
}

impl<T> OffsetVec<T> {
    /// The elements, in order; element `i` has address `offset() + i`.
    pub closed spec fn elems(&self) -> Seq<T> {
        self.vec@
    }

    /// The address of the first element.
    pub closed spec fn offset(&self) -> nat {
        self.offset as nat
    }

    pub fn new(offset: usize) -> (r: OffsetVec<T>)
        ensures
            r.elems() == Seq::<T>::empty(),
            r.offset() == offset,
    {
        OffsetVec { vec: Vec::new(), offset }
    }

    pub fn get(&self, index: usize) -> (r: &T)
        requires
            self.offset() <= index < self.offset() + self.elems().len(),
        ensures
            *r == self.elems()[index - self.offset()],
    {
        &self.vec[index - self.offset]
    }

    pub fn set(&mut self, index: usize, data: T)
        requires
            old(self).offset() <= index < old(self).offset() + old(self).elems().len(),
        ensures
            final(self).offset() == old(self).offset(),
            final(self).elems() == old(self).elems().update(index - old(self).offset(), data),
    {
        let i = index - self.offset;
        self.vec.set(i, data);
    }

    /// Appends `data` and returns the address it was given.
    pub fn push(&mut self, data: T) -> (r: usize)
        requires
            old(self).offset() + old(self).elems().len() < usize::MAX,
        ensures
            final(self).offset() == old(self).offset(),
            final(self).elems() == old(self).elems().push(data),
            r == old(self).offset() + old(self).elems().len(),
    {
        self.vec.push(data);
        self.vec.len() + self.offset - 1
    }

    pub fn pop(&mut self) -> (r: Option<T>)
        ensures
            final(self).offset() == old(self).offset(),
            old(self).elems().len() == 0 ==> r is None && final(self).elems() == old(self).elems(),
            old(self).elems().len() > 0 ==> r == Some(old(self).elems().last())
                && final(self).elems() == old(self).elems().drop_last(),
    {
        self.vec.pop()
    }

    /// The address the next pushed element will get.
    pub fn next_index(&self) -> (r: usize)
        requires
            self.offset() + self.elems().len() <= usize::MAX,
        ensures
            r == self.offset() + self.elems().len(),
    {
        self.vec.len() + self.offset
    }

    pub fn first(&self) -> (r: Option<(usize, &T)>)
        ensures
            self.elems().len() == 0 ==> r is None,
            self.elems().len() > 0 ==> r == Some((self.offset() as usize, &self.elems()[0])),
    {
        if self.vec.len() == 0 {
            None
        } else {
            Some((self.offset, &self.vec[0]))
        }
    }

    pub fn last(&self) -> (r: Option<(usize, &T)>)
        requires
            self.offset() + self.elems().len() <= usize::MAX,
        ensures
            self.elems().len() == 0 ==> r is None,
            self.elems().len() > 0 ==> r == Some(
                ((self.offset() + self.elems().len() - 1) as usize, &self.elems().last()),
            ),
    {
        let n = self.vec.len();
        if n == 0 {
            None
        } else {
            Some((self.offset + n - 1, &self.vec[n - 1]))
        }
    }

    /// The elements in address order.
    pub fn iter(&self) -> (r: &[T])
        ensures
            r@ == self.elems(),
    {
        self.vec.as_slice()
    }

    /// Each element paired with its address, in address order.
    pub fn iter_offset(&self) -> (r: Vec<(usize, &T)>)
        requires
            self.offset() + self.elems().len() <= usize::MAX,
        ensures
            r@.len() == self.elems().len(),
            forall|i: int| 0 <= i < r@.len() ==> r@[i] == (
                (self.offset() + i) as usize, &self.elems()[i]),
    {
        let mut out: Vec<(usize, &T)> = Vec::new();
        let mut i: usize = 0;
        while i < self.vec.len()
            invariant
                i <= self.vec@.len(),
                self.offset + self.vec@.len() <= usize::MAX,
                out@.len() == i,
                forall|j: int| 0 <= j < i ==> out@[j] == ((self.offset + j) as usize, &self.vec@[j]),
            decreases self.vec@.len() - i,
        {
            out.push((self.offset + i, &self.vec[i]));
            i = i + 1;
        }
        out
    }
}

} // verus!

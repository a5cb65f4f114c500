//! A vector whose length never exceeds a capacity fixed by its type.
use vstd::prelude::*;

verus! {

/// At most `N` values of a `Copy` type, in the order they were added.
pub struct FixedSizeVec<T: Copy, const N: usize> {
    data: Vec<T>,
}

impl<T: Copy, const N: usize> View for FixedSizeVec<T, N> {
    type V = Seq<T>;

    closed spec fn view(&self) -> Seq<T> {
        self.data@
    }
}

impl<T: Copy, const N: usize> FixedSizeVec<T, N> {
    /// The length stays within the capacity `N`.
    pub closed spec fn wf(&self) -> bool {
        self.data@.len() <= N
    }

    pub fn new() -> (r: Self)
        ensures
            r.wf(),
            r@ == Seq::<T>::empty(),
    {
        FixedSizeVec { data: Vec::new() }
    }

    /// Appends `value`; the vector must not be full.
    pub fn push(&mut self, value: T)
        requires
            old(self).wf(),
            old(self)@.len() < N,
        ensures
            final(self).wf(),
            final(self)@ == old(self)@.push(value),
    {
        self.data.push(value);
    }

    /// Removes and returns the last value, or `None` when empty.
    pub fn pop(&mut self) -> (r: Option<T>)
        requires
            old(self).wf(),
        ensures
            final(self).wf(),
            old(self)@.len() == 0 ==> r == None::<T> && final(self)@ == old(self)@,
            old(self)@.len() > 0 ==> r == Some(old(self)@.last()) && final(self)@ == old(
                self,
            )@.drop_last(),
    {
        self.data.pop()
    }

    /// Removes and returns the first value, moving the others one place
    /// forward; the vector must not be empty.
    pub fn shift(&mut self) -> (r: Option<T>)
        requires
            old(self).wf(),
            old(self)@.len() > 0,
        ensures
            final(self).wf(),
            r == Some(old(self)@[0]),
            final(self)@ == old(self)@.subrange(1, old(self)@.len() as int),
    {
        Some(self.data.remove(0))
    }

    /// The value at `index`, or `None` past the end.
    pub fn get(&self, index: usize) -> (r: Option<&T>)
        ensures
            index < self@.len() ==> r == Some(&self@[index as int]),
            index >= self@.len() ==> r == None::<&T>,
    {
        if index >= self.data.len() {
            return None;
        }
        Some(&self.data[index])
    }

    /// A mutable reference to the value at `index`, or `None` past the end.
    pub fn get_mut(&mut self, index: usize) -> (r: Option<&mut T>)
        requires
            old(self).wf(),
        ensures
            final(self).wf(),
            index < old(self)@.len() ==> r.is_some() && *r.unwrap() == old(self)@[index as int]
                && final(self)@ == old(self)@.update(index as int, *final(r.unwrap())),
            index >= old(self)@.len() ==> r.is_none() && final(self)@ == old(self)@,
    {
        if index >= self.data.len() {
            return None;
        }
        Some(&mut self.data[index])
    }

    pub fn len(&self) -> (r: usize)
        ensures
            r == self@.len(),
    {
        self.data.len()
    }

    pub fn is_empty(&self) -> (r: bool)
        ensures
            r == (self@.len() == 0),
    {
        self.data.len() == 0
    }

    /// The values in order, copied out.
    pub fn iter(&self) -> (r: Vec<T>)
        ensures
            r@ == self@,
    {
        let mut out: Vec<T> = Vec::new();
        let mut i: usize = 0;
        while i < self.data.len()
            invariant
                i <= self.data@.len(),
                out@ == self.data@.subrange(0, i as int),
            decreases self.data@.len() - i,
        {
            out.push(self.data[i]);
            i += 1;
        }
        assert(out@ == self.data@.subrange(0, self.data@.len() as int));
        out
    }
}

} // verus!

//! A vector with a fixed capacity.
use vstd::prelude::*;

verus! {

/// At most `N` elements, in order.
#[derive(Debug)]
pub struct ShmVec<T: Default, const N: usize> {
    data: Vec<T>,
}

impl<T: Default, const N: usize> View for ShmVec<T, N> {
    type V = Seq<T>;

    closed spec fn view(&self) -> Seq<T> {
        self.data@
    }
}

impl<T: Default, const N: usize> ShmVec<T, N> {
    /// No more elements than the capacity.
    pub open spec fn wf(self) -> bool {
        self@.len() <= N
    }

    pub fn new() -> (v: Self)
        ensures
            v@ == Seq::<T>::empty(),
            v.wf(),
    {
        ShmVec { data: Vec::new() }
    }

    /// Drops all elements.
    pub fn reinit(&mut self)
        ensures
            final(self)@ == Seq::<T>::empty(),
            final(self).wf(),
    {
        self.data = Vec::new();
    }

    /// Appends `val` and says where it stands; fails where the vector is full.
    pub fn push(&mut self, val: T) -> (res: Result<usize, ()>)
        ensures
            match res {
                Ok(idx) => old(self)@.len() < N && idx == old(self)@.len() && final(self)@
                    == old(self)@.push(val),
                Err(_) => old(self)@.len() >= N && final(self)@ == old(self)@,
            },
            old(self).wf() ==> final(self).wf(),
    {
        if self.data.len() >= N {
            return Err(());
        }
        let new_idx: usize = self.data.len();
        self.data.push(val);
        Ok(new_idx)
    }

    /// Takes the last element off.
    pub fn pop(&mut self) -> (res: Option<T>)
        ensures
            match res {
                Some(val) => old(self)@.len() > 0 && val == old(self)@.last() && final(self)@
                    == old(self)@.drop_last(),
                None => old(self)@.len() == 0 && final(self)@ == old(self)@,
            },
            old(self).wf() ==> final(self).wf(),
    {
        self.data.pop()
    }

    /// Takes the element at `idx` out and closes the gap.
    pub fn remove(&mut self, idx: usize) -> (val: T)
        requires
            idx < old(self)@.len(),
        ensures
            val == old(self)@[idx as int],
            final(self)@ == old(self)@.remove(idx as int),
            old(self).wf() ==> final(self).wf(),
    {
        self.data.remove(idx)
    }

    pub fn len(&self) -> (n: usize)
        ensures
            n == self@.len(),
    {
        self.data.len()
    }

    pub fn is_empty(&self) -> (empty: bool)
        ensures
            empty == (self@.len() == 0),
    {
        self.data.len() == 0
    }

    pub fn capacity(&self) -> (n: usize)
        ensures
            n == N,
    {
        N
    }

    pub fn as_slice(&self) -> (slice: &[T])
        ensures
            slice@ == self@,
    {
        self.data.as_slice()
    }

    /// The elements, to be changed in place.
    pub fn as_mut_slice(&mut self) -> (slice: &mut [T])
        ensures
            slice@ == old(self)@,
            final(self)@ == final(slice)@,
    {
        self.data.as_mut_slice()
    }

    pub fn at(&self, idx: usize) -> (val: Option<&T>)
        ensures
            match val {
                Some(val) => idx < self@.len() && *val == self@[idx as int],
                None => idx >= self@.len(),
            },
    {
        if idx < self.data.len() {
            Some(&self.data[idx])
        } else {
            None
        }
    }

    /// The element at `idx`, to be changed in place.
    pub fn at_mut(&mut self, idx: usize) -> (val: Option<&mut T>)
        ensures
            match val {
                Some(val) => idx < old(self)@.len() && *val == old(self)@[idx as int]
                    && final(self)@ == old(self)@.update(idx as int, *final(val)),
                None => idx >= old(self)@.len() && final(self)@ == old(self)@,
            },
    {
        if idx < self.data.len() {
            Some(&mut self.data[idx])
        } else {
            None
        }
    }

    /// The elements, one after the other.
    pub fn iter(&self) -> (iter: core::slice::Iter<'_, T>)
        ensures
            vstd::std_specs::iter::IteratorSpec::remaining(&iter) == self@.as_ref(),
    {
        self.data.as_slice().iter()
    }
}

impl<T: Default, const N: usize> Default for ShmVec<T, N> {
    fn default() -> (v: Self)
        ensures
            v@ == Seq::<T>::empty(),
            v.wf(),
    {
        Self::new()
    }
}

} // verus!

//! Walking the records of a `BigVec` one at a time, without copying them all.

use crate::big_vec::{BigVec, BigVecError};
use crate::record::Record;
use std::marker::PhantomData;
use vstd::prelude::*;

verus! {

/// Reads the records of a `BigVec` in order; the length is taken when the
/// walk starts.
pub struct Iter<'v, T> {
    inner: &'v BigVec,
    len: usize,
    current: usize,
    phantom: PhantomData<T>,
}

impl<'v, T: Record> Iter<'v, T> {
    /// The vector walked over.
    pub closed spec fn source(&self) -> BigVec {
        *self.inner
    }

    /// Index of the next record to be read.
    pub closed spec fn pos(&self) -> nat {
        self.current as nat
    }

    /// Number of records the walk covers.
    pub closed spec fn end(&self) -> nat {
        self.len as nat
    }

    /// The walk stays within the length taken at its start, which is the
    /// vector's length, and the vector is well formed.
    pub open spec fn inv(&self) -> bool {
        &&& self.pos() <= self.end()
        &&& self.end() == self.source().count()
        &&& self.source().wf(T::spec_width())
    }

    /// The next record, decoded, or `None` at the end.
    pub fn next(&mut self) -> (r: Option<T>)
        requires
            old(self).inv(),
        ensures
            final(self).inv(),
            final(self).source() == old(self).source(),
            final(self).end() == old(self).end(),
            old(self).pos() < old(self).end() ==> r is Some && r.unwrap().spec_encode() == old(
                self,
            ).source().records(T::spec_width())[old(self).pos() as int] && final(self).pos()
                == old(self).pos() + 1,
            old(self).pos() == old(self).end() ==> r is None && final(self).pos() == old(
                self,
            ).pos(),
    {
        if self.current == self.len {
            None
        } else {
            let r = self.inner.get::<T>(self.current);
            self.current = self.current + 1;
            r
        }
    }
}

/// Visits the records of a `BigVec` in order, handing out the index of each
/// and writing through the vector it holds; the length is taken when the walk
/// starts.
pub struct IterMut<'v, T> {
    inner: &'v mut BigVec,
    len: usize,
    current: usize,
    phantom: PhantomData<T>,
}

impl<'v, T: Record> IterMut<'v, T> {
    /// The vector walked over.
    pub closed spec fn source(&self) -> BigVec {
        *self.inner
    }

    /// Index of the next record to be visited.
    pub closed spec fn pos(&self) -> nat {
        self.current as nat
    }

    /// Number of records the walk covers.
    pub closed spec fn end(&self) -> nat {
        self.len as nat
    }

    /// The walk stays within the length taken at its start, which is the
    /// vector's length, and the vector is well formed.
    pub open spec fn inv(&self) -> bool {
        &&& self.pos() <= self.end()
        &&& self.end() == self.source().count()
        &&& self.source().wf(T::spec_width())
    }

    /// The index of the next record, or `None` at the end.
    pub fn next(&mut self) -> (r: Option<usize>)
        requires
            old(self).inv(),
        ensures
            final(self).inv(),
            final(self).source() == old(self).source(),
            final(self).end() == old(self).end(),
            old(self).pos() < old(self).end() ==> r == Some(old(self).pos() as usize)
                && final(self).pos() == old(self).pos() + 1,
            old(self).pos() == old(self).end() ==> r is None && final(self).pos() == old(
                self,
            ).pos(),
    {
        if self.current == self.len {
            None
        } else {
            let r = self.current;
            self.current = self.current + 1;
            Some(r)
        }
    }

    /// The record at `index`, decoded, or `None` past the end.
    pub fn get(&self, index: usize) -> (r: Option<T>)
        requires
            self.inv(),
        ensures
            index < self.end() ==> r is Some && r.unwrap().spec_encode() == self.source().records(
                T::spec_width(),
            )[index as int],
            index >= self.end() ==> r is None,
    {
        self.inner.get::<T>(index)
    }

    /// Overwrites the record at `index` with `element`.
    pub fn set(&mut self, index: usize, element: &T) -> (r: Result<(), BigVecError>)
        requires
            old(self).inv(),
        ensures
            final(self).inv(),
            final(self).pos() == old(self).pos(),
            final(self).end() == old(self).end(),
            index < old(self).end() ==> r is Ok && final(self).source().records(T::spec_width())
                == old(self).source().records(T::spec_width()).update(
                index as int,
                element.spec_encode(),
            ),
            index >= old(self).end() ==> r == Err::<(), BigVecError>(BigVecError::IndexOutOfRange)
                && final(self).source().data@ == old(self).source().data@,
    {
        self.inner.set(index, element)
    }
}

impl BigVec {
    /// A walk that reads the records in order.
    pub fn iter<T: Record>(&self) -> (r: Iter<'_, T>)
        requires
            self.wf(T::spec_width()),
        ensures
            r.inv(),
            r.source() == *self,
            r.pos() == 0,
            r.end() == self.count(),
    {
        Iter { inner: self, len: self.len() as usize, current: 0, phantom: PhantomData }
    }

    /// A walk that visits the records in order and can overwrite them.
    pub fn iter_mut<T: Record>(&mut self) -> (r: IterMut<'_, T>)
        requires
            old(self).wf(T::spec_width()),
        ensures
            r.inv(),
            r.source() == *old(self),
            r.pos() == 0,
            r.end() == old(self).count(),
    {
        let len = self.len() as usize;
        IterMut { inner: self, len, current: 0, phantom: PhantomData }
    }
}

} // verus!

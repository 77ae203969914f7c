//! Wrappers that adapt a stream between the two families of async I/O traits.
//! The trait impls live with the runtime; here the wrappers only own the
//! inner stream.
use vstd::prelude::*;

verus! {

/// Wraps a stream of the runtime's I/O traits for use as a `futures` stream.
pub struct CompatStream<T>(T);

impl<T> CompatStream<T> {
    /// The wrapped stream.
    pub closed spec fn inner(&self) -> T {
        self.0
    }

    pub fn new(inner: T) -> (r: CompatStream<T>)
        ensures
            r.inner() == inner,
    {
        CompatStream(inner)
    }

    pub fn get_ref(&self) -> (r: &T)
        ensures
            *r == self.inner(),
    {
        &self.0
    }

    pub fn get_mut(&mut self) -> (r: &mut T)
        ensures
            *r == old(self).inner(),
            final(self).inner() == *final(r),
    {
        &mut self.0
    }

    pub fn into_inner(self) -> (r: T)
        ensures
            r == self.inner(),
    {
        self.0
    }
}

/// Wraps a `futures` stream for use with the runtime's I/O traits.
pub struct CompatStream2<T>(T);

impl<T> CompatStream2<T> {
    /// The wrapped stream.
    pub closed spec fn inner(&self) -> T {
        self.0
    }

    pub fn new(inner: T) -> (r: CompatStream2<T>)
        ensures
            r.inner() == inner,
    {
        CompatStream2(inner)
    }

    pub fn get_ref(&self) -> (r: &T)
        ensures
            *r == self.inner(),
    {
        &self.0
    }

    pub fn get_mut(&mut self) -> (r: &mut T)
        ensures
            *r == old(self).inner(),
            final(self).inner() == *final(r),
    {
        &mut self.0
    }

    pub fn into_inner(self) -> (r: T)
        ensures
            r == self.inner(),
    {
        self.0
    }
}

} // verus!

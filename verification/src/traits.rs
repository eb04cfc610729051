//! Storage capabilities: the two contracts a backing container must satisfy
//! so that a ring buffer can be laid over it.
//!
//! A readable storage exposes its entire contents as one contiguous,
//! fixed-length run of elements; a writable storage additionally exposes the
//! same run for exclusive mutation. The ring buffer never learns where the
//! memory lives; it only calls these two operations.

use vstd::prelude::*;

verus! {

/// Read capability: the whole backing contents as one contiguous run.
pub trait Slice: Sized {
    type Element;

    /// The storage contents as a mathematical sequence, in storage order.
    spec fn contents(&self) -> Seq<Self::Element>;

    /// Borrows the entire backing run, read-only.
    fn slice(&self) -> (r: &[Self::Element])
        ensures
            r@ == self.contents(),
    ;
}

/// Write capability: the same contents, exposed as one contiguous mutable run.
pub trait SliceMut: Slice {
    /// Borrows the entire backing run for exclusive mutation. Writes through
    /// the returned run rewrite the contents element by element; the length
    /// cannot change.
    fn slice_mut(&mut self) -> (r: &mut [Self::Element])
        ensures
            r@ == old(self).contents(),
            final(self).contents() == final(r)@,
    ;
}

/// Marker for storage whose element count is fixed at compile time.
pub trait FixedSizeArray {
    const LEN: usize;
}

impl<T, const N: usize> FixedSizeArray for [T; N] {
    const LEN: usize = N;
}

impl<T> Slice for Vec<T> {
    type Element = T;

    open spec fn contents(&self) -> Seq<T> {
        self@
    }

    fn slice(&self) -> (r: &[T]) {
        self.as_slice()
    }
}

impl<T> SliceMut for Vec<T> {
    fn slice_mut(&mut self) -> (r: &mut [T]) {
        self.as_mut_slice()
    }
}

impl<T, const N: usize> Slice for [T; N] {
    type Element = T;

    open spec fn contents(&self) -> Seq<T> {
        self@
    }

    fn slice(&self) -> (r: &[T]) {
        self.as_slice()
    }
}

/// Relies on `<[T; N]>::as_mut_slice`: the whole array as one mutable run
/// of length `N`; writes through the run are writes to the array.
#[verifier::external_body]
fn array_as_mut_slice<T, const N: usize>(ar: &mut [T; N]) -> (r: &mut [T])
    ensures
        r@ == old(ar)@,
        final(ar)@ == final(r)@,
{
    ar.as_mut_slice()
}

impl<T, const N: usize> SliceMut for [T; N] {
    fn slice_mut(&mut self) -> (r: &mut [T]) {
        array_as_mut_slice(self)
    }
}

/// Relies on `Box<[T]>` dereferencing to the boxed slice itself.
#[verifier::external_body]
fn boxed_slice<T>(b: &Box<[T]>) -> (r: &[T])
    ensures
        r@ == b@,
{
    &b[..]
}

/// Relies on `Box<[T]>` dereferencing mutably to the boxed slice itself:
/// writes through the run are writes to the boxed contents.
#[verifier::external_body]
fn boxed_slice_mut<T>(b: &mut Box<[T]>) -> (r: &mut [T])
    ensures
        r@ == old(b)@,
        final(b)@ == final(r)@,
{
    &mut b[..]
}

impl<T> Slice for Box<[T]> {
    type Element = T;

    open spec fn contents(&self) -> Seq<T> {
        self@
    }

    fn slice(&self) -> (r: &[T]) {
        boxed_slice(self)
    }
}

impl<T> SliceMut for Box<[T]> {
    fn slice_mut(&mut self) -> (r: &mut [T]) {
        boxed_slice_mut(self)
    }
}

impl<'a, T> Slice for &'a [T] {
    type Element = T;

    open spec fn contents(&self) -> Seq<T> {
        (*self)@
    }

    fn slice(&self) -> (r: &[T]) {
        *self
    }
}

impl<'a, T> Slice for &'a mut [T] {
    type Element = T;

    open spec fn contents(&self) -> Seq<T> {
        (**self)@
    }

    fn slice(&self) -> (r: &[T]) {
        &**self
    }
}

impl<'a, T> SliceMut for &'a mut [T] {
    fn slice_mut(&mut self) -> (r: &mut [T]) {
        &mut **self
    }
}

} // verus!

//! Backing storage of a 2d array: readable, writable or owned and growable.

use vstd::prelude::*;

verus! {

/// A readable slice storage of `GenericArray2d`.
pub trait Array2dStorage {
    type Item;

    /// The items of the storage, in order.
    spec fn items(&self) -> Seq<Self::Item>;

    fn slice(&self) -> (r: &[Self::Item])
        ensures
            r@ == self.items(),
    ;
}

/// A mutable slice storage of `GenericArray2d`.
pub trait Array2dStorageMut: Array2dStorage {
    fn slice_mut(&mut self) -> (r: &mut [Self::Item])
        ensures
            r@ == old(self).items(),
            final(self).items() == final(r)@,
    ;
}

/// An owned growable storage of `GenericArray2d`.
pub trait Array2dStorageOwned: Array2dStorageMut + Sized {
    fn vec_mut(&mut self) -> (r: &mut Vec<Self::Item>)
        ensures
            r@ == old(self).items(),
            final(self).items() == final(r)@,
    ;

    fn from_vec(vec: Vec<Self::Item>) -> (r: Self)
        ensures
            r.items() == vec@,
    ;
}

impl<'a, T> Array2dStorage for &'a [T] {
    type Item = T;

    open spec fn items(&self) -> Seq<T> {
        (**self)@
    }

    fn slice(&self) -> (r: &[T]) {
        *self
    }
}

impl<'a, T> Array2dStorage for &'a mut [T] {
    type Item = T;

    open spec fn items(&self) -> Seq<T> {
        (**self)@
    }

    fn slice(&self) -> (r: &[T]) {
        &**self
    }
}

impl<'a, T> Array2dStorageMut for &'a mut [T] {
    fn slice_mut(&mut self) -> (r: &mut [T]) {
        &mut **self
    }
}

impl<T> Array2dStorage for Vec<T> {
    type Item = T;

    open spec fn items(&self) -> Seq<T> {
        self@
    }

    fn slice(&self) -> (r: &[T]) {
        self.as_slice()
    }
}

impl<T> Array2dStorageMut for Vec<T> {
    fn slice_mut(&mut self) -> (r: &mut [T]) {
        self.as_mut_slice()
    }
}

impl<T> Array2dStorageOwned for Vec<T> {
    fn vec_mut(&mut self) -> (r: &mut Vec<T>) {
        self
    }

    fn from_vec(vec: Vec<T>) -> (r: Self) {
        vec
    }
}

} // verus!

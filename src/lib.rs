//! Two-dimensional arrays whose coordinates start at any integer point.
//!
//! A [`GenericArray2d`] couples a storage, a [`Boundary`] and a row stride (the pitch).
//! The value at a point `p` of the boundary lives at slot
//! `(p.y - min.y) * pitch + (p.x - min.x)` of the storage.

mod boundary;
mod core_ops;
mod data;
mod laws;
mod storage;
mod resize;
mod util;
mod zip;

pub use boundary::{
    abs_int, bound_ok, end_of, expanded, intersection_of, lemma_intersection, lower_of,
    min_max_non_inclusive_of, min_max_of, upper_of, Bound, Boundary, IntoBoundary,
};
pub use core_ops::overlaps;
pub use data::{persists, Array2dData, DataError};
pub use laws::{
    lemma_intersection_empty, lemma_intersection_self, lemma_resize_twice, lemma_round_trip,
    lemma_set_then_get,
};
pub use resize::{count_outside, insert_bounds, last_at, points_box, resized, union_of};
pub use storage::{Array2dStorage, Array2dStorageMut, Array2dStorageOwned};
pub use util::{
    fits_i32, is_default, max_int, min_int, move_within, moved, offset_of, wrap_i32, wrap_u32,
    Vector2,
};
pub use zip::{cell, point_of, GenericArray2dRef, Zip};

use vstd::prelude::*;

verus! {

/// A 2d array with generic backing storage.
#[derive(Debug)]
pub struct GenericArray2d<S: Array2dStorage> {
    data: S,
    boundary: Boundary,
    pitch: usize,
}

/// A 2d array.
pub type Array2d<T> = GenericArray2d<Vec<T>>;

/// A readonly 2d array backed by a slice or a readonly view of an existing 2d array.
pub type Array2dRef<'t, T> = GenericArray2d<&'t [T]>;

/// A mutable 2d array backed by a mutable slice.
pub type Array2dMut<'t, T> = GenericArray2d<&'t mut [T]>;

impl<S: Array2dStorage> GenericArray2d<S> {
    /// The points the array covers.
    pub closed spec fn bounds(&self) -> Boundary {
        self.boundary
    }

    /// Slots of the storage per row.
    pub closed spec fn stride(&self) -> int {
        self.pitch as int
    }

    /// The items of the storage.
    pub closed spec fn buffer(&self) -> Seq<S::Item> {
        self.data.items()
    }

    /// The slot of the storage that holds point `(x, y)`.
    pub open spec fn slot(&self, x: int, y: int) -> int {
        (y - self.bounds().min.y) * self.stride() + (x - self.bounds().min.x)
    }

    /// The value at point `(x, y)`; meaningful for points of `bounds()`.
    pub open spec fn at(&self, x: int, y: int) -> S::Item {
        self.buffer()[self.slot(x, y)]
    }

    /// The boundary does not wrap, rows do not overlap, and the storage holds every row.
    pub open spec fn wf(&self) -> bool {
        let b = self.bounds();
        &&& b.wf()
        &&& self.stride() >= b.dimension.x
        &&& self.buffer().len() <= usize::MAX
        &&& (b.is_empty_spec() || (b.dimension.y - 1) * self.stride() + b.dimension.x
            <= self.buffer().len())
    }

    /// Every point of the array lies at a slot of the storage.
    pub proof fn lemma_slot(&self, x: int, y: int)
        requires
            self.wf(),
            self.bounds().has(x, y),
        ensures
            0 <= self.slot(x, y) < self.buffer().len(),
            (y - self.bounds().min.y) * self.stride() <= self.slot(x, y),
    {
        let b = self.bounds();
        let dy = y - b.min.y;
        let h = b.dimension.y as int;
        let p = self.stride();
        assert(dy * p <= (h - 1) * p && dy * p >= 0) by (nonlinear_arith)
            requires
                0 <= dy <= h - 1,
                p >= 0,
        ;
    }
}

/// Two arrays cover the same points and hold the same value at each.
pub open spec fn same_cells<A: Array2dStorage, B: Array2dStorage<Item = A::Item>>(
    a: &GenericArray2d<A>,
    b: &GenericArray2d<B>,
) -> bool {
    &&& a.bounds() == b.bounds()
    &&& forall|x: int, y: int| a.bounds().has(x, y) ==> #[trigger] a.at(x, y) == b.at(x, y)
}

} // verus!

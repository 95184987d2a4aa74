//! Properties that relate several operations of the library.

use vstd::prelude::*;

use crate::boundary::{intersection_of, Boundary};
use crate::data::{persists, Array2dData};
use crate::resize::resized;
use crate::storage::Array2dStorage;
use crate::zip::cell;
use crate::{same_cells, Array2d, GenericArray2d};

verus! {

/// A boundary that does not wrap intersects itself in itself.
pub proof fn lemma_intersection_self(b: Boundary)
    requires
        b.wf(),
    ensures
        intersection_of(b, b) == Some(b),
{
}

/// A non-empty boundary has no intersection with the empty boundary at the origin,
/// unless the origin lies within it or on its edge on both axes: then the intersection
/// is that empty boundary.
pub proof fn lemma_intersection_empty(b: Boundary)
    requires
        b.wf(),
        !b.is_empty_spec(),
    ensures
        !(b.min.x <= 0 <= b.min.x + b.dimension.x && b.min.y <= 0 <= b.min.y + b.dimension.y)
            ==> intersection_of(b, Boundary::empty_spec()) is None,
        (b.min.x <= 0 <= b.min.x + b.dimension.x && b.min.y <= 0 <= b.min.y + b.dimension.y)
            ==> intersection_of(b, Boundary::empty_spec()) == Some(Boundary::empty_spec()),
{
}

/// After `set` stores `v` at a point of the array, `get` at that point yields `v`.
pub proof fn lemma_set_then_get<S: Array2dStorage>(
    before: GenericArray2d<S>,
    after: GenericArray2d<S>,
    x: int,
    y: int,
    v: S::Item,
)
    requires
        before.wf(),
        before.bounds().has(x, y),
        after.bounds() == before.bounds(),
        after.stride() == before.stride(),
        after.buffer() == before.buffer().update(before.slot(x, y), v),
    ensures
        after.wf(),
        after.at(x, y) == v,
{
    before.lemma_slot(x, y);
}

/// Resizing to a boundary twice leaves the storage as the first resize left it: the
/// second moves nothing.
pub proof fn lemma_resize_twice<S: Array2dStorage>(
    a0: GenericArray2d<S>,
    a1: GenericArray2d<S>,
    a2: GenericArray2d<S>,
    boundary: Boundary,
) where S::Item: Default
    requires
        resized(a0, a1, boundary),
        resized(a1, a2, boundary),
    ensures
        a2.bounds() == a1.bounds(),
        a2.stride() == a1.stride(),
        a2.buffer() == a1.buffer(),
        same_cells(&a1, &a2),
{
}

/// Persisting an array and reading it back succeeds and gives the same boundary with
/// a clone of each value.
pub proof fn lemma_round_trip<S: Array2dStorage>(
    a: &GenericArray2d<S>,
    d: &Array2dData<S::Item>,
    b: &Array2d<S::Item>,
) where S::Item: Clone
    requires
        a.wf(),
        persists(a, d),
        b.wf(),
        b.bounds() == d.boundary_spec(),
        forall|c: int, r: int|
            #![trigger cell(b, c, r)]
            0 <= c < b.bounds().dimension.x && 0 <= r < b.bounds().dimension.y ==> cell(b, c, r)
                == d.data@[r * b.bounds().dimension.x + c],
    ensures
        d.error_spec() is None,
        b.bounds() == a.bounds(),
        forall|x: int, y: int| #![trigger b.at(x, y)] a.bounds().has(x, y) ==> cloned(a.at(x, y), b.at(x, y)),
{
    assert forall|x: int, y: int| #![trigger b.at(x, y)] a.bounds().has(x, y) implies cloned(a.at(x, y), b.at(x, y)) by {
        let c = x - a.bounds().min.x;
        let r = y - a.bounds().min.y;
        assert(cell(b, c, r) == d.data@[r * b.bounds().dimension.x + c]);
    }
}

} // verus!

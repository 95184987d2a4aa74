//! The plain persisted form of an array: its origin, its dimension and its values
//! row by row.

use vstd::prelude::*;

use crate::boundary::Boundary;
use crate::storage::Array2dStorage;
use crate::util::{lemma_mul_le, lemma_row_before, Vector2};
use crate::zip::cell;
use crate::{Array2d, GenericArray2d};

verus! {

/// An array as plain values: `data` holds the values row by row.
pub struct Array2dData<T> {
    pub min: [i32; 2],
    pub dimension: [u32; 2],
    pub data: Vec<T>,
}

/// Why an [`Array2dData`] does not describe an array.
#[derive(Clone, Copy, Debug, PartialEq, Eq, Structural)]
pub enum DataError {
    /// `data` holds fewer values than the dimension asks for.
    NotEnoughItems,
    /// The boundary reaches past the largest coordinate.
    OutOfRange,
}

impl<T> Array2dData<T> {
    /// The boundary the persisted form describes.
    pub open spec fn boundary_spec(&self) -> Boundary {
        Boundary {
            min: Vector2 { x: self.min@[0], y: self.min@[1] },
            dimension: Vector2 { x: self.dimension@[0], y: self.dimension@[1] },
        }
    }

    /// The error that reading the persisted form gives, if any.
    pub open spec fn error_spec(&self) -> Option<DataError> {
        if !self.boundary_spec().wf() {
            Some(DataError::OutOfRange)
        } else if self.data@.len() < self.boundary_spec().area() {
            Some(DataError::NotEnoughItems)
        } else {
            None
        }
    }
}

/// `d` is the persisted form of `a`, with values cloned.
pub open spec fn persists<S: Array2dStorage>(a: &GenericArray2d<S>, d: &Array2dData<S::Item>) -> bool where S::Item: Clone {
    &&& d.boundary_spec() == a.bounds()
    &&& d.data@.len() == a.bounds().area()
    &&& forall|c: int, r: int|
        #![trigger d.data@[r * a.bounds().dimension.x + c]]
        0 <= c < a.bounds().dimension.x && 0 <= r < a.bounds().dimension.y ==> cloned(
            cell(a, c, r),
            d.data@[r * a.bounds().dimension.x + c],
        )
}

impl<S: Array2dStorage> GenericArray2d<S> {
    /// The persisted form of the array.
    pub fn to_data(&self) -> (r: Array2dData<S::Item>) where S::Item: Clone
        requires
            self.wf(),
        ensures
            persists(self, &r),
    {
        let w = self.width();
        let h = self.height();
        let mut out: Vec<S::Item> = Vec::new();
        let mut rr: usize = 0;
        while rr < h
            invariant
                self.wf(),
                w == self.bounds().dimension.x,
                h == self.bounds().dimension.y,
                rr <= h,
                out@.len() == rr * w,
                forall|j: int, c: int|
                    #![trigger out@[j * w + c]]
                    0 <= j < rr && 0 <= c < w ==> cloned(cell(self, c, j), out@[j * w + c]),
            decreases h - rr,
        {
            let mut c: usize = 0;
            while c < w
                invariant
                    self.wf(),
                    w == self.bounds().dimension.x,
                    h == self.bounds().dimension.y,
                    rr < h,
                    c <= w,
                    out@.len() == rr * w + c,
                    forall|j: int, cc: int|
                        #![trigger out@[j * w + cc]]
                        0 <= j < rr && 0 <= cc < w ==> cloned(cell(self, cc, j), out@[j * w + cc]),
                    forall|cc: int|
                        #![trigger out@[rr * w + cc]]
                        0 <= cc < c ==> cloned(cell(self, cc, rr as int), out@[rr * w + cc]),
                decreases w - c,
            {
                proof {
                    self.lemma_slot(self.bounds().min.x + c, self.bounds().min.y + rr);
                    lemma_mul_le(rr as int, self.bounds().dimension.y - 1, self.stride());
                    assert forall|j: int, cc: int| 0 <= j < rr && 0 <= cc < w implies #[trigger] (j * w + cc) < rr * w by {
                        lemma_row_before(j, cc, rr as int, w as int);
                    }
                }
                let k = rr * self.pitch + c;
                let v = self.data.slice()[k].clone();
                out.push(v);
                c += 1;
            }
            proof {
                assert((rr + 1) * w == rr * w + w) by (nonlinear_arith);
            }
            rr += 1;
        }
        proof {
            assert(rr * w == self.bounds().area()) by (nonlinear_arith)
                requires rr == self.bounds().dimension.y, w == self.bounds().dimension.x;
        }
        Array2dData {
            min: [self.boundary.min.x, self.boundary.min.y],
            dimension: [self.boundary.dimension.x, self.boundary.dimension.y],
            data: out,
        }
    }
}

impl<T> Array2d<T> {
    /// Reads the persisted form back, rejecting a boundary that reaches past the
    /// largest coordinate and data with fewer values than the dimension asks for.
    pub fn from_data(d: Array2dData<T>) -> (r: Result<Array2d<T>, DataError>)
        ensures
            d.error_spec() is Some <==> r is Err,
            r is Err ==> r->Err_0 == d.error_spec()->0,
            r is Ok ==> {
                let a = r->Ok_0;
                &&& a.wf()
                &&& a.bounds() == d.boundary_spec()
                &&& forall|c: int, rr: int|
                    #![trigger cell(&a, c, rr)]
                    0 <= c < a.bounds().dimension.x && 0 <= rr < a.bounds().dimension.y ==> cell(&a, c, rr)
                        == d.data@[rr * a.bounds().dimension.x + c]
            },
    {
        let boundary = Boundary {
            min: Vector2 { x: d.min[0], y: d.min[1] },
            dimension: Vector2 { x: d.dimension[0], y: d.dimension[1] },
        };
        if boundary.min.x as i64 + boundary.dimension.x as i64 > i32::MAX as i64
            || boundary.min.y as i64 + boundary.dimension.y as i64 > i32::MAX as i64 {
            return Err(DataError::OutOfRange);
        }
        let n = d.data.len();
        proof {
            assert(boundary.dimension.x * boundary.dimension.y <= u32::MAX * u32::MAX) by (nonlinear_arith)
                requires boundary.dimension.x <= u32::MAX, boundary.dimension.y <= u32::MAX, boundary.dimension.x >= 0, boundary.dimension.y >= 0;
        }
        if (n as u128) < boundary.dimension.x as u128 * boundary.dimension.y as u128 {
            return Err(DataError::NotEnoughItems);
        }
        let a = Array2d::from_vec(d.data, boundary);
        proof {
            assert forall|c: int, rr: int|
                #![trigger cell(&a, c, rr)]
                0 <= c < a.bounds().dimension.x && 0 <= rr < a.bounds().dimension.y implies cell(&a, c, rr)
                    == d.data@[rr * a.bounds().dimension.x + c] by {
                assert(a.slot(a.bounds().min.x + c, a.bounds().min.y + rr) == rr * a.bounds().dimension.x + c);
            }
        }
        Ok(a)
    }
}

} // verus!

//! Operations on arrays with the same dimension.

use vstd::prelude::*;
use vstd::std_specs::cmp::PartialEqSpec;

use crate::boundary::Boundary;
use crate::storage::{Array2dStorage, Array2dStorageMut};
use crate::util::{lemma_mul_le, Vector2};
use crate::{Array2d, GenericArray2d};

verus! {

/// Unifies `&GenericArray2d` and `&mut GenericArray2d` into the same interface for [`Zip`].
pub trait GenericArray2dRef {
    /// The boundary of the array referred to.
    spec fn region(&self) -> Boundary;

    fn min(&self) -> (r: Vector2<i32>)
        ensures
            r == self.region().min,
    ;

    fn dimension(&self) -> (r: Vector2<u32>)
        ensures
            r == self.region().dimension,
    ;
}

impl<'a, S: Array2dStorage> GenericArray2dRef for &'a GenericArray2d<S> {
    open spec fn region(&self) -> Boundary {
        (**self).bounds()
    }

    fn min(&self) -> (r: Vector2<i32>) {
        (**self).min_point()
    }

    fn dimension(&self) -> (r: Vector2<u32>) {
        (**self).dimension()
    }
}

impl<'a, S: Array2dStorage> GenericArray2dRef for &'a mut GenericArray2d<S> {
    open spec fn region(&self) -> Boundary {
        (**self).bounds()
    }

    fn min(&self) -> (r: Vector2<i32>) {
        (**self).min_point()
    }

    fn dimension(&self) -> (r: Vector2<u32>) {
        (**self).dimension()
    }
}

/// Zipped references of 2d arrays of the same dimension; origin points may differ.
/// The cell in row `r` and column `c` of one array pairs with the same of the other.
pub struct Zip<A: GenericArray2dRef, B: GenericArray2dRef>(pub A, pub B);

impl<A: GenericArray2dRef, B: GenericArray2dRef> Zip<A, B> {
    /// Returns true if the dimensions match, which every operation needs.
    pub fn is_valid(&self) -> (r: bool)
        ensures
            r == (self.0.region().dimension == self.1.region().dimension),
    {
        self.0.dimension() == self.1.dimension()
    }
}

/// The point in row `r` and column `c` of `b`.
pub open spec fn point_of(b: Boundary, c: int, r: int) -> Vector2<i32> {
    Vector2 { x: (b.min.x + c) as i32, y: (b.min.y + r) as i32 }
}

/// The value of `b` in row `r` and column `c`.
pub open spec fn cell<S: Array2dStorage>(b: &GenericArray2d<S>, c: int, r: int) -> S::Item {
    b.at(b.bounds().min.x + c, b.bounds().min.y + r)
}

impl<S: Array2dStorage> GenericArray2d<S> {
    /// Combine with another array of the same dimension.
    pub fn zip<'a, 'b, U: Array2dStorage>(&'a self, rhs: &'b GenericArray2d<U>) -> (r: Zip<
        &'a GenericArray2d<S>,
        &'b GenericArray2d<U>,
    >)
        ensures
            *r.0 == *self,
            *r.1 == *rhs,
    {
        Zip(self, rhs)
    }
}

impl<S: Array2dStorageMut> GenericArray2d<S> {
    /// Combine with another array of the same dimension, to change this one.
    pub fn zip_mut<'a, 'b, U: Array2dStorage>(&'a mut self, rhs: &'b GenericArray2d<U>) -> (r: Zip<
        &'a mut GenericArray2d<S>,
        &'b GenericArray2d<U>,
    >)
        ensures
            *r.0 == *old(self),
            *final(self) == *final(r.0),
            *r.1 == *rhs,
    {
        Zip(self, rhs)
    }
}

impl<'a, 'b, S: Array2dStorage, U: Array2dStorage> Zip<&'a GenericArray2d<S>, &'b GenericArray2d<U>> {
    /// Create a new array by combining the two cell by cell, at the position of the first.
    pub fn map<V, F: Fn(&S::Item, &U::Item) -> V>(&self, f: F) -> (r: Array2d<V>)
        requires
            self.0.wf(),
            self.1.wf(),
            self.0.bounds().dimension == self.1.bounds().dimension,
            self.0.bounds().area() <= usize::MAX,
            forall|a: &S::Item, b: &U::Item| #[trigger] f.requires((a, b)),
        ensures
            r.wf(),
            r.bounds() == self.0.bounds(),
            forall|c: int, rr: int|
                #![trigger cell(&r, c, rr)]
                0 <= c < r.bounds().dimension.x && 0 <= rr < r.bounds().dimension.y ==> f.ensures(
                    (&cell(self.0, c, rr), &cell(self.1, c, rr)),
                    cell(&r, c, rr),
                ),
    {
        let a = self.0;
        let b = self.1;
        let w = a.width();
        let h = a.height();
        let ghost n = a.bounds().area();
        let mut out: Vec<V> = Vec::new();
        let mut rr: usize = 0;
        while rr < h
            invariant
                a.wf(),
                b.wf(),
                a.bounds().dimension == b.bounds().dimension,
                w == a.bounds().dimension.x,
                h == a.bounds().dimension.y,
                rr <= h,
                out@.len() == rr * w,
                forall|x: &S::Item, y: &U::Item| #[trigger] f.requires((x, y)),
                forall|j: int, c: int|
                    0 <= j < rr && 0 <= c < w ==> f.ensures(
                        (&cell(a, c, j), &cell(b, c, j)),
                        #[trigger] out@[j * w + c],
                    ),
            decreases h - rr,
        {
            let mut c: usize = 0;
            while c < w
                invariant
                    a.wf(),
                    b.wf(),
                    a.bounds().dimension == b.bounds().dimension,
                    w == a.bounds().dimension.x,
                    h == a.bounds().dimension.y,
                    rr < h,
                    c <= w,
                    out@.len() == rr * w + c,
                    forall|x: &S::Item, y: &U::Item| #[trigger] f.requires((x, y)),
                    forall|j: int, cc: int|
                        0 <= j < rr && 0 <= cc < w ==> f.ensures(
                            (&cell(a, cc, j), &cell(b, cc, j)),
                            #[trigger] out@[j * w + cc],
                        ),
                    forall|cc: int|
                        0 <= cc < c ==> f.ensures(
                            (&cell(a, cc, rr as int), &cell(b, cc, rr as int)),
                            #[trigger] out@[rr * w + cc],
                        ),
                decreases w - c,
            {
                let ghost px = a.bounds().min.x + c;
                let ghost py = a.bounds().min.y + rr;
                proof {
                    a.lemma_slot(px, py);
                    b.lemma_slot(b.bounds().min.x + c, b.bounds().min.y + rr);
                    assert forall|j: int, cc: int| 0 <= j < rr && 0 <= cc < w implies #[trigger] (j * w + cc) < rr * w by {
                        crate::util::lemma_row_before(j, cc, rr as int, w as int);
                    }
                    lemma_mul_le(rr as int, a.bounds().dimension.y - 1, a.stride());
                    lemma_mul_le(rr as int, b.bounds().dimension.y - 1, b.stride());
                }
                let ka = rr * a.pitch + c;
                let kb = rr * b.pitch + c;
                let v = f(&a.data.slice()[ka], &b.data.slice()[kb]);
                out.push(v);
                c += 1;
            }
            proof {
                assert((rr + 1) * w == rr * w + w) by (nonlinear_arith);
            }
            rr += 1;
        }
        let boundary = a.boundary;
        proof {
            assert(rr * w == n) by (nonlinear_arith) requires rr == h, n == w * h;
        }
        let r = Array2d::from_vec(out, boundary);
        proof {
            assert forall|c: int, j: int|
                #![trigger cell(&r, c, j)]
                0 <= c < r.bounds().dimension.x && 0 <= j < r.bounds().dimension.y implies f.ensures(
                    (&cell(a, c, j), &cell(b, c, j)),
                    cell(&r, c, j),
                ) by {
                assert(r.slot(r.bounds().min.x + c, r.bounds().min.y + j) == j * w + c);
            }
        }
        r
    }

    /// Returns whether the dimensions match; the arrays are only read.
    pub fn for_each<F: Fn(&S::Item, &U::Item)>(&self, f: F) -> (r: bool)
        requires
            self.0.wf(),
            self.1.wf(),
            forall|a: &S::Item, b: &U::Item| #[trigger] f.requires((a, b)),
        ensures
            r == (self.0.bounds().dimension == self.1.bounds().dimension),
    {
        let a = self.0;
        let b = self.1;
        if a.boundary.dimension != b.boundary.dimension {
            return false;
        }
        let w = a.width();
        let h = a.height();
        let mut rr: usize = 0;
        while rr < h
            invariant
                a.wf(),
                b.wf(),
                a.bounds().dimension == b.bounds().dimension,
                w == a.bounds().dimension.x,
                h == a.bounds().dimension.y,
                rr <= h,
                forall|x: &S::Item, y: &U::Item| #[trigger] f.requires((x, y)),
            decreases h - rr,
        {
            let mut c: usize = 0;
            while c < w
                invariant
                    a.wf(),
                    b.wf(),
                    a.bounds().dimension == b.bounds().dimension,
                    w == a.bounds().dimension.x,
                    h == a.bounds().dimension.y,
                    rr < h,
                    c <= w,
                    forall|x: &S::Item, y: &U::Item| #[trigger] f.requires((x, y)),
                decreases w - c,
            {
                proof {
                    a.lemma_slot(a.bounds().min.x + c, a.bounds().min.y + rr);
                    b.lemma_slot(b.bounds().min.x + c, b.bounds().min.y + rr);
                    lemma_mul_le(rr as int, a.bounds().dimension.y - 1, a.stride());
                    lemma_mul_le(rr as int, b.bounds().dimension.y - 1, b.stride());
                }
                let ka = rr * a.pitch + c;
                let kb = rr * b.pitch + c;
                f(&a.data.slice()[ka], &b.data.slice()[kb]);
                c += 1;
            }
            rr += 1;
        }
        true
    }

    /// Returns whether the dimensions match; calls `f` with each pair of points and
    /// cells, the arrays are only read.
    pub fn for_each_indexed<F: Fn(Vector2<i32>, &S::Item, Vector2<i32>, &U::Item)>(&self, f: F) -> (r: bool)
        requires
            self.0.wf(),
            self.1.wf(),
            forall|p: Vector2<i32>, a: &S::Item, q: Vector2<i32>, b: &U::Item| #[trigger] f.requires((p, a, q, b)),
        ensures
            r == (self.0.bounds().dimension == self.1.bounds().dimension),
    {
        let a = self.0;
        let b = self.1;
        if a.boundary.dimension != b.boundary.dimension {
            return false;
        }
        let w = a.width();
        let h = a.height();
        let mut rr: usize = 0;
        while rr < h
            invariant
                a.wf(),
                b.wf(),
                a.bounds().dimension == b.bounds().dimension,
                w == a.bounds().dimension.x,
                h == a.bounds().dimension.y,
                rr <= h,
                forall|p: Vector2<i32>, x: &S::Item, q: Vector2<i32>, y: &U::Item| #[trigger] f.requires((p, x, q, y)),
            decreases h - rr,
        {
            let mut c: usize = 0;
            while c < w
                invariant
                    a.wf(),
                    b.wf(),
                    a.bounds().dimension == b.bounds().dimension,
                    w == a.bounds().dimension.x,
                    h == a.bounds().dimension.y,
                    rr < h,
                    c <= w,
                    forall|p: Vector2<i32>, x: &S::Item, q: Vector2<i32>, y: &U::Item| #[trigger] f.requires((p, x, q, y)),
                decreases w - c,
            {
                proof {
                    a.lemma_slot(a.bounds().min.x + c, a.bounds().min.y + rr);
                    b.lemma_slot(b.bounds().min.x + c, b.bounds().min.y + rr);
                    lemma_mul_le(rr as int, a.bounds().dimension.y - 1, a.stride());
                    lemma_mul_le(rr as int, b.bounds().dimension.y - 1, b.stride());
                }
                let pa = Vector2 {
                    x: (a.boundary.min.x as i64 + c as i64) as i32,
                    y: (a.boundary.min.y as i64 + rr as i64) as i32,
                };
                let pb = Vector2 {
                    x: (b.boundary.min.x as i64 + c as i64) as i32,
                    y: (b.boundary.min.y as i64 + rr as i64) as i32,
                };
                let ka = rr * a.pitch + c;
                let kb = rr * b.pitch + c;
                f(pa, &a.data.slice()[ka], pb, &b.data.slice()[kb]);
                c += 1;
            }
            rr += 1;
        }
        true
    }
}

impl<S: Array2dStorageMut> GenericArray2d<S> {
    /// Replaces each cell with `f(cell, cell of other in the same row and column)`.
    fn combine_cells<U: Array2dStorage, F: Fn(Vector2<i32>, &S::Item, Vector2<i32>, &U::Item) -> S::Item>(
        &mut self,
        other: &GenericArray2d<U>,
        f: F,
    )
        requires
            old(self).wf(),
            other.wf(),
            old(self).bounds().dimension == other.bounds().dimension,
            forall|p: Vector2<i32>, a: &S::Item, q: Vector2<i32>, b: &U::Item| #[trigger] f.requires((p, a, q, b)),
        ensures
            final(self).wf(),
            final(self).bounds() == old(self).bounds(),
            final(self).stride() == old(self).stride(),
            forall|c: int, rr: int|
                #![trigger cell(final(self), c, rr)]
                0 <= c < old(self).bounds().dimension.x && 0 <= rr < old(self).bounds().dimension.y
                    ==> f.ensures((point_of(old(self).bounds(), c, rr), &cell(old(self), c, rr), point_of(other.bounds(), c, rr), &cell(other, c, rr)), cell(final(self), c, rr)),
    {
        let ghost o = *old(self);
        let w = self.width();
        let h = self.height();
        let mut rr: usize = 0;
        while rr < h
            invariant
                self.wf(),
                other.wf(),
                o.wf(),
                self.bounds() == o.bounds(),
                self.stride() == o.stride(),
                self.buffer().len() == o.buffer().len(),
                o.bounds().dimension == other.bounds().dimension,
                w == o.bounds().dimension.x,
                h == o.bounds().dimension.y,
                rr <= h,
                forall|p: Vector2<i32>, x: &S::Item, q: Vector2<i32>, y: &U::Item| #[trigger] f.requires((p, x, q, y)),
                forall|c: int, j: int|
                    #![trigger cell(&*self, c, j)]
                    0 <= c < w && 0 <= j < h ==> if j < rr {
                        f.ensures((point_of(o.bounds(), c, j), &cell(&o, c, j), point_of(other.bounds(), c, j), &cell(other, c, j)), cell(&*self, c, j))
                    } else {
                        cell(&*self, c, j) == cell(&o, c, j)
                    },
            decreases h - rr,
        {
            let mut c: usize = 0;
            while c < w
                invariant
                    self.wf(),
                    other.wf(),
                    o.wf(),
                    self.bounds() == o.bounds(),
                    self.stride() == o.stride(),
                    self.buffer().len() == o.buffer().len(),
                    o.bounds().dimension == other.bounds().dimension,
                    w == o.bounds().dimension.x,
                    h == o.bounds().dimension.y,
                    rr < h,
                    c <= w,
                    forall|p: Vector2<i32>, x: &S::Item, q: Vector2<i32>, y: &U::Item| #[trigger] f.requires((p, x, q, y)),
                    forall|cc: int, j: int|
                        #![trigger cell(&*self, cc, j)]
                        0 <= cc < w && 0 <= j < h ==> if j < rr || (j == rr && cc < c) {
                            f.ensures((point_of(o.bounds(), cc, j), &cell(&o, cc, j), point_of(other.bounds(), cc, j), &cell(other, cc, j)), cell(&*self, cc, j))
                        } else {
                            cell(&*self, cc, j) == cell(&o, cc, j)
                        },
                decreases w - c,
            {
                let ghost px = o.bounds().min.x + c;
                let ghost py = o.bounds().min.y + rr;
                proof {
                    self.lemma_slot(px, py);
                    other.lemma_slot(other.bounds().min.x + c, other.bounds().min.y + rr);
                    lemma_mul_le(rr as int, o.bounds().dimension.y - 1, o.stride());
                    lemma_mul_le(rr as int, other.bounds().dimension.y - 1, other.stride());
                }
                let ka = rr * self.pitch + c;
                let kb = rr * other.pitch + c;
                let ghost before = *self;
                proof {
                    assert(cell(&before, c as int, rr as int) == cell(&o, c as int, rr as int));
                    assert(before.buffer()[ka as int] == cell(&o, c as int, rr as int));
                    assert(other.buffer()[kb as int] == cell(other, c as int, rr as int));
                }
                let pa = Vector2 {
                    x: (self.boundary.min.x as i64 + c as i64) as i32,
                    y: (self.boundary.min.y as i64 + rr as i64) as i32,
                };
                let pb = Vector2 {
                    x: (other.boundary.min.x as i64 + c as i64) as i32,
                    y: (other.boundary.min.y as i64 + rr as i64) as i32,
                };
                let v = f(pa, &self.data.slice()[ka], pb, &other.data.slice()[kb]);
                let s = self.data.slice_mut();
                s[ka] = v;
                proof {
                    assert forall|cc: int, j: int| #![trigger cell(&*self, cc, j)] 0 <= cc < w && 0 <= j < h && (cc != c || j != rr) implies cell(&*self, cc, j) == cell(&before, cc, j) by {
                        let qx = o.bounds().min.x + cc;
                        let qy = o.bounds().min.y + j;
                        before.lemma_slot(qx, qy);
                        if before.slot(qx, qy) == ka {
                            before.lemma_slot_distinct(qx, qy, px, py);
                        }
                    }
                    assert(cell(&*self, c as int, rr as int) == v);
                }
                c += 1;
            }
            rr += 1;
        }
    }
}

impl<'a, 'b, S: Array2dStorageMut, U: Array2dStorage> Zip<&'a mut GenericArray2d<S>, &'b GenericArray2d<U>> {
    /// Replaces each cell of the first array with `f(cell, paired cell)`. Returns false
    /// and changes nothing if the dimensions differ.
    pub fn for_each_mut<F: Fn(&S::Item, &U::Item) -> S::Item>(&mut self, f: F) -> (r: bool)
        requires
            old(self).0.wf(),
            old(self).1.wf(),
            forall|a: &S::Item, b: &U::Item| #[trigger] f.requires((a, b)),
        ensures
            r == (old(self).0.bounds().dimension == old(self).1.bounds().dimension),
            final(self).1 == old(self).1,
            final(self).0.wf(),
            final(self).0.bounds() == old(self).0.bounds(),
            !r ==> *final(self).0 == *old(self).0,
            r ==> forall|c: int, rr: int|
                #![trigger cell(&*final(self).0, c, rr)]
                0 <= c < old(self).0.bounds().dimension.x && 0 <= rr < old(self).0.bounds().dimension.y
                    ==> f.ensures((&cell(&*old(self).0, c, rr), &cell(old(self).1, c, rr)), cell(&*final(self).0, c, rr)),
    {
        if self.0.boundary.dimension != self.1.boundary.dimension {
            return false;
        }
        let other = self.1;
        let fr = &f;
        let g = move |_p: Vector2<i32>, a: &S::Item, _q: Vector2<i32>, b: &U::Item| -> (r: S::Item)
            requires
                fr.requires((a, b)),
            ensures
                fr.ensures((a, b), r),
        {
            fr(a, b)
        };
        self.0.combine_cells(other, g);
        true
    }

    /// Replaces each cell of the first array with `f(point, cell, paired point, paired
    /// cell)`. Returns false and changes nothing if the dimensions differ.
    pub fn for_each_indexed_mut<F: Fn(Vector2<i32>, &S::Item, Vector2<i32>, &U::Item) -> S::Item>(&mut self, f: F) -> (r: bool)
        requires
            old(self).0.wf(),
            old(self).1.wf(),
            forall|p: Vector2<i32>, a: &S::Item, q: Vector2<i32>, b: &U::Item| #[trigger] f.requires((p, a, q, b)),
        ensures
            r == (old(self).0.bounds().dimension == old(self).1.bounds().dimension),
            final(self).1 == old(self).1,
            final(self).0.wf(),
            final(self).0.bounds() == old(self).0.bounds(),
            !r ==> *final(self).0 == *old(self).0,
            r ==> forall|c: int, rr: int|
                #![trigger cell(&*final(self).0, c, rr)]
                0 <= c < old(self).0.bounds().dimension.x && 0 <= rr < old(self).0.bounds().dimension.y
                    ==> f.ensures((point_of(old(self).0.bounds(), c, rr), &cell(&*old(self).0, c, rr), point_of(old(self).1.bounds(), c, rr), &cell(old(self).1, c, rr)), cell(&*final(self).0, c, rr)),
    {
        if self.0.boundary.dimension != self.1.boundary.dimension {
            return false;
        }
        let other = self.1;
        self.0.combine_cells(other, f);
        true
    }

    /// Create a new array by combining the two cell by cell, at the position of the first.
    pub fn map_mut<V, F: Fn(&S::Item, &U::Item) -> V>(&mut self, f: F) -> (r: Array2d<V>)
        requires
            old(self).0.wf(),
            old(self).1.wf(),
            old(self).0.bounds().dimension == old(self).1.bounds().dimension,
            old(self).0.bounds().area() <= usize::MAX,
            forall|a: &S::Item, b: &U::Item| #[trigger] f.requires((a, b)),
        ensures
            *final(self).0 == *old(self).0,
            final(self).1 == old(self).1,
            r.wf(),
            r.bounds() == old(self).0.bounds(),
            forall|c: int, rr: int|
                #![trigger cell(&r, c, rr)]
                0 <= c < r.bounds().dimension.x && 0 <= rr < r.bounds().dimension.y ==> f.ensures(
                    (&cell(&*old(self).0, c, rr), &cell(old(self).1, c, rr)),
                    cell(&r, c, rr),
                ),
    {
        let z = Zip(&*self.0, self.1);
        z.map(f)
    }
}

impl<S: Array2dStorage> GenericArray2d<S> {
    /// Returns true if the dimensions and the values match, row by row; the origin
    /// points are not compared.
    pub fn equivalent<U: Array2dStorage>(&self, other: &GenericArray2d<U>) -> (r: bool) where S::Item: PartialEq<U::Item>
        requires
            self.wf(),
            other.wf(),
        ensures
            <S::Item as PartialEqSpec<U::Item>>::obeys_eq_spec() ==> (r == (self.bounds().dimension == other.bounds().dimension
                && forall|c: int, rr: int|
                    #![trigger cell(self, c, rr)]
                    0 <= c < self.bounds().dimension.x && 0 <= rr < self.bounds().dimension.y ==> cell(self, c, rr).eq_spec(&cell(other, c, rr)))),
    {
        if self.boundary.dimension != other.boundary.dimension {
            return false;
        }
        let w = self.width();
        let h = self.height();
        let mut rr: usize = 0;
        while rr < h
            invariant
                self.wf(),
                other.wf(),
                self.bounds().dimension == other.bounds().dimension,
                w == self.bounds().dimension.x,
                h == self.bounds().dimension.y,
                rr <= h,
                <S::Item as PartialEqSpec<U::Item>>::obeys_eq_spec() ==> forall|c: int, j: int|
                    #![trigger cell(self, c, j)]
                    0 <= c < w && 0 <= j < rr ==> cell(self, c, j).eq_spec(&cell(other, c, j)),
            decreases h - rr,
        {
            let mut c: usize = 0;
            while c < w
                invariant
                    self.wf(),
                    other.wf(),
                    self.bounds().dimension == other.bounds().dimension,
                    w == self.bounds().dimension.x,
                    h == self.bounds().dimension.y,
                    rr < h,
                    c <= w,
                    <S::Item as PartialEqSpec<U::Item>>::obeys_eq_spec() ==> forall|cc: int, j: int|
                        #![trigger cell(self, cc, j)]
                        0 <= cc < w && 0 <= j < h && (j < rr || (j == rr && cc < c)) ==> cell(self, cc, j).eq_spec(&cell(other, cc, j)),
                decreases w - c,
            {
                proof {
                    self.lemma_slot(self.bounds().min.x + c, self.bounds().min.y + rr);
                    other.lemma_slot(other.bounds().min.x + c, other.bounds().min.y + rr);
                    lemma_mul_le(rr as int, self.bounds().dimension.y - 1, self.stride());
                    lemma_mul_le(rr as int, other.bounds().dimension.y - 1, other.stride());
                }
                let ka = rr * self.pitch + c;
                let kb = rr * other.pitch + c;
                proof {
                    assert(self.buffer()[ka as int] == cell(self, c as int, rr as int));
                    assert(other.buffer()[kb as int] == cell(other, c as int, rr as int));
                }
                if !(self.data.slice()[ka] == other.data.slice()[kb]) {
                    return false;
                }
                c += 1;
            }
            rr += 1;
        }
        true
    }
}

} // verus!

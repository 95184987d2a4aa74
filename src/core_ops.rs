//! Access, construction and composition of 2d arrays.

use vstd::prelude::*;

use crate::boundary::{intersection_of, lemma_intersection, Boundary, IntoBoundary};
use crate::storage::{Array2dStorage, Array2dStorageMut, Array2dStorageOwned};
use crate::util::{self, fits_i32, is_default, lemma_mul_le, lemma_slot_unique, Vector2};
use crate::{Array2d, Array2dRef, GenericArray2d};

verus! {

impl<S: Array2dStorage> GenericArray2d<S> {
    /// Returns true if contains no items.
    pub fn is_empty(&self) -> (r: bool)
        ensures
            r == self.bounds().is_empty_spec(),
    {
        self.boundary.is_empty()
    }

    /// Returns the number of items in the array.
    pub fn len(&self) -> (r: usize)
        requires
            self.bounds().area() <= usize::MAX,
        ensures
            r == self.bounds().area(),
    {
        self.boundary.len()
    }

    /// Returns the width of the array.
    pub fn width(&self) -> (r: usize)
        ensures
            r == self.bounds().dimension.x,
    {
        self.boundary.dimension.x as usize
    }

    /// Returns the height of the array.
    pub fn height(&self) -> (r: usize)
        ensures
            r == self.bounds().dimension.y,
    {
        self.boundary.dimension.y as usize
    }

    /// Returns the numerically smallest coordinate in the array.
    pub fn min_point(&self) -> (r: Vector2<i32>)
        ensures
            r == self.bounds().min,
    {
        self.boundary.min
    }

    /// Returns the numerically largest coordinate in the array, `min_point + dimension - [1, 1]`.
    pub fn max_point(&self) -> (r: Vector2<i32>)
        requires
            self.wf(),
            self.bounds().min.x + self.bounds().dimension.x > i32::MIN,
            self.bounds().min.y + self.bounds().dimension.y > i32::MIN,
        ensures
            r.x == self.bounds().min.x + self.bounds().dimension.x - 1,
            r.y == self.bounds().min.y + self.bounds().dimension.y - 1,
    {
        self.boundary.max()
    }

    /// Returns the dimension of the array.
    pub fn dimension(&self) -> (r: Vector2<u32>)
        ensures
            r == self.bounds().dimension,
    {
        self.boundary.dimension
    }

    /// Returns the boundary of the array.
    pub fn boundary(&self) -> (r: Boundary)
        ensures
            r == self.bounds(),
    {
        self.boundary
    }

    /// Returns true if a point is in boundary.
    pub fn contains(&self, position: Vector2<i32>) -> (r: bool)
        requires
            self.wf(),
        ensures
            r == self.bounds().has(position.x as int, position.y as int),
    {
        self.boundary.contains(position)
    }

    /// The value at a point, `None` outside the boundary.
    pub fn get(&self, point: Vector2<i32>) -> (r: Option<&S::Item>)
        requires
            self.wf(),
        ensures
            self.bounds().has(point.x as int, point.y as int) ==> r == Some(
                &self.at(point.x as int, point.y as int),
            ),
            !self.bounds().has(point.x as int, point.y as int) ==> r.is_none(),
    {
        if !self.boundary.contains(point) {
            return None;
        }
        proof {
            self.lemma_slot(point.x as int, point.y as int);
        }
        let i = util::offset_of(point, self.boundary.min, self.pitch);
        Some(&self.data.slice()[i])
    }

    /// The value at a point, cloned, or the default value outside the boundary.
    pub fn fetch(&self, point: Vector2<i32>) -> (r: S::Item) where S::Item: Clone + Default
        requires
            self.wf(),
        ensures
            self.bounds().has(point.x as int, point.y as int) ==> cloned(
                self.at(point.x as int, point.y as int),
                r,
            ),
            !self.bounds().has(point.x as int, point.y as int) ==> is_default(r),
    {
        match self.get(point) {
            Some(v) => v.clone(),
            None => S::Item::default(),
        }
    }

    /// Move the origin point of the array without affecting underlying data.
    pub fn displace(&mut self, by: Vector2<i32>)
        requires
            old(self).wf(),
            fits_i32(old(self).bounds().min.x + by.x + old(self).bounds().dimension.x),
            fits_i32(old(self).bounds().min.y + by.y + old(self).bounds().dimension.y),
            fits_i32(old(self).bounds().min.x + by.x),
            fits_i32(old(self).bounds().min.y + by.y),
        ensures
            final(self).wf(),
            final(self).bounds().min.x == old(self).bounds().min.x + by.x,
            final(self).bounds().min.y == old(self).bounds().min.y + by.y,
            final(self).bounds().dimension == old(self).bounds().dimension,
            forall|x: int, y: int|
                #![trigger old(self).at(x, y)]
                old(self).bounds().has(x, y) ==> final(self).at(x + by.x, y + by.y) == old(self).at(x, y),
    {
        self.boundary.min = util::add(self.boundary.min, by);
        assert forall|x: int, y: int| old(self).bounds().has(x, y) implies self.slot(x + by.x, y + by.y) == old(self).slot(x, y) by {}
    }

    /// Move the origin point of the array without affecting underlying data.
    pub fn displaced(self, by: Vector2<i32>) -> (r: Self)
        requires
            self.wf(),
            fits_i32(self.bounds().min.x + by.x + self.bounds().dimension.x),
            fits_i32(self.bounds().min.y + by.y + self.bounds().dimension.y),
            fits_i32(self.bounds().min.x + by.x),
            fits_i32(self.bounds().min.y + by.y),
        ensures
            r.wf(),
            r.bounds().min.x == self.bounds().min.x + by.x,
            r.bounds().min.y == self.bounds().min.y + by.y,
            r.bounds().dimension == self.bounds().dimension,
            forall|x: int, y: int|
                #![trigger self.at(x, y)]
                self.bounds().has(x, y) ==> r.at(x + by.x, y + by.y) == self.at(x, y),
    {
        let mut s = self;
        s.displace(by);
        s
    }
}

impl<S: Array2dStorageMut> GenericArray2d<S> {
    /// A mutable reference to the value at a point, `None` outside the boundary.
    pub fn get_mut(&mut self, point: Vector2<i32>) -> (r: Option<&mut S::Item>)
        requires
            old(self).wf(),
        ensures
            old(self).bounds().has(point.x as int, point.y as int) <==> r is Some,
            r is None ==> *final(self) == *old(self),
            r is Some ==> {
                &&& *r->0 == old(self).at(point.x as int, point.y as int)
                &&& final(self).bounds() == old(self).bounds()
                &&& final(self).stride() == old(self).stride()
                &&& final(self).buffer() == old(self).buffer().update(
                    old(self).slot(point.x as int, point.y as int),
                    *final(r->0),
                )
            },
    {
        if !self.boundary.contains(point) {
            return None;
        }
        proof {
            self.lemma_slot(point.x as int, point.y as int);
        }
        let i = util::offset_of(point, self.boundary.min, self.pitch);
        let s = self.data.slice_mut();
        Some(&mut s[i])
    }

    /// Try set a position to a value, returns `true` where the point is in the boundary.
    pub fn set(&mut self, point: Vector2<i32>, value: S::Item) -> (r: bool)
        requires
            old(self).wf(),
        ensures
            r == old(self).bounds().has(point.x as int, point.y as int),
            final(self).wf(),
            final(self).bounds() == old(self).bounds(),
            final(self).stride() == old(self).stride(),
            r ==> final(self).buffer() == old(self).buffer().update(
                old(self).slot(point.x as int, point.y as int),
                value,
            ),
            !r ==> final(self).buffer() == old(self).buffer(),
    {
        if !self.boundary.contains(point) {
            return false;
        }
        proof {
            self.lemma_slot(point.x as int, point.y as int);
        }
        let i = util::offset_of(point, self.boundary.min, self.pitch);
        let s = self.data.slice_mut();
        s[i] = value;
        true
    }
}

impl<S: Array2dStorageOwned> GenericArray2d<S> {
    /// Proof that a dense layout of `boundary` fits in `n` slots.
    proof fn lemma_dense(boundary: Boundary, n: int)
        requires
            boundary.area() <= n,
        ensures
            boundary.is_empty_spec() || (boundary.dimension.y - 1) * boundary.dimension.x
                + boundary.dimension.x <= n,
    {
        assert((boundary.dimension.y - 1) * boundary.dimension.x + boundary.dimension.x
            == boundary.dimension.x * boundary.dimension.y) by (nonlinear_arith);
    }

    /// Create an array from a row major `Vec` as the underlying storage.
    pub fn from_vec(vec: Vec<S::Item>, boundary: Boundary) -> (r: Self)
        requires
            boundary.wf(),
            vec@.len() >= boundary.area(),
        ensures
            r.wf(),
            r.bounds() == boundary,
            r.stride() == boundary.dimension.x,
            r.buffer() == vec@,
            forall|x: int, y: int|
                #![trigger r.at(x, y)]
                boundary.has(x, y) ==> r.at(x, y) == vec@[(y - boundary.min.y) * boundary.dimension.x
                    + (x - boundary.min.x)],
    {
        let n = vec.len();
        proof {
            Self::lemma_dense(boundary, n as int);
        }
        GenericArray2d { data: S::from_vec(vec), boundary, pitch: boundary.pitch() }
    }

    /// Create an array holding the default value at every point.
    pub fn new(boundary: Boundary) -> (r: Self) where S::Item: Default
        requires
            boundary.wf(),
            boundary.area() <= usize::MAX,
        ensures
            r.wf(),
            r.bounds() == boundary,
            forall|x: int, y: int| #![trigger r.at(x, y)] boundary.has(x, y) ==> is_default(r.at(x, y)),
    {
        let len = boundary.len();
        let mut vec: Vec<S::Item> = Vec::new();
        while vec.len() < len
            invariant
                vec@.len() <= len,
                forall|k: int| 0 <= k < vec@.len() ==> is_default(#[trigger] vec@[k]),
            decreases len - vec@.len(),
        {
            vec.push(<S::Item as Default>::default());
        }
        let r = Self::from_vec(vec, boundary);
        proof {
            assert forall|x: int, y: int| boundary.has(x, y) implies is_default(#[trigger] r.at(x, y)) by {
                r.lemma_slot(x, y);
            }
        }
        r
    }

    /// Create an array filled with a value.
    pub fn new_filled(boundary: Boundary, fill: S::Item) -> (r: Self) where S::Item: Clone
        requires
            boundary.wf(),
            boundary.area() <= usize::MAX,
        ensures
            r.wf(),
            r.bounds() == boundary,
            forall|x: int, y: int| #![trigger r.at(x, y)] boundary.has(x, y) ==> cloned(fill, r.at(x, y)),
    {
        let len = boundary.len();
        let mut vec: Vec<S::Item> = Vec::new();
        while vec.len() < len
            invariant
                vec@.len() <= len,
                forall|k: int| 0 <= k < vec@.len() ==> cloned(fill, #[trigger] vec@[k]),
            decreases len - vec@.len(),
        {
            vec.push(fill.clone());
        }
        let r = Self::from_vec(vec, boundary);
        proof {
            assert forall|x: int, y: int| boundary.has(x, y) implies cloned(fill, #[trigger] r.at(x, y)) by {
                r.lemma_slot(x, y);
            }
        }
        r
    }

    /// Initialize an array with a function of each point.
    pub fn init<F: Fn(Vector2<i32>) -> S::Item>(boundary: Boundary, init: F) -> (r: Self)
        requires
            boundary.wf(),
            boundary.area() <= usize::MAX,
            forall|p: Vector2<i32>| boundary.has(p.x as int, p.y as int) ==> #[trigger] init.requires((p,)),
        ensures
            r.wf(),
            r.bounds() == boundary,
            forall|x: int, y: int|
                #![trigger r.at(x, y)]
                boundary.has(x, y) ==> init.ensures((Vector2 { x: x as i32, y: y as i32 },), r.at(x, y)),
    {
        let points = boundary.iter();
        let len = points.len();
        let mut vec: Vec<S::Item> = Vec::new();
        let mut k: usize = 0;
        proof {
            assert forall|j: int| 0 <= j < len implies boundary.has(#[trigger] points@[j].x as int, points@[j].y as int) by {
                let w = boundary.dimension.x as int;
                let row = j / w;
                let col = j % w;
                assert(j == row * w + col) by (nonlinear_arith) requires w > 0, row == j / w, col == j % w;
                assert(0 <= col < w) by (nonlinear_arith) requires w > 0, col == j % w;
                assert(0 <= row) by (nonlinear_arith) requires w > 0, row == j / w, j >= 0;
                assert(row < boundary.dimension.y) by (nonlinear_arith)
                    requires j == row * w + col, 0 <= col < w, j < w * boundary.dimension.y, w > 0;
                assert(points@[row * w + col] == (Vector2::<i32> { x: (boundary.min.x + col) as i32, y: (boundary.min.y + row) as i32 }));
            }
        }
        while k < len
            invariant
                len == points@.len(),
                k <= len,
                vec@.len() == k,
                forall|p: Vector2<i32>| boundary.has(p.x as int, p.y as int) ==> #[trigger] init.requires((p,)),
                forall|j: int| 0 <= j < len ==> boundary.has(#[trigger] points@[j].x as int, points@[j].y as int),
                forall|j: int| 0 <= j < k ==> init.ensures((points@[j],), #[trigger] vec@[j]),
            decreases len - k,
        {
            let v = init(points[k]);
            vec.push(v);
            k += 1;
        }
        let r = Self::from_vec(vec, boundary);
        proof {
            assert forall|x: int, y: int| boundary.has(x, y) implies init.ensures((Vector2 { x: x as i32, y: y as i32 },), #[trigger] r.at(x, y)) by {
                r.lemma_slot(x, y);
                let j = y - boundary.min.y;
                let i = x - boundary.min.x;
                assert(points@[j * boundary.dimension.x + i] == (Vector2::<i32> { x: (boundary.min.x + i) as i32, y: (boundary.min.y + j) as i32 }));
            }
        }
        r
    }

    /// Returns the underlying buffer, the items of the points row by row.
    pub fn underlying_slice(&self) -> (r: &[S::Item])
        requires
            self.wf(),
            self.stride() == self.bounds().dimension.x,
        ensures
            r@ == self.buffer().subrange(0, self.bounds().area() as int),
    {
        proof {
            assert(self.bounds().area() <= self.buffer().len()) by (nonlinear_arith)
                requires
                    self.bounds().is_empty_spec() || (self.bounds().dimension.y - 1) * self.bounds().dimension.x
                        + self.bounds().dimension.x <= self.buffer().len(),
                    self.bounds().area() == self.bounds().dimension.x * self.bounds().dimension.y,
            ;
        }
        let n = self.boundary.len();
        &self.data.slice()[0..n]
    }
}

impl<T> GenericArray2d<Vec<T>> {
    /// An array with no points at origin `(0, 0)`.
    pub fn empty() -> (r: Self)
        ensures
            r.wf(),
            r.bounds() == Boundary::empty_spec(),
            r.buffer().len() == 0,
    {
        GenericArray2d { data: Vec::new(), boundary: Boundary::empty(), pitch: 0 }
    }

    /// Revert the array to the empty state with origin `(0, 0)`.
    pub fn clear(&mut self)
        ensures
            final(self).wf(),
            final(self).bounds() == Boundary::empty_spec(),
            final(self).buffer().len() == 0,
    {
        *self = Self::empty();
    }
}

impl<'t, T> Default for GenericArray2d<&'t [T]> {
    fn default() -> (r: Self)
        ensures
            r.wf(),
            r.bounds() == Boundary::empty_spec(),
            r.buffer().len() == 0,
    {
        GenericArray2d { data: &[], boundary: Boundary::empty(), pitch: 0 }
    }
}

impl<'a, S: Array2dStorage> IntoBoundary for &'a GenericArray2d<S> {
    open spec fn boundary_of(&self) -> Boundary {
        (**self).bounds()
    }

    fn into_boundary(self) -> (r: Boundary) {
        self.boundary
    }
}

impl<T> Default for GenericArray2d<Vec<T>> {
    fn default() -> (r: Self)
        ensures
            r.wf(),
            r.bounds() == Boundary::empty_spec(),
            r.buffer().len() == 0,
    {
        Self::empty()
    }
}

/// The cells of `region` that also lie in `bounds`, where they overlap.
pub open spec fn overlaps(bounds: Boundary, region: Boundary, x: int, y: int) -> bool {
    match intersection_of(bounds, region) {
        Some(i) => i.has(x, y),
        None => false,
    }
}

impl<S: Array2dStorage> GenericArray2d<S> {
    /// Points of the array name distinct slots.
    pub proof fn lemma_slot_distinct(&self, x1: int, y1: int, x2: int, y2: int)
        requires
            self.wf(),
            self.bounds().has(x1, y1),
            self.bounds().has(x2, y2),
            self.slot(x1, y1) == self.slot(x2, y2),
        ensures
            x1 == x2 && y1 == y2,
    {
        let b = self.bounds();
        lemma_slot_unique(y1 - b.min.y, x1 - b.min.x, y2 - b.min.y, x2 - b.min.x, self.stride());
    }

    /// A view of the part of the array within `input`, and whether that part is all
    /// of `input`. Where nothing overlaps the view is empty.
    pub(crate) fn slice_internal(&self, input: Boundary) -> (r: (bool, Array2dRef<'_, S::Item>))
        requires
            self.wf(),
        ensures
            r.1.wf(),
            r.0 == (intersection_of(self.bounds(), input) == Some(input)),
            intersection_of(self.bounds(), input) is None ==> r.1.bounds() == Boundary::empty_spec(),
            intersection_of(self.bounds(), input) is Some ==> r.1.bounds() == intersection_of(self.bounds(), input)->0,
            forall|x: int, y: int| #![trigger r.1.at(x, y)] r.1.bounds().has(x, y) ==> self.bounds().has(x, y) && r.1.at(x, y) == self.at(x, y),
    {
        proof {
            lemma_intersection(self.bounds(), input);
        }
        let all = self.data.slice();
        let n = all.len();
        match self.boundary.intersection(input) {
            Some(i) => {
                let is_perfect = i == input;
                if i.is_empty() {
                    return (is_perfect, GenericArray2d { data: &all[0..0], boundary: i, pitch: self.pitch });
                }
                proof {
                    self.lemma_slot(i.min.x as int, i.min.y as int);
                }
                let offset = util::offset_of(i.min, self.boundary.min, self.pitch);
                let view = GenericArray2d { data: &all[offset..n], boundary: i, pitch: self.pitch };
                proof {
                    let p = self.stride();
                    let dy = i.min.y - self.bounds().min.y;
                    let dx = i.min.x - self.bounds().min.x;
                    lemma_mul_le(dy + i.dimension.y - 1, self.bounds().dimension.y - 1, p);
                    assert((dy + i.dimension.y - 1) * p == dy * p + (i.dimension.y - 1) * p) by (nonlinear_arith);
                    assert(view.wf());
                    assert forall|x: int, y: int| #![trigger view.at(x, y)] i.has(x, y) implies self.bounds().has(x, y) && view.at(x, y) == self.at(x, y) by {
                        assert((y - self.bounds().min.y) * p == dy * p + (y - i.min.y) * p) by (nonlinear_arith)
                            requires dy == i.min.y - self.bounds().min.y;
                        view.lemma_slot(x, y);
                    }
                }
                (is_perfect, view)
            },
            None => (false, GenericArray2d { data: &all[0..0], boundary: Boundary::empty(), pitch: 0 }),
        }
    }

    /// A view of the part of the array within `boundary`, truncated to the array.
    pub fn slice(&self, boundary: Boundary) -> (r: Array2dRef<'_, S::Item>)
        requires
            self.wf(),
        ensures
            r.wf(),
            intersection_of(self.bounds(), boundary) is None ==> r.bounds() == Boundary::empty_spec(),
            intersection_of(self.bounds(), boundary) is Some ==> r.bounds() == intersection_of(self.bounds(), boundary)->0,
            forall|x: int, y: int| #![trigger r.at(x, y)] r.bounds().has(x, y) ==> self.bounds().has(x, y) && r.at(x, y) == self.at(x, y),
    {
        self.slice_internal(boundary).1
    }

    /// A view of the region `boundary`, `None` unless every point of it is in the array.
    pub fn get_region(&self, boundary: Boundary) -> (r: Option<Array2dRef<'_, S::Item>>)
        requires
            self.wf(),
        ensures
            r is Some <==> intersection_of(self.bounds(), boundary) == Some(boundary),
            r is Some ==> {
                let v = r->0;
                &&& v.wf()
                &&& v.bounds() == boundary
                &&& forall|x: int, y: int| #![trigger v.at(x, y)] boundary.has(x, y) ==> self.bounds().has(x, y) && v.at(x, y) == self.at(x, y)
            },
    {
        let (ok, view) = self.slice_internal(boundary);
        if ok {
            Some(view)
        } else {
            None
        }
    }
}

impl<S: Array2dStorageMut> GenericArray2d<S> {
    /// Modify a region with another array as a "brush": each cell of the array where
    /// the brush, displaced by `at`, overlaps it becomes `paint_fn(cell, brush cell)`.
    /// Every other cell is left as it was.
    pub fn paint<B: Array2dStorage, F: Fn(&S::Item, &B::Item) -> S::Item>(
        &mut self,
        brush: &GenericArray2d<B>,
        at: Vector2<i32>,
        paint_fn: F,
    )
        requires
            old(self).wf(),
            brush.wf(),
            fits_i32(brush.bounds().min.x + at.x),
            fits_i32(brush.bounds().min.y + at.y),
            forall|a: &S::Item, b: &B::Item| #[trigger] paint_fn.requires((a, b)),
        ensures
            final(self).wf(),
            final(self).bounds() == old(self).bounds(),
            final(self).stride() == old(self).stride(),
            final(self).buffer().len() == old(self).buffer().len(),
            forall|x: int, y: int|
                #![trigger final(self).at(x, y)]
                old(self).bounds().has(x, y) ==> if overlaps(old(self).bounds(), brush.bounds().displaced_spec(at), x, y) {
                    paint_fn.ensures((&old(self).at(x, y), &brush.at(x - at.x, y - at.y)), final(self).at(x, y))
                } else {
                    final(self).at(x, y) == old(self).at(x, y)
                },
    {
        let ghost o = *old(self);
        let region = Boundary { min: util::add(brush.boundary.min, at), dimension: brush.boundary.dimension };
        proof {
            lemma_intersection(o.bounds(), region);
            assert(region == brush.bounds().displaced_spec(at));
        }
        let i = match self.boundary.intersection(region) {
            Some(i) => i,
            None => {
                return;
            },
        };
        if i.is_empty() {
            return;
        }
        let h = i.dimension.y as usize;
        let w = i.dimension.x as usize;
        let mut r: usize = 0;
        while r < h
            invariant
                self.wf(),
                o.wf(),
                brush.wf(),
                self.bounds() == o.bounds(),
                self.stride() == o.stride(),
                self.buffer().len() == o.buffer().len(),
                intersection_of(o.bounds(), region) == Some(i),
                region == brush.bounds().displaced_spec(at),
                region.min.x == brush.bounds().min.x + at.x,
                region.min.y == brush.bounds().min.y + at.y,
                region.wf(),
                i.wf(),
                forall|x: int, y: int| #![trigger i.has(x, y)] i.has(x, y) ==> o.bounds().has(x, y) && region.has(x, y),
                h == i.dimension.y,
                w == i.dimension.x,
                r <= h,
                forall|a: &S::Item, b: &B::Item| #[trigger] paint_fn.requires((a, b)),
                forall|x: int, y: int|
                    #![trigger self.at(x, y)]
                    o.bounds().has(x, y) ==> if i.has(x, y) && y < i.min.y + r {
                        paint_fn.ensures((&o.at(x, y), &brush.at(x - at.x, y - at.y)), self.at(x, y))
                    } else {
                        self.at(x, y) == o.at(x, y)
                    },
            decreases h - r,
        {
            let y = (i.min.y as i64 + r as i64) as i32;
            let mut c: usize = 0;
            while c < w
                invariant
                    self.wf(),
                    o.wf(),
                    brush.wf(),
                    self.bounds() == o.bounds(),
                    self.stride() == o.stride(),
                    self.buffer().len() == o.buffer().len(),
                    region == brush.bounds().displaced_spec(at),
                    region.min.x == brush.bounds().min.x + at.x,
                    region.min.y == brush.bounds().min.y + at.y,
                    region.wf(),
                    i.wf(),
                    forall|x: int, y: int| #![trigger i.has(x, y)] i.has(x, y) ==> o.bounds().has(x, y) && region.has(x, y),
                    h == i.dimension.y,
                    w == i.dimension.x,
                    r < h,
                    y == i.min.y + r,
                    c <= w,
                    forall|a: &S::Item, b: &B::Item| #[trigger] paint_fn.requires((a, b)),
                    forall|x: int, yy: int|
                        #![trigger self.at(x, yy)]
                        o.bounds().has(x, yy) ==> if i.has(x, yy) && (yy < y || (yy == y && x < i.min.x + c)) {
                            paint_fn.ensures((&o.at(x, yy), &brush.at(x - at.x, yy - at.y)), self.at(x, yy))
                        } else {
                            self.at(x, yy) == o.at(x, yy)
                        },
                decreases w - c,
            {
                let x = (i.min.x as i64 + c as i64) as i32;
                proof {
                    assert(i.has(x as int, y as int));
                    assert(region.has(x as int, y as int));
                    assert(brush.bounds().has(x - at.x, y - at.y));
                }
                let p = Vector2 { x, y };
                let q = Vector2 { x: x - at.x, y: y - at.y };
                proof {
                    assert(i.has(x as int, y as int));
                    self.lemma_slot(x as int, y as int);
                    brush.lemma_slot(q.x as int, q.y as int);
                }
                let k = util::offset_of(p, self.boundary.min, self.pitch);
                let kb = util::offset_of(q, brush.boundary.min, brush.pitch);
                let ghost before = *self;
                let v = paint_fn(&self.data.slice()[k], &brush.data.slice()[kb]);
                let s = self.data.slice_mut();
                s[k] = v;
                proof {
                    assert forall|xx: int, yy: int| #![trigger self.at(xx, yy)] o.bounds().has(xx, yy) && (xx != x || yy != y) implies self.at(xx, yy) == before.at(xx, yy) by {
                        if self.slot(xx, yy) == k {
                            before.lemma_slot_distinct(xx, yy, x as int, y as int);
                        }
                        before.lemma_slot(xx, yy);
                    }
                    assert(self.at(x as int, y as int) == v);
                    assert(before.at(x as int, y as int) == o.at(x as int, y as int));
                    assert(brush.at(q.x as int, q.y as int) == brush.buffer()[kb as int]);
                }
                c += 1;
            }
            r += 1;
        }
    }
}

impl<S: Array2dStorage> GenericArray2d<S> {
    /// The rows of the array, each a slice of the storage `width` long.
    pub fn rows(&self) -> (r: Vec<&[S::Item]>)
        requires
            self.wf(),
        ensures
            r@.len() == self.bounds().dimension.y,
            forall|j: int|
                #![trigger r@[j]]
                0 <= j < r@.len() ==> r@[j]@.len() == self.bounds().dimension.x && forall|c: int|
                    #![trigger r@[j]@[c]]
                    0 <= c < self.bounds().dimension.x ==> r@[j]@[c] == self.at(
                        self.bounds().min.x + c,
                        self.bounds().min.y + j,
                    ),
    {
        let all = self.data.slice();
        let w = self.width();
        let h = self.height();
        let mut out: Vec<&[S::Item]> = Vec::new();
        let mut j: usize = 0;
        while j < h
            invariant
                self.wf(),
                all@ == self.buffer(),
                w == self.bounds().dimension.x,
                h == self.bounds().dimension.y,
                j <= h,
                out@.len() == j,
                forall|jj: int|
                    #![trigger out@[jj]]
                    0 <= jj < j ==> out@[jj]@.len() == w && forall|c: int|
                        #![trigger out@[jj]@[c]]
                        0 <= c < w ==> out@[jj]@[c] == self.at(self.bounds().min.x + c, self.bounds().min.y + jj),
            decreases h - j,
        {
            proof {
                lemma_mul_le(j as int, self.bounds().dimension.y - 1, self.stride());
            }
            let row = if w == 0 {
                &all[0..0]
            } else {
                let start = j * self.pitch;
                &all[start..start + w]
            };
            proof {
                assert forall|c: int| 0 <= c < w implies #[trigger] row@[c] == self.at(self.bounds().min.x + c, self.bounds().min.y + j) by {}
            }
            out.push(row);
            j += 1;
        }
        out
    }

    /// The values of the array, row by row.
    pub fn values(&self) -> (r: Vec<&S::Item>)
        requires
            self.wf(),
        ensures
            r@.len() == self.bounds().dimension.x * self.bounds().dimension.y,
            forall|j: int, c: int|
                #![trigger r@[j * self.bounds().dimension.x + c]]
                0 <= j < self.bounds().dimension.y && 0 <= c < self.bounds().dimension.x
                    ==> *r@[j * self.bounds().dimension.x + c] == self.at(
                    self.bounds().min.x + c,
                    self.bounds().min.y + j,
                ),
    {
        let all = self.data.slice();
        let w = self.width();
        let h = self.height();
        let mut out: Vec<&S::Item> = Vec::new();
        let mut j: usize = 0;
        while j < h
            invariant
                self.wf(),
                all@ == self.buffer(),
                w == self.bounds().dimension.x,
                h == self.bounds().dimension.y,
                j <= h,
                out@.len() == j * w,
                forall|jj: int, c: int|
                    #![trigger out@[jj * w + c]]
                    0 <= jj < j && 0 <= c < w ==> *out@[jj * w + c] == self.at(self.bounds().min.x + c, self.bounds().min.y + jj),
            decreases h - j,
        {
            let mut c: usize = 0;
            while c < w
                invariant
                    self.wf(),
                    all@ == self.buffer(),
                    w == self.bounds().dimension.x,
                    h == self.bounds().dimension.y,
                    j < h,
                    c <= w,
                    out@.len() == j * w + c,
                    forall|jj: int, cc: int|
                        #![trigger out@[jj * w + cc]]
                        0 <= jj < j && 0 <= cc < w ==> *out@[jj * w + cc] == self.at(self.bounds().min.x + cc, self.bounds().min.y + jj),
                    forall|cc: int|
                        #![trigger out@[j * w + cc]]
                        0 <= cc < c ==> *out@[j * w + cc] == self.at(self.bounds().min.x + cc, self.bounds().min.y + j),
                decreases w - c,
            {
                proof {
                    self.lemma_slot(self.bounds().min.x + c, self.bounds().min.y + j);
                    lemma_mul_le(j as int, self.bounds().dimension.y - 1, self.stride());
                    assert forall|jj: int, cc: int| 0 <= jj < j && 0 <= cc < w implies #[trigger] (jj * w + cc) < j * w by {
                        crate::util::lemma_row_before(jj, cc, j as int, w as int);
                    }
                }
                out.push(&all[j * self.pitch + c]);
                c += 1;
            }
            proof {
                assert((j + 1) * w == j * w + w) by (nonlinear_arith);
            }
            j += 1;
        }
        proof {
            assert(j * w == w * j) by (nonlinear_arith);
        }
        out
    }

    /// Pairs of points and values of the array, row by row.
    pub fn iter(&self) -> (r: Vec<(Vector2<i32>, &S::Item)>)
        requires
            self.wf(),
        ensures
            r@.len() == self.bounds().dimension.x * self.bounds().dimension.y,
            forall|j: int, c: int|
                #![trigger r@[j * self.bounds().dimension.x + c]]
                0 <= j < self.bounds().dimension.y && 0 <= c < self.bounds().dimension.x ==> {
                    let e = r@[j * self.bounds().dimension.x + c];
                    &&& e.0.x == self.bounds().min.x + c
                    &&& e.0.y == self.bounds().min.y + j
                    &&& *e.1 == self.at(self.bounds().min.x + c, self.bounds().min.y + j)
                },
    {
        let all = self.data.slice();
        let w = self.width();
        let h = self.height();
        let mut out: Vec<(Vector2<i32>, &S::Item)> = Vec::new();
        let mut j: usize = 0;
        while j < h
            invariant
                self.wf(),
                all@ == self.buffer(),
                w == self.bounds().dimension.x,
                h == self.bounds().dimension.y,
                j <= h,
                out@.len() == j * w,
                forall|jj: int, c: int|
                    #![trigger out@[jj * w + c]]
                    0 <= jj < j && 0 <= c < w ==> {
                        let e = out@[jj * w + c];
                        &&& e.0.x == self.bounds().min.x + c
                        &&& e.0.y == self.bounds().min.y + jj
                        &&& *e.1 == self.at(self.bounds().min.x + c, self.bounds().min.y + jj)
                    },
            decreases h - j,
        {
            let mut c: usize = 0;
            while c < w
                invariant
                    self.wf(),
                    all@ == self.buffer(),
                    w == self.bounds().dimension.x,
                    h == self.bounds().dimension.y,
                    j < h,
                    c <= w,
                    out@.len() == j * w + c,
                    forall|jj: int, cc: int|
                        #![trigger out@[jj * w + cc]]
                        0 <= jj < j && 0 <= cc < w ==> {
                            let e = out@[jj * w + cc];
                            &&& e.0.x == self.bounds().min.x + cc
                            &&& e.0.y == self.bounds().min.y + jj
                            &&& *e.1 == self.at(self.bounds().min.x + cc, self.bounds().min.y + jj)
                        },
                    forall|cc: int|
                        #![trigger out@[j * w + cc]]
                        0 <= cc < c ==> {
                            let e = out@[j * w + cc];
                            &&& e.0.x == self.bounds().min.x + cc
                            &&& e.0.y == self.bounds().min.y + j
                            &&& *e.1 == self.at(self.bounds().min.x + cc, self.bounds().min.y + j)
                        },
                decreases w - c,
            {
                proof {
                    self.lemma_slot(self.bounds().min.x + c, self.bounds().min.y + j);
                    lemma_mul_le(j as int, self.bounds().dimension.y - 1, self.stride());
                    assert forall|jj: int, cc: int| 0 <= jj < j && 0 <= cc < w implies #[trigger] (jj * w + cc) < j * w by {
                        crate::util::lemma_row_before(jj, cc, j as int, w as int);
                    }
                }
                let p = Vector2 {
                    x: (self.boundary.min.x as i64 + c as i64) as i32,
                    y: (self.boundary.min.y as i64 + j as i64) as i32,
                };
                out.push((p, &all[j * self.pitch + c]));
                c += 1;
            }
            proof {
                assert((j + 1) * w == j * w + w) by (nonlinear_arith);
            }
            j += 1;
        }
        proof {
            assert(j * w == w * j) by (nonlinear_arith);
        }
        out
    }
}

impl<'t, T> GenericArray2d<&'t [T]> {
    /// Create a readonly array by reinterpreting a row major slice.
    pub fn from_slice(slice: &'t [T], boundary: Boundary) -> (r: Self)
        requires
            boundary.wf(),
            slice@.len() >= boundary.area(),
        ensures
            r.wf(),
            r.bounds() == boundary,
            r.stride() == boundary.dimension.x,
            r.buffer() == slice@,
    {
        let n = slice.len();
        proof {
            assert(slice@.len() == n);
            assert((boundary.dimension.y - 1) * boundary.dimension.x + boundary.dimension.x
                == boundary.dimension.x * boundary.dimension.y) by (nonlinear_arith);
        }
        GenericArray2d { data: slice, boundary, pitch: boundary.pitch() }
    }

    /// Create a readonly array by reinterpreting a row major slice whose rows start
    /// `pitch` items apart.
    pub fn from_slice_pitch(slice: &'t [T], boundary: Boundary, pitch: usize) -> (r: Self)
        requires
            boundary.wf(),
            slice@.len() >= boundary.dimension.y * pitch,
            pitch >= boundary.dimension.x,
        ensures
            r.wf(),
            r.bounds() == boundary,
            r.stride() == pitch,
            r.buffer() == slice@,
    {
        let n = slice.len();
        proof {
            assert(slice@.len() == n);
            if boundary.dimension.y >= 1 {
                assert((boundary.dimension.y - 1) * pitch + boundary.dimension.x <= boundary.dimension.y * pitch)
                    by (nonlinear_arith) requires pitch >= boundary.dimension.x, boundary.dimension.y >= 1;
            }
        }
        GenericArray2d { data: slice, boundary, pitch }
    }
}

impl<'t, T> GenericArray2d<&'t mut [T]> {
    /// Create a mutable array by reinterpreting a row major slice.
    pub fn from_slice(slice: &'t mut [T], boundary: Boundary) -> (r: Self)
        requires
            boundary.wf(),
            old(slice)@.len() >= boundary.area(),
        ensures
            r.wf(),
            r.bounds() == boundary,
            r.stride() == boundary.dimension.x,
            r.buffer() == old(slice)@,
    {
        let n = slice.len();
        proof {
            assert(old(slice)@.len() == n);
            assert((boundary.dimension.y - 1) * boundary.dimension.x + boundary.dimension.x
                == boundary.dimension.x * boundary.dimension.y) by (nonlinear_arith);
        }
        GenericArray2d { data: slice, boundary, pitch: boundary.pitch() }
    }

    /// Create a mutable array by reinterpreting a row major slice whose rows start
    /// `pitch` items apart.
    pub fn from_slice_pitch(slice: &'t mut [T], boundary: Boundary, pitch: usize) -> (r: Self)
        requires
            boundary.wf(),
            old(slice)@.len() >= boundary.dimension.y * pitch,
            pitch >= boundary.dimension.x,
        ensures
            r.wf(),
            r.bounds() == boundary,
            r.stride() == pitch,
            r.buffer() == old(slice)@,
    {
        let n = slice.len();
        proof {
            assert(old(slice)@.len() == n);
            if boundary.dimension.y >= 1 {
                assert((boundary.dimension.y - 1) * pitch + boundary.dimension.x <= boundary.dimension.y * pitch)
                    by (nonlinear_arith) requires pitch >= boundary.dimension.x, boundary.dimension.y >= 1;
            }
        }
        GenericArray2d { data: slice, boundary, pitch }
    }
}

impl<S: Array2dStorage> GenericArray2d<S> {
    /// Map the array or view into a densely packed owned array at the same position.
    pub fn mapped<U, F: Fn(&S::Item) -> U>(&self, f: F) -> (r: Array2d<U>)
        requires
            self.wf(),
            self.bounds().area() <= usize::MAX,
            forall|a: &S::Item| #[trigger] f.requires((a,)),
        ensures
            r.wf(),
            r.bounds() == self.bounds(),
            r.stride() == self.bounds().dimension.x,
            forall|x: int, y: int| #![trigger r.at(x, y)] self.bounds().has(x, y) ==> f.ensures((&self.at(x, y),), r.at(x, y)),
    {
        let w = self.width();
        let h = self.height();
        let all = self.data.slice();
        let mut out: Vec<U> = Vec::new();
        let mut j: usize = 0;
        while j < h
            invariant
                self.wf(),
                all@ == self.buffer(),
                w == self.bounds().dimension.x,
                h == self.bounds().dimension.y,
                j <= h,
                out@.len() == j * w,
                forall|a: &S::Item| #[trigger] f.requires((a,)),
                forall|jj: int, c: int|
                    #![trigger out@[jj * w + c]]
                    0 <= jj < j && 0 <= c < w ==> f.ensures((&self.at(self.bounds().min.x + c, self.bounds().min.y + jj),), out@[jj * w + c]),
            decreases h - j,
        {
            let mut c: usize = 0;
            while c < w
                invariant
                    self.wf(),
                    all@ == self.buffer(),
                    w == self.bounds().dimension.x,
                    h == self.bounds().dimension.y,
                    j < h,
                    c <= w,
                    out@.len() == j * w + c,
                    forall|a: &S::Item| #[trigger] f.requires((a,)),
                    forall|jj: int, cc: int|
                        #![trigger out@[jj * w + cc]]
                        0 <= jj < j && 0 <= cc < w ==> f.ensures((&self.at(self.bounds().min.x + cc, self.bounds().min.y + jj),), out@[jj * w + cc]),
                    forall|cc: int|
                        #![trigger out@[j * w + cc]]
                        0 <= cc < c ==> f.ensures((&self.at(self.bounds().min.x + cc, self.bounds().min.y + j),), out@[j * w + cc]),
                decreases w - c,
            {
                proof {
                    self.lemma_slot(self.bounds().min.x + c, self.bounds().min.y + j);
                    lemma_mul_le(j as int, self.bounds().dimension.y - 1, self.stride());
                    assert forall|jj: int, cc: int| 0 <= jj < j && 0 <= cc < w implies #[trigger] (jj * w + cc) < j * w by {
                        crate::util::lemma_row_before(jj, cc, j as int, w as int);
                    }
                }
                let v = f(&all[j * self.pitch + c]);
                out.push(v);
                c += 1;
            }
            proof {
                assert((j + 1) * w == j * w + w) by (nonlinear_arith);
            }
            j += 1;
        }
        proof {
            assert(j * w == self.bounds().area()) by (nonlinear_arith)
                requires j == self.bounds().dimension.y, w == self.bounds().dimension.x;
        }
        let r = Array2d::from_vec(out, self.boundary);
        proof {
            assert forall|x: int, y: int| #![trigger r.at(x, y)] self.bounds().has(x, y) implies f.ensures((&self.at(x, y),), r.at(x, y)) by {
                let jj = y - self.bounds().min.y;
                let c = x - self.bounds().min.x;
                assert(r.slot(x, y) == jj * w + c);
            }
        }
        r
    }

    /// Clone the array or view into a densely packed owned array.
    pub fn cloned(&self) -> (r: Array2d<S::Item>) where S::Item: Clone
        requires
            self.wf(),
            self.bounds().area() <= usize::MAX,
        ensures
            r.wf(),
            r.bounds() == self.bounds(),
            forall|x: int, y: int| #![trigger r.at(x, y)] self.bounds().has(x, y) ==> cloned(self.at(x, y), r.at(x, y)),
    {
        let copy = |v: &S::Item| -> (r: S::Item)
            ensures
                cloned(*v, r),
        {
            v.clone()
        };
        self.mapped(copy)
    }

    /// Copy the array or view into a densely packed owned array.
    pub fn copied(&self) -> (r: Array2d<S::Item>) where S::Item: Copy
        requires
            self.wf(),
            self.bounds().area() <= usize::MAX,
        ensures
            r.wf(),
            r.bounds() == self.bounds(),
            forall|x: int, y: int| #![trigger r.at(x, y)] self.bounds().has(x, y) ==> r.at(x, y) == self.at(x, y),
    {
        let copy = |v: &S::Item| -> (r: S::Item)
            ensures
                r == *v,
        {
            *v
        };
        self.mapped(copy)
    }
}

impl<S: Array2dStorage<Item = bool>> GenericArray2d<S> {
    /// For a boolean array, the points holding `true`, row by row.
    pub fn iter_points(&self) -> (r: Vec<Vector2<i32>>)
        requires
            self.wf(),
        ensures
            forall|k: int| #![trigger r@[k]] 0 <= k < r@.len() ==> self.bounds().has(r@[k].x as int, r@[k].y as int) && self.at(r@[k].x as int, r@[k].y as int),
            forall|x: int, y: int|
                #![trigger self.at(x, y)]
                self.bounds().has(x, y) && self.at(x, y) ==> exists|k: int| 0 <= k < r@.len() && #[trigger] r@[k] == (Vector2::<i32> { x: x as i32, y: y as i32 }),
    {
        let cells = self.iter();
        let w = self.width();
        let n = cells.len();
        let mut out: Vec<Vector2<i32>> = Vec::new();
        let mut k: usize = 0;
        while k < n
            invariant
                self.wf(),
                n == cells@.len(),
                n == self.bounds().dimension.x * self.bounds().dimension.y,
                w == self.bounds().dimension.x,
                k <= n,
                forall|j: int, c: int|
                    #![trigger cells@[j * self.bounds().dimension.x + c]]
                    0 <= j < self.bounds().dimension.y && 0 <= c < self.bounds().dimension.x ==> {
                        let e = cells@[j * self.bounds().dimension.x + c];
                        &&& e.0.x == self.bounds().min.x + c
                        &&& e.0.y == self.bounds().min.y + j
                        &&& *e.1 == self.at(self.bounds().min.x + c, self.bounds().min.y + j)
                    },
                forall|q: int| #![trigger out@[q]] 0 <= q < out@.len() ==> self.bounds().has(out@[q].x as int, out@[q].y as int) && self.at(out@[q].x as int, out@[q].y as int),
                forall|j: int, c: int|
                    #![trigger cells@[j * self.bounds().dimension.x + c]]
                    0 <= j < self.bounds().dimension.y && 0 <= c < self.bounds().dimension.x && j * self.bounds().dimension.x + c < k && *cells@[j * self.bounds().dimension.x + c].1
                        ==> exists|q: int| 0 <= q < out@.len() && #[trigger] out@[q] == cells@[j * self.bounds().dimension.x + c].0,
            decreases n - k,
        {
            let (p, v) = cells[k];
            proof {
                let j = k as int / w as int;
                let c = k as int % w as int;
                assert(w > 0) by (nonlinear_arith) requires k < n, n == w * self.bounds().dimension.y;
                assert(k == j * w + c && 0 <= c < w && 0 <= j) by (nonlinear_arith) requires w > 0, j == k as int / w as int, c == k as int % w as int, k >= 0;
                assert(j < self.bounds().dimension.y) by (nonlinear_arith) requires k == j * w + c, 0 <= c < w, k < w * self.bounds().dimension.y;
                assert(cells@[j * w + c] == cells@[k as int]);
            }
            let ghost prev = out@;
            if *v {
                out.push(p);
            }
            proof {
                let bw = self.bounds().dimension.x as int;
                assert forall|j: int, c: int|
                    #![trigger cells@[j * self.bounds().dimension.x + c]]
                    0 <= j < self.bounds().dimension.y && 0 <= c < self.bounds().dimension.x && j * self.bounds().dimension.x + c < k + 1 && *cells@[j * self.bounds().dimension.x + c].1
                        implies exists|q: int| 0 <= q < out@.len() && #[trigger] out@[q] == cells@[j * self.bounds().dimension.x + c].0 by {
                    if j * bw + c == k {
                        assert(out@[out@.len() - 1] == cells@[j * bw + c].0);
                    } else {
                        let q = choose|q: int| 0 <= q < prev.len() && #[trigger] prev[q] == cells@[j * bw + c].0;
                        assert(out@[q] == prev[q]);
                    }
                }
            }
            k += 1;
        }
        proof {
            assert forall|x: int, y: int| #![trigger self.at(x, y)] self.bounds().has(x, y) && self.at(x, y) implies exists|q: int| 0 <= q < out@.len() && #[trigger] out@[q] == (Vector2::<i32> { x: x as i32, y: y as i32 }) by {
                let j = y - self.bounds().min.y;
                let c = x - self.bounds().min.x;
                crate::util::lemma_row_before(j, c, self.bounds().dimension.y as int, w as int);
                assert(j * self.bounds().dimension.x + c < self.bounds().dimension.y * w);
                assert(self.bounds().dimension.y * w == n) by (nonlinear_arith) requires n == w * self.bounds().dimension.y;
                assert(cells@[j * self.bounds().dimension.x + c].0 == (Vector2::<i32> { x: x as i32, y: y as i32 }));
            }
        }
        out
    }
}

impl<A, S: Array2dStorage<Item = Option<A>>> GenericArray2d<S> {
    /// For an array of options, the points holding `Some` with their values, row by row.
    pub fn iter_some(&self) -> (r: Vec<(Vector2<i32>, &A)>)
        requires
            self.wf(),
        ensures
            forall|k: int| #![trigger r@[k]] 0 <= k < r@.len() ==> self.bounds().has(r@[k].0.x as int, r@[k].0.y as int) && self.at(r@[k].0.x as int, r@[k].0.y as int) == Some(*r@[k].1),
            forall|x: int, y: int|
                #![trigger self.at(x, y)]
                self.bounds().has(x, y) && self.at(x, y) is Some ==> exists|k: int| 0 <= k < r@.len() && #[trigger] r@[k].0 == (Vector2::<i32> { x: x as i32, y: y as i32 }),
    {
        let cells = self.iter();
        let w = self.width();
        let n = cells.len();
        let mut out: Vec<(Vector2<i32>, &A)> = Vec::new();
        let mut k: usize = 0;
        while k < n
            invariant
                self.wf(),
                n == cells@.len(),
                n == self.bounds().dimension.x * self.bounds().dimension.y,
                w == self.bounds().dimension.x,
                k <= n,
                forall|j: int, c: int|
                    #![trigger cells@[j * self.bounds().dimension.x + c]]
                    0 <= j < self.bounds().dimension.y && 0 <= c < self.bounds().dimension.x ==> {
                        let e = cells@[j * self.bounds().dimension.x + c];
                        &&& e.0.x == self.bounds().min.x + c
                        &&& e.0.y == self.bounds().min.y + j
                        &&& *e.1 == self.at(self.bounds().min.x + c, self.bounds().min.y + j)
                    },
                forall|q: int| #![trigger out@[q]] 0 <= q < out@.len() ==> self.bounds().has(out@[q].0.x as int, out@[q].0.y as int) && self.at(out@[q].0.x as int, out@[q].0.y as int) == Some(*out@[q].1),
                forall|j: int, c: int|
                    #![trigger cells@[j * self.bounds().dimension.x + c]]
                    0 <= j < self.bounds().dimension.y && 0 <= c < self.bounds().dimension.x && j * self.bounds().dimension.x + c < k && cells@[j * self.bounds().dimension.x + c].1 is Some
                        ==> exists|q: int| 0 <= q < out@.len() && #[trigger] out@[q].0 == cells@[j * self.bounds().dimension.x + c].0,
            decreases n - k,
        {
            let (p, v) = cells[k];
            proof {
                let j = k as int / w as int;
                let c = k as int % w as int;
                assert(w > 0) by (nonlinear_arith) requires k < n, n == w * self.bounds().dimension.y;
                assert(k == j * w + c && 0 <= c < w && 0 <= j) by (nonlinear_arith) requires w > 0, j == k as int / w as int, c == k as int % w as int, k >= 0;
                assert(j < self.bounds().dimension.y) by (nonlinear_arith) requires k == j * w + c, 0 <= c < w, k < w * self.bounds().dimension.y;
                assert(cells@[j * w + c] == cells@[k as int]);
            }
            let ghost prev = out@;
            if let Some(item) = v {
                out.push((p, item));
            }
            proof {
                let bw = self.bounds().dimension.x as int;
                assert forall|j: int, c: int|
                    #![trigger cells@[j * self.bounds().dimension.x + c]]
                    0 <= j < self.bounds().dimension.y && 0 <= c < self.bounds().dimension.x && j * self.bounds().dimension.x + c < k + 1 && cells@[j * self.bounds().dimension.x + c].1 is Some
                        implies exists|q: int| 0 <= q < out@.len() && #[trigger] out@[q].0 == cells@[j * self.bounds().dimension.x + c].0 by {
                    if j * bw + c == k {
                        assert(out@[out@.len() - 1].0 == cells@[j * bw + c].0);
                    } else {
                        let q = choose|q: int| 0 <= q < prev.len() && #[trigger] prev[q].0 == cells@[j * bw + c].0;
                        assert(out@[q] == prev[q]);
                    }
                }
            }
            k += 1;
        }
        proof {
            assert forall|x: int, y: int| #![trigger self.at(x, y)] self.bounds().has(x, y) && self.at(x, y) is Some implies exists|q: int| 0 <= q < out@.len() && #[trigger] out@[q].0 == (Vector2::<i32> { x: x as i32, y: y as i32 }) by {
                let j = y - self.bounds().min.y;
                let c = x - self.bounds().min.x;
                crate::util::lemma_row_before(j, c, self.bounds().dimension.y as int, w as int);
                assert(j * self.bounds().dimension.x + c < self.bounds().dimension.y * w);
                assert(self.bounds().dimension.y * w == n) by (nonlinear_arith) requires n == w * self.bounds().dimension.y;
                assert(cells@[j * self.bounds().dimension.x + c].0 == (Vector2::<i32> { x: x as i32, y: y as i32 }));
            }
        }
        out
    }
}

impl<S: Array2dStorageMut> GenericArray2d<S> {
    /// Sets every cell to a clone of `value`.
    pub fn fill(&mut self, value: S::Item) where S::Item: Clone
        requires
            old(self).wf(),
        ensures
            final(self).wf(),
            final(self).bounds() == old(self).bounds(),
            forall|x: int, y: int| #![trigger final(self).at(x, y)] old(self).bounds().has(x, y) ==> cloned(value, final(self).at(x, y)),
    {
        let copy = |_a: &S::Item, _b: &S::Item| -> (r: S::Item)
            ensures
                cloned(value, r),
        {
            value.clone()
        };
        let w = self.width();
        let h = self.height();
        let mut j: usize = 0;
        let ghost o = *old(self);
        while j < h
            invariant
                self.wf(),
                o.wf(),
                self.bounds() == o.bounds(),
                self.stride() == o.stride(),
                w == o.bounds().dimension.x,
                h == o.bounds().dimension.y,
                j <= h,
                forall|x: int, y: int| #![trigger self.at(x, y)] o.bounds().has(x, y) && y < o.bounds().min.y + j ==> cloned(value, self.at(x, y)),
            decreases h - j,
        {
            let mut c: usize = 0;
            while c < w
                invariant
                    self.wf(),
                    o.wf(),
                    self.bounds() == o.bounds(),
                    self.stride() == o.stride(),
                    w == o.bounds().dimension.x,
                    h == o.bounds().dimension.y,
                    j < h,
                    c <= w,
                    forall|x: int, y: int| #![trigger self.at(x, y)] o.bounds().has(x, y) && (y < o.bounds().min.y + j || (y == o.bounds().min.y + j && x < o.bounds().min.x + c)) ==> cloned(value, self.at(x, y)),
                decreases w - c,
            {
                let p = Vector2 {
                    x: (self.boundary.min.x as i64 + c as i64) as i32,
                    y: (self.boundary.min.y as i64 + j as i64) as i32,
                };
                let ghost before = *self;
                let v = value.clone();
                let ok = self.set(p, v);
                proof {
                    before.lemma_slot(p.x as int, p.y as int);
                    assert forall|x: int, y: int| #![trigger self.at(x, y)] o.bounds().has(x, y) && (x != p.x || y != p.y) implies self.at(x, y) == before.at(x, y) by {
                        before.lemma_slot(x, y);
                        if before.slot(x, y) == before.slot(p.x as int, p.y as int) {
                            before.lemma_slot_distinct(x, y, p.x as int, p.y as int);
                        }
                    }
                }
                c += 1;
            }
            j += 1;
        }
    }
}

} // verus!

//! Axis-aligned rectangles of integer points.

use vstd::prelude::*;

use crate::util::{
    self, abs, addu, fits_i32, i2u, lemma_row_before, max_int, min_int, u2i, vec_max, vec_min, wrap_i32,
    wrap_u32,
    Vector2,
};

verus! {

/// How one end of a coordinate range is given.
#[derive(Clone, Copy, Debug, PartialEq, Eq, Structural)]
pub enum Bound {
    Included(i32),
    Excluded(i32),
    Unbounded,
}

/// Area occupied by a 2d array: the points `p` with `min <= p < min + dimension`.
#[derive(Clone, Copy, Debug, PartialEq, Eq, Structural)]
pub struct Boundary {
    pub min: Vector2<i32>,
    pub dimension: Vector2<u32>,
}

/// Exclusive end of an axis, as the wrapping arithmetic of the boundary computes it.
pub open spec fn end_of(min: i32, dim: u32) -> int {
    wrap_i32(min + dim)
}

/// The overlap of two boundaries, `None` when it is inverted on either axis.
pub open spec fn intersection_of(a: Boundary, b: Boundary) -> Option<Boundary> {
    let lx = max_int(a.min.x as int, b.min.x as int);
    let ly = max_int(a.min.y as int, b.min.y as int);
    let hx = min_int(end_of(a.min.x, a.dimension.x), end_of(b.min.x, b.dimension.x));
    let hy = min_int(end_of(a.min.y, a.dimension.y), end_of(b.min.y, b.dimension.y));
    if hx < lx || hy < ly {
        None
    } else {
        Some(
            Boundary {
                min: Vector2 { x: lx as i32, y: ly as i32 },
                dimension: Vector2 { x: (hx - lx) as u32, y: (hy - ly) as u32 },
            },
        )
    }
}

/// Boundary from an inclusive minimum and maximum, with wrapping extents.
pub open spec fn min_max_of(min: Vector2<i32>, max: Vector2<i32>) -> Boundary {
    if min.x == i32::MIN && min.y == i32::MIN && max.x == i32::MAX - 1 && max.y == i32::MAX - 1 {
        Boundary::all_spec()
    } else {
        Boundary {
            min,
            dimension: Vector2 {
                x: wrap_u32(max.x - min.x + 1) as u32,
                y: wrap_u32(max.y - min.y + 1) as u32,
            },
        }
    }
}

/// Boundary from a minimum and an exclusive maximum, with wrapping extents.
pub open spec fn min_max_non_inclusive_of(min: Vector2<i32>, max: Vector2<i32>) -> Boundary {
    Boundary {
        min,
        dimension: Vector2 { x: wrap_u32(max.x - min.x) as u32, y: wrap_u32(max.y - min.y) as u32 },
    }
}

/// Where `a` does not wrap, an intersection exists only with a `b` that does not wrap
/// either; it holds exactly the common points, lies within both, and does not wrap.
/// Where it is `None` and `b` does not wrap, there is no common point.
pub proof fn lemma_intersection(a: Boundary, b: Boundary)
    requires
        a.wf(),
    ensures
        intersection_of(a, b) is None && b.wf() ==> forall|x: int, y: int|
            !(#[trigger] a.has(x, y) && #[trigger] b.has(x, y)),
        intersection_of(a, b) is Some ==> {
            let i = intersection_of(a, b)->0;
            &&& b.wf()
            &&& i.wf()
            &&& a.min.x <= i.min.x && b.min.x <= i.min.x
            &&& a.min.y <= i.min.y && b.min.y <= i.min.y
            &&& i.min.x + i.dimension.x <= a.min.x + a.dimension.x
            &&& i.min.x + i.dimension.x <= b.min.x + b.dimension.x
            &&& i.min.y + i.dimension.y <= a.min.y + a.dimension.y
            &&& i.min.y + i.dimension.y <= b.min.y + b.dimension.y
            &&& forall|x: int, y: int|
                #![trigger i.has(x, y)]
                #![trigger a.has(x, y), b.has(x, y)]
                i.has(x, y) <==> (a.has(x, y) && b.has(x, y))
        },
{
}

/// The boundary grown by `by` on every side, shrunk where `by` is negative.
pub open spec fn expanded(b: Boundary, by: Vector2<i32>) -> Boundary {
    Boundary {
        min: Vector2 { x: (b.min.x - by.x) as i32, y: (b.min.y - by.y) as i32 },
        dimension: Vector2 {
            x: max_int(wrap_i32(b.dimension.x as int) + 2 * by.x, 0) as u32,
            y: max_int(wrap_i32(b.dimension.y as int) + 2 * by.y, 0) as u32,
        },
    }
}

pub open spec fn lower_of(b: Bound) -> int {
    match b {
        Bound::Included(v) => v as int,
        Bound::Excluded(v) => v + 1,
        Bound::Unbounded => i32::MIN as int,
    }
}

pub open spec fn upper_of(b: Bound) -> int {
    match b {
        Bound::Included(v) => v as int,
        Bound::Excluded(v) => v - 1,
        Bound::Unbounded => i32::MAX - 1,
    }
}

pub open spec fn bound_ok(lower: Bound, upper: Bound) -> bool {
    &&& fits_i32(lower_of(lower))
    &&& fits_i32(upper_of(upper))
}

impl Boundary {
    /// The boundary at the origin with no points.
    pub fn empty() -> (r: Boundary)
        ensures
            r == Boundary::empty_spec(),
    {
        Boundary { min: Vector2 { x: 0, y: 0 }, dimension: Vector2 { x: 0, y: 0 } }
    }

    /// The boundary over the whole coordinate range; its largest point is `i32::MAX - 1`.
    pub fn all() -> (r: Boundary)
        ensures
            r == Boundary::all_spec(),
    {
        Boundary {
            min: Vector2 { x: i32::MIN, y: i32::MIN },
            dimension: Vector2 { x: u32::MAX, y: u32::MAX },
        }
    }

    pub open spec fn empty_spec() -> Boundary {
        Boundary { min: Vector2 { x: 0, y: 0 }, dimension: Vector2 { x: 0, y: 0 } }
    }

    pub open spec fn all_spec() -> Boundary {
        Boundary {
            min: Vector2 { x: i32::MIN, y: i32::MIN },
            dimension: Vector2 { x: u32::MAX, y: u32::MAX },
        }
    }

    /// The exclusive end stays within `i32`, so no arithmetic on it wraps.
    pub open spec fn wf(self) -> bool {
        &&& self.min.x + self.dimension.x <= i32::MAX
        &&& self.min.y + self.dimension.y <= i32::MAX
    }

    /// Membership of a point, over unbounded integers.
    pub open spec fn has(self, x: int, y: int) -> bool {
        &&& self.min.x <= x < self.min.x + self.dimension.x
        &&& self.min.y <= y < self.min.y + self.dimension.y
    }

    /// The boundary moved by `by`.
    pub open spec fn displaced_spec(self, by: Vector2<i32>) -> Boundary {
        Boundary {
            min: Vector2 { x: (self.min.x + by.x) as i32, y: (self.min.y + by.y) as i32 },
            dimension: self.dimension,
        }
    }

    pub open spec fn is_empty_spec(self) -> bool {
        self.dimension.x == 0 || self.dimension.y == 0
    }

    pub open spec fn area(self) -> nat {
        (self.dimension.x * self.dimension.y) as nat
    }

    /// Returns true if contains 0 points.
    pub fn is_empty(&self) -> (r: bool)
        ensures
            r == self.is_empty_spec(),
    {
        self.dimension.x == 0 || self.dimension.y == 0
    }

    /// Returns the number of points.
    pub fn len(&self) -> (r: usize)
        requires
            self.area() <= usize::MAX,
        ensures
            r == self.area(),
    {
        (self.dimension.x as u64 * self.dimension.y as u64) as usize
    }

    /// Returns the width, the row stride of a densely packed array.
    pub(crate) fn pitch(&self) -> (r: usize)
        ensures
            r == self.dimension.x,
    {
        self.dimension.x as usize
    }

    /// Returns the maximum point, `min + dimension - [1, 1]`.
    pub fn max(&self) -> (r: Vector2<i32>)
        requires
            end_of(self.min.x, self.dimension.x) > i32::MIN,
            end_of(self.min.y, self.dimension.y) > i32::MIN,
        ensures
            r.x == end_of(self.min.x, self.dimension.x) - 1,
            r.y == end_of(self.min.y, self.dimension.y) - 1,
    {
        util::sub(addu(self.min, self.dimension), Vector2 { x: 1, y: 1 })
    }

    /// Returns `min + dimension`, wrapping past `i32::MAX`.
    pub fn max_non_inclusive(&self) -> (r: Vector2<i32>)
        ensures
            r.x == end_of(self.min.x, self.dimension.x),
            r.y == end_of(self.min.y, self.dimension.y),
    {
        addu(self.min, self.dimension)
    }

    /// The overlap of two boundaries, `None` when it is inverted on an axis.
    pub fn intersection(&self, other: Boundary) -> (r: Option<Boundary>)
        ensures
            r == intersection_of(*self, other),
    {
        let min = vec_max(self.min, other.min);
        let u1 = self.max_non_inclusive();
        let u2 = other.max_non_inclusive();
        let max = vec_min(u1, u2);
        if max.x < min.x || max.y < min.y {
            None
        } else {
            Some(Boundary::min_max_non_inclusive(min, max))
        }
    }

    /// Returns boundary of a point with dimension `[1, 1]`.
    pub fn from_point(point: Vector2<i32>) -> (r: Boundary)
        ensures
            r.min == point,
            r.dimension == (Vector2::<u32> { x: 1, y: 1 }),
    {
        Boundary { min: point, dimension: Vector2 { x: 1, y: 1 } }
    }

    /// Returns boundary of a conventional 2d array starting from `[0, 0]`.
    pub fn from_dimension(dimension: Vector2<i32>) -> (r: Boundary)
        ensures
            r.min == (Vector2::<i32> { x: 0, y: 0 }),
            r.dimension.x == max_int(dimension.x as int, 0),
            r.dimension.y == max_int(dimension.y as int, 0),
    {
        let dimension = i2u(dimension);
        Boundary { min: Vector2 { x: 0, y: 0 }, dimension }
    }

    /// Returns boundary from a minimum and maximum point, both inclusive.
    pub fn min_max(min: Vector2<i32>, max: Vector2<i32>) -> (r: Boundary)
        ensures
            r == min_max_of(min, max),
    {
        if min.x == i32::MIN && min.y == i32::MIN && max.x == i32::MAX - 1 && max.y == i32::MAX - 1 {
            Boundary::all()
        } else {
            let dimension = Vector2 { x: span(min.x, max.x, 1), y: span(min.y, max.y, 1) };
            Boundary { min, dimension }
        }
    }

    /// Returns boundary from a minimum and a non-inclusive maximum point.
    pub(crate) fn min_max_non_inclusive(min: Vector2<i32>, max: Vector2<i32>) -> (r: Boundary)
        ensures
            r == min_max_non_inclusive_of(min, max),
    {
        let dimension = Vector2 { x: span(min.x, max.x, 0), y: span(min.y, max.y, 0) };
        Boundary { min, dimension }
    }

    /// Returns boundary from a minimum point and a dimension, negative extents taken
    /// by their absolute value.
    pub fn min_dim(min: Vector2<i32>, dimension: Vector2<i32>) -> (r: Boundary)
        requires
            dimension.x != i32::MIN,
            dimension.y != i32::MIN,
        ensures
            r.min == min,
            r.dimension.x == (if dimension.x < 0 { -dimension.x } else { dimension.x as int }),
            r.dimension.y == (if dimension.y < 0 { -dimension.y } else { dimension.y as int }),
    {
        let dimension = i2u(abs(dimension));
        Boundary { min, dimension }
    }

    /// Returns boundary from a center point and half dimension: an odd-sized rectangle
    /// symmetric about the center.
    pub fn center_hdim(center: Vector2<i32>, half_dim: Vector2<i32>) -> (r: Boundary)
        requires
            half_dim.x != i32::MIN,
            half_dim.y != i32::MIN,
            fits_i32(center.x - abs_int(half_dim.x as int)),
            fits_i32(center.y - abs_int(half_dim.y as int)),
            2 * abs_int(half_dim.x as int) + 1 <= i32::MAX,
            2 * abs_int(half_dim.y as int) + 1 <= i32::MAX,
        ensures
            r.min.x == center.x - abs_int(half_dim.x as int),
            r.min.y == center.y - abs_int(half_dim.y as int),
            r.dimension.x == 2 * abs_int(half_dim.x as int) + 1,
            r.dimension.y == 2 * abs_int(half_dim.y as int) + 1,
    {
        let half_dim = abs(half_dim);
        let min = util::sub(center, half_dim);
        let dimension = i2u(util::add(util::add(half_dim, half_dim), Vector2 { x: 1, y: 1 }));
        Boundary { min, dimension }
    }

    /// Returns boundary from a range on each axis; an unbounded end stands for the
    /// smallest or the largest coordinate.
    pub fn xy(x: (Bound, Bound), y: (Bound, Bound)) -> (r: Boundary)
        requires
            bound_ok(x.0, x.1),
            bound_ok(y.0, y.1),
        ensures
            r == min_max_of(
                Vector2 { x: lower_of(x.0) as i32, y: lower_of(y.0) as i32 },
                Vector2 { x: upper_of(x.1) as i32, y: upper_of(y.1) as i32 },
            ),
    {
        let min_x = lower(x.0);
        let min_y = lower(y.0);
        let max_x = upper(x.1);
        let max_y = upper(y.1);
        Boundary::min_max(Vector2 { x: min_x, y: min_y }, Vector2 { x: max_x, y: max_y })
    }

    /// Move the boundary.
    pub fn displace(&mut self, by: Vector2<i32>)
        requires
            fits_i32(old(self).min.x + by.x),
            fits_i32(old(self).min.y + by.y),
        ensures
            final(self).min.x == old(self).min.x + by.x,
            final(self).min.y == old(self).min.y + by.y,
            final(self).dimension == old(self).dimension,
    {
        self.min = util::add(self.min, by)
    }

    /// Move the boundary.
    pub fn displace_by(&self, by: Vector2<i32>) -> (r: Boundary)
        requires
            fits_i32(self.min.x + by.x),
            fits_i32(self.min.y + by.y),
        ensures
            r.min.x == self.min.x + by.x,
            r.min.y == self.min.y + by.y,
            r.dimension == self.dimension,
    {
        let mut result = *self;
        result.displace(by);
        result
    }

    /// Increase dimension both horizontally and vertically by `by` on each side:
    /// expanding `[0, 0]..=[0, 0]` by `[2, 1]` results in `[-2, -1]..=[2, 1]`.
    /// A negative `by` shrinks, down to no points.
    pub fn expand(&mut self, by: Vector2<i32>)
        requires
            fits_i32(old(self).min.x - by.x),
            fits_i32(old(self).min.y - by.y),
            fits_i32(wrap_i32(old(self).dimension.x as int) + 2 * by.x),
            fits_i32(wrap_i32(old(self).dimension.y as int) + 2 * by.y),
            fits_i32(2 * by.x),
            fits_i32(2 * by.y),
        ensures
            final(self).min.x == old(self).min.x - by.x,
            final(self).min.y == old(self).min.y - by.y,
            final(self).dimension.x == max_int(wrap_i32(old(self).dimension.x as int) + 2 * by.x, 0),
            final(self).dimension.y == max_int(wrap_i32(old(self).dimension.y as int) + 2 * by.y, 0),
    {
        self.min = util::sub(self.min, by);
        let twice = util::add(by, by);
        self.dimension = i2u(util::add(u2i(self.dimension), twice));
    }

    /// Increase dimension both horizontally and vertically, as `expand` does.
    pub fn expand_by(&self, by: Vector2<i32>) -> (r: Boundary)
        requires
            fits_i32(self.min.x - by.x),
            fits_i32(self.min.y - by.y),
            fits_i32(wrap_i32(self.dimension.x as int) + 2 * by.x),
            fits_i32(wrap_i32(self.dimension.y as int) + 2 * by.y),
            fits_i32(2 * by.x),
            fits_i32(2 * by.y),
        ensures
            r == expanded(*self, by),
    {
        let mut result = *self;
        result.expand(by);
        result
    }

    /// Returns `true` if contains a point.
    pub fn contains(&self, position: Vector2<i32>) -> (r: bool)
        ensures
            r == (position.x >= self.min.x && position.y >= self.min.y && position.x < end_of(
                self.min.x,
                self.dimension.x,
            ) && position.y < end_of(self.min.y, self.dimension.y)),
            self.wf() ==> (r == self.has(position.x as int, position.y as int)),
    {
        let end = self.max_non_inclusive();
        position.x >= self.min.x && position.y >= self.min.y && position.x < end.x && position.y
            < end.y
    }

    /// All points of the boundary, row by row.
    pub fn iter(&self) -> (r: Vec<Vector2<i32>>)
        requires
            self.wf(),
            self.area() <= usize::MAX,
        ensures
            r@.len() == self.area(),
            forall|j: int, i: int|
                0 <= j < self.dimension.y && 0 <= i < self.dimension.x ==> #[trigger] r@[j
                    * self.dimension.x + i] == (Vector2::<i32> {
                    x: (self.min.x + i) as i32,
                    y: (self.min.y + j) as i32,
                }),
    {
        let w = self.dimension.x;
        let h = self.dimension.y;
        let mut out: Vec<Vector2<i32>> = Vec::new();
        let mut j: u32 = 0;
        while j < h
            invariant
                w == self.dimension.x,
                h == self.dimension.y,
                self.wf(),
                j <= h,
                out@.len() == j * w,
                forall|jj: int, i: int|
                    0 <= jj < j && 0 <= i < w ==> #[trigger] out@[jj * w + i] == (Vector2::<i32> {
                        x: (self.min.x + i) as i32,
                        y: (self.min.y + jj) as i32,
                    }),
            decreases h - j,
        {
            let mut i: u32 = 0;
            while i < w
                invariant
                    w == self.dimension.x,
                    h == self.dimension.y,
                    self.wf(),
                    j < h,
                    i <= w,
                    out@.len() == j * w + i,
                    forall|jj: int, ii: int|
                        0 <= jj < j && 0 <= ii < w ==> #[trigger] out@[jj * w + ii] == (Vector2::<
                            i32,
                        > { x: (self.min.x + ii) as i32, y: (self.min.y + jj) as i32 }),
                    forall|ii: int|
                        0 <= ii < i ==> #[trigger] out@[j * w + ii] == (Vector2::<i32> {
                            x: (self.min.x + ii) as i32,
                            y: (self.min.y + j) as i32,
                        }),
                decreases w - i,
            {
                proof {
                    assert forall|jj: int, ii: int| 0 <= jj < j && 0 <= ii < w implies #[trigger] (jj
                        * w + ii) < j * w by {
                        lemma_row_before(jj, ii, j as int, w as int);
                    }
                }
                let x = (self.min.x as i64 + i as i64) as i32;
                let y = (self.min.y as i64 + j as i64) as i32;
                out.push(Vector2 { x, y });
                i += 1;
            }
            proof {
                assert((j + 1) * w == j * w + w) by (nonlinear_arith);
            }
            j += 1;
        }
        proof {
            assert(j * w == w * j) by (nonlinear_arith);
        }
        out
    }
}

pub open spec fn abs_int(v: int) -> int {
    if v < 0 {
        -v
    } else {
        v
    }
}

/// `(hi - lo + extra)` reduced into `u32`, as wrapping arithmetic computes it.
pub(crate) fn span(lo: i32, hi: i32, extra: i32) -> (r: u32)
    requires
        0 <= extra <= 1,
    ensures
        r == wrap_u32(hi - lo + extra),
{
    let d: i64 = hi as i64 - lo as i64 + extra as i64;
    if d < 0 {
        (d + 0x1_0000_0000i64) as u32
    } else if d > u32::MAX as i64 {
        (d - 0x1_0000_0000i64) as u32
    } else {
        d as u32
    }
}

fn lower(b: Bound) -> (r: i32)
    requires
        fits_i32(lower_of(b)),
    ensures
        r == lower_of(b),
{
    match b {
        Bound::Included(v) => v,
        Bound::Excluded(v) => v + 1,
        Bound::Unbounded => i32::MIN,
    }
}

fn upper(b: Bound) -> (r: i32)
    requires
        fits_i32(upper_of(b)),
    ensures
        r == upper_of(b),
{
    match b {
        Bound::Included(v) => v,
        Bound::Excluded(v) => v - 1,
        Bound::Unbounded => i32::MAX - 1,
    }
}

impl Default for Boundary {
    fn default() -> (r: Boundary)
        ensures
            r == Boundary::empty_spec(),
    {
        Boundary::empty()
    }
}

/// Types that can be used as a [`Boundary`].
pub trait IntoBoundary {
    spec fn boundary_of(&self) -> Boundary;

    fn into_boundary(self) -> (r: Boundary) where Self: Sized
        ensures
            r == self.boundary_of(),
    ;
}

impl IntoBoundary for Boundary {
    open spec fn boundary_of(&self) -> Boundary {
        *self
    }

    fn into_boundary(self) -> (r: Boundary) {
        self
    }
}

impl IntoBoundary for core::ops::Range<Vector2<i32>> {
    open spec fn boundary_of(&self) -> Boundary {
        min_max_non_inclusive_of(self.start, self.end)
    }

    fn into_boundary(self) -> (r: Boundary) {
        Boundary::min_max_non_inclusive(self.start, self.end)
    }
}

impl IntoBoundary for [u32; 2] {
    open spec fn boundary_of(&self) -> Boundary {
        Boundary { min: Vector2 { x: 0, y: 0 }, dimension: Vector2 { x: self@[0], y: self@[1] } }
    }

    fn into_boundary(self) -> (r: Boundary) {
        Boundary { min: Vector2 { x: 0, y: 0 }, dimension: Vector2 { x: self[0], y: self[1] } }
    }
}

} // verus!

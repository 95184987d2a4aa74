//! Growing, shrinking and moving the boundary of an owned array in place.

use vstd::prelude::*;

use crate::boundary::{expanded, lemma_intersection, span, Boundary};
use crate::core_ops::overlaps;
use crate::storage::{Array2dStorage, Array2dStorageOwned};
use crate::util::{
    self, fits_i32, is_default, lemma_mul_le, lemma_row_before, lemma_slot_unique, max_int, min_int, wrap_i32,
    move_within, Vector2,
};
use crate::GenericArray2d;

verus! {

/// Slot of column `c` of row `r` once rows are spread out at stride `n` from `base`.
spec fn spread(base: int, n: int, r: int, c: int) -> int {
    base + r * n + c
}

/// Slot `k` is the target of one of the rows `from..h` of width `w`.
spec fn placed(k: int, base: int, n: int, w: int, from: int, h: int) -> bool {
    exists|r: int, c: int| from <= r < h && 0 <= c < w && k == #[trigger] spread(base, n, r, c)
}

/// The smallest boundary holding both `a` and `b`; `b` alone where `a` is empty.
pub open spec fn union_of(a: Boundary, b: Boundary) -> Boundary {
    if a.is_empty_spec() {
        b
    } else {
        let lx = min_int(a.min.x as int, b.min.x as int);
        let ly = min_int(a.min.y as int, b.min.y as int);
        let hx = max_int(a.min.x + a.dimension.x, b.min.x + b.dimension.x);
        let hy = max_int(a.min.y + a.dimension.y, b.min.y + b.dimension.y);
        Boundary {
            min: Vector2 { x: lx as i32, y: ly as i32 },
            dimension: Vector2 { x: (hx - lx) as u32, y: (hy - ly) as u32 },
        }
    }
}

/// The boundary after inserting point `(x, y)`: unchanged where it already holds the
/// point, the point alone where it is empty, else the smallest boundary holding both.
pub open spec fn insert_bounds(b: Boundary, x: i32, y: i32) -> Boundary {
    if b.has(x as int, y as int) {
        b
    } else {
        union_of(b, Boundary { min: Vector2 { x, y }, dimension: Vector2 { x: 1, y: 1 } })
    }
}

/// `after` is `before` resized to `boundary`: points of both keep their values, new
/// points hold the default value, and where the layout was already that of `boundary`
/// the storage is untouched.
pub open spec fn resized<S: Array2dStorage>(
    before: GenericArray2d<S>,
    after: GenericArray2d<S>,
    boundary: Boundary,
) -> bool where S::Item: Default {
    &&& after.wf()
    &&& after.bounds() == boundary
    &&& after.stride() == boundary.dimension.x
    &&& forall|x: int, y: int|
        #![trigger after.at(x, y)]
        boundary.has(x, y) && before.bounds().has(x, y) ==> after.at(x, y) == before.at(x, y)
    &&& forall|x: int, y: int|
        #![trigger after.at(x, y)]
        boundary.has(x, y) && !before.bounds().has(x, y) ==> is_default(after.at(x, y))
    &&& before.bounds() == boundary && before.stride() == boundary.dimension.x ==> after.buffer()
        == before.buffer()
}

/// How many of the listed points lie outside `b`.
pub open spec fn count_outside<T>(s: Seq<(Vector2<i32>, T)>, b: Boundary) -> nat
    decreases s.len(),
{
    if s.len() == 0 {
        0
    } else {
        count_outside(s.drop_last(), b) + if b.has(s.last().0.x as int, s.last().0.y as int) {
            0nat
        } else {
            1nat
        }
    }
}

/// Index of the last entry listed at point `(x, y)`, `-1` where there is none.
pub open spec fn last_at<T>(s: Seq<(Vector2<i32>, T)>, x: int, y: int) -> int
    decreases s.len(),
{
    if s.len() == 0 {
        -1
    } else if s.last().0.x == x && s.last().0.y == y {
        s.len() - 1
    } else {
        last_at(s.drop_last(), x, y)
    }
}

/// The smallest boundary holding every listed point, empty where none is listed.
pub open spec fn points_box<T>(s: Seq<(Vector2<i32>, T)>) -> Boundary
    decreases s.len(),
{
    if s.len() == 0 {
        Boundary::empty_spec()
    } else {
        let p = s.last().0;
        let one = Boundary { min: p, dimension: Vector2 { x: 1, y: 1 } };
        union_of(points_box(s.drop_last()), one)
    }
}

proof fn lemma_last_at_range<T>(s: Seq<(Vector2<i32>, T)>, x: int, y: int)
    ensures
        -1 <= last_at(s, x, y) < s.len(),
        last_at(s, x, y) >= 0 ==> s[last_at(s, x, y)].0.x == x && s[last_at(s, x, y)].0.y == y,
    decreases s.len(),
{
    if s.len() > 0 {
        lemma_last_at_range(s.drop_last(), x, y);
    }
}

impl<S: Array2dStorageOwned> GenericArray2d<S> where S::Item: Default {
    /// Sets every slot from `start` on to the default value.
    fn clear_from(&mut self, start: usize)
        ensures
            final(self).bounds() == old(self).bounds(),
            final(self).stride() == old(self).stride(),
            final(self).buffer().len() == old(self).buffer().len(),
            forall|k: int| 0 <= k < start && k < old(self).buffer().len() ==> #[trigger] final(self).buffer()[k] == old(self).buffer()[k],
            forall|k: int| start <= k < old(self).buffer().len() ==> is_default(#[trigger] final(self).buffer()[k]),
    {
        let n = self.data.slice().len();
        let mut k = start;
        while k < n
            invariant
                self.bounds() == old(self).bounds(),
                self.stride() == old(self).stride(),
                n == self.buffer().len(),
                start <= k,
                self.buffer().len() == old(self).buffer().len(),
                forall|j: int| 0 <= j < start && j < n ==> #[trigger] self.buffer()[j] == old(self).buffer()[j],
                forall|j: int| start <= j < k && j < n ==> is_default(#[trigger] self.buffer()[j]),
            decreases n - k,
        {
            let v = self.data.vec_mut();
            v[k] = <S::Item as Default>::default();
            k += 1;
        }
    }

    /// Extends the storage with default values up to `size` slots.
    fn grow_to(&mut self, size: usize)
        ensures
            final(self).bounds() == old(self).bounds(),
            final(self).stride() == old(self).stride(),
            final(self).buffer().len() == if size > old(self).buffer().len() { size as int } else { old(self).buffer().len() as int },
            forall|k: int| 0 <= k < old(self).buffer().len() ==> #[trigger] final(self).buffer()[k] == old(self).buffer()[k],
            forall|k: int| old(self).buffer().len() <= k < final(self).buffer().len() ==> is_default(#[trigger] final(self).buffer()[k]),
    {
        let mut n = self.data.slice().len();
        while n < size
            invariant
                self.bounds() == old(self).bounds(),
                self.stride() == old(self).stride(),
                n == self.buffer().len(),
                old(self).buffer().len() <= n,
                n <= size || n == old(self).buffer().len(),
                forall|k: int| 0 <= k < old(self).buffer().len() ==> #[trigger] self.buffer()[k] == old(self).buffer()[k],
                forall|k: int| old(self).buffer().len() <= k < n ==> is_default(#[trigger] self.buffer()[k]),
            decreases size - n,
        {
            let v = self.data.vec_mut();
            v.push(<S::Item as Default>::default());
            n += 1;
        }
    }

    /// Packs the rows of `kept`, a part of the boundary, densely at the front of the
    /// storage and clears every slot after them.
    fn downsize(&mut self, kept: Boundary)
        requires
            old(self).wf(),
            old(self).bounds().min.x <= kept.min.x,
            old(self).bounds().min.y <= kept.min.y,
            kept.min.x + kept.dimension.x <= old(self).bounds().min.x + old(self).bounds().dimension.x,
            kept.min.y + kept.dimension.y <= old(self).bounds().min.y + old(self).bounds().dimension.y,
        ensures
            final(self).bounds() == old(self).bounds(),
            final(self).stride() == old(self).stride(),
            final(self).buffer().len() == old(self).buffer().len(),
            forall|r: int, c: int|
                0 <= r < kept.dimension.y && 0 <= c < kept.dimension.x ==> #[trigger] final(self).buffer()[r * kept.dimension.x + c]
                    == old(self).at(kept.min.x + c, kept.min.y + r),
            forall|k: int|
                kept.dimension.y * kept.dimension.x <= k < old(self).buffer().len() ==> is_default(
                    #[trigger] final(self).buffer()[k],
                ),
    {
        let ghost o = *old(self);
        let w = kept.pitch();
        let h = kept.dimension.y as usize;
        let op = self.pitch;
        let ghost ox = o.bounds().min.x;
        let ghost oy = o.bounds().min.y;
        let ghost oh = o.bounds().dimension.y as int;
        let ghost ow = o.bounds().dimension.x as int;
        let ghost dx = kept.min.x - ox;
        let ghost dy = kept.min.y - oy;
        let ghost len = o.buffer().len();
        if h == 0 || w == 0 {
            proof {
                assert(kept.dimension.y * kept.dimension.x == 0) by (nonlinear_arith)
                    requires kept.dimension.y == 0 || kept.dimension.x == 0;
            }
            self.clear_from(0);
            return;
        }
        proof {
            assert((dy + (h - 1)) * op <= (oh - 1) * op) by (nonlinear_arith)
                requires dy + (h - 1) <= oh - 1, op >= 0;
            assert(h * w <= (oh - 1) * op + ow) by (nonlinear_arith)
                requires 1 <= h <= oh, w <= ow, ow <= op;
        }
        proof {
            lemma_mul_le(dy, dy + (h - 1), op as int);
        }
        let mut base1: usize = 0;
        let mut base2: usize = util::offset_of(kept.min, self.boundary.min, op);
        let mut r: usize = 0;
        while r < h
            invariant
                self.bounds() == o.bounds(),
                self.stride() == o.stride(),
                o.wf(),
                op == o.stride(),
                w == kept.dimension.x,
                h == kept.dimension.y,
                0 < h,
                0 < w,
                w <= op,
                ox == o.bounds().min.x,
                oy == o.bounds().min.y,
                oh == o.bounds().dimension.y,
                ow == o.bounds().dimension.x,
                dx == kept.min.x - ox,
                dy == kept.min.y - oy,
                0 <= dx,
                0 <= dy,
                dx + w <= ow,
                dy + h <= oh,
                len == o.buffer().len(),
                (dy + (h - 1)) * op <= (oh - 1) * op,
                h * w <= (oh - 1) * op + ow,
                r <= h,
                base1 == r * w,
                r < h ==> base2 == (dy + r) * op + dx,
                self.buffer().len() == len,
                forall|rr: int, c: int|
                    0 <= rr < r && 0 <= c < w ==> #[trigger] self.buffer()[rr * w + c] == o.at(kept.min.x + c, kept.min.y + rr),
                forall|rr: int, c: int|
                    r <= rr < h && 0 <= c < w ==> #[trigger] self.buffer()[(dy + rr) * op + dx + c] == o.buffer()[(dy + rr) * op + dx + c],
            decreases h - r,
        {
            let ghost before = self.buffer();
            proof {
                lemma_mul_le(dy + r, dy + (h - 1), op as int);
                lemma_mul_le(r as int, dy + r, op as int);
                lemma_mul_le(w as int, op as int, r as int);
                assert(r * w == w * r) by (nonlinear_arith);
                assert(r * op == op * r) by (nonlinear_arith);
                assert((r + 1) * w == r * w + w) by (nonlinear_arith);
                assert(r * w + w <= h * w) by (nonlinear_arith) requires r + 1 <= h, w >= 0;
            }
            move_within(self.data.slice_mut(), base2, base1, w);
            proof {
                let after = self.buffer();
                assert forall|rr: int, c: int|
                    0 <= rr <= r && 0 <= c < w implies #[trigger] after[rr * w + c] == o.at(kept.min.x + c, kept.min.y + rr) by {
                    if rr < r {
                        lemma_row_before(rr, c, r as int, w as int);
                    } else {
                        assert(o.slot(kept.min.x + c, kept.min.y + rr) == (dy + rr) * op + dx + c);
                    }
                }
                assert forall|rr: int, c: int|
                    r + 1 <= rr < h && 0 <= c < w implies #[trigger] after[(dy + rr) * op + dx + c] == o.buffer()[(dy + rr) * op + dx + c] by {
                    lemma_mul_le(dy + r + 1, dy + rr, op as int);
                    lemma_mul_le(dy + rr, oh - 1, op as int);
                    lemma_mul_le(r + 1, dy + r + 1, op as int);
                    lemma_mul_le(w as int, op as int, r + 1);
                    assert((dy + r + 1) * op == (dy + r) * op + op) by (nonlinear_arith);
                    assert((r + 1) * op == op * (r + 1)) by (nonlinear_arith);
                    assert((r + 1) * w == w * (r + 1)) by (nonlinear_arith);
                    assert(before[(dy + rr) * op + dx + c] == o.buffer()[(dy + rr) * op + dx + c]);
                }
            }
            base1 += w;
            if r + 1 < h {
                proof {
                    assert((dy + r + 1) * op == (dy + r) * op + op) by (nonlinear_arith);
                    lemma_mul_le(dy + r + 1, oh - 1, op as int);
                }
                base2 += op;
            }
            r += 1;
        }
        let ghost packed = self.buffer();
        self.clear_from(h * w);
        proof {
            assert forall|rr: int, c: int|
                0 <= rr < h && 0 <= c < w implies #[trigger] self.buffer()[rr * w + c] == o.at(kept.min.x + c, kept.min.y + rr) by {
                lemma_row_before(rr, c, h as int, w as int);
                assert(packed[rr * w + c] == o.at(kept.min.x + c, kept.min.y + rr));
            }
        }
    }

    /// Spreads the rows of `from`, packed at the front of the storage, to where they
    /// stand in `to` at stride `to`'s width, last row first so no row is overwritten
    /// before it has moved. Every other slot of `to` ends up default.
    fn upsize(&mut self, from: Boundary, to: Boundary)
        requires
            to.wf(),
            to.min.x <= from.min.x,
            to.min.y <= from.min.y,
            from.min.x + from.dimension.x <= to.min.x + to.dimension.x,
            from.min.y + from.dimension.y <= to.min.y + to.dimension.y,
            to.area() <= old(self).buffer().len(),
            old(self).buffer().len() <= usize::MAX,
            forall|k: int|
                from.dimension.y * from.dimension.x <= k < old(self).buffer().len() ==> is_default(
                    #[trigger] old(self).buffer()[k],
                ),
        ensures
            final(self).bounds() == old(self).bounds(),
            final(self).stride() == old(self).stride(),
            final(self).buffer().len() == old(self).buffer().len(),
            forall|x: int, y: int|
                #![trigger to.has(x, y), from.has(x, y)]
                to.has(x, y) && from.has(x, y) ==> final(self).buffer()[(y - to.min.y) * to.dimension.x
                    + (x - to.min.x)] == old(self).buffer()[(y - from.min.y) * from.dimension.x + (x
                    - from.min.x)],
            forall|x: int, y: int|
                #![trigger to.has(x, y)]
                to.has(x, y) && !from.has(x, y) ==> is_default(
                    final(self).buffer()[(y - to.min.y) * to.dimension.x + (x - to.min.x)],
                ),
    {
        let ghost o = self.buffer();
        let ghost len = o.len();
        let h = from.dimension.y as usize;
        let w = from.pitch();
        let n = to.pitch();
        let ghost ix = from.min.x - to.min.x;
        let ghost iy = from.min.y - to.min.y;
        let ghost nh = to.dimension.y as int;
        if h == 0 || w == 0 {
            proof {
                assert(h * w == 0) by (nonlinear_arith) requires h == 0 || w == 0;
                assert forall|x: int, y: int| to.has(x, y) implies 0 <= #[trigger] ((y - to.min.y) * to.dimension.x + (x - to.min.x)) < len by {
                    lemma_mul_le(y - to.min.y, nh - 1, n as int);
                    assert((nh - 1) * n + n == nh * n) by (nonlinear_arith);
                    lemma_mul_le(0, y - to.min.y, n as int);
                }
            }
            return;
        }
        proof {
            lemma_mul_le(iy, iy + h - 1, n as int);
            lemma_mul_le(iy + h - 1, nh - 1, n as int);
            assert((nh - 1) * n + n == nh * n) by (nonlinear_arith);
            assert(nh * n == to.area()) by (nonlinear_arith) requires nh == to.dimension.y, n == to.dimension.x;
            lemma_mul_le(0, iy, n as int);
        }
        let base = util::offset_of(from.min, to.min, n);
        let mut r: usize = h;
        while r > 0
            invariant
                self.bounds() == old(self).bounds(),
                self.stride() == old(self).stride(),
                o == old(self).buffer(),
                len == o.len(),
                len <= usize::MAX,
                self.buffer().len() == len,
                w == from.dimension.x,
                h == from.dimension.y,
                n == to.dimension.x,
                nh == to.dimension.y,
                0 < w <= n,
                0 < h,
                ix == from.min.x - to.min.x,
                iy == from.min.y - to.min.y,
                0 <= ix,
                0 <= iy,
                ix + w <= n,
                iy + h <= nh,
                base == iy * n + ix,
                (iy + h - 1) * n <= (nh - 1) * n,
                (nh - 1) * n + n <= len,
                r <= h,
                forall|rr: int, c: int|
                    0 <= rr < r && 0 <= c < w ==> #[trigger] self.buffer()[rr * w + c] == o[rr * w + c],
                forall|rr: int, c: int|
                    r <= rr < h && 0 <= c < w ==> self.buffer()[#[trigger] spread(base as int, n as int, rr, c)] == o[rr * w + c],
                forall|k: int|
                    0 <= k < len && r * w <= k && !placed(k, base as int, n as int, w as int, r as int, h as int)
                        ==> is_default(#[trigger] self.buffer()[k]),
            decreases r,
        {
            r -= 1;
            let ghost before = self.buffer();
            proof {
                lemma_mul_le(iy + r, iy + h - 1, n as int);
                assert((iy + r) * n == iy * n + r * n) by (nonlinear_arith);
                lemma_mul_le(w as int, n as int, r as int);
                assert(r * w == w * r && r * n == n * r) by (nonlinear_arith);
                assert((r + 1) * w == r * w + w) by (nonlinear_arith);
                lemma_mul_le(0, r as int, w as int);
            }
            let src = r * w;
            let dst = base + r * n;
            move_within(self.data.slice_mut(), src, dst, w);
            proof {
                let after = self.buffer();
                assert forall|rr: int, c: int|
                    0 <= rr < r && 0 <= c < w implies #[trigger] after[rr * w + c] == o[rr * w + c] by {
                    lemma_row_before(rr, c, r as int, w as int);
                    lemma_mul_le(0, rr, w as int);
                }
                assert forall|rr: int, c: int|
                    r <= rr < h && 0 <= c < w implies after[#[trigger] spread(base as int, n as int, rr, c)] == o[rr * w + c] by {
                    if rr > r {
                        lemma_mul_le(r + 1, rr, n as int);
                        assert((r + 1) * n == r * n + n) by (nonlinear_arith);
                        lemma_mul_le(iy + rr, iy + h - 1, n as int);
                        assert((iy + rr) * n == iy * n + rr * n) by (nonlinear_arith);
                        assert(before[spread(base as int, n as int, rr, c)] == o[rr * w + c]);
                    } else {
                        assert(before[r * w + c] == o[r * w + c]);
                    }
                }
                assert forall|k: int|
                    0 <= k < len && r * w <= k && !placed(k, base as int, n as int, w as int, r as int, h as int)
                        implies is_default(#[trigger] after[k]) by {
                    if dst <= k < dst + w {
                        assert(k == spread(base as int, n as int, r as int, k - dst));
                    } else if src <= k < src + w {
                    } else {
                        if placed(k, base as int, n as int, w as int, r + 1, h as int) {
                            let (rr, c) = choose|rr: int, c: int| r + 1 <= rr < h && 0 <= c < w && k == #[trigger] spread(base as int, n as int, rr, c);
                            assert(k == spread(base as int, n as int, rr, c));
                        }
                        assert(before[k] == after[k]);
                    }
                }
            }
        }
        proof {
            let fin = self.buffer();
            assert forall|x: int, y: int|
                #![trigger to.has(x, y), from.has(x, y)]
                to.has(x, y) && from.has(x, y) implies fin[(y - to.min.y) * to.dimension.x + (x - to.min.x)] == o[(y - from.min.y) * from.dimension.x + (x - from.min.x)] by {
                let rr = y - from.min.y;
                let c = x - from.min.x;
                assert((iy + rr) * n == iy * n + rr * n) by (nonlinear_arith);
                assert(spread(base as int, n as int, rr, c) == (y - to.min.y) * to.dimension.x + (x - to.min.x));
            }
            assert forall|x: int, y: int|
                #![trigger to.has(x, y)]
                to.has(x, y) && !from.has(x, y) implies is_default(fin[(y - to.min.y) * to.dimension.x + (x - to.min.x)]) by {
                let k = (y - to.min.y) * to.dimension.x + (x - to.min.x);
                lemma_mul_le(y - to.min.y, nh - 1, n as int);
                lemma_mul_le(0, y - to.min.y, n as int);
                if placed(k, base as int, n as int, w as int, 0, h as int) {
                    let (rr, c) = choose|rr: int, c: int| 0 <= rr < h && 0 <= c < w && k == #[trigger] spread(base as int, n as int, rr, c);
                    assert((iy + rr) * n == iy * n + rr * n) by (nonlinear_arith);
                    lemma_slot_unique(iy + rr, ix + c, y - to.min.y, x - to.min.x, n as int);
                }
            }
        }
    }

    /// Resize the array to `boundary`. Points in both the old and the new boundary keep
    /// their values, new points hold the default value. Rows move in place; the storage
    /// only grows when the new boundary needs more slots than it has.
    pub fn resize(&mut self, boundary: Boundary)
        requires
            old(self).wf(),
            boundary.wf(),
            boundary.area() <= usize::MAX,
        ensures
            resized(*old(self), *final(self), boundary),
    {
        let ghost o = *old(self);
        if self.boundary == boundary && self.pitch == boundary.pitch() {
            return;
        }
        let size = boundary.len();
        proof {
            assert(boundary.area() == boundary.dimension.y * boundary.dimension.x) by (nonlinear_arith);
            assert((boundary.dimension.y - 1) * boundary.dimension.x + boundary.dimension.x == boundary.dimension.y * boundary.dimension.x) by (nonlinear_arith);
        }
        if self.is_empty() {
            self.data.vec_mut().clear();
            self.grow_to(size);
            self.boundary = boundary;
            self.pitch = boundary.pitch();
            proof {
                assert(self.buffer().len() == size);
                assert((boundary.dimension.y - 1) * boundary.dimension.x + boundary.dimension.x == boundary.dimension.y * boundary.dimension.x) by (nonlinear_arith);
                assert(self.wf());
                assert forall|x: int, y: int| boundary.has(x, y) implies 0 <= #[trigger] self.slot(x, y) < size by {
                    self.lemma_slot(x, y);
                }
            }
            return;
        }
        self.grow_to(size);
        let ghost grown = self.buffer();
        proof {
            lemma_intersection(o.bounds(), boundary);
        }
        match self.boundary.intersection(boundary) {
            None => {
                self.clear_from(0);
                self.boundary = boundary;
                self.pitch = boundary.pitch();
                proof {
                    assert(self.wf());
                    assert forall|x: int, y: int| boundary.has(x, y) implies 0 <= #[trigger] self.slot(x, y) < self.buffer().len() by {
                        self.lemma_slot(x, y);
                    }
                }
            },
            Some(i) => {
                if i != self.boundary || i.pitch() != self.pitch {
                    let ghost g = *self;
                    self.downsize(i);
                    proof {
                        assert forall|r: int, c: int| 0 <= r < i.dimension.y && 0 <= c < i.dimension.x implies #[trigger] self.buffer()[r * i.dimension.x + c] == o.at(i.min.x + c, i.min.y + r) by {
                            o.lemma_slot(i.min.x + c, i.min.y + r);
                            assert(self.buffer()[r * i.dimension.x + c] == g.at(i.min.x + c, i.min.y + r));
                        }
                    }
                } else {
                    proof {
                        assert forall|r: int, c: int| 0 <= r < i.dimension.y && 0 <= c < i.dimension.x implies #[trigger] grown[r * i.dimension.x + c] == o.at(i.min.x + c, i.min.y + r) by {
                            o.lemma_slot(i.min.x + c, i.min.y + r);
                        }
                    }
                    proof {
                        assert(i.area() == (i.dimension.y - 1) * i.dimension.x + i.dimension.x) by (nonlinear_arith);
                    }
                    self.clear_from(i.len());
                    proof {
                        assert(i.area() == i.dimension.y * i.dimension.x) by (nonlinear_arith);
                        assert forall|r: int, c: int| 0 <= r < i.dimension.y && 0 <= c < i.dimension.x implies #[trigger] self.buffer()[r * i.dimension.x + c] == o.at(i.min.x + c, i.min.y + r) by {
                            lemma_row_before(r, c, i.dimension.y as int, i.dimension.x as int);
                        }
                    }
                }
                let ghost packed = self.buffer();
                if i != boundary {
                    self.upsize(i, boundary);
                }
                self.boundary = boundary;
                self.pitch = boundary.pitch();
                proof {
                    assert(self.wf());
                    assert forall|x: int, y: int| #![trigger self.at(x, y)] boundary.has(x, y) implies (if o.bounds().has(x, y) { self.at(x, y) == o.at(x, y) } else { is_default(self.at(x, y)) }) by {
                        self.lemma_slot(x, y);
                        if i.has(x, y) {
                            let r = y - i.min.y;
                            let c = x - i.min.x;
                            assert(packed[r * i.dimension.x + c] == o.at(i.min.x + c, i.min.y + r));
                        }
                    }
                }
            },
        }
    }

    /// Expand the array to hold `boundary` as well; new points hold the default value.
    pub fn resize_containing(&mut self, boundary: Boundary)
        requires
            old(self).wf(),
            boundary.wf(),
            union_of(old(self).bounds(), boundary).area() <= usize::MAX,
        ensures
            final(self).wf(),
            final(self).bounds() == union_of(old(self).bounds(), boundary),
            forall|x: int, y: int|
                #![trigger final(self).at(x, y)]
                old(self).bounds().has(x, y) ==> final(self).at(x, y) == old(self).at(x, y),
            forall|x: int, y: int|
                #![trigger final(self).at(x, y)]
                final(self).bounds().has(x, y) && !old(self).bounds().has(x, y) ==> is_default(
                    final(self).at(x, y),
                ),
    {
        let target = self.union_with(boundary);
        self.resize(target);
    }

    /// The smallest boundary holding the array's boundary and `boundary`.
    fn union_with(&self, boundary: Boundary) -> (r: Boundary)
        requires
            self.wf(),
            boundary.wf(),
        ensures
            r == union_of(self.bounds(), boundary),
            r.wf(),
            forall|x: int, y: int| #![trigger r.has(x, y)] self.bounds().has(x, y) ==> r.has(x, y),
            forall|x: int, y: int| #![trigger r.has(x, y)] boundary.has(x, y) ==> r.has(x, y),
    {
        if self.boundary.is_empty() {
            boundary
        } else {
            let min = util::vec_min(self.boundary.min, boundary.min);
            let max = util::vec_max(self.boundary.max_non_inclusive(), boundary.max_non_inclusive());
            let dimension = Vector2 { x: span(min.x, max.x, 0), y: span(min.y, max.y, 0) };
            Boundary { min, dimension }
        }
    }

    /// Insert a value at a point, growing the array to hold the point where needed; the
    /// points added hold the default value.
    pub fn insert(&mut self, position: Vector2<i32>, value: S::Item)
        requires
            old(self).wf(),
            position.x < i32::MAX,
            position.y < i32::MAX,
            insert_bounds(old(self).bounds(), position.x, position.y).area() <= usize::MAX,
        ensures
            final(self).wf(),
            final(self).bounds() == insert_bounds(old(self).bounds(), position.x, position.y),
            final(self).at(position.x as int, position.y as int) == value,
            forall|x: int, y: int|
                #![trigger final(self).at(x, y)]
                old(self).bounds().has(x, y) && (x != position.x || y != position.y) ==> final(self).at(x, y) == old(self).at(x, y),
            forall|x: int, y: int|
                #![trigger final(self).at(x, y)]
                final(self).bounds().has(x, y) && !old(self).bounds().has(x, y) && (x != position.x || y != position.y) ==> is_default(final(self).at(x, y)),
    {
        let point = Boundary::from_point(position);
        let target = if self.boundary.contains(position) { self.boundary } else { self.union_with(point) };
        self.resize(target);
        let ghost mid = *self;
        self.set(position, value);
        proof {
            mid.lemma_slot(position.x as int, position.y as int);
            assert forall|x: int, y: int| #![trigger self.at(x, y)] mid.bounds().has(x, y) && (x != position.x || y != position.y) implies self.at(x, y) == mid.at(x, y) by {
                mid.lemma_slot(x, y);
                if mid.slot(x, y) == mid.slot(position.x as int, position.y as int) {
                    mid.lemma_slot_distinct(x, y, position.x as int, position.y as int);
                }
            }
        }
    }

    /// Grow or shrink the array by `by` on every side; points kept keep their values.
    pub fn expand(&mut self, by: Vector2<i32>)
        requires
            old(self).wf(),
            fits_i32(old(self).bounds().min.x - by.x),
            fits_i32(old(self).bounds().min.y - by.y),
            fits_i32(wrap_i32(old(self).bounds().dimension.x as int) + 2 * by.x),
            fits_i32(wrap_i32(old(self).bounds().dimension.y as int) + 2 * by.y),
            fits_i32(2 * by.x),
            fits_i32(2 * by.y),
            expanded(old(self).bounds(), by).wf(),
            expanded(old(self).bounds(), by).area() <= usize::MAX,
        ensures
            final(self).wf(),
            final(self).bounds() == expanded(old(self).bounds(), by),
            forall|x: int, y: int|
                #![trigger final(self).at(x, y)]
                final(self).bounds().has(x, y) && old(self).bounds().has(x, y) ==> final(self).at(x, y) == old(self).at(x, y),
            forall|x: int, y: int|
                #![trigger final(self).at(x, y)]
                final(self).bounds().has(x, y) && !old(self).bounds().has(x, y) ==> is_default(final(self).at(x, y)),
    {
        let target = self.boundary.expand_by(by);
        self.resize(target);
    }

    /// Grow the array to hold both boundaries and copy `array` onto it.
    pub fn merge<U: Array2dStorage<Item = S::Item>>(&mut self, array: &GenericArray2d<U>) where S::Item: Clone
        requires
            old(self).wf(),
            array.wf(),
            union_of(old(self).bounds(), array.bounds()).area() <= usize::MAX,
        ensures
            final(self).wf(),
            final(self).bounds() == union_of(old(self).bounds(), array.bounds()),
            forall|x: int, y: int|
                #![trigger final(self).at(x, y)]
                array.bounds().has(x, y) ==> cloned(array.at(x, y), final(self).at(x, y)),
            forall|x: int, y: int|
                #![trigger final(self).at(x, y)]
                old(self).bounds().has(x, y) && !array.bounds().has(x, y) ==> final(self).at(x, y) == old(self).at(x, y),
            forall|x: int, y: int|
                #![trigger final(self).at(x, y)]
                final(self).bounds().has(x, y) && !old(self).bounds().has(x, y) && !array.bounds().has(x, y) ==> is_default(final(self).at(x, y)),
    {
        self.resize_containing(array.boundary);
        let ghost mid = *self;
        let copy = |_a: &S::Item, b: &S::Item| -> (r: S::Item)
            ensures
                cloned(*b, r),
        {
            b.clone()
        };
        proof {
            lemma_intersection(mid.bounds(), array.bounds());
            assert(array.bounds().displaced_spec(Vector2 { x: 0, y: 0 }) == array.bounds());
        }
        self.paint(array, Vector2 { x: 0, y: 0 }, copy);
        proof {
            assert forall|x: int, y: int| #![trigger self.at(x, y)] array.bounds().has(x, y) implies cloned(array.at(x, y), self.at(x, y)) by {
                assert(mid.bounds().has(x, y));
                assert(overlaps(mid.bounds(), array.bounds().displaced_spec(Vector2 { x: 0, y: 0 }), x, y));
            }
            assert forall|x: int, y: int| #![trigger self.at(x, y)] mid.bounds().has(x, y) && !array.bounds().has(x, y) implies self.at(x, y) == mid.at(x, y) by {
                assert(!overlaps(mid.bounds(), array.bounds().displaced_spec(Vector2 { x: 0, y: 0 }), x, y));
            }
        }
    }

    /// Writes each listed value at its point, later entries over earlier ones; points
    /// outside the boundary are skipped. Returns how many were skipped.
    pub fn try_extend(&mut self, positions: Vec<(Vector2<i32>, S::Item)>) -> (r: usize)
        requires
            old(self).wf(),
        ensures
            r == count_outside(positions@, old(self).bounds()),
            final(self).wf(),
            final(self).bounds() == old(self).bounds(),
            forall|x: int, y: int|
                #![trigger final(self).at(x, y)]
                old(self).bounds().has(x, y) ==> if last_at(positions@, x, y) >= 0 {
                    final(self).at(x, y) == positions@[last_at(positions@, x, y)].1
                } else {
                    final(self).at(x, y) == old(self).at(x, y)
                },
    {
        let ghost o = *old(self);
        let ghost list = positions@;
        let mut positions = positions;
        let n = positions.len();
        let mut discards: usize = 0;
        let mut i: usize = 0;
        while i < n
            invariant
                o.wf(),
                self.wf(),
                self.bounds() == o.bounds(),
                self.stride() == o.stride(),
                n == list.len(),
                positions@.len() == n,
                i <= n,
                forall|j: int| i <= j < n ==> #[trigger] positions@[j] == list[j],
                discards == count_outside(list.take(i as int), o.bounds()),
                discards <= i,
                forall|x: int, y: int|
                    #![trigger self.at(x, y)]
                    o.bounds().has(x, y) ==> if last_at(list.take(i as int), x, y) >= 0 {
                        self.at(x, y) == list[last_at(list.take(i as int), x, y)].1
                    } else {
                        self.at(x, y) == o.at(x, y)
                    },
            decreases n - i,
        {
            let mut entry = (Vector2 { x: 0, y: 0 }, <S::Item as Default>::default());
            std::mem::swap(&mut positions[i], &mut entry);
            let (point, item) = entry;
            let ghost before = *self;
            proof {
                assert(list.take(i + 1).drop_last() =~= list.take(i as int));
                assert(list.take(i + 1).last() == list[i as int]);
            }
            if self.set(point, item) {
                proof {
                    assert forall|x: int, y: int| #![trigger self.at(x, y)] o.bounds().has(x, y) && (x != point.x || y != point.y) implies self.at(x, y) == before.at(x, y) by {
                        before.lemma_slot(x, y);
                        before.lemma_slot(point.x as int, point.y as int);
                        if before.slot(x, y) == before.slot(point.x as int, point.y as int) {
                            before.lemma_slot_distinct(x, y, point.x as int, point.y as int);
                        }
                    }
                    before.lemma_slot(point.x as int, point.y as int);
                }
            } else {
                discards += 1;
            }
            proof {
                let t = list.take(i + 1);
                assert(t.drop_last() =~= list.take(i as int));
                assert(t.last() == list[i as int]);
                assert(point == list[i as int].0 && item == list[i as int].1);
                assert forall|x: int, y: int| #![trigger self.at(x, y)] o.bounds().has(x, y) implies (if last_at(list.take(i + 1), x, y) >= 0 {
                        self.at(x, y) == list[last_at(list.take(i + 1), x, y)].1
                    } else {
                        self.at(x, y) == o.at(x, y)
                    }) by {
                    lemma_last_at_range(list.take(i as int), x, y);
                    if point.x == x && point.y == y {
                        assert(last_at(t, x, y) == i);
                        before.lemma_slot(x, y);
                    } else {
                        assert(last_at(t, x, y) == last_at(list.take(i as int), x, y));
                        assert(self.at(x, y) == before.at(x, y));
                    }
                }
                assert(count_outside(t, o.bounds()) == count_outside(list.take(i as int), o.bounds()) + if o.bounds().has(point.x as int, point.y as int) { 0nat } else { 1nat });
            }
            i += 1;
        }
        proof {
            assert(list.take(n as int) =~= list);
        }
        discards
    }

    /// Grows the array to hold every listed point, then writes each listed value at its
    /// point, later entries over earlier ones.
    pub fn extend(&mut self, positions: Vec<(Vector2<i32>, S::Item)>)
        requires
            old(self).wf(),
            forall|j: int| 0 <= j < positions@.len() ==> #[trigger] positions@[j].0.x < i32::MAX && positions@[j].0.y < i32::MAX,
            union_of(old(self).bounds(), points_box(positions@)).area() <= usize::MAX,
        ensures
            final(self).wf(),
            positions@.len() > 0 ==> final(self).bounds() == union_of(old(self).bounds(), points_box(positions@)),
            positions@.len() == 0 ==> final(self).bounds() == old(self).bounds(),
            forall|x: int, y: int|
                #![trigger final(self).at(x, y)]
                final(self).bounds().has(x, y) ==> if last_at(positions@, x, y) >= 0 {
                    final(self).at(x, y) == positions@[last_at(positions@, x, y)].1
                } else if old(self).bounds().has(x, y) {
                    final(self).at(x, y) == old(self).at(x, y)
                } else {
                    is_default(final(self).at(x, y))
                },
    {
        let n = positions.len();
        if n == 0 {
            let _ = self.try_extend(positions);
            return;
        }
        let mut lo = positions[0].0;
        let mut hi = positions[0].0;
        let mut i: usize = 1;
        proof {
            assert(positions@.take(1).drop_last() =~= Seq::<(Vector2<i32>, S::Item)>::empty());
            assert(positions@.take(1).last() == positions@[0]);
            assert(points_box(positions@.take(1).drop_last()) == Boundary::empty_spec());
        }
        while i < n
            invariant
                n == positions@.len(),
                1 <= i <= n,
                forall|j: int| 0 <= j < n ==> #[trigger] positions@[j].0.x < i32::MAX && positions@[j].0.y < i32::MAX,
                hi.x < i32::MAX,
                hi.y < i32::MAX,
                lo.x <= hi.x,
                lo.y <= hi.y,
                points_box(positions@.take(i as int)) == (Boundary {
                    min: lo,
                    dimension: Vector2 { x: (hi.x - lo.x + 1) as u32, y: (hi.y - lo.y + 1) as u32 },
                }),
            decreases n - i,
        {
            proof {
                assert(positions@.take(i + 1).drop_last() =~= positions@.take(i as int));
                assert(positions@.take(i + 1).last() == positions@[i as int]);
            }
            let p = positions[i].0;
            lo = util::vec_min(lo, p);
            hi = util::vec_max(hi, p);
            i += 1;
        }
        proof {
            assert(positions@.take(n as int) =~= positions@);
        }
        let boundary = Boundary::min_max(lo, hi);
        self.resize_containing(boundary);
        let _ = self.try_extend(positions);
    }
}

} // verus!

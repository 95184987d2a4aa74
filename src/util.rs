//! Integer-pair arithmetic and the overlap-safe block move.

use vstd::prelude::*;

verus! {

/// A pair of coordinates or extents.
#[derive(Clone, Copy, Debug, PartialEq, Eq, Structural)]
pub struct Vector2<T> {
    pub x: T,
    pub y: T,
}

impl<T> Vector2<T> {
    pub fn new(x: T, y: T) -> (r: Vector2<T>)
        ensures
            r.x == x,
            r.y == y,
    {
        Vector2 { x, y }
    }
}

/// `v` reduced into the range of `i32`, as two's complement wrapping does.
pub open spec fn wrap_i32(v: int) -> int {
    if v > i32::MAX {
        v - 0x1_0000_0000
    } else if v < i32::MIN {
        v + 0x1_0000_0000
    } else {
        v
    }
}

/// `v` reduced into the range of `u32`.
pub open spec fn wrap_u32(v: int) -> int {
    if v < 0 {
        v + 0x1_0000_0000
    } else if v > u32::MAX {
        v - 0x1_0000_0000
    } else {
        v
    }
}

pub open spec fn min_int(a: int, b: int) -> int {
    if a <= b {
        a
    } else {
        b
    }
}

pub open spec fn max_int(a: int, b: int) -> int {
    if a >= b {
        a
    } else {
        b
    }
}

/// True when `v` is a value that `T::default()` hands back.
pub open spec fn is_default<T: Default>(v: T) -> bool {
    call_ensures(T::default, (), v)
}

pub open spec fn fits_i32(v: int) -> bool {
    i32::MIN <= v <= i32::MAX
}

pub fn add(left: Vector2<i32>, right: Vector2<i32>) -> (r: Vector2<i32>)
    requires
        fits_i32(left.x + right.x),
        fits_i32(left.y + right.y),
    ensures
        r.x == left.x + right.x,
        r.y == left.y + right.y,
{
    Vector2 { x: left.x + right.x, y: left.y + right.y }
}

/// Wrapping addition of an extent to a point.
pub fn addu(left: Vector2<i32>, right: Vector2<u32>) -> (r: Vector2<i32>)
    ensures
        r.x == wrap_i32(left.x + right.x),
        r.y == wrap_i32(left.y + right.y),
{
    Vector2 { x: wrap_add_u(left.x, right.x), y: wrap_add_u(left.y, right.y) }
}

fn wrap_add_u(a: i32, b: u32) -> (r: i32)
    ensures
        r == wrap_i32(a + b),
{
    let v: i64 = a as i64 + b as i64;
    if v > i32::MAX as i64 {
        (v - 0x1_0000_0000i64) as i32
    } else {
        v as i32
    }
}

pub fn sub(left: Vector2<i32>, right: Vector2<i32>) -> (r: Vector2<i32>)
    requires
        fits_i32(left.x - right.x),
        fits_i32(left.y - right.y),
    ensures
        r.x == left.x - right.x,
        r.y == left.y - right.y,
{
    Vector2 { x: left.x - right.x, y: left.y - right.y }
}

pub fn vec_min(left: Vector2<i32>, right: Vector2<i32>) -> (r: Vector2<i32>)
    ensures
        r.x == min_int(left.x as int, right.x as int),
        r.y == min_int(left.y as int, right.y as int),
{
    Vector2 {
        x: if left.x <= right.x { left.x } else { right.x },
        y: if left.y <= right.y { left.y } else { right.y },
    }
}

pub fn vec_max(left: Vector2<i32>, right: Vector2<i32>) -> (r: Vector2<i32>)
    ensures
        r.x == max_int(left.x as int, right.x as int),
        r.y == max_int(left.y as int, right.y as int),
{
    Vector2 {
        x: if left.x >= right.x { left.x } else { right.x },
        y: if left.y >= right.y { left.y } else { right.y },
    }
}

/// Reinterprets extents as signed values, wrapping those above `i32::MAX`.
pub fn u2i(v: Vector2<u32>) -> (r: Vector2<i32>)
    ensures
        r.x == wrap_i32(v.x as int),
        r.y == wrap_i32(v.y as int),
{
    Vector2 { x: u_to_i(v.x), y: u_to_i(v.y) }
}

fn u_to_i(v: u32) -> (r: i32)
    ensures
        r == wrap_i32(v as int),
{
    if v > i32::MAX as u32 {
        (v as i64 - 0x1_0000_0000i64) as i32
    } else {
        v as i32
    }
}

/// Clamps negative components to zero.
pub fn i2u(v: Vector2<i32>) -> (r: Vector2<u32>)
    ensures
        r.x == max_int(v.x as int, 0),
        r.y == max_int(v.y as int, 0),
{
    Vector2 {
        x: if v.x > 0 { v.x as u32 } else { 0 },
        y: if v.y > 0 { v.y as u32 } else { 0 },
    }
}

pub fn abs(v: Vector2<i32>) -> (r: Vector2<i32>)
    requires
        v.x != i32::MIN,
        v.y != i32::MIN,
    ensures
        r.x == (if v.x < 0 { -v.x } else { v.x as int }),
        r.y == (if v.y < 0 { -v.y } else { v.y as int }),
{
    Vector2 {
        x: if v.x < 0 { -v.x } else { v.x },
        y: if v.y < 0 { -v.y } else { v.y },
    }
}

/// Linear offset of `pos` in a row-major buffer whose first slot holds `origin`.
pub fn offset_of(pos: Vector2<i32>, origin: Vector2<i32>, pitch: usize) -> (r: usize)
    requires
        origin.x <= pos.x,
        origin.y <= pos.y,
        (pos.y - origin.y) * pitch + (pos.x - origin.x) <= usize::MAX,
    ensures
        r == (pos.y - origin.y) * pitch + (pos.x - origin.x),
{
    let dx: u64 = (pos.x as i64 - origin.x as i64) as u64;
    let dy: u64 = (pos.y as i64 - origin.y as i64) as u64;
    proof {
        assert(dy * pitch <= (pos.y - origin.y) * pitch + (pos.x - origin.x));
    }
    dy as usize * pitch + dx as usize
}

/// `a <= b` scales by a non-negative factor.
pub(crate) proof fn lemma_mul_le(a: int, b: int, w: int)
    requires
        a <= b,
        0 <= w,
    ensures
        a * w <= b * w,
{
    assert(a * w <= b * w) by (nonlinear_arith)
        requires
            a <= b,
            0 <= w,
    ;
}

/// Rows and columns of a row-major layout name each slot once.
pub(crate) proof fn lemma_slot_unique(a: int, b: int, c: int, d: int, n: int)
    requires
        0 <= b < n,
        0 <= d < n,
        a * n + b == c * n + d,
    ensures
        a == c,
        b == d,
{
    if a < c {
        lemma_mul_le(a + 1, c, n);
        assert((a + 1) * n == a * n + n) by (nonlinear_arith);
    } else if c < a {
        lemma_mul_le(c + 1, a, n);
        assert((c + 1) * n == c * n + n) by (nonlinear_arith);
    }
}

/// A slot of an earlier row lies before the start of a later row.
pub(crate) proof fn lemma_row_before(a: int, c: int, b: int, w: int)
    requires
        0 <= a < b,
        0 <= c < w,
    ensures
        a * w + c < b * w,
        a * w + c >= 0,
{
    assert(a * w + c < b * w) by (nonlinear_arith)
        requires
            0 <= a < b,
            0 <= c < w,
    ;
    assert(a * w >= 0) by (nonlinear_arith)
        requires
            0 <= a,
            0 <= w,
    ;
}

/// Where the slot `k` of a buffer stands after `len` items moved from `from` to `to`.
pub open spec fn moved<T: Default>(
    before: Seq<T>,
    after: Seq<T>,
    from: int,
    to: int,
    len: int,
) -> bool {
    &&& after.len() == before.len()
    &&& forall|i: int| 0 <= i < len ==> #[trigger] after[to + i] == before[from + i]
    &&& forall|k: int|
        0 <= k < before.len() && !(to <= k < to + len) ==> (if from <= k < from + len {
            is_default(#[trigger] after[k])
        } else {
            after[k] == before[k]
        })
}

/// Moves `len` items from `from` to `to` inside one buffer, also where the two ranges
/// overlap. Each slot that is moved out of and not written again holds a default value.
pub fn move_within<T: Default>(slice: &mut [T], from: usize, to: usize, len: usize)
    requires
        from + len <= old(slice)@.len(),
        to + len <= old(slice)@.len(),
    ensures
        from != to ==> moved(old(slice)@, final(slice)@, from as int, to as int, len as int),
        from == to ==> final(slice)@ == old(slice)@,
{
    let n = slice.len();
    if from == to {
    } else if to < from || from + len <= to {
        let mut i: usize = 0;
        while i < len
            invariant
                from != to,
                to < from || from + len <= to,
                n == slice@.len(),
                from + len <= slice@.len(),
                to + len <= slice@.len(),
                i <= len,
                slice@.len() == old(slice)@.len(),
                forall|j: int| 0 <= j < i ==> #[trigger] slice@[to + j] == old(slice)@[from + j],
                forall|k: int|
                    0 <= k < slice@.len() && !(to <= k < to + i) ==> (if from <= k < from + i {
                        is_default(#[trigger] slice@[k])
                    } else {
                        slice@[k] == old(slice)@[k]
                    }),
            decreases len - i,
        {
            let mut item = T::default();
            std::mem::swap(&mut slice[from + i], &mut item);
            slice[to + i] = item;
            i += 1;
        }
    } else {
        let mut i: usize = len;
        while i > 0
            invariant
                from < to < from + len,
                to + len <= slice@.len(),
                n == slice@.len(),
                i <= len,
                slice@.len() == old(slice)@.len(),
                forall|j: int| i <= j < len ==> #[trigger] slice@[to + j] == old(slice)@[from + j],
                forall|k: int|
                    0 <= k < slice@.len() && !(to + i <= k < to + len) ==> (if from + i <= k
                        < from + len {
                        is_default(#[trigger] slice@[k])
                    } else {
                        slice@[k] == old(slice)@[k]
                    }),
            decreases i,
        {
            i -= 1;
            let mut item = T::default();
            std::mem::swap(&mut slice[from + i], &mut item);
            slice[to + i] = item;
        }
    }
}

} // verus!

use std::fmt::Debug;

use garray2d::{Array2d, Bound, Boundary, IntoBoundary, Vector2};

fn iter_eq<T: PartialEq + Debug>(a: impl IntoIterator<Item = T>, b: impl IntoIterator<Item = T>) {
    let a = a.into_iter();
    let mut b = b.into_iter();
    for v in a {
        assert_eq!(Some(v), b.next());
    }
    assert!(b.next().is_none())
}

fn v(x: i32, y: i32) -> Vector2<i32> {
    Vector2::new(x, y)
}

/// `a..b`
fn ex(a: i32, b: i32) -> (Bound, Bound) {
    (Bound::Included(a), Bound::Excluded(b))
}

/// `a..=b`
fn inc(a: i32, b: i32) -> (Bound, Bound) {
    (Bound::Included(a), Bound::Included(b))
}

#[test]
pub fn boundary() {
    iter_eq(Boundary::empty().iter(), []);

    iter_eq(
        Boundary::min_max(v(1, 1), v(2, 3)).iter(),
        [v(1, 1), v(2, 1), v(1, 2), v(2, 2), v(1, 3), v(2, 3)],
    );
}

#[test]
pub fn create() {
    let arr = Array2d::init(Boundary::xy(ex(-1, 2), ex(-1, 3)), |v: Vector2<i32>| v);
    assert_eq!(arr.len(), 12);
    assert_eq!(arr.width(), 3);
    assert_eq!(arr.height(), 4);

    let arr = Array2d::init(Boundary::xy(inc(-1, 2), inc(-1, 3)), |v: Vector2<i32>| v);
    assert_eq!(arr.len(), 20);
    assert_eq!(arr.width(), 4);
    assert_eq!(arr.height(), 5);

    let arr = Array2d::init((v(1, 4)..v(7, 12)).into_boundary(), |v: Vector2<i32>| v);
    assert_eq!(arr.len(), 48);
    assert_eq!(arr.width(), 6);
    assert_eq!(arr.height(), 8);

    let arr = Array2d::init(Boundary::min_max(v(1, 4), v(7, 12)), |v: Vector2<i32>| v);
    assert_eq!(arr.len(), 63);
    assert_eq!(arr.width(), 7);
    assert_eq!(arr.height(), 9);

    let arr = Array2d::init(Boundary::min_max(v(1, 2), v(4, 3)), |v: Vector2<i32>| v);
    assert_eq!(arr.len(), 8);
    assert_eq!(arr.width(), 4);
    assert_eq!(arr.height(), 2);

    let arr = Array2d::init(Boundary::center_hdim(v(0, 0), v(3, 4)), |v: Vector2<i32>| v);
    assert_eq!(arr.len(), 63);
    assert_eq!(arr.width(), 7);
    assert_eq!(arr.height(), 9);

    let arr = Array2d::init(Boundary::min_dim(v(0, 0), v(1, 4)), |v: Vector2<i32>| v);
    assert_eq!(arr.len(), 4);
    assert_eq!(arr.width(), 1);
    assert_eq!(arr.height(), 4);
}

#[test]
pub fn getters() {
    let arr = Array2d::init(Boundary::xy(inc(0, 0), ex(0, 5)), |v: Vector2<i32>| v.y);
    assert_eq!(arr.get(v(0, -1)).copied(), None);
    assert_eq!(arr.get(v(0, 0)).copied(), Some(0));
    assert_eq!(arr.get(v(0, 1)).copied(), Some(1));
    assert_eq!(arr.get(v(0, 2)).copied(), Some(2));
    assert_eq!(arr.get(v(0, 3)).copied(), Some(3));
    assert_eq!(arr.get(v(0, 4)).copied(), Some(4));
    assert_eq!(arr.get(v(0, 5)).copied(), None);

    assert_eq!(arr.get(v(-1, 0)).copied(), None);
    assert_eq!(arr.get(v(-1, 1)).copied(), None);
    assert_eq!(arr.get(v(-1, 2)).copied(), None);
    assert_eq!(arr.get(v(-1, 3)).copied(), None);
    assert_eq!(arr.get(v(-1, 4)).copied(), None);

    assert_eq!(arr.get(v(1, 0)).copied(), None);
    assert_eq!(arr.get(v(1, 1)).copied(), None);
    assert_eq!(arr.get(v(1, 2)).copied(), None);
    assert_eq!(arr.get(v(1, 3)).copied(), None);
    assert_eq!(arr.get(v(1, 4)).copied(), None);

    let arr = Array2d::init(Boundary::min_max(v(-1, -1), v(1, 1)), |v: Vector2<i32>| {
        v.x * 7 + v.y * 5
    });
    assert_eq!(arr.len(), 9);
    assert_eq!(arr.get(v(-1, -1)).copied(), Some(-12));
    assert_eq!(arr.get(v(-1, 0)).copied(), Some(-7));
    assert_eq!(arr.get(v(-1, 1)).copied(), Some(-2));
    assert_eq!(arr.get(v(0, 0)).copied(), Some(0));
    assert_eq!(arr.get(v(1, -1)).copied(), Some(2));
    assert_eq!(arr.get(v(1, 1)).copied(), Some(12));
    assert_eq!(arr.get(v(-2, 0)).copied(), None);
    assert_eq!(arr.get(v(2, 0)).copied(), None);
    assert_eq!(arr.get(v(0, -2)).copied(), None);
    assert_eq!(arr.get(v(0, 2)).copied(), None);

    let arr = Array2d::init(Boundary::xy(ex(0, 3), ex(0, 2)), |v: Vector2<i32>| v);
    assert_eq!(arr.len(), 6);

    assert_eq!(arr.get(v(2, 1)).copied(), Some(v(2, 1)));
    assert_eq!(arr.get(v(0, 0)).copied(), Some(v(0, 0)));
    assert_eq!(arr.get(v(-1, 2)).copied(), None);
    assert_eq!(arr.get(v(1, 2)).copied(), None);

    let arr = Array2d::init(Boundary::min_max(v(-1, -1), v(1, 1)), |v: Vector2<i32>| {
        v.x * 7 + v.y * 5
    });
    let slice_1 = arr.get_region(Boundary::xy(inc(0, 1), inc(0, 1))).unwrap();
    iter_eq(
        slice_1.iter(),
        [(v(0, 0), &0), (v(1, 0), &7), (v(0, 1), &5), (v(1, 1), &12)],
    );

    assert!(arr.get_region(Boundary::xy(inc(0, 2), inc(0, 2))).is_none());

    let arr = Array2d::init(Boundary::min_max(v(0, 0), v(8, 5)), |v: Vector2<i32>| {
        v.x * 7 + v.y * 5
    });
    let slice_1 = arr.get_region(Boundary::min_max(v(4, 4), v(7, 5))).unwrap();
    iter_eq(
        slice_1.iter(),
        [
            (v(4, 4), &48),
            (v(5, 4), &55),
            (v(6, 4), &62),
            (v(7, 4), &69),
            (v(4, 5), &53),
            (v(5, 5), &60),
            (v(6, 5), &67),
            (v(7, 5), &74),
        ],
    );
}

#[test]
pub fn resize() {
    let mut arr = Array2d::init(Boundary::xy(inc(0, 0), ex(0, 5)), |v: Vector2<i32>| v.y);
    arr.resize(Boundary::xy(inc(-1, 2), ex(0, 6)));
    iter_eq(
        arr.rows(),
        [
            &[0, 0, 0, 0],
            &[0, 1, 0, 0],
            &[0, 2, 0, 0],
            &[0, 3, 0, 0],
            &[0, 4, 0, 0],
            &[0, 0, 0, 0],
        ] as [&[_]; 6],
    );

    let mut arr = Array2d::init(Boundary::xy(ex(0, 5), inc(0, 0)), |v: Vector2<i32>| v.x);
    arr.resize(Boundary::xy(ex(-1, 6), inc(-1, 2)));
    iter_eq(
        arr.rows(),
        [
            &[0, 0, 0, 0, 0, 0, 0],
            &[0, 0, 1, 2, 3, 4, 0],
            &[0, 0, 0, 0, 0, 0, 0],
            &[0, 0, 0, 0, 0, 0, 0],
        ] as [&[_]; 4],
    );

    let mut arr = Array2d::init(Boundary::xy(inc(0, 5), inc(0, 1)), |v: Vector2<i32>| v.x);
    arr.resize(Boundary::xy(inc(1, 3), inc(-2, 1)));

    iter_eq(
        arr.rows(),
        [&[0, 0, 0], &[0, 0, 0], &[1, 2, 3], &[1, 2, 3]] as [&[_]; 4],
    );

    let mut arr = Array2d::init(Boundary::xy(inc(0, 1), inc(0, 5)), |v: Vector2<i32>| v.y);
    arr.resize(Boundary::xy(inc(-2, 1), inc(1, 3)));

    iter_eq(
        arr.rows(),
        [&[0, 0, 1, 1], &[0, 0, 2, 2], &[0, 0, 3, 3]] as [&[_]; 3],
    );

    let mut arr = Array2d::init(Boundary::xy(inc(1, 5), inc(0, 2)), |v: Vector2<i32>| v.x);
    arr.resize(Boundary::xy(inc(2, 4), inc(2, 4)));

    iter_eq(
        arr.rows(),
        [&[2, 3, 4], &[0, 0, 0], &[0, 0, 0]] as [&[_]; 3],
    );

    let mut arr = Array2d::init(Boundary::min_max(v(-1, -1), v(1, 1)), |v: Vector2<i32>| v.x);
    arr.resize(Boundary::min_max(v(-2, -2), v(2, 2)));
    iter_eq(
        arr.rows(),
        [
            &[0, 0, 0, 0, 0],
            &[0, -1, 0, 1, 0],
            &[0, -1, 0, 1, 0],
            &[0, -1, 0, 1, 0],
            &[0, 0, 0, 0, 0],
        ] as [&[_]; 5],
    );

    let mut arr = Array2d::init(Boundary::min_max(v(-1, -1), v(1, 1)), |v: Vector2<i32>| v.y);
    arr.resize(Boundary::min_max(v(0, 0), v(0, 1)));
    iter_eq(arr.rows(), [&[0], &[1]] as [&[_]; 2]);
}

#[test]
pub fn insert() {
    let mut a = Array2d::<u32>::default();

    a.insert(v(4, 5), 2);

    assert_eq!(a.width(), 1);
    assert_eq!(a.height(), 1);
    assert_eq!(a.len(), 1);
    assert_eq!(a.fetch(v(4, 5)), 2);

    a.insert(v(5, 7), 4);

    assert_eq!(a.width(), 2);
    assert_eq!(a.height(), 3);
    assert_eq!(a.len(), 6);
    assert_eq!(a.fetch(v(4, 5)), 2);
    assert_eq!(a.fetch(v(5, 7)), 4);
    assert_eq!(a.fetch(v(5, 3)), 0);

    a.insert(v(5, 3), 3);

    assert_eq!(a.width(), 2);
    assert_eq!(a.height(), 5);
    assert_eq!(a.len(), 10);
    assert_eq!(a.fetch(v(4, 5)), 2);
    assert_eq!(a.fetch(v(5, 7)), 4);
    assert_eq!(a.fetch(v(5, 3)), 3);

    a.insert(v(4, 4), 3);

    assert_eq!(a.width(), 2);
    assert_eq!(a.height(), 5);
    assert_eq!(a.len(), 10);
    assert_eq!(a.fetch(v(4, 5)), 2);
    assert_eq!(a.fetch(v(5, 7)), 4);
    assert_eq!(a.fetch(v(5, 3)), 3);
    assert_eq!(a.fetch(v(4, 4)), 3);
}

fn diamond(p: Vector2<i32>) -> i32 {
    (3 - (p.x.abs() + p.y.abs())).max(0)
}

#[test]
pub fn paint() {
    let mut canvas = Array2d::<i32>::new(Boundary::min_max(v(-2, -2), v(2, 2)));
    let brush = Array2d::<i32>::init(Boundary::min_max(v(-2, -2), v(2, 2)), diamond);

    canvas.paint(&brush, v(0, 0), |a: &i32, b: &i32| *a + *b);
    iter_eq(
        canvas.rows(),
        [
            &[0, 0, 1, 0, 0],
            &[0, 1, 2, 1, 0],
            &[1, 2, 3, 2, 1],
            &[0, 1, 2, 1, 0],
            &[0, 0, 1, 0, 0],
        ] as [&[_]; 5],
    );

    canvas.paint(&brush, v(0, -2), |a: &i32, b: &i32| *a + *b);

    iter_eq(
        canvas.rows(),
        [
            &[1, 2, 4, 2, 1],
            &[0, 2, 4, 2, 0],
            &[1, 2, 4, 2, 1],
            &[0, 1, 2, 1, 0],
            &[0, 0, 1, 0, 0],
        ] as [&[_]; 5],
    );

    let mut canvas = Array2d::<i32>::new(Boundary::min_max(v(-2, -2), v(2, 2)));
    let brush = Array2d::<i32>::init(Boundary::min_max(v(-2, -2), v(2, 2)), diamond);

    canvas.paint(&brush, v(2, 1), |a: &i32, b: &i32| *a + *b);
    iter_eq(
        canvas.rows(),
        [
            &[0, 0, 0, 0, 0],
            &[0, 0, 0, 0, 1],
            &[0, 0, 0, 1, 2],
            &[0, 0, 1, 2, 3],
            &[0, 0, 0, 1, 2],
        ] as [&[_]; 5],
    );
}

#[test]
pub fn expand() {
    let mut a = Array2d::from_vec(vec![1, 2, 3, 4], Boundary::min_max(v(2, 0), v(3, 1)));
    let b = Array2d::from_vec(vec![1, 2, 3, 4], Boundary::min_max(v(0, 2), v(1, 3)));

    a.merge(&b);

    iter_eq(
        a.rows(),
        [&[0, 0, 1, 2], &[0, 0, 3, 4], &[1, 2, 0, 0], &[3, 4, 0, 0]] as [&[_]; 4],
    )
}

#[test]
pub fn zip() {
    let mut a = Array2d::from_vec(vec![9, 4, 7, 3, 6, 1, 2, 8, 5], Boundary::min_max(v(0, 0), v(2, 2)));
    let b = Array2d::from_vec(vec![5, 9, 4, 7, 3, 6, 1, 2, 8], Boundary::min_max(v(0, 0), v(2, 2)));

    let m = a.zip(&b).map(|a: &i32, b: &i32| a > b);

    iter_eq(
        m.rows(),
        [
            &[true, false, true],
            &[false, true, false],
            &[true, true, false],
        ] as [&[_]; 3],
    );

    a.zip_mut(&b).for_each_mut(|a: &i32, b: &i32| *a + *b);

    iter_eq(
        a.rows(),
        [&[14, 13, 11], &[10, 9, 7], &[3, 10, 13]] as [&[_]; 3],
    );
}

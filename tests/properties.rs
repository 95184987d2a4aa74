use garray2d::{move_within, Array2d, Array2dRef, Bound, Boundary, Vector2};

fn v(x: i32, y: i32) -> Vector2<i32> {
    Vector2::new(x, y)
}

fn b(x0: i32, y0: i32, x1: i32, y1: i32) -> Boundary {
    Boundary::min_max(v(x0, y0), v(x1, y1))
}

#[test]
fn intersection_with_itself_is_itself() {
    for bd in [b(0, 0, 3, 4), b(-5, 7, -5, 7), Boundary::all(), b(10, 10, 9, 9)] {
        assert_eq!(bd.intersection(bd), Some(bd));
    }
}

#[test]
fn intersection_with_empty_far_from_origin_is_none() {
    assert_eq!(b(3, 3, 5, 5).intersection(Boundary::empty()), None);
    assert_eq!(b(-9, -9, -2, 4).intersection(Boundary::empty()), None);
}

#[test]
fn intersection_with_empty_touching_origin_is_empty() {
    assert_eq!(b(-1, -1, 0, 0).intersection(Boundary::empty()), Some(Boundary::empty()));
}

#[test]
fn intersection_truncates_and_reports_none_when_disjoint() {
    assert_eq!(b(0, 0, 4, 4).intersection(b(2, 3, 9, 9)), Some(b(2, 3, 4, 4)));
    assert_eq!(b(0, 0, 1, 1).intersection(b(5, 5, 6, 6)), None);
}

#[test]
fn all_contains_the_extremes() {
    let all = Boundary::all();
    assert!(all.contains(v(i32::MIN, i32::MIN)));
    assert!(all.contains(v(i32::MAX - 1, i32::MAX - 1)));
    assert!(!all.contains(v(i32::MAX, 0)));
    assert_eq!(Boundary::min_max(v(i32::MIN, i32::MIN), v(i32::MAX - 1, i32::MAX - 1)), all);
    assert_eq!(Boundary::xy((Bound::Unbounded, Bound::Unbounded), (Bound::Unbounded, Bound::Unbounded)), all);
}

#[test]
fn boundary_constructors_agree() {
    let a = Boundary::xy((Bound::Excluded(-1), Bound::Excluded(3)), (Bound::Included(2), Bound::Included(4)));
    assert_eq!(a, b(0, 2, 2, 4));
    assert_eq!(Boundary::min_dim(v(0, 2), v(-3, 3)), a);
    assert_eq!(Boundary::from_point(v(7, 8)), b(7, 8, 7, 8));
    assert_eq!(Boundary::from_dimension(v(3, -2)).dimension, Vector2::new(3, 0));
    assert_eq!(a.max(), v(2, 4));
    assert_eq!(a.max_non_inclusive(), v(3, 5));
    assert_eq!(a.displace_by(v(1, -2)), b(1, 0, 3, 2));
    assert_eq!(b(0, 0, 0, 0).expand_by(v(2, 1)), b(-2, -1, 2, 1));
    assert_eq!(b(0, 0, 4, 4).expand_by(v(-3, -1)).dimension, Vector2::new(0, 3));
    assert_eq!(Boundary::default(), Boundary::empty());
}

#[test]
fn move_within_forward_and_backward_overlaps() {
    let mut s = [1, 2, 3, 4, 5, 6];
    move_within(&mut s, 2, 0, 3);
    assert_eq!(s, [3, 4, 5, 0, 0, 6]);

    let mut s = [1, 2, 3, 4, 5, 6];
    move_within(&mut s, 0, 2, 3);
    assert_eq!(s, [0, 0, 1, 2, 3, 6]);

    let mut s = [1, 2, 3, 4, 5, 6];
    move_within(&mut s, 0, 3, 3);
    assert_eq!(s, [0, 0, 0, 1, 2, 3]);

    let mut s = [1, 2, 3];
    move_within(&mut s, 1, 1, 2);
    assert_eq!(s, [1, 2, 3]);
}

#[test]
fn set_then_get_yields_the_value() {
    let mut a = Array2d::init(b(-2, 3, 1, 5), |p: Vector2<i32>| p.x * 10 + p.y);
    assert_eq!(a.get(v(0, 4)).copied(), Some(4));
    assert!(a.set(v(0, 4), 99));
    assert_eq!(a.get(v(0, 4)).copied(), Some(99));
    assert!(!a.set(v(2, 4), 5));
    assert_eq!(a.get(v(-1, 4)).copied(), Some(-6));
}

#[test]
fn resize_twice_moves_nothing_the_second_time() {
    let mut a = Array2d::init(b(0, 0, 3, 2), |p: Vector2<i32>| p.x + 4 * p.y);
    a.resize(b(-1, 1, 5, 4));
    let first: Vec<Vec<i32>> = a.rows().iter().map(|r| r.to_vec()).collect();
    let slots = a.underlying_slice().to_vec();
    a.resize(b(-1, 1, 5, 4));
    let second: Vec<Vec<i32>> = a.rows().iter().map(|r| r.to_vec()).collect();
    assert_eq!(first, second);
    assert_eq!(slots, a.underlying_slice().to_vec());
}

#[test]
fn resize_keeps_the_overlap_and_defaults_the_rest() {
    let old = b(-3, -2, 2, 1);
    let new = b(0, -5, 6, 0);
    let mut a = Array2d::init(old, |p: Vector2<i32>| 100 + p.x * 10 + p.y);
    a.resize(new);
    assert_eq!(a.boundary(), new);
    for p in new.iter() {
        let expected = if old.contains(p) { 100 + p.x * 10 + p.y } else { 0 };
        assert_eq!(a.fetch(p), expected);
    }
}

#[test]
fn resize_to_a_disjoint_boundary_clears_everything() {
    let mut a = Array2d::init(b(0, 0, 2, 2), |p: Vector2<i32>| p.x + p.y + 1);
    a.resize(b(10, 10, 11, 12));
    assert_eq!(a.rows(), vec![&[0, 0][..], &[0, 0][..], &[0, 0][..]]);
}

#[test]
fn resize_over_a_longer_buffer_defaults_new_points() {
    let mut a = Array2d::from_vec(vec![1, 2, 3, 4, 5], b(0, 0, 0, 1));
    a.resize(b(0, 0, 0, 2));
    assert_eq!(a.rows(), vec![&[1][..], &[2][..], &[0][..]]);
}

#[test]
fn paint_leaves_cells_outside_the_overlap_untouched() {
    let mut canvas = Array2d::init(b(0, 0, 3, 3), |p: Vector2<i32>| p.x + 10 * p.y);
    let brush = Array2d::new_filled(b(0, 0, 1, 1), 1000);
    canvas.paint(&brush, v(3, -1), |a: &i32, b: &i32| *a + *b);
    for p in b(0, 0, 3, 3).iter() {
        let base = p.x + 10 * p.y;
        let expected = if p == v(3, 0) { base + 1000 } else { base };
        assert_eq!(canvas.fetch(p), expected);
    }
    canvas.paint(&brush, v(50, 50), |a: &i32, b: &i32| *a + *b);
    assert_eq!(canvas.fetch(v(3, 0)), 1003);
}

#[test]
fn regions_and_slices() {
    let a = Array2d::init(b(0, 0, 4, 4), |p: Vector2<i32>| p.x * 5 + p.y);
    assert!(a.get_region(b(3, 3, 5, 5)).is_none());
    let s = a.slice(b(3, 3, 5, 5));
    assert_eq!(s.boundary(), b(3, 3, 4, 4));
    assert_eq!(s.rows(), vec![&[18, 23][..], &[19, 24][..]]);
    let s = a.slice(b(7, 7, 9, 9));
    assert!(s.is_empty());
    let r = a.get_region(b(1, 2, 2, 2)).unwrap();
    assert_eq!(r.copied().rows(), vec![&[7, 12][..]]);
}

#[test]
fn views_over_slices_with_pitch() {
    let data = [1, 2, 3, 9, 4, 5, 6, 9];
    let view = Array2dRef::from_slice_pitch(&data, b(10, 20, 12, 21), 4);
    assert_eq!(view.rows(), vec![&[1, 2, 3][..], &[4, 5, 6][..]]);
    assert_eq!(view.fetch(v(12, 21)), 6);
    assert_eq!(view.cloned().underlying_slice(), &[1, 2, 3, 4, 5, 6]);
    let doubled = view.mapped(|x: &i32| *x * 2);
    assert_eq!(doubled.fetch(v(11, 20)), 4);

    let mut raw = [0, 0, 0, 0];
    {
        let mut m = garray2d::Array2dMut::from_slice(&mut raw, b(0, 0, 1, 1));
        assert!(m.set(v(1, 1), 8));
        m.fill(3);
    }
    assert_eq!(raw, [3, 3, 3, 3]);
}

#[test]
fn try_extend_counts_discarded_points() {
    let mut a = Array2d::<i32>::new(b(0, 0, 1, 1));
    let n = a.try_extend(vec![(v(0, 0), 1), (v(5, 5), 2), (v(0, 0), 3), (v(-1, 0), 4)]);
    assert_eq!(n, 2);
    assert_eq!(a.fetch(v(0, 0)), 3);
}

#[test]
fn extend_grows_to_hold_every_point() {
    let mut a = Array2d::<i32>::new(b(0, 0, 0, 0));
    a.extend(vec![(v(2, 3), 5), (v(-1, 1), 6)]);
    assert_eq!(a.boundary(), b(-1, 0, 2, 3));
    assert_eq!(a.fetch(v(2, 3)), 5);
    assert_eq!(a.fetch(v(-1, 1)), 6);
    assert_eq!(a.fetch(v(0, 0)), 0);
    a.extend(Vec::new());
    assert_eq!(a.boundary(), b(-1, 0, 2, 3));
}

#[test]
fn expand_and_resize_containing() {
    let mut a = Array2d::init(b(0, 0, 0, 0), |_p: Vector2<i32>| 7);
    a.expand(v(2, 1));
    assert_eq!(a.boundary(), b(-2, -1, 2, 1));
    assert_eq!(a.fetch(v(0, 0)), 7);
    assert_eq!(a.fetch(v(2, 1)), 0);
    a.resize_containing(b(5, 5, 5, 5));
    assert_eq!(a.boundary(), b(-2, -1, 5, 5));
    assert_eq!(a.fetch(v(0, 0)), 7);
    a.clear();
    assert!(a.is_empty());
    assert_eq!(a.boundary(), Boundary::empty());
}

#[test]
fn displaced_moves_the_origin_only() {
    let a = Array2d::init(b(0, 0, 1, 0), |p: Vector2<i32>| p.x + 1);
    let d = a.displaced(v(-4, 9));
    assert_eq!(d.boundary(), b(-4, 9, -3, 9));
    assert_eq!(d.rows(), vec![&[1, 2][..]]);
    assert_eq!(d.max_point(), v(-3, 9));
    assert_eq!(d.min_point(), v(-4, 9));
}

#[test]
fn points_holding_true() {
    let a = Array2d::init(b(0, 0, 2, 1), |p: Vector2<i32>| (p.x + p.y) % 2 == 0);
    assert_eq!(a.iter_points(), vec![v(0, 0), v(2, 0), v(1, 1)]);
}

#[test]
fn zip_with_different_origins_and_shapes() {
    let mut a = Array2d::init(b(0, 0, 1, 1), |p: Vector2<i32>| p.x + 2 * p.y);
    let c = Array2d::init(b(10, -3, 11, -2), |p: Vector2<i32>| p.x * 100);
    let sums = a.zip(&c).map(|x: &i32, y: &i32| *x + *y);
    assert_eq!(sums.boundary(), a.boundary());
    assert_eq!(sums.rows(), vec![&[1000, 1101][..], &[1002, 1103][..]]);
    assert!(a.zip(&c).is_valid());
    assert!(a.zip(&c).for_each(|_x: &i32, _y: &i32| {}));

    let wrong = Array2d::<i32>::new(b(0, 0, 2, 1));
    assert!(!a.zip(&wrong).is_valid());
    assert!(!a.zip_mut(&wrong).for_each_mut(|x: &i32, _y: &i32| *x + 1));
    assert_eq!(a.fetch(v(1, 1)), 3);

    assert!(a.zip_mut(&c).for_each_indexed_mut(|p: Vector2<i32>, _x: &i32, q: Vector2<i32>, _y: &i32| p.x * 10 + q.y));
    assert_eq!(a.rows(), vec![&[-3, 7][..], &[-2, 8][..]]);
    let m = a.zip_mut(&c).map_mut(|x: &i32, y: &i32| x < y);
    assert_eq!(m.rows(), vec![&[true, true][..], &[true, true][..]]);
}

#[test]
fn points_holding_some() {
    let a = Array2d::init(b(0, 0, 1, 1), |p: Vector2<i32>| if p.x == p.y { Some(p.x * 3) } else { None });
    assert_eq!(a.iter_some(), vec![(v(0, 0), &0), (v(1, 1), &3)]);
}

#[test]
fn get_mut_writes_through() {
    let mut a = Array2d::<i32>::new(b(2, 2, 3, 3));
    *a.get_mut(v(3, 2)).unwrap() = 11;
    assert!(a.get_mut(v(4, 2)).is_none());
    assert_eq!(a.rows(), vec![&[0, 11][..], &[0, 0][..]]);
}

#[test]
fn equivalent_ignores_origins() {
    let a = Array2d::from_vec(vec![1, 2, 3, 4], b(0, 0, 1, 1));
    let c = Array2d::from_vec(vec![1, 2, 3, 4], b(-7, 5, -6, 6));
    let d = Array2d::from_vec(vec![1, 2, 3, 5], b(0, 0, 1, 1));
    assert!(a.equivalent(&c));
    assert!(!a.equivalent(&d));
    assert!(!a.equivalent(&Array2d::from_vec(vec![1, 2, 3, 4], b(0, 0, 3, 0))));
}

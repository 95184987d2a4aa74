use garray2d::{Array2d, Array2dData, Boundary, Vector2};

fn same(a: &Array2d<i32>, c: &Array2d<i32>) -> bool {
    a.boundary() == c.boundary() && a.rows() == c.rows()
}

#[test]
pub fn serde() {
    let a = Array2d::<i32>::default();
    let b = a.to_data();

    assert_eq!(b.min, [0, 0]);
    assert_eq!(b.dimension, [0, 0]);
    assert_eq!(b.data, Vec::<i32>::new());

    let c: Array2d<i32> = Array2d::from_data(b).unwrap();
    assert!(same(&a, &c));

    let a = Array2d::<i32>::init(
        Boundary::min_max(Vector2::new(1, 2), Vector2::new(4, 6)),
        |v: Vector2<i32>| v.x + v.y,
    );
    let b = a.to_data();

    assert_eq!(b.min, [1, 2]);
    assert_eq!(b.dimension, [4, 5]);
    assert_eq!(
        b.data,
        vec![
            3, 4, 5, 6, //
            4, 5, 6, 7, //
            5, 6, 7, 8, //
            6, 7, 8, 9, //
            7, 8, 9, 10,
        ]
    );

    let c: Array2d<i32> = Array2d::from_data(b).unwrap();
    assert!(same(&a, &c));

    let d = a.slice(Boundary::all());
    assert_eq!(d.boundary(), a.boundary());
    assert_eq!(d.rows(), a.rows());

    let b = d.to_data();
    assert_eq!(b.min, [1, 2]);
    assert_eq!(b.dimension, [4, 5]);
    assert_eq!(
        b.data,
        vec![
            3, 4, 5, 6, //
            4, 5, 6, 7, //
            5, 6, 7, 8, //
            6, 7, 8, 9, //
            7, 8, 9, 10,
        ]
    );

    let d = a.slice(Boundary::min_max(Vector2::new(3, 4), Vector2::new(i32::MAX - 1, i32::MAX - 1)));

    let b = d.to_data();
    assert_eq!(b.min, [3, 4]);
    assert_eq!(b.dimension, [2, 3]);
    assert_eq!(
        b.data,
        vec![
            7, 8, //
            8, 9, //
            9, 10,
        ]
    );
}

#[test]
fn data_with_too_few_values_is_rejected() {
    let d = Array2dData { min: [0, 0], dimension: [2, 2], data: vec![1, 2, 3] };
    assert_eq!(Array2d::from_data(d).err(), Some(garray2d::DataError::NotEnoughItems));
}

#[test]
fn data_past_the_largest_coordinate_is_rejected() {
    let d = Array2dData { min: [i32::MAX - 1, 0], dimension: [2, 1], data: vec![1, 2] };
    assert_eq!(Array2d::from_data(d).err(), Some(garray2d::DataError::OutOfRange));
}

#[test]
fn data_with_extra_values_reads_back_the_cells() {
    let d = Array2dData { min: [-1, 3], dimension: [2, 1], data: vec![5, 6, 7] };
    let a = Array2d::from_data(d).unwrap();
    assert_eq!(a.fetch(Vector2::new(-1, 3)), 5);
    assert_eq!(a.fetch(Vector2::new(0, 3)), 6);
    assert_eq!(a.fetch(Vector2::new(1, 3)), 0);
}

use puzzle_grids::flat2d::{construct_regular_matrix, de_oblique_square, oblique, Flat2dArray};

#[test]
fn dp256_test_create() {
    let a2d: Flat2dArray<i32> = Flat2dArray::new_default(5, 10);

    assert_eq!(5, a2d.get_width());
    assert_eq!(10, a2d.get_height());
}

#[test]
fn out_of_bounds_is_reported() {
    let a2d: Flat2dArray<i32> = Flat2dArray::new_default(5, 10);

    assert!(a2d.is_out_of_bounds(6, 5));
    assert!(a2d.is_out_of_bounds(0, 10));
    assert!(!a2d.is_out_of_bounds(4, 9));
}

#[test]
fn test_regular_matrix() {
    let a2d = construct_regular_matrix(10, 5);

    for x in 0..a2d.get_width() {
        for y in 0..a2d.get_height() {
            assert_eq!(x + y * a2d.get_width(), a2d.get(x, y));
        }
    }
}

#[test]
fn test_oblique() {
    let array = construct_regular_matrix(6, 6);

    let vec = oblique(&array);

    assert_eq!(11, vec.len());
    assert_eq!(vec![0], vec[0]);
    assert_eq!(vec![1, 6], vec[1]);
    assert_eq!(vec![5, 10, 15, 20, 25, 30], vec[5]);
    assert_eq!(vec![11, 16, 21, 26, 31], vec[6]);
    assert_eq!(vec![35], vec[10]);
}

#[test]
fn test_from_vec() {
    let mut vec: Vec<Vec<usize>> = Vec::new();
    for y in 0..6 {
        let mut part_vec: Vec<usize> = Vec::new();
        for x in 0..7 {
            part_vec.push(x * y);
        }
        vec.push(part_vec);
    }

    let vec_copy: Vec<Vec<usize>> = vec.to_vec();

    let array = Flat2dArray::from_rows(vec).unwrap();

    assert_eq!(6, array.get_height());
    assert_eq!(7, array.get_width());

    for y in 0..6 {
        for x in 0..7 {
            assert_eq!(vec_copy[y][x], array.get(x, y));
        }
    }
}

#[test]
fn from_rows_edge_cases() {
    let empty: Vec<Vec<u8>> = Vec::new();
    let a = Flat2dArray::from_rows(empty).unwrap();
    assert_eq!((0, 0), (a.get_width(), a.get_height()));

    let first_empty: Vec<Vec<u8>> = vec![vec![], vec![1, 2]];
    let b = Flat2dArray::from_rows(first_empty).unwrap();
    assert_eq!((0, 0), (b.get_width(), b.get_height()));

    let ragged: Vec<Vec<u8>> = vec![vec![1, 2], vec![3]];
    assert!(Flat2dArray::from_rows(ragged).is_none());
}

#[test]
fn new_fills_and_set_overwrites() {
    let mut a = Flat2dArray::new(3, 2, 'x');
    assert_eq!('x', a.get(2, 1));
    a.set(2, 1, 'y');
    assert_eq!('y', a.get(2, 1));
    assert_eq!('x', a.get(1, 1));
    assert_eq!('x', a.get(2, 0));

    let z: Flat2dArray<u8> = Flat2dArray::new_zero_sized();
    assert_eq!(0, z.get_width());
    assert!(z.is_out_of_bounds(0, 0));

    let d: Flat2dArray<u64> = Flat2dArray::new_default(2, 2);
    assert_eq!(0, d.get(1, 1));
}

#[test]
fn oblique_of_wide_and_tall_arrays() {
    let wide = construct_regular_matrix(3, 2);
    assert_eq!(vec![vec![0], vec![1, 3], vec![2, 4], vec![5]], oblique(&wide));

    let tall = construct_regular_matrix(2, 3);
    assert_eq!(vec![vec![0], vec![1, 2], vec![3, 4], vec![5]], oblique(&tall));

    let row = construct_regular_matrix(0, 1);
    assert!(oblique(&row).is_empty());
}

#[test]
fn de_oblique_inverts_oblique() {
    let array = construct_regular_matrix(4, 4);
    let parts = oblique(&array);
    let back = de_oblique_square(&parts).unwrap();
    assert_eq!(4, back.get_width());
    assert_eq!(4, back.get_height());
    for y in 0..4 {
        for x in 0..4 {
            assert_eq!(array.get(x, y), back.get(x, y));
        }
    }
}

#[test]
fn de_oblique_refuses_other_shapes() {
    let none: Vec<Vec<u8>> = Vec::new();
    let empty = de_oblique_square(&none).unwrap();
    assert_eq!(0, empty.get_width());

    let even: Vec<Vec<u8>> = vec![vec![1], vec![2, 3]];
    assert!(de_oblique_square(&even).is_none());

    let wrong: Vec<Vec<u8>> = vec![vec![1], vec![2], vec![3]];
    assert!(de_oblique_square(&wrong).is_none());

    let one: Vec<Vec<u8>> = vec![vec![7]];
    assert_eq!(7, de_oblique_square(&one).unwrap().get(0, 0));
}

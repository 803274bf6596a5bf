use puzzle_grids::square::{lines_for, Diagonal, LineIter, Square, SquareError, SquareLine};

fn test_square() -> Square {
    Square::new(vec![8, 1, 6, 3, 5, 7, 4, 9, 2]).unwrap()
}

#[test]
fn test_non_square() {
    assert_eq!(Square::new(vec![1, 2]).err(), Some(SquareError::ShapeError));
}

#[test]
fn test_row_iterator() {
    let square = test_square();

    assert_eq!(vec![8, 1, 6], square.row(0).unwrap().rest());
}

#[test]
fn test_col_iterator() {
    let square = test_square();

    assert_eq!(vec![8, 3, 4], square.col(0).unwrap().rest());
}

#[test]
fn test_diag_iterator() {
    let square = test_square();

    assert_eq!(vec![8, 5, 2], square.diag(&Diagonal::First).rest());
    assert_eq!(vec![6, 5, 4], square.diag(&Diagonal::Second).rest());
}

#[test]
fn test_first_example() {
    let square = Square::new(vec![8, 1, 6, 3, 5, 7, 4, 9, 2]).unwrap();

    assert!(square.is_magic());
}

#[test]
fn test_second_example() {
    let square = Square::new(vec![2, 7, 6, 9, 5, 1, 4, 3, 8]).unwrap();

    assert!(square.is_magic());
}

#[test]
fn test_third_example() {
    let square = Square::new(vec![3, 5, 7, 8, 1, 6, 4, 9, 2]).unwrap();

    assert!(!square.is_magic());
}

#[test]
fn test_fourth_example() {
    let square = Square::new(vec![8, 1, 6, 7, 5, 3, 4, 9, 2]).unwrap();

    assert!(!square.is_magic());
}

#[test]
fn test_big() {
    let square = Square::new(vec![
        25, 13, 1, 19, 7, 16, 9, 22, 15, 3, 12, 5, 18, 6, 24, 8, 21, 14, 2, 20, 4, 17, 10, 23, 11,
    ])
    .unwrap();

    assert!(square.is_magic());
}

#[test]
fn test_not_completable_1() {
    assert_eq!(Square::try_new(vec![1, 2, 3]).err(), Some(SquareError::ShapeError));
}

#[test]
fn test_not_completable_2() {
    assert_eq!(
        Square::try_new(vec![1, 2, 3, 4, 5, 6, 7, 8, 9]).err(),
        Some(SquareError::ShapeError)
    );
}

#[test]
fn test_complete_1() {
    let square = Square::try_new(vec![8, 1, 6, 3, 5, 7]).unwrap();
    assert!(square.is_magic());
    assert_eq!(vec![4, 9, 2], square.row(2).unwrap().rest());
}

#[test]
fn test_complete_2() {
    assert_eq!(
        Square::try_new(vec![3, 5, 7, 8, 1, 6]).err(),
        Some(SquareError::NoSolution)
    );
}

#[test]
fn lo_shu_expected_sum() {
    let square = test_square();
    assert_eq!(15, square.get_expected_sum());
    assert_eq!(3, square.order());
}

#[test]
fn expected_sum_of_larger_orders() {
    let four = Square::new(vec![0; 16]).unwrap();
    assert_eq!(34, four.get_expected_sum());
    let empty = Square::new(Vec::new()).unwrap();
    assert_eq!(0, empty.get_expected_sum());
}

#[test]
fn new_accepts_squares_and_refuses_others() {
    for n in 0..50usize {
        let root = (0..8usize).find(|a| a * a == n);
        match Square::new(vec![1; n]) {
            Ok(s) => assert_eq!(Some(s.order()), root),
            Err(e) => {
                assert_eq!(e, SquareError::ShapeError);
                assert_eq!(root, None);
            }
        }
    }
}

#[test]
fn empty_square_is_magic() {
    let square = Square::new(Vec::new()).unwrap();
    assert_eq!(0, square.order());
    assert!(square.is_magic());
}

#[test]
fn single_cell_is_magic() {
    let square = Square::new(vec![7]).unwrap();
    assert!(square.is_magic());
    assert_eq!(Ok(7), SquareLine::Diag(Diagonal::Second).sum(&square));
}

#[test]
fn line_sums_of_lo_shu() {
    let square = test_square();
    for line in lines_for(3) {
        assert_eq!(Ok(15), line.sum(&square));
        assert_eq!(Ok(15), square.sum_of(&line));
    }
    let near = Square::new(vec![3, 5, 7, 8, 1, 6, 4, 9, 2]).unwrap();
    assert_eq!(Ok(15), SquareLine::Col(0).sum(&near));
    assert_eq!(Ok(12), SquareLine::Diag(Diagonal::Second).sum(&near));
    assert_eq!(Ok(6), SquareLine::Diag(Diagonal::First).sum(&near));
}

#[test]
fn sums_do_not_wrap() {
    let square = Square::new(vec![usize::MAX; 4]).unwrap();
    assert_eq!(Ok(2 * (usize::MAX as u128)), square.sum_of(&SquareLine::Row(1)));
    assert!(square.is_magic());
}

#[test]
fn lines_are_all_distinct_and_complete() {
    let lines = lines_for(3);
    assert_eq!(8, lines.len());
    for i in 0..lines.len() {
        for j in 0..lines.len() {
            assert_eq!(i == j, lines[i] == lines[j]);
        }
    }
    assert_eq!(
        lines,
        vec![
            SquareLine::Row(0),
            SquareLine::Row(1),
            SquareLine::Row(2),
            SquareLine::Col(0),
            SquareLine::Col(1),
            SquareLine::Col(2),
            SquareLine::Diag(Diagonal::First),
            SquareLine::Diag(Diagonal::Second),
        ]
    );
    assert_eq!(2, lines_for(0).len());
}

#[test]
fn line_iter_hands_out_each_line_once() {
    let mut it = LineIter::new(2);
    let mut seen = Vec::new();
    while let Some(line) = it.next() {
        seen.push(line);
    }
    assert_eq!(seen, lines_for(2));
    assert_eq!(None, it.next());
}

#[test]
fn get_iter_follows_the_line() {
    let square = test_square();
    assert_eq!(vec![3, 5, 7], square.get_iter(&SquareLine::Row(1)).unwrap().rest());
    assert_eq!(vec![6, 7, 2], square.get_iter(&SquareLine::Col(2)).unwrap().rest());
    let mut it = square.get_iter(&SquareLine::Diag(Diagonal::Second)).unwrap();
    assert_eq!(Some(6), it.next());
    assert_eq!(vec![5, 4], it.rest());
}

#[test]
fn get_and_set_check_bounds() {
    let mut square = test_square();
    assert_eq!(Ok(7), square.get(2, 1));
    assert_eq!(Err(SquareError::OutOfBoundsError), square.get(3, 0));
    assert_eq!(Err(SquareError::OutOfBoundsError), square.get(0, 3));
    assert_eq!(Ok(()), square.set(0, 2, 9));
    assert_eq!(Ok(9), square.get(0, 2));
    assert!(!square.is_magic());
    assert_eq!(Err(SquareError::OutOfBoundsError), square.set(5, 5, 1));
}

#[test]
fn swapping_equal_cells_keeps_magic() {
    let mut square = Square::new(vec![5, 5, 5, 5, 5, 5, 5, 5, 5]).unwrap();
    let a = square.get(0, 0).unwrap();
    let b = square.get(2, 1).unwrap();
    square.set(0, 0, b).unwrap();
    square.set(2, 1, a).unwrap();
    assert!(square.is_magic());
}

#[test]
fn is_magic_is_repeatable() {
    let square = Square::new(vec![3, 5, 7, 8, 1, 6, 4, 9, 2]).unwrap();
    let first = square.is_magic();
    for _ in 0..3 {
        assert_eq!(first, square.is_magic());
    }
}

#[test]
fn completion_of_small_orders() {
    let one = Square::try_new(Vec::new()).unwrap();
    assert_eq!(1, one.order());
    assert_eq!(Ok(1), one.get(0, 0));
    let two = Square::try_new(vec![3, 3]).unwrap();
    assert_eq!(vec![3, 3], two.row(1).unwrap().rest());
    assert_eq!(
        Square::try_new(vec![1, 2]).err(),
        Some(SquareError::NoSolution)
    );
}

#[test]
fn completion_takes_the_first_candidate_in_counter_order() {
    // Every row, column and diagonal of order 2 must agree, so the last row
    // is forced; with a prefix of equal values the first candidate is the
    // one whose cells are counted up from 1 with the first cell fastest.
    let square = Square::try_new(vec![9, 9]).unwrap();
    assert_eq!(vec![9, 9], square.row(1).unwrap().rest());
}

#[test]
fn lines_past_the_edge_are_refused() {
    let square = test_square();
    assert_eq!(Some(SquareError::OutOfBoundsError), square.row(3).err());
    assert_eq!(Some(SquareError::OutOfBoundsError), square.col(5).err());
    assert_eq!(Some(SquareError::OutOfBoundsError), square.get_iter(&SquareLine::Row(3)).err());
    assert_eq!(Some(SquareError::OutOfBoundsError), square.get_iter(&SquareLine::Col(7)).err());
    assert_eq!(Err(SquareError::OutOfBoundsError), square.sum_of(&SquareLine::Row(3)));
    assert_eq!(Err(SquareError::OutOfBoundsError), SquareLine::Col(3).sum(&square));
    assert!(square.row(2).is_ok());
    let empty = Square::new(Vec::new()).unwrap();
    assert!(empty.row(0).is_err());
    assert_eq!(Ok(0), empty.sum_of(&SquareLine::Diag(Diagonal::First)));
}

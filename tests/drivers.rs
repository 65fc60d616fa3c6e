use pyramid::{
    checked_pyramid, checked_rectangle, get_size, pyramid, rectangle, ParallelSplit, ShapeError,
    Simple, Vectorization,
};

type Driver = fn(&mut [u32], usize) -> u32;

fn pyramid_drivers() -> Vec<Driver> {
    vec![
        pyramid::<Simple>,
        pyramid::<Vectorization>,
        pyramid::<ParallelSplit<2>>,
        pyramid::<ParallelSplit<3>>,
        pyramid::<ParallelSplit<4>>,
    ]
}

fn rectangle_drivers() -> Vec<Driver> {
    vec![
        rectangle::<Simple>,
        rectangle::<Vectorization>,
        rectangle::<ParallelSplit<2>>,
        rectangle::<ParallelSplit<4>>,
    ]
}

fn check_pyramid(rows_top_down: &[u32], size: usize, expected: u32) {
    for driver in pyramid_drivers() {
        let mut input = rows_top_down.to_vec();
        input.reverse();
        assert_eq!(driver(&mut input, size), expected);
    }
}

fn check_rectangle(cells: &[u32], size: usize, expected: u32) {
    for driver in rectangle_drivers() {
        let mut input = cells.to_vec();
        input.reverse();
        assert_eq!(driver(&mut input, size), expected);
    }
}

#[test]
fn simple_tests_one_layer() {
    check_pyramid(&[5], 1, 5);
}

#[test]
fn simple_tests_two_layers() {
    check_pyramid(&[5, 6, 3], 2, 11);
}

#[test]
fn simple_tests_example() {
    check_pyramid(&[7, 3, 8, 8, 1, 0, 2, 7, 4, 4, 4, 5, 2, 6, 5], 5, 30);
}

#[test]
fn simple_tests_example2() {
    check_pyramid(
        &[
            7, 2, 3, 3, 3, 1, 3, 1, 5, 4, 3, 1, 3, 1, 3, 2, 2, 2, 2, 2, 2, 5, 6, 4, 5, 6, 4, 3,
        ],
        7,
        29,
    );
}

#[test]
fn rect_tests_one_layer() {
    check_rectangle(&[5], 1, 5);
}

#[test]
fn rect_tests_two_layers() {
    check_rectangle(&[5, 6, 3, 4], 2, 10);
}

#[test]
fn rect_tests_example() {
    check_rectangle(
        &[1, 2, 3, 4, 5, 6, 7, 8, 9, 10, 11, 12, 13, 14, 15, 16],
        4,
        40,
    );
}

#[test]
fn rect_tests_example2() {
    check_rectangle(
        &[1, 2, 3, 100, 5, 6, 100, 8, 9, 100, 11, 12, 100, 14, 15, 16],
        4,
        400,
    );
}

#[test]
fn pyramid_leaves_best_sums_in_every_row() {
    // widest row [2, 7, 4, 4], then [8, 1, 0], then [3, 8], then the apex 7
    let mut input = vec![2, 7, 4, 4, 8, 1, 0, 3, 8, 7];
    assert_eq!(pyramid::<Simple>(&mut input, 4), 25);
    assert_eq!(input, vec![2, 7, 4, 4, 15, 8, 4, 18, 16, 25]);
}

#[test]
fn rectangle_leaves_best_sums_in_every_row() {
    let mut input = vec![1, 2, 3, 4];
    assert_eq!(rectangle::<Simple>(&mut input, 2), 6);
    assert_eq!(input, vec![1, 2, 5, 6]);
}

#[test]
fn pyramid_shape_mismatch_is_refused() {
    let drivers: Vec<fn(&mut [u32], usize) -> Result<u32, ShapeError>> = vec![
        checked_pyramid::<Simple>,
        checked_pyramid::<Vectorization>,
        checked_pyramid::<ParallelSplit<2>>,
        checked_pyramid::<ParallelSplit<3>>,
        checked_pyramid::<ParallelSplit<4>>,
    ];
    for driver in drivers {
        let mut input = vec![1, 2, 3, 4];
        assert_eq!(driver(&mut input, 2), Err(ShapeError::InvalidShape));
        assert_eq!(input, vec![1, 2, 3, 4]);
        assert_eq!(driver(&mut input, 3), Err(ShapeError::InvalidShape));
        let mut empty: Vec<u32> = vec![];
        assert_eq!(driver(&mut empty, 0), Err(ShapeError::InvalidShape));
        let mut triangle = vec![3, 6, 5];
        assert_eq!(driver(&mut triangle, 2), Ok(11));
    }
}

#[test]
fn rectangle_shape_mismatch_is_refused() {
    let drivers: Vec<fn(&mut [u32], usize) -> Result<u32, ShapeError>> = vec![
        checked_rectangle::<Simple>,
        checked_rectangle::<Vectorization>,
        checked_rectangle::<ParallelSplit<2>>,
        checked_rectangle::<ParallelSplit<4>>,
    ];
    for driver in drivers {
        let mut input = vec![1, 2, 3];
        assert_eq!(driver(&mut input, 2), Err(ShapeError::InvalidShape));
        assert_eq!(input, vec![1, 2, 3]);
        let mut empty: Vec<u32> = vec![];
        assert_eq!(driver(&mut empty, 0), Err(ShapeError::InvalidShape));
        let mut square = vec![4, 3, 6, 5];
        assert_eq!(driver(&mut square, 2), Ok(10));
    }
}

#[test]
fn raising_a_cell_never_lowers_the_result() {
    let base: Vec<u32> = vec![5, 2, 6, 4, 4, 4, 7, 0, 1, 8, 8, 3, 8, 2, 7];
    let mut first = base.clone();
    let before = pyramid::<Simple>(&mut first, 5);
    for k in 0..base.len() {
        let mut raised = base.clone();
        raised[k] += 3;
        assert!(pyramid::<Simple>(&mut raised, 5) >= before);
    }
    let square: Vec<u32> = vec![16, 15, 14, 13, 12, 11, 10, 9, 8, 7, 6, 5, 4, 3, 2, 1];
    let mut first = square.clone();
    let before = rectangle::<Simple>(&mut first, 4);
    for k in 0..square.len() {
        let mut raised = square.clone();
        raised[k] += 1;
        assert!(rectangle::<Simple>(&mut raised, 4) >= before);
    }
}

#[test]
fn repeated_runs_agree_across_fan_outs() {
    let cells: Vec<u32> = (0..55).map(|i| (i * 37 % 101) as u32).collect();
    let mut results = Vec::new();
    for driver in pyramid_drivers() {
        for _ in 0..2 {
            let mut input = cells.clone();
            results.push(driver(&mut input, 10));
        }
    }
    assert!(results.iter().all(|r| *r == results[0]));
}

#[test]
fn get_size_counts_triangle_cells() {
    assert_eq!(get_size(0), 0);
    assert_eq!(get_size(1), 1);
    assert_eq!(get_size(5), 15);
    assert_eq!(get_size(30000), 450_015_000);
}

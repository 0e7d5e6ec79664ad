use zopfli::blocksplitter::{blocksplit_lz77, MAX_BLOCK_COST};
use zopfli::lz77::Lz77Store;

fn literals(n: usize) -> Lz77Store {
    let mut store = Lz77Store::new();
    for i in 0..n {
        store.lit_len_dist((i % 256) as u16, 0);
    }
    store
}

fn square(_lz77: &Lz77Store, lstart: usize, lend: usize) -> u64 {
    ((lend - lstart) * (lend - lstart)) as u64
}

fn with_header(_lz77: &Lz77Store, lstart: usize, lend: usize) -> u64 {
    (lend - lstart) as u64 + 100
}

fn split(cost: fn(&Lz77Store, usize, usize) -> u64, n: usize, maxblocks: usize) -> Vec<usize> {
    let store = literals(n);
    let mut points = Vec::new();
    blocksplit_lz77(cost, &store, maxblocks, &mut points);
    points
}

#[test]
fn twelve_tokens_are_cut_in_the_middle() {
    let store = literals(12);
    assert!(square(&store, 0, 12) > square(&store, 0, 6) + square(&store, 6, 12));
    assert_eq!(split(square, 12, 0), vec![6]);
}

#[test]
fn five_tokens_are_not_split() {
    assert_eq!(split(square, 5, 0), Vec::<usize>::new());
    assert_eq!(split(with_header, 5, 0), Vec::<usize>::new());
    assert_eq!(split(|_s, _a, _b| 0, 5, 0), Vec::<usize>::new());
    assert_eq!(split(|_s, _a, _b| MAX_BLOCK_COST, 5, 3), Vec::<usize>::new());
}

#[test]
fn streams_below_ten_tokens_are_not_split() {
    assert_eq!(split(square, 0, 0), Vec::<usize>::new());
    assert_eq!(split(square, 9, 0), Vec::<usize>::new());
    assert_eq!(split(square, 10, 0), vec![5]);
    assert_eq!(split(square, 11, 0), vec![5]);
}

#[test]
fn one_block_allowed_means_no_split() {
    assert_eq!(split(square, 12, 1), Vec::<usize>::new());
    assert_eq!(split(square, 40, 1), Vec::<usize>::new());
    assert_eq!(split(square, 3000, 1), Vec::<usize>::new());
}

#[test]
fn block_limit_bounds_the_number_of_split_points() {
    assert_eq!(split(square, 40, 2), vec![20]);
    assert_eq!(split(square, 40, 3), vec![10, 20]);
    assert_eq!(split(square, 40, 4), vec![10, 20, 30]);
    assert_eq!(split(square, 100, 4), vec![25, 50, 75]);
    for maxblocks in 1..12 {
        let points = split(square, 100, maxblocks);
        assert!(points.len() + 1 <= maxblocks);
    }
}

#[test]
fn splitting_without_limit_goes_on_until_blocks_are_small() {
    assert_eq!(split(square, 40, 0), vec![5, 10, 15, 20, 25, 30, 35]);
    assert_eq!(
        split(square, 100, 0),
        vec![6, 12, 18, 25, 31, 37, 43, 50, 56, 62, 68, 75, 81, 87, 93]
    );
}

#[test]
fn split_points_are_increasing_and_inside_the_stream() {
    for &n in [10usize, 33, 100, 257, 2500].iter() {
        let points = split(square, n, 0);
        for k in 0..points.len() {
            assert!(0 < points[k] && points[k] < n);
            if k > 0 {
                assert!(points[k - 1] < points[k]);
            }
        }
    }
    assert_eq!(split(square, 2500, 0).len(), 451);
}

#[test]
fn long_stream_is_searched_by_probing() {
    assert_eq!(split(square, 3000, 4), vec![746, 1496, 2247]);
    assert_eq!(split(square, 3000, 7), vec![746, 1121, 1496, 1871, 2247, 2623]);
}

#[test]
fn unprofitable_split_marks_the_block_done() {
    assert_eq!(split(with_header, 40, 0), Vec::<usize>::new());
    assert_eq!(split(with_header, 3000, 0), Vec::<usize>::new());
}

#[test]
fn cut_at_the_first_place_searched_is_turned_down() {
    let cost = |_s: &Lz77Store, a: usize, b: usize| -> u64 {
        if (a == 0 && b == 1) || a == 1 {
            0
        } else {
            50
        }
    };
    assert_eq!(split(cost, 20, 0), Vec::<usize>::new());
}

#[test]
fn splitting_again_gives_the_same_points() {
    let first = split(square, 100, 0);
    let second = split(square, 100, 0);
    assert_eq!(first, second);
    let first = split(square, 3000, 7);
    let second = split(square, 3000, 7);
    assert_eq!(first, second);
}

#[test]
fn greatest_cost_allowed_is_added_without_overflow() {
    assert_eq!(split(|_s, _a, _b| MAX_BLOCK_COST, 12, 0), Vec::<usize>::new());
}

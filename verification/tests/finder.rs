use zopfli::blocksplitter::find_minimum;

fn distance(a: usize, b: usize) -> u64 {
    if a > b {
        (a - b) as u64
    } else {
        (b - a) as u64
    }
}

fn scrambled(i: usize) -> u64 {
    ((i as u64) * 2654435761 + 12345) % 1000003
}

fn scan(f: fn(usize) -> u64, start: usize, end: usize) -> (usize, u64) {
    let mut best = (start, f(start));
    for i in start + 1..end {
        if f(i) < best.1 {
            best = (i, f(i));
        }
    }
    best
}

#[test]
fn exhaustive_scan_finds_the_minimum() {
    let costs: Vec<u64> = vec![9, 7, 5, 3, 1, 3, 5, 7, 9, 11];
    let r = find_minimum(|i: usize| costs[i], 0, 10);
    assert_eq!(r, (4, 1));
}

#[test]
fn exhaustive_scan_keeps_the_earliest_on_a_tie() {
    let costs: Vec<u64> = vec![5, 3, 8, 3, 9];
    assert_eq!(find_minimum(|i: usize| costs[i], 0, 5), (1, 3));
}

#[test]
fn exhaustive_scan_of_one_index() {
    assert_eq!(find_minimum(|_i: usize| 17, 6, 7), (6, 17));
}

#[test]
fn exhaustive_scan_where_every_cost_is_the_greatest() {
    assert_eq!(find_minimum(|_i: usize| u64::MAX, 3, 8), (3, u64::MAX));
}

#[test]
fn exhaustive_scan_starts_at_start() {
    let r = find_minimum(|i: usize| distance(i, 2), 10, 20);
    assert_eq!(r, (10, 8));
}

#[test]
fn small_range_equals_exhaustive_scan() {
    for &(start, end) in [(0usize, 1usize), (0, 2), (5, 1000), (0, 1023), (77, 1100)].iter() {
        assert_eq!(find_minimum(scrambled, start, end), scan(scrambled, start, end));
    }
    assert_eq!(find_minimum(scrambled, 0, 1000), (568, 1448));
}

#[test]
fn widest_range_that_is_scanned_and_narrowest_that_is_probed() {
    assert_eq!(find_minimum(|i: usize| distance(i, 3), 0, 1023), (3, 0));
    assert_eq!(find_minimum(|i: usize| distance(i, 3), 0, 1024), (4, 1));
}

#[test]
fn probing_finds_the_minimum_of_a_valley() {
    assert_eq!(find_minimum(|i: usize| distance(i, 5000), 0, 10000), (5000, 0));
}

#[test]
fn probing_ends_near_the_minimum_of_a_valley() {
    let (start, end, m) = (100usize, 20100usize, 7777usize);
    let r = find_minimum(|i: usize| distance(i, m) * 3 + 11, start, end);
    assert_eq!(r, (7780, 20));
    let spacing = (end - start) / 10;
    assert!(distance(r.0, m) <= spacing as u64);
}

#[test]
fn probing_on_a_falling_cost_ends_near_the_end() {
    let r = find_minimum(|i: usize| 100000 - i as u64, 0, 1033);
    assert_eq!(r, (1025, 98975));
    assert!(1032 - r.0 <= 1033 / 10 + 8);
}

#[test]
fn probing_on_a_rising_cost_ends_near_the_start() {
    assert_eq!(find_minimum(|i: usize| i as u64, 0, 5000), (4, 4));
}

#[test]
fn probing_stops_when_a_round_ties_with_the_last() {
    assert_eq!(find_minimum(|_i: usize| 42, 0, 2000), (200, 42));
    assert_eq!(find_minimum(|_i: usize| 1, 0, 2000), (200, 1));
}

#[test]
fn first_round_is_accepted_whatever_it_costs() {
    assert_eq!(find_minimum(|_i: usize| u64::MAX, 0, 2000), (200, u64::MAX));
    assert_eq!(
        find_minimum(|i: usize| u64::MAX - (i as u64 / 1000), 0, 2000),
        (1000, u64::MAX - 1)
    );
}

#[test]
fn probing_ends_no_dearer_than_any_probe_of_the_first_round() {
    let (start, end) = (10usize, 6010usize);
    let r = find_minimum(scrambled, start, end);
    assert_eq!(r.1, scrambled(r.0));
    for k in 0..9 {
        assert!(r.1 <= scrambled(start + (k + 1) * ((end - start) / 10)));
    }
}

#[test]
fn probing_ends_within_one_spacing_of_a_minimum_between_the_probes() {
    let (start, end) = (0usize, 10000usize);
    for &m in [1000usize, 1001, 4321, 5000, 8999, 9000].iter() {
        let r = find_minimum(|i: usize| distance(i, m), start, end);
        assert!(distance(r.0, m) < ((end - start) / 10) as u64);
    }
    assert_eq!(find_minimum(|i: usize| distance(i, 4321), start, end), (4320, 1));
}

#[test]
fn probing_stops_when_a_round_is_worse_than_the_last() {
    let r = find_minimum(|i: usize| if i % 200 == 0 { 10 } else { 1000 + i as u64 }, 0, 2000);
    assert_eq!(r, (200, 10));
}

#[test]
fn probing_can_miss_a_narrow_minimum() {
    let r = find_minimum(
        |i: usize| if i == 1234 { 0 } else { 1000 + distance(i, 8000) },
        0,
        10000,
    );
    assert_eq!(r, (8000, 1000));
}

#[test]
fn probing_on_a_rough_cost() {
    assert_eq!(find_minimum(scrambled, 0, 5000), (4500, 102070));
}

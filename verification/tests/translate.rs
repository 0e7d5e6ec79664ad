use zopfli::blocksplitter::{blocksplit, lz77_to_byte_positions};
use zopfli::lz77::Lz77Store;

fn sample() -> Lz77Store {
    // lengths 1, 1, 3, 1, 258, 1, 4, 1, 1, 5, 1, 1: 278 bytes in all
    let mut store = Lz77Store::new();
    store.lit_len_dist(97, 0);
    store.lit_len_dist(98, 0);
    store.lit_len_dist(3, 2);
    store.lit_len_dist(99, 0);
    store.lit_len_dist(258, 6);
    store.lit_len_dist(3, 0);
    store.lit_len_dist(4, 100);
    store.lit_len_dist(100, 0);
    store.lit_len_dist(0, 0);
    store.lit_len_dist(5, 32768);
    store.lit_len_dist(255, 0);
    store.lit_len_dist(7, 0);
    store
}

fn all_literals(in_data: &[u8], instart: usize, inend: usize) -> Lz77Store {
    let mut store = Lz77Store::new();
    for i in instart..inend {
        store.lit_len_dist(in_data[i] as u16, 0);
    }
    store
}

fn triples(_in_data: &[u8], instart: usize, inend: usize) -> Lz77Store {
    let mut store = Lz77Store::new();
    let mut left = inend - instart;
    while left >= 3 {
        store.lit_len_dist(3, 1);
        left -= 3;
    }
    while left > 0 {
        store.lit_len_dist(0, 0);
        left -= 1;
    }
    store
}

fn square(_lz77: &Lz77Store, lstart: usize, lend: usize) -> u64 {
    ((lend - lstart) * (lend - lstart)) as u64
}

#[test]
fn store_counts_tokens_and_bytes() {
    let store = sample();
    assert_eq!(store.size(), 12);
    assert_eq!(store.litlens.len(), 12);
    assert_eq!(store.dists.len(), 12);
    let lengths: Vec<u16> = (0..12).map(|i| store.token_length(i)).collect();
    assert_eq!(lengths, vec![1, 1, 3, 1, 258, 1, 4, 1, 1, 5, 1, 1]);
    assert_eq!(Lz77Store::new().size(), 0);
}

#[test]
fn literal_counts_one_byte_whatever_its_value() {
    let mut store = Lz77Store::new();
    store.lit_len_dist(200, 0);
    store.lit_len_dist(3, 0);
    store.lit_len_dist(3, 1);
    assert_eq!(store.token_length(0), 1);
    assert_eq!(store.token_length(1), 1);
    assert_eq!(store.token_length(2), 3);
}

#[test]
fn token_positions_become_byte_positions() {
    let store = sample();
    let mut bytes = Vec::new();
    lz77_to_byte_positions(&store, 0, &[2, 4, 5, 9, 11], &mut bytes);
    assert_eq!(bytes, vec![2, 6, 264, 271, 277]);
}

#[test]
fn byte_positions_count_from_instart() {
    let store = sample();
    let mut bytes = Vec::new();
    lz77_to_byte_positions(&store, 1000, &[1, 6], &mut bytes);
    assert_eq!(bytes, vec![1001, 1265]);
}

#[test]
fn no_token_positions_give_no_byte_positions() {
    let store = sample();
    let mut bytes = Vec::new();
    lz77_to_byte_positions(&store, 5, &[], &mut bytes);
    assert_eq!(bytes, Vec::<usize>::new());
    let empty = Lz77Store::new();
    lz77_to_byte_positions(&empty, 5, &[], &mut bytes);
    assert_eq!(bytes, Vec::<usize>::new());
}

#[test]
fn replay_finds_the_token_positions_again() {
    let store = sample();
    let instart = 40;
    let points = vec![2, 4, 5, 9, 11];
    let mut bytes = Vec::new();
    lz77_to_byte_positions(&store, instart, &points, &mut bytes);
    let mut found = Vec::new();
    let mut pos = instart;
    for n in 0..store.size() {
        if found.len() < bytes.len() && bytes[found.len()] == pos {
            found.push(n);
        }
        pos += store.token_length(n) as usize;
    }
    assert_eq!(found, points);
    for k in 0..points.len() {
        let sum: usize = (0..points[k]).map(|n| store.token_length(n) as usize).sum();
        assert_eq!(bytes[k], instart + sum);
    }
}

#[test]
fn blocksplit_of_literals_gives_the_token_positions() {
    let data: Vec<u8> = (0..40u8).collect();
    let mut points = Vec::new();
    blocksplit(all_literals, square, &data, 0, 40, 0, &mut points);
    assert_eq!(points, vec![5, 10, 15, 20, 25, 30, 35]);
}

#[test]
fn blocksplit_counts_from_instart() {
    let data: Vec<u8> = vec![7; 100];
    let mut points = Vec::new();
    blocksplit(all_literals, square, &data, 50, 62, 0, &mut points);
    assert_eq!(points, vec![56]);
}

#[test]
fn blocksplit_counts_the_bytes_of_matches() {
    let data: Vec<u8> = vec![0; 200];
    let mut points = Vec::new();
    // 12 matches of 3 bytes and 1 literal: 13 tokens
    blocksplit(triples, square, &data, 10, 47, 0, &mut points);
    assert_eq!(points, vec![10 + 6 * 3]);
}

#[test]
fn blocksplit_drops_what_the_list_held() {
    let data: Vec<u8> = vec![1; 12];
    let mut points = vec![3, 1, 4, 1, 5];
    blocksplit(all_literals, square, &data, 0, 12, 0, &mut points);
    assert_eq!(points, vec![6]);
    let mut points = vec![9, 9];
    blocksplit(all_literals, square, &data, 0, 5, 0, &mut points);
    assert_eq!(points, Vec::<usize>::new());
}

#[test]
fn blocksplit_keeps_to_the_block_limit() {
    let data: Vec<u8> = vec![1; 100];
    let mut points = Vec::new();
    blocksplit(all_literals, square, &data, 0, 100, 1, &mut points);
    assert_eq!(points, Vec::<usize>::new());
    blocksplit(all_literals, square, &data, 0, 100, 4, &mut points);
    assert_eq!(points, vec![25, 50, 75]);
}

#[test]
fn blocksplit_of_an_empty_range() {
    let data: Vec<u8> = vec![1; 10];
    let mut points = vec![1];
    blocksplit(all_literals, square, &data, 4, 4, 0, &mut points);
    assert_eq!(points, Vec::<usize>::new());
}

#[test]
fn byte_split_points_are_increasing_and_inside_the_range() {
    let data: Vec<u8> = vec![0; 4000];
    let mut points = Vec::new();
    blocksplit(triples, square, &data, 100, 3100, 0, &mut points);
    assert!(!points.is_empty());
    for k in 0..points.len() {
        assert!(100 < points[k] && points[k] < 3100);
        if k > 0 {
            assert!(points[k - 1] < points[k]);
        }
    }
}

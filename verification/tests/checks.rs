use zopfli::blocksplitter::check_split_list;
use zopfli::lz77::Lz77Store;

#[test]
fn split_lists_are_increasing_and_inside_the_stream() {
    assert!(check_split_list(&[], 0));
    assert!(check_split_list(&[], 12));
    assert!(check_split_list(&[6], 12));
    assert!(check_split_list(&[1, 2, 11], 12));
    assert!(!check_split_list(&[0, 5], 12));
    assert!(!check_split_list(&[5, 12], 12));
    assert!(!check_split_list(&[5, 5], 12));
    assert!(!check_split_list(&[7, 5], 12));
    assert!(!check_split_list(&[1, 3, 2, 4], 12));
}

#[test]
fn well_formed_store_has_matches_of_three_bytes_or_more() {
    let mut store = Lz77Store::new();
    assert!(store.is_wf());
    store.lit_len_dist(65, 0);
    store.lit_len_dist(3, 1);
    store.lit_len_dist(0, 0);
    assert!(store.is_wf());
    let short_match = Lz77Store { litlens: vec![65, 2], dists: vec![0, 1] };
    assert!(!short_match.is_wf());
    let uneven = Lz77Store { litlens: vec![65, 66], dists: vec![0] };
    assert!(!uneven.is_wf());
}

#[test]
fn byte_length_is_counted_up_to_a_limit() {
    let mut store = Lz77Store::new();
    assert_eq!(store.byte_length_within(0), Some(0));
    store.lit_len_dist(65, 0);
    store.lit_len_dist(258, 1);
    store.lit_len_dist(3, 7);
    assert_eq!(store.byte_length_within(262), Some(262));
    assert_eq!(store.byte_length_within(usize::MAX), Some(262));
    assert_eq!(store.byte_length_within(261), None);
    assert_eq!(store.byte_length_within(0), None);
}

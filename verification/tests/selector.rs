use zopfli::blocksplitter::find_largest_splittable_block;

#[test]
fn whole_stream_is_one_block() {
    let done = vec![0u8; 20];
    assert_eq!(find_largest_splittable_block(20, &done, &[]), Some((0, 20)));
}

#[test]
fn longest_block_is_chosen() {
    let done = vec![0u8; 40];
    assert_eq!(find_largest_splittable_block(40, &done, &[5, 30]), Some((5, 30)));
    assert_eq!(find_largest_splittable_block(40, &done, &[25, 30]), Some((0, 25)));
    assert_eq!(find_largest_splittable_block(40, &done, &[5, 10]), Some((10, 40)));
}

#[test]
fn earliest_block_wins_a_tie() {
    let done = vec![0u8; 30];
    assert_eq!(find_largest_splittable_block(30, &done, &[10, 20]), Some((0, 10)));
    let mut done = vec![0u8; 30];
    done[0] = 1;
    assert_eq!(find_largest_splittable_block(30, &done, &[10, 20]), Some((10, 20)));
    done[10] = 1;
    assert_eq!(find_largest_splittable_block(30, &done, &[10, 20]), Some((20, 30)));
}

#[test]
fn last_block_ends_at_the_end_of_the_stream() {
    let done = vec![0u8; 21];
    assert_eq!(find_largest_splittable_block(21, &done, &[10]), Some((10, 21)));
    let done = vec![0u8; 20];
    assert_eq!(find_largest_splittable_block(20, &done, &[10]), Some((0, 10)));
    let done = vec![0u8; 31];
    assert_eq!(find_largest_splittable_block(31, &done, &[10, 20]), Some((20, 31)));
}

#[test]
fn done_blocks_are_passed_over() {
    let mut done = vec![0u8; 40];
    done[5] = 1;
    assert_eq!(find_largest_splittable_block(40, &done, &[5, 30]), Some((30, 40)));
    done[30] = 1;
    assert_eq!(find_largest_splittable_block(40, &done, &[5, 30]), Some((0, 5)));
}

#[test]
fn no_block_is_left_when_all_are_done() {
    let mut done = vec![0u8; 40];
    done[0] = 1;
    assert_eq!(find_largest_splittable_block(40, &done, &[]), None);
    done[5] = 1;
    done[30] = 7;
    assert_eq!(find_largest_splittable_block(40, &done, &[5, 30]), None);
}

#[test]
fn marks_that_are_no_block_start_do_not_count() {
    let mut done = vec![1u8; 40];
    done[30] = 0;
    assert_eq!(find_largest_splittable_block(40, &done, &[5, 30]), Some((30, 40)));
    done[30] = 1;
    done[29] = 0;
    done[31] = 0;
    assert_eq!(find_largest_splittable_block(40, &done, &[5, 30]), None);
}

#[test]
fn block_of_one_token_is_still_a_candidate() {
    let mut done = vec![0u8; 12];
    done[0] = 1;
    assert_eq!(find_largest_splittable_block(12, &done, &[11]), Some((11, 12)));
    done[11] = 1;
    assert_eq!(find_largest_splittable_block(12, &done, &[11]), None);
}

#[test]
fn stream_of_one_token_is_one_block() {
    assert_eq!(find_largest_splittable_block(1, &[0u8], &[]), Some((0, 1)));
    assert_eq!(find_largest_splittable_block(1, &[1u8], &[]), None);
}

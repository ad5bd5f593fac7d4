use vex::render::{
    bloom_chain, drawable_ranges, grown_capacity, needs_resize, next_power_of_two, padded_row_bytes,
    strip_row_padding, upsample_order, BLOOM_MAX_LEVELS,
};

#[test]
fn bloom_chain_halves_from_half_resolution() {
    assert_eq!(
        bloom_chain(1920, 1080),
        vec![(960, 540), (480, 270), (240, 135), (120, 67), (60, 33), (30, 16)]
    );
    assert_eq!(bloom_chain(1920, 1080).len(), BLOOM_MAX_LEVELS);
}

#[test]
fn bloom_chain_stops_at_the_floor_but_keeps_one_level() {
    assert_eq!(bloom_chain(40, 20), vec![(20, 10)]);
    assert_eq!(bloom_chain(0, 0), vec![(1, 1)]);
    assert_eq!(bloom_chain(1, 7000), vec![(1, 3500)]);
    assert_eq!(bloom_chain(64, 64), vec![(32, 32), (16, 16), (8, 8)]);
}

#[test]
fn upsample_walks_from_second_smallest_to_full() {
    assert_eq!(upsample_order(4), vec![2, 1, 0]);
    assert_eq!(upsample_order(1), Vec::<usize>::new());
    assert_eq!(upsample_order(0), Vec::<usize>::new());
}

#[test]
fn resize_only_for_a_new_nonzero_size() {
    assert!(!needs_resize((800, 600), 800, 600));
    assert!(!needs_resize((800, 600), 0, 600));
    assert!(!needs_resize((800, 600), 800, 0));
    assert!(needs_resize((800, 600), 1024, 768));
    assert!(needs_resize((800, 600), 800, 601));
}

#[test]
fn buffers_grow_to_powers_of_two() {
    assert_eq!(next_power_of_two(0), 1);
    assert_eq!(next_power_of_two(1), 1);
    assert_eq!(next_power_of_two(5), 8);
    assert_eq!(next_power_of_two(8), 8);
    assert_eq!(next_power_of_two(1025), 2048);
    assert_eq!(grown_capacity(1024, 100), 1024);
    assert_eq!(grown_capacity(1024, 1024), 1024);
    assert_eq!(grown_capacity(1024, 1025), 2048);
    assert_eq!(grown_capacity(0, 3), 4);
}

#[test]
fn only_nonempty_uploaded_slices_are_drawn() {
    let ranges = [0..3, 3..3, 2..9, 5..8, 7..6];
    assert_eq!(drawable_ranges(&ranges, 8), vec![0..3, 5..8]);
    assert!(drawable_ranges(&ranges, 0).is_empty());
}

#[test]
fn readback_rows_are_padded_to_the_alignment() {
    assert_eq!(padded_row_bytes(100, 256), 256);
    assert_eq!(padded_row_bytes(512, 256), 512);
    assert_eq!(padded_row_bytes(513, 256), 768);
    assert_eq!(padded_row_bytes(0, 256), 0);
}

#[test]
fn row_padding_is_stripped() {
    let data: Vec<u8> = (0..8).collect();
    assert_eq!(strip_row_padding(&data, 3, 4), vec![0, 1, 2, 4, 5, 6]);
    assert_eq!(strip_row_padding(&data[..7], 3, 4), vec![0, 1, 2, 4, 5, 6]);
    assert_eq!(strip_row_padding(&data, 4, 4), data);
    assert!(strip_row_padding(&[], 3, 4).is_empty());
}

use vex::weld::weld_keys;

#[test]
fn equal_keys_share_a_vertex_in_first_seen_order() {
    let keys = vec![(5, 0, 0), (1, 1, 1), (5, 0, 0), (-3, 2, 9), (1, 1, 1)];
    let welded = weld_keys(&keys);
    assert_eq!(welded.representatives, vec![0, 1, 3]);
    assert_eq!(welded.ids, vec![0, 1, 0, 2, 1]);
}

#[test]
fn distinct_keys_stay_distinct() {
    let keys: Vec<(i64, i64, i64)> = (0..50).map(|i| (i, -i, i * i)).collect();
    let welded = weld_keys(&keys);
    assert_eq!(welded.representatives.len(), 50);
    assert_eq!(welded.ids, (0..50).collect::<Vec<u32>>());
}

#[test]
fn empty_input_welds_to_nothing() {
    let welded = weld_keys(&Vec::new());
    assert!(welded.representatives.is_empty());
    assert!(welded.ids.is_empty());
}

#[test]
fn colliding_buckets_still_weld_by_key() {
    // Many keys, lots of repeats: every id must point at a representative
    // with the same key.
    let keys: Vec<(i64, i64, i64)> = (0..800).map(|i| (i % 7, (i * 3) % 5, i64::MIN + (i % 11))).collect();
    let welded = weld_keys(&keys);
    for (i, &id) in welded.ids.iter().enumerate() {
        assert_eq!(keys[welded.representatives[id as usize] as usize], keys[i]);
    }
    assert_eq!(welded.representatives.len(), 7 * 5 * 11);
    assert_eq!(welded.ids.len(), 800);
}

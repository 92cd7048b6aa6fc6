use nufrost::stack::{
    group_duplicate_timestamps, holdout_index, pick_target_index, sampled_valid_counts, shared_timestamps, sorted_unique,
    timestamps_without, TargetMatchError,
};

fn strings(v: &[&str]) -> Vec<String> {
    v.iter().map(|s| s.to_string()).collect()
}

#[test]
fn test_collapse_duplicate_timestamps_no_dups() {
    let timestamps = strings(&["A", "B", "C"]);
    let (deduped_ts, groups) = group_duplicate_timestamps(&timestamps);
    assert_eq!(deduped_ts, strings(&["A", "B", "C"]));
    assert_eq!(groups, vec![vec![0], vec![1], vec![2]]);
}

#[test]
fn test_collapse_duplicate_timestamps_with_dups() {
    // Bands 0 and 2 share timestamp "A", bands 1 and 3 share "B".
    let timestamps = strings(&["A", "B", "A", "B"]);
    let (deduped_ts, groups) = group_duplicate_timestamps(&timestamps);
    assert_eq!(deduped_ts, strings(&["A", "B"]));
    assert_eq!(groups, vec![vec![0, 2], vec![1, 3]]);
}

#[test]
fn grouping_sorts_timestamps_and_covers_every_slice() {
    let timestamps = strings(&["2020-03", "2020-01", "2020-03", "2020-02", "2020-01"]);
    let (deduped_ts, groups) = group_duplicate_timestamps(&timestamps);
    assert_eq!(deduped_ts, strings(&["2020-01", "2020-02", "2020-03"]));
    assert_eq!(groups, vec![vec![1, 4], vec![3], vec![0, 2]]);
    let mut all: Vec<usize> = groups.concat();
    all.sort();
    assert_eq!(all, vec![0, 1, 2, 3, 4]);
}

#[test]
fn sorted_unique_dedups() {
    assert_eq!(sorted_unique(&strings(&["b", "a", "b", "c", "a"])), strings(&["a", "b", "c"]));
    assert_eq!(sorted_unique(&vec![]), Vec::<String>::new());
}

#[test]
fn shared_timestamps_intersects_all_bands() {
    let lists = vec![strings(&["C", "A", "B", "A"]), strings(&["B", "C", "D"]), strings(&["C", "B"])];
    assert_eq!(shared_timestamps(&lists), strings(&["B", "C"]));
    assert_eq!(shared_timestamps(&vec![]), Vec::<String>::new());
    assert_eq!(shared_timestamps(&vec![strings(&["X"]), vec![]]), Vec::<String>::new());
}

#[test]
fn test_make_masked_time_series_basic() {
    let timestamps = strings(&["A", "B", "C", "D", "E"]);
    let idx = holdout_index(&timestamps, "C").expect("should find target");
    assert_eq!(idx, 2);
    assert_eq!(timestamps_without(&timestamps, idx), strings(&["A", "B", "D", "E"]));
}

#[test]
fn test_make_masked_time_series_first_slice() {
    let timestamps = strings(&["X", "Y", "Z"]);
    let idx = holdout_index(&timestamps, "X").unwrap();
    assert_eq!(idx, 0);
    assert_eq!(timestamps_without(&timestamps, idx), strings(&["Y", "Z"]));
}

#[test]
fn test_make_masked_time_series_last_slice() {
    let timestamps = strings(&["X", "Y", "Z"]);
    let idx = holdout_index(&timestamps, "Z").unwrap();
    assert_eq!(idx, 2);
    assert_eq!(timestamps_without(&timestamps, idx), strings(&["X", "Y"]));
}

#[test]
fn test_make_masked_time_series_not_found() {
    let timestamps = strings(&["A", "A"]);
    let result = holdout_index(&timestamps, "B");
    assert!(result.is_err());
    assert_eq!(result, Err(TargetMatchError { matches: 0 }));
}

#[test]
fn test_make_masked_time_series_rejects_duplicate_target() {
    // 2 identical "A" timestamps: the target must be unique.
    let timestamps = strings(&["A", "A", "B"]);
    let result = holdout_index(&timestamps, "A");
    assert!(result.is_err(), "duplicate target should be rejected");
    assert_eq!(result, Err(TargetMatchError { matches: 2 }));
}

#[test]
fn test_make_masked_time_series_deduped_ok() {
    let timestamps = strings(&["A", "B", "C"]);
    let idx = holdout_index(&timestamps, "B").unwrap();
    assert_eq!(idx, 1);
    let mts = timestamps_without(&timestamps, idx);
    assert_eq!(mts, strings(&["A", "C"]));
    assert!(!mts.contains(&"B".to_string()));
}

// Target selection: `passes[i]` says whether candidate `i` (ascending)
// reaches the completeness threshold in every band, and `tail_len` is
// `max(1, ceil(n * late_fraction))`.

#[test]
fn test_select_shared_target_prefers_late() {
    // Candidates A, B, C; only C passes in both bands; late_fraction 0.5 gives a tail of 2.
    let passes = vec![false, false, true];
    assert_eq!(pick_target_index(&passes, 2), Some(2));
}

#[test]
fn test_select_shared_target_fallback() {
    // early passes, mid and late do not; late_fraction 0.34 gives a tail of 2.
    let passes = vec![true, false, false];
    assert_eq!(pick_target_index(&passes, 2), Some(0));
}

#[test]
fn test_select_shared_target_picks_latest_when_multiple_qualify() {
    let passes = vec![true, true, true];
    assert_eq!(pick_target_index(&passes, 3), Some(2));
}

#[test]
fn select_shared_target_none_pass() {
    let passes = vec![false, false, false, false];
    assert_eq!(pick_target_index(&passes, 1), None);
    assert_eq!(pick_target_index(&passes, 4), None);
}

#[test]
fn pick_is_latest_passing_for_every_tail_length() {
    let passes = vec![true, false, true, false, false];
    for tail in 1..=passes.len() {
        assert_eq!(pick_target_index(&passes, tail), Some(2));
    }
}

#[test]
fn sampled_grid_counts() {
    // 3 x 4 mask, row-major; step 2 samples rows 0, 2 and columns 0, 2.
    let valid = vec![
        true, false, false, true, //
        false, false, false, false, //
        true, true, true, true,
    ];
    assert_eq!(sampled_valid_counts(&valid, 3, 4, 2), (3, 4));
    assert_eq!(sampled_valid_counts(&valid, 3, 4, 1), (6, 12));
    assert_eq!(sampled_valid_counts(&valid, 3, 4, 8), (1, 1));
    assert_eq!(sampled_valid_counts(&[], 0, 5, 8), (0, 0));
    let all = vec![true; 17 * 9];
    assert_eq!(sampled_valid_counts(&all, 17, 9, 8), (6, 6));
}

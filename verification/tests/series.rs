use nufrost::series::{count_valid, next_even, SENTINEL2_VALID_MAX, SENTINEL2_VALID_MIN};
use nufrost::zhu2015::{break_starts, design_columns, select_model_order};

#[test]
fn count_valid_empty() {
    assert_eq!(count_valid(&[]), 0);
}

#[test]
fn count_valid_counts_true_entries() {
    assert_eq!(count_valid(&[true, false, false, false, true, false]), 2);
    assert_eq!(count_valid(&[true, true, true]), 3);
    assert_eq!(count_valid(&[false]), 0);
}

#[test]
fn sentinel2_constants_match_python() {
    assert!((SENTINEL2_VALID_MIN as f64 - 0.0).abs() < 1e-10);
    assert!((SENTINEL2_VALID_MAX as f64 - 10000.0).abs() < 1e-10);
}

#[test]
fn test_next_even() {
    assert_eq!(next_even(1), 2);
    assert_eq!(next_even(2), 2);
    assert_eq!(next_even(3), 4);
    assert_eq!(next_even(4095), 4096);
    assert_eq!(next_even(4096), 4096);
}

#[test]
fn next_even_of_zero_and_large_odd() {
    assert_eq!(next_even(0), 0);
    assert_eq!(next_even(usize::MAX - 2), usize::MAX - 1);
}

#[test]
fn test_select_model_order() {
    assert_eq!(select_model_order(0), 0);
    assert_eq!(select_model_order(5), 0);
    assert_eq!(select_model_order(6), 1);
    assert_eq!(select_model_order(12), 1);
    assert_eq!(select_model_order(17), 1);
    assert_eq!(select_model_order(18), 2);
    assert_eq!(select_model_order(23), 2);
    assert_eq!(select_model_order(24), 3);
    assert_eq!(select_model_order(100), 3);
}

#[test]
fn model_order_never_decreases() {
    let mut prev = 0;
    for n in 0..64 {
        let o = select_model_order(n);
        assert!(o >= prev);
        assert!(o <= 3);
        prev = o;
    }
}

#[test]
fn design_columns_per_order() {
    assert_eq!(design_columns(0), 1);
    assert_eq!(design_columns(1), 3);
    assert_eq!(design_columns(2), 5);
    assert_eq!(design_columns(3), 7);
    assert_eq!(design_columns(1000), 2001);
}

#[test]
fn break_starts_none_without_long_runs() {
    let mut exceed = vec![Some(true); 5];
    exceed.push(Some(false));
    exceed.extend(vec![Some(true); 5]);
    assert_eq!(break_starts(&exceed), Vec::<usize>::new());
}

#[test]
fn break_starts_after_six_large_residuals() {
    let exceed = vec![Some(false), Some(true), Some(true), Some(true), Some(true), Some(true), Some(true)];
    assert_eq!(break_starts(&exceed), vec![1]);
}

#[test]
fn break_starts_skips_non_finite_and_restarts_counting() {
    // Non-finite observations neither extend nor reset the run.
    let exceed = vec![
        Some(true), None, Some(true), Some(true), Some(true), Some(true), Some(true),
        Some(true), Some(true), Some(true), Some(true), Some(true), Some(true),
    ];
    assert_eq!(break_starts(&exceed), vec![1, 7]);
}

#[test]
fn break_starts_are_increasing() {
    let exceed = vec![Some(true); 30];
    let b = break_starts(&exceed);
    assert_eq!(b, vec![0, 6, 12, 18, 24]);
    for w in b.windows(2) {
        assert!(w[0] < w[1]);
    }
}

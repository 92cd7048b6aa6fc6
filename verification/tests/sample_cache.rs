use nufrost::sample_cache::{
    add_sampled_counts, band_time_byte_offset, build_sample_batch, check_sample_options, collect_eligible_pixels,
    f32_le_is_finite, generate_sample_tasks, plan_sample_cache, scene_is_compatible, strings_equal,
    total_eligible, validate_scene_meta, Lcg64, SampleCacheError, SampleTask, SceneBandLayout, SceneLayout,
    F32_NAN_LE,
};

fn strings(v: &[&str]) -> Vec<String> {
    v.iter().map(|s| s.to_string()).collect()
}

fn band(name: &str, ts: &[&str], offset_values: usize) -> SceneBandLayout {
    SceneBandLayout { name: name.to_string(), timestamps: strings(ts), time_len: ts.len(), offset_values }
}

/// One scene of 1 x 2 pixels, two bands, two time steps.
fn small_scene() -> SceneLayout {
    SceneLayout {
        version: 1,
        source_name: "sentinel-2".to_string(),
        rows: 1,
        cols: 2,
        layout: "band_time_row_col".to_string(),
        dtype: "f32_le".to_string(),
        bands: strings(&["B2", "B3"]),
        band_meta: vec![band("B2", &["t0", "t1"], 0), band("B3", &["t0", "t1"], 4)],
        total_values: 8,
    }
}

fn small_data() -> Vec<u8> {
    let values = [1.0f32, 2.0, 3.0, f32::NAN, 5.0, 6.0, 7.0, 8.0];
    values.iter().flat_map(|v| v.to_le_bytes()).collect()
}

#[test]
fn lcg_is_deterministic() {
    let mut a = Lcg64::new(42);
    let mut b = Lcg64::new(42);
    for _ in 0..16 {
        assert_eq!(a.next_u64(), b.next_u64());
    }
}

#[test]
fn lcg_range_stays_inside_upper_bound() {
    let mut rng = Lcg64::new(7);
    for _ in 0..100 {
        assert!(rng.gen_range(3) < 3);
    }
}

#[test]
fn lcg_known_values() {
    let mut a = Lcg64::new(42);
    assert_eq!(a.next_u64(), 10481999410520546993);
    assert_eq!(a.next_u64(), 4159066171780167020);
    assert_eq!(a.state, 4159066171780167020);
    let mut z = Lcg64::new(0);
    assert_eq!(z.state, 0x9e37_79b9_7f4a_7c15);
    assert_eq!(z.next_u64(), 3236661110929538048);
}

#[test]
fn gen_range_small_upper_keeps_state() {
    let mut a = Lcg64::new(42);
    assert_eq!(a.gen_range(1), 0);
    assert_eq!(a.gen_range(0), 0);
    assert_eq!(a.state, 42);
    assert_eq!(a.gen_range(10), (10481999410520546993u64 % 10) as usize);
}

#[test]
fn f32_finiteness_from_high_bytes() {
    for v in [0.0f32, -1.5, 1e30, f32::MIN_POSITIVE, f32::MAX] {
        let b = v.to_le_bytes();
        assert!(f32_le_is_finite(b[2], b[3]));
    }
    for v in [f32::NAN, f32::INFINITY, f32::NEG_INFINITY] {
        let b = v.to_le_bytes();
        assert!(!f32_le_is_finite(b[2], b[3]));
    }
    assert_eq!(F32_NAN_LE, f32::NAN.to_le_bytes());
}

#[test]
fn scene_meta_validation() {
    assert_eq!(validate_scene_meta(&small_scene()), Ok(()));
    let mut m = small_scene();
    m.bands = vec![];
    assert_eq!(validate_scene_meta(&m), Err(SampleCacheError::NoBands));
    let mut m = small_scene();
    m.bands.push("B4".to_string());
    assert_eq!(validate_scene_meta(&m), Err(SampleCacheError::BandCountMismatch { bands: 3, band_meta: 2 }));
    let mut m = small_scene();
    m.bands = strings(&["B2", "B4"]);
    assert_eq!(validate_scene_meta(&m), Err(SampleCacheError::BandOrderMismatch { index: 1 }));
    let mut m = small_scene();
    m.band_meta[1] = band("B3", &["t0", "t2"], 4);
    assert_eq!(validate_scene_meta(&m), Err(SampleCacheError::UnalignedTimestamps { index: 1 }));
}

#[test]
fn scene_compatibility_and_string_lists() {
    assert!(scene_is_compatible(&small_scene(), "sentinel-2"));
    assert!(!scene_is_compatible(&small_scene(), "hls"));
    let mut m = small_scene();
    m.version = 2;
    assert!(!scene_is_compatible(&m, "sentinel-2"));
    assert!(strings_equal(&strings(&["a", "b"]), &strings(&["a", "b"])));
    assert!(!strings_equal(&strings(&["a", "b"]), &strings(&["a"])));
    assert!(!strings_equal(&strings(&["a", "b"]), &strings(&["a", "c"])));
}

#[test]
fn band_time_byte_offsets() {
    let m = small_scene();
    assert_eq!(band_time_byte_offset(&m, &m.band_meta[1], 1), Ok(24));
    assert_eq!(band_time_byte_offset(&m, &m.band_meta[0], 0), Ok(0));
    let mut big = small_scene();
    big.rows = usize::MAX;
    assert_eq!(band_time_byte_offset(&big, &big.band_meta[0], 2), Err(SampleCacheError::OffsetOverflow));
}

#[test]
fn eligible_pixels_by_joint_valid_count() {
    let m = small_scene();
    let data = small_data();
    assert_eq!(collect_eligible_pixels(&m, &data, 2), Ok(vec![0]));
    assert_eq!(collect_eligible_pixels(&m, &data, 1), Ok(vec![0, 1]));
    assert_eq!(collect_eligible_pixels(&m, &data, 3), Ok(vec![]));
    assert_eq!(collect_eligible_pixels(&m, &data[..31], 1), Err(SampleCacheError::SliceOutOfRange));
}

#[test]
fn total_eligible_sums_lengths() {
    assert_eq!(total_eligible(&vec![vec![0, 2, 5], vec![1], vec![]]), Some(4));
    assert_eq!(total_eligible(&vec![]), Some(0));
}

#[test]
fn sample_tasks_are_drawn_and_sorted() {
    let eligible = vec![vec![0u32, 2, 5], vec![1u32]];
    let mut rng = Lcg64::new(7);
    let tasks = generate_sample_tasks(&mut rng, &eligible, &vec![3, 2], &vec![4, 7], 5);
    let t = |scene_id, pixel_offset, row, col, n_times| SampleTask { scene_id, row, col, pixel_offset, n_times };
    assert_eq!(
        tasks,
        vec![t(0, 0, 0, 0, 4), t(0, 2, 0, 2, 4), t(0, 5, 1, 2, 4), t(0, 5, 1, 2, 4), t(1, 1, 0, 1, 7)]
    );
    assert_eq!(rng.state, 4913833818393328094);
    let mut again = Lcg64::new(7);
    assert_eq!(generate_sample_tasks(&mut again, &eligible, &vec![3, 2], &vec![4, 7], 5), tasks);
}

#[test]
fn single_eligible_pixel_is_drawn_without_advancing() {
    let eligible = vec![vec![], vec![3u32]];
    let mut rng = Lcg64::new(9);
    let tasks = generate_sample_tasks(&mut rng, &eligible, &vec![0, 2], &vec![1, 5], 2);
    let task = SampleTask { scene_id: 1, row: 1, col: 1, pixel_offset: 3, n_times: 5 };
    assert_eq!(tasks, vec![task, task]);
    assert_eq!(rng.state, 9);
}

#[test]
fn sample_batch_records() {
    let scenes = vec![small_scene()];
    let data = small_data();
    let views: Vec<&[u8]> = vec![&data];
    let tasks = [SampleTask { scene_id: 0, row: 0, col: 1, pixel_offset: 1, n_times: 2 }];
    let batch = build_sample_batch(&scenes, &views, &tasks, 3, 2).unwrap();
    let mut expected_samples: Vec<u8> = Vec::new();
    for v in [2.0f32, 6.0] {
        expected_samples.extend(v.to_le_bytes());
    }
    expected_samples.extend(f32::NAN.to_le_bytes());
    expected_samples.extend(8.0f32.to_le_bytes());
    expected_samples.extend(F32_NAN_LE);
    expected_samples.extend(F32_NAN_LE);
    assert_eq!(batch.samples, expected_samples);
    assert_eq!(batch.samples.len(), 3 * 2 * 4);
    assert_eq!(batch.mask, vec![1, 0, 0]);
    let mut expected_index: Vec<u8> = Vec::new();
    for v in [0u64, 0, 1, 2] {
        expected_index.extend(v.to_le_bytes());
    }
    assert_eq!(batch.index, expected_index);
}

#[test]
fn sample_batch_errors() {
    let scenes = vec![small_scene()];
    let data = small_data();
    let views: Vec<&[u8]> = vec![&data];
    let tasks = [SampleTask { scene_id: 0, row: 0, col: 0, pixel_offset: 0, n_times: 2 }];
    assert_eq!(
        build_sample_batch(&scenes, &views, &tasks, 3, 3).err(),
        Some(SampleCacheError::SceneBandCountMismatch { scene_id: 0 })
    );
    let short: Vec<&[u8]> = vec![&data[..20]];
    assert_eq!(build_sample_batch(&scenes, &short, &tasks, 3, 2).err(), Some(SampleCacheError::SliceOutOfRange));
    assert_eq!(
        build_sample_batch(&scenes, &views, &tasks, usize::MAX, 2).err(),
        Some(SampleCacheError::OffsetOverflow)
    );
    let empty = build_sample_batch(&scenes, &views, &[], 3, 2).unwrap();
    assert!(empty.samples.is_empty() && empty.mask.is_empty() && empty.index.is_empty());
}

#[test]
fn sample_options_checks() {
    assert_eq!(check_sample_options(0, 4), Err(SampleCacheError::ZeroSamples));
    assert_eq!(check_sample_options(10, 0), Err(SampleCacheError::ZeroAttemptMultiplier));
    assert_eq!(check_sample_options(10, 4), Ok(()));
}

#[test]
fn sample_cache_plan() {
    let mut second = small_scene();
    second.band_meta[0].time_len = 5;
    let plan = plan_sample_cache(&vec![small_scene(), second]).unwrap();
    assert_eq!(plan.n_bands, 2);
    assert_eq!(plan.max_times, 5);
    assert_eq!(plan.sample_bytes_per_record, 40);
    assert_eq!(plan.mask_bytes_per_record, 5);
    assert_eq!(plan.time_offsets, vec![0, 2]);
    assert_eq!(plan_sample_cache(&vec![]).err(), Some(SampleCacheError::NoScenes));
    let mut empty_time = small_scene();
    empty_time.band_meta[0].time_len = 0;
    assert_eq!(plan_sample_cache(&vec![empty_time]).err(), Some(SampleCacheError::EmptyTimeAxis));
}

#[test]
fn sampled_counts_per_scene() {
    let t = |scene_id| SampleTask { scene_id, row: 0, col: 0, pixel_offset: 0, n_times: 1 };
    let mut counts = vec![1, 0, 0];
    add_sampled_counts(&mut counts, &[t(0), t(2), t(2)]);
    assert_eq!(counts, vec![2, 0, 2]);
}

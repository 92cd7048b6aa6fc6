use nufrost::config::{
    check_nufrost_config, default_admm_max_iter, default_empty_string, default_frequency_selection,
    default_joint_outlier, default_max_outer_iter, default_normalization_mode, default_outlier_reject_iters,
    default_preferred_top_k, default_private_top_k_per_band, default_spectral_top_k, default_step_dt_weighting,
    InvalidConfigValue,
};

#[test]
fn nufrost_validate_zero_modes() {
    // modes = 0 with an otherwise valid configuration (eps 1e-12, default fraction,
    // shrinkage and normalization).
    let err = check_nufrost_config(0, 10, true, true, true, "robust").unwrap_err();
    assert!(err.field.contains("modes"));
    assert_eq!(err.reason, "must be > 0");
}

#[test]
fn centered_reflectance_normalization_is_valid() {
    check_nufrost_config(4096, 10, true, true, true, "centered_reflectance").unwrap();
}

#[test]
fn config_checks_in_order() {
    let e = |field: &str, reason: &str| InvalidConfigValue { field: field.to_string(), reason: reason.to_string() };
    assert_eq!(check_nufrost_config(0, 0, false, false, false, "x"), Err(e("modes", "must be > 0")));
    assert_eq!(check_nufrost_config(1, 0, false, false, false, "x"), Err(e("num_peaks", "must be > 0")));
    assert_eq!(check_nufrost_config(1, 1, false, false, false, "x"), Err(e("eps", "must be > 0")));
    assert_eq!(
        check_nufrost_config(1, 1, true, false, false, "x"),
        Err(e("outlier_reject_max_fraction", "must be in [0, 1)"))
    );
    assert_eq!(check_nufrost_config(1, 1, true, true, false, "x"), Err(e("multiband_shrinkage", "must be >= 0")));
    assert_eq!(
        check_nufrost_config(1, 1, true, true, true, "x"),
        Err(e("normalization_mode", "must be robust, reflectance, or centered_reflectance"))
    );
    assert_eq!(check_nufrost_config(1, 1, true, true, true, "reflectance"), Ok(()));
    assert_eq!(check_nufrost_config(1, 1, true, true, true, "robust"), Ok(()));
}

#[test]
fn config_defaults() {
    assert_eq!(default_frequency_selection(), "spectral");
    assert_eq!(default_empty_string(), "");
    assert_eq!(default_normalization_mode(), "robust");
    assert_eq!(default_preferred_top_k(), 4);
    assert_eq!(default_outlier_reject_iters(), 2);
    assert!(default_joint_outlier());
    assert_eq!(default_spectral_top_k(), 8);
    assert_eq!(default_private_top_k_per_band(), 2);
    assert_eq!(default_max_outer_iter(), 5);
    assert_eq!(default_admm_max_iter(), 80);
    assert!(default_step_dt_weighting());
}

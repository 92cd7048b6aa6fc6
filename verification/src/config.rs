//! Defaults and checks of the NUFROST configuration that do not involve
//! real-valued parameters.
use vstd::prelude::*;

use crate::text::push_str;

verus! {

/// Default frequency selection mode.
pub fn default_frequency_selection() -> (r: String)
    ensures
        r@ == "spectral"@,
{
    String::from_str("spectral")
}

/// Default for optional text fields.
pub fn default_empty_string() -> (r: String)
    ensures
        r@.len() == 0,
{
    String::new()
}

/// Default number of preferred periods kept.
pub fn default_preferred_top_k() -> (r: u32)
    ensures
        r == 4,
{
    4
}

/// Default number of spectral peaks kept.
pub fn default_spectral_top_k() -> (r: u32)
    ensures
        r == 8,
{
    8
}

/// Default number of band-specific frequencies per band.
pub fn default_private_top_k_per_band() -> (r: usize)
    ensures
        r == 2,
{
    2
}

/// Default multi-band normalization mode.
pub fn default_normalization_mode() -> (r: String)
    ensures
        r@ == "robust"@,
{
    String::from_str("robust")
}

/// Default number of outlier-rejection passes.
pub fn default_outlier_reject_iters() -> (r: u32)
    ensures
        r == 2,
{
    2
}

/// Default number of outer iterations of the step model.
pub fn default_max_outer_iter() -> (r: u32)
    ensures
        r == 5,
{
    5
}

/// Default number of ADMM iterations.
pub fn default_admm_max_iter() -> (r: u32)
    ensures
        r == 80,
{
    80
}

/// Step differences are weighted by time gaps by default.
pub fn default_step_dt_weighting() -> (r: bool)
    ensures
        r,
{
    true
}

/// Joint outlier rejection across bands is on by default.
pub fn default_joint_outlier() -> (r: bool)
    ensures
        r,
{
    true
}

/// Whether `mode` names a supported multi-band normalization.
pub open spec fn valid_normalization_mode(mode: Seq<char>) -> bool {
    mode == "robust"@ || mode == "reflectance"@ || mode == "centered_reflectance"@
}

/// An invalid configuration value: the field and the reason.
#[derive(Debug, PartialEq, Eq)]
pub struct InvalidConfigValue {
    pub field: String,
    pub reason: String,
}

/// Checks of the NUFROST configuration, in order: `modes > 0`,
/// `num_peaks > 0`, `eps > 0`, `outlier_reject_max_fraction` in `[0, 1)`,
/// `multiband_shrinkage >= 0`, and a supported normalization mode; the
/// real-valued checks are given by their outcomes.
pub open spec fn first_config_violation(
    modes: u32,
    num_peaks: u32,
    eps_positive: bool,
    fraction_in_unit_interval: bool,
    shrinkage_nonnegative: bool,
    normalization_mode: Seq<char>,
) -> Option<(Seq<char>, Seq<char>)> {
    if modes == 0 {
        Some(("modes"@, "must be > 0"@))
    } else if num_peaks == 0 {
        Some(("num_peaks"@, "must be > 0"@))
    } else if !eps_positive {
        Some(("eps"@, "must be > 0"@))
    } else if !fraction_in_unit_interval {
        Some(("outlier_reject_max_fraction"@, "must be in [0, 1)"@))
    } else if !shrinkage_nonnegative {
        Some(("multiband_shrinkage"@, "must be >= 0"@))
    } else if !valid_normalization_mode(normalization_mode) {
        Some(("normalization_mode"@, "must be robust, reflectance, or centered_reflectance"@))
    } else {
        None
    }
}

fn invalid(field: &str, reason: &str) -> (r: InvalidConfigValue)
    ensures
        r.field@ == field@,
        r.reason@ == reason@,
{
    let mut f = String::new();
    push_str(&mut f, field);
    let mut m = String::new();
    push_str(&mut m, reason);
    assert(f@ =~= field@);
    assert(m@ =~= reason@);
    InvalidConfigValue { field: f, reason: m }
}

/// Validates a NUFROST configuration, reporting the first failing check.
pub fn check_nufrost_config(
    modes: u32,
    num_peaks: u32,
    eps_positive: bool,
    fraction_in_unit_interval: bool,
    shrinkage_nonnegative: bool,
    normalization_mode: &str,
) -> (r: Result<(), InvalidConfigValue>)
    ensures
        r is Ok <==> first_config_violation(
            modes,
            num_peaks,
            eps_positive,
            fraction_in_unit_interval,
            shrinkage_nonnegative,
            normalization_mode@,
        ) is None,
        r matches Err(e) ==> first_config_violation(
            modes,
            num_peaks,
            eps_positive,
            fraction_in_unit_interval,
            shrinkage_nonnegative,
            normalization_mode@,
        ) == Some((e.field@, e.reason@)),
{
    if modes == 0 {
        return Err(invalid("modes", "must be > 0"));
    }
    if num_peaks == 0 {
        return Err(invalid("num_peaks", "must be > 0"));
    }
    if !eps_positive {
        return Err(invalid("eps", "must be > 0"));
    }
    if !fraction_in_unit_interval {
        return Err(invalid("outlier_reject_max_fraction", "must be in [0, 1)"));
    }
    if !shrinkage_nonnegative {
        return Err(invalid("multiband_shrinkage", "must be >= 0"));
    }
    let m = normalization_mode;
    if !crate::text::str_equal(m, "robust") && !crate::text::str_equal(m, "reflectance")
        && !crate::text::str_equal(m, "centered_reflectance") {
        return Err(invalid("normalization_mode", "must be robust, reflectance, or centered_reflectance"));
    }
    Ok(())
}

} // verus!

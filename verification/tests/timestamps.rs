use nufrost::time::{
    band_description_epochs, description_epoch_seconds, find_timestamp_substring, parse_iso8601_to_epoch_seconds,
    parse_timestamps_to_epoch_seconds, raw_band_timestamp, RasterInputError, TimestampError,
};

#[test]
fn test_find_timestamp_substring_sentinel2() {
    assert_eq!(
        find_timestamp_substring("20151227T035152_20151227T035506_T48RVV_B2"),
        Some("20151227T035152")
    );
    assert_eq!(
        find_timestamp_substring("20200101T045859_20200101T045859_T48RVV_B2"),
        Some("20200101T045859")
    );
}

#[test]
fn test_find_timestamp_substring_no_match() {
    assert_eq!(find_timestamp_substring("no_timestamp_here"), None);
    assert_eq!(find_timestamp_substring(""), None);
}

#[test]
fn find_timestamp_substring_in_the_middle() {
    assert_eq!(find_timestamp_substring("B2_20171221T035139x"), Some("20171221T035139"));
    assert_eq!(find_timestamp_substring("2017122T035139"), None);
    assert_eq!(find_timestamp_substring("20171221t035139"), None);
}

#[test]
fn parse_sentinel2_format() {
    let ts = "20171221T035139";
    let epoch = parse_iso8601_to_epoch_seconds(ts).expect("should parse");
    assert!((epoch as f64 - 1_513_828_299.0).abs() < 1.0);
}

#[test]
fn parse_iso8601_dashed() {
    let ts = "2026-01-01T00:00:00";
    let epoch = parse_iso8601_to_epoch_seconds(ts).expect("should parse");
    assert!((epoch as f64 - 1_767_225_600.0).abs() < 1.0);
}

#[test]
fn parse_empty_returns_none() {
    assert!(parse_iso8601_to_epoch_seconds("").is_none());
}

#[test]
fn parse_invalid_returns_none() {
    assert!(parse_iso8601_to_epoch_seconds("not-a-date").is_none());
}

#[test]
fn parse_other_formats_and_whitespace() {
    assert_eq!(parse_iso8601_to_epoch_seconds("2026-01-01 00:00:00"), Some(1_767_225_600));
    assert_eq!(parse_iso8601_to_epoch_seconds("2026-01-01T00:00:00Z"), Some(1_767_225_600));
    assert_eq!(parse_iso8601_to_epoch_seconds("  20171221T035139\n"), Some(1_513_828_299));
    assert_eq!(parse_iso8601_to_epoch_seconds("   "), None);
}

#[test]
fn parse_date_without_time_is_rejected() {
    // A format without a time of day never yields a complete date and time.
    assert_eq!(parse_iso8601_to_epoch_seconds("2026-01-01"), None);
    assert_eq!(parse_iso8601_to_epoch_seconds("20260101"), None);
}

#[test]
fn parse_timestamps_all_or_first_error() {
    let ok = parse_timestamps_to_epoch_seconds(&["20171221T035139", "20180105T035139"]).unwrap();
    assert_eq!(ok, vec![1_513_828_299, 1_513_828_299 + 15 * 86_400]);
    let err = parse_timestamps_to_epoch_seconds(&["20171221T035139", "bad", "worse"]).unwrap_err();
    assert_eq!(err, TimestampError::InvalidTimestamp("bad".to_string()));
    assert_eq!(parse_timestamps_to_epoch_seconds(&[]).unwrap(), Vec::<i64>::new());
}

#[test]
fn description_epoch_from_embedded_or_rfc3339() {
    assert_eq!(
        description_epoch_seconds("20171221T035139_20171221T035506_T48RVV_B2"),
        Some(1_513_828_299)
    );
    assert_eq!(description_epoch_seconds("2017-12-21T03:51:39"), Some(1_513_828_299));
    assert_eq!(description_epoch_seconds("2017-12-21T05:51:39+02:00"), Some(1_513_828_299));
    assert_eq!(description_epoch_seconds("Band 1"), None);
}

#[test]
fn band_description_epochs_errors() {
    assert_eq!(band_description_epochs(&vec![]), Err(RasterInputError::EmptyRaster));
    let descs = vec![Some("20171221T035139".to_string()), Some("  Band 2 ".to_string())];
    assert_eq!(
        band_description_epochs(&descs),
        Err(RasterInputError::InvalidBandTimestamp { band_idx: 2, description: "Band 2".to_string() })
    );
    let descs = vec![None, Some("20171221T035139".to_string())];
    assert_eq!(
        band_description_epochs(&descs),
        Err(RasterInputError::InvalidBandTimestamp { band_idx: 1, description: "<unavailable>".to_string() })
    );
    let descs = vec![Some("20171221T035139".to_string()), Some("2026-01-01T00:00:00".to_string())];
    assert_eq!(band_description_epochs(&descs), Ok(vec![1_513_828_299, 1_767_225_600]));
}

#[test]
fn raw_band_timestamp_or_empty() {
    assert_eq!(raw_band_timestamp(" 20171221T035139_B2 "), "20171221T035139");
    assert_eq!(raw_band_timestamp("Band 1"), "");
}

#[test]
fn raster_input_error_messages() {
    assert_eq!(RasterInputError::EmptyRaster.message(), "raster has no bands");
    assert_eq!(
        RasterInputError::BandTimestampMismatch { n_bands: 3, n_timestamps: 2 }.message(),
        "band count (3) != timestamp count (2)"
    );
    assert_eq!(
        RasterInputError::ZeroSize { rows: 0, cols: 5 }.message(),
        "raster has zero spatial size (0r \u{d7} 5c)"
    );
    assert_eq!(
        RasterInputError::InvalidBandTimestamp { band_idx: 4, description: "x".to_string() }.message(),
        "band 4 description is not a valid timestamp: 'x'"
    );
}

use nufrost::bands::{
    band_compare, band_from_file_name, complete_sentinel_locations, find_from, parse_sentinel_location_from_filename, sentinel_band_sort_key, sorted_band_names,
    validate_full_scene_methods, MethodListError,
};

fn strings(v: &[&str]) -> Vec<String> {
    v.iter().map(|s| s.to_string()).collect()
}

#[test]
fn test_band_sort_key_simple() {
    assert_eq!(sentinel_band_sort_key("B2"), (2, "".into()));
    assert_eq!(sentinel_band_sort_key("B12"), (12, "".into()));
}

#[test]
fn test_band_sort_key_b8a() {
    assert_eq!(sentinel_band_sort_key("B8A"), (8, "A".into()));
    assert_eq!(sentinel_band_sort_key("B09"), (9, "".into()));
}

#[test]
fn test_band_sort_key_unknown() {
    assert_eq!(sentinel_band_sort_key("Z99"), (10_000, "Z99".into()));
    assert_eq!(sentinel_band_sort_key(""), (10_000, "".into()));
}

#[test]
fn band_sort_key_other_shapes() {
    assert_eq!(sentinel_band_sort_key("B"), (10_000, "B".into()));
    assert_eq!(sentinel_band_sort_key("B8a"), (10_000, "B8a".into()));
    assert_eq!(sentinel_band_sort_key("BA"), (10_000, "BA".into()));
    assert_eq!(sentinel_band_sort_key("B99999999999"), (10_000, "".into()));
}

#[test]
fn test_band_sort_ordering() {
    let bands = strings(&["B12", "B2", "B8A", "B8", "B3", "B11", "B4"]);
    let sorted = sorted_band_names(&bands);
    assert_eq!(sorted, strings(&["B2", "B3", "B4", "B8", "B8A", "B11", "B12"]));
}

#[test]
fn sorted_band_names_puts_unknown_names_last_by_name() {
    let bands = strings(&["cloud", "B2", "aerosol", "B1"]);
    assert_eq!(sorted_band_names(&bands), strings(&["B1", "B2", "aerosol", "cloud"]));
    assert_eq!(sorted_band_names(&vec![]), Vec::<String>::new());
}

#[test]
fn band_compare_three_way() {
    assert_eq!(band_compare("B2", "B11"), -1);
    assert_eq!(band_compare("B11", "B2"), 1);
    assert_eq!(band_compare("B8", "B8A"), -1);
    assert_eq!(band_compare("B02", "B2"), -1);
    assert_eq!(band_compare("B4", "B4"), 0);
}

#[test]
fn validate_methods_trims_and_skips_empty_items() {
    assert_eq!(
        validate_full_scene_methods(" nufrost, hants,,zhu2015 "),
        Ok(strings(&["nufrost", "hants", "zhu2015"]))
    );
    assert_eq!(validate_full_scene_methods("hants"), Ok(strings(&["hants"])));
}

#[test]
fn validate_methods_errors() {
    assert_eq!(validate_full_scene_methods(""), Err(MethodListError::Empty));
    assert_eq!(validate_full_scene_methods(" , ,"), Err(MethodListError::Empty));
    assert_eq!(
        validate_full_scene_methods("nufrost,ccdc,foo"),
        Err(MethodListError::Unknown("ccdc".to_string()))
    );
}

#[test]
fn find_from_first_occurrence() {
    let cs: Vec<char> = "abcabc".chars().collect();
    let pat: Vec<char> = "bc".chars().collect();
    assert_eq!(find_from(&cs, &pat, 0), Some(1));
    assert_eq!(find_from(&cs, &pat, 2), Some(4));
    assert_eq!(find_from(&cs, &pat, 5), None);
}

#[test]
fn parse_location_from_sentinel_filename() {
    assert_eq!(
        parse_sentinel_location_from_filename("COPERNICUS_S2_HARMONIZED_B2_lon104.2595_lat31.2170.tif"),
        Some(("B2".to_string(), "104.2595".to_string(), "31.2170".to_string()))
    );
    assert_eq!(
        parse_sentinel_location_from_filename("COPERNICUS_S2_HARMONIZED_B8A_lon-1.5_lat2.25-0001.tif"),
        Some(("B8A".to_string(), "-1.5".to_string(), "2.25".to_string()))
    );
    assert_eq!(parse_sentinel_location_from_filename("OTHER_B2_lon1_lat2.tif"), None);
    assert_eq!(parse_sentinel_location_from_filename("COPERNICUS_S2_HARMONIZED_B2_lon1_lat2.vrt"), None);
    assert_eq!(parse_sentinel_location_from_filename("COPERNICUS_S2_HARMONIZED_B2_lat2.tif"), None);
}

#[test]
fn complete_locations_need_every_required_band() {
    let f = |b: &str, lon: &str, lat: &str| (b.to_string(), lon.to_string(), lat.to_string());
    let mut files = Vec::new();
    for b in ["B12", "B2", "B3", "B4", "B8", "B11"] {
        files.push(f(b, "104.2595", "31.2170"));
    }
    for b in ["B2", "B3", "B4", "B8", "B11"] {
        files.push(f(b, "10.0", "20.0"));
    }
    files.push(f("B2", "104.2595", "31.2170"));
    for b in ["B11", "B12", "B8", "B4", "B3", "B2", "B8A"] {
        files.push(f(b, "-1.5", "2.25"));
    }
    assert_eq!(
        complete_sentinel_locations(&files),
        vec![
            ("104.2595".to_string(), "31.2170".to_string()),
            ("-1.5".to_string(), "2.25".to_string()),
        ]
    );
    assert_eq!(complete_sentinel_locations(&vec![]), Vec::<(String, String)>::new());
}

#[test]
fn band_field_of_source_file_names() {
    let b = |s: &str| band_from_file_name(s);
    assert_eq!(b("COPERNICUS_S2_HARMONIZED_B2_lon104.2595_lat31.2170.tif"), Some("B2".to_string()));
    assert_eq!(b("x_COPERNICUS_S2_HARMONIZED_B8A_lon1_lat2.tif"), Some("B8A".to_string()));
    assert_eq!(b("COPERNICUS_S2_HARMONIZED_B12_lat2.tif"), None);
    assert_eq!(b("COPERNICUS_S2_HARMONIZED_B_lon1.tif"), None);
    assert_eq!(b("COPERNICUS_S2_HARMONIZED_B8AA_lon1.tif"), None);
    assert_eq!(b("COPERNICUS_S2_HARMONIZED_QA_lon1_COPERNICUS_S2_HARMONIZED_B11_lon1.tif"), Some("B11".to_string()));
    assert_eq!(b(""), None);
}

#[test]
fn band_sort_key_non_ascii_digits() {
    // ARABIC-INDIC DIGIT THREE is a decimal digit, so the name has the band
    // shape, but its number cannot be read as a `u32`.
    assert_eq!(sentinel_band_sort_key("B\u{663}"), (10_000, "".into()));
    assert_eq!(sentinel_band_sort_key("B1\u{663}A"), (10_000, "A".into()));
    assert_eq!(sentinel_band_sort_key("B\u{ff11}\u{ff12}"), (10_000, "".into()));
    // A letter that is not a digit still breaks the shape.
    assert_eq!(sentinel_band_sort_key("B1\u{e9}"), (10_000, "B1\u{e9}".into()));
    let bands = strings(&["cloud", "B\u{663}", "B2"]);
    assert_eq!(sorted_band_names(&bands), strings(&["B2", "B\u{663}", "cloud"]));
}

#[test]
fn band_field_with_non_ascii_digits() {
    let b = |s: &str| band_from_file_name(s);
    assert_eq!(b("COPERNICUS_S2_HARMONIZED_B\u{663}_lon1_lat2.tif"), Some("B\u{663}".to_string()));
    assert_eq!(b("COPERNICUS_S2_HARMONIZED_B1\u{966}A_lon1.tif"), Some("B1\u{966}A".to_string()));
    assert_eq!(b("COPERNICUS_S2_HARMONIZED_B1\u{e9}_lon1.tif"), None);
}

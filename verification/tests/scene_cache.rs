use nufrost::md5::md5_hex;
use nufrost::scene_cache::{
    centered_window_offset, check_scene_cache_header, check_scene_data_size, clamped_window_offset, escape_xml_text,
    fingerprint_manifest, insert_vrt_band_descriptions, safe_cache_component, scene_band_byte_range,
    scene_cache_is_current, source_fingerprint_for_band_stacks, window_at_offset, window_top_left, BandSources,
    SceneCacheError, SourceFileStat, WindowError, SCENE_CACHE_VERSION,
};

#[test]
fn md5_matches_standard_vectors() {
    assert_eq!(md5_hex(b""), "d41d8cd98f00b204e9800998ecf8427e");
    assert_eq!(md5_hex(b"abc"), "900150983cd24fb0d6963f7d28e17f72");
    assert_eq!(
        md5_hex(b"The quick brown fox jumps over the lazy dog"),
        "9e107d9d372bb6826bd81d3542a419d6"
    );
}

#[test]
fn md5_block_boundaries() {
    assert_eq!(md5_hex(&[b'a'; 56]), "3b0c8ac703f828b04c6c197006d17218");
    assert_eq!(md5_hex(&[b'a'; 64]), "014842d480b571495a4a0363793f7367");
    assert_eq!(
        md5_hex(b"12345678901234567890123456789012345678901234567890123456789012345678901234567890"),
        "57edf4a22be3c955ac49da2e2107b67a"
    );
}

#[test]
fn safe_cache_component_replaces_unsafe_chars() {
    assert_eq!(safe_cache_component("sentinel-2_B8A"), "sentinel-2_B8A");
    assert_eq!(safe_cache_component("lon104.2595 lat/31"), "lon104_2595_lat_31");
    assert_eq!(safe_cache_component("é:"), "__");
    let once = safe_cache_component("a.b/c");
    assert_eq!(safe_cache_component(&once), once);
}

#[test]
fn escape_xml_text_entities() {
    assert_eq!(escape_xml_text("a<b>&\"c'"), "a&lt;b&gt;&amp;&quot;c&apos;");
    assert_eq!(escape_xml_text("plain"), "plain");
    assert_eq!(escape_xml_text(""), "");
}

fn stacks() -> Vec<BandSources> {
    vec![BandSources {
        band: "B2".to_string(),
        files: vec![SourceFileStat { path: "/a.tif".to_string(), len: 10, mtime_ns: 5 }],
    }]
}

#[test]
fn fingerprint_manifest_lines() {
    assert_eq!(fingerprint_manifest(&stacks()), "band=B2\npath=/a.tif\nlen=10\nmtime_ns=5\n");
    assert_eq!(fingerprint_manifest(&vec![]), "");
    let two = vec![
        BandSources { band: "B3".to_string(), files: vec![] },
        BandSources {
            band: "B4".to_string(),
            files: vec![
                SourceFileStat { path: "x".to_string(), len: 0, mtime_ns: 1_700_000_000_123_456_789 },
                SourceFileStat { path: "y".to_string(), len: u64::MAX, mtime_ns: 0 },
            ],
        },
    ];
    assert_eq!(
        fingerprint_manifest(&two),
        "band=B3\nband=B4\npath=x\nlen=0\nmtime_ns=1700000000123456789\npath=y\nlen=18446744073709551615\nmtime_ns=0\n"
    );
}

#[test]
fn source_fingerprint_is_md5_of_manifest() {
    assert_eq!(source_fingerprint_for_band_stacks(&stacks()), "82d9bd1d7783a9e8c721588460577dc8");
    assert_eq!(source_fingerprint_for_band_stacks(&vec![]), "d41d8cd98f00b204e9800998ecf8427e");
}

#[test]
fn scene_cache_header_checks() {
    assert_eq!(SCENE_CACHE_VERSION, 1);
    assert_eq!(check_scene_cache_header(1, "band_time_row_col", "f32_le"), Ok(()));
    assert_eq!(
        check_scene_cache_header(2, "band_time_row_col", "f32_le"),
        Err(SceneCacheError::UnsupportedVersion { found: 2 })
    );
    assert_eq!(check_scene_cache_header(1, "time_band_row_col", "f32_le"), Err(SceneCacheError::UnsupportedLayout));
    assert_eq!(check_scene_cache_header(1, "band_time_row_col", "f64_le"), Err(SceneCacheError::UnsupportedLayout));
}

#[test]
fn scene_cache_currency() {
    let fp = Some("abc".to_string());
    assert!(scene_cache_is_current(1, "band_time_row_col", "f32_le", &fp, "abc"));
    assert!(!scene_cache_is_current(1, "band_time_row_col", "f32_le", &fp, "abd"));
    assert!(!scene_cache_is_current(1, "band_time_row_col", "f32_le", &None, "abc"));
    assert!(!scene_cache_is_current(0, "band_time_row_col", "f32_le", &fp, "abc"));
}

#[test]
fn scene_data_size_checks() {
    assert_eq!(check_scene_data_size(6, 24), Ok(()));
    assert_eq!(check_scene_data_size(6, 20), Err(SceneCacheError::SizeMismatch { expected: 24, actual: 20 }));
    assert_eq!(check_scene_data_size(usize::MAX / 2, 0), Err(SceneCacheError::SizeOverflow));
}

#[test]
fn scene_band_byte_ranges() {
    assert_eq!(scene_band_byte_range(0, 2, 3, 4, 96), Ok((0, 96)));
    assert_eq!(scene_band_byte_range(24, 1, 3, 4, 144), Ok((96, 144)));
    assert_eq!(scene_band_byte_range(24, 1, 3, 4, 143), Err(SceneCacheError::BandBeyondData));
    assert_eq!(scene_band_byte_range(usize::MAX / 2, 1, 1, 1, 10), Err(SceneCacheError::SizeOverflow));
}

#[test]
fn centered_windows() {
    assert_eq!(centered_window_offset(10, 8, 4), (3, 2));
    assert_eq!(centered_window_offset(10, 8, 20), (1, 0));
    assert_eq!(centered_window_offset(5, 5, 5), (0, 0));
}

#[test]
fn clamped_windows() {
    assert_eq!(clamped_window_offset(10, 8, 4, 0, 7), (0, 4));
    assert_eq!(clamped_window_offset(10, 8, 4, 5, 4), (3, 2));
    assert_eq!(clamped_window_offset(10, 8, 4, -100, 100), (0, 4));
}

#[test]
fn windows_at_offset() {
    assert_eq!(window_at_offset(0, 10, 8, 0, 0, 5, 5), Err(WindowError::NoBands));
    assert_eq!(window_at_offset(1, 10, 8, 9, 3, 5, 5), Ok((9, 3, 1, 5)));
    assert_eq!(window_at_offset(1, 10, 8, 100, 100, 5, 5), Ok((9, 7, 1, 1)));
    assert_eq!(window_at_offset(1, 0, 8, 0, 0, 5, 5), Err(WindowError::EmptyWindow { rows: 0, cols: 5 }));
    assert_eq!(window_at_offset(1, 10, 8, 2, 2, 0, 5), Err(WindowError::EmptyWindow { rows: 0, cols: 5 }));
}

#[test]
fn top_left_windows() {
    assert_eq!(window_top_left(2, 10, 8, 20, 3), Ok((10, 3)));
    assert_eq!(window_top_left(0, 10, 8, 20, 3), Err(WindowError::NoBands));
    assert_eq!(window_top_left(1, 10, 0, 20, 3), Err(WindowError::EmptyWindow { rows: 10, cols: 0 }));
}

#[test]
fn vrt_band_descriptions_are_inserted_once() {
    let xml = "<VRTDataset>\n  <VRTRasterBand dataType=\"Float32\" band=\"1\">\n    <Source/>\n  </VRTRasterBand>\n  <VRTRasterBand dataType=\"Float32\" band=\"2\">\n    <Description>old</Description>\n  </VRTRasterBand>\n</VRTDataset>\n";
    let descs = vec!["a<b".to_string(), "x".to_string(), "extra".to_string()];
    let expected = "<VRTDataset>\n  <VRTRasterBand dataType=\"Float32\" band=\"1\">\n    <Description>a&lt;b</Description>\n    <Source/>\n  </VRTRasterBand>\n  <VRTRasterBand dataType=\"Float32\" band=\"2\">\n    <Description>old</Description>\n  </VRTRasterBand>\n</VRTDataset>\n";
    assert_eq!(insert_vrt_band_descriptions(xml, &descs), expected);
}

#[test]
fn vrt_empty_descriptions_are_skipped() {
    let xml = "<VRTRasterBand band=\"1\"></VRTRasterBand><VRTRasterBand band=\"2\"></VRTRasterBand>";
    let descs = vec!["".to_string(), "T2".to_string()];
    assert_eq!(
        insert_vrt_band_descriptions(xml, &descs),
        "<VRTRasterBand band=\"1\"></VRTRasterBand><VRTRasterBand band=\"2\">\n    <Description>T2</Description></VRTRasterBand>"
    );
    assert_eq!(insert_vrt_band_descriptions("<VRTDataset/>", &descs), "<VRTDataset/>");
}

#[test]
fn escaped_text_has_no_markup_characters() {
    let escaped = escape_xml_text("<a href=\"x\">it's & more</a>");
    assert!(!escaped.contains('<') && !escaped.contains('>') && !escaped.contains('"') && !escaped.contains('\''));
    assert_eq!(escaped, "&lt;a href=&quot;x&quot;&gt;it&apos;s &amp; more&lt;/a&gt;");
}

#[test]
fn vrt_unchanged_without_descriptions() {
    let xml = "<VRTDataset><VRTRasterBand band=\"1\"></VRTRasterBand></VRTDataset>";
    assert_eq!(insert_vrt_band_descriptions(xml, &vec![String::new(), String::new()]), xml);
    assert_eq!(insert_vrt_band_descriptions(xml, &vec![]), xml);
}

#[test]
fn offset_windows_stay_inside_the_raster() {
    for (rows, cols) in [(1usize, 1usize), (7, 3), (10, 10)] {
        for off in [0usize, 2, 5, 50] {
            if let Ok((r, c, h, w)) = window_at_offset(1, rows, cols, off, off, 4, 6) {
                assert!(r + h <= rows && c + w <= cols && h <= 4 && w <= 6);
            }
        }
        for ws in [1usize, 3, 20] {
            let (r, c) = centered_window_offset(rows, cols, ws);
            let side = ws.min(rows).min(cols);
            assert!(r + side <= rows && c + side <= cols);
            let (r, c) = clamped_window_offset(rows, cols, ws, -5, 40);
            assert!(r + side <= rows && c + side <= cols);
        }
    }
}

//! Scene cache bookkeeping: cache directory names, VRT band descriptions,
//! the source fingerprint, header checks, byte ranges and raster windows.
use vstd::prelude::*;
use vstd::string::StringSliceAdditionalSpecFns;

use crate::md5::{md5_digest, md5_hex};
use crate::bands::{find_from, first_occurrence_from};
use crate::text::{string_from_chars, chars_of, hex_lower, push_char, push_decimal, push_str, spec_decimal};

verus! {

/// Whether `c` is kept as is in a cache path component.
pub open spec fn is_safe_component_char(c: char) -> bool {
    ('0' <= c <= '9') || ('a' <= c <= 'z') || ('A' <= c <= 'Z') || c == '-' || c == '_'
}

/// `value` with every character other than ASCII letters, digits, `-` and
/// `_` replaced by `_`.
pub open spec fn spec_safe_component(cs: Seq<char>) -> Seq<char> {
    Seq::new(cs.len(), |i: int| if is_safe_component_char(cs[i]) { cs[i] } else { '_' })
}

/// A string usable as one path component of the cache directory.
pub fn safe_cache_component(value: &str) -> (r: String)
    ensures
        r@ == spec_safe_component(value@),
{
    let cs = chars_of(value);
    let mut out = String::new();
    let mut i: usize = 0;
    while i < cs.len()
        invariant
            i <= cs@.len(),
            cs@ == value@,
            out@ == spec_safe_component(value@).subrange(0, i as int),
        decreases cs@.len() - i,
    {
        let c = cs[i];
        let keep = ('0' <= c && c <= '9') || ('a' <= c && c <= 'z') || ('A' <= c && c <= 'Z') || c == '-'
            || c == '_';
        push_char(&mut out, if keep { c } else { '_' });
        i = i + 1;
        assert(out@ =~= spec_safe_component(value@).subrange(0, i as int));
    }
    assert(spec_safe_component(value@).subrange(0, cs@.len() as int) =~= spec_safe_component(value@));
    out
}

/// XML text escape of one character.
pub open spec fn xml_escape_char(c: char) -> Seq<char> {
    if c == '&' {
        "&amp;"@
    } else if c == '<' {
        "&lt;"@
    } else if c == '>' {
        "&gt;"@
    } else if c == '"' {
        "&quot;"@
    } else if c == '\'' {
        "&apos;"@
    } else {
        seq![c]
    }
}

/// XML text escape of the first `n` characters.
pub open spec fn spec_escape_xml(cs: Seq<char>, n: nat) -> Seq<char>
    decreases n,
{
    if n == 0 {
        Seq::empty()
    } else {
        spec_escape_xml(cs, (n - 1) as nat) + xml_escape_char(cs[n - 1])
    }
}

/// `value` with `&`, `<`, `>`, `"` and `'` replaced by XML entities.
pub fn escape_xml_text(value: &str) -> (r: String)
    ensures
        r@ == spec_escape_xml(value@, value@.len()),
{
    let cs = chars_of(value);
    let mut out = String::new();
    let mut i: usize = 0;
    while i < cs.len()
        invariant
            i <= cs@.len(),
            cs@ == value@,
            out@ == spec_escape_xml(value@, i as nat),
        decreases cs@.len() - i,
    {
        let c = cs[i];
        if c == '&' {
            push_str(&mut out, "&amp;");
        } else if c == '<' {
            push_str(&mut out, "&lt;");
        } else if c == '>' {
            push_str(&mut out, "&gt;");
        } else if c == '"' {
            push_str(&mut out, "&quot;");
        } else if c == '\'' {
            push_str(&mut out, "&apos;");
        } else {
            push_char(&mut out, c);
        }
        i = i + 1;
    }
    out
}

/// Size and modification time of one source file of a band stack.
pub struct SourceFileStat {
    pub path: String,
    pub len: u64,
    pub mtime_ns: u128,
}

/// A band and the source files that make up its stack.
pub struct BandSources {
    pub band: String,
    pub files: Vec<SourceFileStat>,
}

/// Manifest lines of the first `n` files of a band.
pub open spec fn files_manifest(files: Seq<SourceFileStat>, n: nat) -> Seq<char>
    decreases n,
{
    if n == 0 {
        Seq::empty()
    } else {
        let f = files[n - 1];
        files_manifest(files, (n - 1) as nat) + "path="@ + f.path@ + "\n"@ + "len="@ + spec_decimal(
            f.len as nat,
        ) + "\n"@ + "mtime_ns="@ + spec_decimal(f.mtime_ns as nat) + "\n"@
    }
}

/// Manifest of the first `n` bands: a `band=` line per band, then the
/// `path=`, `len=` and `mtime_ns=` lines of each of its files.
pub open spec fn stacks_manifest(stacks: Seq<BandSources>, n: nat) -> Seq<char>
    decreases n,
{
    if n == 0 {
        Seq::empty()
    } else {
        let b = stacks[n - 1];
        stacks_manifest(stacks, (n - 1) as nat) + "band="@ + b.band@ + "\n"@ + files_manifest(
            b.files@,
            b.files@.len(),
        )
    }
}

fn push_files_manifest(m: &mut String, files: &Vec<SourceFileStat>)
    ensures
        final(m)@ == old(m)@ + files_manifest(files@, files@.len()),
{
    let ghost head = m@;
    let mut k: usize = 0;
    while k < files.len()
        invariant
            k <= files@.len(),
            m@ == head + files_manifest(files@, k as nat),
        decreases files@.len() - k,
    {
        let f = &files[k];
        push_str(m, "path=");
        push_str(m, f.path.as_str());
        push_str(m, "\n");
        push_str(m, "len=");
        push_decimal(m, f.len as u128);
        push_str(m, "\n");
        push_str(m, "mtime_ns=");
        push_decimal(m, f.mtime_ns);
        push_str(m, "\n");
        k = k + 1;
        assert(m@ =~= head + files_manifest(files@, k as nat));
    }
}

/// The text that the source fingerprint digests.
pub fn fingerprint_manifest(stacks: &Vec<BandSources>) -> (m: String)
    ensures
        m@ == stacks_manifest(stacks@, stacks@.len()),
{
    let mut m = String::new();
    let mut i: usize = 0;
    while i < stacks.len()
        invariant
            i <= stacks@.len(),
            m@ == stacks_manifest(stacks@, i as nat),
        decreases stacks@.len() - i,
    {
        let b = &stacks[i];
        push_str(&mut m, "band=");
        push_str(&mut m, b.band.as_str());
        push_str(&mut m, "\n");
        push_files_manifest(&mut m, &b.files);
        i = i + 1;
        assert(m@ =~= stacks_manifest(stacks@, i as nat));
    }
    m
}

/// MD5 (lower-case hex) of the UTF-8 manifest of the band stacks; a scene
/// cache is reused only while its stored fingerprint matches.
pub fn source_fingerprint_for_band_stacks(stacks: &Vec<BandSources>) -> (r: String)
    requires
        vstd::utf8::encode_utf8(stacks_manifest(stacks@, stacks@.len())).len() + 72 <= usize::MAX,
    ensures
        r@ == hex_lower(md5_digest(vstd::utf8::encode_utf8(stacks_manifest(stacks@, stacks@.len())))),
{
    let m = fingerprint_manifest(stacks);
    let bytes = m.as_str().as_bytes();
    md5_hex(bytes)
}

/// Version of the scene cache format.
pub const SCENE_CACHE_VERSION: u32 = 1;

/// Errors of the scene cache.
#[derive(Debug, PartialEq, Eq)]
pub enum SceneCacheError {
    /// The cache has another format version.
    UnsupportedVersion { found: u32 },
    /// The cache has another layout or value type.
    UnsupportedLayout,
    /// The byte size of the cube does not fit in `usize`.
    SizeOverflow,
    /// The data file does not have the size the metadata gives.
    SizeMismatch { expected: usize, actual: usize },
    /// A band extends beyond the data file.
    BandBeyondData,
}

/// Whether a scene cache header has the supported version, layout and type.
pub open spec fn header_supported(version: u32, layout: Seq<char>, dtype: Seq<char>) -> bool {
    version == SCENE_CACHE_VERSION && layout == "band_time_row_col"@ && dtype == "f32_le"@
}

/// Checks the version, layout and value type of a scene cache header.
pub fn check_scene_cache_header(version: u32, layout: &str, dtype: &str) -> (r: Result<(), SceneCacheError>)
    ensures
        r is Ok <==> header_supported(version, layout@, dtype@),
        version != SCENE_CACHE_VERSION ==> r == Err::<(), _>(SceneCacheError::UnsupportedVersion { found: version }),
        version == SCENE_CACHE_VERSION && !header_supported(version, layout@, dtype@) ==> r == Err::<(), _>(
            SceneCacheError::UnsupportedLayout,
        ),
{
    if version != SCENE_CACHE_VERSION {
        return Err(SceneCacheError::UnsupportedVersion { found: version });
    }
    if !crate::text::str_equal(layout, "band_time_row_col") || !crate::text::str_equal(dtype, "f32_le") {
        return Err(SceneCacheError::UnsupportedLayout);
    }
    Ok(())
}

/// Whether a cache with this header was built from sources with the
/// expected fingerprint.
pub fn scene_cache_is_current(
    version: u32,
    layout: &str,
    dtype: &str,
    source_fingerprint: &Option<String>,
    expected_fingerprint: &str,
) -> (r: bool)
    ensures
        r == (header_supported(version, layout@, dtype@) && source_fingerprint is Some
            && source_fingerprint->0@ == expected_fingerprint@),
{
    if check_scene_cache_header(version, layout, dtype).is_err() {
        return false;
    }
    match source_fingerprint {
        Some(f) => crate::text::str_equal(f.as_str(), expected_fingerprint),
        None => false,
    }
}

/// Checks that the data file holds exactly `total_values` little-endian `f32`s.
pub fn check_scene_data_size(total_values: usize, actual_bytes: usize) -> (r: Result<(), SceneCacheError>)
    ensures
        total_values * 4 > usize::MAX ==> r == Err::<(), _>(SceneCacheError::SizeOverflow),
        total_values * 4 <= usize::MAX && total_values * 4 != actual_bytes ==> r == Err::<(), _>(
            SceneCacheError::SizeMismatch { expected: (total_values * 4) as usize, actual: actual_bytes },
        ),
        r is Ok <==> total_values * 4 == actual_bytes,
{
    let expected = match total_values.checked_mul(4) {
        Some(v) => v,
        None => return Err(SceneCacheError::SizeOverflow),
    };
    if actual_bytes != expected {
        return Err(SceneCacheError::SizeMismatch { expected, actual: actual_bytes });
    }
    Ok(())
}

/// Byte range of one band of a cached cube of `data_len` bytes: the band
/// starts at value `offset_values` and holds `time_len * rows * cols` values.
pub fn scene_band_byte_range(
    offset_values: usize,
    time_len: usize,
    rows: usize,
    cols: usize,
    data_len: usize,
) -> (r: Result<(usize, usize), SceneCacheError>)
    requires
        time_len * rows * cols <= usize::MAX ==> time_len * rows * cols * 4 <= usize::MAX,
    ensures
        r is Ok <==> (time_len * rows <= usize::MAX && time_len * rows * cols <= usize::MAX && offset_values * 4
            <= usize::MAX && offset_values * 4 + time_len * rows * cols * 4 <= data_len),
        r matches Ok((start, end)) ==> start == offset_values * 4 && end == start + time_len * rows * cols * 4,
        r matches Err(e) ==> (e == SceneCacheError::SizeOverflow || e == SceneCacheError::BandBeyondData),
        r == Err::<(usize, usize), _>(SceneCacheError::BandBeyondData) ==> offset_values * 4 + time_len * rows * cols
            * 4 <= usize::MAX && offset_values * 4 + time_len * rows * cols * 4 > data_len,
        r == Err::<(usize, usize), _>(SceneCacheError::SizeOverflow) ==> !(time_len * rows <= usize::MAX && time_len
            * rows * cols <= usize::MAX && offset_values * 4 <= usize::MAX && offset_values * 4 + time_len * rows * cols
            * 4 <= usize::MAX),
{
    let tr = match time_len.checked_mul(rows) {
        Some(v) => v,
        None => return Err(SceneCacheError::SizeOverflow),
    };
    let n_values = match tr.checked_mul(cols) {
        Some(v) => v,
        None => return Err(SceneCacheError::SizeOverflow),
    };
    let start = match offset_values.checked_mul(4) {
        Some(v) => v,
        None => return Err(SceneCacheError::SizeOverflow),
    };
    let end = match start.checked_add(n_values * 4) {
        Some(v) => v,
        None => return Err(SceneCacheError::SizeOverflow),
    };
    if end > data_len {
        return Err(SceneCacheError::BandBeyondData);
    }
    Ok((start, end))
}

/// Side of a square window of `window_size` clipped to a `rows x cols`
/// raster: `window_size` when it fits, else the shorter raster side.
pub open spec fn window_side(rows: int, cols: int, window_size: int) -> int {
    if window_size <= rows && window_size <= cols {
        window_size
    } else if rows <= cols {
        rows
    } else {
        cols
    }
}

/// Offset that centres a span of `side` in a span of `len`.
pub open spec fn centered_offset(len: int, side: int) -> int {
    if len > side {
        (len - side) / 2
    } else {
        0
    }
}

/// Largest offset at which a span of `side` still fits in a span of `len`.
pub open spec fn last_offset(len: int, side: int) -> int {
    if len > side {
        len - side
    } else {
        0
    }
}

/// Top-left corner of the `window_size` window centred in a raster of
/// `rows x cols` (the window is clipped to the raster).
pub fn centered_window_offset(rows: usize, cols: usize, window_size: usize) -> (r: (usize, usize))
    ensures
        r.0 == centered_offset(rows as int, window_side(rows as int, cols as int, window_size as int)),
        r.1 == centered_offset(cols as int, window_side(rows as int, cols as int, window_size as int)),
{
    let ws = if window_size <= rows && window_size <= cols {
        window_size
    } else if rows <= cols {
        rows
    } else {
        cols
    };
    let row_off = if rows > ws {
        (rows - ws) / 2
    } else {
        0
    };
    let col_off = if cols > ws {
        (cols - ws) / 2
    } else {
        0
    };
    (row_off, col_off)
}

/// `v` clamped to `0..=hi`.
pub open spec fn clamp_to(v: int, hi: int) -> int {
    if v < 0 {
        0
    } else if v > hi {
        hi
    } else {
        v
    }
}

/// Top-left corner of the window of side `min(window_size, rows, cols)`
/// centred on pixel `(center_row, center_col)`, moved inside the raster.
pub fn clamped_window_offset(
    rows: usize,
    cols: usize,
    window_size: usize,
    center_row: i64,
    center_col: i64,
) -> (r: (usize, usize))
    requires
        rows <= i64::MAX,
        cols <= i64::MAX,
        center_row - window_size / 2 >= i64::MIN,
        center_col - window_size / 2 >= i64::MIN,
    ensures
        ({
            let ws = window_side(rows as int, cols as int, window_size as int);
            &&& r.0 == clamp_to(center_row - ws / 2, last_offset(rows as int, ws))
            &&& r.1 == clamp_to(center_col - ws / 2, last_offset(cols as int, ws))
        }),
{
    let ws = if window_size <= rows && window_size <= cols {
        window_size
    } else if rows <= cols {
        rows
    } else {
        cols
    };
    let half = (ws / 2) as i64;
    let max_row = (if rows > ws { rows - ws } else { 0 }) as i64;
    let max_col = (if cols > ws { cols - ws } else { 0 }) as i64;
    let r = center_row - half;
    let c = center_col - half;
    let row_off = if r < 0 {
        0
    } else if r > max_row {
        max_row
    } else {
        r
    };
    let col_off = if c < 0 {
        0
    } else if c > max_col {
        max_col
    } else {
        c
    };
    (row_off as usize, col_off as usize)
}

/// Errors in choosing a raster window.
#[derive(Debug, PartialEq, Eq)]
pub enum WindowError {
    /// The raster has no bands.
    NoBands,
    /// The clipped window is empty.
    EmptyWindow { rows: usize, cols: usize },
}

/// Window `(row_off, col_off, rows, cols)` read at `(row_offset,
/// col_offset)`: the offset is moved onto the last row or column when it
/// lies past it, and the window clipped at the raster's edge.
pub open spec fn offset_window(
    rows: int,
    cols: int,
    row_offset: int,
    col_offset: int,
    window_rows: int,
    window_cols: int,
) -> (int, int, int, int) {
    let last_row: int = if rows > 0 { rows - 1 } else { 0 };
    let last_col: int = if cols > 0 { cols - 1 } else { 0 };
    let r_off: int = if row_offset < last_row { row_offset } else { last_row };
    let c_off: int = if col_offset < last_col { col_offset } else { last_col };
    let wr: int = if window_rows < rows - r_off { window_rows } else { rows - r_off };
    let wc: int = if window_cols < cols - c_off { window_cols } else { cols - c_off };
    (r_off, c_off, wr, wc)
}

/// Offset and size `(row_off, col_off, rows, cols)` of the window read at
/// `(row_offset, col_offset)`: the offset is moved inside the raster and the
/// window clipped at its edge.
pub fn window_at_offset(
    n_bands: usize,
    rows: usize,
    cols: usize,
    row_offset: usize,
    col_offset: usize,
    window_rows: usize,
    window_cols: usize,
) -> (r: Result<(usize, usize, usize, usize), WindowError>)
    ensures
        n_bands == 0 ==> r == Err::<(usize, usize, usize, usize), _>(WindowError::NoBands),
        n_bands > 0 ==> ({
            let (r_off, c_off, wr, wc) = offset_window(
                rows as int,
                cols as int,
                row_offset as int,
                col_offset as int,
                window_rows as int,
                window_cols as int,
            );
            &&& (wr == 0 || wc == 0) ==> r == Err::<(usize, usize, usize, usize), _>(WindowError::EmptyWindow { rows: wr as usize, cols: wc as usize })
            &&& (wr > 0 && wc > 0) ==> r == Ok::<_, WindowError>((r_off as usize, c_off as usize, wr as usize, wc as usize))
        }),
{
    if n_bands == 0 {
        return Err(WindowError::NoBands);
    }
    let last_row = rows.saturating_sub(1);
    let last_col = cols.saturating_sub(1);
    let r_off = if row_offset < last_row { row_offset } else { last_row };
    let c_off = if col_offset < last_col { col_offset } else { last_col };
    let rem_r = rows.saturating_sub(r_off);
    let rem_c = cols.saturating_sub(c_off);
    let r = if window_rows < rem_r { window_rows } else { rem_r };
    let c = if window_cols < rem_c { window_cols } else { rem_c };
    if r == 0 || c == 0 {
        return Err(WindowError::EmptyWindow { rows: r, cols: c });
    }
    Ok((r_off, c_off, r, c))
}

/// Size of the top-left window: `window_rows x window_cols` clipped to the raster.
pub fn window_top_left(n_bands: usize, rows: usize, cols: usize, window_rows: usize, window_cols: usize) -> (r: Result<
    (usize, usize),
    WindowError,
>)
    ensures
        n_bands == 0 ==> r == Err::<(usize, usize), _>(WindowError::NoBands),
        n_bands > 0 ==> ({
            let wr = if window_rows < rows { window_rows } else { rows };
            let wc = if window_cols < cols { window_cols } else { cols };
            &&& (wr == 0 || wc == 0) ==> r == Err::<(usize, usize), _>(WindowError::EmptyWindow { rows: wr, cols: wc })
            &&& (wr > 0 && wc > 0) ==> r == Ok::<_, WindowError>((wr, wc))
        }),
{
    if n_bands == 0 {
        return Err(WindowError::NoBands);
    }
    let r = if window_rows < rows { window_rows } else { rows };
    let c = if window_cols < cols { window_cols } else { cols };
    if r == 0 || c == 0 {
        return Err(WindowError::EmptyWindow { rows: r, cols: c });
    }
    Ok((r, c))
}

/// The `<Description>` element inserted for a band description.
pub open spec fn description_insertion(desc: Seq<char>) -> Seq<char> {
    "\n    <Description>"@ + spec_escape_xml(desc, desc.len()) + "</Description>"@
}

/// One step of adding band descriptions to a VRT document: the band element
/// found from `from` on gets the description unless it is empty or the band
/// already has one; `None` when no further band element is found.
pub open spec fn vrt_step(xml: Seq<char>, from: int, desc: Seq<char>) -> Option<(Seq<char>, int)> {
    match first_occurrence_from(xml, "<VRTRasterBand"@, from) {
        None => None,
        Some(ts) => match first_occurrence_from(xml, ">"@, ts) {
            None => None,
            Some(te) => {
                let at = te + 1;
                let next = match first_occurrence_from(xml, "<VRTRasterBand"@, at) {
                    Some(n) => n,
                    None => xml.len() as int,
                };
                if desc.len() > 0 && first_occurrence_from(xml.subrange(at, next), "<Description>"@, 0) is None {
                    let ins = description_insertion(desc);
                    Some((xml.subrange(0, at) + ins + xml.subrange(at, xml.len() as int), at + ins.len()))
                } else {
                    Some((xml, at))
                }
            },
        },
    }
}

/// The VRT document after adding `descs` to its band elements in order,
/// searching from `from`.
pub open spec fn vrt_with_descriptions(xml: Seq<char>, from: int, descs: Seq<Seq<char>>) -> Seq<char>
    decreases descs.len(),
{
    if descs.len() == 0 {
        xml
    } else {
        match vrt_step(xml, from, descs[0]) {
            None => xml,
            Some((x2, f2)) => vrt_with_descriptions(x2, f2, descs.drop_first()),
        }
    }
}

proof fn lemma_first_bounds(cs: Seq<char>, pat: Seq<char>, i: int)
    requires
        0 <= i,
    ensures
        first_occurrence_from(cs, pat, i) matches Some(j) ==> i <= j && j + pat.len() <= cs.len(),
    decreases cs.len() + 1 - i,
{
    if i <= cs.len() && i + pat.len() <= cs.len() && !crate::bands::occurs_at(cs, pat, i) {
        lemma_first_bounds(cs, pat, i + 1);
    }
}

/// A VRT document with a `<Description>` element added to each band element
/// for the corresponding entry of `descriptions` (escaped as XML text),
/// skipping empty descriptions and bands that already have one.
pub fn insert_vrt_band_descriptions(xml: &str, descriptions: &Vec<String>) -> (r: String)
    ensures
        r@ == vrt_with_descriptions(xml@, 0, descriptions@.map_values(|d: String| d@)),
{
    let band_tag = chars_of("<VRTRasterBand");
    let close = chars_of(">");
    let desc_tag = chars_of("<Description>");
    let open_desc = chars_of("\n    <Description>");
    let close_desc = chars_of("</Description>");
    let mut cur = chars_of(xml);
    let ghost dv = descriptions@.map_values(|d: String| d@);
    let mut from: usize = 0;
    let mut i: usize = 0;
    proof {
        reveal_strlit(">");
        assert(dv.subrange(0, dv.len() as int) =~= dv);
    }
    while i < descriptions.len()
        invariant
            i <= descriptions@.len(),
            dv == descriptions@.map_values(|d: String| d@),
            band_tag@ == "<VRTRasterBand"@,
            close@ == ">"@,
            close@.len() == 1,
            desc_tag@ == "<Description>"@,
            open_desc@ == "\n    <Description>"@,
            close_desc@ == "</Description>"@,
            vrt_with_descriptions(xml@, 0, dv) == vrt_with_descriptions(cur@, from as int, dv.subrange(i as int, dv.len() as int)),
        ensures
            vrt_with_descriptions(xml@, 0, dv) == cur@,
        decreases descriptions@.len() - i,
    {
        let ghost rest = dv.subrange(i as int, dv.len() as int);
        assert(rest[0] == descriptions@[i as int]@);
        assert(rest.drop_first() =~= dv.subrange(i + 1, dv.len() as int));
        proof {
            lemma_first_bounds(cur@, band_tag@, from as int);
        }
        let ts = match find_from(&cur, &band_tag, from) {
            Some(v) => v,
            None => break,
        };
        assert(first_occurrence_from(cur@, band_tag@, from as int) == Some(ts as int));
        proof {
            lemma_first_bounds(cur@, close@, ts as int);
        }
        let te = match find_from(&cur, &close, ts) {
            Some(v) => v,
            None => {
                assert(first_occurrence_from(cur@, close@, ts as int) is None);
                assert(vrt_step(cur@, from as int, rest[0]) is None);
                break;
            },
        };
        assert(first_occurrence_from(cur@, close@, ts as int) == Some(te as int));
        assert(te + 1 <= cur@.len());
        let cur_len = cur.len();
        assert(te + 1 <= cur_len);
        let at = te + 1;
        proof {
            lemma_first_bounds(cur@, band_tag@, at as int);
        }
        let next = match find_from(&cur, &band_tag, at) {
            Some(n) => n,
            None => cur.len(),
        };
        let mut segment: Vec<char> = Vec::new();
        let mut k = at;
        while k < next
            invariant
                at <= k <= next,
                next <= cur@.len(),
                segment@ == cur@.subrange(at as int, k as int),
            decreases next - k,
        {
            segment.push(cur[k]);
            k = k + 1;
            assert(segment@ =~= cur@.subrange(at as int, k as int));
        }
        let desc = descriptions[i].as_str();
        let has_desc = match find_from(&segment, &desc_tag, 0) {
            Some(_) => true,
            None => false,
        };
        if !desc.is_empty() && !has_desc {
            let escaped = chars_of(escape_xml_text(desc).as_str());
            let mut next_xml: Vec<char> = Vec::new();
            let mut q: usize = 0;
            while q < at
                invariant
                    q <= at,
                    at <= cur@.len(),
                    next_xml@ == cur@.subrange(0, q as int),
                decreases at - q,
            {
                next_xml.push(cur[q]);
                q = q + 1;
                assert(next_xml@ =~= cur@.subrange(0, q as int));
            }
            let ghost head = next_xml@;
            let mut q: usize = 0;
            while q < open_desc.len()
                invariant
                    q <= open_desc@.len(),
                    next_xml@ == head + open_desc@.subrange(0, q as int),
                decreases open_desc@.len() - q,
            {
                next_xml.push(open_desc[q]);
                q = q + 1;
                assert(next_xml@ =~= head + open_desc@.subrange(0, q as int));
            }
            let ghost head2 = next_xml@;
            let mut q: usize = 0;
            while q < escaped.len()
                invariant
                    q <= escaped@.len(),
                    next_xml@ == head2 + escaped@.subrange(0, q as int),
                decreases escaped@.len() - q,
            {
                next_xml.push(escaped[q]);
                q = q + 1;
                assert(next_xml@ =~= head2 + escaped@.subrange(0, q as int));
            }
            let ghost head3 = next_xml@;
            let mut q: usize = 0;
            while q < close_desc.len()
                invariant
                    q <= close_desc@.len(),
                    next_xml@ == head3 + close_desc@.subrange(0, q as int),
                decreases close_desc@.len() - q,
            {
                next_xml.push(close_desc[q]);
                q = q + 1;
                assert(next_xml@ =~= head3 + close_desc@.subrange(0, q as int));
            }
            let ghost head4 = next_xml@;
            let after_insert = next_xml.len();
            let mut q: usize = at;
            while q < cur.len()
                invariant
                    at <= q <= cur@.len(),
                    next_xml@ == head4 + cur@.subrange(at as int, q as int),
                decreases cur@.len() - q,
            {
                next_xml.push(cur[q]);
                q = q + 1;
                assert(next_xml@ =~= head4 + cur@.subrange(at as int, q as int));
            }
            proof {
                assert(open_desc@.subrange(0, open_desc@.len() as int) =~= open_desc@);
                assert(escaped@.subrange(0, escaped@.len() as int) =~= escaped@);
                assert(close_desc@.subrange(0, close_desc@.len() as int) =~= close_desc@);
                assert(next_xml@ =~= cur@.subrange(0, at as int) + description_insertion(desc@) + cur@.subrange(
                    at as int,
                    cur@.len() as int,
                ));
            }
            cur = next_xml;
            from = after_insert;
        } else {
            from = at;
        }
        i = i + 1;
    }
    string_from_chars(&cur)
}

/// A centred window lies inside the raster.
pub proof fn lemma_centered_window_inside(rows: int, cols: int, window_size: int)
    requires
        0 <= rows,
        0 <= cols,
        0 <= window_size,
    ensures
        ({
            let ws = window_side(rows, cols, window_size);
            &&& 0 <= ws <= window_size
            &&& 0 <= centered_offset(rows, ws) && centered_offset(rows, ws) + ws <= rows
            &&& 0 <= centered_offset(cols, ws) && centered_offset(cols, ws) + ws <= cols
        }),
{
}

/// A window centred on any pixel, once moved inside the raster, lies
/// inside it.
pub proof fn lemma_clamped_window_inside(rows: int, cols: int, window_size: int, center_row: int, center_col: int)
    requires
        0 <= rows,
        0 <= cols,
        0 <= window_size,
    ensures
        ({
            let ws = window_side(rows, cols, window_size);
            let r = clamp_to(center_row - ws / 2, last_offset(rows, ws));
            let c = clamp_to(center_col - ws / 2, last_offset(cols, ws));
            &&& 0 <= r && r + ws <= rows
            &&& 0 <= c && c + ws <= cols
        }),
{
}

/// A non-empty window read at any offset lies inside the raster and is no
/// larger than asked for.
pub proof fn lemma_offset_window_inside(
    rows: int,
    cols: int,
    row_offset: int,
    col_offset: int,
    window_rows: int,
    window_cols: int,
)
    requires
        0 <= rows,
        0 <= cols,
        0 <= row_offset,
        0 <= col_offset,
        0 <= window_rows,
        0 <= window_cols,
    ensures
        ({
            let (r_off, c_off, wr, wc) = offset_window(rows, cols, row_offset, col_offset, window_rows, window_cols);
            &&& 0 <= wr <= window_rows
            &&& 0 <= wc <= window_cols
            &&& (wr > 0 && wc > 0) ==> (0 <= r_off && r_off + wr <= rows && 0 <= c_off && c_off + wc <= cols)
        }),
{
}

/// Cleaning a cache path component twice changes nothing more, and the
/// result only holds ASCII letters, digits, `-` and `_`.
pub proof fn lemma_safe_component_idempotent(cs: Seq<char>)
    ensures
        spec_safe_component(spec_safe_component(cs)) == spec_safe_component(cs),
        spec_safe_component(cs).len() == cs.len(),
        forall|i: int| 0 <= i < cs.len() ==> is_safe_component_char(#[trigger] spec_safe_component(cs)[i]),
{
    assert(spec_safe_component(spec_safe_component(cs)) =~= spec_safe_component(cs));
}

/// Escaped text holds no `<`, `>`, `"` or `'`.
pub proof fn lemma_escaped_has_no_markup(cs: Seq<char>, n: nat)
    requires
        n <= cs.len(),
    ensures
        forall|i: int|
            0 <= i < spec_escape_xml(cs, n).len() ==> {
                let c = #[trigger] spec_escape_xml(cs, n)[i];
                c != '<' && c != '>' && c != '"' && c != '\''
            },
    decreases n,
{
    if n > 0 {
        lemma_escaped_has_no_markup(cs, (n - 1) as nat);
        reveal_strlit("&amp;");
        reveal_strlit("&lt;");
        reveal_strlit("&gt;");
        reveal_strlit("&quot;");
        reveal_strlit("&apos;");
        let prev = spec_escape_xml(cs, (n - 1) as nat);
        let e = xml_escape_char(cs[n - 1]);
        assert forall|i: int| 0 <= i < (prev + e).len() implies {
            let c = #[trigger] (prev + e)[i];
            c != '<' && c != '>' && c != '"' && c != '\''
        } by {
            if i >= prev.len() {
                assert((prev + e)[i] == e[i - prev.len()]);
            } else {
                assert((prev + e)[i] == prev[i]);
            }
        }
    }
}

/// With no non-empty description, the VRT document is left as it is.
pub proof fn lemma_vrt_unchanged_without_descriptions(xml: Seq<char>, from: int, descs: Seq<Seq<char>>)
    requires
        forall|k: int| 0 <= k < descs.len() ==> (#[trigger] descs[k]).len() == 0,
    ensures
        vrt_with_descriptions(xml, from, descs) == xml,
    decreases descs.len(),
{
    if descs.len() > 0 {
        match vrt_step(xml, from, descs[0]) {
            None => {},
            Some((x2, f2)) => {
                assert(x2 == xml);
                let rest = descs.drop_first();
                assert forall|k: int| 0 <= k < rest.len() implies (#[trigger] rest[k]).len() == 0 by {
                    assert(rest[k] == descs[k + 1]);
                }
                lemma_vrt_unchanged_without_descriptions(x2, f2, rest);
            },
        }
    }
}

} // verus!

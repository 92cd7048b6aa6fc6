//! Timestamp parsing: Sentinel-2 `YYYYMMDDTHHMMSS` substrings, the supported
//! ISO-8601 formats (all read as UTC), and band-description timestamps.
use vstd::prelude::*;

use crate::text::{chars_of, push_decimal, push_str, spec_decimal, spec_trim, trim_str};

verus! {

/// Whether `c` is an ASCII decimal digit.
pub open spec fn is_digit(c: char) -> bool {
    '0' <= c <= '9'
}

/// Whether `cs[i..i + 15]` has the shape `DDDDDDDDTDDDDDD`.
pub open spec fn timestamp_at(cs: Seq<char>, i: int) -> bool {
    &&& 0 <= i
    &&& i + 15 <= cs.len()
    &&& forall|k: int| i <= k < i + 8 ==> is_digit(#[trigger] cs[k])
    &&& cs[i + 8] == 'T'
    &&& forall|k: int| i + 9 <= k < i + 15 ==> is_digit(#[trigger] cs[k])
}

fn timestamp_at_exec(cs: &Vec<char>, i: usize) -> (r: bool)
    requires
        i + 15 <= cs@.len(),
    ensures
        r == timestamp_at(cs@, i as int),
{
    let mut k: usize = 0;
    while k < 15
        invariant
            k <= 15,
            i + 15 <= cs.len(),
            forall|j: int| i <= j < i + k && j != i + 8 ==> is_digit(#[trigger] cs@[j]),
            k > 8 ==> cs@[i + 8] == 'T',
        decreases 15 - k,
    {
        let c = cs[i + k];
        if k == 8 {
            if c != 'T' {
                return false;
            }
        } else if !('0' <= c && c <= '9') {
            return false;
        }
        k = k + 1;
    }
    true
}

/// The first substring of `desc` of the shape `DDDDDDDDTDDDDDD` (eight
/// digits, `T`, six digits), if any.
pub fn find_timestamp_substring(desc: &str) -> (r: Option<&str>)
    ensures
        r is Some <==> exists|i: int| timestamp_at(desc@, i),
        r matches Some(sub) ==> exists|i: int|
            timestamp_at(desc@, i) && sub@ == desc@.subrange(i, i + 15) && forall|j: int|
                0 <= j < i ==> !timestamp_at(desc@, j),
{
    let cs = chars_of(desc);
    let len = cs.len();
    let mut i: usize = 0;
    while len >= 15 && i <= len - 15
        invariant
            cs@ == desc@,
            len == cs@.len(),
            forall|j: int| 0 <= j < i ==> !timestamp_at(desc@, j),
        decreases len - i,
    {
        if timestamp_at_exec(&cs, i) {
            return Some(desc.substring_char(i, i + 15));
        }
        i = i + 1;
    }
    assert forall|j: int| !timestamp_at(desc@, j) by {
        if j >= i {
            assert(!(j + 15 <= desc@.len()));
        }
    }
    None
}

/// Formats tried in order when parsing a timestamp.
pub open spec fn parse_format(k: int) -> Seq<char> {
    if k == 0 {
        "%Y-%m-%dT%H:%M:%S"@
    } else if k == 1 {
        "%Y-%m-%d %H:%M:%S"@
    } else if k == 2 {
        "%Y-%m-%d"@
    } else if k == 3 {
        "%Y-%m-%dT%H:%M:%SZ"@
    } else if k == 4 {
        "%Y%m%dT%H%M%S"@
    } else {
        "%Y%m%d"@
    }
}

/// Number of supported timestamp formats.
pub const N_PARSE_FORMATS: usize = 6;

fn parse_format_str(k: usize) -> (r: &'static str)
    requires
        k < N_PARSE_FORMATS,
    ensures
        r@ == parse_format(k as int),
{
    if k == 0 {
        "%Y-%m-%dT%H:%M:%S"
    } else if k == 1 {
        "%Y-%m-%d %H:%M:%S"
    } else if k == 2 {
        "%Y-%m-%d"
    } else if k == 3 {
        "%Y-%m-%dT%H:%M:%SZ"
    } else if k == 4 {
        "%Y%m%dT%H%M%S"
    } else {
        "%Y%m%d"
    }
}

/// Seconds since the Unix epoch of `ts` read with `strftime` format `fmt` as
/// a date and time without offset, taken as UTC; `None` when `ts` does not
/// match `fmt` or does not name a date and time.
pub uninterp spec fn naive_utc_epoch(ts: Seq<char>, fmt: Seq<char>) -> Option<i64>;

/// Seconds since the Unix epoch of an RFC 3339 date-and-time, `None` when
/// `s` is not one.
pub uninterp spec fn rfc3339_epoch(s: Seq<char>) -> Option<i64>;

/// `chrono::NaiveDateTime::parse_from_str(ts, fmt)` followed by
/// `.and_utc().timestamp()`; the result is claimed to depend on `ts` and
/// `fmt` alone.
#[verifier::external_body]
fn chrono_naive_utc_epoch(ts: &str, fmt: &str) -> (r: Option<i64>)
    ensures
        r == naive_utc_epoch(ts@, fmt@),
{
    match chrono::NaiveDateTime::parse_from_str(ts, fmt) {
        Ok(dt) => Some(dt.and_utc().timestamp()),
        Err(_) => None,
    }
}

/// `chrono::DateTime::parse_from_rfc3339(s)` followed by `.timestamp()`; the
/// result is claimed to depend on `s` alone.
#[verifier::external_body]
fn chrono_rfc3339_epoch(s: &str) -> (r: Option<i64>)
    ensures
        r == rfc3339_epoch(s@),
{
    match chrono::DateTime::parse_from_rfc3339(s) {
        Ok(dt) => Some(dt.timestamp()),
        Err(_) => None,
    }
}

/// Result of trying the formats from `k` on, in order, on `ts`.
pub open spec fn epoch_from_formats(ts: Seq<char>, k: int) -> Option<i64>
    decreases 6 - k,
{
    if k < 0 || k >= 6 {
        None
    } else {
        match naive_utc_epoch(ts, parse_format(k)) {
            Some(v) => Some(v),
            None => epoch_from_formats(ts, k + 1),
        }
    }
}

/// The formats are tried in the documented order, and the first that reads
/// the trimmed string decides: `%Y-%m-%dT%H:%M:%S`, `%Y-%m-%d %H:%M:%S`,
/// `%Y-%m-%d`, `%Y-%m-%dT%H:%M:%SZ`, `%Y%m%dT%H%M%S`, `%Y%m%d`. Every one of
/// them reads the year, then the month, then the day.
pub proof fn lemma_parse_epoch_formats(ts: Seq<char>)
    ensures
        spec_parse_epoch(ts) == (if spec_trim(ts).len() == 0 {
            None
        } else {
            let t = spec_trim(ts);
            match naive_utc_epoch(t, "%Y-%m-%dT%H:%M:%S"@) {
                Some(v) => Some(v),
                None => match naive_utc_epoch(t, "%Y-%m-%d %H:%M:%S"@) {
                    Some(v) => Some(v),
                    None => match naive_utc_epoch(t, "%Y-%m-%d"@) {
                        Some(v) => Some(v),
                        None => match naive_utc_epoch(t, "%Y-%m-%dT%H:%M:%SZ"@) {
                            Some(v) => Some(v),
                            None => match naive_utc_epoch(t, "%Y%m%dT%H%M%S"@) {
                                Some(v) => Some(v),
                                None => naive_utc_epoch(t, "%Y%m%d"@),
                            },
                        },
                    },
                },
            }
        }),
{
    reveal(spec_parse_epoch);
    reveal_with_fuel(epoch_from_formats, 7);
}

proof fn lemma_ymd_witness(f: Seq<char>, a: int, b: int, c: int)
    requires
        0 <= a < b < c,
        c + 2 <= f.len(),
        f.subrange(a, a + 2) == "%Y"@,
        f.subrange(b, b + 2) == "%m"@,
        f.subrange(c, c + 2) == "%d"@,
    ensures
        exists|a: int, b: int, c: int|
            0 <= a < b < c && c + 2 <= f.len() && #[trigger] f.subrange(a, a + 2) == "%Y"@ && #[trigger] f.subrange(
                b,
                b + 2,
            ) == "%m"@ && #[trigger] f.subrange(c, c + 2) == "%d"@,
{
}

/// Each supported format names the year, the month and the day in that
/// order: `%Y` comes before `%m`, which comes before `%d`.
pub proof fn lemma_parse_formats_year_month_day(k: int)
    requires
        0 <= k < N_PARSE_FORMATS,
    ensures
        exists|a: int, b: int, c: int|
            0 <= a < b < c && c + 2 <= parse_format(k).len() && #[trigger] parse_format(k).subrange(a, a + 2)
                == "%Y"@ && #[trigger] parse_format(k).subrange(b, b + 2) == "%m"@ && #[trigger] parse_format(
                k,
            ).subrange(c, c + 2) == "%d"@,
{
    reveal_strlit("%Y");
    reveal_strlit("%m");
    reveal_strlit("%d");
    let f = parse_format(k);
    if k == 0 {
        reveal_strlit("%Y-%m-%dT%H:%M:%S");
        assert(f.subrange(0, 2) =~= "%Y"@ && f.subrange(3, 5) =~= "%m"@ && f.subrange(6, 8) =~= "%d"@);
        lemma_ymd_witness(f, 0, 3, 6);
    } else if k == 1 {
        reveal_strlit("%Y-%m-%d %H:%M:%S");
        assert(f.subrange(0, 2) =~= "%Y"@ && f.subrange(3, 5) =~= "%m"@ && f.subrange(6, 8) =~= "%d"@);
        lemma_ymd_witness(f, 0, 3, 6);
    } else if k == 2 {
        reveal_strlit("%Y-%m-%d");
        assert(f.subrange(0, 2) =~= "%Y"@ && f.subrange(3, 5) =~= "%m"@ && f.subrange(6, 8) =~= "%d"@);
        lemma_ymd_witness(f, 0, 3, 6);
    } else if k == 3 {
        reveal_strlit("%Y-%m-%dT%H:%M:%SZ");
        assert(f.subrange(0, 2) =~= "%Y"@ && f.subrange(3, 5) =~= "%m"@ && f.subrange(6, 8) =~= "%d"@);
        lemma_ymd_witness(f, 0, 3, 6);
    } else if k == 4 {
        reveal_strlit("%Y%m%dT%H%M%S");
        assert(f.subrange(0, 2) =~= "%Y"@ && f.subrange(2, 4) =~= "%m"@ && f.subrange(4, 6) =~= "%d"@);
        lemma_ymd_witness(f, 0, 2, 4);
    } else {
        reveal_strlit("%Y%m%d");
        assert(f.subrange(0, 2) =~= "%Y"@ && f.subrange(2, 4) =~= "%m"@ && f.subrange(4, 6) =~= "%d"@);
        lemma_ymd_witness(f, 0, 2, 4);
    }
}

/// Seconds since the Unix epoch of a timestamp string: the trimmed string is
/// tried against each supported format in order.
#[verifier::opaque]
pub open spec fn spec_parse_epoch(ts: Seq<char>) -> Option<i64> {
    let t = spec_trim(ts);
    if t.len() == 0 {
        None
    } else {
        epoch_from_formats(t, 0)
    }
}

/// Parses a timestamp into seconds since the Unix epoch, reading every
/// supported format as UTC; `None` if no format matches.
pub fn parse_iso8601_to_epoch_seconds(ts: &str) -> (r: Option<i64>)
    ensures
        r == spec_parse_epoch(ts@),
{
    reveal(spec_parse_epoch);
    let t = trim_str(ts);
    if t.is_empty() {
        return None;
    }
    let mut k: usize = 0;
    while k < N_PARSE_FORMATS
        invariant
            k <= N_PARSE_FORMATS,
            t@ == spec_trim(ts@),
            t@.len() > 0,
            spec_parse_epoch(ts@) == epoch_from_formats(t@, k as int),
        decreases N_PARSE_FORMATS - k,
    {
        let fmt = parse_format_str(k);
        if let Some(v) = chrono_naive_utc_epoch(t, fmt) {
            return Some(v);
        }
        k = k + 1;
    }
    None
}

/// Errors of timestamp lists.
#[derive(Debug, PartialEq, Eq)]
pub enum TimestampError {
    /// The timestamp could not be parsed.
    InvalidTimestamp(String),
}

/// Parses every timestamp, failing on the first that does not parse.
pub fn parse_timestamps_to_epoch_seconds(timestamps: &[&str]) -> (r: Result<Vec<i64>, TimestampError>)
    ensures
        r is Ok <==> forall|i: int| 0 <= i < timestamps@.len() ==> (#[trigger] spec_parse_epoch(timestamps@[i]@)) is Some,
        r matches Ok(v) ==> v@.len() == timestamps@.len() && forall|i: int|
            0 <= i < timestamps@.len() ==> #[trigger] spec_parse_epoch(timestamps@[i]@) == Some(v@[i]),
        r matches Err(TimestampError::InvalidTimestamp(s)) ==> exists|i: int|
            0 <= i < timestamps@.len() && s@ == timestamps@[i]@ && spec_parse_epoch(timestamps@[i]@) is None
                && forall|j: int| 0 <= j < i ==> (#[trigger] spec_parse_epoch(timestamps@[j]@)) is Some,
{
    let mut out: Vec<i64> = Vec::new();
    let mut i: usize = 0;
    while i < timestamps.len()
        invariant
            i <= timestamps@.len(),
            out@.len() == i,
            forall|j: int| 0 <= j < i ==> #[trigger] spec_parse_epoch(timestamps@[j]@) == Some(out@[j]),
        decreases timestamps@.len() - i,
    {
        match parse_iso8601_to_epoch_seconds(timestamps[i]) {
            Some(v) => out.push(v),
            None => {
                let s = timestamps[i].to_owned();
                return Err(TimestampError::InvalidTimestamp(s));
            },
        }
        i = i + 1;
    }
    Ok(out)
}

/// Timestamp of a raster band description: the embedded `DDDDDDDDTDDDDDD`
/// substring if there is one, else the whole trimmed description, parsed
/// with the supported formats; failing that, the trimmed description read
/// as RFC 3339.
pub open spec fn spec_description_epoch(desc: Seq<char>) -> Option<i64> {
    let d = spec_trim(desc);
    let first = if exists|i: int| timestamp_at(d, i) {
        let i = choose|i: int| timestamp_at(d, i) && forall|j: int| 0 <= j < i ==> !timestamp_at(d, j);
        spec_parse_epoch(d.subrange(i, i + 15))
    } else {
        spec_parse_epoch(d)
    };
    match first {
        Some(v) => Some(v),
        None => rfc3339_epoch(d),
    }
}

proof fn lemma_first_match_unique(d: Seq<char>, i: int, j: int)
    requires
        timestamp_at(d, i),
        forall|k: int| 0 <= k < i ==> !timestamp_at(d, k),
        timestamp_at(d, j),
        forall|k: int| 0 <= k < j ==> !timestamp_at(d, k),
    ensures
        i == j,
{
    if i < j {
        assert(!timestamp_at(d, i));
    } else if j < i {
        assert(!timestamp_at(d, j));
    }
}

/// Seconds since the Unix epoch of the timestamp in a band description.
pub fn description_epoch_seconds(desc: &str) -> (r: Option<i64>)
    ensures
        r == spec_description_epoch(desc@),
{
    let d = trim_str(desc);
    let first = match find_timestamp_substring(d) {
        Some(sub) => {
            proof {
                let i = choose|i: int|
                    timestamp_at(d@, i) && sub@ == d@.subrange(i, i + 15) && forall|j: int|
                        0 <= j < i ==> !timestamp_at(d@, j);
                let c = choose|c: int| timestamp_at(d@, c) && forall|j: int| 0 <= j < c ==> !timestamp_at(d@, j);
                lemma_first_match_unique(d@, i, c);
            }
            parse_iso8601_to_epoch_seconds(sub)
        },
        None => parse_iso8601_to_epoch_seconds(d),
    };
    match first {
        Some(v) => Some(v),
        None => chrono_rfc3339_epoch(d),
    }
}

/// Typed error for invalid raster inputs.
#[derive(Debug, PartialEq, Eq)]
pub enum RasterInputError {
    /// The raster has no bands (empty dataset).
    EmptyRaster,
    /// The number of bands does not match the number of timestamps provided.
    BandTimestampMismatch { n_bands: usize, n_timestamps: usize },
    /// The raster spatial dimensions are zero.
    ZeroSize { rows: usize, cols: usize },
    /// A band description could not be parsed as a timestamp.
    InvalidBandTimestamp { band_idx: usize, description: String },
}

/// Text shown for a band whose description could not be read.
pub open spec fn unavailable_description() -> Seq<char> {
    "<unavailable>"@
}

/// Seconds since the Unix epoch of each band (1-based `b` is `descriptions[b - 1]`),
/// from the band descriptions; `None` stands for a band that could not be read.
pub fn band_description_epochs(descriptions: &Vec<Option<String>>) -> (r: Result<Vec<i64>, RasterInputError>)
    ensures
        descriptions@.len() == 0 <==> r == Err::<Vec<i64>, _>(RasterInputError::EmptyRaster),
        r is Ok <==> descriptions@.len() > 0 && forall|i: int|
            0 <= i < descriptions@.len() ==> (#[trigger] descriptions@[i]) is Some
                && spec_description_epoch(descriptions@[i]->0@) is Some,
        r matches Ok(v) ==> v@.len() == descriptions@.len() && forall|i: int|
            0 <= i < v@.len() ==> Some(#[trigger] v@[i]) == spec_description_epoch(descriptions@[i]->0@),
        r matches Err(RasterInputError::InvalidBandTimestamp { band_idx, description }) ==> {
            let i = band_idx - 1;
            &&& 1 <= band_idx <= descriptions@.len()
            &&& forall|j: int| 0 <= j < i ==> (#[trigger] descriptions@[j]) is Some
                && spec_description_epoch(descriptions@[j]->0@) is Some
            &&& match descriptions@[i] {
                None => description@ == unavailable_description(),
                Some(d) => spec_description_epoch(d@) is None && description@ == spec_trim(d@),
            }
        },
        r matches Err(e) ==> (e is EmptyRaster || e is InvalidBandTimestamp),
{
    if descriptions.len() == 0 {
        return Err(RasterInputError::EmptyRaster);
    }
    let mut out: Vec<i64> = Vec::new();
    let mut i: usize = 0;
    while i < descriptions.len()
        invariant
            i <= descriptions@.len(),
            out@.len() == i,
            forall|j: int| 0 <= j < i ==> (#[trigger] descriptions@[j]) is Some
                && spec_description_epoch(descriptions@[j]->0@) is Some,
            forall|j: int| 0 <= j < i ==> Some(#[trigger] out@[j]) == spec_description_epoch(descriptions@[j]->0@),
        decreases descriptions@.len() - i,
    {
        match &descriptions[i] {
            None => {
                let description = String::from_str("<unavailable>");
                return Err(RasterInputError::InvalidBandTimestamp { band_idx: i + 1, description });
            },
            Some(d) => match description_epoch_seconds(d.as_str()) {
                Some(v) => out.push(v),
                None => {
                    let description = trim_str(d.as_str()).to_owned();
                    return Err(RasterInputError::InvalidBandTimestamp { band_idx: i + 1, description });
                },
            },
        }
        i = i + 1;
    }
    Ok(out)
}

/// Timestamp substring of a band description, or the empty string.
pub fn raw_band_timestamp(desc: &str) -> (r: String)
    ensures
        (exists|i: int| timestamp_at(spec_trim(desc@), i)) ==> exists|i: int|
            timestamp_at(spec_trim(desc@), i) && r@ == spec_trim(desc@).subrange(i, i + 15) && forall|j: int|
                0 <= j < i ==> !timestamp_at(spec_trim(desc@), j),
        !(exists|i: int| timestamp_at(spec_trim(desc@), i)) ==> r@.len() == 0,
{
    match find_timestamp_substring(trim_str(desc)) {
        Some(sub) => sub.to_owned(),
        None => String::new(),
    }
}

impl RasterInputError {
    /// Human-readable description of the error.
    pub fn message(&self) -> (m: String)
        ensures
            m@ == spec_raster_error_message(*self),
    {
        let mut m = String::new();
        match self {
            RasterInputError::EmptyRaster => {
                push_str(&mut m, "raster has no bands");
            },
            RasterInputError::BandTimestampMismatch { n_bands, n_timestamps } => {
                push_str(&mut m, "band count (");
                push_decimal(&mut m, *n_bands as u128);
                push_str(&mut m, ") != timestamp count (");
                push_decimal(&mut m, *n_timestamps as u128);
                push_str(&mut m, ")");
            },
            RasterInputError::ZeroSize { rows, cols } => {
                push_str(&mut m, "raster has zero spatial size (");
                push_decimal(&mut m, *rows as u128);
                push_str(&mut m, "r \u{d7} ");
                push_decimal(&mut m, *cols as u128);
                push_str(&mut m, "c)");
            },
            RasterInputError::InvalidBandTimestamp { band_idx, description } => {
                push_str(&mut m, "band ");
                push_decimal(&mut m, *band_idx as u128);
                push_str(&mut m, " description is not a valid timestamp: '");
                push_str(&mut m, description.as_str());
                push_str(&mut m, "'");
            },
        }
        m
    }
}

/// The text of each raster input error.
pub open spec fn spec_raster_error_message(e: RasterInputError) -> Seq<char> {
    match e {
        RasterInputError::EmptyRaster => "raster has no bands"@,
        RasterInputError::BandTimestampMismatch { n_bands, n_timestamps } => "band count ("@
            + spec_decimal(n_bands as nat) + ") != timestamp count ("@ + spec_decimal(
            n_timestamps as nat,
        ) + ")"@,
        RasterInputError::ZeroSize { rows, cols } => "raster has zero spatial size ("@
            + spec_decimal(rows as nat) + "r \u{d7} "@ + spec_decimal(cols as nat) + "c)"@,
        RasterInputError::InvalidBandTimestamp { band_idx, description } => "band "@
            + spec_decimal(band_idx as nat) + " description is not a valid timestamp: '"@
            + description@ + "'"@,
    }
}

/// Whitespace around a timestamp does not change how it parses.
pub proof fn lemma_parse_ignores_surrounding_whitespace(ts: Seq<char>)
    ensures
        spec_parse_epoch(spec_trim(ts)) == spec_parse_epoch(ts),
{
    reveal(spec_parse_epoch);
    crate::text::lemma_trim_idempotent(ts);
}

} // verus!

//! Layout checks, deterministic sampling and record assembly for the
//! training-sample cache built from per-scene `band_time_row_col` caches.
use vstd::prelude::*;
use vstd::wrapping::u64_specs::{wrapping_add, wrapping_mul};

use crate::md5::{le64, le64_decode, lemma_le64_roundtrip};
use crate::text::same_strings;

verus! {

/// Seed used in place of a zero seed.
pub const LCG_ZERO_SEED_STATE: u64 = 0x9e37_79b9_7f4a_7c15;

/// Multiplier of the 64-bit linear congruential generator.
pub const LCG_MULTIPLIER: u64 = 6364136223846793005;

/// Increment of the 64-bit linear congruential generator.
pub const LCG_INCREMENT: u64 = 1442695040888963407;

/// One step of the generator: `state * MULTIPLIER + INCREMENT` modulo 2^64.
pub open spec fn lcg_step(state: u64) -> u64 {
    wrapping_add(wrapping_mul(state, LCG_MULTIPLIER), LCG_INCREMENT)
}

/// Deterministic 64-bit linear congruential generator.
pub struct Lcg64 {
    pub state: u64,
}

impl Lcg64 {
    /// Generator seeded with `seed` (a zero seed is replaced by a fixed constant).
    pub fn new(seed: u64) -> (r: Self)
        ensures
            r.state == (if seed == 0 { LCG_ZERO_SEED_STATE } else { seed }),
    {
        Lcg64 { state: if seed == 0 { LCG_ZERO_SEED_STATE } else { seed } }
    }

    /// Advances the state and returns it.
    pub fn next_u64(&mut self) -> (r: u64)
        ensures
            final(self).state == lcg_step(old(self).state),
            r == final(self).state,
    {
        self.state = self.state.wrapping_mul(LCG_MULTIPLIER).wrapping_add(LCG_INCREMENT);
        self.state
    }

    /// A value in `0..upper`: the next state modulo `upper`, or `0` without
    /// advancing the state when `upper <= 1`.
    pub fn gen_range(&mut self, upper: usize) -> (r: usize)
        ensures
            upper <= 1 ==> r == 0 && final(self).state == old(self).state,
            upper > 1 ==> final(self).state == lcg_step(old(self).state),
            upper > 1 ==> r == final(self).state % (upper as u64),
            upper > 1 ==> r < upper,
    {
        if upper <= 1 {
            0
        } else {
            (self.next_u64() % upper as u64) as usize
        }
    }
}

/// Whether the little-endian IEEE-754 single `[b0, b1, b2, b3]` is finite,
/// i.e. its eight exponent bits are not all ones.
pub open spec fn f32_le_finite(b2: u8, b3: u8) -> bool {
    !((b3 & 0x7fu8) == 0x7fu8 && (b2 & 0x80u8) == 0x80u8)
}

/// Finiteness test of a little-endian IEEE-754 single from its two high bytes.
pub fn f32_le_is_finite(b2: u8, b3: u8) -> (r: bool)
    ensures
        r == f32_le_finite(b2, b3),
{
    !((b3 & 0x7f) == 0x7f && (b2 & 0x80) == 0x80)
}

/// Per-band entry of a scene cache layout.
pub struct SceneBandLayout {
    pub name: String,
    pub timestamps: Vec<String>,
    pub time_len: usize,
    pub offset_values: usize,
}

/// The integer part of a scene cache `meta.json`: a `band_time_row_col`
/// cube of little-endian `f32` values.
pub struct SceneLayout {
    pub version: u32,
    pub source_name: String,
    pub rows: usize,
    pub cols: usize,
    pub layout: String,
    pub dtype: String,
    pub bands: Vec<String>,
    pub band_meta: Vec<SceneBandLayout>,
    pub total_values: usize,
}

/// Errors of scene validation and sample assembly.
#[derive(Debug, PartialEq, Eq)]
pub enum SampleCacheError {
    /// The scene lists no bands.
    NoBands,
    /// `bands` and `band_meta` differ in length.
    BandCountMismatch { bands: usize, band_meta: usize },
    /// `band_meta[index].name` differs from `bands[index]`.
    BandOrderMismatch { index: usize },
    /// Band `index` does not share the first band's time axis.
    UnalignedTimestamps { index: usize },
    /// `rows * cols` does not fit in `usize`.
    PixelCountOverflow,
    /// The scene has more pixels than a `u32` sample index can address.
    TooManyPixels { n_pixels: usize },
    /// A byte offset into the cube does not fit in `usize`.
    OffsetOverflow,
    /// A time slice extends beyond the cube data.
    SliceOutOfRange,
    /// The requested number of samples is zero.
    ZeroSamples,
    /// The attempt multiplier is zero.
    ZeroAttemptMultiplier,
    /// No scene cache was found.
    NoScenes,
    /// The scenes have no time step or no band.
    EmptyTimeAxis,
    /// No pixel reaches the joint-valid threshold.
    NoEligiblePixels,
    /// A sampled scene does not have the batch's band count.
    SceneBandCountMismatch { scene_id: usize },
}

/// Whether band `i` of `meta` is named as listed and shares the first
/// band's timestamps.
pub open spec fn band_aligned(meta: SceneLayout, i: int) -> bool {
    let first = meta.band_meta@[0].timestamps@;
    &&& meta.band_meta@[i].name@ == meta.bands@[i]@
    &&& meta.band_meta@[i].time_len == first.len()
    &&& same_strings(meta.band_meta@[i].timestamps@, first)
}

/// Whether the second half of `band_aligned` holds for band `i`.
pub open spec fn band_time_aligned(meta: SceneLayout, i: int) -> bool {
    let first = meta.band_meta@[0].timestamps@;
    &&& meta.band_meta@[i].time_len == first.len()
    &&& same_strings(meta.band_meta@[i].timestamps@, first)
}

/// Whether every band of `meta` is aligned.
pub open spec fn scene_well_formed(meta: SceneLayout) -> bool {
    &&& meta.bands@.len() > 0
    &&& meta.band_meta@.len() == meta.bands@.len()
    &&& forall|i: int| 0 <= i < meta.bands@.len() ==> band_aligned(meta, i)
}

/// Compares two lists of strings element by element.
pub fn strings_equal(a: &Vec<String>, b: &Vec<String>) -> (r: bool)
    ensures
        r == same_strings(a@, b@),
{
    if a.len() != b.len() {
        return false;
    }
    let mut i: usize = 0;
    while i < a.len()
        invariant
            i <= a.len(),
            a.len() == b.len(),
            forall|k: int| 0 <= k < i ==> a@[k]@ == b@[k]@,
        decreases a.len() - i,
    {
        if a[i] != b[i] {
            return false;
        }
        i = i + 1;
    }
    true
}

/// Checks that a scene cache lists its bands consistently: the same band
/// names in `bands` and `band_meta`, and one time axis shared by all bands.
pub fn validate_scene_meta(meta: &SceneLayout) -> (r: Result<(), SampleCacheError>)
    ensures
        r is Ok <==> scene_well_formed(*meta),
        r == Err::<(), _>(SampleCacheError::NoBands) <==> (meta.bands@.len() == 0
            || meta.band_meta@.len() == 0),
        r matches Err(SampleCacheError::BandCountMismatch { bands, band_meta }) ==> bands
            == meta.bands@.len() && band_meta == meta.band_meta@.len() && bands != band_meta
            && bands > 0 && band_meta > 0,
        (meta.bands@.len() > 0 && meta.band_meta@.len() > 0 && meta.bands@.len()
            != meta.band_meta@.len()) ==> r is Err && r->Err_0 is BandCountMismatch,
        r matches Err(SampleCacheError::BandOrderMismatch { index }) ==> {
            &&& meta.bands@.len() == meta.band_meta@.len()
            &&& index < meta.bands@.len()
            &&& forall|j: int| 0 <= j < index ==> band_aligned(*meta, j)
            &&& meta.band_meta@[index as int].name@ != meta.bands@[index as int]@
        },
        r matches Err(SampleCacheError::UnalignedTimestamps { index }) ==> {
            &&& meta.bands@.len() == meta.band_meta@.len()
            &&& index < meta.bands@.len()
            &&& forall|j: int| 0 <= j < index ==> band_aligned(*meta, j)
            &&& meta.band_meta@[index as int].name@ == meta.bands@[index as int]@
            &&& !band_time_aligned(*meta, index as int)
        },
        r matches Err(e) ==> (e is NoBands || e is BandCountMismatch || e is BandOrderMismatch
            || e is UnalignedTimestamps),
{
    if meta.bands.len() == 0 || meta.band_meta.len() == 0 {
        return Err(SampleCacheError::NoBands);
    }
    if meta.bands.len() != meta.band_meta.len() {
        return Err(
            SampleCacheError::BandCountMismatch {
                bands: meta.bands.len(),
                band_meta: meta.band_meta.len(),
            },
        );
    }
    let first = &meta.band_meta[0].timestamps;
    let mut i: usize = 0;
    while i < meta.bands.len()
        invariant
            i <= meta.bands@.len(),
            meta.bands@.len() == meta.band_meta@.len(),
            meta.bands@.len() > 0,
            first@ == meta.band_meta@[0].timestamps@,
            forall|j: int| 0 <= j < i ==> band_aligned(*meta, j),
        decreases meta.bands.len() - i,
    {
        let band = &meta.band_meta[i];
        if band.name != meta.bands[i] {
            assert(!band_aligned(*meta, i as int));
            return Err(SampleCacheError::BandOrderMismatch { index: i });
        }
        if band.time_len != first.len() || !strings_equal(&band.timestamps, first) {
            assert(!band_aligned(*meta, i as int));
            return Err(SampleCacheError::UnalignedTimestamps { index: i });
        }
        i = i + 1;
    }
    Ok(())
}

/// Whether a scene cache has the version, source, layout and value type
/// that the sample cache reads.
pub open spec fn scene_compatible(meta: SceneLayout, source_name: Seq<char>) -> bool {
    &&& meta.version == 1
    &&& meta.source_name@ == source_name
    &&& meta.layout@ == "band_time_row_col"@
    &&& meta.dtype@ == "f32_le"@
}

/// Whether `meta` describes a cache of `source_name` in the supported format.
pub fn scene_is_compatible(meta: &SceneLayout, source_name: &str) -> (r: bool)
    ensures
        r == scene_compatible(*meta, source_name@),
{
    let layout = "band_time_row_col";
    let dtype = "f32_le";
    meta.version == 1 && crate::text::str_equal(meta.source_name.as_str(), source_name)
        && crate::text::str_equal(meta.layout.as_str(), layout) && crate::text::str_equal(
        meta.dtype.as_str(),
        dtype,
    )
}

/// Whether the byte offset of time slice `t` of a band stored from value
/// `offset_values` fits in `usize` when computed as
/// `(offset_values + (t * rows) * cols) * 4`.
pub open spec fn time_offset_fits(offset_values: int, rows: int, cols: int, t: int) -> bool {
    &&& t * rows <= usize::MAX
    &&& t * rows * cols <= usize::MAX
    &&& offset_values + t * rows * cols <= usize::MAX
    &&& (offset_values + t * rows * cols) * 4 <= usize::MAX
}

/// Byte offset of time slice `t` of a band stored from value `offset_values`.
pub open spec fn time_byte_offset(offset_values: int, rows: int, cols: int, t: int) -> int {
    (offset_values + t * rows * cols) * 4
}

/// Byte offset of time slice `t` of `band`, with every step checked.
pub fn band_time_byte_offset(meta: &SceneLayout, band: &SceneBandLayout, t: usize) -> (r: Result<
    usize,
    SampleCacheError,
>)
    ensures
        r is Ok <==> time_offset_fits(band.offset_values as int, meta.rows as int, meta.cols as int, t as int),
        r matches Ok(v) ==> v == time_byte_offset(band.offset_values as int, meta.rows as int, meta.cols as int, t as int),
        r matches Err(e) ==> e == SampleCacheError::OffsetOverflow,
{
    let tr = match t.checked_mul(meta.rows) {
        Some(v) => v,
        None => return Err(SampleCacheError::OffsetOverflow),
    };
    let time_offset = match tr.checked_mul(meta.cols) {
        Some(v) => v,
        None => return Err(SampleCacheError::OffsetOverflow),
    };
    let value_idx = match band.offset_values.checked_add(time_offset) {
        Some(v) => v,
        None => return Err(SampleCacheError::OffsetOverflow),
    };
    match value_idx.checked_mul(4) {
        Some(v) => Ok(v),
        None => Err(SampleCacheError::OffsetOverflow),
    }
}

/// Number of pixels of a scene.
pub open spec fn scene_pixels(meta: SceneLayout) -> int {
    meta.rows * meta.cols
}

/// Byte offset of the time slice `t` of band `b` of `meta`.
pub open spec fn slice_start(meta: SceneLayout, b: int, t: int) -> int {
    time_byte_offset(meta.band_meta@[b].offset_values as int, meta.rows as int, meta.cols as int, t)
}

/// Whether offsets of slice `(b, t)` fit in `usize`, end included.
pub open spec fn slice_fits(meta: SceneLayout, b: int, t: int) -> bool {
    &&& time_offset_fits(meta.band_meta@[b].offset_values as int, meta.rows as int, meta.cols as int, t)
    &&& 4 * scene_pixels(meta) <= usize::MAX
    &&& slice_start(meta, b, t) + 4 * scene_pixels(meta) <= usize::MAX
}

/// Whether slice `(b, t)` is addressable and lies inside `data_len` bytes.
pub open spec fn slice_ok(meta: SceneLayout, data_len: int, b: int, t: int) -> bool {
    &&& slice_fits(meta, b, t)
    &&& slice_start(meta, b, t) + 4 * scene_pixels(meta) <= data_len
}

/// Whether every slice `(b', t')` before `(b, t)` (time-major order) is in range.
pub open spec fn slices_ok_before(meta: SceneLayout, data_len: int, b: int, t: int) -> bool {
    &&& forall|tt: int, bb: int|
        0 <= tt < t && 0 <= bb < meta.band_meta@.len() ==> #[trigger] slice_ok(meta, data_len, bb, tt)
    &&& forall|bb: int| 0 <= bb < b ==> #[trigger] slice_ok(meta, data_len, bb, t)
}

/// Whether every slice of the first `n_times` time steps is in range.
pub open spec fn all_slices_ok(meta: SceneLayout, data_len: int, n_times: int) -> bool {
    forall|tt: int, bb: int|
        0 <= tt < n_times && 0 <= bb < meta.band_meta@.len() ==> #[trigger] slice_ok(meta, data_len, bb, tt)
}

/// Whether the value of pixel `p` in slice `(b, t)` is finite.
pub open spec fn value_finite(meta: SceneLayout, data: Seq<u8>, b: int, t: int, p: int) -> bool {
    let at = slice_start(meta, b, t) + 4 * p;
    f32_le_finite(data[at + 2], data[at + 3])
}

/// Whether pixel `p` is finite at time `t` in the first `nb` bands.
pub open spec fn joint_finite(meta: SceneLayout, data: Seq<u8>, t: int, p: int, nb: nat) -> bool
    decreases nb,
{
    if nb == 0 {
        true
    } else {
        joint_finite(meta, data, t, p, (nb - 1) as nat) && value_finite(meta, data, nb - 1, t, p)
    }
}

/// A pixel is jointly finite at time `t` in the first `nb` bands exactly
/// when its value at `t` is finite in each of those bands: a value that is
/// not finite in any one band removes the time step.
pub proof fn lemma_joint_finite_every_band(meta: SceneLayout, data: Seq<u8>, t: int, p: int, nb: nat)
    ensures
        joint_finite(meta, data, t, p, nb) <==> forall|b: int| 0 <= b < nb ==> #[trigger] value_finite(meta, data, b, t, p),
    decreases nb,
{
    if nb > 0 {
        lemma_joint_finite_every_band(meta, data, t, p, (nb - 1) as nat);
        if !value_finite(meta, data, nb - 1, t, p) {
            assert(!(forall|b: int| 0 <= b < nb ==> #[trigger] value_finite(meta, data, b, t, p)));
        }
    }
}

/// The joint-valid count of a pixel over `n` time steps is the number of
/// those steps at which every band's value is finite: it grows by one for a
/// step where all bands are finite and stays put for a step where any band
/// is not.
pub proof fn lemma_joint_valid_count_step(meta: SceneLayout, data: Seq<u8>, p: int, n: nat)
    ensures
        (forall|b: int| 0 <= b < meta.band_meta@.len() ==> #[trigger] value_finite(meta, data, b, n as int, p))
            ==> joint_valid_count(meta, data, p, n + 1) == joint_valid_count(meta, data, p, n) + 1,
        (exists|b: int| 0 <= b < meta.band_meta@.len() && !#[trigger] value_finite(meta, data, b, n as int, p))
            ==> joint_valid_count(meta, data, p, n + 1) == joint_valid_count(meta, data, p, n),
        joint_valid_count(meta, data, p, n) <= n,
    decreases n,
{
    lemma_joint_finite_every_band(meta, data, n as int, p, meta.band_meta@.len());
    if n > 0 {
        lemma_joint_valid_count_step(meta, data, p, (n - 1) as nat);
    }
}

/// Number of the first `n` time steps at which pixel `p` is finite in every band.
pub open spec fn joint_valid_count(meta: SceneLayout, data: Seq<u8>, p: int, n: nat) -> nat
    decreases n,
{
    if n == 0 {
        0
    } else {
        joint_valid_count(meta, data, p, (n - 1) as nat) + if joint_finite(
            meta,
            data,
            n - 1,
            p,
            meta.band_meta@.len(),
        ) {
            1nat
        } else {
            0nat
        }
    }
}

/// The per-pixel count as kept in a saturating 16-bit counter.
pub open spec fn saturated_count(meta: SceneLayout, data: Seq<u8>, p: int, n: nat) -> nat {
    if joint_valid_count(meta, data, p, n) > u16::MAX {
        u16::MAX as nat
    } else {
        joint_valid_count(meta, data, p, n)
    }
}

/// Pixels below `n` whose saturated joint-valid count reaches `min_joint_valid`,
/// in increasing order.
pub open spec fn eligible_pixels(
    meta: SceneLayout,
    data: Seq<u8>,
    min_joint_valid: int,
    n_times: nat,
    n: nat,
) -> Seq<u32>
    decreases n,
{
    if n == 0 {
        Seq::empty()
    } else {
        let prev = eligible_pixels(meta, data, min_joint_valid, n_times, (n - 1) as nat);
        if saturated_count(meta, data, n - 1, n_times) >= min_joint_valid {
            prev.push((n - 1) as u32)
        } else {
            prev
        }
    }
}

/// Clears the flag of every pixel whose value in the slice starting at byte
/// `start` is not finite.
fn clear_nonfinite(flags: &mut Vec<bool>, data: &[u8], start: usize, n_pixels: usize)
    requires
        old(flags)@.len() == n_pixels,
        start + 4 * n_pixels <= data@.len(),
    ensures
        final(flags)@.len() == n_pixels,
        forall|p: int|
            0 <= p < n_pixels ==> #[trigger] final(flags)@[p] == (old(flags)@[p] && f32_le_finite(
                data@[start + 4 * p + 2],
                data@[start + 4 * p + 3],
            )),
{
    let mut p: usize = 0;
    while p < n_pixels
        invariant
            p <= n_pixels,
            flags@.len() == n_pixels,
            start + 4 * n_pixels <= data.len(),
            forall|q: int|
                0 <= q < p ==> #[trigger] flags@[q] == (old(flags)@[q] && f32_le_finite(
                    data@[start + 4 * q + 2],
                    data@[start + 4 * q + 3],
                )),
            forall|q: int| p <= q < n_pixels ==> #[trigger] flags@[q] == old(flags)@[q],
        decreases n_pixels - p,
    {
        if flags[p] {
            let at = start + 4 * p;
            if !f32_le_is_finite(data[at + 2], data[at + 3]) {
                flags.set(p, false);
            }
        }
        p = p + 1;
    }
}

/// Pixels whose values are finite in every band at no fewer than
/// `min_joint_valid` time steps (counted in a saturating 16-bit counter),
/// in increasing order, for a scene cube held in `data`.
pub fn collect_eligible_pixels(meta: &SceneLayout, data: &[u8], min_joint_valid: usize) -> (r: Result<
    Vec<u32>,
    SampleCacheError,
>)
    requires
        meta.band_meta@.len() > 0,
    ensures
        r == Err::<Vec<u32>, _>(SampleCacheError::PixelCountOverflow) <==> scene_pixels(*meta)
            > usize::MAX,
        r == Err::<Vec<u32>, _>(SampleCacheError::TooManyPixels { n_pixels: scene_pixels(*meta) as usize })
            <==> (scene_pixels(*meta) <= usize::MAX && scene_pixels(*meta) > u32::MAX),
        r is Ok <==> (scene_pixels(*meta) <= u32::MAX && all_slices_ok(
            *meta,
            data@.len() as int,
            meta.band_meta@[0].time_len as int,
        )),
        r matches Ok(v) ==> v@ == eligible_pixels(
            *meta,
            data@,
            min_joint_valid as int,
            meta.band_meta@[0].time_len as nat,
            scene_pixels(*meta) as nat,
        ),
        r matches Err(SampleCacheError::OffsetOverflow) ==> exists|t: int, b: int|
            0 <= t < meta.band_meta@[0].time_len && 0 <= b < meta.band_meta@.len()
                && slices_ok_before(*meta, data@.len() as int, b, t) && !slice_fits(*meta, b, t),
        r matches Err(SampleCacheError::SliceOutOfRange) ==> exists|t: int, b: int|
            0 <= t < meta.band_meta@[0].time_len && 0 <= b < meta.band_meta@.len()
                && slices_ok_before(*meta, data@.len() as int, b, t) && slice_fits(*meta, b, t)
                && !slice_ok(*meta, data@.len() as int, b, t),
        r matches Err(e) ==> (e is PixelCountOverflow || e is TooManyPixels || e is OffsetOverflow
            || e is SliceOutOfRange),
{
    let n_pixels = match meta.rows.checked_mul(meta.cols) {
        Some(v) => v,
        None => return Err(SampleCacheError::PixelCountOverflow),
    };
    if n_pixels > 0xffff_ffffusize {
        return Err(SampleCacheError::TooManyPixels { n_pixels });
    }
    let n_times = meta.band_meta[0].time_len;
    let nb = meta.band_meta.len();
    let mut counts: Vec<u16> = vec![0u16; n_pixels];
    let mut t: usize = 0;
    while t < n_times
        invariant
            t <= n_times,
            n_times == meta.band_meta@[0].time_len,
            nb == meta.band_meta@.len(),
            n_pixels == scene_pixels(*meta),
            n_pixels <= u32::MAX,
            counts@.len() == n_pixels,
            forall|tt: int, bb: int|
                0 <= tt < t && 0 <= bb < nb ==> #[trigger] slice_ok(*meta, data@.len() as int, bb, tt),
            forall|p: int|
                0 <= p < n_pixels ==> #[trigger] counts@[p] == saturated_count(*meta, data@, p, t as nat),
        decreases n_times - t,
    {
        let mut flags: Vec<bool> = vec![true; n_pixels];
        let mut b: usize = 0;
        while b < nb
            invariant
                b <= nb,
                t < n_times,
                n_times == meta.band_meta@[0].time_len,
                nb == meta.band_meta@.len(),
                n_pixels == scene_pixels(*meta),
                n_pixels <= u32::MAX,
                flags@.len() == n_pixels,
                slices_ok_before(*meta, data@.len() as int, b as int, t as int),
                forall|p: int|
                    0 <= p < n_pixels ==> #[trigger] flags@[p] == joint_finite(*meta, data@, t as int, p, b as nat),
            decreases nb - b,
        {
            let start = band_time_byte_offset(meta, &meta.band_meta[b], t);
            let start = match start {
                Ok(v) => v,
                Err(e) => {
                    assert(!slice_fits(*meta, b as int, t as int));
                    assert(!slice_ok(*meta, data@.len() as int, b as int, t as int));
                    return Err(e);
                },
            };
            let len = match n_pixels.checked_mul(4) {
                Some(v) => v,
                None => {
                    assert(!slice_fits(*meta, b as int, t as int));
                    assert(!slice_ok(*meta, data@.len() as int, b as int, t as int));
                    return Err(SampleCacheError::OffsetOverflow);
                },
            };
            let end = match start.checked_add(len) {
                Some(v) => v,
                None => {
                    assert(!slice_fits(*meta, b as int, t as int));
                    assert(!slice_ok(*meta, data@.len() as int, b as int, t as int));
                    return Err(SampleCacheError::OffsetOverflow);
                },
            };
            if end > data.len() {
                assert(slice_fits(*meta, b as int, t as int));
                assert(!slice_ok(*meta, data@.len() as int, b as int, t as int));
                return Err(SampleCacheError::SliceOutOfRange);
            }
            assert(slice_ok(*meta, data@.len() as int, b as int, t as int));
            let ghost before = flags@;
            clear_nonfinite(&mut flags, data, start, n_pixels);
            assert forall|p: int| 0 <= p < n_pixels implies #[trigger] flags@[p] == joint_finite(
                *meta,
                data@,
                t as int,
                p,
                (b + 1) as nat,
            ) by {
                assert(flags@[p] == (before[p] && f32_le_finite(
                    data@[start + 4 * p + 2],
                    data@[start + 4 * p + 3],
                )));
            }
            b = b + 1;
        }
        let mut p: usize = 0;
        while p < n_pixels
            invariant
                p <= n_pixels,
                counts@.len() == n_pixels,
                flags@.len() == n_pixels,
                nb == meta.band_meta@.len(),
                forall|q: int|
                    0 <= q < n_pixels ==> #[trigger] flags@[q] == joint_finite(*meta, data@, t as int, q, nb as nat),
                forall|q: int|
                    0 <= q < p ==> #[trigger] counts@[q] == saturated_count(*meta, data@, q, (t + 1) as nat),
                forall|q: int|
                    p <= q < n_pixels ==> #[trigger] counts@[q] == saturated_count(*meta, data@, q, t as nat),
            decreases n_pixels - p,
        {
            if flags[p] {
                let c = counts[p].saturating_add(1);
                counts.set(p, c);
            }
            p = p + 1;
        }
        t = t + 1;
    }
    let mut out: Vec<u32> = Vec::new();
    let mut p: usize = 0;
    while p < n_pixels
        invariant
            p <= n_pixels,
            n_pixels <= u32::MAX,
            counts@.len() == n_pixels,
            forall|q: int|
                0 <= q < n_pixels ==> #[trigger] counts@[q] == saturated_count(*meta, data@, q, n_times as nat),
            out@ == eligible_pixels(*meta, data@, min_joint_valid as int, n_times as nat, p as nat),
        decreases n_pixels - p,
    {
        if counts[p] as usize >= min_joint_valid {
            out.push(p as u32);
        }
        p = p + 1;
    }
    Ok(out)
}

/// Generator state after `n` steps from `state`.
pub open spec fn lcg_iter(state: u64, n: nat) -> u64
    decreases n,
{
    if n == 0 {
        state
    } else {
        lcg_step(lcg_iter(state, (n - 1) as nat))
    }
}

/// Number of eligible pixels in the lists from index `i` on.
pub open spec fn eligible_total_from(eligible: Seq<Seq<u32>>, i: int) -> nat
    decreases eligible.len() - i,
{
    if i < 0 || i >= eligible.len() {
        0
    } else {
        eligible[i].len() + eligible_total_from(eligible, i + 1)
    }
}

/// Scene and position within that scene's list of global eligible index `g`,
/// searching from list `i` on.
pub open spec fn locate_eligible(eligible: Seq<Seq<u32>>, g: nat, i: int) -> (int, int)
    decreases eligible.len() - i,
{
    if i < 0 || i >= eligible.len() {
        (0, g as int)
    } else if g < eligible[i].len() {
        (i, g as int)
    } else {
        locate_eligible(eligible, (g - eligible[i].len()) as nat, i + 1)
    }
}

/// Global eligible index drawn for sample `k` when the generator starts at `state`.
pub open spec fn sample_draw(state: u64, total: nat, k: nat) -> nat {
    if total <= 1 {
        0
    } else {
        (lcg_iter(state, k + 1) % (total as u64)) as nat
    }
}

/// `(scene_id, pixel_offset)` of sample `k`.
pub open spec fn sample_key(state: u64, eligible: Seq<Seq<u32>>, k: nat) -> (usize, usize) {
    let (s, j) = locate_eligible(eligible, sample_draw(state, eligible_total_from(eligible, 0), k), 0);
    (s as usize, eligible[s][j] as usize)
}

/// The keys of the first `n` samples, in drawing order.
pub open spec fn sample_keys(state: u64, eligible: Seq<Seq<u32>>, n: nat) -> Seq<(usize, usize)> {
    Seq::new(n, |k: int| sample_key(state, eligible, k as nat))
}

/// Lexicographic order on `(scene_id, pixel_offset)` keys.
pub open spec fn key_le(a: (usize, usize), b: (usize, usize)) -> bool {
    a.0 < b.0 || (a.0 == b.0 && a.1 <= b.1)
}

/// `slice::sort_unstable` on pairs of integers. Claimed: afterwards the
/// vector holds the same pairs, each as often as before, in ascending
/// lexicographic order (the order std documents for tuples); the order of
/// equal pairs is left open, as they cannot be told apart.
#[verifier::external_body]
fn sort_pairs(v: &mut Vec<(usize, usize)>)
    ensures
        final(v)@.to_multiset() == old(v)@.to_multiset(),
        forall|i: int, j: int| 0 <= i < j < final(v)@.len() ==> key_le(final(v)@[i], final(v)@[j]),
{
    v.sort_unstable();
}

/// One sampled pixel of one scene.
#[derive(Clone, Copy, Debug, PartialEq, Eq)]
pub struct SampleTask {
    pub scene_id: usize,
    pub row: usize,
    pub col: usize,
    pub pixel_offset: usize,
    pub n_times: usize,
}

/// Key of a task.
pub open spec fn task_key(t: SampleTask) -> (usize, usize) {
    (t.scene_id, t.pixel_offset)
}

/// Total of the list lengths, if it fits in `usize`.
pub fn total_eligible(eligible: &Vec<Vec<u32>>) -> (r: Option<usize>)
    ensures
        r is Some <==> eligible_total_from(eligible.deep_view(), 0) <= usize::MAX,
        r matches Some(n) ==> n == eligible_total_from(eligible.deep_view(), 0),
{
    let ghost e = eligible.deep_view();
    let mut i: usize = eligible.len();
    let mut acc: usize = 0;
    while i > 0
        invariant
            i <= eligible@.len(),
            e == eligible.deep_view(),
            acc == eligible_total_from(e, i as int),
        decreases i,
    {
        i = i - 1;
        let len = eligible[i].len();
        assert(e[i as int].len() == len);
        acc = match acc.checked_add(len) {
            Some(v) => v,
            None => {
                proof {
                    lemma_total_from_monotone(e, 0, i as int);
                }
                return None;
            },
        };
    }
    Some(acc)
}

proof fn lemma_total_from_monotone(e: Seq<Seq<u32>>, i: int, j: int)
    requires
        0 <= i <= j,
    ensures
        eligible_total_from(e, i) >= eligible_total_from(e, j),
    decreases j - i,
{
    if i < j && i < e.len() {
        lemma_total_from_monotone(e, i + 1, j);
    }
}

proof fn lemma_locate(e: Seq<Seq<u32>>, g: nat, i: int)
    requires
        0 <= i,
        g < eligible_total_from(e, i),
    ensures
        i <= locate_eligible(e, g, i).0 < e.len(),
        0 <= locate_eligible(e, g, i).1 < e[locate_eligible(e, g, i).0].len(),
    decreases e.len() - i,
{
    if i < e.len() && g >= e[i].len() {
        lemma_locate(e, (g - e[i].len()) as nat, i + 1);
    }
}

/// Scene and position within that scene's list of global eligible index `g`.
fn locate_sample(eligible: &Vec<Vec<u32>>, g0: usize) -> (r: (usize, usize))
    requires
        g0 < eligible_total_from(eligible.deep_view(), 0),
    ensures
        r.0 < eligible@.len(),
        r.1 < eligible@[r.0 as int]@.len(),
        (r.0 as int, r.1 as int) == locate_eligible(eligible.deep_view(), g0 as nat, 0),
{
    let ghost e = eligible.deep_view();
    let mut g = g0;
    let mut idx: usize = 0;
    while idx < eligible.len()
        invariant
            e == eligible.deep_view(),
            idx <= eligible@.len(),
            g < eligible_total_from(e, idx as int),
            locate_eligible(e, g as nat, idx as int) == locate_eligible(e, g0 as nat, 0),
        ensures
            idx < eligible@.len(),
            g < e[idx as int].len(),
            locate_eligible(e, g as nat, idx as int) == locate_eligible(e, g0 as nat, 0),
        decreases eligible@.len() - idx,
    {
        let len = eligible[idx].len();
        assert(e[idx as int].len() == len);
        if g < len {
            break;
        }
        g = g - len;
        idx = idx + 1;
    }
    assert(e[idx as int] == eligible@[idx as int]@);
    (idx, g)
}

/// The drawn keys, in drawing order.
fn draw_sample_keys(rng: &mut Lcg64, eligible: &Vec<Vec<u32>>, total: usize, n_samples: usize) -> (keys: Vec<
    (usize, usize),
>)
    requires
        total == eligible_total_from(eligible.deep_view(), 0),
        total > 0,
    ensures
        keys@ == sample_keys(old(rng).state, eligible.deep_view(), n_samples as nat),
        forall|i: int| 0 <= i < keys@.len() ==> #[trigger] keys@[i].0 < eligible@.len(),
        forall|i: int|
            0 <= i < keys@.len() ==> eligible@[#[trigger] keys@[i].0 as int]@.contains(keys@[i].1 as u32),
        total > 1 ==> final(rng).state == lcg_iter(old(rng).state, n_samples as nat),
        total <= 1 ==> final(rng).state == old(rng).state,
{
    let ghost e = eligible.deep_view();
    let ghost state0 = rng.state;
    let mut keys: Vec<(usize, usize)> = Vec::new();
    let mut k: usize = 0;
    while k < n_samples
        invariant
            k <= n_samples,
            e == eligible.deep_view(),
            total == eligible_total_from(e, 0),
            total > 0,
            keys@ == sample_keys(state0, e, k as nat),
            total > 1 ==> rng.state == lcg_iter(state0, k as nat),
            total <= 1 ==> rng.state == state0,
            forall|i: int| 0 <= i < k ==> #[trigger] keys@[i].0 < eligible@.len(),
            forall|i: int|
                0 <= i < k ==> eligible@[#[trigger] keys@[i].0 as int]@.contains(keys@[i].1 as u32),
        decreases n_samples - k,
    {
        let g = rng.gen_range(total);
        assert(g as nat == sample_draw(state0, total as nat, k as nat));
        let (scene, j) = locate_sample(eligible, g);
        let pixel = eligible[scene][j];
        keys.push((scene, pixel as usize));
        proof {
            assert(e[scene as int] == eligible@[scene as int]@);
            assert(eligible@[scene as int]@[j as int] == pixel);
            assert(eligible@[scene as int]@.contains(pixel));
            assert(keys@ =~= sample_keys(state0, e, (k + 1) as nat));
        }
        k = k + 1;
    }
    keys
}

/// Draws `n_samples` pixels from the pooled eligible pixels of all scenes
/// and returns them sorted by `(scene_id, pixel_offset)`; `scene_cols[s]` and
/// `scene_times[s]` give the width and time-axis length of scene `s`.
pub fn generate_sample_tasks(
    rng: &mut Lcg64,
    eligible: &Vec<Vec<u32>>,
    scene_cols: &Vec<usize>,
    scene_times: &Vec<usize>,
    n_samples: usize,
) -> (tasks: Vec<SampleTask>)
    requires
        eligible_total_from(eligible.deep_view(), 0) > 0,
        eligible_total_from(eligible.deep_view(), 0) <= usize::MAX,
        scene_cols@.len() == eligible@.len(),
        scene_times@.len() == eligible@.len(),
        forall|s: int|
            0 <= s < eligible@.len() && eligible@[s]@.len() > 0 ==> #[trigger] scene_cols@[s] > 0,
    ensures
        tasks@.len() == n_samples,
        tasks@.map_values(|t: SampleTask| task_key(t)).to_multiset() == sample_keys(
            old(rng).state,
            eligible.deep_view(),
            n_samples as nat,
        ).to_multiset(),
        forall|i: int, j: int|
            0 <= i < j < tasks@.len() ==> key_le(task_key(tasks@[i]), task_key(tasks@[j])),
        forall|i: int| 0 <= i < tasks@.len() ==> task_fits(#[trigger] tasks@[i], eligible@, scene_cols@, scene_times@),
        eligible_total_from(eligible.deep_view(), 0) > 1 ==> final(rng).state == lcg_iter(
            old(rng).state,
            n_samples as nat,
        ),
        eligible_total_from(eligible.deep_view(), 0) <= 1 ==> final(rng).state == old(rng).state,
{
    let total = match total_eligible(eligible) {
        Some(v) => v,
        None => 0,
    };
    let mut keys = draw_sample_keys(rng, eligible, total, n_samples);
    let ghost drawn = keys@;
    sort_pairs(&mut keys);
    proof {
        broadcast use vstd::seq_lib::group_to_multiset_ensures;

        assert(keys@.len() == keys@.to_multiset().len());
        assert(drawn.len() == drawn.to_multiset().len());
    }
    let tasks = tasks_from_keys(&keys, eligible, scene_cols, scene_times, Ghost(drawn));
    assert(tasks@.map_values(|t: SampleTask| task_key(t)) =~= keys@);
    tasks
}

/// Whether task `t` names an eligible pixel of its scene with that scene's
/// width and time-axis length.
pub open spec fn task_fits(t: SampleTask, eligible: Seq<Vec<u32>>, scene_cols: Seq<usize>, scene_times: Seq<usize>) -> bool {
    &&& t.scene_id < eligible.len()
    &&& t.row == t.pixel_offset / scene_cols[t.scene_id as int]
    &&& t.col == t.pixel_offset % scene_cols[t.scene_id as int]
    &&& t.n_times == scene_times[t.scene_id as int]
    &&& eligible[t.scene_id as int]@.contains(t.pixel_offset as u32)
}

fn tasks_from_keys(
    keys: &Vec<(usize, usize)>,
    eligible: &Vec<Vec<u32>>,
    scene_cols: &Vec<usize>,
    scene_times: &Vec<usize>,
    Ghost(drawn): Ghost<Seq<(usize, usize)>>,
) -> (tasks: Vec<SampleTask>)
    requires
        keys@.to_multiset() == drawn.to_multiset(),
        forall|a: int| 0 <= a < drawn.len() ==> #[trigger] drawn[a].0 < eligible@.len(),
        forall|a: int|
            0 <= a < drawn.len() ==> eligible@[#[trigger] drawn[a].0 as int]@.contains(drawn[a].1 as u32),
        scene_cols@.len() == eligible@.len(),
        scene_times@.len() == eligible@.len(),
        forall|s: int|
            0 <= s < eligible@.len() && eligible@[s]@.len() > 0 ==> #[trigger] scene_cols@[s] > 0,
    ensures
        tasks@.len() == keys@.len(),
        forall|a: int| 0 <= a < tasks@.len() ==> task_key(#[trigger] tasks@[a]) == keys@[a],
        forall|a: int| 0 <= a < tasks@.len() ==> task_fits(#[trigger] tasks@[a], eligible@, scene_cols@, scene_times@),
{
    let mut tasks: Vec<SampleTask> = Vec::new();
    let mut i: usize = 0;
    while i < keys.len()
        invariant
            i <= keys@.len(),
            keys@.to_multiset() == drawn.to_multiset(),
            tasks@.len() == i,
            forall|a: int| 0 <= a < i ==> task_key(#[trigger] tasks@[a]) == keys@[a],
            forall|a: int| 0 <= a < drawn.len() ==> #[trigger] drawn[a].0 < eligible@.len(),
            forall|a: int|
                0 <= a < drawn.len() ==> eligible@[#[trigger] drawn[a].0 as int]@.contains(drawn[a].1 as u32),
            scene_cols@.len() == eligible@.len(),
            scene_times@.len() == eligible@.len(),
            forall|s: int|
                0 <= s < eligible@.len() && eligible@[s]@.len() > 0 ==> #[trigger] scene_cols@[s] > 0,
            forall|a: int| 0 <= a < i ==> task_fits(#[trigger] tasks@[a], eligible@, scene_cols@, scene_times@),
        decreases keys@.len() - i,
    {
        let (scene_id, pixel_offset) = keys[i];
        proof {
            broadcast use vstd::seq_lib::group_to_multiset_ensures;

            assert(keys@.contains(keys@[i as int]));
            assert(drawn.to_multiset().count(keys@[i as int]) > 0);
            assert(drawn.contains(keys@[i as int]));
            let w = choose|w: int| 0 <= w < drawn.len() && drawn[w] == keys@[i as int];
            assert(drawn[w].0 < eligible@.len());
            assert(eligible@[drawn[w].0 as int]@.contains(drawn[w].1 as u32));
            assert(eligible@[scene_id as int]@.len() > 0);
        }
        let cols = scene_cols[scene_id];
        let task = SampleTask {
            scene_id,
            row: pixel_offset / cols,
            col: pixel_offset % cols,
            pixel_offset,
            n_times: scene_times[scene_id],
        };
        tasks.push(task);
        i = i + 1;
    }
    tasks
}

/// Little-endian bytes of the quiet NaN written for missing values.
pub const F32_NAN_LE: [u8; 4] = [0x00, 0x00, 0xc0, 0x7f];

/// Whether the byte range of time slice `t` of a band stored from value
/// `off`, computed as `(off + t * n_pixels) * 4` plus `n_pixels * 4`, fits.
pub open spec fn group_offset_fits(off: int, n_pixels: int, t: int) -> bool {
    &&& t * n_pixels <= usize::MAX
    &&& off + t * n_pixels <= usize::MAX
    &&& (off + t * n_pixels) * 4 <= usize::MAX
    &&& n_pixels * 4 <= usize::MAX
    &&& (off + t * n_pixels) * 4 + n_pixels * 4 <= usize::MAX
}

/// Start of the time slice `t` of band `b`, as read when writing samples.
pub open spec fn group_slice_start(meta: SceneLayout, b: int, t: int) -> int {
    (meta.band_meta@[b].offset_values + t * scene_pixels(meta)) * 4
}

/// Error of the first failing slice check of a scene, from `(t, b)` on in
/// time-major order.
pub open spec fn first_slice_error(meta: SceneLayout, data_len: int, t: int, b: int) -> Option<
    SampleCacheError,
>
    decreases meta.band_meta@[0].time_len - t, meta.band_meta@.len() - b,
{
    if t < 0 || b < 0 || t >= meta.band_meta@[0].time_len {
        None
    } else if b >= meta.band_meta@.len() {
        first_slice_error(meta, data_len, t + 1, 0)
    } else if !group_offset_fits(meta.band_meta@[b].offset_values as int, scene_pixels(meta), t) {
        Some(SampleCacheError::OffsetOverflow)
    } else if group_slice_start(meta, b, t) + scene_pixels(meta) * 4 > data_len {
        Some(SampleCacheError::SliceOutOfRange)
    } else {
        first_slice_error(meta, data_len, t, b + 1)
    }
}

/// Error raised when sampling scene `scene_id`, if any.
pub open spec fn scene_sample_error(meta: SceneLayout, data_len: int, n_bands: int, scene_id: usize) -> Option<
    SampleCacheError,
> {
    if scene_pixels(meta) > usize::MAX {
        Some(SampleCacheError::PixelCountOverflow)
    } else if meta.band_meta@.len() != n_bands {
        Some(SampleCacheError::SceneBandCountMismatch { scene_id })
    } else {
        first_slice_error(meta, data_len, 0, 0)
    }
}

/// Whether every slice of `meta` from `(t, b)` on passes its checks.
pub open spec fn slices_clear_from(meta: SceneLayout, data_len: int, t: int, b: int) -> bool {
    first_slice_error(meta, data_len, t, b) is None
}

proof fn lemma_slices_clear(meta: SceneLayout, data_len: int, t: int, b: int, tt: int, bb: int)
    requires
        meta.band_meta@.len() > 0,
        0 <= t,
        0 <= b,
        slices_clear_from(meta, data_len, t, b),
        (t < tt || (t == tt && b <= bb)),
        tt < meta.band_meta@[0].time_len,
        0 <= bb < meta.band_meta@.len(),
    ensures
        group_offset_fits(meta.band_meta@[bb].offset_values as int, scene_pixels(meta), tt),
        group_slice_start(meta, bb, tt) + scene_pixels(meta) * 4 <= data_len,
    decreases meta.band_meta@[0].time_len - t, meta.band_meta@.len() - b,
{
    if b >= meta.band_meta@.len() {
        lemma_slices_clear(meta, data_len, t + 1, 0, tt, bb);
    } else if t == tt && b == bb {
    } else {
        lemma_slices_clear(meta, data_len, t, b + 1, tt, bb);
    }
}

/// Checks, in time-major order, that every time slice of every band of a
/// scene lies inside its `data`.
fn check_scene_slices(meta: &SceneLayout, data: &[u8], n_pixels: usize) -> (r: Result<(), SampleCacheError>)
    requires
        meta.band_meta@.len() > 0,
        n_pixels == scene_pixels(*meta),
    ensures
        r is Ok <==> slices_clear_from(*meta, data@.len() as int, 0, 0),
        r matches Err(e) ==> first_slice_error(*meta, data@.len() as int, 0, 0) == Some(e),
{
    let n_times = meta.band_meta[0].time_len;
    let nb = meta.band_meta.len();
    let mut t: usize = 0;
    while t < n_times
        invariant
            t <= n_times,
            n_times == meta.band_meta@[0].time_len,
            nb == meta.band_meta@.len(),
            n_pixels == scene_pixels(*meta),
            first_slice_error(*meta, data@.len() as int, 0, 0) == first_slice_error(
                *meta,
                data@.len() as int,
                t as int,
                0,
            ),
        decreases n_times - t,
    {
        let mut b: usize = 0;
        while b < nb
            invariant
                b <= nb,
                t < n_times,
                n_times == meta.band_meta@[0].time_len,
                nb == meta.band_meta@.len(),
                n_pixels == scene_pixels(*meta),
                first_slice_error(*meta, data@.len() as int, 0, 0) == first_slice_error(
                    *meta,
                    data@.len() as int,
                    t as int,
                    b as int,
                ),
            decreases nb - b,
        {
            let off = meta.band_meta[b].offset_values;
            let ghost fits = group_offset_fits(off as int, n_pixels as int, t as int);
            let tn = match t.checked_mul(n_pixels) {
                Some(v) => v,
                None => return Err(SampleCacheError::OffsetOverflow),
            };
            let v = match off.checked_add(tn) {
                Some(v) => v,
                None => return Err(SampleCacheError::OffsetOverflow),
            };
            let start = match v.checked_mul(4) {
                Some(v) => v,
                None => return Err(SampleCacheError::OffsetOverflow),
            };
            let len = match n_pixels.checked_mul(4) {
                Some(v) => v,
                None => return Err(SampleCacheError::OffsetOverflow),
            };
            let end = match start.checked_add(len) {
                Some(v) => v,
                None => return Err(SampleCacheError::OffsetOverflow),
            };
            assert(fits);
            if end > data.len() {
                return Err(SampleCacheError::SliceOutOfRange);
            }
            b = b + 1;
        }
        t = t + 1;
    }
    Ok(())
}

/// The four bytes of pixel `p` in slice `(b, t)` of a scene.
pub open spec fn sample_cell(meta: SceneLayout, data: Seq<u8>, b: int, t: int, p: int) -> Seq<u8> {
    let at = group_slice_start(meta, b, t) + 4 * p;
    data.subrange(at, at + 4)
}

/// Bytes of pixel `p` at time `t` for the first `nb` bands.
pub open spec fn time_cells(meta: SceneLayout, data: Seq<u8>, t: int, p: int, nb: nat) -> Seq<u8>
    decreases nb,
{
    if nb == 0 {
        Seq::empty()
    } else {
        time_cells(meta, data, t, p, (nb - 1) as nat) + sample_cell(meta, data, nb - 1, t, p)
    }
}

/// `nb` NaN values.
pub open spec fn nan_cells(nb: nat) -> Seq<u8>
    decreases nb,
{
    if nb == 0 {
        Seq::empty()
    } else {
        nan_cells((nb - 1) as nat) + F32_NAN_LE@
    }
}

/// The first `t` time steps of the sample record of pixel `p`: all bands at
/// each time step of the scene, NaN past the scene's time axis.
pub open spec fn sample_record(meta: SceneLayout, data: Seq<u8>, p: int, nb: nat, t: nat) -> Seq<u8>
    decreases t,
{
    if t == 0 {
        Seq::empty()
    } else {
        sample_record(meta, data, p, nb, (t - 1) as nat) + if t - 1 < meta.band_meta@[0].time_len {
            time_cells(meta, data, t - 1, p, nb)
        } else {
            nan_cells(nb)
        }
    }
}

/// Whether pixel `p` is finite at time `t` in the first `nb` bands (write-path offsets).
pub open spec fn group_finite(meta: SceneLayout, data: Seq<u8>, t: int, p: int, nb: nat) -> bool
    decreases nb,
{
    if nb == 0 {
        true
    } else {
        let at = group_slice_start(meta, nb - 1, t) + 4 * p;
        group_finite(meta, data, t, p, (nb - 1) as nat) && f32_le_finite(data[at + 2], data[at + 3])
    }
}

/// The mask flag of pixel `p` at time `t` is set exactly when the pixel's
/// value at `t` is finite in every one of the first `nb` bands.
pub proof fn lemma_group_finite_every_band(meta: SceneLayout, data: Seq<u8>, t: int, p: int, nb: nat)
    ensures
        group_finite(meta, data, t, p, nb) <==> forall|b: int|
            0 <= b < nb ==> #[trigger] f32_le_finite(
                data[group_slice_start(meta, b, t) + 4 * p + 2],
                data[group_slice_start(meta, b, t) + 4 * p + 3],
            ),
    decreases nb,
{
    if nb > 0 {
        lemma_group_finite_every_band(meta, data, t, p, (nb - 1) as nat);
        let b = nb - 1;
        if !f32_le_finite(
            data[group_slice_start(meta, b, t) + 4 * p + 2],
            data[group_slice_start(meta, b, t) + 4 * p + 3],
        ) {
            assert(!(forall|b: int|
                0 <= b < nb ==> #[trigger] f32_le_finite(
                    data[group_slice_start(meta, b, t) + 4 * p + 2],
                    data[group_slice_start(meta, b, t) + 4 * p + 3],
                )));
        }
    }
}

/// Mask record of pixel `p`: one byte per time step, 1 where every band is finite.
pub open spec fn mask_record(meta: SceneLayout, data: Seq<u8>, p: int, max_times: nat) -> Seq<u8> {
    Seq::new(
        max_times,
        |t: int|
            if t < meta.band_meta@[0].time_len && group_finite(meta, data, t, p, meta.band_meta@.len()) {
                1u8
            } else {
                0u8
            },
    )
}

/// Index record of a task: scene, row, column and time-axis length as
/// little-endian 64-bit values.
pub open spec fn index_record(t: SampleTask) -> Seq<u8> {
    crate::md5::le64(t.scene_id as u64) + crate::md5::le64(t.row as u64) + crate::md5::le64(t.col as u64)
        + crate::md5::le64(t.n_times as u64)
}

/// Sample bytes of the first `n` tasks.
pub open spec fn batch_samples(
    scenes: Seq<SceneLayout>,
    data: Seq<Seq<u8>>,
    tasks: Seq<SampleTask>,
    nb: nat,
    max_times: nat,
    n: nat,
) -> Seq<u8>
    decreases n,
{
    if n == 0 {
        Seq::empty()
    } else {
        let t = tasks[n - 1];
        batch_samples(scenes, data, tasks, nb, max_times, (n - 1) as nat) + sample_record(
            scenes[t.scene_id as int],
            data[t.scene_id as int],
            t.pixel_offset as int,
            nb,
            max_times,
        )
    }
}

/// Mask bytes of the first `n` tasks.
pub open spec fn batch_mask(
    scenes: Seq<SceneLayout>,
    data: Seq<Seq<u8>>,
    tasks: Seq<SampleTask>,
    max_times: nat,
    n: nat,
) -> Seq<u8>
    decreases n,
{
    if n == 0 {
        Seq::empty()
    } else {
        let t = tasks[n - 1];
        batch_mask(scenes, data, tasks, max_times, (n - 1) as nat) + mask_record(
            scenes[t.scene_id as int],
            data[t.scene_id as int],
            t.pixel_offset as int,
            max_times,
        )
    }
}

/// Index bytes of the first `n` tasks.
pub open spec fn batch_index(tasks: Seq<SampleTask>, n: nat) -> Seq<u8>
    decreases n,
{
    if n == 0 {
        Seq::empty()
    } else {
        batch_index(tasks, (n - 1) as nat) + index_record(tasks[n - 1])
    }
}

/// The index bytes of `n` tasks are `n` records of 32 bytes, and record `i`
/// holds, as little-endian 64-bit values, the scene, the row, the column and
/// the time-axis length of task `i`, in that order.
pub proof fn lemma_batch_index_fields(tasks: Seq<SampleTask>, n: nat, i: int)
    requires
        0 <= i < n <= tasks.len(),
    ensures
        batch_index(tasks, n).len() == 32 * n,
        le64_decode(batch_index(tasks, n).subrange(32 * i, 32 * i + 8)) == tasks[i].scene_id,
        le64_decode(batch_index(tasks, n).subrange(32 * i + 8, 32 * i + 16)) == tasks[i].row,
        le64_decode(batch_index(tasks, n).subrange(32 * i + 16, 32 * i + 24)) == tasks[i].col,
        le64_decode(batch_index(tasks, n).subrange(32 * i + 24, 32 * i + 32)) == tasks[i].n_times,
    decreases n,
{
    let prev = batch_index(tasks, (n - 1) as nat);
    let cur = batch_index(tasks, n);
    lemma_batch_index_len(tasks, (n - 1) as nat);
    let t = tasks[n - 1];
    lemma_le64_roundtrip(t.scene_id as u64);
    lemma_le64_roundtrip(t.row as u64);
    lemma_le64_roundtrip(t.col as u64);
    lemma_le64_roundtrip(t.n_times as u64);
    assert(cur.len() == 32 * n);
    if i == n - 1 {
        let b = 32 * i;
        assert(cur.subrange(b, b + 8) =~= le64(t.scene_id as u64));
        assert(cur.subrange(b + 8, b + 16) =~= le64(t.row as u64));
        assert(cur.subrange(b + 16, b + 24) =~= le64(t.col as u64));
        assert(cur.subrange(b + 24, b + 32) =~= le64(t.n_times as u64));
    } else {
        lemma_batch_index_fields(tasks, (n - 1) as nat, i);
        let b = 32 * i;
        assert(cur.subrange(b, b + 8) =~= prev.subrange(b, b + 8));
        assert(cur.subrange(b + 8, b + 16) =~= prev.subrange(b + 8, b + 16));
        assert(cur.subrange(b + 16, b + 24) =~= prev.subrange(b + 16, b + 24));
        assert(cur.subrange(b + 24, b + 32) =~= prev.subrange(b + 24, b + 32));
    }
}

proof fn lemma_batch_index_records(tasks: Seq<SampleTask>)
    ensures
        forall|k: int|
            0 <= k < tasks.len() ==> {
                let t = #[trigger] tasks[k];
                let index = batch_index(tasks, tasks.len());
                &&& le64_decode(index.subrange(32 * k, 32 * k + 8)) == t.scene_id
                &&& le64_decode(index.subrange(32 * k + 8, 32 * k + 16)) == t.row
                &&& le64_decode(index.subrange(32 * k + 16, 32 * k + 24)) == t.col
                &&& le64_decode(index.subrange(32 * k + 24, 32 * k + 32)) == t.n_times
            },
{
    assert forall|k: int| 0 <= k < tasks.len() implies {
        let t = #[trigger] tasks[k];
        let index = batch_index(tasks, tasks.len());
        &&& le64_decode(index.subrange(32 * k, 32 * k + 8)) == t.scene_id
        &&& le64_decode(index.subrange(32 * k + 8, 32 * k + 16)) == t.row
        &&& le64_decode(index.subrange(32 * k + 16, 32 * k + 24)) == t.col
        &&& le64_decode(index.subrange(32 * k + 24, 32 * k + 32)) == t.n_times
    } by {
        lemma_batch_index_fields(tasks, tasks.len(), k);
    }
}

proof fn lemma_batch_index_len(tasks: Seq<SampleTask>, n: nat)
    requires
        n <= tasks.len(),
    ensures
        batch_index(tasks, n).len() == 32 * n,
    decreases n,
{
    if n > 0 {
        lemma_batch_index_len(tasks, (n - 1) as nat);
        let t = tasks[n - 1];
        lemma_le64_roundtrip(t.scene_id as u64);
        lemma_le64_roundtrip(t.row as u64);
        lemma_le64_roundtrip(t.col as u64);
        lemma_le64_roundtrip(t.n_times as u64);
    }
}

/// Error of the first task, from index `i` on, whose scene fails its checks.
pub open spec fn batch_error(
    scenes: Seq<SceneLayout>,
    data: Seq<Seq<u8>>,
    tasks: Seq<SampleTask>,
    nb: int,
    i: int,
) -> Option<SampleCacheError>
    decreases tasks.len() - i,
{
    if i < 0 || i >= tasks.len() {
        None
    } else {
        let s = tasks[i].scene_id;
        match scene_sample_error(scenes[s as int], data[s as int].len() as int, nb, s) {
            Some(e) => Some(e),
            None => batch_error(scenes, data, tasks, nb, i + 1),
        }
    }
}

/// Views of the scene cubes.
pub open spec fn data_views(data: Seq<&[u8]>) -> Seq<Seq<u8>> {
    Seq::new(data.len(), |i: int| data[i]@)
}

/// Sample, mask and index bytes of one batch of tasks.
pub struct SampleBatch {
    pub samples: Vec<u8>,
    pub mask: Vec<u8>,
    pub index: Vec<u8>,
}

fn push_le64(out: &mut Vec<u8>, v: u64)
    ensures
        final(out)@ == old(out)@ + crate::md5::le64(v),
{
    let ghost base = out@;
    let mut j: u64 = 0;
    while j < 8
        invariant
            j <= 8,
            out@ == base + crate::md5::le64(v).subrange(0, j as int),
        decreases 8 - j,
    {
        out.push(((v >> (8 * j)) & 0xff) as u8);
        j = j + 1;
        assert(out@ =~= base + crate::md5::le64(v).subrange(0, j as int));
    }
    assert(crate::md5::le64(v).subrange(0, 8) =~= crate::md5::le64(v));
}

/// Byte position of pixel `p` in slice `(b, t)`, for a scene whose slices
/// all passed their checks.
fn cell_position(meta: &SceneLayout, data: &[u8], n_pixels: usize, b: usize, t: usize, p: usize) -> (at: usize)
    requires
        meta.band_meta@.len() > 0,
        n_pixels == scene_pixels(*meta),
        slices_clear_from(*meta, data@.len() as int, 0, 0),
        b < meta.band_meta@.len(),
        t < meta.band_meta@[0].time_len,
        p < n_pixels,
    ensures
        at == group_slice_start(*meta, b as int, t as int) + 4 * p,
        at + 4 <= data@.len(),
{
    proof {
        lemma_slices_clear(*meta, data@.len() as int, 0, 0, t as int, b as int);
    }
    (meta.band_meta[b].offset_values + t * n_pixels) * 4 + 4 * p
}

fn write_sample_record(
    out: &mut Vec<u8>,
    meta: &SceneLayout,
    data: &[u8],
    p: usize,
    n_pixels: usize,
    max_times: usize,
)
    requires
        meta.band_meta@.len() > 0,
        n_pixels == scene_pixels(*meta),
        slices_clear_from(*meta, data@.len() as int, 0, 0),
        p < n_pixels,
    ensures
        final(out)@ == old(out)@ + sample_record(*meta, data@, p as int, meta.band_meta@.len(), max_times as nat),
        final(out)@.len() == old(out)@.len() + max_times * (meta.band_meta@.len() * 4),
{
    let ghost base = out@;
    let nb = meta.band_meta.len();
    let n_times = meta.band_meta[0].time_len;
    let mut t: usize = 0;
    while t < max_times
        invariant
            t <= max_times,
            nb == meta.band_meta@.len(),
            n_times == meta.band_meta@[0].time_len,
            meta.band_meta@.len() > 0,
            n_pixels == scene_pixels(*meta),
            slices_clear_from(*meta, data@.len() as int, 0, 0),
            p < n_pixels,
            out@ == base + sample_record(*meta, data@, p as int, nb as nat, t as nat),
            out@.len() == base.len() + t * (nb * 4),
        decreases max_times - t,
    {
        let ghost before = out@;
        let mut b: usize = 0;
        while b < nb
            invariant
                b <= nb,
                t < max_times,
                nb == meta.band_meta@.len(),
                n_times == meta.band_meta@[0].time_len,
                meta.band_meta@.len() > 0,
                n_pixels == scene_pixels(*meta),
                slices_clear_from(*meta, data@.len() as int, 0, 0),
                p < n_pixels,
                t < n_times ==> out@ == before + time_cells(*meta, data@, t as int, p as int, b as nat),
                t >= n_times ==> out@ == before + nan_cells(b as nat),
                out@.len() == before.len() + b * 4,
            decreases nb - b,
        {
            if t < n_times {
                let at = cell_position(meta, data, n_pixels, b, t, p);
                out.push(data[at]);
                out.push(data[at + 1]);
                out.push(data[at + 2]);
                out.push(data[at + 3]);
                assert(out@ =~= before + time_cells(*meta, data@, t as int, p as int, (b + 1) as nat));
            } else {
                out.push(F32_NAN_LE[0]);
                out.push(F32_NAN_LE[1]);
                out.push(F32_NAN_LE[2]);
                out.push(F32_NAN_LE[3]);
                assert(out@ =~= before + nan_cells((b + 1) as nat));
            }
            b = b + 1;
        }
        assert(out@ =~= base + sample_record(*meta, data@, p as int, nb as nat, (t + 1) as nat));
        assert((t + 1) * (nb * 4) == t * (nb * 4) + nb * 4) by (nonlinear_arith);
        t = t + 1;
    }
}

fn pixel_finite_all_bands(meta: &SceneLayout, data: &[u8], n_pixels: usize, t: usize, p: usize) -> (r: bool)
    requires
        meta.band_meta@.len() > 0,
        n_pixels == scene_pixels(*meta),
        slices_clear_from(*meta, data@.len() as int, 0, 0),
        t < meta.band_meta@[0].time_len,
        p < n_pixels,
    ensures
        r == group_finite(*meta, data@, t as int, p as int, meta.band_meta@.len()),
{
    let nb = meta.band_meta.len();
    let mut ok = true;
    let mut b: usize = 0;
    while b < nb
        invariant
            b <= nb,
            nb == meta.band_meta@.len(),
            meta.band_meta@.len() > 0,
            n_pixels == scene_pixels(*meta),
            slices_clear_from(*meta, data@.len() as int, 0, 0),
            t < meta.band_meta@[0].time_len,
            p < n_pixels,
            ok == group_finite(*meta, data@, t as int, p as int, b as nat),
        decreases nb - b,
    {
        let at = cell_position(meta, data, n_pixels, b, t, p);
        if !f32_le_is_finite(data[at + 2], data[at + 3]) {
            ok = false;
        }
        b = b + 1;
    }
    ok
}

fn write_mask_record(
    out: &mut Vec<u8>,
    meta: &SceneLayout,
    data: &[u8],
    p: usize,
    n_pixels: usize,
    max_times: usize,
)
    requires
        meta.band_meta@.len() > 0,
        n_pixels == scene_pixels(*meta),
        slices_clear_from(*meta, data@.len() as int, 0, 0),
        p < n_pixels,
    ensures
        final(out)@ == old(out)@ + mask_record(*meta, data@, p as int, max_times as nat),
        final(out)@.len() == old(out)@.len() + max_times,
{
    let ghost base = out@;
    let n_times = meta.band_meta[0].time_len;
    let mut t: usize = 0;
    while t < max_times
        invariant
            t <= max_times,
            n_times == meta.band_meta@[0].time_len,
            meta.band_meta@.len() > 0,
            n_pixels == scene_pixels(*meta),
            slices_clear_from(*meta, data@.len() as int, 0, 0),
            p < n_pixels,
            out@ == base + mask_record(*meta, data@, p as int, max_times as nat).subrange(0, t as int),
        decreases max_times - t,
    {
        let v: u8 = if t < n_times && pixel_finite_all_bands(meta, data, n_pixels, t, p) {
            1
        } else {
            0
        };
        out.push(v);
        t = t + 1;
        assert(out@ =~= base + mask_record(*meta, data@, p as int, max_times as nat).subrange(0, t as int));
    }
    assert(mask_record(*meta, data@, p as int, max_times as nat).subrange(0, max_times as int)
        =~= mask_record(*meta, data@, p as int, max_times as nat));
}

/// Checks the scene of a task before its records are written.
fn check_sample_scene(meta: &SceneLayout, data: &[u8], n_bands: usize, scene_id: usize) -> (r: Result<usize, SampleCacheError>)
    requires
        meta.band_meta@.len() > 0,
    ensures
        r is Ok <==> scene_sample_error(*meta, data@.len() as int, n_bands as int, scene_id) is None,
        r matches Ok(n) ==> n == scene_pixels(*meta),
        r matches Err(e) ==> scene_sample_error(*meta, data@.len() as int, n_bands as int, scene_id) == Some(e),
{
    let n_pixels = match meta.rows.checked_mul(meta.cols) {
        Some(v) => v,
        None => return Err(SampleCacheError::PixelCountOverflow),
    };
    if meta.band_meta.len() != n_bands {
        return Err(SampleCacheError::SceneBandCountMismatch { scene_id });
    }
    match check_scene_slices(meta, data, n_pixels) {
        Ok(()) => Ok(n_pixels),
        Err(e) => Err(e),
    }
}

/// Sample, mask and index bytes of a batch of tasks: for each task, in
/// order, `max_times * n_bands` little-endian `f32` values (time-major,
/// NaN past the scene's time axis), `max_times` mask bytes (1 where every
/// band is finite), and four little-endian `u64` index values.
pub fn build_sample_batch(
    scenes: &Vec<SceneLayout>,
    data: &Vec<&[u8]>,
    tasks: &[SampleTask],
    max_times: usize,
    n_bands: usize,
) -> (r: Result<SampleBatch, SampleCacheError>)
    requires
        scenes@.len() == data@.len(),
        forall|s: int| 0 <= s < scenes@.len() ==> (#[trigger] scenes@[s]).band_meta@.len() > 0,
        forall|i: int|
            0 <= i < tasks@.len() ==> {
                let t = #[trigger] tasks@[i];
                &&& t.scene_id < scenes@.len()
                &&& t.pixel_offset < scene_pixels(scenes@[t.scene_id as int])
            },
    ensures
        max_times * n_bands * 4 > usize::MAX ==> r == Err::<SampleBatch, _>(SampleCacheError::OffsetOverflow),
        (max_times * n_bands * 4 <= usize::MAX && (tasks@.len() * (max_times * n_bands * 4) > usize::MAX
            || tasks@.len() * max_times > usize::MAX || tasks@.len() * 32 > usize::MAX)) ==> r == Err::<
            SampleBatch,
            _,
        >(SampleCacheError::OffsetOverflow),
        (max_times * n_bands * 4 <= usize::MAX && tasks@.len() * (max_times * n_bands * 4) <= usize::MAX
            && tasks@.len() * max_times <= usize::MAX && tasks@.len() * 32 <= usize::MAX) ==> {
            &&& r is Ok <==> batch_error(scenes@, data_views(data@), tasks@, n_bands as int, 0) is None
            &&& r matches Err(e) ==> batch_error(scenes@, data_views(data@), tasks@, n_bands as int, 0) == Some(e)
        },
        r matches Ok(batch) ==> {
            &&& batch.samples@ == batch_samples(
                scenes@,
                data_views(data@),
                tasks@,
                n_bands as nat,
                max_times as nat,
                tasks@.len(),
            )
            &&& batch.mask@ == batch_mask(scenes@, data_views(data@), tasks@, max_times as nat, tasks@.len())
            &&& batch.index@ == batch_index(tasks@, tasks@.len())
            &&& batch.samples@.len() == tasks@.len() * (max_times * n_bands * 4)
            &&& batch.mask@.len() == tasks@.len() * max_times
            &&& batch.index@.len() == tasks@.len() * 32
        },
        r matches Ok(batch) ==> forall|i: int|
            0 <= i < tasks@.len() ==> {
                let t = #[trigger] tasks@[i];
                &&& le64_decode(batch.index@.subrange(32 * i, 32 * i + 8)) == t.scene_id
                &&& le64_decode(batch.index@.subrange(32 * i + 8, 32 * i + 16)) == t.row
                &&& le64_decode(batch.index@.subrange(32 * i + 16, 32 * i + 24)) == t.col
                &&& le64_decode(batch.index@.subrange(32 * i + 24, 32 * i + 32)) == t.n_times
            },
{
    let per_time = match max_times.checked_mul(n_bands) {
        Some(v) => v,
        None => return Err(SampleCacheError::OffsetOverflow),
    };
    let record = match per_time.checked_mul(4) {
        Some(v) => v,
        None => return Err(SampleCacheError::OffsetOverflow),
    };
    let sample_len = match tasks.len().checked_mul(record) {
        Some(v) => v,
        None => return Err(SampleCacheError::OffsetOverflow),
    };
    let mask_len = match tasks.len().checked_mul(max_times) {
        Some(v) => v,
        None => return Err(SampleCacheError::OffsetOverflow),
    };
    let index_len = match tasks.len().checked_mul(32) {
        Some(v) => v,
        None => return Err(SampleCacheError::OffsetOverflow),
    };
    let ghost dv = data_views(data@);
    let mut samples: Vec<u8> = Vec::with_capacity(sample_len);
    let mut mask: Vec<u8> = Vec::with_capacity(mask_len);
    let mut index: Vec<u8> = Vec::with_capacity(index_len);
    let mut i: usize = 0;
    while i < tasks.len()
        invariant
            i <= tasks@.len(),
            dv == data_views(data@),
            max_times * n_bands * 4 <= usize::MAX,
            tasks@.len() * (max_times * n_bands * 4) <= usize::MAX,
            tasks@.len() * max_times <= usize::MAX,
            tasks@.len() * 32 <= usize::MAX,
            scenes@.len() == data@.len(),
            forall|s: int| 0 <= s < scenes@.len() ==> (#[trigger] scenes@[s]).band_meta@.len() > 0,
            forall|k: int|
                0 <= k < tasks@.len() ==> {
                    let t = #[trigger] tasks@[k];
                    &&& t.scene_id < scenes@.len()
                    &&& t.pixel_offset < scene_pixels(scenes@[t.scene_id as int])
                },
            batch_error(scenes@, dv, tasks@, n_bands as int, 0) == batch_error(
                scenes@,
                dv,
                tasks@,
                n_bands as int,
                i as int,
            ),
            i > 0 ==> scene_sample_error(
                scenes@[tasks@[i - 1].scene_id as int],
                dv[tasks@[i - 1].scene_id as int].len() as int,
                n_bands as int,
                tasks@[i - 1].scene_id,
            ) is None,
            samples@ == batch_samples(scenes@, dv, tasks@, n_bands as nat, max_times as nat, i as nat),
            mask@ == batch_mask(scenes@, dv, tasks@, max_times as nat, i as nat),
            index@ == batch_index(tasks@, i as nat),
            samples@.len() == i * (max_times * n_bands * 4),
            mask@.len() == i * max_times,
            index@.len() == i * 32,
        decreases tasks@.len() - i,
    {
        let task = tasks[i];
        let s = task.scene_id;
        let meta = &scenes[s];
        let bytes: &[u8] = data[s];
        assert(dv[s as int] == bytes@);
        let n_pixels = if i > 0 && tasks[i - 1].scene_id == s {
            match meta.rows.checked_mul(meta.cols) {
                Some(v) => v,
                None => {
                    assert(false);
                    0
                },
            }
        } else {
            match check_sample_scene(meta, bytes, n_bands, s) {
                Ok(v) => v,
                Err(e) => return Err(e),
            }
        };
        assert(scene_sample_error(*meta, bytes@.len() as int, n_bands as int, s) is None);
        write_sample_record(&mut samples, meta, bytes, task.pixel_offset, n_pixels, max_times);
        write_mask_record(&mut mask, meta, bytes, task.pixel_offset, n_pixels, max_times);
        push_le64(&mut index, s as u64);
        push_le64(&mut index, task.row as u64);
        push_le64(&mut index, task.col as u64);
        push_le64(&mut index, task.n_times as u64);
        proof {
            assert(index@ =~= batch_index(tasks@, (i + 1) as nat));
            assert((i + 1) * (max_times * n_bands * 4) == i * (max_times * n_bands * 4) + max_times * (n_bands * 4))
                by (nonlinear_arith);
            assert((i + 1) * max_times == i * max_times + max_times) by (nonlinear_arith);
        }
        i = i + 1;
    }
    proof {
        lemma_batch_index_records(tasks@);
    }
    Ok(SampleBatch { samples, mask, index })
}

/// Checks the requested sample count and attempt multiplier.
pub fn check_sample_options(n_samples: usize, max_attempts_multiplier: usize) -> (r: Result<(), SampleCacheError>)
    ensures
        n_samples == 0 ==> r == Err::<(), _>(SampleCacheError::ZeroSamples),
        n_samples > 0 && max_attempts_multiplier == 0 ==> r == Err::<(), _>(SampleCacheError::ZeroAttemptMultiplier),
        n_samples > 0 && max_attempts_multiplier > 0 ==> r is Ok,
{
    if n_samples == 0 {
        return Err(SampleCacheError::ZeroSamples);
    }
    if max_attempts_multiplier == 0 {
        return Err(SampleCacheError::ZeroAttemptMultiplier);
    }
    Ok(())
}

/// Largest time-axis length among `scenes[..n]`.
pub open spec fn max_time_len(scenes: Seq<SceneLayout>, n: nat) -> nat
    decreases n,
{
    if n == 0 {
        0
    } else {
        let prev = max_time_len(scenes, (n - 1) as nat);
        let cur = scenes[n - 1].band_meta@[0].time_len as nat;
        if cur > prev {
            cur
        } else {
            prev
        }
    }
}

/// Sum of the time-axis lengths of `scenes[..n]`.
pub open spec fn time_len_sum(scenes: Seq<SceneLayout>, n: nat) -> nat
    decreases n,
{
    if n == 0 {
        0
    } else {
        time_len_sum(scenes, (n - 1) as nat) + scenes[n - 1].band_meta@[0].time_len as nat
    }
}

/// Shape of the sample cache to be written from a set of scenes: the band
/// count of the first scene, the longest time axis, and the byte length of
/// one sample record.
pub struct SampleCachePlan {
    pub n_bands: usize,
    pub max_times: usize,
    pub sample_bytes_per_record: usize,
    pub mask_bytes_per_record: usize,
    pub time_offsets: Vec<usize>,
}

/// Derives the sample cache shape from the discovered scenes: fails when no
/// scene is given, when the longest time axis or the band count is zero, or
/// when the record size overflows; `time_offsets[s]` is the position of
/// scene `s` on the concatenated time axis.
pub fn plan_sample_cache(scenes: &Vec<SceneLayout>) -> (r: Result<SampleCachePlan, SampleCacheError>)
    requires
        forall|s: int| 0 <= s < scenes@.len() ==> (#[trigger] scenes@[s]).band_meta@.len() > 0,
        time_len_sum(scenes@, scenes@.len()) <= usize::MAX,
    ensures
        scenes@.len() == 0 ==> r == Err::<SampleCachePlan, _>(SampleCacheError::NoScenes),
        scenes@.len() > 0 ==> {
            let nb = scenes@[0].bands@.len();
            let mt = max_time_len(scenes@, scenes@.len());
            &&& (mt == 0 || nb == 0) ==> r == Err::<SampleCachePlan, _>(SampleCacheError::EmptyTimeAxis)
            &&& (mt > 0 && nb > 0 && mt * nb * 4 > usize::MAX) ==> r == Err::<SampleCachePlan, _>(SampleCacheError::OffsetOverflow)
            &&& (mt > 0 && nb > 0 && mt * nb * 4 <= usize::MAX) ==> r is Ok
        },
        r matches Ok(plan) ==> {
            &&& plan.n_bands == scenes@[0].bands@.len()
            &&& plan.max_times == max_time_len(scenes@, scenes@.len())
            &&& plan.sample_bytes_per_record == plan.max_times * plan.n_bands * 4
            &&& plan.mask_bytes_per_record == plan.max_times
            &&& plan.time_offsets@.len() == scenes@.len()
            &&& forall|s: int| 0 <= s < scenes@.len() ==> #[trigger] plan.time_offsets@[s] == time_len_sum(scenes@, s as nat)
        },
{
    if scenes.len() == 0 {
        return Err(SampleCacheError::NoScenes);
    }
    let n_bands = scenes[0].bands.len();
    let mut max_times: usize = 0;
    let mut offsets: Vec<usize> = Vec::new();
    let mut acc: usize = 0;
    let mut s: usize = 0;
    while s < scenes.len()
        invariant
            s <= scenes@.len(),
            forall|k: int| 0 <= k < scenes@.len() ==> (#[trigger] scenes@[k]).band_meta@.len() > 0,
            time_len_sum(scenes@, scenes@.len()) <= usize::MAX,
            max_times == max_time_len(scenes@, s as nat),
            acc == time_len_sum(scenes@, s as nat),
            offsets@.len() == s,
            forall|k: int| 0 <= k < s ==> #[trigger] offsets@[k] == time_len_sum(scenes@, k as nat),
        decreases scenes@.len() - s,
    {
        proof {
            lemma_time_len_sum_monotone(scenes@, (s + 1) as nat, scenes@.len());
        }
        offsets.push(acc);
        let len = scenes[s].band_meta[0].time_len;
        if len > max_times {
            max_times = len;
        }
        acc = acc + len;
        s = s + 1;
    }
    if max_times == 0 || n_bands == 0 {
        return Err(SampleCacheError::EmptyTimeAxis);
    }
    let per_time = match max_times.checked_mul(n_bands) {
        Some(v) => v,
        None => return Err(SampleCacheError::OffsetOverflow),
    };
    let record = match per_time.checked_mul(4) {
        Some(v) => v,
        None => return Err(SampleCacheError::OffsetOverflow),
    };
    Ok(
        SampleCachePlan {
            n_bands,
            max_times,
            sample_bytes_per_record: record,
            mask_bytes_per_record: max_times,
            time_offsets: offsets,
        },
    )
}

proof fn lemma_time_len_sum_monotone(scenes: Seq<SceneLayout>, a: nat, b: nat)
    requires
        a <= b,
    ensures
        time_len_sum(scenes, a) <= time_len_sum(scenes, b),
    decreases b - a,
{
    if a < b {
        lemma_time_len_sum_monotone(scenes, a, (b - 1) as nat);
    }
}

/// Number of tasks of scene `s` among the first `n` tasks.
pub open spec fn tasks_of_scene(tasks: Seq<SampleTask>, s: int, n: nat) -> nat
    decreases n,
{
    if n == 0 {
        0
    } else {
        tasks_of_scene(tasks, s, (n - 1) as nat) + if tasks[n - 1].scene_id == s {
            1nat
        } else {
            0nat
        }
    }
}

proof fn lemma_tasks_of_scene_mono(tasks: Seq<SampleTask>, s: int, a: nat, b: nat)
    requires
        a <= b,
    ensures
        tasks_of_scene(tasks, s, a) <= tasks_of_scene(tasks, s, b),
    decreases b - a,
{
    if a < b {
        lemma_tasks_of_scene_mono(tasks, s, a, (b - 1) as nat);
    }
}

/// Adds to `counts[s]` the number of tasks of scene `s`.
pub fn add_sampled_counts(counts: &mut Vec<usize>, tasks: &[SampleTask])
    requires
        forall|i: int| 0 <= i < tasks@.len() ==> (#[trigger] tasks@[i]).scene_id < old(counts)@.len(),
        forall|s: int|
            0 <= s < old(counts)@.len() ==> #[trigger] old(counts)@[s] + tasks_of_scene(tasks@, s, tasks@.len())
                <= usize::MAX,
    ensures
        final(counts)@.len() == old(counts)@.len(),
        forall|s: int|
            0 <= s < old(counts)@.len() ==> #[trigger] final(counts)@[s] == old(counts)@[s] + tasks_of_scene(
                tasks@,
                s,
                tasks@.len(),
            ),
{
    let ghost orig = counts@;
    let mut i: usize = 0;
    while i < tasks.len()
        invariant
            i <= tasks@.len(),
            counts@.len() == orig.len(),
            forall|k: int| 0 <= k < tasks@.len() ==> (#[trigger] tasks@[k]).scene_id < orig.len(),
            forall|s: int| 0 <= s < orig.len() ==> #[trigger] orig[s] + tasks_of_scene(tasks@, s, tasks@.len()) <= usize::MAX,
            forall|s: int| 0 <= s < orig.len() ==> #[trigger] counts@[s] == orig[s] + tasks_of_scene(tasks@, s, i as nat),
        decreases tasks@.len() - i,
    {
        let s = tasks[i].scene_id;
        let c = counts[s];
        proof {
            lemma_tasks_of_scene_mono(tasks@, s as int, (i + 1) as nat, tasks@.len());
            assert(orig[s as int] + tasks_of_scene(tasks@, s as int, tasks@.len()) <= usize::MAX);
        }
        counts.set(s, c + 1);
        i = i + 1;
    }
}

/// Whether the keys are in ascending order.
pub open spec fn keys_sorted(k: Seq<(usize, usize)>) -> bool {
    forall|i: int, j: int| 0 <= i < j < k.len() ==> key_le(#[trigger] k[i], #[trigger] k[j])
}

proof fn lemma_sorted_keys_equal(a: Seq<(usize, usize)>, b: Seq<(usize, usize)>)
    requires
        keys_sorted(a),
        keys_sorted(b),
        a.to_multiset() == b.to_multiset(),
    ensures
        a == b,
    decreases a.len(),
{
    broadcast use vstd::seq_lib::group_to_multiset_ensures;

    assert(a.len() == a.to_multiset().len());
    assert(b.len() == b.to_multiset().len());
    if a.len() == 0 {
        assert(a =~= b);
    } else {
        assert(a.contains(a[0]));
        assert(a.to_multiset().count(a[0]) > 0);
        assert(b.to_multiset().count(a[0]) > 0);
        assert(b.contains(a[0]));
        let j = choose|j: int| 0 <= j < b.len() && #[trigger] b[j] == a[0];
        assert(b.contains(b[0]));
        assert(b.to_multiset().count(b[0]) > 0);
        assert(a.to_multiset().count(b[0]) > 0);
        assert(a.contains(b[0]));
        let i = choose|i: int| 0 <= i < a.len() && #[trigger] a[i] == b[0];
        if j > 0 {
            assert(key_le(b[0], b[j]));
        }
        if i > 0 {
            assert(key_le(a[0], a[i]));
        }
        assert(a[0] == b[0]);
        let ar = a.remove(0);
        let br = b.remove(0);
        assert(ar.to_multiset() == br.to_multiset());
        assert(keys_sorted(ar)) by {
            assert forall|p: int, q: int| 0 <= p < q < ar.len() implies key_le(#[trigger] ar[p], #[trigger] ar[q]) by {
                assert(ar[p] == a[p + 1] && ar[q] == a[q + 1]);
            }
        }
        assert(keys_sorted(br)) by {
            assert forall|p: int, q: int| 0 <= p < q < br.len() implies key_le(#[trigger] br[p], #[trigger] br[q]) by {
                assert(br[p] == b[p + 1] && br[q] == b[q + 1]);
            }
        }
        lemma_sorted_keys_equal(ar, br);
        assert forall|k: int| 0 <= k < a.len() implies a[k] == b[k] by {
            if k > 0 {
                assert(a[k] == ar[k - 1] && b[k] == br[k - 1]);
            }
        }
        assert(a =~= b);
    }
}

/// The drawn sample is a function of the generator state and the eligible
/// pixels: two task lists in key order, holding the same keys and fitting
/// the same scenes, are equal.
pub proof fn lemma_sample_tasks_determined(
    a: Seq<SampleTask>,
    b: Seq<SampleTask>,
    eligible: Seq<Vec<u32>>,
    scene_cols: Seq<usize>,
    scene_times: Seq<usize>,
)
    requires
        forall|i: int, j: int| 0 <= i < j < a.len() ==> key_le(task_key(#[trigger] a[i]), task_key(#[trigger] a[j])),
        forall|i: int, j: int| 0 <= i < j < b.len() ==> key_le(task_key(#[trigger] b[i]), task_key(#[trigger] b[j])),
        a.map_values(|t: SampleTask| task_key(t)).to_multiset() == b.map_values(|t: SampleTask| task_key(t)).to_multiset(),
        forall|i: int| 0 <= i < a.len() ==> task_fits(#[trigger] a[i], eligible, scene_cols, scene_times),
        forall|i: int| 0 <= i < b.len() ==> task_fits(#[trigger] b[i], eligible, scene_cols, scene_times),
    ensures
        a == b,
{
    let ka = a.map_values(|t: SampleTask| task_key(t));
    let kb = b.map_values(|t: SampleTask| task_key(t));
    assert(keys_sorted(ka)) by {
        assert forall|i: int, j: int| 0 <= i < j < ka.len() implies key_le(#[trigger] ka[i], #[trigger] ka[j]) by {
            assert(key_le(task_key(a[i]), task_key(a[j])));
        }
    }
    assert(keys_sorted(kb)) by {
        assert forall|i: int, j: int| 0 <= i < j < kb.len() implies key_le(#[trigger] kb[i], #[trigger] kb[j]) by {
            assert(key_le(task_key(b[i]), task_key(b[j])));
        }
    }
    lemma_sorted_keys_equal(ka, kb);
    assert forall|k: int| 0 <= k < a.len() implies a[k] == b[k] by {
        assert(ka[k] == kb[k]);
        assert(task_fits(a[k], eligible, scene_cols, scene_times));
        assert(task_fits(b[k], eligible, scene_cols, scene_times));
    }
    assert(a =~= b);
}

} // verus!

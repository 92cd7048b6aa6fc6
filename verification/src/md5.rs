//! MD5 digest (RFC 1321) used to fingerprint cache sources.
use vstd::prelude::*;
use vstd::wrapping::u32_specs::wrapping_add;

use crate::text::{hex_lower, hex_digit_char, push_char};

verus! {

/// Per-round left-rotation amounts of RFC 1321.
pub const MD5_S: [u32; 64] = [
    7, 12, 17, 22, 7, 12, 17, 22, 7, 12, 17, 22, 7, 12, 17, 22, 5, 9, 14, 20, 5, 9, 14, 20, 5,
    9, 14, 20, 5, 9, 14, 20, 4, 11, 16, 23, 4, 11, 16, 23, 4, 11, 16, 23, 4, 11, 16, 23, 6, 10,
    15, 21, 6, 10, 15, 21, 6, 10, 15, 21, 6, 10, 15, 21,
];

/// Per-round additive constants of RFC 1321.
pub const MD5_K: [u32; 64] = [
    0xd76aa478, 0xe8c7b756, 0x242070db, 0xc1bdceee, 0xf57c0faf, 0x4787c62a, 0xa8304613,
    0xfd469501, 0x698098d8, 0x8b44f7af, 0xffff5bb1, 0x895cd7be, 0x6b901122, 0xfd987193,
    0xa679438e, 0x49b40821, 0xf61e2562, 0xc040b340, 0x265e5a51, 0xe9b6c7aa, 0xd62f105d,
    0x02441453, 0xd8a1e681, 0xe7d3fbc8, 0x21e1cde6, 0xc33707d6, 0xf4d50d87, 0x455a14ed,
    0xa9e3e905, 0xfcefa3f8, 0x676f02d9, 0x8d2a4c8a, 0xfffa3942, 0x8771f681, 0x6d9d6122,
    0xfde5380c, 0xa4beea44, 0x4bdecfa9, 0xf6bb4b60, 0xbebfbc70, 0x289b7ec6, 0xeaa127fa,
    0xd4ef3085, 0x04881d05, 0xd9d4d039, 0xe6db99e5, 0x1fa27cf8, 0xc4ac5665, 0xf4292244,
    0x432aff97, 0xab9423a7, 0xfc93a039, 0x655b59c3, 0x8f0ccc92, 0xffeff47d, 0x85845dd1,
    0x6fa87e4f, 0xfe2ce6e0, 0xa3014314, 0x4e0811a1, 0xf7537e82, 0xbd3af235, 0x2ad7d2bb,
    0xeb86d391,
];

/// Initial chaining state of RFC 1321.
pub open spec fn md5_init() -> (u32, u32, u32, u32) {
    (0x67452301u32, 0xefcdab89u32, 0x98badcfeu32, 0x10325476u32)
}

/// Number of zero bytes inserted after the `0x80` marker so that the padded
/// length is congruent to 56 modulo 64.
pub open spec fn md5_zero_count(len: nat) -> nat {
    if len % 64 <= 55 {
        (55 - len % 64) as nat
    } else {
        (119 - len % 64) as nat
    }
}

/// Little-endian encoding of a 64-bit value.
pub open spec fn le64(v: u64) -> Seq<u8> {
    Seq::new(8, |i: int| ((v >> ((8 * i) as u64)) & 0xffu64) as u8)
}

/// The value of eight little-endian bytes.
pub open spec fn le64_decode(b: Seq<u8>) -> u64 {
    (b[0] as u64) | ((b[1] as u64) << 8u64) | ((b[2] as u64) << 16u64) | ((b[3] as u64) << 24u64) | ((
    b[4] as u64) << 32u64) | ((b[5] as u64) << 40u64) | ((b[6] as u64) << 48u64) | ((b[7] as u64) << 56u64)
}

/// Decoding the eight little-endian bytes of a value gives the value back.
pub proof fn lemma_le64_roundtrip(v: u64)
    ensures
        le64(v).len() == 8,
        le64_decode(le64(v)) == v,
{
    let b = le64(v);
    assert(b[0] == ((v >> 0u64) & 0xffu64) as u8);
    assert(b[1] == ((v >> 8u64) & 0xffu64) as u8);
    assert(b[2] == ((v >> 16u64) & 0xffu64) as u8);
    assert(b[3] == ((v >> 24u64) & 0xffu64) as u8);
    assert(b[4] == ((v >> 32u64) & 0xffu64) as u8);
    assert(b[5] == ((v >> 40u64) & 0xffu64) as u8);
    assert(b[6] == ((v >> 48u64) & 0xffu64) as u8);
    assert(b[7] == ((v >> 56u64) & 0xffu64) as u8);
    let (b0, b1, b2, b3, b4, b5, b6, b7) = (b[0], b[1], b[2], b[3], b[4], b[5], b[6], b[7]);
    assert((b0 as u64) | ((b1 as u64) << 8u64) | ((b2 as u64) << 16u64) | ((b3 as u64) << 24u64) | ((b4 as u64)
        << 32u64) | ((b5 as u64) << 40u64) | ((b6 as u64) << 48u64) | ((b7 as u64) << 56u64) == v) by (bit_vector)
        requires
            b0 == ((v >> 0u64) & 0xffu64) as u8,
            b1 == ((v >> 8u64) & 0xffu64) as u8,
            b2 == ((v >> 16u64) & 0xffu64) as u8,
            b3 == ((v >> 24u64) & 0xffu64) as u8,
            b4 == ((v >> 32u64) & 0xffu64) as u8,
            b5 == ((v >> 40u64) & 0xffu64) as u8,
            b6 == ((v >> 48u64) & 0xffu64) as u8,
            b7 == ((v >> 56u64) & 0xffu64) as u8,
    ;
}

/// Message length in bits, modulo 2^64.
pub open spec fn md5_bit_len(len: nat) -> u64 {
    ((len * 8) % 0x1_0000_0000_0000_0000) as u64
}

/// The padded message: input, `0x80`, zeros, then the bit length.
pub open spec fn md5_pad(msg: Seq<u8>) -> Seq<u8> {
    msg + seq![0x80u8] + Seq::new(md5_zero_count(msg.len()), |i: int| 0u8) + le64(
        md5_bit_len(msg.len()),
    )
}

/// Little-endian 32-bit word `w` of the 64-byte block starting at `off`.
pub open spec fn md5_word(msg: Seq<u8>, off: int, w: int) -> u32 {
    (msg[off + 4 * w] as u32) | ((msg[off + 4 * w + 1] as u32) << 8u32) | ((msg[off + 4 * w
        + 2] as u32) << 16u32) | ((msg[off + 4 * w + 3] as u32) << 24u32)
}

/// Left rotation of a 32-bit word by `s` bits, `0 < s < 32`.
pub open spec fn rotl32(x: u32, s: u32) -> u32 {
    (x << s) | (x >> ((32 - s) as u32))
}

/// Auxiliary function and message-word index of round `i`.
pub open spec fn md5_fg(b: u32, c: u32, d: u32, i: int) -> (u32, int) {
    if i < 16 {
        ((b & c) | (!b & d), i)
    } else if i < 32 {
        ((d & b) | (!d & c), (5 * i + 1) % 16)
    } else if i < 48 {
        (b ^ c ^ d, (3 * i + 5) % 16)
    } else {
        (c ^ (b | !d), (7 * i) % 16)
    }
}

/// One round of the MD5 compression function.
pub open spec fn md5_round(st: (u32, u32, u32, u32), msg: Seq<u8>, off: int, i: int) -> (
    u32,
    u32,
    u32,
    u32,
) {
    let (a, b, c, d) = st;
    let (f, g) = md5_fg(b, c, d, i);
    let sum = wrapping_add(wrapping_add(wrapping_add(a, f), MD5_K[i]), md5_word(msg, off, g));
    (d, wrapping_add(b, rotl32(sum, MD5_S[i])), b, c)
}

/// The first `n` rounds applied to `st` for the block at `off`.
pub open spec fn md5_rounds(st: (u32, u32, u32, u32), msg: Seq<u8>, off: int, n: nat) -> (
    u32,
    u32,
    u32,
    u32,
)
    decreases n,
{
    if n == 0 {
        st
    } else {
        md5_round(md5_rounds(st, msg, off, (n - 1) as nat), msg, off, n - 1)
    }
}

/// Compression of one 64-byte block into the chaining state.
pub open spec fn md5_compress(st: (u32, u32, u32, u32), msg: Seq<u8>, off: int) -> (
    u32,
    u32,
    u32,
    u32,
) {
    let r = md5_rounds(st, msg, off, 64);
    (
        wrapping_add(st.0, r.0),
        wrapping_add(st.1, r.1),
        wrapping_add(st.2, r.2),
        wrapping_add(st.3, r.3),
    )
}

/// Chaining state after the first `n` blocks of `padded`.
pub open spec fn md5_blocks(padded: Seq<u8>, n: nat) -> (u32, u32, u32, u32)
    decreases n,
{
    if n == 0 {
        md5_init()
    } else {
        md5_compress(md5_blocks(padded, (n - 1) as nat), padded, 64 * (n - 1))
    }
}

/// Little-endian encoding of a 32-bit word.
pub open spec fn le32(v: u32) -> Seq<u8> {
    seq![
        (v & 0xffu32) as u8,
        ((v >> 8u32) & 0xffu32) as u8,
        ((v >> 16u32) & 0xffu32) as u8,
        ((v >> 24u32) & 0xffu32) as u8,
    ]
}

/// The 16-byte MD5 digest of `msg`.
pub open spec fn md5_digest(msg: Seq<u8>) -> Seq<u8> {
    let padded = md5_pad(msg);
    let st = md5_blocks(padded, padded.len() / 64);
    le32(st.0) + le32(st.1) + le32(st.2) + le32(st.3)
}

proof fn lemma_pad_len(len: nat)
    ensures
        (len + 1 + md5_zero_count(len) + 8) % 64 == 0,
        len + 1 + md5_zero_count(len) + 8 <= len + 72,
{
}

fn rotl(x: u32, s: u32) -> (r: u32)
    requires
        0 < s < 32,
    ensures
        r == rotl32(x, s),
{
    (x << s) | (x >> (32 - s))
}

/// Appends the MD5 padding of RFC 1321 to a copy of `input`.
fn md5_padded(input: &[u8]) -> (msg: Vec<u8>)
    requires
        input@.len() + 72 <= usize::MAX,
    ensures
        msg@ == md5_pad(input@),
        msg@.len() % 64 == 0,
{
    let mut msg = vstd::slice::slice_to_vec(input);
    let bit_len: u64 = (input.len() as u64).wrapping_mul(8);
    proof {
        assert(bit_len == md5_bit_len(input@.len())) by (nonlinear_arith)
            requires
                bit_len == vstd::wrapping::u64_specs::wrapping_mul(input.len() as u64, 8),
                input.len() <= usize::MAX,
                usize::MAX <= u64::MAX,
        {
        }
        lemma_pad_len(input@.len());
    }
    msg.push(0x80);
    let ghost base = msg@;
    let ghost nz = md5_zero_count(input@.len());
    let mut k: usize = 0;
    while msg.len() % 64 != 56
        invariant
            base == input@ + seq![0x80u8],
            msg@ == base + Seq::new(k as nat, |i: int| 0u8),
            k <= nz,
            nz == md5_zero_count(input@.len()),
            (msg@.len() + (nz - k)) % 64 == 56,
            input@.len() + 72 <= usize::MAX,
        decreases nz - k,
    {
        assert(k < nz) by {
            if k == nz {
                assert(false);
            }
        }
        msg.push(0);
        k = k + 1;
        assert(msg@ =~= base + Seq::new(k as nat, |i: int| 0u8));
    }
    assert(k == nz);
    let mut j: u64 = 0;
    let ghost mid = msg@;
    while j < 8
        invariant
            j <= 8,
            msg@ == mid + le64(bit_len).subrange(0, j as int),
            mid.len() + 8 <= usize::MAX,
        decreases 8 - j,
    {
        msg.push(((bit_len >> (8 * j)) & 0xff) as u8);
        j = j + 1;
        assert(msg@ =~= mid + le64(bit_len).subrange(0, j as int));
    }
    assert(le64(bit_len).subrange(0, 8) =~= le64(bit_len));
    assert(msg@ =~= md5_pad(input@));
    msg
}

/// Reads the sixteen little-endian words of the block starting at `off`.
fn md5_block_words(msg: &Vec<u8>, off: usize) -> (m: Vec<u32>)
    requires
        off + 64 <= msg@.len(),
    ensures
        m@.len() == 16,
        forall|w: int| 0 <= w < 16 ==> #[trigger] m@[w] == md5_word(msg@, off as int, w),
{
    let mut m: Vec<u32> = Vec::new();
    let mut w: usize = 0;
    while w < 16
        invariant
            w <= 16,
            off + 64 <= msg.len(),
            m@.len() == w,
            forall|v: int| 0 <= v < w ==> #[trigger] m@[v] == md5_word(msg@, off as int, v),
        decreases 16 - w,
    {
        let s = off + 4 * w;
        let word = (msg[s] as u32) | ((msg[s + 1] as u32) << 8u32) | ((msg[s + 2] as u32)
            << 16u32) | ((msg[s + 3] as u32) << 24u32);
        m.push(word);
        w = w + 1;
    }
    m
}

/// Applies the compression function to the block starting at `off`.
fn md5_compress_block(st: (u32, u32, u32, u32), msg: &Vec<u8>, off: usize) -> (r: (
    u32,
    u32,
    u32,
    u32,
))
    requires
        off + 64 <= msg@.len(),
    ensures
        r == md5_compress(st, msg@, off as int),
{
    let m = md5_block_words(msg, off);
    let (mut a, mut b, mut c, mut d) = st;
    let mut i: usize = 0;
    while i < 64
        invariant
            i <= 64,
            m@.len() == 16,
            forall|w: int| 0 <= w < 16 ==> #[trigger] m@[w] == md5_word(msg@, off as int, w),
            (a, b, c, d) == md5_rounds(st, msg@, off as int, i as nat),
        decreases 64 - i,
    {
        let (f, g): (u32, usize) = if i < 16 {
            ((b & c) | (!b & d), i)
        } else if i < 32 {
            ((d & b) | (!d & c), (5 * i + 1) % 16)
        } else if i < 48 {
            (b ^ c ^ d, (3 * i + 5) % 16)
        } else {
            (c ^ (b | !d), (7 * i) % 16)
        };
        assert(MD5_S[i as int] > 0 && MD5_S[i as int] < 32);
        let sum = a.wrapping_add(f).wrapping_add(MD5_K[i]).wrapping_add(m[g]);
        let rot = rotl(sum, MD5_S[i]);
        let temp = d;
        d = c;
        c = b;
        b = b.wrapping_add(rot);
        a = temp;
        i = i + 1;
    }
    (st.0.wrapping_add(a), st.1.wrapping_add(b), st.2.wrapping_add(c), st.3.wrapping_add(d))
}

/// Lower-case hexadecimal MD5 digest of `input` (32 characters).
pub fn md5_hex(input: &[u8]) -> (hex: String)
    requires
        input@.len() + 72 <= usize::MAX,
    ensures
        hex@ == hex_lower(md5_digest(input@)),
        hex@.len() == 32,
{
    let msg = md5_padded(input);
    let nblocks = msg.len() / 64;
    let mut st: (u32, u32, u32, u32) = (0x67452301, 0xefcdab89, 0x98badcfe, 0x10325476);
    let mut j: usize = 0;
    while j < nblocks
        invariant
            j <= nblocks,
            nblocks == msg@.len() / 64,
            msg@.len() % 64 == 0,
            msg@.len() == msg.len(),
            st == md5_blocks(msg@, j as nat),
        decreases nblocks - j,
    {
        assert(64 * j + 64 <= msg.len()) by (nonlinear_arith)
            requires
                j < nblocks,
                nblocks == msg@.len() / 64,
                msg@.len() % 64 == 0,
                msg@.len() == msg.len(),
        {
        }
        st = md5_compress_block(st, &msg, 64 * j);
        j = j + 1;
    }
    let words: [u32; 4] = [st.0, st.1, st.2, st.3];
    let ghost digest = md5_digest(input@);
    assert(digest =~= le32(st.0) + le32(st.1) + le32(st.2) + le32(st.3));
    let mut out = String::new();
    let mut k: usize = 0;
    while k < 16
        invariant
            k <= 16,
            digest.len() == 16,
            digest == le32(words[0]) + le32(words[1]) + le32(words[2]) + le32(words[3]),
            out@ == hex_lower(digest.subrange(0, k as int)),
        decreases 16 - k,
    {
        let word = words[k / 4];
        let r = k % 4;
        let byte: u8 = if r == 0 {
            (word & 0xff) as u8
        } else if r == 1 {
            ((word >> 8u32) & 0xff) as u8
        } else if r == 2 {
            ((word >> 16u32) & 0xff) as u8
        } else {
            ((word >> 24u32) & 0xff) as u8
        };
        assert(byte == digest[k as int]) by {
            assert(digest[k as int] == le32(words[(k / 4) as int])[(k % 4) as int]);
        }
        assert(byte >> 4u8 < 16u8) by (bit_vector);
        assert(byte & 15u8 < 16u8) by (bit_vector);
        push_char(&mut out, hex_digit_char(byte >> 4u8));
        push_char(&mut out, hex_digit_char(byte & 15u8));
        proof {
            crate::text::lemma_hex_lower_push(digest.subrange(0, k as int), byte);
            assert(digest.subrange(0, k + 1) =~= digest.subrange(0, k as int).push(byte));
        }
        k = k + 1;
    }
    proof {
        assert(digest.subrange(0, 16) =~= digest);
        crate::text::lemma_hex_lower_len(digest);
    }
    out
}

} // verus!

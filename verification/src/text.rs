//! Character-level helpers shared by the text-producing functions.
use vstd::prelude::*;
use vstd::string::StringSliceAdditionalSpecFns;

verus! {

/// Lower-case hexadecimal digit for a value below 16.
pub open spec fn spec_hex_digit(n: u8) -> char {
    if n < 10 {
        ((n + 48) as u8) as char
    } else {
        ((n + 87) as u8) as char
    }
}

/// Two lower-case hexadecimal digits per byte, most significant first.
pub open spec fn hex_lower(bytes: Seq<u8>) -> Seq<char>
    decreases bytes.len(),
{
    if bytes.len() == 0 {
        Seq::empty()
    } else {
        let b = bytes.last();
        hex_lower(bytes.drop_last()) + seq![spec_hex_digit(b >> 4u8), spec_hex_digit(b & 15u8)]
    }
}

/// Appending a byte appends its two hexadecimal digits.
pub proof fn lemma_hex_lower_push(bytes: Seq<u8>, b: u8)
    ensures
        hex_lower(bytes.push(b)) == hex_lower(bytes) + seq![
            spec_hex_digit(b >> 4u8),
            spec_hex_digit(b & 15u8),
        ],
{
    assert(bytes.push(b).drop_last() =~= bytes);
}

/// The hexadecimal text is twice as long as the bytes.
pub proof fn lemma_hex_lower_len(bytes: Seq<u8>)
    ensures
        hex_lower(bytes).len() == 2 * bytes.len(),
    decreases bytes.len(),
{
    if bytes.len() > 0 {
        lemma_hex_lower_len(bytes.drop_last());
    }
}

/// Lower-case hexadecimal digit character of `n`.
pub fn hex_digit_char(n: u8) -> (c: char)
    requires
        n < 16,
    ensures
        c == spec_hex_digit(n),
{
    if n < 10 {
        (n + 48) as char
    } else {
        (n + 87) as char
    }
}

/// Element-wise equality of two lists of strings.
pub open spec fn same_strings(a: Seq<String>, b: Seq<String>) -> bool {
    &&& a.len() == b.len()
    &&& forall|k: int| 0 <= k < a.len() ==> a[k]@ == b[k]@
}

/// Equality of two string slices, decided on their UTF-8 bytes.
pub fn str_equal(a: &str, b: &str) -> (r: bool)
    ensures
        r == (a@ == b@),
{
    let x = a.as_bytes();
    let y = b.as_bytes();
    proof {
        vstd::utf8::encode_utf8_decode_utf8(a@);
        vstd::utf8::encode_utf8_decode_utf8(b@);
    }
    if x.len() != y.len() {
        return false;
    }
    let mut i: usize = 0;
    while i < x.len()
        invariant
            i <= x@.len(),
            x@.len() == y@.len(),
            x@ == a.spec_bytes(),
            y@ == b.spec_bytes(),
            forall|k: int| 0 <= k < i ==> x@[k] == y@[k],
        decreases x.len() - i,
    {
        if x[i] != y[i] {
            assert(a@ != b@) by {
                if a@ == b@ {
                    assert(x@ == a.spec_bytes());
                    assert(y@ == b.spec_bytes());
                    assert(vstd::utf8::encode_utf8(a@) == vstd::utf8::encode_utf8(b@));
                    assert(x@ == y@);
                }
            }
            return false;
        }
        i = i + 1;
    }
    assert(x@ =~= y@);
    true
}

/// The characters of a string slice, in order.
pub fn chars_of(s: &str) -> (v: Vec<char>)
    ensures
        v@ == s@,
{
    broadcast use vstd::string::group_string_axioms;

    let mut it = s.chars();
    let mut v: Vec<char> = Vec::new();
    loop
        invariant
            v@ + vstd::std_specs::iter::IteratorSpec::remaining(&it) == s@,
            vstd::std_specs::iter::IteratorSpec::decrease(&it) is Some,
        ensures
            v@ == s@,
        decreases vstd::std_specs::iter::IteratorSpec::decrease(&it)->0,
    {
        let ghost before = vstd::std_specs::iter::IteratorSpec::remaining(&it);
        match it.next() {
            Some(c) => {
                v.push(c);
                assert(v@ + vstd::std_specs::iter::IteratorSpec::remaining(&it) =~= s@) by {
                    assert(before == seq![c] + before.drop_first());
                }
            },
            None => {
                assert(v@ =~= s@);
                break;
            },
        }
    }
    v
}

/// `String::push`. Claimed: afterwards the string is the one before with
/// `c` appended at its end.
#[verifier::external_body]
pub(crate) fn push_char(s: &mut String, c: char)
    ensures
        final(s)@ == old(s)@.push(c),
{
    s.push(c);
}

/// Unicode `White_Space` characters (the set `char::is_whitespace` tests).
pub open spec fn is_unicode_whitespace(c: char) -> bool {
    let u = c as u32;
    (0x09 <= u <= 0x0d) || u == 0x20 || u == 0x85 || u == 0xa0 || u == 0x1680 || (0x2000 <= u
        <= 0x200a) || u == 0x2028 || u == 0x2029 || u == 0x202f || u == 0x205f || u == 0x3000
}

/// Unicode whitespace test.
pub fn char_is_whitespace(c: char) -> (r: bool)
    ensures
        r == is_unicode_whitespace(c),
{
    let u = c as u32;
    (0x09 <= u && u <= 0x0d) || u == 0x20 || u == 0x85 || u == 0xa0 || u == 0x1680 || (0x2000 <= u
        && u <= 0x200a) || u == 0x2028 || u == 0x2029 || u == 0x202f || u == 0x205f || u == 0x3000
}

/// Unicode decimal digits (general category `Nd`, Unicode 16.0): the
/// characters that `\d` matches in a regular expression.
pub open spec fn is_decimal_digit(c: char) -> bool {
    let u = c as u32;
    (0x30 <= u <= 0x39) || (0x660 <= u <= 0x669) || (0x6f0 <= u <= 0x6f9) || (0x7c0 <= u <= 0x7c9)
    || (0x966 <= u <= 0x96f) || (0x9e6 <= u <= 0x9ef) || (0xa66 <= u <= 0xa6f) || (0xae6 <= u <= 0xaef)
    || (0xb66 <= u <= 0xb6f) || (0xbe6 <= u <= 0xbef) || (0xc66 <= u <= 0xc6f) || (0xce6 <= u <= 0xcef)
    || (0xd66 <= u <= 0xd6f) || (0xde6 <= u <= 0xdef) || (0xe50 <= u <= 0xe59) || (0xed0 <= u <= 0xed9)
    || (0xf20 <= u <= 0xf29) || (0x1040 <= u <= 0x1049) || (0x1090 <= u <= 0x1099) || (0x17e0 <= u <= 0x17e9)
    || (0x1810 <= u <= 0x1819) || (0x1946 <= u <= 0x194f) || (0x19d0 <= u <= 0x19d9)
    || (0x1a80 <= u <= 0x1a89) || (0x1a90 <= u <= 0x1a99) || (0x1b50 <= u <= 0x1b59)
    || (0x1bb0 <= u <= 0x1bb9) || (0x1c40 <= u <= 0x1c49) || (0x1c50 <= u <= 0x1c59)
    || (0xa620 <= u <= 0xa629) || (0xa8d0 <= u <= 0xa8d9) || (0xa900 <= u <= 0xa909)
    || (0xa9d0 <= u <= 0xa9d9) || (0xa9f0 <= u <= 0xa9f9) || (0xaa50 <= u <= 0xaa59)
    || (0xabf0 <= u <= 0xabf9) || (0xff10 <= u <= 0xff19) || (0x104a0 <= u <= 0x104a9)
    || (0x10d30 <= u <= 0x10d39) || (0x10d40 <= u <= 0x10d49) || (0x11066 <= u <= 0x1106f)
    || (0x110f0 <= u <= 0x110f9) || (0x11136 <= u <= 0x1113f) || (0x111d0 <= u <= 0x111d9)
    || (0x112f0 <= u <= 0x112f9) || (0x11450 <= u <= 0x11459) || (0x114d0 <= u <= 0x114d9)
    || (0x11650 <= u <= 0x11659) || (0x116c0 <= u <= 0x116c9) || (0x116d0 <= u <= 0x116e3)
    || (0x11730 <= u <= 0x11739) || (0x118e0 <= u <= 0x118e9) || (0x11950 <= u <= 0x11959)
    || (0x11bf0 <= u <= 0x11bf9) || (0x11c50 <= u <= 0x11c59) || (0x11d50 <= u <= 0x11d59)
    || (0x11da0 <= u <= 0x11da9) || (0x11f50 <= u <= 0x11f59) || (0x16130 <= u <= 0x16139)
    || (0x16a60 <= u <= 0x16a69) || (0x16ac0 <= u <= 0x16ac9) || (0x16b50 <= u <= 0x16b59)
    || (0x16d70 <= u <= 0x16d79) || (0x1ccf0 <= u <= 0x1ccf9) || (0x1d7ce <= u <= 0x1d7ff)
    || (0x1e140 <= u <= 0x1e149) || (0x1e2f0 <= u <= 0x1e2f9) || (0x1e4f0 <= u <= 0x1e4f9)
    || (0x1e5f1 <= u <= 0x1e5fa) || (0x1e950 <= u <= 0x1e959) || (0x1fbf0 <= u <= 0x1fbf9)
}

/// Unicode decimal-digit test.
pub fn char_is_decimal_digit(c: char) -> (r: bool)
    ensures
        r == is_decimal_digit(c),
{
    let u = c as u32;
    (0x30 <= u && u <= 0x39) || (0x660 <= u && u <= 0x669) || (0x6f0 <= u && u <= 0x6f9)
    || (0x7c0 <= u && u <= 0x7c9) || (0x966 <= u && u <= 0x96f) || (0x9e6 <= u && u <= 0x9ef)
    || (0xa66 <= u && u <= 0xa6f) || (0xae6 <= u && u <= 0xaef) || (0xb66 <= u && u <= 0xb6f)
    || (0xbe6 <= u && u <= 0xbef) || (0xc66 <= u && u <= 0xc6f) || (0xce6 <= u && u <= 0xcef)
    || (0xd66 <= u && u <= 0xd6f) || (0xde6 <= u && u <= 0xdef) || (0xe50 <= u && u <= 0xe59)
    || (0xed0 <= u && u <= 0xed9) || (0xf20 <= u && u <= 0xf29) || (0x1040 <= u && u <= 0x1049)
    || (0x1090 <= u && u <= 0x1099) || (0x17e0 <= u && u <= 0x17e9) || (0x1810 <= u && u <= 0x1819)
    || (0x1946 <= u && u <= 0x194f) || (0x19d0 <= u && u <= 0x19d9) || (0x1a80 <= u && u <= 0x1a89)
    || (0x1a90 <= u && u <= 0x1a99) || (0x1b50 <= u && u <= 0x1b59) || (0x1bb0 <= u && u <= 0x1bb9)
    || (0x1c40 <= u && u <= 0x1c49) || (0x1c50 <= u && u <= 0x1c59) || (0xa620 <= u && u <= 0xa629)
    || (0xa8d0 <= u && u <= 0xa8d9) || (0xa900 <= u && u <= 0xa909) || (0xa9d0 <= u && u <= 0xa9d9)
    || (0xa9f0 <= u && u <= 0xa9f9) || (0xaa50 <= u && u <= 0xaa59) || (0xabf0 <= u && u <= 0xabf9)
    || (0xff10 <= u && u <= 0xff19) || (0x104a0 <= u && u <= 0x104a9) || (0x10d30 <= u && u <= 0x10d39)
    || (0x10d40 <= u && u <= 0x10d49) || (0x11066 <= u && u <= 0x1106f) || (0x110f0 <= u && u <= 0x110f9)
    || (0x11136 <= u && u <= 0x1113f) || (0x111d0 <= u && u <= 0x111d9) || (0x112f0 <= u && u <= 0x112f9)
    || (0x11450 <= u && u <= 0x11459) || (0x114d0 <= u && u <= 0x114d9) || (0x11650 <= u && u <= 0x11659)
    || (0x116c0 <= u && u <= 0x116c9) || (0x116d0 <= u && u <= 0x116e3) || (0x11730 <= u && u <= 0x11739)
    || (0x118e0 <= u && u <= 0x118e9) || (0x11950 <= u && u <= 0x11959) || (0x11bf0 <= u && u <= 0x11bf9)
    || (0x11c50 <= u && u <= 0x11c59) || (0x11d50 <= u && u <= 0x11d59) || (0x11da0 <= u && u <= 0x11da9)
    || (0x11f50 <= u && u <= 0x11f59) || (0x16130 <= u && u <= 0x16139) || (0x16a60 <= u && u <= 0x16a69)
    || (0x16ac0 <= u && u <= 0x16ac9) || (0x16b50 <= u && u <= 0x16b59) || (0x16d70 <= u && u <= 0x16d79)
    || (0x1ccf0 <= u && u <= 0x1ccf9) || (0x1d7ce <= u && u <= 0x1d7ff) || (0x1e140 <= u && u <= 0x1e149)
    || (0x1e2f0 <= u && u <= 0x1e2f9) || (0x1e4f0 <= u && u <= 0x1e4f9) || (0x1e5f1 <= u && u <= 0x1e5fa)
    || (0x1e950 <= u && u <= 0x1e959) || (0x1fbf0 <= u && u <= 0x1fbf9)
}

/// Number of leading whitespace characters.
pub open spec fn leading_ws(cs: Seq<char>) -> nat
    decreases cs.len(),
{
    if cs.len() > 0 && is_unicode_whitespace(cs[0]) {
        1 + leading_ws(cs.drop_first())
    } else {
        0
    }
}

/// Number of trailing whitespace characters.
pub open spec fn trailing_ws(cs: Seq<char>) -> nat
    decreases cs.len(),
{
    if cs.len() > 0 && is_unicode_whitespace(cs.last()) {
        1 + trailing_ws(cs.drop_last())
    } else {
        0
    }
}

/// `cs` without leading and trailing whitespace.
pub open spec fn spec_trim(cs: Seq<char>) -> Seq<char> {
    let start = cs.subrange(leading_ws(cs) as int, cs.len() as int);
    start.subrange(0, start.len() - trailing_ws(start))
}

proof fn lemma_leading_ws(cs: Seq<char>, i: int)
    requires
        0 <= i <= cs.len(),
        forall|k: int| 0 <= k < i ==> is_unicode_whitespace(#[trigger] cs[k]),
    ensures
        i == cs.len() || !is_unicode_whitespace(cs[i]) ==> leading_ws(cs) == i,
        leading_ws(cs) >= i,
        leading_ws(cs) <= cs.len(),
    decreases i,
{
    if i > 0 {
        let t = cs.drop_first();
        assert forall|k: int| 0 <= k < i - 1 implies is_unicode_whitespace(#[trigger] t[k]) by {
            assert(t[k] == cs[k + 1]);
        }
        lemma_leading_ws(t, i - 1);
    } else {
        lemma_leading_ws_le(cs);
    }
}

proof fn lemma_leading_ws_le(cs: Seq<char>)
    ensures
        leading_ws(cs) <= cs.len(),
    decreases cs.len(),
{
    if cs.len() > 0 {
        lemma_leading_ws_le(cs.drop_first());
    }
}

proof fn lemma_trailing_ws(cs: Seq<char>, i: int)
    requires
        0 <= i <= cs.len(),
        forall|k: int| cs.len() - i <= k < cs.len() ==> is_unicode_whitespace(#[trigger] cs[k]),
    ensures
        i == cs.len() || !is_unicode_whitespace(cs[cs.len() - 1 - i]) ==> trailing_ws(cs) == i,
        trailing_ws(cs) >= i,
        trailing_ws(cs) <= cs.len(),
    decreases i,
{
    if i > 0 {
        let t = cs.drop_last();
        assert forall|k: int| t.len() - (i - 1) <= k < t.len() implies is_unicode_whitespace(#[trigger] t[k]) by {
            assert(t[k] == cs[k]);
        }
        lemma_trailing_ws(t, i - 1);
    } else {
        lemma_trailing_ws_le(cs);
    }
}

proof fn lemma_trailing_ws_le(cs: Seq<char>)
    ensures
        trailing_ws(cs) <= cs.len(),
    decreases cs.len(),
{
    if cs.len() > 0 {
        lemma_trailing_ws_le(cs.drop_last());
    }
}

proof fn lemma_leading_stop(cs: Seq<char>)
    ensures
        leading_ws(cs) <= cs.len(),
        leading_ws(cs) < cs.len() ==> !is_unicode_whitespace(cs[leading_ws(cs) as int]),
    decreases cs.len(),
{
    if cs.len() > 0 && is_unicode_whitespace(cs[0]) {
        let t = cs.drop_first();
        lemma_leading_stop(t);
        if leading_ws(t) < t.len() {
            assert(cs[leading_ws(cs) as int] == t[leading_ws(t) as int]);
        }
    }
}

proof fn lemma_trailing_stop(cs: Seq<char>)
    ensures
        trailing_ws(cs) <= cs.len(),
        trailing_ws(cs) < cs.len() ==> !is_unicode_whitespace(cs[cs.len() - 1 - trailing_ws(cs)]),
    decreases cs.len(),
{
    if cs.len() > 0 && is_unicode_whitespace(cs.last()) {
        let t = cs.drop_last();
        lemma_trailing_stop(t);
        if trailing_ws(t) < t.len() {
            assert(cs[cs.len() - 1 - trailing_ws(cs)] == t[t.len() - 1 - trailing_ws(t)]);
        }
    }
}

/// A trimmed string neither starts nor ends with whitespace, and trimming
/// it again changes nothing.
pub proof fn lemma_trim_idempotent(cs: Seq<char>)
    ensures
        spec_trim(cs).len() > 0 ==> !is_unicode_whitespace(spec_trim(cs)[0]) && !is_unicode_whitespace(
            spec_trim(cs).last(),
        ),
        spec_trim(spec_trim(cs)) == spec_trim(cs),
{
    let l = leading_ws(cs);
    lemma_leading_stop(cs);
    let start = cs.subrange(l as int, cs.len() as int);
    lemma_trailing_stop(start);
    let t = spec_trim(cs);
    assert(t == start.subrange(0, start.len() - trailing_ws(start)));
    if t.len() > 0 {
        assert(t[0] == start[0]);
        assert(start[0] == cs[l as int]);
        assert(t.last() == start[start.len() - 1 - trailing_ws(start)]);
        assert(leading_ws(t) == 0);
        assert(t.subrange(0, t.len() as int) =~= t);
        assert(trailing_ws(t) == 0);
        assert(spec_trim(t) =~= t);
    } else {
        assert(leading_ws(t) == 0);
        assert(spec_trim(t) =~= t);
    }
}

/// The slice without leading and trailing Unicode whitespace (`str::trim`).
pub fn trim_str(s: &str) -> (r: &str)
    ensures
        r@ == spec_trim(s@),
{
    let cs = chars_of(s);
    let n = cs.len();
    let mut a: usize = 0;
    while a < n && char_is_whitespace(cs[a])
        invariant
            a <= n,
            n == cs@.len(),
            cs@ == s@,
            forall|k: int| 0 <= k < a ==> is_unicode_whitespace(#[trigger] cs@[k]),
        decreases n - a,
    {
        a = a + 1;
    }
    proof {
        lemma_leading_ws(cs@, a as int);
    }
    let ghost start = cs@.subrange(a as int, n as int);
    let mut b: usize = n;
    while b > a && char_is_whitespace(cs[b - 1])
        invariant
            a <= b <= n,
            n == cs@.len(),
            start == cs@.subrange(a as int, n as int),
            forall|k: int| b <= k < n ==> is_unicode_whitespace(#[trigger] cs@[k]),
        decreases b - a,
    {
        b = b - 1;
    }
    proof {
        assert forall|k: int| start.len() - (n - b) <= k < start.len() implies is_unicode_whitespace(
            #[trigger] start[k],
        ) by {
            assert(start[k] == cs@[a + k]);
        }
        if b > a {
            assert(start[start.len() - 1 - (n - b)] == cs@[b - 1]);
        }
        lemma_trailing_ws(start, (n - b) as int);
    }
    let r = s.substring_char(a, b);
    assert(r@ =~= spec_trim(s@));
    r
}

/// Decimal digits of `n`, most significant first.
pub open spec fn spec_decimal(n: nat) -> Seq<char>
    decreases n,
{
    if n < 10 {
        seq![((n + 48) as u8) as char]
    } else {
        spec_decimal(n / 10) + seq![(((n % 10) + 48) as u8) as char]
    }
}

/// Appends the decimal representation of `n`.
pub fn push_decimal(out: &mut String, n: u128)
    ensures
        final(out)@ == old(out)@ + spec_decimal(n as nat),
    decreases n,
{
    if n >= 10 {
        push_decimal(out, n / 10);
    }
    let d: u8 = (n % 10) as u8;
    push_char(out, (d + 48) as char);
}

/// Appends a string slice.
pub fn push_str(out: &mut String, s: &str)
    ensures
        final(out)@ == old(out)@ + s@,
{
    out.append(s);
}

/// The string made of the characters of `v`.
pub fn string_from_chars(v: &Vec<char>) -> (r: String)
    ensures
        r@ == v@,
{
    let mut out = String::new();
    let mut i: usize = 0;
    while i < v.len()
        invariant
            i <= v@.len(),
            out@ == v@.subrange(0, i as int),
        decreases v@.len() - i,
    {
        push_char(&mut out, v[i]);
        i = i + 1;
        assert(out@ =~= v@.subrange(0, i as int));
    }
    assert(v@.subrange(0, v@.len() as int) =~= v@);
    out
}

} // verus!

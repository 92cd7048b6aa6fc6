//! Sentinel-2 band names: the band sort key, band ordering, source file
//! names and the list of reconstruction methods.
use vstd::prelude::*;

use crate::order::{compare_chars, lemma_lex_order_antisym, lemma_lex_order_eq, lemma_lex_order_trans, lex_order};
use crate::text::{char_is_decimal_digit, chars_of, is_decimal_digit, spec_trim, str_equal, trim_str};
use crate::time::is_digit;

verus! {

/// Whether `c` is an ASCII upper-case letter.
pub open spec fn is_upper(c: char) -> bool {
    'A' <= c <= 'Z'
}

/// End of the digit run of a band name: the last character is left out
/// when it is an upper-case letter.
pub open spec fn band_digits_end(cs: Seq<char>) -> int {
    if cs.len() > 0 && is_upper(cs.last()) {
        cs.len() - 1
    } else {
        cs.len() as int
    }
}

/// Whether `cs` has the shape `B<digits><optional upper-case letter>`,
/// where a digit is any Unicode decimal digit.
pub open spec fn band_name_matches(cs: Seq<char>) -> bool {
    &&& cs.len() >= 2
    &&& cs[0] == 'B'
    &&& band_digits_end(cs) >= 2
    &&& forall|k: int| 1 <= k < band_digits_end(cs) ==> is_decimal_digit(#[trigger] cs[k])
}

/// Whether every character of `ds` is an ASCII digit.
pub open spec fn all_ascii_digits(ds: Seq<char>) -> bool {
    forall|k: int| 0 <= k < ds.len() ==> is_digit(#[trigger] ds[k])
}

/// Value of a run of ASCII digits.
pub open spec fn digits_value(ds: Seq<char>) -> nat
    decreases ds.len(),
{
    if ds.len() == 0 {
        0
    } else {
        digits_value(ds.drop_last()) * 10 + ((ds.last() as u32) - 48) as nat
    }
}

/// Number of a band name's digit run: its value when every digit is an
/// ASCII digit and the value fits in `u32`, else 10000.
pub open spec fn band_number(ds: Seq<char>) -> u32 {
    if all_ascii_digits(ds) && digits_value(ds) <= u32::MAX {
        digits_value(ds) as u32
    } else {
        10000u32
    }
}

/// Sort key of a band name: `(number, suffix)` for names of the shape
/// `B<digits><optional upper-case letter>`, the number read as
/// `band_number` says, and `(10000, name)` for every other name.
pub open spec fn band_key(cs: Seq<char>) -> (u32, Seq<char>) {
    if band_name_matches(cs) {
        let end = band_digits_end(cs);
        (band_number(cs.subrange(1, end)), cs.subrange(end, cs.len() as int))
    } else {
        (10000u32, cs)
    }
}

proof fn lemma_digits_value_step(ds: Seq<char>, c: char)
    ensures
        digits_value(ds.push(c)) == digits_value(ds) * 10 + ((c as u32) - 48) as nat,
{
    assert(ds.push(c).drop_last() =~= ds);
}

/// Sort key that orders Sentinel-2 band names numerically: `"B2"` gives
/// `(2, "")`, `"B8A"` gives `(8, "A")`, and names of another shape give
/// `(10000, name)`.
pub fn sentinel_band_sort_key(name: &str) -> (r: (u32, String))
    ensures
        r.0 == band_key(name@).0,
        r.1@ == band_key(name@).1,
{
    let cs = chars_of(name);
    let n = cs.len();
    let end: usize = if n > 0 && 'A' <= cs[n - 1] && cs[n - 1] <= 'Z' {
        n - 1
    } else {
        n
    };
    assert(end == band_digits_end(cs@));
    if n < 2 || cs[0] != 'B' || end < 2 {
        return (10000, name.to_owned());
    }
    let mut acc: u64 = 0;
    let mut overflow = false;
    let mut ascii = true;
    let mut k: usize = 1;
    while k < end
        invariant
            1 <= k <= end,
            end <= n,
            n == cs@.len(),
            cs@ == name@,
            end == band_digits_end(cs@),
            n >= 2,
            cs@[0] == 'B',
            end >= 2,
            forall|j: int| 1 <= j < k ==> is_decimal_digit(#[trigger] cs@[j]),
            ascii <==> all_ascii_digits(cs@.subrange(1, k as int)),
            ascii ==> (overflow <==> digits_value(cs@.subrange(1, k as int)) > u32::MAX),
            ascii && !overflow ==> acc == digits_value(cs@.subrange(1, k as int)),
        decreases end - k,
    {
        let c = cs[k];
        if !char_is_decimal_digit(c) {
            assert(!band_name_matches(name@));
            return (10000, name.to_owned());
        }
        let ghost prev = cs@.subrange(1, k as int);
        proof {
            assert(cs@.subrange(1, k + 1) =~= prev.push(c));
            lemma_digits_value_step(prev, c);
        }
        if '0' <= c && c <= '9' {
            if ascii && !overflow {
                let d = (c as u32 - 48) as u64;
                acc = acc * 10 + d;
                if acc > 0xffff_ffff {
                    overflow = true;
                }
            }
            proof {
                if ascii {
                    assert forall|q: int| 0 <= q < prev.push(c).len() implies is_digit(
                        #[trigger] prev.push(c)[q],
                    ) by {
                        if q < prev.len() {
                            assert(is_digit(prev[q]));
                        }
                    }
                }
            }
        } else {
            assert(!is_digit(prev.push(c)[prev.len() as int]));
            ascii = false;
        }
        proof {
            if !ascii {
                assert(!all_ascii_digits(prev.push(c))) by {
                    if !all_ascii_digits(prev) {
                        let q = choose|q: int| 0 <= q < prev.len() && !is_digit(#[trigger] prev[q]);
                        assert(!is_digit(prev.push(c)[q]));
                    }
                }
            }
        }
        k = k + 1;
    }
    let num: u32 = if ascii && !overflow {
        acc as u32
    } else {
        10000
    };
    let suffix = name.substring_char(end, n).to_owned();
    (num, suffix)
}

/// Order of band names: by sort key (number, then suffix), then by name.
pub open spec fn band_order(a: Seq<char>, b: Seq<char>) -> int {
    let (na, sa) = band_key(a);
    let (nb, sb) = band_key(b);
    if na < nb {
        -1
    } else if na > nb {
        1
    } else if lex_order(sa, sb) != 0 {
        lex_order(sa, sb)
    } else {
        lex_order(a, b)
    }
}

/// Swapping two band names negates their order.
pub proof fn lemma_band_order_antisym(a: Seq<char>, b: Seq<char>)
    ensures
        band_order(a, b) == -band_order(b, a),
{
    lemma_lex_order_antisym(band_key(a).1, band_key(b).1);
    lemma_lex_order_antisym(a, b);
}

/// Every band name is in order with itself.
pub proof fn lemma_band_order_refl(a: Seq<char>)
    ensures
        band_order(a, a) == 0,
{
    lemma_lex_order_eq(band_key(a).1, band_key(a).1);
    lemma_lex_order_eq(a, a);
}

/// Band order is transitive.
pub proof fn lemma_band_order_trans(a: Seq<char>, b: Seq<char>, c: Seq<char>)
    requires
        band_order(a, b) <= 0,
        band_order(b, c) <= 0,
    ensures
        band_order(a, c) <= 0,
{
    let (na, sa) = band_key(a);
    let (nb, sb) = band_key(b);
    let (nc, sc) = band_key(c);
    crate::order::lemma_lex_order_range(sa, sb);
    crate::order::lemma_lex_order_range(sb, sc);
    crate::order::lemma_lex_order_range(sa, sc);
    if na == nb && nb == nc {
        lemma_lex_order_eq(sa, sb);
        lemma_lex_order_eq(sb, sc);
        lemma_lex_order_eq(sa, sc);
        if lex_order(sa, sb) <= 0 && lex_order(sb, sc) <= 0 {
            lemma_lex_order_trans(sa, sb, sc);
        }
        if lex_order(sa, sb) == 0 && lex_order(sb, sc) == 0 {
            lemma_lex_order_trans(a, b, c);
        }
        if lex_order(sa, sc) == 0 && lex_order(sa, sb) < 0 {
            lemma_lex_order_antisym(sb, sc);
            lemma_lex_order_trans(sc, sa, sb);
            lemma_lex_order_antisym(sa, sb);
            lemma_lex_order_eq(sb, sc);
        }
        if lex_order(sa, sc) == 0 && lex_order(sb, sc) < 0 {
            lemma_lex_order_antisym(sa, sb);
            lemma_lex_order_trans(sb, sc, sa);
            lemma_lex_order_antisym(sb, sc);
        }
    }
}

/// Two band names are tied in band order only when they are equal.
pub proof fn lemma_band_order_eq(a: Seq<char>, b: Seq<char>)
    ensures
        band_order(a, b) == 0 <==> a == b,
{
    lemma_lex_order_eq(band_key(a).1, band_key(b).1);
    lemma_lex_order_eq(a, b);
}

/// Three-way comparison of band names.
pub fn band_compare(a: &str, b: &str) -> (r: i8)
    ensures
        r as int == band_order(a@, b@),
{
    let (na, sa) = sentinel_band_sort_key(a);
    let (nb, sb) = sentinel_band_sort_key(b);
    if na < nb {
        return -1;
    }
    if na > nb {
        return 1;
    }
    let cs_a = chars_of(sa.as_str());
    let cs_b = chars_of(sb.as_str());
    let c = compare_chars(&cs_a, &cs_b);
    if c != 0 {
        return c;
    }
    let xa = chars_of(a);
    let xb = chars_of(b);
    compare_chars(&xa, &xb)
}

/// Views of a list of strings.
pub open spec fn name_views(v: Seq<String>) -> Seq<Seq<char>> {
    v.map_values(|s: String| s@)
}

/// Band names in band order: by band number, then suffix, then name.
pub fn sorted_band_names(names: &Vec<String>) -> (r: Vec<String>)
    ensures
        name_views(r@).to_multiset() == name_views(names@).to_multiset(),
        forall|i: int, j: int| 0 <= i < j < r@.len() ==> band_order(r@[i]@, r@[j]@) <= 0,
{
    let mut rest = names.clone();
    assert(name_views(rest@) =~= name_views(names@)) by {
        assert forall|i: int| 0 <= i < rest@.len() implies rest@[i]@ == names@[i]@ by {
            assert(rest@[i] == names@[i]);
        }
    }
    let mut out: Vec<String> = Vec::new();
    let ghost orig = name_views(rest@);
    proof {
        broadcast use vstd::seq_lib::group_to_multiset_ensures;

        assert(name_views(out@) =~= Seq::<Seq<char>>::empty());
        assert(name_views(out@).to_multiset() =~= vstd::multiset::Multiset::empty());
        assert(name_views(out@).to_multiset().add(name_views(rest@).to_multiset()) =~= orig.to_multiset());
    }
    while rest.len() > 0
        invariant
            name_views(out@).to_multiset().add(name_views(rest@).to_multiset()) == orig.to_multiset(),
            orig == name_views(names@),
            forall|i: int, j: int| 0 <= i < j < out@.len() ==> band_order(out@[i]@, out@[j]@) <= 0,
            forall|i: int, j: int|
                0 <= i < out@.len() && 0 <= j < rest@.len() ==> band_order(#[trigger] out@[i]@, #[trigger] rest@[j]@) <= 0,
        decreases rest@.len(),
    {
        let mut m: usize = 0;
        let mut k: usize = 1;
        proof {
            lemma_band_order_refl(rest@[0]@);
        }
        while k < rest.len()
            invariant
                1 <= k <= rest@.len(),
                m < k,
                forall|j: int| 0 <= j < k ==> band_order(rest@[m as int]@, #[trigger] rest@[j]@) <= 0,
            decreases rest@.len() - k,
        {
            let c = band_compare(rest[k].as_str(), rest[m].as_str());
            proof {
                lemma_band_order_antisym(rest@[k as int]@, rest@[m as int]@);
            }
            if c < 0 {
                proof {
                    assert forall|j: int| 0 <= j < k + 1 implies band_order(rest@[k as int]@, #[trigger] rest@[j]@) <= 0 by {
                        if j < k {
                            lemma_band_order_trans(rest@[k as int]@, rest@[m as int]@, rest@[j]@);
                        } else {
                            lemma_band_order_refl(rest@[k as int]@);
                        }
                    }
                }
                m = k;
            }
            k = k + 1;
        }
        let ghost old_rest = rest@;
        let ghost old_out = out@;
        let x = rest.remove(m);
        out.push(x);
        proof {
            broadcast use vstd::seq_lib::group_to_multiset_ensures;

            assert(name_views(out@) =~= name_views(old_out).push(x@));
            assert(name_views(rest@) =~= name_views(old_rest).remove(m as int));
            assert(name_views(old_rest)[m as int] == x@);
            assert(name_views(old_rest).to_multiset().count(x@) > 0) by {
                assert(name_views(old_rest).contains(x@));
            }
            assert(name_views(out@).to_multiset().add(name_views(rest@).to_multiset()) =~= orig.to_multiset());
            assert forall|i: int, j: int| 0 <= i < out@.len() && 0 <= j < rest@.len() implies band_order(
                #[trigger] out@[i]@,
                #[trigger] rest@[j]@,
            ) <= 0 by {
                let jj = if j < m {
                    j
                } else {
                    j + 1
                };
                assert(rest@[j] == old_rest[jj]);
            }
            assert forall|i: int, j: int| 0 <= i < j < out@.len() implies band_order(out@[i]@, out@[j]@) <= 0 by {
                if j == out@.len() - 1 {
                    assert(band_order(old_out[i]@, old_rest[m as int]@) <= 0);
                }
            }
        }
    }
    proof {
        assert(name_views(rest@) =~= Seq::<Seq<char>>::empty());
        assert(name_views(out@).to_multiset().add(vstd::multiset::Multiset::empty()) =~= name_views(
            out@,
        ).to_multiset());
    }
    out
}

/// Pieces of `cs` between occurrences of `sep` (`str::split` with a char).
pub open spec fn split_on(cs: Seq<char>, sep: char) -> Seq<Seq<char>>
    decreases cs.len(),
{
    if cs.len() == 0 {
        seq![Seq::<char>::empty()]
    } else {
        let rest = split_on(cs.drop_first(), sep);
        if cs[0] == sep {
            seq![Seq::<char>::empty()] + rest
        } else {
            rest.update(0, seq![cs[0]] + rest[0])
        }
    }
}

proof fn lemma_split_nonempty(cs: Seq<char>, sep: char)
    ensures
        split_on(cs, sep).len() >= 1,
    decreases cs.len(),
{
    if cs.len() > 0 {
        lemma_split_nonempty(cs.drop_first(), sep);
    }
}

proof fn lemma_split_push(cs: Seq<char>, sep: char, c: char)
    ensures
        c == sep ==> split_on(cs.push(c), sep) == split_on(cs, sep).push(Seq::<char>::empty()),
        c != sep ==> split_on(cs.push(c), sep) == split_on(cs, sep).update(
            split_on(cs, sep).len() - 1,
            split_on(cs, sep).last().push(c),
        ),
    decreases cs.len(),
{
    lemma_split_nonempty(cs, sep);
    if cs.len() == 0 {
        assert(cs.push(c).drop_first() =~= Seq::<char>::empty());
        assert(cs =~= Seq::<char>::empty());
        let e = Seq::<char>::empty();
        assert(split_on(e, sep) == seq![Seq::<char>::empty()]);
        assert(split_on(cs.push(c).drop_first(), sep) == seq![Seq::<char>::empty()]);
        assert(cs.push(c)[0] == c);
        if c == sep {
            assert(split_on(cs.push(c), sep) =~= split_on(cs, sep).push(Seq::<char>::empty()));
        } else {
            assert(split_on(cs.push(c), sep) =~= split_on(cs, sep).update(
                split_on(cs, sep).len() - 1,
                split_on(cs, sep).last().push(c),
            ));
        }
    } else {
        let t = cs.drop_first();
        assert(cs.push(c).drop_first() =~= t.push(c));
        lemma_split_push(t, sep, c);
        lemma_split_nonempty(t, sep);
        let rt = split_on(t, sep);
        if cs[0] == sep {
            if c == sep {
                assert(split_on(cs.push(c), sep) =~= split_on(cs, sep).push(Seq::<char>::empty()));
            } else {
                assert(split_on(cs.push(c), sep) =~= split_on(cs, sep).update(
                    split_on(cs, sep).len() - 1,
                    split_on(cs, sep).last().push(c),
                ));
            }
        } else {
            if c == sep {
                assert(split_on(cs.push(c), sep) =~= split_on(cs, sep).push(Seq::<char>::empty()));
            } else {
                if rt.len() == 1 {
                    assert(seq![cs[0]] + rt[0].push(c) =~= (seq![cs[0]] + rt[0]).push(c));
                }
                assert(split_on(cs.push(c), sep) =~= split_on(cs, sep).update(
                    split_on(cs, sep).len() - 1,
                    split_on(cs, sep).last().push(c),
                ));
            }
        }
    }
}

/// Trimmed, non-empty pieces of a comma-separated list.
pub open spec fn list_items(pieces: Seq<Seq<char>>) -> Seq<Seq<char>>
    decreases pieces.len(),
{
    if pieces.len() == 0 {
        Seq::empty()
    } else {
        let prev = list_items(pieces.drop_last());
        let t = spec_trim(pieces.last());
        if t.len() == 0 {
            prev
        } else {
            prev.push(t)
        }
    }
}

/// The methods named in a comma-separated list.
pub open spec fn method_list(cs: Seq<char>) -> Seq<Seq<char>> {
    list_items(split_on(cs, ','))
}

/// Whether `m` names a reconstruction method run on full scenes.
pub open spec fn is_known_method(m: Seq<char>) -> bool {
    m == "nufrost"@ || m == "hants"@ || m == "zhu2015"@
}

/// Errors in the list of methods.
#[derive(Debug, PartialEq, Eq)]
pub enum MethodListError {
    /// The list names no method.
    Empty,
    /// The list names a method that is not known.
    Unknown(String),
}

/// Splits a comma-separated list into its pieces.
fn split_commas(s: &str) -> (r: Vec<String>)
    ensures
        r@.map_values(|p: String| p@) == split_on(s@, ','),
{
    let cs = chars_of(s);
    let mut pieces: Vec<String> = Vec::new();
    let mut cur = String::new();
    let mut i: usize = 0;
    proof {
        assert(cs@.subrange(0, 0) =~= Seq::<char>::empty());
        assert(split_on(Seq::<char>::empty(), ',') =~= seq![Seq::<char>::empty()]);
    }
    while i < cs.len()
        invariant
            i <= cs@.len(),
            cs@ == s@,
            pieces@.map_values(|p: String| p@).push(cur@) == split_on(cs@.subrange(0, i as int), ','),
        decreases cs@.len() - i,
    {
        let c = cs[i];
        let ghost prefix = cs@.subrange(0, i as int);
        proof {
            assert(cs@.subrange(0, i + 1) =~= prefix.push(c));
            lemma_split_push(prefix, ',', c);
        }
        if c == ',' {
            let ghost old_pieces = pieces@;
            let done = cur;
            pieces.push(done);
            cur = String::new();
            assert(pieces@.map_values(|p: String| p@) =~= old_pieces.map_values(|p: String| p@).push(done@));
            assert(pieces@.map_values(|p: String| p@).push(cur@) =~= split_on(cs@.subrange(0, i + 1), ','));
        } else {
            crate::text::push_char(&mut cur, c);
            assert(pieces@.map_values(|p: String| p@).push(cur@) =~= split_on(cs@.subrange(0, i + 1), ','));
        }
        i = i + 1;
    }
    let ghost before = pieces@;
    pieces.push(cur);
    assert(cs@.subrange(0, cs@.len() as int) =~= s@);
    assert(pieces@.map_values(|p: String| p@) =~= before.map_values(|p: String| p@).push(pieces@.last()@));
    pieces
}

/// Parses the comma-separated list of full-scene methods: the trimmed,
/// non-empty items, each of which must be `nufrost`, `hants` or `zhu2015`.
pub fn validate_full_scene_methods(methods: &str) -> (r: Result<Vec<String>, MethodListError>)
    ensures
        r is Ok <==> method_list(methods@).len() > 0 && forall|i: int|
            0 <= i < method_list(methods@).len() ==> is_known_method(#[trigger] method_list(methods@)[i]),
        r matches Ok(v) ==> v@.map_values(|p: String| p@) == method_list(methods@),
        r == Err::<Vec<String>, _>(MethodListError::Empty) <==> method_list(methods@).len() == 0,
        r matches Err(MethodListError::Unknown(m)) ==> exists|i: int|
            0 <= i < method_list(methods@).len() && m@ == method_list(methods@)[i] && !is_known_method(m@)
                && forall|j: int| 0 <= j < i ==> is_known_method(#[trigger] method_list(methods@)[j]),
{
    let pieces = split_commas(methods);
    let ghost pv = pieces@.map_values(|p: String| p@);
    let mut parsed: Vec<String> = Vec::new();
    let mut i: usize = 0;
    while i < pieces.len()
        invariant
            i <= pieces@.len(),
            pv == pieces@.map_values(|p: String| p@),
            pv == split_on(methods@, ','),
            parsed@.map_values(|p: String| p@) == list_items(pv.subrange(0, i as int)),
        decreases pieces@.len() - i,
    {
        let t = trim_str(pieces[i].as_str());
        let ghost old_parsed = parsed@;
        proof {
            assert(pv.subrange(0, i + 1).drop_last() =~= pv.subrange(0, i as int));
            assert(pv[i as int] == pieces@[i as int]@);
        }
        if !t.is_empty() {
            let item = t.to_owned();
            parsed.push(item);
            assert(parsed@.map_values(|p: String| p@) =~= old_parsed.map_values(|p: String| p@).push(item@));
        }
        i = i + 1;
    }
    assert(pv.subrange(0, pieces@.len() as int) =~= pv);
    let ghost items = method_list(methods@);
    if parsed.len() == 0 {
        return Err(MethodListError::Empty);
    }
    let mut k: usize = 0;
    while k < parsed.len()
        invariant
            k <= parsed@.len(),
            parsed@.map_values(|p: String| p@) == items,
            items == method_list(methods@),
            forall|j: int| 0 <= j < k ==> is_known_method(#[trigger] items[j]),
        decreases parsed@.len() - k,
    {
        let m = parsed[k].as_str();
        assert(items[k as int] == m@);
        let known = crate::text::str_equal(m, "nufrost") || crate::text::str_equal(m, "hants")
            || crate::text::str_equal(m, "zhu2015");
        if !known {
            return Err(MethodListError::Unknown(m.to_owned()));
        }
        k = k + 1;
    }
    Ok(parsed)
}

/// Whether `pat` occurs in `cs` at index `i`.
pub open spec fn occurs_at(cs: Seq<char>, pat: Seq<char>, i: int) -> bool {
    0 <= i && i + pat.len() <= cs.len() && cs.subrange(i, i + pat.len() as int) == pat
}

/// First index `>= i` at which `pat` occurs in `cs`.
pub open spec fn first_occurrence_from(cs: Seq<char>, pat: Seq<char>, i: int) -> Option<int>
    decreases cs.len() + 1 - i,
{
    if i < 0 || i > cs.len() || i + pat.len() > cs.len() {
        None
    } else if occurs_at(cs, pat, i) {
        Some(i)
    } else {
        first_occurrence_from(cs, pat, i + 1)
    }
}

/// First index at which `pat` occurs in `cs[from..]`, counted in `cs`.
pub fn find_from(cs: &Vec<char>, pat: &Vec<char>, from: usize) -> (r: Option<usize>)
    ensures
        r is Some <==> first_occurrence_from(cs@, pat@, from as int) is Some,
        r matches Some(i) ==> first_occurrence_from(cs@, pat@, from as int) == Some(i as int),
{
    let mut i = from;
    while i <= cs.len() && pat.len() <= cs.len() - i
        invariant
            from <= i,
            first_occurrence_from(cs@, pat@, from as int) == first_occurrence_from(cs@, pat@, i as int),
        decreases cs@.len() + 1 - i,
    {
        let mut k: usize = 0;
        let mut same = true;
        while k < pat.len()
            invariant
                k <= pat@.len(),
                i + pat@.len() <= cs.len(),
                same <==> forall|j: int| 0 <= j < k ==> cs@[i + j] == pat@[j],
            decreases pat@.len() - k,
        {
            if cs[i + k] != pat[k] {
                same = false;
            }
            k = k + 1;
        }
        if same {
            assert(cs@.subrange(i as int, i + pat@.len()) =~= pat@);
            return Some(i);
        }
        assert(!occurs_at(cs@, pat@, i as int)) by {
            if occurs_at(cs@, pat@, i as int) {
                assert forall|j: int| 0 <= j < pat@.len() implies cs@[i + j] == pat@[j] by {
                    assert(cs@.subrange(i as int, i + pat@.len())[j] == cs@[i + j]);
                }
            }
        }
        i = i + 1;
    }
    None
}

/// The band, longitude and latitude fields of a Sentinel-2 source file name
/// `COPERNICUS_S2_HARMONIZED_<band>_lon<lon>_lat<lat>[-...].tif`.
pub open spec fn location_fields(cs: Seq<char>) -> Option<(Seq<char>, Seq<char>, Seq<char>)> {
    let p = "COPERNICUS_S2_HARMONIZED_"@;
    if !(p.len() <= cs.len() && cs.subrange(0, p.len() as int) == p) {
        None
    } else {
        let rest = cs.subrange(p.len() as int, cs.len() as int);
        match first_occurrence_from(rest, "_lon"@, 0) {
            None => None,
            Some(i) => {
                let band = rest.subrange(0, i);
                let r2 = rest.subrange(i + "_lon"@.len(), rest.len() as int);
                match first_occurrence_from(r2, "_lat"@, 0) {
                    None => None,
                    Some(j) => {
                        let lon = r2.subrange(0, j);
                        let lw = r2.subrange(j + "_lat"@.len(), r2.len() as int);
                        let suf = ".tif"@;
                        if !(suf.len() <= lw.len() && lw.subrange(lw.len() - suf.len(), lw.len() as int) == suf) {
                            None
                        } else {
                            let stem = lw.subrange(0, lw.len() - suf.len());
                            Some((band, lon, split_on(stem, '-')[0]))
                        }
                    },
                }
            },
        }
    }
}

proof fn lemma_split_first_piece(cs: Seq<char>, sep: char, i: int)
    requires
        0 <= i <= cs.len(),
        forall|k: int| 0 <= k < i ==> cs[k] != sep,
        i == cs.len() || cs[i] == sep,
    ensures
        split_on(cs, sep)[0] == cs.subrange(0, i),
    decreases i,
{
    lemma_split_nonempty(cs, sep);
    if i == 0 {
        assert(cs.subrange(0, 0) =~= Seq::<char>::empty());
    } else {
        let t = cs.drop_first();
        lemma_split_nonempty(t, sep);
        assert forall|k: int| 0 <= k < i - 1 implies t[k] != sep by {
            assert(t[k] == cs[k + 1]);
        }
        if i < cs.len() {
            assert(t[i - 1] == cs[i]);
        }
        lemma_split_first_piece(t, sep, i - 1);
        assert(seq![cs[0]] + t.subrange(0, i - 1) =~= cs.subrange(0, i));
    }
}

/// Band, longitude and latitude fields of a Sentinel-2 source file name.
pub fn parse_sentinel_location_from_filename(name: &str) -> (r: Option<(String, String, String)>)
    ensures
        r is Some <==> location_fields(name@) is Some,
        r matches Some((b, lo, la)) ==> location_fields(name@) == Some((b@, lo@, la@)),
{
    let cs = chars_of(name);
    let prefix = chars_of("COPERNICUS_S2_HARMONIZED_");
    let lon_tag = chars_of("_lon");
    let lat_tag = chars_of("_lat");
    let suffix = chars_of(".tif");
    let n = cs.len();
    let p = prefix.len();
    proof {
        lemma_first_props(cs@, prefix@, 0);
        lemma_first_props(cs@, lon_tag@, p as int);
    }
    let z = match find_from(&cs, &prefix, 0) {
        Some(z) => z,
        None => {
            return None;
        },
    };
    if z != 0 {
        return None;
    }
    assert(occurs_at(cs@, prefix@, 0));
    let ghost rest = cs@.subrange(p as int, n as int);
    let i = match find_from(&cs, &lon_tag, p) {
        Some(i) => i,
        None => {
            proof {
                lemma_first_shift(cs@, lon_tag@, p as int, 0);
            }
            return None;
        },
    };
    proof {
        lemma_first_shift(cs@, lon_tag@, p as int, 0);
        lemma_first_props(cs@, lat_tag@, (i + lon_tag@.len()) as int);
    }
    let r2s = i + lon_tag.len();
    let ghost r2 = rest.subrange((i - p) + lon_tag@.len(), rest.len() as int);
    assert(r2 =~= cs@.subrange(r2s as int, n as int));
    let j = match find_from(&cs, &lat_tag, r2s) {
        Some(j) => j,
        None => {
            proof {
                lemma_first_shift(cs@, lat_tag@, r2s as int, 0);
            }
            return None;
        },
    };
    proof {
        lemma_first_shift(cs@, lat_tag@, r2s as int, 0);
    }
    let ls = j + lat_tag.len();
    let sl = suffix.len();
    let ends = n - ls >= sl && {
        let mut k: usize = 0;
        let mut same = true;
        while k < sl
            invariant
                k <= sl,
                sl == suffix@.len(),
                ls + sl <= n,
                n == cs@.len(),
                same <==> forall|q: int| 0 <= q < k ==> cs@[n - sl + q] == suffix@[q],
            decreases sl - k,
        {
            if cs[n - sl + k] != suffix[k] {
                same = false;
            }
            k = k + 1;
        }
        same
    };
    let ghost lw = cs@.subrange(ls as int, n as int);
    if !ends {
        assert(!(suffix@.len() <= lw.len() && lw.subrange(lw.len() - suffix@.len(), lw.len() as int) == suffix@)) by {
            if suffix@.len() <= lw.len() && lw.subrange(lw.len() - suffix@.len(), lw.len() as int) == suffix@ {
                assert forall|q: int| 0 <= q < sl implies cs@[n - sl + q] == suffix@[q] by {
                    assert(lw.subrange(lw.len() - suffix@.len(), lw.len() as int)[q] == cs@[n - sl + q]);
                }
            }
        }
        return None;
    }
    assert(lw.subrange(lw.len() - suffix@.len(), lw.len() as int) =~= suffix@);
    let stem_end = n - sl;
    let mut e = ls;
    while e < stem_end && cs[e] != '-'
        invariant
            ls <= e <= stem_end,
            stem_end <= n,
            n == cs@.len(),
            forall|q: int| ls <= q < e ==> cs@[q] != '-',
        decreases stem_end - e,
    {
        e = e + 1;
    }
    let ghost stem = cs@.subrange(ls as int, stem_end as int);
    proof {
        assert forall|q: int| 0 <= q < e - ls implies stem[q] != '-' by {
            assert(stem[q] == cs@[ls + q]);
        }
        if e < stem_end {
            assert(stem[e - ls] == cs@[e as int]);
        }
        lemma_split_first_piece(stem, '-', e - ls);
        assert(stem.subrange(0, e - ls) =~= cs@.subrange(ls as int, e as int));
        assert(lw.subrange(0, lw.len() - suffix@.len()) =~= stem);
        assert(rest.subrange(0, i - p) =~= cs@.subrange(p as int, i as int));
        assert(r2.subrange(0, j - r2s) =~= cs@.subrange(r2s as int, j as int));
        assert(r2.subrange((j - r2s) + lat_tag@.len(), r2.len() as int) =~= lw);
    }
    let band = name.substring_char(p, i).to_owned();
    let lon = name.substring_char(r2s, j).to_owned();
    let lat = name.substring_char(ls, e).to_owned();
    Some((band, lon, lat))
}

/// The bands a Sentinel-2 location needs before it is reconstructed.
pub open spec fn required_bands() -> Seq<Seq<char>> {
    seq!["B2"@, "B3"@, "B4"@, "B8"@, "B11"@, "B12"@]
}

/// Number of required bands.
pub const N_REQUIRED_BANDS: usize = 6;

fn required_band(k: usize) -> (r: &'static str)
    requires
        k < N_REQUIRED_BANDS,
    ensures
        r@ == required_bands()[k as int],
{
    if k == 0 {
        "B2"
    } else if k == 1 {
        "B3"
    } else if k == 2 {
        "B4"
    } else if k == 3 {
        "B8"
    } else if k == 4 {
        "B11"
    } else {
        "B12"
    }
}

/// Views of `(band, lon, lat)` file-name fields.
pub open spec fn field_views(files: Seq<(String, String, String)>) -> Seq<(Seq<char>, Seq<char>, Seq<char>)> {
    files.map_values(|f: (String, String, String)| (f.0@, f.1@, f.2@))
}

/// Whether some file holds `band` at `(lon, lat)`.
pub open spec fn has_band_file(
    fs: Seq<(Seq<char>, Seq<char>, Seq<char>)>,
    band: Seq<char>,
    lon: Seq<char>,
    lat: Seq<char>,
) -> bool {
    exists|i: int| 0 <= i < fs.len() && #[trigger] fs[i] == (band, lon, lat)
}

/// Whether every required band has a file at `(lon, lat)`.
pub open spec fn location_complete(fs: Seq<(Seq<char>, Seq<char>, Seq<char>)>, lon: Seq<char>, lat: Seq<char>) -> bool {
    forall|k: int| 0 <= k < required_bands().len() ==> has_band_file(fs, #[trigger] required_bands()[k], lon, lat)
}

/// Whether file `i` is the first one at its location.
pub open spec fn first_at_location(fs: Seq<(Seq<char>, Seq<char>, Seq<char>)>, i: int) -> bool {
    forall|j: int| 0 <= j < i ==> !((#[trigger] fs[j]).1 == fs[i].1 && fs[j].2 == fs[i].2)
}

/// Locations `(lon, lat)` of the first `n` files that have every required
/// band, each once, in order of first appearance.
pub open spec fn complete_locations(fs: Seq<(Seq<char>, Seq<char>, Seq<char>)>, n: nat) -> Seq<(Seq<char>, Seq<char>)>
    decreases n,
{
    if n == 0 {
        Seq::empty()
    } else {
        let prev = complete_locations(fs, (n - 1) as nat);
        let i = n - 1;
        if first_at_location(fs, i) && location_complete(fs, fs[i].1, fs[i].2) {
            prev.push((fs[i].1, fs[i].2))
        } else {
            prev
        }
    }
}

fn has_band_file_at(files: &Vec<(String, String, String)>, band: &str, lon: &str, lat: &str) -> (r: bool)
    ensures
        r == has_band_file(field_views(files@), band@, lon@, lat@),
{
    let ghost fs = field_views(files@);
    let mut i: usize = 0;
    while i < files.len()
        invariant
            i <= files@.len(),
            fs == field_views(files@),
            forall|j: int| 0 <= j < i ==> fs[j] != (band@, lon@, lat@),
        decreases files@.len() - i,
    {
        let f = &files[i];
        if str_equal(f.0.as_str(), band) && str_equal(f.1.as_str(), lon) && str_equal(f.2.as_str(), lat) {
            assert(fs[i as int] == (band@, lon@, lat@));
            return true;
        }
        i = i + 1;
    }
    false
}

fn is_first_at_location(files: &Vec<(String, String, String)>, i: usize) -> (r: bool)
    requires
        i < files@.len(),
    ensures
        r == first_at_location(field_views(files@), i as int),
{
    let ghost fs = field_views(files@);
    let mut j: usize = 0;
    while j < i
        invariant
            j <= i,
            i < files@.len(),
            fs == field_views(files@),
            forall|q: int| 0 <= q < j ==> !((#[trigger] fs[q]).1 == fs[i as int].1 && fs[q].2 == fs[i as int].2),
        decreases i - j,
    {
        if str_equal(files[j].1.as_str(), files[i].1.as_str()) && str_equal(files[j].2.as_str(), files[i].2.as_str()) {
            assert(fs[j as int].1 == fs[i as int].1 && fs[j as int].2 == fs[i as int].2);
            return false;
        }
        j = j + 1;
    }
    true
}

fn is_location_complete(files: &Vec<(String, String, String)>, lon: &str, lat: &str) -> (r: bool)
    ensures
        r == location_complete(field_views(files@), lon@, lat@),
{
    let ghost fs = field_views(files@);
    let mut k: usize = 0;
    while k < N_REQUIRED_BANDS
        invariant
            k <= N_REQUIRED_BANDS,
            fs == field_views(files@),
            forall|q: int| 0 <= q < k ==> has_band_file(fs, #[trigger] required_bands()[q], lon@, lat@),
        decreases N_REQUIRED_BANDS - k,
    {
        let band = required_band(k);
        if !has_band_file_at(files, band, lon, lat) {
            return false;
        }
        k = k + 1;
    }
    true
}

/// Locations `(lon, lat)`, as written in the file names, at which every
/// band of `B2, B3, B4, B8, B11, B12` has a source file: each location once,
/// in order of first appearance among `files` (the `(band, lon, lat)` fields
/// of the parsed file names).
pub fn complete_sentinel_locations(files: &Vec<(String, String, String)>) -> (r: Vec<(String, String)>)
    ensures
        r@.map_values(|p: (String, String)| (p.0@, p.1@)) == complete_locations(field_views(files@), files@.len()),
{
    let ghost fs = field_views(files@);
    let mut out: Vec<(String, String)> = Vec::new();
    let mut i: usize = 0;
    while i < files.len()
        invariant
            i <= files@.len(),
            fs == field_views(files@),
            out@.map_values(|p: (String, String)| (p.0@, p.1@)) == complete_locations(fs, i as nat),
        decreases files@.len() - i,
    {
        let ghost before = out@;
        let first = is_first_at_location(files, i);
        if first && is_location_complete(files, files[i].1.as_str(), files[i].2.as_str()) {
            let lon = files[i].1.clone();
            let lat = files[i].2.clone();
            out.push((lon, lat));
            assert(out@.map_values(|p: (String, String)| (p.0@, p.1@)) =~= before.map_values(
                |p: (String, String)| (p.0@, p.1@),
            ).push((fs[i as int].1, fs[i as int].2)));
        }
        i = i + 1;
    }
    out
}

/// A location is listed exactly when some file lies at it and every
/// required band has a file there; no location is listed twice.
pub proof fn lemma_complete_locations(fs: Seq<(Seq<char>, Seq<char>, Seq<char>)>, n: nat, lon: Seq<char>, lat: Seq<char>)
    requires
        n <= fs.len(),
    ensures
        complete_locations(fs, n).contains((lon, lat)) <==> ((exists|i: int|
            0 <= i < n && (#[trigger] fs[i]).1 == lon && fs[i].2 == lat) && location_complete(fs, lon, lat)),
        forall|a: int, b: int|
            0 <= a < b < complete_locations(fs, n).len() ==> #[trigger] complete_locations(fs, n)[a]
                != #[trigger] complete_locations(fs, n)[b],
    decreases n,
{
    if n > 0 {
        let m = (n - 1) as nat;
        lemma_complete_locations(fs, m, lon, lat);
        let prev = complete_locations(fs, m);
        let i = n - 1;
        let cur = complete_locations(fs, n);
        if first_at_location(fs, i) && location_complete(fs, fs[i].1, fs[i].2) {
            assert(cur == prev.push((fs[i].1, fs[i].2)));
            lemma_complete_locations(fs, m, fs[i].1, fs[i].2);
            assert(!prev.contains((fs[i].1, fs[i].2))) by {
                if prev.contains((fs[i].1, fs[i].2)) {
                    let w = choose|w: int| 0 <= w < m && (#[trigger] fs[w]).1 == fs[i].1 && fs[w].2 == fs[i].2;
                    assert(!(fs[w].1 == fs[i].1 && fs[w].2 == fs[i].2));
                }
            }
            assert forall|a: int, b: int| 0 <= a < b < cur.len() implies #[trigger] cur[a] != #[trigger] cur[b] by {
                if b == cur.len() - 1 {
                    assert(prev[a] == cur[a]);
                    assert(prev.contains(prev[a]));
                } else {
                    assert(prev[a] == cur[a] && prev[b] == cur[b]);
                }
            }
            if (exists|k: int| 0 <= k < n && (#[trigger] fs[k]).1 == lon && fs[k].2 == lat) && location_complete(
                fs,
                lon,
                lat,
            ) {
                if (lon, lat) != (fs[i].1, fs[i].2) {
                    let k = choose|k: int| 0 <= k < n && (#[trigger] fs[k]).1 == lon && fs[k].2 == lat;
                    assert(k < m);
                    assert(prev.contains((lon, lat)));
                    let x = choose|x: int| 0 <= x < prev.len() && prev[x] == (lon, lat);
                    assert(cur[x] == (lon, lat));
                } else {
                    assert(cur[cur.len() - 1] == (lon, lat));
                }
            }
            if cur.contains((lon, lat)) {
                let x = choose|x: int| 0 <= x < cur.len() && cur[x] == (lon, lat);
                if x < prev.len() {
                    assert(prev[x] == (lon, lat));
                    assert(prev.contains((lon, lat)));
                } else {
                    assert(fs[i].1 == lon && fs[i].2 == lat);
                }
            }
        } else {
            assert(cur == prev);
            if (exists|k: int| 0 <= k < n && (#[trigger] fs[k]).1 == lon && fs[k].2 == lat) && location_complete(
                fs,
                lon,
                lat,
            ) {
                let k = choose|k: int| 0 <= k < n && (#[trigger] fs[k]).1 == lon && fs[k].2 == lat;
                if k == i {
                    assert(!first_at_location(fs, i));
                    let j = choose|j: int| 0 <= j < i && (#[trigger] fs[j]).1 == fs[i].1 && fs[j].2 == fs[i].2;
                    assert(fs[j].1 == lon && fs[j].2 == lat);
                }
            }
        }
    }
}

/// A location is listed exactly when some file lies at it and each of the
/// six bands B2, B3, B4, B8, B11 and B12 has a file there.
pub proof fn lemma_complete_locations_need_six_bands(
    fs: Seq<(Seq<char>, Seq<char>, Seq<char>)>,
    lon: Seq<char>,
    lat: Seq<char>,
)
    ensures
        complete_locations(fs, fs.len()).contains((lon, lat)) <==> {
            &&& exists|i: int| 0 <= i < fs.len() && (#[trigger] fs[i]).1 == lon && fs[i].2 == lat
            &&& has_band_file(fs, "B2"@, lon, lat)
            &&& has_band_file(fs, "B3"@, lon, lat)
            &&& has_band_file(fs, "B4"@, lon, lat)
            &&& has_band_file(fs, "B8"@, lon, lat)
            &&& has_band_file(fs, "B11"@, lon, lat)
            &&& has_band_file(fs, "B12"@, lon, lat)
        },
{
    lemma_complete_locations(fs, fs.len(), lon, lat);
    let req = required_bands();
    assert(req[0] == "B2"@ && req[1] == "B3"@ && req[2] == "B4"@ && req[3] == "B8"@ && req[4] == "B11"@ && req[5]
        == "B12"@);
    assert(req.len() == 6);
    if location_complete(fs, lon, lat) {
        assert(has_band_file(fs, req[0], lon, lat));
        assert(has_band_file(fs, req[1], lon, lat));
        assert(has_band_file(fs, req[2], lon, lat));
        assert(has_band_file(fs, req[3], lon, lat));
        assert(has_band_file(fs, req[4], lon, lat));
        assert(has_band_file(fs, req[5], lon, lat));
    }
    if has_band_file(fs, "B2"@, lon, lat) && has_band_file(fs, "B3"@, lon, lat) && has_band_file(fs, "B4"@, lon, lat)
        && has_band_file(fs, "B8"@, lon, lat) && has_band_file(fs, "B11"@, lon, lat) && has_band_file(
        fs,
        "B12"@,
        lon,
        lat,
    ) {
        assert forall|k: int| 0 <= k < req.len() implies has_band_file(fs, #[trigger] req[k], lon, lat) by {
            if k == 0 {
            } else if k == 1 {
            } else if k == 2 {
            } else if k == 3 {
            } else if k == 4 {
            } else {
            }
        }
    }
}

/// End of the run of Unicode decimal digits of `cs` starting at `j`.
pub open spec fn digit_run_end(cs: Seq<char>, j: int) -> int
    decreases cs.len() - j,
{
    if j < 0 || j >= cs.len() || !is_decimal_digit(cs[j]) {
        j
    } else {
        digit_run_end(cs, j + 1)
    }
}

/// Prefix of Sentinel-2 source file names.
pub open spec fn s2_prefix() -> Seq<char> {
    "COPERNICUS_S2_HARMONIZED_"@
}

/// End of the band field `B<digits>[A-Z]` (Unicode decimal digits) that
/// starts right after the file name prefix found at `i`, when the field is
/// followed by `_lon`.
pub open spec fn band_field_end(cs: Seq<char>, i: int) -> Option<int> {
    let b = i + s2_prefix().len();
    if !occurs_at(cs, s2_prefix(), i) || b >= cs.len() || cs[b] != 'B' {
        None
    } else {
        let d = digit_run_end(cs, b + 1);
        let e = if d < cs.len() && is_upper(cs[d]) { d + 1 } else { d };
        if d > b + 1 && occurs_at(cs, "_lon"@, e) {
            Some(e)
        } else {
            None
        }
    }
}

/// Whether no start before `i` gives a band field.
pub open spec fn no_band_field_before(cs: Seq<char>, i: int) -> bool {
    forall|k: int| 0 <= k < i ==> #[trigger] band_field_end(cs, k) is None
}

proof fn lemma_digit_run_end(cs: Seq<char>, j: int)
    requires
        0 <= j <= cs.len(),
    ensures
        j <= digit_run_end(cs, j) <= cs.len(),
        forall|k: int| j <= k < digit_run_end(cs, j) ==> is_decimal_digit(#[trigger] cs[k]),
        digit_run_end(cs, j) < cs.len() ==> !is_decimal_digit(cs[digit_run_end(cs, j)]),
    decreases cs.len() - j,
{
    if j < cs.len() && is_decimal_digit(cs[j]) {
        lemma_digit_run_end(cs, j + 1);
    }
}

fn occurs_at_exec(cs: &Vec<char>, pat: &Vec<char>, i: usize) -> (r: bool)
    ensures
        r == occurs_at(cs@, pat@, i as int),
{
    if i > cs.len() || pat.len() > cs.len() - i {
        return false;
    }
    let n = cs.len();
    let mut k: usize = 0;
    while k < pat.len()
        invariant
            k <= pat@.len(),
            n == cs@.len(),
            i + pat@.len() <= cs@.len(),
            forall|q: int| 0 <= q < k ==> cs@[i + q] == pat@[q],
        decreases pat@.len() - k,
    {
        if cs[i + k] != pat[k] {
            assert(cs@.subrange(i as int, i + pat@.len())[k as int] != pat@[k as int]);
            return false;
        }
        k = k + 1;
    }
    assert(cs@.subrange(i as int, i + pat@.len()) =~= pat@);
    true
}

fn band_field_end_exec(cs: &Vec<char>, prefix: &Vec<char>, lon_tag: &Vec<char>, i: usize) -> (r: Option<usize>)
    requires
        prefix@ == s2_prefix(),
        lon_tag@ == "_lon"@,
        i <= cs@.len(),
    ensures
        r matches Some(e) ==> band_field_end(cs@, i as int) == Some(e as int),
        r is None ==> band_field_end(cs@, i as int) is None,
{
    let n = cs.len();
    if !occurs_at_exec(cs, prefix, i) {
        return None;
    }
    assert(i + prefix@.len() <= n);
    let b = i + prefix.len();
    if b >= cs.len() || cs[b] != 'B' {
        return None;
    }
    let mut d = b + 1;
    proof {
        lemma_digit_run_end(cs@, (b + 1) as int);
    }
    while d < cs.len() && char_is_decimal_digit(cs[d])
        invariant
            b + 1 <= d <= cs@.len(),
            b < cs@.len(),
            digit_run_end(cs@, (b + 1) as int) == digit_run_end(cs@, d as int),
        decreases cs@.len() - d,
    {
        d = d + 1;
    }
    let e = if d < cs.len() && 'A' <= cs[d] && cs[d] <= 'Z' {
        d + 1
    } else {
        d
    };
    if d > b + 1 && occurs_at_exec(cs, lon_tag, e) {
        Some(e)
    } else {
        None
    }
}

/// Band field `B<digits>[A-Z]` of a source file name: the first place in
/// the name where `COPERNICUS_S2_HARMONIZED_` is directly followed by such
/// a field and `_lon`.
pub fn band_from_file_name(name: &str) -> (r: Option<String>)
    ensures
        r is Some <==> exists|i: int| 0 <= i <= name@.len() && #[trigger] band_field_end(name@, i) is Some,
        r matches Some(band) ==> exists|i: int|
            0 <= i <= name@.len() && no_band_field_before(name@, i) && (#[trigger] band_field_end(name@, i)) is Some
                && band@ == name@.subrange(i + s2_prefix().len(), band_field_end(name@, i)->0),
{
    let cs = chars_of(name);
    let prefix = chars_of("COPERNICUS_S2_HARMONIZED_");
    let lon_tag = chars_of("_lon");
    let mut i: usize = 0;
    while i < cs.len()
        invariant
            i <= cs@.len(),
            cs@ == name@,
            prefix@ == s2_prefix(),
            lon_tag@ == "_lon"@,
            no_band_field_before(cs@, i as int),
        decreases cs@.len() + 1 - i,
    {
        match band_field_end_exec(&cs, &prefix, &lon_tag, i) {
            Some(e) => {
                proof {
                    lemma_band_field_bounds(cs@, i as int);
                }
                let band = name.substring_char(i + prefix.len(), e).to_owned();
                assert(band_field_end(name@, i as int) is Some);
                return Some(band);
            },
            None => {},
        }
        i = i + 1;
    }
    assert(!occurs_at(cs@, s2_prefix(), cs@.len() as int)) by {
        reveal_strlit("COPERNICUS_S2_HARMONIZED_");
    }
    assert forall|k: int| 0 <= k <= name@.len() implies #[trigger] band_field_end(name@, k) is None by {
        if k < i {
            assert(band_field_end(cs@, k) is None);
        }
    }
    None
}

proof fn lemma_band_field_bounds(cs: Seq<char>, i: int)
    requires
        0 <= i,
        band_field_end(cs, i) is Some,
    ensures
        i + s2_prefix().len() < band_field_end(cs, i)->0 <= cs.len(),
{
    let b = i + s2_prefix().len();
    lemma_digit_run_end(cs, b + 1);
}

proof fn lemma_first_props(cs: Seq<char>, pat: Seq<char>, i: int)
    requires
        0 <= i,
    ensures
        match first_occurrence_from(cs, pat, i) {
            Some(j) => i <= j && occurs_at(cs, pat, j) && forall|k: int| i <= k < j ==> !occurs_at(cs, pat, k),
            None => forall|k: int| i <= k ==> !occurs_at(cs, pat, k),
        },
    decreases cs.len() + 1 - i,
{
    if i <= cs.len() && i + pat.len() <= cs.len() && !occurs_at(cs, pat, i) {
        lemma_first_props(cs, pat, i + 1);
    }
}

proof fn lemma_first_shift(cs: Seq<char>, pat: Seq<char>, off: int, k: int)
    requires
        0 <= off <= cs.len(),
        0 <= k,
    ensures
        first_occurrence_from(cs.subrange(off, cs.len() as int), pat, k) == (match first_occurrence_from(
            cs,
            pat,
            off + k,
        ) {
            Some(i) => Some(i - off),
            None => None::<int>,
        }),
    decreases cs.len() - off - k,
{
    let rest = cs.subrange(off, cs.len() as int);
    if k + pat.len() <= rest.len() {
        assert(rest.subrange(k, k + pat.len() as int) =~= cs.subrange(off + k, off + k + pat.len() as int));
        if k < rest.len() {
            lemma_first_shift(cs, pat, off, k + 1);
        }
    }
}

} // verus!

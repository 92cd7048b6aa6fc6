//! Lexicographic order on character sequences (code-point order, which is
//! the byte order of their UTF-8 encodings and so the order of `String`).
use vstd::prelude::*;

use crate::text::chars_of;

verus! {

/// Three-way lexicographic comparison by code point: -1, 0 or 1.
pub open spec fn lex_order(a: Seq<char>, b: Seq<char>) -> int
    decreases a.len(),
{
    if a.len() == 0 && b.len() == 0 {
        0
    } else if a.len() == 0 {
        -1
    } else if b.len() == 0 {
        1
    } else if a[0] < b[0] {
        -1
    } else if a[0] > b[0] {
        1
    } else {
        lex_order(a.drop_first(), b.drop_first())
    }
}

/// The comparison is -1, 0 or 1.
pub proof fn lemma_lex_order_range(a: Seq<char>, b: Seq<char>)
    ensures
        -1 <= lex_order(a, b) <= 1,
    decreases a.len(),
{
    if a.len() > 0 && b.len() > 0 && a[0] == b[0] {
        lemma_lex_order_range(a.drop_first(), b.drop_first());
    }
}

/// Swapping the arguments negates the comparison.
pub proof fn lemma_lex_order_antisym(a: Seq<char>, b: Seq<char>)
    ensures
        lex_order(a, b) == -lex_order(b, a),
    decreases a.len(),
{
    if a.len() > 0 && b.len() > 0 && a[0] == b[0] {
        lemma_lex_order_antisym(a.drop_first(), b.drop_first());
    }
}

/// Two sequences compare equal exactly when they are equal.
pub proof fn lemma_lex_order_eq(a: Seq<char>, b: Seq<char>)
    ensures
        lex_order(a, b) == 0 <==> a == b,
    decreases a.len(),
{
    if a.len() > 0 && b.len() > 0 && a[0] == b[0] {
        lemma_lex_order_eq(a.drop_first(), b.drop_first());
        if lex_order(a, b) == 0 {
            assert(a =~= seq![a[0]] + a.drop_first());
            assert(b =~= seq![b[0]] + b.drop_first());
        }
        if a == b {
            assert(a.drop_first() == b.drop_first());
        }
    } else if a.len() > 0 && b.len() > 0 {
        if a == b {
            assert(a[0] == b[0]);
        }
    } else if a.len() == 0 && b.len() == 0 {
        assert(a =~= b);
    }
}

/// The order is transitive.
pub proof fn lemma_lex_order_trans(a: Seq<char>, b: Seq<char>, c: Seq<char>)
    requires
        lex_order(a, b) <= 0,
        lex_order(b, c) <= 0,
    ensures
        lex_order(a, c) <= 0,
    decreases a.len(),
{
    if a.len() > 0 && b.len() > 0 && c.len() > 0 && a[0] == b[0] && b[0] == c[0] {
        lemma_lex_order_trans(a.drop_first(), b.drop_first(), c.drop_first());
    }
}

/// Three-way comparison of two character vectors.
pub fn compare_chars(a: &Vec<char>, b: &Vec<char>) -> (r: i8)
    ensures
        r as int == lex_order(a@, b@),
{
    let mut i: usize = 0;
    assert(a@.subrange(0, a@.len() as int) =~= a@);
    assert(b@.subrange(0, b@.len() as int) =~= b@);
    while i < a.len() && i < b.len()
        invariant
            i <= a@.len(),
            i <= b@.len(),
            lex_order(a@, b@) == lex_order(a@.subrange(i as int, a@.len() as int), b@.subrange(i as int, b@.len() as int)),
        decreases a@.len() - i,
    {
        let x = a[i];
        let y = b[i];
        let ghost sa = a@.subrange(i as int, a@.len() as int);
        let ghost sb = b@.subrange(i as int, b@.len() as int);
        assert(sa[0] == a@[i as int]);
        assert(sb[0] == b@[i as int]);
        if x < y {
            return -1;
        }
        if x > y {
            return 1;
        }
        assert(sa.drop_first() =~= a@.subrange(i + 1, a@.len() as int));
        assert(sb.drop_first() =~= b@.subrange(i + 1, b@.len() as int));
        i = i + 1;
    }
    if i == a.len() && i == b.len() {
        0
    } else if i == a.len() {
        -1
    } else {
        1
    }
}

/// Three-way comparison of two strings.
pub fn compare_strings(a: &str, b: &str) -> (r: i8)
    ensures
        r as int == lex_order(a@, b@),
{
    let x = chars_of(a);
    let y = chars_of(b);
    compare_chars(&x, &y)
}

/// Whether the views of `v` are in non-decreasing lexicographic order.
pub open spec fn strings_sorted(v: Seq<Seq<char>>) -> bool {
    forall|i: int, j: int| 0 <= i < j < v.len() ==> lex_order(v[i], v[j]) <= 0
}

/// Views of a list of strings.
pub open spec fn views(v: Seq<String>) -> Seq<Seq<char>> {
    v.map_values(|s: String| s@)
}

/// Sorts strings in ascending order.
pub fn sort_strings(v: Vec<String>) -> (r: Vec<String>)
    ensures
        views(r@).to_multiset() == views(v@).to_multiset(),
        strings_sorted(views(r@)),
{
    let mut rest = v;
    let mut out: Vec<String> = Vec::new();
    let ghost orig = views(rest@);
    proof {
        broadcast use vstd::seq_lib::group_to_multiset_ensures;

        assert(views(out@) =~= Seq::<Seq<char>>::empty());
        assert(views(out@).to_multiset() =~= vstd::multiset::Multiset::empty());
        assert(views(out@).to_multiset().add(views(rest@).to_multiset()) =~= orig.to_multiset());
    }
    while rest.len() > 0
        invariant
            views(out@).to_multiset().add(views(rest@).to_multiset()) == orig.to_multiset(),
            strings_sorted(views(out@)),
            forall|i: int, j: int|
                0 <= i < out@.len() && 0 <= j < rest@.len() ==> lex_order(#[trigger] out@[i]@, #[trigger] rest@[j]@) <= 0,
        decreases rest@.len(),
    {
        let mut m: usize = 0;
        let mut k: usize = 1;
        proof {
            lemma_lex_order_eq(rest@[0]@, rest@[0]@);
        }
        while k < rest.len()
            invariant
                1 <= k <= rest@.len(),
                m < k,
                forall|j: int| 0 <= j < k ==> lex_order(rest@[m as int]@, #[trigger] rest@[j]@) <= 0,
            decreases rest@.len() - k,
        {
            let c = compare_strings(rest[k].as_str(), rest[m].as_str());
            if c < 0 {
                proof {
                    lemma_lex_order_antisym(rest@[k as int]@, rest@[m as int]@);
                    assert forall|j: int| 0 <= j < k + 1 implies lex_order(rest@[k as int]@, #[trigger] rest@[j]@) <= 0 by {
                        if j < k {
                            lemma_lex_order_trans(rest@[k as int]@, rest@[m as int]@, rest@[j]@);
                        } else {
                            lemma_lex_order_eq(rest@[k as int]@, rest@[k as int]@);
                        }
                    }
                }
                m = k;
            } else {
                proof {
                    lemma_lex_order_antisym(rest@[k as int]@, rest@[m as int]@);
                }
            }
            k = k + 1;
        }
        proof {
            lemma_lex_order_eq(rest@[m as int]@, rest@[m as int]@);
        }
        let ghost old_rest = rest@;
        let ghost old_out = out@;
        let x = rest.remove(m);
        out.push(x);
        proof {
            broadcast use vstd::seq_lib::group_to_multiset_ensures;

            assert(views(out@) =~= views(old_out).push(x@));
            assert(views(rest@) =~= views(old_rest).remove(m as int));
            assert(views(old_rest)[m as int] == x@);
            assert(views(out@).to_multiset() =~= views(old_out).to_multiset().insert(x@));
            assert(views(rest@).to_multiset() =~= views(old_rest).to_multiset().remove(x@));
            assert(views(old_rest).to_multiset().count(x@) > 0) by {
                assert(views(old_rest).contains(x@));
            }
            assert(views(out@).to_multiset().add(views(rest@).to_multiset()) =~= orig.to_multiset());
            assert forall|i: int, j: int| 0 <= i < out@.len() && 0 <= j < rest@.len() implies lex_order(
                #[trigger] out@[i]@,
                #[trigger] rest@[j]@,
            ) <= 0 by {
                let jj = if j < m { j } else { j + 1 };
                assert(rest@[j] == old_rest[jj]);
            }
            assert forall|i: int, j: int| 0 <= i < j < views(out@).len() implies lex_order(
                views(out@)[i],
                views(out@)[j],
            ) <= 0 by {
                if j == out@.len() - 1 {
                    assert(lex_order(old_out[i]@, old_rest[m as int]@) <= 0);
                }
            }
        }
    }
    proof {
        assert(views(rest@) =~= Seq::<Seq<char>>::empty());
        assert(views(out@).to_multiset().add(vstd::multiset::Multiset::empty()) =~= views(out@).to_multiset());
    }
    out
}

} // verus!

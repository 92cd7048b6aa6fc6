//! Timestamp bookkeeping of band stacks: duplicate collapsing, timestamps
//! shared by all bands, the held-out target slice, and target selection.
use vstd::prelude::*;

use crate::order::{lemma_lex_order_antisym, lemma_lex_order_eq, lex_order, sort_strings, views};
use crate::text::str_equal;

verus! {

/// Whether the views are in strictly increasing lexicographic order.
pub open spec fn strictly_sorted(v: Seq<Seq<char>>) -> bool {
    forall|i: int, j: int| 0 <= i < j < v.len() ==> lex_order(v[i], v[j]) < 0
}

/// The distinct strings of `v` in ascending order.
pub fn sorted_unique(v: &Vec<String>) -> (r: Vec<String>)
    ensures
        strictly_sorted(views(r@)),
        forall|x: Seq<char>| views(r@).contains(x) <==> views(v@).contains(x),
{
    let copy = v.clone();
    proof {
        assert(views(copy@) =~= views(v@)) by {
            assert forall|i: int| 0 <= i < v@.len() implies copy@[i]@ == v@[i]@ by {
                assert(copy@[i] == v@[i]);
            }
        }
    }
    let sorted = sort_strings(copy);
    let ghost sv = views(sorted@);
    let mut out: Vec<String> = Vec::new();
    let mut i: usize = 0;
    while i < sorted.len()
        invariant
            i <= sorted@.len(),
            sv == views(sorted@),
            crate::order::strings_sorted(sv),
            strictly_sorted(views(out@)),
            forall|x: Seq<char>| views(out@).contains(x) <==> sv.subrange(0, i as int).contains(x),
            i > 0 ==> out@.len() > 0 && out@.last()@ == sv[i - 1],
            i == 0 ==> out@.len() == 0,
        decreases sorted@.len() - i,
    {
        let ghost old_out = views(out@);
        let dup = i > 0 && str_equal(sorted[i].as_str(), out[out.len() - 1].as_str());
        if !dup {
            let s = sorted[i].clone();
            out.push(s);
            proof {
                assert(views(out@) =~= old_out.push(sv[i as int]));
                if i > 0 {
                    let last = old_out.len() - 1;
                    assert(old_out[last] == sv[i - 1]);
                    lemma_lex_order_eq(sv[i - 1], sv[i as int]);
                    assert(lex_order(sv[i - 1], sv[i as int]) <= 0);
                    assert(lex_order(sv[i - 1], sv[i as int]) != 0);
                    assert forall|a: int, b: int| 0 <= a < b < views(out@).len() implies lex_order(
                        views(out@)[a],
                        views(out@)[b],
                    ) < 0 by {
                        if b == views(out@).len() - 1 {
                            if a < last {
                                assert(views(out@)[a] == old_out[a]);
                                assert(lex_order(old_out[a], old_out[last]) < 0);
                                lemma_lex_order_trans_strict(old_out[a], sv[i - 1], sv[i as int]);
                            }
                        } else {
                            assert(views(out@)[a] == old_out[a]);
                            assert(views(out@)[b] == old_out[b]);
                        }
                    }
                }
            }
        }
        proof {
            let pre = sv.subrange(0, i as int);
            let post = sv.subrange(0, i + 1);
            assert(post =~= pre.push(sv[i as int]));
            assert forall|x: Seq<char>| views(out@).contains(x) <==> post.contains(x) by {
                if views(out@).contains(x) {
                    let a = choose|a: int| 0 <= a < views(out@).len() && #[trigger] views(out@)[a] == x;
                    if a < old_out.len() {
                        assert(old_out[a] == x);
                        assert(old_out.contains(x));
                        let k = choose|k: int| 0 <= k < pre.len() && #[trigger] pre[k] == x;
                        assert(post[k] == x);
                    } else {
                        assert(post[i as int] == x);
                    }
                }
                if post.contains(x) {
                    let k = choose|k: int| 0 <= k < post.len() && #[trigger] post[k] == x;
                    if k < i {
                        assert(pre[k] == x);
                        assert(pre.contains(x));
                        assert(old_out.contains(x));
                        let a = choose|a: int| 0 <= a < old_out.len() && #[trigger] old_out[a] == x;
                        assert(views(out@)[a] == x);
                    } else if !dup {
                        assert(views(out@)[views(out@).len() - 1] == x);
                    } else {
                        assert(old_out[old_out.len() - 1] == x);
                        assert(views(out@)[views(out@).len() - 1] == x);
                    }
                }
            }
        }
        i = i + 1;
    }
    proof {
        broadcast use vstd::seq_lib::group_to_multiset_ensures;

        assert(sv.subrange(0, sv.len() as int) =~= sv);
        assert forall|x: Seq<char>| views(out@).contains(x) <==> views(v@).contains(x) by {
            assert(sv.contains(x) <==> sv.to_multiset().count(x) > 0);
            assert(views(v@).contains(x) <==> views(v@).to_multiset().count(x) > 0);
        }
    }
    out
}

proof fn lemma_lex_order_trans_strict(a: Seq<char>, b: Seq<char>, c: Seq<char>)
    requires
        lex_order(a, b) < 0,
        lex_order(b, c) <= 0,
    ensures
        lex_order(a, c) < 0,
{
    crate::order::lemma_lex_order_trans(a, b, c);
    lemma_lex_order_eq(a, c);
    if a == c {
        lemma_lex_order_antisym(a, b);
        crate::order::lemma_lex_order_range(a, b);
        crate::order::lemma_lex_order_range(b, c);
    }
}

/// Indices `i < n` (ascending) with `v[i] == x`.
pub open spec fn indices_of(v: Seq<Seq<char>>, x: Seq<char>, n: nat) -> Seq<usize>
    decreases n,
{
    if n == 0 {
        Seq::empty()
    } else {
        let prev = indices_of(v, x, (n - 1) as nat);
        if v[n - 1] == x {
            prev.push((n - 1) as usize)
        } else {
            prev
        }
    }
}

/// Indices of `timestamps` equal to `x`, ascending.
fn indices_equal_to(timestamps: &Vec<String>, x: &str) -> (r: Vec<usize>)
    ensures
        r@ == indices_of(views(timestamps@), x@, timestamps@.len()),
{
    let mut out: Vec<usize> = Vec::new();
    let mut i: usize = 0;
    while i < timestamps.len()
        invariant
            i <= timestamps@.len(),
            out@ == indices_of(views(timestamps@), x@, i as nat),
        decreases timestamps@.len() - i,
    {
        if str_equal(timestamps[i].as_str(), x) {
            out.push(i);
        }
        i = i + 1;
    }
    out
}

/// The distinct timestamps in ascending order, with the indices at which
/// each occurs: the grouping under which bands of one acquisition time are
/// averaged into one.
pub fn group_duplicate_timestamps(timestamps: &Vec<String>) -> (r: (Vec<String>, Vec<Vec<usize>>))
    ensures
        strictly_sorted(views(r.0@)),
        forall|x: Seq<char>| views(r.0@).contains(x) <==> views(timestamps@).contains(x),
        r.1@.len() == r.0@.len(),
        forall|j: int|
            0 <= j < r.0@.len() ==> (#[trigger] r.1@[j])@ == indices_of(views(timestamps@), r.0@[j]@, timestamps@.len()),
{
    let uniq = sorted_unique(timestamps);
    let mut groups: Vec<Vec<usize>> = Vec::new();
    let mut j: usize = 0;
    while j < uniq.len()
        invariant
            j <= uniq@.len(),
            groups@.len() == j,
            forall|k: int|
                0 <= k < j ==> (#[trigger] groups@[k])@ == indices_of(views(timestamps@), uniq@[k]@, timestamps@.len()),
        decreases uniq@.len() - j,
    {
        let g = indices_equal_to(timestamps, uniq[j].as_str());
        groups.push(g);
        j = j + 1;
    }
    (uniq, groups)
}

/// Whether every list contains `x`.
pub open spec fn in_all(lists: Seq<Seq<Seq<char>>>, x: Seq<char>) -> bool {
    forall|k: int| 0 <= k < lists.len() ==> (#[trigger] lists[k]).contains(x)
}

/// Views of lists of strings.
pub open spec fn list_views(lists: Seq<Vec<String>>) -> Seq<Seq<Seq<char>>> {
    lists.map_values(|l: Vec<String>| views(l@))
}

fn contains_string(list: &Vec<String>, x: &str) -> (r: bool)
    ensures
        r == views(list@).contains(x@),
{
    let mut i: usize = 0;
    while i < list.len()
        invariant
            i <= list@.len(),
            forall|k: int| 0 <= k < i ==> list@[k]@ != x@,
        decreases list@.len() - i,
    {
        if str_equal(list[i].as_str(), x) {
            assert(views(list@)[i as int] == x@);
            return true;
        }
        i = i + 1;
    }
    assert(!views(list@).contains(x@)) by {
        if views(list@).contains(x@) {
            let k = choose|k: int| 0 <= k < views(list@).len() && #[trigger] views(list@)[k] == x@;
            assert(list@[k]@ == x@);
        }
    }
    false
}

/// Whether every list but the first contains `x`.
fn in_lists_after_first(lists: &Vec<Vec<String>>, x: &str) -> (all: bool)
    ensures
        all <==> forall|q: int| 1 <= q < lists@.len() ==> (#[trigger] list_views(lists@)[q]).contains(x@),
{
    let ghost lv = list_views(lists@);
    let mut all = true;
    let mut k: usize = 1;
    while k < lists.len()
        invariant
            1 <= k,
            k <= lists@.len() || k == 1,
            lv == list_views(lists@),
            all <==> forall|q: int| 1 <= q < k ==> (#[trigger] lv[q]).contains(x@),
        decreases lists@.len() - k,
    {
        let present = contains_string(&lists[k], x);
        assert(lv[k as int] == views(lists@[k as int]@));
        if !present {
            all = false;
        }
        k = k + 1;
    }
    all
}

/// Timestamps present in every band's list, in ascending order (none when
/// no list is given).
pub fn shared_timestamps(lists: &Vec<Vec<String>>) -> (r: Vec<String>)
    ensures
        strictly_sorted(views(r@)),
        forall|x: Seq<char>|
            views(r@).contains(x) <==> (lists@.len() > 0 && in_all(list_views(lists@), x)),
{
    if lists.len() == 0 {
        let out: Vec<String> = Vec::new();
        assert(views(out@) =~= Seq::<Seq<char>>::empty());
        return out;
    }
    let first = sorted_unique(&lists[0]);
    let ghost lv = list_views(lists@);
    let mut out: Vec<String> = Vec::new();
    let mut i: usize = 0;
    while i < first.len()
        invariant
            i <= first@.len(),
            lists@.len() > 0,
            lv == list_views(lists@),
            strictly_sorted(views(first@)),
            forall|x: Seq<char>| views(first@).contains(x) <==> views(lists@[0]@).contains(x),
            forall|a: int| 0 <= a < out@.len() ==> exists|b: int| 0 <= b < i && (#[trigger] out@[a])@ == first@[b]@,
            forall|a: int, b: int| 0 <= a < out@.len() && i <= b < first@.len() ==> lex_order(
                (#[trigger] out@[a])@,
                (#[trigger] first@[b])@,
            ) < 0,
            strictly_sorted(views(out@)),
            forall|x: Seq<char>|
                #![trigger views(out@).contains(x)]
                #![trigger views(first@).subrange(0, i as int).contains(x)]
                views(out@).contains(x) <==> (views(first@).subrange(0, i as int).contains(x) && in_all(lv, x)),
        decreases first@.len() - i,
    {
        let x = first[i].as_str();
        let all = in_lists_after_first(lists, x);
        let ghost old_out = out@;
        proof {
            assert forall|y: Seq<char>|
                views(old_out).contains(y) implies (views(first@).subrange(0, i as int).contains(y) && in_all(lv, y)) by {
                assert(views(out@).contains(y));
            }
            assert(views(first@)[i as int] == x@);
            assert(views(first@).contains(x@));
            assert(views(lists@[0]@).contains(x@));
            assert(lv[0] == views(lists@[0]@));
            assert(all <==> in_all(lv, x@));
        }
        if all {
            let s = first[i].clone();
            out.push(s);
            proof {
                assert(views(out@) =~= views(old_out).push(x@));
                assert forall|a: int, b: int| 0 <= a < b < views(out@).len() implies lex_order(
                    views(out@)[a],
                    views(out@)[b],
                ) < 0 by {
                    if b == views(out@).len() - 1 {
                        assert(lex_order(old_out[a]@, first@[i as int]@) < 0);
                    }
                }
            }
        }
        proof {
            assert(views(first@).subrange(0, i + 1) =~= views(first@).subrange(0, i as int).push(x@));
            assert forall|a: int, b: int| 0 <= a < out@.len() && i + 1 <= b < first@.len() implies lex_order(
                (#[trigger] out@[a])@,
                (#[trigger] first@[b])@,
            ) < 0 by {
                if a < old_out.len() {
                    assert(out@[a] == old_out[a]);
                    assert(lex_order(old_out[a]@, first@[b]@) < 0);
                } else {
                    assert(views(first@)[i as int] == first@[i as int]@);
                    assert(views(first@)[b] == first@[b]@);
                    assert(out@[a]@ == first@[i as int]@);
                }
            }
            assert forall|a: int| 0 <= a < out@.len() implies exists|b: int| 0 <= b < i + 1 && (#[trigger] out@[a])@
                == first@[b]@ by {
                if a < old_out.len() {
                    assert(out@[a] == old_out[a]);
                } else {
                    assert(out@[a]@ == first@[i as int]@);
                }
            }
            let pre = views(first@).subrange(0, i as int);
            let post = views(first@).subrange(0, i + 1);
            assert forall|y: Seq<char>| views(out@).contains(y) <==> (post.contains(y) && in_all(lv, y)) by {
                if views(out@).contains(y) {
                    let a = choose|a: int| 0 <= a < views(out@).len() && #[trigger] views(out@)[a] == y;
                    if a < old_out.len() {
                        assert(views(old_out)[a] == y);
                        assert(views(old_out).contains(y));
                        assert(pre.contains(y) && in_all(lv, y));
                        let b = choose|b: int| 0 <= b < pre.len() && #[trigger] pre[b] == y;
                        assert(post[b] == y);
                    } else {
                        assert(y == x@);
                        assert(post[i as int] == y);
                    }
                }
                if post.contains(y) && in_all(lv, y) {
                    let b = choose|b: int| 0 <= b < post.len() && #[trigger] post[b] == y;
                    if b < i {
                        assert(pre[b] == y);
                        assert(pre.contains(y));
                        assert(views(old_out).contains(y));
                        let a = choose|a: int| 0 <= a < views(old_out).len() && #[trigger] views(old_out)[a] == y;
                        assert(views(out@)[a] == y);
                    } else {
                        assert(y == x@);
                        assert(all);
                        assert(views(out@)[views(out@).len() - 1] == y);
                    }
                }
            }
        }
        i = i + 1;
    }
    proof {
        assert(views(first@).subrange(0, first@.len() as int) =~= views(first@));
        assert forall|x: Seq<char>| views(out@).contains(x) <==> (lists@.len() > 0 && in_all(list_views(lists@), x)) by {
            if in_all(lv, x) {
                assert(lv[0].contains(x));
                assert(lv[0] == views(lists@[0]@));
            }
        }
    }
    out
}

/// Number of the first `n` entries equal to `x`.
pub open spec fn count_equal(v: Seq<Seq<char>>, x: Seq<char>, n: nat) -> nat
    decreases n,
{
    if n == 0 {
        0
    } else {
        count_equal(v, x, (n - 1) as nat) + if v[n - 1] == x {
            1nat
        } else {
            0nat
        }
    }
}

/// The held-out target was not found exactly once.
#[derive(Debug, PartialEq, Eq)]
pub struct TargetMatchError {
    pub matches: usize,
}

/// Index of the single timestamp equal to `target` in a de-duplicated list.
pub fn holdout_index(timestamps: &Vec<String>, target: &str) -> (r: Result<usize, TargetMatchError>)
    ensures
        r is Ok <==> count_equal(views(timestamps@), target@, timestamps@.len()) == 1,
        r matches Ok(i) ==> i < timestamps@.len() && timestamps@[i as int]@ == target@,
        r matches Err(e) ==> e.matches == count_equal(views(timestamps@), target@, timestamps@.len()),
{
    let mut count: usize = 0;
    let mut found: usize = 0;
    let mut i: usize = 0;
    while i < timestamps.len()
        invariant
            i <= timestamps@.len(),
            count == count_equal(views(timestamps@), target@, i as nat),
            count <= i,
            count > 0 ==> found < i && timestamps@[found as int]@ == target@,
        decreases timestamps@.len() - i,
    {
        if str_equal(timestamps[i].as_str(), target) {
            count = count + 1;
            found = i;
        }
        i = i + 1;
    }
    if count != 1 {
        return Err(TargetMatchError { matches: count });
    }
    Ok(found)
}

/// The timestamps with the entry at `idx` removed.
pub fn timestamps_without(timestamps: &Vec<String>, idx: usize) -> (r: Vec<String>)
    requires
        idx < timestamps@.len(),
    ensures
        r@ == timestamps@.remove(idx as int),
{
    let mut out: Vec<String> = Vec::new();
    let mut i: usize = 0;
    while i < timestamps.len()
        invariant
            i <= timestamps@.len(),
            idx < timestamps@.len(),
            out@ == (if i <= idx { timestamps@.subrange(0, i as int) } else { timestamps@.remove(idx as int).subrange(0, i - 1) }),
        decreases timestamps@.len() - i,
    {
        if i != idx {
            out.push(timestamps[i].clone());
        }
        i = i + 1;
        assert(out@ =~= (if i <= idx { timestamps@.subrange(0, i as int) } else { timestamps@.remove(idx as int).subrange(0, i - 1) }));
    }
    assert(timestamps@.remove(idx as int).subrange(0, timestamps@.len() - 1) =~= timestamps@.remove(idx as int));
    out
}

/// Latest index `< n` whose flag is set.
pub open spec fn latest_passing(passes: Seq<bool>, n: int) -> Option<int>
    decreases n,
{
    if n <= 0 {
        None
    } else if passes[n - 1] {
        Some(n - 1)
    } else {
        latest_passing(passes, n - 1)
    }
}

/// Latest passing index in `lo..n`.
pub open spec fn latest_passing_from(passes: Seq<bool>, lo: int, n: int) -> Option<int>
    decreases n - lo,
{
    if n <= lo {
        None
    } else if passes[n - 1] {
        Some(n - 1)
    } else {
        latest_passing_from(passes, lo, n - 1)
    }
}

/// Index of the target among candidates in ascending order, given which of
/// them pass the completeness threshold: the latest passing one among the
/// last `tail_len`, else the latest passing one before them.
pub fn pick_target_index(passes: &Vec<bool>, tail_len: usize) -> (r: Option<usize>)
    requires
        1 <= tail_len <= passes@.len(),
    ensures
        r == (match latest_passing_from(passes@, passes@.len() - tail_len, passes@.len() as int) {
            Some(i) => Some(i as usize),
            None => match latest_passing(passes@, passes@.len() - tail_len) {
                Some(i) => Some(i as usize),
                None => None::<usize>,
            },
        }),
{
    let n = passes.len();
    let lo = n - tail_len;
    let mut k = n;
    while k > lo
        invariant
            lo <= k <= n,
            n == passes@.len(),
            lo == n - tail_len,
            latest_passing_from(passes@, lo as int, n as int) == latest_passing_from(passes@, lo as int, k as int),
        ensures
            k == lo,
            latest_passing_from(passes@, lo as int, n as int) is None,
        decreases k,
    {
        if passes[k - 1] {
            return Some(k - 1);
        }
        k = k - 1;
    }
    let mut k = lo;
    while k > 0
        invariant
            k <= lo,
            lo <= passes@.len(),
            lo == passes@.len() - tail_len,
            latest_passing_from(passes@, lo as int, passes@.len() as int) is None,
            latest_passing(passes@, lo as int) == latest_passing(passes@, k as int),
        decreases k,
    {
        if passes[k - 1] {
            return Some(k - 1);
        }
        k = k - 1;
    }
    None
}

proof fn lemma_indices_of_members(v: Seq<Seq<char>>, x: Seq<char>, n: nat, k: int)
    requires
        n <= v.len(),
        v.len() <= usize::MAX,
        0 <= k < v.len(),
    ensures
        indices_of(v, x, n).contains(k as usize) <==> (k < n && v[k] == x),
    decreases n,
{
    if n > 0 {
        lemma_indices_of_members(v, x, (n - 1) as nat, k);
        let prev = indices_of(v, x, (n - 1) as nat);
        if v[n - 1] == x {
            assert(prev.push((n - 1) as usize).contains(k as usize) <==> (prev.contains(k as usize) || k as usize
                == (n - 1) as usize)) by {
                if prev.push((n - 1) as usize).contains(k as usize) {
                    let pp = prev.push((n - 1) as usize);
                    let w = choose|w: int| 0 <= w < pp.len() && #[trigger] pp[w] == k as usize;
                    if w < prev.len() {
                        assert(prev[w] == k as usize);
                    }
                }
                if prev.contains(k as usize) {
                    let w = choose|w: int| 0 <= w < prev.len() && #[trigger] prev[w] == k as usize;
                    assert(prev.push((n - 1) as usize)[w] == k as usize);
                }
                if k as usize == (n - 1) as usize {
                    assert(prev.push((n - 1) as usize)[prev.len() as int] == (n - 1) as usize);
                }
            }
        }
    }
}

/// A slice index lies in the index list of its own timestamp and of no
/// other: with the distinct timestamps of `group_duplicate_timestamps`, the
/// groups partition the slices.
pub proof fn lemma_index_in_own_group(timestamps: Seq<Seq<char>>, x: Seq<char>, k: int)
    requires
        timestamps.len() <= usize::MAX,
        0 <= k < timestamps.len(),
    ensures
        indices_of(timestamps, x, timestamps.len()).contains(k as usize) <==> timestamps[k] == x,
{
    lemma_indices_of_members(timestamps, x, timestamps.len(), k);
}

proof fn lemma_count_equal_two(v: Seq<Seq<char>>, x: Seq<char>, n: nat, i: int, j: int)
    requires
        n <= v.len(),
        0 <= i < j < n,
        v[i] == x,
        v[j] == x,
    ensures
        count_equal(v, x, n) >= 2,
    decreases n,
{
    if j < n - 1 {
        lemma_count_equal_two(v, x, (n - 1) as nat, i, j);
    } else {
        lemma_count_equal_one(v, x, (n - 1) as nat, i);
    }
}

proof fn lemma_count_equal_one(v: Seq<Seq<char>>, x: Seq<char>, n: nat, i: int)
    requires
        n <= v.len(),
        0 <= i < n,
        v[i] == x,
    ensures
        count_equal(v, x, n) >= 1,
    decreases n,
{
    if i < n - 1 {
        lemma_count_equal_one(v, x, (n - 1) as nat, i);
    }
}

/// Once the target occurs exactly once, the timestamps left after holding
/// it out no longer contain it.
pub proof fn lemma_holdout_removes_target(timestamps: Seq<String>, target: Seq<char>, i: int)
    requires
        count_equal(views(timestamps), target, timestamps.len()) == 1,
        0 <= i < timestamps.len(),
        timestamps[i]@ == target,
    ensures
        timestamps.remove(i).len() == timestamps.len() - 1,
        forall|k: int| 0 <= k < timestamps.remove(i).len() ==> (#[trigger] timestamps.remove(i)[k])@ != target,
{
    let v = views(timestamps);
    assert forall|k: int| 0 <= k < timestamps.remove(i).len() implies (#[trigger] timestamps.remove(i)[k])@
        != target by {
        let j = if k < i { k } else { k + 1 };
        assert(timestamps.remove(i)[k] == timestamps[j]);
        if timestamps[j]@ == target {
            assert(v[i] == target && v[j] == target);
            if i < j {
                lemma_count_equal_two(v, target, timestamps.len(), i, j);
            } else {
                lemma_count_equal_two(v, target, timestamps.len(), j, i);
            }
        }
    }
}

proof fn lemma_latest_split(passes: Seq<bool>, lo: int, n: int)
    requires
        0 <= lo <= n,
    ensures
        latest_passing(passes, n) == (match latest_passing_from(passes, lo, n) {
            Some(i) => Some(i),
            None => latest_passing(passes, lo),
        }),
    decreases n - lo,
{
    if n > lo {
        lemma_latest_split(passes, lo, n - 1);
    }
}

/// `latest_passing(passes, n)` is the last index below `n` whose flag is
/// set, or none when no flag below `n` is set.
pub proof fn lemma_latest_passing_is_last(passes: Seq<bool>, n: int)
    requires
        0 <= n <= passes.len(),
    ensures
        latest_passing(passes, n) matches Some(i) ==> 0 <= i < n && passes[i] && forall|j: int|
            i < j < n ==> !(#[trigger] passes[j]),
        latest_passing(passes, n) is None ==> forall|j: int| 0 <= j < n ==> !(#[trigger] passes[j]),
    decreases n,
{
    if n > 0 {
        lemma_latest_passing_is_last(passes, n - 1);
    }
}

/// The target picked among the candidates is the latest one that passes,
/// whatever the length of the preferred tail.
pub proof fn lemma_pick_is_latest_passing(passes: Seq<bool>, tail_len: int)
    requires
        1 <= tail_len <= passes.len(),
    ensures
        (match latest_passing_from(passes, passes.len() - tail_len, passes.len() as int) {
            Some(i) => Some(i),
            None => latest_passing(passes, passes.len() - tail_len),
        }) == latest_passing(passes, passes.len() as int),
{
    lemma_latest_split(passes, passes.len() - tail_len, passes.len() as int);
}

/// Number of sampled cells `j * step` (`j < k`) of row `r` that are valid,
/// in a row-major mask of width `cols`.
pub open spec fn row_sampled_valid(valid: Seq<bool>, cols: int, step: int, r: int, k: nat) -> nat
    decreases k,
{
    if k == 0 {
        0
    } else {
        row_sampled_valid(valid, cols, step, r, (k - 1) as nat) + if valid[r * cols + (k - 1) * step] {
            1nat
        } else {
            0nat
        }
    }
}

/// Number of valid cells on the sampled grid of the first `m` sampled rows,
/// with `kc` sampled columns per row.
pub open spec fn grid_sampled_valid(valid: Seq<bool>, cols: int, step: int, kc: nat, m: nat) -> nat
    decreases m,
{
    if m == 0 {
        0
    } else {
        grid_sampled_valid(valid, cols, step, kc, (m - 1) as nat) + row_sampled_valid(
            valid,
            cols,
            step,
            (m - 1) * step,
            kc,
        )
    }
}

/// Number of multiples of `step` below `n`.
pub open spec fn sampled_len(n: int, step: int) -> int {
    (n + step - 1) / step
}

proof fn lemma_sampled_len(n: int, step: int, j: int)
    requires
        step > 0,
        n >= 0,
        0 <= j,
    ensures
        j < sampled_len(n, step) <==> j * step < n,
        sampled_len(n, step) >= 0,
{
    assert(j < (n + step - 1) / step <==> j * step < n) by (nonlinear_arith)
        requires
            step > 0,
            n >= 0,
            j >= 0,
    ;
    assert((n + step - 1) / step >= 0) by (nonlinear_arith)
        requires
            step > 0,
            n >= 0,
    ;
}

proof fn lemma_cell_index(rows: int, cols: int, r: int, c: int)
    requires
        0 <= r < rows,
        0 <= c < cols,
    ensures
        0 <= r * cols + c < rows * cols,
{
    assert(0 <= r * cols + c < rows * cols) by (nonlinear_arith)
        requires
            0 <= r < rows,
            0 <= c < cols,
    ;
}

/// Cell `(r, j * step)` of a row-major mask of width `cols`.
pub open spec fn row_cell(valid: Seq<bool>, cols: int, step: int, r: int, j: int) -> bool {
    valid[r * cols + j * step]
}

/// Sampled cell `(i * step, j * step)` of a row-major mask of width `cols`.
pub open spec fn sampled_cell(valid: Seq<bool>, cols: int, step: int, i: int, j: int) -> bool {
    row_cell(valid, cols, step, i * step, j)
}

proof fn lemma_row_frame(v1: Seq<bool>, v2: Seq<bool>, cols: int, step: int, r: int, k: nat)
    requires
        forall|j: int| 0 <= j < k ==> #[trigger] row_cell(v1, cols, step, r, j) == row_cell(v2, cols, step, r, j),
    ensures
        row_sampled_valid(v1, cols, step, r, k) == row_sampled_valid(v2, cols, step, r, k),
    decreases k,
{
    if k > 0 {
        lemma_row_frame(v1, v2, cols, step, r, (k - 1) as nat);
        assert(row_cell(v1, cols, step, r, k - 1) == row_cell(v2, cols, step, r, k - 1));
    }
}

proof fn lemma_row_extremes(v: Seq<bool>, cols: int, step: int, r: int, k: nat)
    ensures
        row_sampled_valid(v, cols, step, r, k) <= k,
        (forall|j: int| 0 <= j < k ==> #[trigger] row_cell(v, cols, step, r, j)) ==> row_sampled_valid(
            v,
            cols,
            step,
            r,
            k,
        ) == k,
        (forall|j: int| 0 <= j < k ==> !#[trigger] row_cell(v, cols, step, r, j)) ==> row_sampled_valid(
            v,
            cols,
            step,
            r,
            k,
        ) == 0,
    decreases k,
{
    if k > 0 {
        lemma_row_extremes(v, cols, step, r, (k - 1) as nat);
        if forall|j: int| 0 <= j < k ==> #[trigger] row_cell(v, cols, step, r, j) {
            assert(row_cell(v, cols, step, r, k - 1));
        }
        if forall|j: int| 0 <= j < k ==> !#[trigger] row_cell(v, cols, step, r, j) {
            assert(!row_cell(v, cols, step, r, k - 1));
        }
    }
}

proof fn lemma_row_increment(v1: Seq<bool>, v2: Seq<bool>, cols: int, step: int, r: int, k: nat, j0: int)
    requires
        0 <= j0 < k,
        !row_cell(v1, cols, step, r, j0),
        row_cell(v2, cols, step, r, j0),
        forall|j: int| 0 <= j < k && j != j0 ==> #[trigger] row_cell(v1, cols, step, r, j) == row_cell(v2, cols, step, r, j),
    ensures
        row_sampled_valid(v2, cols, step, r, k) == row_sampled_valid(v1, cols, step, r, k) + 1,
    decreases k,
{
    if j0 == k - 1 {
        lemma_row_frame(v1, v2, cols, step, r, (k - 1) as nat);
    } else {
        lemma_row_increment(v1, v2, cols, step, r, (k - 1) as nat, j0);
        assert(row_cell(v1, cols, step, r, k - 1) == row_cell(v2, cols, step, r, k - 1));
    }
}

proof fn lemma_grid_frame(v1: Seq<bool>, v2: Seq<bool>, cols: int, step: int, kc: nat, m: nat)
    requires
        forall|i: int, j: int|
            0 <= i < m && 0 <= j < kc ==> #[trigger] sampled_cell(v1, cols, step, i, j) == sampled_cell(v2, cols, step, i, j),
    ensures
        grid_sampled_valid(v1, cols, step, kc, m) == grid_sampled_valid(v2, cols, step, kc, m),
    decreases m,
{
    if m > 0 {
        lemma_grid_frame(v1, v2, cols, step, kc, (m - 1) as nat);
        assert forall|j: int| 0 <= j < kc implies #[trigger] row_cell(v1, cols, step, (m - 1) * step, j) == row_cell(
            v2,
            cols,
            step,
            (m - 1) * step,
            j,
        ) by {
            assert(sampled_cell(v1, cols, step, m - 1, j) == sampled_cell(v2, cols, step, m - 1, j));
        }
        lemma_row_frame(v1, v2, cols, step, (m - 1) * step, kc);
    }
}

proof fn lemma_grid_extremes(v: Seq<bool>, cols: int, step: int, kc: nat, m: nat)
    ensures
        grid_sampled_valid(v, cols, step, kc, m) <= m * kc,
        (forall|i: int, j: int| 0 <= i < m && 0 <= j < kc ==> #[trigger] sampled_cell(v, cols, step, i, j))
            ==> grid_sampled_valid(v, cols, step, kc, m) == m * kc,
        (forall|i: int, j: int| 0 <= i < m && 0 <= j < kc ==> !#[trigger] sampled_cell(v, cols, step, i, j))
            ==> grid_sampled_valid(v, cols, step, kc, m) == 0,
    decreases m,
{
    if m > 0 {
        lemma_grid_extremes(v, cols, step, kc, (m - 1) as nat);
        let r = (m - 1) * step;
        lemma_row_extremes(v, cols, step, r, kc);
        assert((m - 1) * kc + kc == m * kc) by (nonlinear_arith);
        if forall|i: int, j: int| 0 <= i < m && 0 <= j < kc ==> #[trigger] sampled_cell(v, cols, step, i, j) {
            assert forall|j: int| 0 <= j < kc implies #[trigger] row_cell(v, cols, step, r, j) by {
                assert(sampled_cell(v, cols, step, m - 1, j));
            }
        }
        if forall|i: int, j: int| 0 <= i < m && 0 <= j < kc ==> !#[trigger] sampled_cell(v, cols, step, i, j) {
            assert forall|j: int| 0 <= j < kc implies !#[trigger] row_cell(v, cols, step, r, j) by {
                assert(!sampled_cell(v, cols, step, m - 1, j));
            }
        }
    }
}

proof fn lemma_grid_increment(v1: Seq<bool>, v2: Seq<bool>, cols: int, step: int, kc: nat, m: nat, i0: int, j0: int)
    requires
        0 <= i0 < m,
        0 <= j0 < kc,
        !sampled_cell(v1, cols, step, i0, j0),
        sampled_cell(v2, cols, step, i0, j0),
        forall|i: int, j: int|
            0 <= i < m && 0 <= j < kc && (i != i0 || j != j0) ==> #[trigger] sampled_cell(v1, cols, step, i, j)
                == sampled_cell(v2, cols, step, i, j),
    ensures
        grid_sampled_valid(v2, cols, step, kc, m) == grid_sampled_valid(v1, cols, step, kc, m) + 1,
    decreases m,
{
    let r = (m - 1) * step;
    if i0 == m - 1 {
        lemma_grid_frame(v1, v2, cols, step, kc, (m - 1) as nat);
        assert forall|j: int| 0 <= j < kc && j != j0 implies #[trigger] row_cell(v1, cols, step, r, j) == row_cell(
            v2,
            cols,
            step,
            r,
            j,
        ) by {
            assert(sampled_cell(v1, cols, step, m - 1, j) == sampled_cell(v2, cols, step, m - 1, j));
        }
        assert(!row_cell(v1, cols, step, r, j0) && row_cell(v2, cols, step, r, j0)) by {
            assert(!sampled_cell(v1, cols, step, i0, j0) && sampled_cell(v2, cols, step, i0, j0));
        }
        lemma_row_increment(v1, v2, cols, step, r, kc, j0);
    } else {
        lemma_grid_increment(v1, v2, cols, step, kc, (m - 1) as nat, i0, j0);
        assert forall|j: int| 0 <= j < kc implies #[trigger] row_cell(v1, cols, step, r, j) == row_cell(
            v2,
            cols,
            step,
            r,
            j,
        ) by {
            assert(sampled_cell(v1, cols, step, m - 1, j) == sampled_cell(v2, cols, step, m - 1, j));
        }
        lemma_row_frame(v1, v2, cols, step, r, kc);
    }
}

/// Valid count of the sampled grid of a `rows x cols` mask.
pub open spec fn sampled_grid_count(valid: Seq<bool>, rows: int, cols: int, step: int) -> nat {
    grid_sampled_valid(
        valid,
        cols,
        step,
        sampled_len(cols, step) as nat,
        sampled_len(rows, step) as nat,
    )
}

/// The sampled count of a mask depends only on the cells whose row and
/// column are both multiples of `step` (counted from 0): two masks that
/// agree there have the same count.
pub proof fn lemma_sampled_count_reads_sampled_cells(v1: Seq<bool>, v2: Seq<bool>, rows: int, cols: int, step: int)
    requires
        step > 0,
        rows >= 0,
        cols >= 0,
        forall|i: int, j: int|
            0 <= i && i * step < rows && 0 <= j && j * step < cols ==> #[trigger] sampled_cell(v1, cols, step, i, j)
                == sampled_cell(v2, cols, step, i, j),
    ensures
        sampled_grid_count(v1, rows, cols, step) == sampled_grid_count(v2, rows, cols, step),
{
    let kc = sampled_len(cols, step);
    let m = sampled_len(rows, step);
    lemma_sampled_len(cols, step, 0);
    lemma_sampled_len(rows, step, 0);
    assert forall|i: int, j: int| 0 <= i < m && 0 <= j < kc implies #[trigger] sampled_cell(v1, cols, step, i, j)
        == sampled_cell(v2, cols, step, i, j) by {
        lemma_sampled_len(rows, step, i);
        lemma_sampled_len(cols, step, j);
    }
    lemma_grid_frame(v1, v2, cols, step, kc as nat, m as nat);
}

/// The sampled count counts each sampled cell once: it is the number of
/// sampled cells, `sampled_len(rows) * sampled_len(cols)`, when all of them
/// are valid, 0 when none is, never more than that number, and it grows by
/// exactly one when a single invalid sampled cell becomes valid.
pub proof fn lemma_sampled_count_counts_cells(
    v1: Seq<bool>,
    v2: Seq<bool>,
    rows: int,
    cols: int,
    step: int,
    i0: int,
    j0: int,
)
    requires
        step > 0,
        rows >= 0,
        cols >= 0,
    ensures
        sampled_grid_count(v1, rows, cols, step) <= sampled_len(rows, step) * sampled_len(cols, step),
        (forall|i: int, j: int|
            0 <= i && i * step < rows && 0 <= j && j * step < cols ==> #[trigger] sampled_cell(v1, cols, step, i, j))
            ==> sampled_grid_count(v1, rows, cols, step) == sampled_len(rows, step) * sampled_len(cols, step),
        (forall|i: int, j: int|
            0 <= i && i * step < rows && 0 <= j && j * step < cols ==> !#[trigger] sampled_cell(v1, cols, step, i, j))
            ==> sampled_grid_count(v1, rows, cols, step) == 0,
        (0 <= i0 && i0 * step < rows && 0 <= j0 && j0 * step < cols && !sampled_cell(v1, cols, step, i0, j0)
            && sampled_cell(v2, cols, step, i0, j0) && (forall|i: int, j: int|
            0 <= i && i * step < rows && 0 <= j && j * step < cols && (i != i0 || j != j0)
                ==> #[trigger] sampled_cell(v1, cols, step, i, j) == sampled_cell(v2, cols, step, i, j)))
            ==> sampled_grid_count(v2, rows, cols, step) == sampled_grid_count(v1, rows, cols, step) + 1,
{
    let kc = sampled_len(cols, step);
    let m = sampled_len(rows, step);
    lemma_sampled_len(cols, step, 0);
    lemma_sampled_len(rows, step, 0);
    lemma_grid_extremes(v1, cols, step, kc as nat, m as nat);
    if forall|i: int, j: int|
        0 <= i && i * step < rows && 0 <= j && j * step < cols ==> #[trigger] sampled_cell(v1, cols, step, i, j) {
        assert forall|i: int, j: int| 0 <= i < m && 0 <= j < kc implies #[trigger] sampled_cell(v1, cols, step, i, j) by {
            lemma_sampled_len(rows, step, i);
            lemma_sampled_len(cols, step, j);
        }
    }
    if forall|i: int, j: int|
        0 <= i && i * step < rows && 0 <= j && j * step < cols ==> !#[trigger] sampled_cell(v1, cols, step, i, j) {
        assert forall|i: int, j: int| 0 <= i < m && 0 <= j < kc implies !#[trigger] sampled_cell(v1, cols, step, i, j) by {
            lemma_sampled_len(rows, step, i);
            lemma_sampled_len(cols, step, j);
        }
    }
    if 0 <= i0 && i0 * step < rows && 0 <= j0 && j0 * step < cols && !sampled_cell(v1, cols, step, i0, j0)
        && sampled_cell(v2, cols, step, i0, j0) && (forall|i: int, j: int|
        0 <= i && i * step < rows && 0 <= j && j * step < cols && (i != i0 || j != j0)
            ==> #[trigger] sampled_cell(v1, cols, step, i, j) == sampled_cell(v2, cols, step, i, j)) {
        lemma_sampled_len(rows, step, i0);
        lemma_sampled_len(cols, step, j0);
        assert forall|i: int, j: int| 0 <= i < m && 0 <= j < kc && (i != i0 || j != j0) implies #[trigger] sampled_cell(
            v1,
            cols,
            step,
            i,
            j,
        ) == sampled_cell(v2, cols, step, i, j) by {
            lemma_sampled_len(rows, step, i);
            lemma_sampled_len(cols, step, j);
        }
        lemma_grid_increment(v1, v2, cols, step, kc as nat, m as nat, i0, j0);
    }
}

fn sampled_count(n: usize, step: usize) -> (k: usize)
    requires
        step > 0,
    ensures
        k == sampled_len(n as int, step as int),
        k <= n,
{
    let k = if n == 0 { 0 } else { (n - 1) / step + 1 };
    proof {
        assert(k == sampled_len(n as int, step as int) && k <= n) by (nonlinear_arith)
            requires
                k as int == (if n == 0 { 0int } else { (n as int - 1) / (step as int) + 1 }),
                step > 0,
        ;
    }
    k
}

fn row_sampled_count(valid: &[bool], rows: usize, cols: usize, step: usize, r: usize) -> (n: usize)
    requires
        step > 0,
        valid@.len() == rows * cols,
        r < rows,
    ensures
        n == row_sampled_valid(valid@, cols as int, step as int, r as int, sampled_len(cols as int, step as int) as nat),
        n <= cols,
{
    let total_len = valid.len();
    let kc = sampled_count(cols, step);
    let mut n: usize = 0;
    let mut k: usize = 0;
    while k < kc
        invariant
            step > 0,
            total_len == valid@.len(),
            valid@.len() == rows * cols,
            r < rows,
            kc == sampled_len(cols as int, step as int),
            kc <= cols,
            k <= kc,
            n <= k,
            n == row_sampled_valid(valid@, cols as int, step as int, r as int, k as nat),
        decreases kc - k,
    {
        proof {
            lemma_sampled_len(cols as int, step as int, k as int);
            assert(k * step < cols);
            lemma_cell_index(rows as int, cols as int, r as int, (k * step) as int);
        }
        let c = k * step;
        if valid[r * cols + c] {
            n = n + 1;
        }
        k = k + 1;
    }
    n
}

/// Valid and total cells of the grid of rows and columns that are multiples
/// of `step`, in a row-major `rows x cols` mask: the sampling by which the
/// completeness of a candidate time slice is scored.
pub fn sampled_valid_counts(valid: &[bool], rows: usize, cols: usize, step: usize) -> (r: (usize, usize))
    requires
        step > 0,
        valid@.len() == rows * cols,
    ensures
        r.0 == grid_sampled_valid(
            valid@,
            cols as int,
            step as int,
            sampled_len(cols as int, step as int) as nat,
            sampled_len(rows as int, step as int) as nat,
        ),
        r.1 == sampled_len(rows as int, step as int) * sampled_len(cols as int, step as int),
        r.0 == sampled_grid_count(valid@, rows as int, cols as int, step as int),
{
    let total_len = valid.len();
    let kr = sampled_count(rows, step);
    let kc = sampled_count(cols, step);
    let mut finite: usize = 0;
    let mut i: usize = 0;
    while i < kr
        invariant
            step > 0,
            total_len == valid@.len(),
            valid@.len() == rows * cols,
            kr == sampled_len(rows as int, step as int),
            kc == sampled_len(cols as int, step as int),
            kr <= rows,
            kc <= cols,
            i <= kr,
            finite <= i * cols,
            finite == grid_sampled_valid(valid@, cols as int, step as int, kc as nat, i as nat),
        decreases kr - i,
    {
        proof {
            lemma_sampled_len(rows as int, step as int, i as int);
            assert(i * step < rows);
            assert(i * cols + cols <= rows * cols) by (nonlinear_arith)
                requires
                    i < rows,
                    cols >= 0,
            ;
            assert(i * cols + cols == (i + 1) * cols) by (nonlinear_arith);
        }
        let n = row_sampled_count(valid, rows, cols, step, i * step);
        finite = finite + n;
        i = i + 1;
    }
    proof {
        assert(kr * kc <= rows * cols) by (nonlinear_arith)
            requires
                kr <= rows,
                kc <= cols,
        ;
    }
    (finite, kr * kc)
}

} // verus!

//! Order statistics over sequences of integers: what it means for a value to
//! be the element of rank `k`, and the facts about ranks that selection needs.
use vstd::prelude::*;

verus! {

/// The number of elements of `s` that are strictly smaller than `x`.
pub open spec fn count_lt(s: Seq<i32>, x: i32) -> nat
    decreases s.len(),
{
    if s.len() == 0 {
        0
    } else {
        count_lt(s.drop_last(), x) + (if s.last() < x { 1nat } else { 0nat })
    }
}

/// The number of elements of `s` that are smaller than or equal to `x`.
pub open spec fn count_le(s: Seq<i32>, x: i32) -> nat
    decreases s.len(),
{
    if s.len() == 0 {
        0
    } else {
        count_le(s.drop_last(), x) + (if s.last() <= x { 1nat } else { 0nat })
    }
}

/// `x` is the `k`-th smallest element of `s` (zero-based): it is the value that
/// would stand at index `k` if `s` were sorted ascending. Exactly `k` slots of
/// the sorted order lie before it, so fewer than `k + 1` elements are below `x`
/// and more than `k` elements are at most `x`.
pub open spec fn is_kth_smallest(s: Seq<i32>, k: int, x: i32) -> bool {
    count_lt(s, x) <= k < count_le(s, x)
}

/// Index `k` of `s` splits it: nothing before `k` is above `s[k]`, nothing
/// after `k` is below it.
pub open spec fn partitioned_at(s: Seq<i32>, k: int) -> bool {
    &&& 0 <= k < s.len()
    &&& forall|i: int| 0 <= i < k ==> #[trigger] s[i] <= s[k]
    &&& forall|j: int| k < j < s.len() ==> s[k] <= #[trigger] s[j]
}

/// Every element of `s` is at least `x`.
pub open spec fn all_ge(s: Seq<i32>, x: i32) -> bool {
    forall|i: int| 0 <= i < s.len() ==> x <= #[trigger] s[i]
}

/// Every element of `s` is at most `x`.
pub open spec fn all_le(s: Seq<i32>, x: i32) -> bool {
    forall|i: int| 0 <= i < s.len() ==> #[trigger] s[i] <= x
}

/// `t` holds the same elements as `s`, with the same multiplicities.
pub open spec fn same_elements(s: Seq<i32>, t: Seq<i32>) -> bool {
    s.to_multiset() == t.to_multiset()
}

/// Counting distributes over concatenation.
pub proof fn lemma_count_concat(a: Seq<i32>, b: Seq<i32>, x: i32)
    ensures
        count_lt(a + b, x) == count_lt(a, x) + count_lt(b, x),
        count_le(a + b, x) == count_le(a, x) + count_le(b, x),
    decreases b.len(),
{
    if b.len() == 0 {
        assert(a + b =~= a);
    } else {
        lemma_count_concat(a, b.drop_last(), x);
        assert((a + b).drop_last() =~= a + b.drop_last());
    }
}

proof fn lemma_count_single(v: i32, x: i32)
    ensures
        count_lt(seq![v], x) == (if v < x { 1nat } else { 0nat }),
        count_le(seq![v], x) == (if v <= x { 1nat } else { 0nat }),
{
    let e = Seq::<i32>::empty();
    assert(seq![v].drop_last() =~= e);
    assert(count_lt(e, x) == 0 && count_le(e, x) == 0);
    assert(seq![v].last() == v);
}

proof fn lemma_count_remove(s: Seq<i32>, i: int, x: i32)
    requires
        0 <= i < s.len(),
    ensures
        count_lt(s, x) == count_lt(s.remove(i), x) + (if s[i] < x { 1nat } else { 0nat }),
        count_le(s, x) == count_le(s.remove(i), x) + (if s[i] <= x { 1nat } else { 0nat }),
{
    let a = s.subrange(0, i);
    let b = s.subrange(i + 1, s.len() as int);
    assert(s =~= a + seq![s[i]] + b);
    assert(s.remove(i) =~= a + b);
    lemma_count_concat(a + seq![s[i]], b, x);
    lemma_count_concat(a, seq![s[i]], x);
    lemma_count_concat(a, b, x);
    lemma_count_single(s[i], x);
}

/// Counts below and up to a value depend on the elements alone, not on their order.
pub proof fn lemma_count_same_elements(s: Seq<i32>, t: Seq<i32>, x: i32)
    requires
        same_elements(s, t),
    ensures
        count_lt(s, x) == count_lt(t, x),
        count_le(s, x) == count_le(t, x),
    decreases s.len(),
{
    broadcast use vstd::seq_lib::group_to_multiset_ensures;

    if s.len() == 0 {
        assert(t.to_multiset().len() == 0);
        assert(t =~= Seq::<i32>::empty());
    } else {
        let a = s.last();
        let s1 = s.drop_last();
        assert(s =~= s1.push(a));
        assert(s.to_multiset() == s1.to_multiset().insert(a));
        assert(t.to_multiset().count(a) > 0);
        assert(t.contains(a));
        let i = choose|i: int| 0 <= i < t.len() && t[i] == a;
        let t1 = t.remove(i);
        assert(t1.to_multiset() == t.to_multiset().remove(a));
        assert(s1.to_multiset() =~= s1.to_multiset().insert(a).remove(a)) by {
            broadcast use vstd::multiset::group_multiset_axioms;
        }
        lemma_count_same_elements(s1, t1, x);
        lemma_count_remove(t, i, x);
    }
}

proof fn lemma_count_bounds(s: Seq<i32>, x: i32)
    ensures
        count_lt(s, x) <= count_le(s, x) <= s.len(),
        count_lt(s, x) == 0 <==> all_ge(s, x),
        count_le(s, x) == s.len() <==> all_le(s, x),
        count_lt(s, x) < count_le(s, x) ==> s.contains(x),
    decreases s.len(),
{
    if s.len() > 0 {
        let s1 = s.drop_last();
        lemma_count_bounds(s1, x);
        if all_ge(s, x) {
            assert(all_ge(s1, x));
        }
        if all_le(s, x) {
            assert(all_le(s1, x));
        }
        if count_lt(s, x) == 0 {
            assert forall|i: int| 0 <= i < s.len() implies x <= s[i] by {
                if i < s.len() - 1 {
                    assert(s[i] == s1[i]);
                }
            }
        }
        if count_le(s, x) == s.len() {
            assert forall|i: int| 0 <= i < s.len() implies s[i] <= x by {
                if i < s.len() - 1 {
                    assert(s[i] == s1[i]);
                }
            }
        }
        if count_lt(s, x) < count_le(s, x) {
            if s.last() != x {
                let j = choose|j: int| 0 <= j < s1.len() && s1[j] == x;
                assert(s[j] == x);
            } else {
                assert(s[s.len() - 1] == x);
            }
        }
    }
}

proof fn lemma_count_monotone(s: Seq<i32>, x: i32, y: i32)
    requires
        x < y,
    ensures
        count_le(s, x) <= count_lt(s, y),
    decreases s.len(),
{
    if s.len() > 0 {
        lemma_count_monotone(s.drop_last(), x, y);
    }
}

/// A sequence has at most one element of each rank.
pub proof fn lemma_kth_unique(s: Seq<i32>, k: int, x: i32, y: i32)
    requires
        is_kth_smallest(s, k, x),
        is_kth_smallest(s, k, y),
    ensures
        x == y,
{
    if x < y {
        lemma_count_monotone(s, x, y);
    } else if y < x {
        lemma_count_monotone(s, y, x);
    }
}

/// The rank of a value is a property of the elements, not of their order.
pub proof fn lemma_kth_same_elements(s: Seq<i32>, t: Seq<i32>, k: int, x: i32)
    requires
        same_elements(s, t),
    ensures
        is_kth_smallest(s, k, x) <==> is_kth_smallest(t, k, x),
{
    lemma_count_same_elements(s, t, x);
}

/// The element at a split index has that index as its rank.
pub proof fn lemma_partitioned_kth(s: Seq<i32>, k: int)
    requires
        partitioned_at(s, k),
    ensures
        is_kth_smallest(s, k, s[k]),
{
    let x = s[k];
    let a = s.subrange(0, k);
    let b = s.subrange(k + 1, s.len() as int);
    assert(s =~= a + seq![x] + b);
    lemma_count_concat(a + seq![x], b, x);
    lemma_count_concat(a, seq![x], x);
    lemma_count_single(x, x);
    lemma_count_bounds(a, x);
    lemma_count_bounds(b, x);
    assert(all_le(a, x)) by {
        assert forall|i: int| 0 <= i < a.len() implies a[i] <= x by {
            assert(a[i] == s[i]);
        }
    }
    assert(all_ge(b, x)) by {
        assert forall|i: int| 0 <= i < b.len() implies x <= b[i] by {
            assert(b[i] == s[k + 1 + i]);
        }
    }
}

/// The element of rank zero is the minimum: it occurs in the sequence and no
/// element is smaller.
pub proof fn lemma_first_rank_is_minimum(s: Seq<i32>, x: i32)
    requires
        is_kth_smallest(s, 0, x),
    ensures
        s.contains(x),
        all_ge(s, x),
{
    lemma_count_bounds(s, x);
}

/// The element of the last rank is the maximum: it occurs in the sequence and
/// no element is greater.
pub proof fn lemma_last_rank_is_maximum(s: Seq<i32>, x: i32)
    requires
        is_kth_smallest(s, s.len() - 1, x),
    ensures
        s.contains(x),
        all_le(s, x),
{
    lemma_count_bounds(s, x);
}

/// A one-element sequence cannot be rearranged, and its only element is the
/// one of rank zero.
pub proof fn lemma_single_element(s: Seq<i32>, t: Seq<i32>, x: i32)
    requires
        s.len() == 1,
        same_elements(t, s),
    ensures
        t == s,
        is_kth_smallest(s, 0, x) <==> x == s[0],
{
    broadcast use vstd::seq_lib::group_to_multiset_ensures;

    assert(t.to_multiset().len() == s.to_multiset().len());
    assert(t.len() == 1);
    assert(t.contains(t[0]));
    assert(s.to_multiset().count(t[0]) > 0);
    assert(s.contains(t[0]));
    assert(t =~= s);
    assert(s =~= seq![s[0]]);
    lemma_count_single(s[0], x);
}

} // verus!

//! The partition step: rearranges one window of a slice around a pivot
//! (Lomuto's scheme) and reports where the pivot settled.
use vstd::prelude::*;

verus! {

/// `t` is `s` with the elements at `i` and `j` exchanged.
pub open spec fn swapped(s: Seq<i32>, i: int, j: int) -> Seq<i32> {
    s.update(i, s[j]).update(j, s[i])
}

/// `t` agrees with `s` outside the window `[lo, hi)` and holds the same
/// elements as `s` inside it.
pub open spec fn permuted_within(s: Seq<i32>, t: Seq<i32>, lo: int, hi: int) -> bool {
    &&& t.len() == s.len()
    &&& 0 <= lo <= hi <= s.len()
    &&& forall|i: int| 0 <= i < s.len() && !(lo <= i < hi) ==> #[trigger] t[i] == s[i]
    &&& t.subrange(lo, hi).to_multiset() == s.subrange(lo, hi).to_multiset()
}

proof fn lemma_swapped_same_elements(s: Seq<i32>, i: int, j: int)
    requires
        0 <= i < s.len(),
        0 <= j < s.len(),
    ensures
        swapped(s, i, j).to_multiset() == s.to_multiset(),
{
    broadcast use vstd::seq_lib::to_multiset_update;
    broadcast use vstd::multiset::group_multiset_axioms;

    let t1 = s.update(i, s[j]);
    if i == j {
        assert(swapped(s, i, j) =~= s);
    } else {
        let m = s.to_multiset();
        let m1 = m.insert(s[j]).remove(s[i]);
        assert(t1.to_multiset() == m1);
        assert(t1[j] == s[j]);
        assert(swapped(s, i, j).to_multiset() == m1.insert(s[i]).remove(s[j]));
        assert(m.count(s[i]) > 0) by {
            broadcast use vstd::seq_lib::group_to_multiset_ensures;

            assert(s.contains(s[i]));
        }
        assert(m1.insert(s[i]).remove(s[j]) =~= m);
    }
}

/// Permuting a window keeps the elements of the whole sequence.
pub proof fn lemma_permuted_within_same_elements(s: Seq<i32>, t: Seq<i32>, lo: int, hi: int)
    requires
        permuted_within(s, t, lo, hi),
    ensures
        t.to_multiset() == s.to_multiset(),
{
    broadcast use vstd::seq_lib::lemma_multiset_commutative;

    let n = s.len() as int;
    assert(s =~= s.subrange(0, lo) + s.subrange(lo, hi) + s.subrange(hi, n));
    assert(t =~= t.subrange(0, lo) + t.subrange(lo, hi) + t.subrange(hi, n));
    assert(t.subrange(0, lo) =~= s.subrange(0, lo));
    assert(t.subrange(hi, n) =~= s.subrange(hi, n));
}

/// Permuting a window keeps every lower and upper bound that held of all of it.
pub proof fn lemma_permuted_within_bounds(s: Seq<i32>, t: Seq<i32>, lo: int, hi: int, j: int)
    requires
        permuted_within(s, t, lo, hi),
        lo <= j < hi,
    ensures
        exists|i: int| lo <= i < hi && #[trigger] s[i] == t[j],
{
    broadcast use vstd::seq_lib::group_to_multiset_ensures;

    let ws = s.subrange(lo, hi);
    let wt = t.subrange(lo, hi);
    assert(wt[j - lo] == t[j]);
    assert(wt.contains(t[j]));
    assert(ws.to_multiset().count(t[j]) > 0);
    assert(ws.contains(t[j]));
    let i = choose|i: int| 0 <= i < ws.len() && ws[i] == t[j];
    assert(s[lo + i] == t[j]);
}

proof fn lemma_permuted_within_trans(a: Seq<i32>, b: Seq<i32>, c: Seq<i32>, lo: int, hi: int)
    requires
        permuted_within(a, b, lo, hi),
        permuted_within(b, c, lo, hi),
    ensures
        permuted_within(a, c, lo, hi),
{
}

/// Exchanges the elements at `i` and `j`, both inside the window `[lo, hi)`.
fn swap_in_window(s: &mut [i32], lo: usize, hi: usize, i: usize, j: usize)
    requires
        lo <= i < hi,
        lo <= j < hi,
        hi <= old(s)@.len(),
    ensures
        final(s)@ == swapped(old(s)@, i as int, j as int),
        permuted_within(old(s)@, final(s)@, lo as int, hi as int),
{
    let a = s[i];
    let b = s[j];
    s[i] = b;
    s[j] = a;
    proof {
        let o = old(s)@;
        let w = o.subrange(lo as int, hi as int);
        assert(s@.subrange(lo as int, hi as int) =~= swapped(w, i - lo, j - lo));
        lemma_swapped_same_elements(w, i - lo, j - lo);
    }
}

/// Rearranges the window `s[lo..hi]` around the element at window index
/// `pivot_index` and returns the window index `p` where that element settled:
/// the elements before it are at most its value, those after it are greater.
/// Elements equal to the pivot go before it. Nothing outside the window moves.
pub fn partition_unchecked(s: &mut [i32], lo: usize, hi: usize, pivot_index: usize) -> (p: usize)
    requires
        lo < hi <= old(s)@.len(),
        pivot_index < hi - lo,
    ensures
        p < hi - lo,
        permuted_within(old(s)@, final(s)@, lo as int, hi as int),
        final(s)@[lo + p] == old(s)@[lo + pivot_index],
        forall|i: int| lo <= i < lo + p ==> #[trigger] final(s)@[i] <= final(s)@[lo + p],
        forall|i: int| lo + p < i < hi ==> #[trigger] final(s)@[i] > final(s)@[lo + p],
{
    let ghost orig = s@;
    let last = hi - 1;
    swap_in_window(s, lo, hi, lo + pivot_index, last);
    let pivot = s[last];
    let mut i: usize = lo;
    let mut j: usize = lo;
    while j < last
        invariant
            lo <= i <= j <= last < hi <= s@.len(),
            pivot == orig[lo + pivot_index],
            s@[last as int] == pivot,
            permuted_within(orig, s@, lo as int, hi as int),
            forall|t: int| lo <= t < i ==> #[trigger] s@[t] <= pivot,
            forall|t: int| i <= t < j ==> #[trigger] s@[t] > pivot,
        decreases last - j,
    {
        if s[j] <= pivot {
            let ghost before = s@;
            swap_in_window(s, lo, hi, i, j);
            proof {
                lemma_permuted_within_trans(orig, before, s@, lo as int, hi as int);
            }
            i = i + 1;
        }
        j = j + 1;
    }
    let ghost before = s@;
    swap_in_window(s, lo, hi, i, last);
    proof {
        lemma_permuted_within_trans(orig, before, s@, lo as int, hi as int);
    }
    i - lo
}

} // verus!

//! Quickselect: find the element of a given rank in an unordered slice of
//! integers by repeated in-place partitioning, without sorting the slice.
//!
//! The caller chooses how each round picks its pivot (see [`get_pivot`]).
use vstd::prelude::*;
use vstd::slice::slice_subrange;

pub mod get_pivot;
pub mod partition;
pub mod rank;

use crate::partition::{
    lemma_permuted_within_bounds, lemma_permuted_within_same_elements, partition_unchecked,
};
use crate::rank::{
    is_kth_smallest, lemma_kth_same_elements, lemma_kth_unique, lemma_partitioned_kth,
    partitioned_at, same_elements,
};

verus! {

/// Why a checked selection gave up.
#[derive(Debug, Clone, Copy, PartialEq, Eq, Structural)]
pub enum SelectError {
    /// The requested rank `index` is not an index of a slice of length `len`.
    IndexOutOfBounds { len: usize, index: usize },
    /// The pivot strategy returned `index` for a window of length `len`.
    InvalidPivot { len: usize, index: usize },
}

/// The strategy may be called on any non-empty window.
pub open spec fn accepts_windows<F: Fn(&[i32]) -> usize>(get_pivot: F) -> bool {
    forall|w: &[i32]| w@.len() >= 1 ==> #[trigger] get_pivot.requires((w,))
}

/// Every index the strategy returns lies inside the window it was given.
pub open spec fn valid_strategy<F: Fn(&[i32]) -> usize>(get_pivot: F) -> bool {
    forall|w: &[i32], r: usize| w@.len() >= 1 && #[trigger] get_pivot.ensures((w,), r) ==> r < w@.len()
}

/// The one selection loop behind both entry points. With `checked` set, a bad
/// rank or pivot index is reported; without it, the caller has ruled both out.
fn select_loop<F: Fn(&[i32]) -> usize>(s: &mut [i32], k: usize, get_pivot: F, checked: bool) -> (r:
    Result<i32, SelectError>)
    requires
        accepts_windows(get_pivot),
        !checked ==> k < old(s)@.len() && valid_strategy(get_pivot),
    ensures
        same_elements(final(s)@, old(s)@),
        match r {
            Ok(x) => {
                &&& k < old(s)@.len()
                &&& x == final(s)@[k as int]
                &&& partitioned_at(final(s)@, k as int)
            },
            Err(SelectError::IndexOutOfBounds { len, index }) => {
                &&& k >= old(s)@.len()
                &&& len == old(s)@.len()
                &&& index == k
                &&& final(s)@ == old(s)@
            },
            Err(SelectError::InvalidPivot { len, index }) => {
                &&& k < old(s)@.len()
                &&& 1 <= len <= old(s)@.len()
                &&& index >= len
                &&& exists|w: &[i32]| w@.len() == len && #[trigger] get_pivot.ensures((w,), index)
            },
        },
{
    let n = s.len();
    if checked && k >= n {
        return Err(SelectError::IndexOutOfBounds { len: n, index: k });
    }
    let ghost orig = s@;
    let mut lo: usize = 0;
    let mut hi: usize = n;
    loop
        invariant
            lo <= k < hi <= n == s@.len(),
            n == orig.len(),
            orig == old(s)@,
            accepts_windows(get_pivot),
            !checked ==> valid_strategy(get_pivot),
            same_elements(s@, orig),
            forall|a: int, b: int| 0 <= a < lo <= b < n ==> #[trigger] s@[a] <= #[trigger] s@[b],
            forall|a: int, b: int| 0 <= a < hi <= b < n ==> #[trigger] s@[a] <= #[trigger] s@[b],
        decreases hi - lo,
    {
        let window = slice_subrange(s, lo, hi);
        let pivot_index = get_pivot(window);
        if checked && pivot_index >= hi - lo {
            return Err(SelectError::InvalidPivot { len: hi - lo, index: pivot_index });
        }
        let ghost before = s@;
        let p = partition_unchecked(s, lo, hi, pivot_index);
        let at = lo + p;
        proof {
            lemma_permuted_within_same_elements(before, s@, lo as int, hi as int);
            let t = s@;
            assert forall|a: int, b: int| 0 <= a < lo <= b < n implies #[trigger] t[a] <= #[trigger] t[b] by {
                if b < hi {
                    lemma_permuted_within_bounds(before, t, lo as int, hi as int, b);
                    let i = choose|i: int| lo <= i < hi && #[trigger] before[i] == t[b];
                    assert(before[a] <= before[i]);
                } else {
                    assert(before[a] <= before[b]);
                }
            }
            assert forall|a: int, b: int| 0 <= a < hi <= b < n implies #[trigger] t[a] <= #[trigger] t[b] by {
                if lo <= a {
                    lemma_permuted_within_bounds(before, t, lo as int, hi as int, a);
                    let i = choose|i: int| lo <= i < hi && #[trigger] before[i] == t[a];
                    assert(before[i] <= before[b]);
                } else {
                    assert(before[a] <= before[b]);
                }
            }
        }
        if at == k {
            proof {
                let t = s@;
                assert forall|i: int| 0 <= i < k implies #[trigger] t[i] <= t[k as int] by {
                    if i < lo {
                        assert(t[i] <= t[k as int]);
                    }
                }
                assert forall|j: int| k < j < n implies t[k as int] <= #[trigger] t[j] by {
                    if j >= hi {
                        assert(t[k as int] <= t[j]);
                    }
                }
            }
            return Ok(s[k]);
        } else if at < k {
            proof {
                let t = s@;
                assert forall|a: int, b: int| 0 <= a < at + 1 <= b < n implies #[trigger] t[a] <= #[trigger] t[b] by {
                    if a < lo {
                        assert(t[a] <= t[b]);
                    } else if b >= hi {
                        assert(t[a] <= t[b]);
                    } else {
                        assert(t[a] <= t[at as int]);
                    }
                }
            }
            lo = at + 1;
        } else {
            proof {
                let t = s@;
                assert forall|a: int, b: int| 0 <= a < at <= b < n implies #[trigger] t[a] <= #[trigger] t[b] by {
                    if a < lo {
                        assert(t[a] <= t[b]);
                    } else if b >= hi {
                        assert(t[a] <= t[b]);
                    } else {
                        assert(t[a] <= t[at as int]);
                    }
                }
            }
            hi = at;
        }
    }
}

/// Finds the `k`-th smallest element (zero-based) of `s` and moves it to
/// index `k`, calling `get_pivot` on the current window once per round.
///
/// Fails with `IndexOutOfBounds` when `k` is not an index of `s`, before
/// anything moves, and with `InvalidPivot` when the strategy returns an index
/// outside the window it was handed; the slice then still holds its elements.
/// On success, nothing before index `k` is greater than the result and
/// nothing after it is smaller.
pub fn quickselect<F: Fn(&[i32]) -> usize>(s: &mut [i32], k: usize, get_pivot: F) -> (r: Result<
    i32,
    SelectError,
>)
    requires
        accepts_windows(get_pivot),
    ensures
        same_elements(final(s)@, old(s)@),
        match r {
            Ok(x) => {
                &&& k < old(s)@.len()
                &&& is_kth_smallest(old(s)@, k as int, x)
                &&& x == final(s)@[k as int]
                &&& partitioned_at(final(s)@, k as int)
            },
            Err(SelectError::IndexOutOfBounds { len, index }) => {
                &&& k >= old(s)@.len()
                &&& len == old(s)@.len()
                &&& index == k
                &&& final(s)@ == old(s)@
            },
            Err(SelectError::InvalidPivot { len, index }) => {
                &&& k < old(s)@.len()
                &&& 1 <= len <= old(s)@.len()
                &&& index >= len
                &&& exists|w: &[i32]| w@.len() == len && #[trigger] get_pivot.ensures((w,), index)
            },
        },
        k < old(s)@.len() && valid_strategy(get_pivot) ==> r is Ok,
{
    let r = select_loop(s, k, get_pivot, true);
    proof {
        if let Ok(x) = r {
            lemma_partitioned_kth(s@, k as int);
            lemma_kth_same_elements(s@, old(s)@, k as int, x);
        }
    }
    r
}

/// Like [`quickselect`], for callers that have already made sure that `k` is
/// an index of `s` and that `get_pivot` always returns an index inside the
/// window it is given: neither is checked again.
pub fn quickselect_unchecked<F: Fn(&[i32]) -> usize>(s: &mut [i32], k: usize, get_pivot: F) -> (r:
    i32)
    requires
        k < old(s)@.len(),
        accepts_windows(get_pivot),
        valid_strategy(get_pivot),
    ensures
        same_elements(final(s)@, old(s)@),
        is_kth_smallest(old(s)@, k as int, r),
        r == final(s)@[k as int],
        partitioned_at(final(s)@, k as int),
{
    let r = select_loop(s, k, get_pivot, false);
    proof {
        lemma_partitioned_kth(s@, k as int);
        lemma_kth_same_elements(s@, old(s)@, k as int, r.unwrap());
    }
    r.unwrap()
}

/// Selecting the same rank again, on the slice as the first selection left
/// it, yields the same value, which already stands at that index.
pub proof fn lemma_select_again_same_value(
    s0: Seq<i32>,
    s1: Seq<i32>,
    s2: Seq<i32>,
    k: int,
    x1: i32,
    x2: i32,
)
    requires
        same_elements(s1, s0),
        is_kth_smallest(s0, k, x1),
        x1 == s1[k],
        same_elements(s2, s1),
        is_kth_smallest(s1, k, x2),
    ensures
        x2 == x1,
        x2 == s1[k],
{
    lemma_kth_same_elements(s1, s0, k, x2);
    lemma_kth_unique(s0, k, x1, x2);
}

} // verus!

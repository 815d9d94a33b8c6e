//! Simple pivot-selection strategies.
//!
//! A strategy is handed the current window, which is never empty, and returns
//! an index into it. The closer the chosen element is to the value sought, the
//! fewer rounds selection takes; any index of the window is correct.
use vstd::prelude::*;

verus! {

/// Picks the element in the middle of the window.
pub fn middle_index<T>(s: &[T]) -> (r: usize)
    requires
        s@.len() >= 1,
    ensures
        r == s@.len() / 2,
{
    s.len() / 2
}

/// Picks the first element of the window.
pub fn first_index<T>(s: &[T]) -> (r: usize)
    requires
        s@.len() >= 1,
    ensures
        r == 0,
{
    0
}

/// Picks the last element of the window.
pub fn last_index<T>(s: &[T]) -> (r: usize)
    requires
        s@.len() >= 1,
    ensures
        r == s@.len() - 1,
{
    s.len() - 1
}

} // verus!

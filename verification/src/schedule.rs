use vstd::prelude::*;

verus! {

/// Window of a learning-rate history of length `len` used to fit the decay
/// exponent over the last `window` steps: the number of steps used is
/// `min(len, window)`, and a fit needs at least three of them.
pub open spec fn window_size(len: int, window: int) -> int {
    if len < window {
        len
    } else {
        window
    }
}

/// The slice of the history that the decay fit reads, as `(offset, n)`:
/// the last `n = min(len, window)` entries, starting at `offset = len - n`
/// (entry `offset + i` is step `offset + i + 1`). `None` exactly when fewer
/// than three entries would be used.
pub fn decay_window(len: usize, window: usize) -> (w: Option<(usize, usize)>)
    ensures
        w is None <==> window_size(len as int, window as int) < 3,
        w matches Some((offset, n)) ==> {
            &&& n == window_size(len as int, window as int)
            &&& n <= len
            &&& n <= window
            &&& (n == len || n == window)
            &&& offset + n == len
        },
{
    let n: usize = if len < window {
        len
    } else {
        window
    };
    if n < 3 {
        None
    } else {
        Some((len - n, n))
    }
}

/// The fit uses the smaller of the history length and the window: never
/// more entries than the history holds nor than the window asks for, and
/// exactly one of the two.
pub proof fn lemma_window_is_smaller_of_history_and_window(len: int, window: int)
    requires
        0 <= len,
        0 <= window,
    ensures
        window_size(len, window) <= len,
        window_size(len, window) <= window,
        window_size(len, window) == len || window_size(len, window) == window,
{
}

} // verus!

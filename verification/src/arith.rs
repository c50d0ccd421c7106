use vstd::prelude::*;
use vstd::arithmetic::div_mod::{lemma_fundamental_div_mod, lemma_fundamental_div_mod_converse, lemma_mod_bound};

verus! {

/// Mixed-radix digits: `q * d + r` with `0 <= q < n`, `0 <= r < d` lies in
/// `[0, n * d)` and decomposes back into `q` and `r`.
pub proof fn lemma_digits(q: int, r: int, d: int, n: int)
    requires
        0 <= q < n,
        0 <= r < d,
    ensures
        0 <= q * d + r < n * d,
        (q * d + r) / d == q,
        (q * d + r) % d == r,
{
    assert(0 <= q * d + r < n * d) by (nonlinear_arith)
        requires
            0 <= q < n,
            0 <= r < d,
    ;
    lemma_fundamental_div_mod_converse(q * d + r, d, q, r);
}

/// Splitting `k` in `[0, n * d)` by `d` gives a quotient in `[0, n)` and a
/// remainder in `[0, d)` that recompose to `k`.
pub proof fn lemma_split(k: int, d: int, n: int)
    requires
        0 <= k < n * d,
        d > 0,
    ensures
        0 <= k / d < n,
        0 <= k % d < d,
        k == (k / d) * d + k % d,
{
    lemma_fundamental_div_mod(k, d);
    lemma_mod_bound(k, d);
    let q: int = k / d;
    let r: int = k % d;
    assert(k == q * d + r) by (nonlinear_arith)
        requires
            k == d * q + r,
    ;
    assert(0 <= q < n) by (nonlinear_arith)
        requires
            k == q * d + r,
            0 <= r < d,
            0 <= k < n * d,
    ;
}

} // verus!

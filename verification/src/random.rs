use vstd::prelude::*;

verus! {

/// Constant mixed into the seed before the first step.
pub const SEED_MIX: u64 = 0x9E3779B97F4A7C15u64;

/// One xorshift64 step: shifts by 12 right, 25 left, 27 right, each
/// xor-ed into the state (the left shift drops the bits pushed out).
pub open spec fn xorshift_next(s: u64) -> u64 {
    let a: u64 = s ^ (s >> 12u64);
    let b: u64 = a ^ (a << 25u64);
    b ^ (b >> 27u64)
}

/// The generator's state after `i` steps from `seed`.
pub open spec fn xorshift_state(seed: u64, i: nat) -> u64
    decreases i,
{
    if i == 0 {
        seed ^ SEED_MIX
    } else {
        xorshift_next(xorshift_state(seed, (i - 1) as nat))
    }
}

/// Undoes `x ^= x >> 12` (logical shift): folds the shifted copies back.
pub open spec fn undo_right_12(y: u64) -> u64 {
    y ^ (y >> 12u64) ^ (y >> 24u64) ^ (y >> 36u64) ^ (y >> 48u64) ^ (y >> 60u64)
}

/// Undoes `x ^= x << 25`.
pub open spec fn undo_left_25(y: u64) -> u64 {
    y ^ (y << 25u64) ^ (y << 50u64)
}

/// Undoes `x ^= x >> 27` (logical shift).
pub open spec fn undo_right_27(y: u64) -> u64 {
    y ^ (y >> 27u64) ^ (y >> 54u64)
}

/// The state one xorshift64 step before `t`: the three xor-shifts undone
/// in reverse order.
pub open spec fn xorshift_prev(t: u64) -> u64 {
    undo_right_12(undo_left_25(undo_right_27(t)))
}

proof fn lemma_undo_right_12(x: u64)
    ensures
        undo_right_12(x ^ (x >> 12u64)) == x,
        undo_right_12(x) ^ (undo_right_12(x) >> 12u64) == x,
{
    assert(((x ^ (x >> 12u64)) ^ ((x ^ (x >> 12u64)) >> 12u64) ^ ((x ^ (x >> 12u64)) >> 24u64)
        ^ ((x ^ (x >> 12u64)) >> 36u64) ^ ((x ^ (x >> 12u64)) >> 48u64) ^ ((x ^ (x >> 12u64))
        >> 60u64)) == x) by (bit_vector);
    let u: u64 = x ^ (x >> 12u64) ^ (x >> 24u64) ^ (x >> 36u64) ^ (x >> 48u64) ^ (x >> 60u64);
    assert(u ^ (u >> 12u64) == x) by (bit_vector)
        requires
            u == x ^ (x >> 12u64) ^ (x >> 24u64) ^ (x >> 36u64) ^ (x >> 48u64) ^ (x >> 60u64),
    ;
}

proof fn lemma_undo_left_25(x: u64)
    ensures
        undo_left_25(x ^ (x << 25u64)) == x,
        undo_left_25(x) ^ (undo_left_25(x) << 25u64) == x,
{
    assert(((x ^ (x << 25u64)) ^ ((x ^ (x << 25u64)) << 25u64) ^ ((x ^ (x << 25u64)) << 50u64))
        == x) by (bit_vector);
    let u: u64 = x ^ (x << 25u64) ^ (x << 50u64);
    assert(u ^ (u << 25u64) == x) by (bit_vector)
        requires
            u == x ^ (x << 25u64) ^ (x << 50u64),
    ;
}

proof fn lemma_undo_right_27(x: u64)
    ensures
        undo_right_27(x ^ (x >> 27u64)) == x,
        undo_right_27(x) ^ (undo_right_27(x) >> 27u64) == x,
{
    assert(((x ^ (x >> 27u64)) ^ ((x ^ (x >> 27u64)) >> 27u64) ^ ((x ^ (x >> 27u64)) >> 54u64))
        == x) by (bit_vector);
    let u: u64 = x ^ (x >> 27u64) ^ (x >> 54u64);
    assert(u ^ (u >> 27u64) == x) by (bit_vector)
        requires
            u == x ^ (x >> 27u64) ^ (x >> 54u64),
    ;
}

/// One generator step is a permutation of the 64-bit states, and
/// [`xorshift_prev`] is its inverse: stepping back after a step returns the
/// state, and stepping after stepping back returns it too.
pub proof fn lemma_xorshift_step_inverse(s: u64)
    ensures
        xorshift_prev(xorshift_next(s)) == s,
        xorshift_next(xorshift_prev(s)) == s,
{
    let a: u64 = s ^ (s >> 12u64);
    let b: u64 = a ^ (a << 25u64);
    lemma_undo_right_27(b);
    lemma_undo_left_25(a);
    lemma_undo_right_12(s);
    let p: u64 = undo_right_27(s);
    let q: u64 = undo_left_25(p);
    lemma_undo_right_12(q);
    lemma_undo_left_25(p);
    lemma_undo_right_27(s);
}

/// The generator starts from the whole 64-bit seed xor-ed with
/// `0x9E3779B97F4A7C15`, and every later state steps back to the one
/// before it.
pub proof fn lemma_xorshift_state_chain(seed: u64, i: nat)
    ensures
        xorshift_state(seed, 0) == seed ^ 0x9E3779B97F4A7C15u64,
        xorshift_prev(xorshift_state(seed, i + 1)) == xorshift_state(seed, i),
{
    lemma_xorshift_step_inverse(xorshift_state(seed, i));
}

/// Seeds are mixed in whole: the starting states of two seeds differ by
/// exactly the xor of the seeds.
pub proof fn lemma_seed_difference_kept(s1: u64, s2: u64)
    ensures
        xorshift_state(s1, 0) ^ xorshift_state(s2, 0) == s1 ^ s2,
{
    assert((s1 ^ 0x9E3779B97F4A7C15u64) ^ (s2 ^ 0x9E3779B97F4A7C15u64) == s1 ^ s2)
        by (bit_vector);
}

/// Distinct seeds give distinct streams: at every step the two states differ.
pub proof fn lemma_distinct_seeds_distinct_states(s1: u64, s2: u64, i: nat)
    requires
        s1 != s2,
    ensures
        xorshift_state(s1, i) != xorshift_state(s2, i),
    decreases i,
{
    if i == 0 {
        lemma_seed_difference_kept(s1, s2);
        let x: u64 = xorshift_state(s1, 0);
        let y: u64 = xorshift_state(s2, 0);
        assert(x != y) by (bit_vector)
            requires
                x ^ y == s1 ^ s2,
                s1 != s2,
        ;
    } else {
        let p: nat = (i - 1) as nat;
        lemma_distinct_seeds_distinct_states(s1, s2, p);
        lemma_xorshift_state_chain(s1, p);
        lemma_xorshift_state_chain(s2, p);
        assert((p + 1) as nat == i);
    }
}

/// One xorshift64 step on a 64-bit state.
pub fn xorshift_step(s: u64) -> (t: u64)
    ensures
        t == xorshift_next(s),
        xorshift_prev(t) == s,
{
    proof {
        lemma_xorshift_step_inverse(s);
    }
    let a: u64 = s ^ (s >> 12u64);
    let b: u64 = a ^ (a << 25u64);
    b ^ (b >> 27u64)
}

/// The first `n` states of the deterministic generator that fills a
/// lattice: the seed is mixed with [`SEED_MIX`] and each entry is one
/// further xorshift64 step, so entry `i` is the state after `i + 1` steps.
pub fn xorshift_states(seed: u64, n: usize) -> (states: Vec<u64>)
    ensures
        states@.len() == n,
        forall|i: int| 0 <= i < n ==> #[trigger] states@[i] == xorshift_state(seed, (i + 1) as nat),
        n > 0 ==> xorshift_prev(states@[0]) == seed ^ 0x9E3779B97F4A7C15u64,
        forall|i: int| 0 < i < n ==> xorshift_prev(#[trigger] states@[i]) == states@[i - 1],
{
    let mut state: u64 = seed ^ SEED_MIX;
    let mut states: Vec<u64> = Vec::new();
    for i in 0..n
        invariant
            states@.len() == i,
            state == xorshift_state(seed, i as nat),
            forall|k: int| 0 <= k < i ==> #[trigger] states@[k] == xorshift_state(seed, (k + 1) as nat),
    {
        state = xorshift_step(state);
        states.push(state);
    }
    proof {
        lemma_xorshift_state_chain(seed, 0);
        assert forall|i: int| 0 < i < n implies xorshift_prev(#[trigger] states@[i]) == states@[i
            - 1] by {
            lemma_xorshift_state_chain(seed, i as nat);
            assert(states@[i - 1] == xorshift_state(seed, i as nat));
        }
    }
    states
}

} // verus!

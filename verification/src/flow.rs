use vstd::prelude::*;
use vstd::arithmetic::power::{pow, lemma_pow_positive, lemma_pow_adds, lemma_pow0, lemma_pow1};
use vstd::arithmetic::div_mod::{lemma_fundamental_div_mod, lemma_mod_multiples_basic};

verus! {

/// Side of the lattice after `i` coarse-graining steps with block factor
/// `b`, starting from side `l`.
pub open spec fn level_side(l: int, b: int, i: nat) -> int
    decreases i,
{
    if i == 0 {
        l
    } else {
        level_side(l, b, (i - 1) as nat) / b
    }
}

/// `nsteps` coarse-graining steps with block factor `b` can be applied to a
/// lattice of side `l`: the lattice is non-empty, the block factor is
/// positive and each level's side before a step is divisible by `b`.
pub open spec fn flow_is_feasible(l: int, b: int, nsteps: nat) -> bool {
    &&& l > 0
    &&& b > 0
    &&& forall|i: nat| i < nsteps ==> #[trigger] level_side(l, b, i) % b == 0
}

/// Sides of the lattice at every level of an RG flow of `nsteps` steps with
/// block factor `b` from a lattice of side `l`: entry `0` is `l` and entry
/// `i + 1` is entry `i` divided by `b`. `None` exactly when the flow cannot
/// be run (empty lattice, block factor zero, or a level whose side `b`
/// does not divide).
pub fn rg_flow_dims(l: usize, b: usize, nsteps: usize) -> (dims: Option<Vec<usize>>)
    requires
        nsteps < usize::MAX,
    ensures
        dims is Some <==> flow_is_feasible(l as int, b as int, nsteps as nat),
        dims matches Some(d) ==> {
            &&& d@.len() == nsteps + 1
            &&& forall|i: int| 0 <= i <= nsteps ==> #[trigger] d@[i] == level_side(l as int, b as int, i as nat)
        },
{
    if b == 0 || l == 0 {
        return None;
    }
    let mut dims: Vec<usize> = Vec::new();
    dims.push(l);
    let mut cur: usize = l;
    let mut step: usize = 0;
    while step < nsteps
        invariant
            b > 0,
            l > 0,
            step <= nsteps,
            nsteps < usize::MAX,
            cur == level_side(l as int, b as int, step as nat),
            dims@.len() == step + 1,
            forall|i: int| 0 <= i <= step ==> #[trigger] dims@[i] == level_side(l as int, b as int, i as nat),
            forall|i: nat| i < step ==> #[trigger] level_side(l as int, b as int, i) % b as int == 0,
        decreases nsteps - step,
    {
        if cur % b != 0 {
            proof {
                assert(level_side(l as int, b as int, step as nat) % b as int != 0);
            }
            return None;
        }
        cur = cur / b;
        step = step + 1;
        dims.push(cur);
        proof {
            assert(cur == level_side(l as int, b as int, step as nat));
        }
    }
    Some(dims)
}

/// Each level of a feasible flow is the starting side divided by `b^i`:
/// `level_side(l, b, i) * b^i == l` for every level `i <= nsteps`.
pub proof fn lemma_level_side_times_power(l: int, b: int, nsteps: nat, i: nat)
    requires
        flow_is_feasible(l, b, nsteps),
        i <= nsteps,
    ensures
        level_side(l, b, i) * pow(b, i) == l,
    decreases i,
{
    vstd::arithmetic::power::lemma_pow0(b);
    if i > 0 {
        let p: nat = (i - 1) as nat;
        lemma_level_side_times_power(l, b, nsteps, p);
        let prev: int = level_side(l, b, p);
        assert(prev % b == 0);
        vstd::arithmetic::div_mod::lemma_fundamental_div_mod(prev, b);
        vstd::arithmetic::power::lemma_pow_adds(b, p, 1);
        vstd::arithmetic::power::lemma_pow1(b);
        assert(level_side(l, b, i) == prev / b);
        assert(level_side(l, b, i) * pow(b, i) == l) by (nonlinear_arith)
            requires
                prev == b * (prev / b) + prev % b,
                prev % b == 0,
                level_side(l, b, i) == prev / b,
                pow(b, i) == pow(b, p) * b,
                prev * pow(b, p) == l,
        ;
    }
}

/// A multiple of `b^e` with `e >= 1` is a multiple of `b`.
proof fn lemma_power_multiple_divisible_by_base(x: int, b: int, e: nat)
    requires
        b > 0,
        e >= 1,
        x % pow(b, e) == 0,
    ensures
        x % b == 0,
{
    let e1: nat = (e - 1) as nat;
    lemma_pow_adds(b, e1, 1);
    lemma_pow1(b);
    lemma_pow_positive(b, e1);
    let m: int = pow(b, e);
    assert(m > 0) by (nonlinear_arith)
        requires
            m == pow(b, e1) * b,
            pow(b, e1) > 0,
            b > 0,
    ;
    lemma_fundamental_div_mod(x, m);
    let q: int = x / m;
    assert(x == (q * pow(b, e1)) * b) by (nonlinear_arith)
        requires
            x == m * q + x % m,
            x % m == 0,
            m == pow(b, e1) * b,
    ;
    lemma_mod_multiples_basic(q * pow(b, e1), b);
}

/// While `b^n` divides `l`, the side after `i <= n` steps times `b^i` is
/// `l`, and it is still divisible by `b^(n - i)` (so by `b` when `i < n`).
proof fn lemma_power_divides_chain(l: int, b: int, n: nat, i: nat)
    requires
        b > 0,
        l % pow(b, n) == 0,
        i <= n,
    ensures
        level_side(l, b, i) * pow(b, i) == l,
        level_side(l, b, i) % pow(b, (n - i) as nat) == 0,
        i < n ==> level_side(l, b, i) % b == 0,
    decreases i,
{
    lemma_pow0(b);
    if i > 0 {
        let p: nat = (i - 1) as nat;
        lemma_power_divides_chain(l, b, n, p);
        let s: int = level_side(l, b, p);
        let e: nat = (n - i) as nat;
        lemma_pow_positive(b, e);
        lemma_pow_adds(b, e, 1);
        lemma_pow_adds(b, p, 1);
        lemma_pow1(b);
        assert((n - p) as nat == e + 1);
        let m: int = pow(b, e);
        assert(m * b > 0) by (nonlinear_arith)
            requires
                m > 0,
                b > 0,
        ;
        lemma_fundamental_div_mod(s, m * b);
        let q: int = s / (m * b);
        assert(s == (q * m) * b) by (nonlinear_arith)
            requires
                s == (m * b) * q + s % (m * b),
                s % (m * b) == 0,
        ;
        lemma_fundamental_div_mod(s, b);
        vstd::arithmetic::div_mod::lemma_fundamental_div_mod_converse(s, b, q * m, 0);
        assert(level_side(l, b, i) == s / b);
        assert(level_side(l, b, i) == q * m);
        lemma_mod_multiples_basic(q, m);
        assert(level_side(l, b, i) * pow(b, i) == l) by (nonlinear_arith)
            requires
                s == (q * m) * b,
                level_side(l, b, i) == q * m,
                pow(b, i) == pow(b, p) * b,
                s * pow(b, p) == l,
        ;
    }
    if i < n {
        lemma_power_multiple_divisible_by_base(level_side(l, b, i), b, (n - i) as nat);
    }
}

/// The flow of `nsteps` steps runs exactly when the lattice would not
/// vanish: for a non-empty lattice, it is feasible iff `b > 0` and `b^nsteps`
/// divides `l`.
pub proof fn lemma_flow_feasible_iff_power_divides(l: int, b: int, nsteps: nat)
    requires
        l > 0,
    ensures
        flow_is_feasible(l, b, nsteps) <==> (b > 0 && l % pow(b, nsteps) == 0),
{
    if flow_is_feasible(l, b, nsteps) {
        lemma_level_side_times_power(l, b, nsteps, nsteps);
        lemma_pow_positive(b, nsteps);
        lemma_mod_multiples_basic(level_side(l, b, nsteps), pow(b, nsteps));
    }
    if b > 0 && l % pow(b, nsteps) == 0 {
        assert forall|i: nat| i < nsteps implies #[trigger] level_side(l, b, i) % b == 0 by {
            lemma_power_divides_chain(l, b, nsteps, i);
        }
    }
}

} // verus!

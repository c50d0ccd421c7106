use vstd::prelude::*;
use crate::arith::{lemma_digits, lemma_split};
use vstd::arithmetic::div_mod::{lemma_fundamental_div_mod, lemma_fundamental_div_mod_converse, lemma_mod_bound};

verus! {

/// Flat row-major index of site `(x, y)` on a lattice of side `l`.
pub open spec fn site(l: int, x: int, y: int) -> int {
    y * l + x
}

/// The site `r` steps to the right of flat site `i`, with periodic
/// boundary conditions on a lattice of side `l`.
pub open spec fn shift_right(l: int, i: int, r: int) -> int {
    site(l, (i % l + r) % l, i / l)
}

/// The site `r` steps below flat site `i`, with periodic boundary
/// conditions on a lattice of side `l`.
pub open spec fn shift_down(l: int, i: int, r: int) -> int {
    site(l, i % l, (i / l + r) % l)
}

/// Shifting a site by `r` (`0 <= r`) in either direction stays on the
/// lattice of side `l`.
proof fn lemma_shift_in_range(l: int, i: int, r: int)
    requires
        l > 0,
        0 <= i < l * l,
        0 <= r,
    ensures
        0 <= shift_right(l, i, r) < l * l,
        0 <= shift_down(l, i, r) < l * l,
        0 <= (i % l + r) % l < l,
        0 <= (i / l + r) % l < l,
        0 <= i % l < l,
        0 <= i / l < l,
{
    lemma_split(i, l, l);
    lemma_mod_bound(i % l + r, l);
    lemma_mod_bound(i / l + r, l);
    lemma_digits(i / l, (i % l + r) % l, l, l);
    lemma_digits((i / l + r) % l, i % l, l, l);
}

/// `pairs` lists, for every site `i` of the lattice of side `l` in
/// row-major order, two pairs at distance `r`: entry `2 i` pairs `i` with
/// the site `r` to its right, entry `2 i + 1` pairs `i` with the site `r`
/// below it (periodic boundary conditions).
pub open spec fn shifted_pairs_hold(l: int, r: int, pairs: Seq<(usize, usize)>) -> bool {
    &&& pairs.len() == 2 * (l * l)
    &&& forall|i: int|
        0 <= i < l * l ==> {
            &&& (#[trigger] pairs[2 * i]).0 == i
            &&& pairs[2 * i].1 == shift_right(l, i, r)
            &&& pairs[2 * i + 1].0 == i
            &&& pairs[2 * i + 1].1 == shift_down(l, i, r)
        }
}

/// Builds the pair list of [`shifted_pairs_hold`] for distance `r < l`.
fn shifted_pairs(l: usize, r: usize) -> (pairs: Vec<(usize, usize)>)
    requires
        l > 0,
        r < l,
        2 * (l * l) <= usize::MAX,
    ensures
        shifted_pairs_hold(l as int, r as int, pairs@),
{
    proof {
        assert(l * l <= 2 * (l * l) && 2 * l <= 2 * (l * l)) by (nonlinear_arith)
            requires
                l > 0,
        ;
    }
    let n: usize = l * l;
    let mut pairs: Vec<(usize, usize)> = Vec::new();
    for i in 0..n
        invariant
            l > 0,
            r < l,
            n == l * l,
            2 * (l * l) <= usize::MAX,
            2 * l <= 2 * (l * l),
            pairs@.len() == 2 * i,
            forall|k: int|
                0 <= k < i ==> {
                    &&& (#[trigger] pairs@[2 * k]).0 == k
                    &&& pairs@[2 * k].1 == shift_right(l as int, k, r as int)
                    &&& pairs@[2 * k + 1].0 == k
                    &&& pairs@[2 * k + 1].1 == shift_down(l as int, k, r as int)
                },
    {
        proof {
            lemma_shift_in_range(l as int, i as int, r as int);
        }
        let x: usize = i % l;
        let y: usize = i / l;
        let right: usize = y * l + (x + r) % l;
        let down: usize = ((y + r) % l) * l + x;
        let ghost before = pairs@;
        pairs.push((i, right));
        pairs.push((i, down));
        proof {
            assert forall|k: int| 0 <= k < i + 1 implies {
                &&& (#[trigger] pairs@[2 * k]).0 == k
                &&& pairs@[2 * k].1 == shift_right(l as int, k, r as int)
                &&& pairs@[2 * k + 1].0 == k
                &&& pairs@[2 * k + 1].1 == shift_down(l as int, k, r as int)
            } by {
                if k == i {
                    assert(pairs@[2 * k] == (i, right));
                    assert(pairs@[2 * k + 1] == (i, down));
                } else {
                    assert(pairs@[2 * k] == before[2 * k]);
                    assert(pairs@[2 * k + 1] == before[2 * k + 1]);
                }
            }
        }
    }
    pairs
}

/// Nearest-neighbour bonds of the periodic lattice of side `l`, each bond
/// counted once: for every site in row-major order, the bond to its right
/// neighbour and then the bond to the neighbour below. A lattice of side
/// below 2 has no bonds.
pub fn energy_bonds(l: usize) -> (bonds: Vec<(usize, usize)>)
    requires
        2 * (l * l) <= usize::MAX,
    ensures
        l < 2 ==> bonds@.len() == 0,
        l >= 2 ==> shifted_pairs_hold(l as int, 1, bonds@),
{
    if l < 2 {
        Vec::new()
    } else {
        shifted_pairs(l, 1)
    }
}

/// The site pairs averaged by the spatial correlation function `C(r)` on
/// the periodic lattice of side `l`: for every site, the pair with the site
/// `r` to its right and the pair with the site `r` below it. For `r >= l`
/// there are none.
pub fn correlation_pairs(l: usize, r: usize) -> (pairs: Vec<(usize, usize)>)
    requires
        2 * (l * l) <= usize::MAX,
    ensures
        r >= l ==> pairs@.len() == 0,
        r < l ==> shifted_pairs_hold(l as int, r as int, pairs@),
{
    if r >= l {
        Vec::new()
    } else {
        shifted_pairs(l, r)
    }
}

/// Every pair lies on the lattice: both sites of each entry of a pair list
/// described by [`shifted_pairs_hold`] are below `l * l`.
pub proof fn lemma_pairs_on_lattice(l: int, r: int, pairs: Seq<(usize, usize)>)
    requires
        l > 0,
        0 <= r,
        shifted_pairs_hold(l, r, pairs),
    ensures
        forall|k: int| 0 <= k < pairs.len() ==> #[trigger] pairs[k].0 < l * l && pairs[k].1 < l * l,
{
    assert forall|k: int| 0 <= k < pairs.len() implies #[trigger] pairs[k].0 < l * l && pairs[k].1
        < l * l by {
        let i: int = k / 2;
        assert(0 <= i < l * l && (k == 2 * i || k == 2 * i + 1)) by (nonlinear_arith)
            requires
                0 <= k < 2 * (l * l),
                i == k / 2,
        ;
        lemma_shift_in_range(l, i, r);
        assert(pairs[2 * i].0 == i);
    }
}

/// Shifting by `r` then by `l - r` in the same direction returns to the
/// starting coordinate.
proof fn lemma_shift_back(l: int, x: int, r: int)
    requires
        0 < r < l,
        0 <= x < l,
    ensures
        ((x + r) % l + (l - r)) % l == x,
{
    lemma_fundamental_div_mod(x + r, l);
    lemma_mod_bound(x + r, l);
    let q: int = (x + r) / l;
    assert(q == 0 || q == 1) by (nonlinear_arith)
        requires
            x + r == l * q + (x + r) % l,
            0 <= (x + r) % l < l,
            0 <= x < l,
            0 < r < l,
    ;
    assert((x + r) % l + (l - r) == (1 - q) * l + x) by (nonlinear_arith)
        requires
            x + r == l * q + (x + r) % l,
    ;
    lemma_fundamental_div_mod_converse((x + r) % l + (l - r), l, 1 - q, x);
}

/// Periodicity of the correlation function: the pairs at distance `r` are
/// the pairs at distance `l - r` with their sites swapped. The horizontal
/// pair of site `i` at distance `r` is the reversed horizontal pair, at
/// distance `l - r`, of the site `r` to the right of `i`; likewise for the
/// vertical pairs and the site `r` below `i`.
pub proof fn lemma_correlation_pairs_reflect(l: int, r: int, i: int)
    requires
        0 < r < l,
        0 <= i < l * l,
    ensures
        0 <= shift_right(l, i, r) < l * l,
        0 <= shift_down(l, i, r) < l * l,
        shift_right(l, shift_right(l, i, r), l - r) == i,
        shift_down(l, shift_down(l, i, r), l - r) == i,
{
    lemma_shift_in_range(l, i, r);
    let x: int = i % l;
    let y: int = i / l;
    let xr: int = (x + r) % l;
    let yr: int = (y + r) % l;
    lemma_split(i, l, l);
    lemma_digits(y, xr, l, l);
    lemma_digits(yr, x, l, l);
    let j: int = shift_right(l, i, r);
    assert(j == y * l + xr);
    assert(j % l == xr && j / l == y);
    lemma_shift_back(l, x, r);
    assert(shift_right(l, j, l - r) == y * l + x);
    let d: int = shift_down(l, i, r);
    assert(d == yr * l + x);
    assert(d % l == x && d / l == yr);
    lemma_shift_back(l, y, r);
    assert(shift_down(l, d, l - r) == y * l + x);
}

/// Shifting by `r` (`0 < r < l`) in either direction permutes the sites of
/// the periodic lattice: distinct sites have distinct shifted sites, and
/// every site is the shift of the site `l - r` steps before it. With
/// `r = 1` this says each site is the right end of exactly one horizontal
/// bond and the lower end of exactly one vertical bond.
pub proof fn lemma_shift_is_bijection(l: int, r: int)
    requires
        0 < r < l,
    ensures
        forall|i: int, k: int|
            0 <= i < l * l && 0 <= k < l * l && #[trigger] shift_right(l, i, r)
                == #[trigger] shift_right(l, k, r) ==> i == k,
        forall|i: int, k: int|
            0 <= i < l * l && 0 <= k < l * l && #[trigger] shift_down(l, i, r)
                == #[trigger] shift_down(l, k, r) ==> i == k,
        forall|j: int|
            0 <= j < l * l ==> {
                &&& 0 <= #[trigger] shift_right(l, j, l - r) < l * l
                &&& shift_right(l, shift_right(l, j, l - r), r) == j
                &&& 0 <= shift_down(l, j, l - r) < l * l
                &&& shift_down(l, shift_down(l, j, l - r), r) == j
            },
{
    assert forall|i: int, k: int|
        0 <= i < l * l && 0 <= k < l * l && #[trigger] shift_right(l, i, r)
            == #[trigger] shift_right(l, k, r) implies i == k by {
        lemma_correlation_pairs_reflect(l, r, i);
        lemma_correlation_pairs_reflect(l, r, k);
    }
    assert forall|i: int, k: int|
        0 <= i < l * l && 0 <= k < l * l && #[trigger] shift_down(l, i, r)
            == #[trigger] shift_down(l, k, r) implies i == k by {
        lemma_correlation_pairs_reflect(l, r, i);
        lemma_correlation_pairs_reflect(l, r, k);
    }
    assert forall|j: int| 0 <= j < l * l implies {
        &&& 0 <= #[trigger] shift_right(l, j, l - r) < l * l
        &&& shift_right(l, shift_right(l, j, l - r), r) == j
        &&& 0 <= shift_down(l, j, l - r) < l * l
        &&& shift_down(l, shift_down(l, j, l - r), r) == j
    } by {
        lemma_correlation_pairs_reflect(l, l - r, j);
        assert(l - (l - r) == r);
    }
}

/// A shift by `r1 + r2` is a shift by `r1` followed by a shift by `r2`.
proof fn lemma_shift_compose(l: int, i: int, r1: int, r2: int)
    requires
        l > 0,
        0 <= i < l * l,
        0 <= r1,
        0 <= r2,
    ensures
        shift_right(l, shift_right(l, i, r1), r2) == shift_right(l, i, r1 + r2),
        shift_down(l, shift_down(l, i, r1), r2) == shift_down(l, i, r1 + r2),
{
    lemma_shift_in_range(l, i, r1);
    let x: int = i % l;
    let y: int = i / l;
    let xr: int = (x + r1) % l;
    let yr: int = (y + r1) % l;
    lemma_digits(y, xr, l, l);
    lemma_digits(yr, x, l, l);
    vstd::arithmetic::div_mod::lemma_add_mod_noop_right(r2, x + r1, l);
    vstd::arithmetic::div_mod::lemma_add_mod_noop_right(r2, y + r1, l);
    assert(xr + r2 == r2 + xr && x + r1 + r2 == r2 + (x + r1));
    assert(yr + r2 == r2 + yr && y + r1 + r2 == r2 + (y + r1));
}

/// Nearest neighbours and shift distances: a shift by 0 stays put; the
/// right neighbour of a site is the next site in its row, wrapping to the
/// row's start from its last site; the neighbour below is `l` sites on,
/// wrapping from the bottom row to the top row; and shifts add up, so a
/// shift by `r` is `r` single steps.
pub proof fn lemma_neighbour_steps(l: int, i: int, r1: int, r2: int)
    requires
        l > 0,
        0 <= i < l * l,
        0 <= r1,
        0 <= r2,
    ensures
        shift_right(l, i, 0) == i,
        shift_down(l, i, 0) == i,
        shift_right(l, i, 1) == if (i + 1) % l != 0 {
            i + 1
        } else {
            i + 1 - l
        },
        shift_down(l, i, 1) == if i + l < l * l {
            i + l
        } else {
            i + l - l * l
        },
        shift_right(l, shift_right(l, i, r1), r2) == shift_right(l, i, r1 + r2),
        shift_down(l, shift_down(l, i, r1), r2) == shift_down(l, i, r1 + r2),
{
    lemma_split(i, l, l);
    let x: int = i % l;
    let y: int = i / l;
    lemma_fundamental_div_mod_converse(x + 0, l, 0, x);
    lemma_fundamental_div_mod_converse(y + 0, l, 0, y);
    if x + 1 < l {
        lemma_fundamental_div_mod_converse(x + 1, l, 0, x + 1);
        lemma_digits(y, x + 1, l, l);
        assert(i + 1 == y * l + (x + 1));
    } else {
        lemma_fundamental_div_mod_converse(x + 1, l, 1, 0);
        assert(i + 1 == (y + 1) * l) by (nonlinear_arith)
            requires
                i == y * l + x,
                x + 1 == l,
        ;
        lemma_fundamental_div_mod_converse(i + 1, l, y + 1, 0);
    }
    if y + 1 < l {
        lemma_fundamental_div_mod_converse(y + 1, l, 0, y + 1);
        assert(i + l < l * l && i + l == (y + 1) * l + x) by (nonlinear_arith)
            requires
                i == y * l + x,
                0 <= x < l,
                y + 1 < l,
        ;
    } else {
        lemma_fundamental_div_mod_converse(y + 1, l, 1, 0);
        assert(y * l == l * l - l) by (nonlinear_arith)
            requires
                y == l - 1,
        ;
        assert(!(i + l < l * l) && i + l - l * l == x);
    }
    lemma_shift_compose(l, i, r1, r2);
}

} // verus!

use vstd::prelude::*;
use crate::arith::{lemma_digits, lemma_split};

verus! {

/// Flat row-major index of the fine site at position `j` (row-major inside
/// the block, `j = dy * b + dx`) of the block whose coarse coordinates are
/// `(x, y)`, for block factor `b` on a fine lattice of side `l`.
pub open spec fn block_member(l: int, b: int, x: int, y: int, j: int) -> int {
    (y * b + j / b) * l + (x * b + j % b)
}

/// Row-major index, on the coarse lattice of side `l / b`, of the block that
/// holds fine site `s`.
pub open spec fn block_of(l: int, b: int, s: int) -> int {
    ((s / l) / b) * (l / b) + (s % l) / b
}

/// Position of fine site `s` inside its block.
pub open spec fn position_in_block(l: int, b: int, s: int) -> int {
    ((s / l) % b) * b + (s % l) % b
}

/// Block-spin transformation with block factor `b`: a lattice of side `L`
/// is grouped into `b × b` blocks, giving a coarse lattice of side `L / b`.
#[derive(Debug, Clone, Copy)]
pub struct CoarseGrainingOperator {
    /// Block factor.
    pub b: usize,
}

/// The fine site at position `j` of block `(x, y)` lies on the fine
/// lattice, and the block/position maps recover `(x, y)` and `j` from it.
proof fn lemma_member_in_range(l: int, b: int, x: int, y: int, j: int)
    requires
        b > 0,
        l % b == 0,
        0 <= x < l / b,
        0 <= y < l / b,
        0 <= j < b * b,
    ensures
        0 <= y * b + j / b < l,
        0 <= x * b + j % b < l,
        0 <= block_member(l, b, x, y, j) < l * l,
        block_of(l, b, block_member(l, b, x, y, j)) == y * (l / b) + x,
        position_in_block(l, b, block_member(l, b, x, y, j)) == j,
{
    let m: int = l / b;
    vstd::arithmetic::div_mod::lemma_fundamental_div_mod(l, b);
    assert(l == m * b) by (nonlinear_arith)
        requires
            l == b * (l / b) + l % b,
            l % b == 0,
            m == l / b,
    ;
    lemma_split(j, b, b);
    let dy: int = j / b;
    let dx: int = j % b;
    lemma_digits(y, dy, b, m);
    lemma_digits(x, dx, b, m);
    let sy: int = y * b + dy;
    let sx: int = x * b + dx;
    lemma_digits(sy, sx, l, l);
    let s: int = sy * l + sx;
    assert(s == block_member(l, b, x, y, j));
    assert(s / l == sy && s % l == sx);
    assert(sy / b == y && sy % b == dy);
    assert(sx / b == x && sx % b == dx);
}

/// Every fine site `s` belongs to a block on the coarse lattice, at a
/// position inside that block, and is found there again.
proof fn lemma_site_in_block(l: int, b: int, s: int)
    requires
        b > 0,
        l >= 0,
        l % b == 0,
        0 <= s < l * l,
    ensures
        0 <= block_of(l, b, s) < (l / b) * (l / b),
        0 <= position_in_block(l, b, s) < b * b,
        block_member(
            l,
            b,
            block_of(l, b, s) % (l / b),
            block_of(l, b, s) / (l / b),
            position_in_block(l, b, s),
        ) == s,
{
    let m: int = l / b;
    vstd::arithmetic::div_mod::lemma_fundamental_div_mod(l, b);
    assert(l == m * b) by (nonlinear_arith)
        requires
            l == b * (l / b) + l % b,
            l % b == 0,
            m == l / b,
    ;
    assert(l > 0) by (nonlinear_arith)
        requires
            0 <= s < l * l,
            l >= 0,
    ;
    lemma_split(s, l, l);
    let sy: int = s / l;
    let sx: int = s % l;
    lemma_split(sy, b, m);
    lemma_split(sx, b, m);
    let by_: int = sy / b;
    let dy: int = sy % b;
    let bx: int = sx / b;
    let dx: int = sx % b;
    lemma_digits(by_, bx, m, m);
    lemma_digits(dy, dx, b, b);
    let k: int = by_ * m + bx;
    let j: int = dy * b + dx;
    assert(block_of(l, b, s) == k);
    assert(position_in_block(l, b, s) == j);
    assert(k % m == bx && k / m == by_);
    assert(j / b == dy && j % b == dx);
}

impl CoarseGrainingOperator {
    /// An operator is usable when its block factor is positive.
    pub open spec fn wf(&self) -> bool {
        self.b > 0
    }

    /// Creates a coarse-graining operator with block factor `b` (`b > 0`).
    pub fn new(b: usize) -> (op: Self)
        requires
            b > 0,
        ensures
            op.b == b,
            op.wf(),
    {
        CoarseGrainingOperator { b }
    }

    /// Side of the coarse lattice obtained from a non-empty fine lattice of
    /// side `l` that `b` divides.
    pub fn coarse_dim(&self, l: usize) -> (m: usize)
        requires
            self.wf(),
            l > 0,
            l % self.b == 0,
        ensures
            m == l / self.b,
            m * self.b == l,
    {
        proof {
            vstd::arithmetic::div_mod::lemma_fundamental_div_mod(l as int, self.b as int);
            assert((l / self.b) * self.b == l) by (nonlinear_arith)
                requires
                    l == self.b * (l / self.b) + l % self.b,
                    l % self.b == 0,
            ;
        }
        l / self.b
    }

    /// Flat row-major indices of the `b * b` fine sites that make up the
    /// block with coarse coordinates `(x, y)`, row by row inside the block.
    pub fn block_sites(&self, l: usize, x: usize, y: usize) -> (sites: Vec<usize>)
        requires
            self.wf(),
            l % self.b == 0,
            x < l / self.b,
            y < l / self.b,
            l * l <= usize::MAX,
        ensures
            sites@.len() == self.b * self.b,
            forall|j: int|
                0 <= j < self.b * self.b ==> #[trigger] sites@[j] == block_member(
                    l as int,
                    self.b as int,
                    x as int,
                    y as int,
                    j,
                ),
    {
        let b: usize = self.b;
        proof {
            vstd::arithmetic::div_mod::lemma_fundamental_div_mod(l as int, b as int);
            assert(b <= l) by (nonlinear_arith)
                requires
                    x < l / b,
                    b > 0,
                    l == b * (l / b) + l % b,
                    l % b == 0,
            ;
            assert(b * b <= l * l) by (nonlinear_arith)
                requires
                    0 < b <= l,
            ;
        }
        let bb: usize = b * b;
        let mut sites: Vec<usize> = Vec::new();
        for j in 0..bb
            invariant
                b == self.b,
                b > 0,
                bb == b * b,
                l % b == 0,
                x < l / b,
                y < l / b,
                l * l <= usize::MAX,
                sites@.len() == j,
                forall|i: int|
                    0 <= i < j ==> #[trigger] sites@[i] == block_member(
                        l as int,
                        b as int,
                        x as int,
                        y as int,
                        i,
                    ),
        {
            proof {
                lemma_member_in_range(l as int, b as int, x as int, y as int, j as int);
            }
            let sy: usize = y * b + j / b;
            let sx: usize = x * b + j % b;
            sites.push(sy * l + sx);
        }
        sites
    }

    /// The coarse-graining plan for a non-empty fine lattice of side `l`
    /// that `b` divides: entry `k`
    /// lists the fine sites of coarse cell `k` (row-major on the coarse
    /// lattice of side `l / b`), in the order of [`Self::block_sites`].
    pub fn coarse_grain_plan(&self, l: usize) -> (plan: Vec<Vec<usize>>)
        requires
            self.wf(),
            l > 0,
            l % self.b == 0,
            l * l <= usize::MAX,
        ensures
            plan@.len() == (l / self.b) * (l / self.b),
            forall|k: int|
                #![trigger plan@[k]]
                0 <= k < plan@.len() ==> plan@[k]@.len() == self.b * self.b && forall|j: int|
                    0 <= j < self.b * self.b ==> #[trigger] plan@[k]@[j] == block_member(
                        l as int,
                        self.b as int,
                        k % (l / self.b) as int,
                        k / (l / self.b) as int,
                        j,
                    ),
    {
        let m: usize = self.coarse_dim(l);
        proof {
            assert(m * m <= l * l) by (nonlinear_arith)
                requires
                    m * self.b == l,
                    self.b > 0,
            ;
        }
        let mm: usize = m * m;
        let mut plan: Vec<Vec<usize>> = Vec::new();
        for k in 0..mm
            invariant
                self.wf(),
                m == l / self.b,
                m * self.b == l,
                mm == m * m,
                l % self.b == 0,
                l * l <= usize::MAX,
                plan@.len() == k,
                forall|i: int|
                    #![trigger plan@[i]]
                    0 <= i < k ==> plan@[i]@.len() == self.b * self.b && forall|j: int|
                        0 <= j < self.b * self.b ==> #[trigger] plan@[i]@[j] == block_member(
                            l as int,
                            self.b as int,
                            i % m as int,
                            i / m as int,
                            j,
                        ),
        {
            proof {
                lemma_split(k as int, m as int, m as int);
            }
            let block: Vec<usize> = self.block_sites(l, k % m, k / m);
            plan.push(block);
        }
        plan
    }
}

/// Coarse-graining partitions the lattice: every fine site of a lattice of
/// side `l` lies in exactly one `b × b` block, at exactly one position, and
/// every (block, position) pair names a distinct fine site.
pub proof fn lemma_blocks_partition_lattice(l: int, b: int)
    requires
        b > 0,
        l >= 0,
        l % b == 0,
    ensures
        forall|s: int|
            0 <= s < l * l ==> {
                &&& 0 <= #[trigger] block_of(l, b, s) < (l / b) * (l / b)
                &&& 0 <= position_in_block(l, b, s) < b * b
                &&& block_member(
                    l,
                    b,
                    block_of(l, b, s) % (l / b),
                    block_of(l, b, s) / (l / b),
                    position_in_block(l, b, s),
                ) == s
            },
        forall|x: int, y: int, j: int|
            0 <= x < l / b && 0 <= y < l / b && 0 <= j < b * b ==> {
                &&& 0 <= #[trigger] block_member(l, b, x, y, j) < l * l
                &&& block_of(l, b, block_member(l, b, x, y, j)) == y * (l / b) + x
                &&& position_in_block(l, b, block_member(l, b, x, y, j)) == j
            },
{
    assert forall|s: int| 0 <= s < l * l implies {
        &&& 0 <= #[trigger] block_of(l, b, s) < (l / b) * (l / b)
        &&& 0 <= position_in_block(l, b, s) < b * b
        &&& block_member(
            l,
            b,
            block_of(l, b, s) % (l / b),
            block_of(l, b, s) / (l / b),
            position_in_block(l, b, s),
        ) == s
    } by {
        lemma_site_in_block(l, b, s);
    }
    assert forall|x: int, y: int, j: int|
        0 <= x < l / b && 0 <= y < l / b && 0 <= j < b * b implies {
        &&& 0 <= #[trigger] block_member(l, b, x, y, j) < l * l
        &&& block_of(l, b, block_member(l, b, x, y, j)) == y * (l / b) + x
        &&& position_in_block(l, b, block_member(l, b, x, y, j)) == j
    } by {
        lemma_member_in_range(l, b, x, y, j);
    }
}

/// With block factor 1 coarse-graining leaves the lattice unchanged: coarse
/// cell `k` is made of fine site `k` alone.
pub proof fn lemma_unit_block_is_identity(l: int, k: int)
    requires
        l > 0,
        0 <= k < l * l,
    ensures
        block_member(l, 1, k % l, k / l, 0) == k,
{
    lemma_split(k, l, l);
    assert(block_member(l, 1, k % l, k / l, 0) == (k / l) * l + k % l);
}

} // verus!

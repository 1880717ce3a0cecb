//! Base-two ceilings on top of vstd's `pow2`, shared by the buddy tree's
//! sizing helpers and its index arithmetic.

use vstd::prelude::*;

verus! {

pub use vstd::arithmetic::power2::pow2;

use vstd::arithmetic::power2::{
    lemma2_to64,
    lemma_pow2_adds,
    lemma_pow2_pos,
    lemma_pow2_strictly_increases,
    lemma_pow2_unfold,
};

/// The smallest `e` with `pow2(e) >= n`; 0 when `n <= 1`.
pub open spec fn log2_up(n: nat) -> nat
    decreases n,
{
    if n <= 1 {
        0
    } else {
        1 + log2_up(((n + 1) / 2) as nat)
    }
}

/// The smallest power of two that is at least `n`.
pub open spec fn next_pow2(n: nat) -> nat {
    pow2(log2_up(n))
}

pub proof fn lemma_pow2_le(e1: nat, e2: nat)
    requires
        e1 <= e2,
    ensures
        pow2(e1) <= pow2(e2),
{
    if e1 < e2 {
        lemma_pow2_strictly_increases(e1, e2);
    }
}

pub proof fn lemma_pow2_double(e: nat)
    ensures
        pow2(e + 1) == 2 * pow2(e),
{
    lemma_pow2_unfold(e + 1);
}

/// `next_pow2(n)` bounds `n` from above, never overshoots twice `n - 1`, and
/// its exponent is minimal.
pub proof fn lemma_next_pow2_bounds(n: nat)
    requires
        n >= 1,
    ensures
        next_pow2(n) >= n,
        n >= 2 ==> next_pow2(n) <= 2 * n - 2,
        log2_up(n) > 0 ==> pow2((log2_up(n) - 1) as nat) < n,
    decreases n,
{
    lemma2_to64();
    if n >= 2 {
        let m = ((n + 1) / 2) as nat;
        lemma_next_pow2_bounds(m);
        lemma_pow2_double(log2_up(m));
    }
}

/// Any `d` with `pow2(d) >= n` and a minimal exponent is `log2_up(n)`.
pub proof fn lemma_log2_up_unique(n: nat, d: nat)
    requires
        n >= 1,
        pow2(d) >= n,
        d > 0 ==> pow2((d - 1) as nat) < n,
    ensures
        d == log2_up(n),
{
    lemma_next_pow2_bounds(n);
    if d < log2_up(n) {
        lemma_pow2_le(d, (log2_up(n) - 1) as nat);
    }
    if d > log2_up(n) {
        lemma_pow2_le(log2_up(n), (d - 1) as nat);
    }
}

pub proof fn lemma_log2_up_monotone(m: nat, n: nat)
    requires
        m <= n,
    ensures
        log2_up(m) <= log2_up(n),
    decreases n,
{
    if m > 1 {
        lemma_log2_up_monotone(((m + 1) / 2) as nat, ((n + 1) / 2) as nat);
    }
}

/// Equal rounded sizes exactly when the base-two ceilings agree.
pub proof fn lemma_next_pow2_eq(m: nat, n: nat)
    requires
        1 <= m <= n,
        next_pow2(m) == next_pow2(n),
    ensures
        log2_up(m) == log2_up(n),
{
    lemma_log2_up_monotone(m, n);
    if log2_up(m) < log2_up(n) {
        lemma_pow2_strictly_increases(log2_up(m), log2_up(n));
    }
}

/// Largest leaf count the tree accepts; keeps every derived quantity (node
/// counts, bit offsets, byte sizes) within `usize` range on any platform.
pub const MAX_LEAF_BLOCKS: usize = 0x1000_0000;

pub proof fn lemma_max_leaf_blocks_pow2()
    ensures
        MAX_LEAF_BLOCKS == pow2(28),
{
    lemma2_to64();
}

/// Computes `pow2(e)` for small exponents.
pub fn pow2_exec(e: usize) -> (r: usize)
    requires
        e <= 28,
    ensures
        r == pow2(e as nat),
{
    let mut k: usize = 0;
    let mut p: usize = 1;
    proof {
        lemma2_to64();
    }
    while k < e
        invariant
            k <= e <= 28,
            p == pow2(k as nat),
        decreases e - k,
    {
        proof {
            lemma_pow2_le(k as nat, 27);
            lemma2_to64();
            lemma_pow2_double(k as nat);
        }
        p = p * 2;
        k = k + 1;
    }
    p
}

/// Computes `log2_up(n)` and `next_pow2(n)` together.
pub fn log2_up_exec(n: usize) -> (r: (usize, usize))
    requires
        1 <= n <= MAX_LEAF_BLOCKS,
    ensures
        r.0 == log2_up(n as nat),
        r.1 == next_pow2(n as nat),
        n <= r.1 <= MAX_LEAF_BLOCKS,
        r.0 <= 28,
{
    let mut d: usize = 0;
    let mut cap: usize = 1;
    proof {
        lemma2_to64();
    }
    while cap < n
        invariant
            1 <= n <= MAX_LEAF_BLOCKS,
            cap == pow2(d as nat),
            cap >= 1,
            d <= 28,
            d > 0 ==> pow2((d - 1) as nat) < n,
        decreases 28 - d,
    {
        proof {
            lemma_max_leaf_blocks_pow2();
            if d >= 28 {
                lemma_pow2_le(28, d as nat);
            }
            assert(d < 28);
            lemma_pow2_double(d as nat);
        }
        cap = cap * 2;
        d = d + 1;
    }
    proof {
        lemma_log2_up_unique(n as nat, d as nat);
        lemma_max_leaf_blocks_pow2();
        if d > 28 {
            lemma_pow2_le(28, (d - 1) as nat);
        }
        lemma_pow2_le(d as nat, 28);
    }
    (d, cap)
}

} // verus!

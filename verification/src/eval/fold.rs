//! Sums of a per-square term over the squares of a bitboard, lowest first.
use vstd::prelude::*;
use crate::board::bitboard::{sq_in, lsb_spec, clear_lsb, lemma_clear_lsb, pop_upto, pop_count, lemma_pop_upto_bound};

verus! {

/// The sum of `f` over the squares of `bb`.
pub open spec fn sum_sq(bb: u64, f: spec_fn(int) -> int) -> int
    decreases bb,
{
    if bb == 0 {
        0
    } else {
        proof {
            lemma_clear_lsb(bb);
        }
        f(lsb_spec(bb) as int) + sum_sq(clear_lsb(bb), f)
    }
}

/// Clearing the lowest square removes one square from the count.
pub proof fn lemma_pop_clear(bb: u64, n: nat)
    requires
        bb != 0,
        n <= 64,
    ensures
        pop_upto(clear_lsb(bb), n) + (if (lsb_spec(bb) as int) < n { 1int } else { 0int }) == pop_upto(bb, n),
    decreases n,
{
    lemma_clear_lsb(bb);
    if n > 0 {
        lemma_pop_clear(bb, (n - 1) as nat);
    }
}

/// A sum of terms bounded by `k` in size is bounded by `k` times the
/// number of squares.
pub proof fn lemma_sum_bound(bb: u64, f: spec_fn(int) -> int, k: int)
    requires
        k >= 0,
        forall|s: int| 0 <= s < 64 ==> -k <= #[trigger] f(s) <= k,
    ensures
        -k * pop_count(bb) <= sum_sq(bb, f) <= k * pop_count(bb),
        pop_count(bb) <= 64,
    decreases bb,
{
    lemma_pop_upto_bound(bb, 64);
    if bb == 0 {
        crate::board::bitboard::lemma_pop_zero(64);
        assert(pop_count(bb) == 0);
        assert(k * 0 == 0);
        assert(-k * 0 == 0);
    } else {
        lemma_clear_lsb(bb);
        crate::board::bitboard::lemma_lsb(bb);
        lemma_pop_clear(bb, 64);
        lemma_sum_bound(clear_lsb(bb), f, k);
        let t = lsb_spec(bb) as int;
        assert(0 <= t < 64);
        assert(-k <= f(t) <= k);
        assert(sum_sq(bb, f) == f(t) + sum_sq(clear_lsb(bb), f));
        assert(-k * pop_count(clear_lsb(bb)) - k == -k * pop_count(bb)) by (nonlinear_arith)
            requires
                pop_count(clear_lsb(bb)) + 1 == pop_count(bb),
        ;
        assert(k * pop_count(clear_lsb(bb)) + k == k * pop_count(bb)) by (nonlinear_arith)
            requires
                pop_count(clear_lsb(bb)) + 1 == pop_count(bb),
        ;
        let a = sum_sq(clear_lsb(bb), f);
        let lo = -k * pop_count(clear_lsb(bb));
        let hi = k * pop_count(clear_lsb(bb));
        assert(lo <= a <= hi);
        assert(lo - k <= f(t) + a <= hi + k);
    }
}

/// The same bound with at most 64 squares.
pub proof fn lemma_sum_bound64(bb: u64, f: spec_fn(int) -> int, k: int)
    requires
        k >= 0,
        forall|s: int| 0 <= s < 64 ==> -k <= #[trigger] f(s) <= k,
    ensures
        -64 * k <= sum_sq(bb, f) <= 64 * k,
{
    lemma_sum_bound(bb, f, k);
    assert(k * pop_count(bb) <= 64 * k) by (nonlinear_arith)
        requires
            k >= 0,
            pop_count(bb) <= 64,
    ;
    assert(-k * pop_count(bb) >= -64 * k) by (nonlinear_arith)
        requires
            k >= 0,
            pop_count(bb) <= 64,
    ;
}

/// A sum of nonnegative terms is nonnegative.
pub proof fn lemma_sum_nonneg(bb: u64, f: spec_fn(int) -> int)
    requires
        forall|s: int| 0 <= s < 64 ==> #[trigger] f(s) >= 0,
    ensures
        sum_sq(bb, f) >= 0,
    decreases bb,
{
    if bb != 0 {
        lemma_clear_lsb(bb);
        crate::board::bitboard::lemma_lsb(bb);
        lemma_sum_nonneg(clear_lsb(bb), f);
        assert(f(lsb_spec(bb) as int) >= 0);
    }
}

} // verus!

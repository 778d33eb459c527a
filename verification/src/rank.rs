//! Fixed-point rank arithmetic: the damped update and the even split.

use vstd::prelude::*;

verus! {

/// One whole unit of rank, in billionths.
pub const RANK_ONE: u64 = 1_000_000_000;

/// The customary damping factor, 0.85.
pub const DAMPING_FACTOR: u64 = 850_000_000;

/// The rank a node has before any round has updated it: one unit shared
/// evenly by all nodes, rounded down. An empty graph has no such rank.
pub open spec fn spec_default_rank(node_count: u64) -> Option<u64> {
    if node_count == 0 {
        None
    } else {
        Some((RANK_ONE / node_count) as u64)
    }
}

/// The damped update: `damping * raw_sum + (1 - damping) * default_rank`,
/// with `damping` in billionths and the result rounded down.
pub open spec fn damped(raw_sum: int, default_rank: int, damping: int) -> int {
    (damping * raw_sum + (RANK_ONE - damping) * default_rank) / (RANK_ONE as int)
}

/// What each outgoing edge of a node carries: the node's rank divided by its
/// out-degree, rounded down.
pub open spec fn even_share(rank: int, out_degree: int) -> int
    recommends
        out_degree > 0,
{
    rank / out_degree
}

/// Adding contributions stops at the largest representable rank.
pub open spec fn capped(total: int) -> int {
    if total > u64::MAX {
        u64::MAX as int
    } else {
        total
    }
}

/// The damped update is a weighted mean of its two inputs, so it lies between
/// them (after rounding down).
pub proof fn lemma_damped_bounds(raw_sum: int, default_rank: int, damping: int)
    requires
        0 <= raw_sum,
        0 <= default_rank,
        0 <= damping <= RANK_ONE,
    ensures
        raw_sum <= default_rank ==> raw_sum <= damped(raw_sum, default_rank, damping)
            <= default_rank,
        default_rank <= raw_sum ==> default_rank <= damped(raw_sum, default_rank, damping)
            <= raw_sum,
{
    let one = RANK_ONE as int;
    let num = damping * raw_sum + (one - damping) * default_rank;
    let lo = if raw_sum <= default_rank { raw_sum } else { default_rank };
    let hi = if raw_sum <= default_rank { default_rank } else { raw_sum };
    assert(lo * one <= num <= hi * one) by (nonlinear_arith)
        requires
            0 <= lo <= raw_sum <= hi,
            0 <= lo <= default_rank <= hi,
            0 <= damping <= one,
            num == damping * raw_sum + (one - damping) * default_rank,
    ;
    assert(lo <= num / one <= hi) by (nonlinear_arith)
        requires
            lo * one <= num <= hi * one,
            one > 0,
    ;
}

/// A node whose whole inflow is its own rank of the round before keeps, at
/// every round, a rank between that rank and the default: the update never
/// steps past the default rank.
pub proof fn lemma_damped_approaches_default(rank: int, default_rank: int, damping: int)
    requires
        0 <= rank,
        0 <= default_rank,
        0 <= damping <= RANK_ONE,
    ensures
        rank <= default_rank ==> rank <= damped(rank, default_rank, damping) <= default_rank,
        default_rank <= rank ==> default_rank <= damped(rank, default_rank, damping) <= rank,
        damped(default_rank, default_rank, damping) == default_rank,
{
    lemma_damped_bounds(rank, default_rank, damping);
    lemma_damped_bounds(default_rank, default_rank, damping);
}

/// The shares that a node sends along its `out_degree` edges add up to its
/// rank, less what rounding down leaves over: fewer than `out_degree`
/// billionths.
pub proof fn lemma_even_split(rank: int, out_degree: int)
    requires
        0 <= rank,
        0 < out_degree,
    ensures
        out_degree * even_share(rank, out_degree) == rank - rank % out_degree,
        rank - out_degree < out_degree * even_share(rank, out_degree) <= rank,
        rank % out_degree == 0 ==> out_degree * even_share(rank, out_degree) == rank,
{
    assert(rank == out_degree * (rank / out_degree) + rank % out_degree) by (nonlinear_arith)
        requires
            out_degree > 0,
    ;
    assert(0 <= rank % out_degree < out_degree) by (nonlinear_arith)
        requires
            out_degree > 0,
    ;
}

/// The default rank for a graph of `node_count` nodes.
pub fn default_rank(node_count: u64) -> (r: Option<u64>)
    ensures
        r == spec_default_rank(node_count),
{
    if node_count == 0 {
        None
    } else {
        Some(RANK_ONE / node_count)
    }
}

/// The rank of a node after a round in which `raw_sum` reached it.
pub fn new_rank(raw_sum: u64, default_rank: u64, damping: u64) -> (r: u64)
    requires
        damping <= RANK_ONE,
    ensures
        r == damped(raw_sum as int, default_rank as int, damping as int),
{
    proof {
        lemma_damped_bounds(raw_sum as int, default_rank as int, damping as int);
    }
    let one: u128 = RANK_ONE as u128;
    let d: u128 = damping as u128;
    let kept: u128 = one - d;
    let raw: u128 = raw_sum as u128;
    let base: u128 = default_rank as u128;
    assert(d * raw <= 1_000_000_000 * 0xffff_ffff_ffff_ffff) by (nonlinear_arith)
        requires
            0 <= d <= 1_000_000_000,
            0 <= raw <= 0xffff_ffff_ffff_ffff,
    ;
    assert(kept * base <= 1_000_000_000 * 0xffff_ffff_ffff_ffff) by (nonlinear_arith)
        requires
            0 <= kept <= 1_000_000_000,
            0 <= base <= 0xffff_ffff_ffff_ffff,
    ;
    let num: u128 = d * raw + kept * base;
    (num / one) as u64
}

/// The share that each of `out_degree` outgoing edges carries.
pub fn share(rank: u64, out_degree: usize) -> (r: u64)
    requires
        out_degree > 0,
    ensures
        r == even_share(rank as int, out_degree as int),
{
    rank / (out_degree as u64)
}

/// `acc + amount`, stopping at `u64::MAX`.
pub fn accumulate(acc: u64, amount: u64) -> (r: u64)
    ensures
        r == capped(acc + amount),
{
    if amount > u64::MAX - acc {
        u64::MAX
    } else {
        acc + amount
    }
}

} // verus!

//! The order in which buffers were used, and how renumbering the
//! "timestamps" of use keeps it.

use vstd::prelude::*;

verus! {

/// Buffer `j` was used before buffer `i`: it has the smaller timestamp, or the
/// same one and comes first.
pub open spec fn used_before(ages: Seq<usize>, j: int, i: int) -> bool {
    ages[j] < ages[i] || (ages[j] == ages[i] && j < i)
}

/// The order of use after buffer `idx` was used: it is the most recent, and
/// the others keep the order they had in `before`.
pub open spec fn used_last(before: Seq<usize>, after: Seq<usize>, idx: int) -> bool {
    &&& forall|j: int| 0 <= j < after.len() && j != idx ==> #[trigger] used_before(after, j, idx)
    &&& forall|a: int, b: int|
        0 <= a < after.len() && 0 <= b < after.len() && a != idx && b != idx ==> (
        #[trigger] used_before(after, a, b) <==> used_before(before, a, b))
}

/// Giving buffer `idx` a timestamp above all others, in an order of use
/// that keeps the order of `before`, makes `idx` the most recent and keeps
/// the order of the others.
pub proof fn lemma_used_last(before: Seq<usize>, mid: Seq<usize>, after: Seq<usize>, idx: int)
    requires
        mid.len() == before.len(),
        after.len() == before.len(),
        0 <= idx < after.len(),
        forall|a: int, b: int|
            0 <= a < before.len() && 0 <= b < before.len() && a != b ==> (used_before(before, a, b)
                <==> #[trigger] used_before(mid, a, b)),
        forall|j: int|
            0 <= j < after.len() && j != idx ==> #[trigger] after[j] == mid[j] && after[j]
                < after[idx],
    ensures
        used_last(before, after, idx),
{
    assert forall|a: int, b: int|
        0 <= a < after.len() && 0 <= b < after.len() && a != idx && b != idx implies (
        #[trigger] used_before(after, a, b) <==> used_before(before, a, b)) by {
        if a != b {
            assert(used_before(after, a, b) == used_before(mid, a, b));
        }
    }
}

/// The number of buffers among the first `n` that were used before buffer `i`.
pub open spec fn rank(ages: Seq<usize>, i: int, n: int) -> nat
    decreases n,
{
    if n <= 0 {
        0
    } else {
        rank(ages, i, n - 1) + if used_before(ages, n - 1, i) {
            1nat
        } else {
            0nat
        }
    }
}

/// A rank counts only other buffers, so it stays below their number.
proof fn lemma_rank_bound(ages: Seq<usize>, i: int, n: int)
    requires
        0 <= i < n,
    ensures
        rank(ages, i, n) <= n - 1,
    decreases n,
{
    if n > i + 1 {
        lemma_rank_bound(ages, i, n - 1);
    } else {
        lemma_rank_le(ages, i, n - 1);
    }
}

/// A rank never exceeds the number of buffers it counts over.
proof fn lemma_rank_le(ages: Seq<usize>, i: int, n: int)
    requires
        0 <= n,
    ensures
        rank(ages, i, n) <= n,
    decreases n,
{
    if n > 0 {
        lemma_rank_le(ages, i, n - 1);
    }
}

/// A buffer used before another has the smaller rank.
proof fn lemma_rank_monotone(ages: Seq<usize>, i: int, k: int, n: int)
    requires
        used_before(ages, i, k),
        0 <= i,
        0 <= n,
    ensures
        rank(ages, i, n) <= rank(ages, k, n),
        i < n ==> rank(ages, i, n) < rank(ages, k, n),
    decreases n,
{
    if n > 0 {
        lemma_rank_monotone(ages, i, k, n - 1);
        if n - 1 == i {
            assert(used_before(ages, i, k));
        }
    }
}

/// Replacing the timestamps by their ranks keeps the order in which the
/// buffers were used, and every new timestamp is below the number of buffers.
pub proof fn lemma_ranks_keep_order(ages: Seq<usize>, i: int, k: int)
    requires
        0 <= i < ages.len(),
        0 <= k < ages.len(),
        i != k,
    ensures
        rank(ages, i, ages.len() as int) < ages.len(),
        used_before(ages, i, k) <==> rank(ages, i, ages.len() as int) < rank(
            ages,
            k,
            ages.len() as int,
        ),
{
    let n = ages.len() as int;
    lemma_rank_bound(ages, i, n);
    if used_before(ages, i, k) {
        lemma_rank_monotone(ages, i, k, n);
    } else {
        lemma_rank_monotone(ages, k, i, n);
    }
}

} // verus!

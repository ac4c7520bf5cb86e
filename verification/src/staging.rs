//! Room for staged bootstrap data: how many weaker stagings must go for new bytes to fit.
use vstd::prelude::*;

verus! {

/// The bytes held after the first `k` stagings of `losers` are reclaimed from `total`,
/// never below zero.
pub open spec fn remaining_after(total: int, losers: Seq<u64>, k: int) -> int
    decreases k,
{
    if k <= 0 {
        total
    } else {
        let r = remaining_after(total, losers, k - 1);
        if r >= losers[k - 1] { r - losers[k - 1] } else { 0 }
    }
}

/// Whether `incoming` bytes fit under `limit` once the first `k` losers are reclaimed.
pub open spec fn fits_after(total: int, incoming: int, limit: int, losers: Seq<u64>, k: int) -> bool {
    remaining_after(total, losers, k) + incoming <= limit
}

/// The fewest of `losers`, weakest first, whose removal lets `incoming` bytes fit
/// under `limit` beside `total` held bytes; `None` when reclaiming all of them is not enough.
pub fn reclaim_count(total: u64, incoming: u64, limit: u64, losers: &[u64]) -> (r: Option<usize>)
    ensures
        r matches Some(k) ==> k <= losers@.len() && fits_after(total as int, incoming as int, limit as int, losers@, k as int)
            && forall|j: int| 0 <= j < k ==> !fits_after(total as int, incoming as int, limit as int, losers@, j),
        r is None ==> forall|j: int| 0 <= j <= losers@.len() ==> !fits_after(total as int, incoming as int, limit as int, losers@, j),
{
    let mut remaining = total;
    let mut count: usize = 0;
    loop
        invariant
            count <= losers@.len(),
            remaining as int == remaining_after(total as int, losers@, count as int),
            forall|j: int| 0 <= j < count ==> !fits_after(total as int, incoming as int, limit as int, losers@, j),
        decreases losers@.len() - count,
    {
        if remaining <= limit && incoming <= limit - remaining {
            return Some(count);
        }
        if count == losers.len() {
            return None;
        }
        let bytes = losers[count];
        remaining = if remaining >= bytes { remaining - bytes } else { 0 };
        count += 1;
    }
}

} // verus!

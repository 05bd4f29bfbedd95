//! Planning of block progression: which block the surrounding runtime
//! steps through next, and at which slot. The runtime performs the
//! actual transition for each planned pair; slots grow with blocks.

use vstd::prelude::*;

verus! {

/// The blocks to step through to reach block `n` from the current
/// block, paired with their slots: block `block_number + 1` runs at
/// `current_slot + 1`, and each later block one slot later. Reaching
/// a block not past the current one needs no step.
pub fn progress_to_block(block_number: u64, current_slot: u64, n: u64) -> (r: Vec<(u64, u64)>)
    requires
        block_number < n ==> n - block_number <= u64::MAX - current_slot,
    ensures
        block_number >= n ==> r@.len() == 0,
        block_number < n ==> r@.len() == n - block_number,
        forall|i: int|
            0 <= i < r@.len() ==> #[trigger] r@[i] == (
                (block_number + 1 + i) as u64,
                (current_slot + 1 + i) as u64,
            ),
{
    let mut plan: Vec<(u64, u64)> = Vec::new();
    if n <= block_number {
        return plan;
    }
    let mut block: u64 = block_number + 1;
    let mut slot: u64 = current_slot + 1;
    while block <= n
        invariant
            block_number < n,
            n - block_number <= u64::MAX - current_slot,
            block_number < block <= n + 1,
            block <= n ==> slot == current_slot + (block - block_number),
            plan@.len() == block - block_number - 1,
            forall|i: int|
                0 <= i < plan@.len() ==> #[trigger] plan@[i] == (
                    (block_number + 1 + i) as u64,
                    (current_slot + 1 + i) as u64,
                ),
        decreases n - block,
    {
        plan.push((block, slot));
        if block == n {
            return plan;
        }
        block += 1;
        slot += 1;
    }
    plan
}

} // verus!

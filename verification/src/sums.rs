//! Sums of block sizes, taken in order of the blocks' offsets.
use crate::alignment;
use vstd::prelude::*;

verus! {

/// One past the largest offset.
pub open spec fn address_space() -> int {
    0x1_0000_0000_0000_0000
}

/// The sum of the sizes of the blocks that start below `bound`, for blocks given as a map from
/// offset to size.
pub open spec fn bytes_below(sizes: Map<u64, u64>, bound: int) -> int
    decreases bound,
{
    if bound <= 0 {
        0
    } else {
        let offset = (bound - 1) as u64;
        bytes_below(sizes, bound - 1) + if sizes.contains_key(offset) {
            sizes[offset] as int
        } else {
            0
        }
    }
}

/// The sum of the sizes of all blocks.
pub open spec fn total(sizes: Map<u64, u64>) -> int {
    bytes_below(sizes, address_space())
}

/// A larger bound leaves no smaller sum.
pub proof fn lemma_bytes_below_monotone(sizes: Map<u64, u64>, low: int, high: int)
    requires
        low <= high,
    ensures
        0 <= bytes_below(sizes, low) <= bytes_below(sizes, high),
    decreases high,
{
    if high > 0 {
        if low < high {
            lemma_bytes_below_monotone(sizes, low, high - 1);
        } else {
            lemma_bytes_below_monotone(sizes, low - 1, high - 1);
        }
    }
}

/// Raising the bound over offsets at which no block starts leaves the sum as it is.
pub proof fn lemma_bytes_below_gap(sizes: Map<u64, u64>, low: int, high: int)
    requires
        0 <= low <= high <= address_space(),
        forall|o: u64| low <= o < high ==> !sizes.contains_key(o),
    ensures
        bytes_below(sizes, low) == bytes_below(sizes, high),
    decreases high - low,
{
    if low < high {
        lemma_bytes_below_gap(sizes, low, high - 1);
    }
}

/// A new block adds its size to the sums above its offset.
pub proof fn lemma_bytes_below_insert(sizes: Map<u64, u64>, offset: u64, size: u64, bound: int)
    requires
        0 <= bound <= address_space(),
        !sizes.contains_key(offset),
    ensures
        bytes_below(sizes.insert(offset, size), bound) == bytes_below(sizes, bound) + if offset
            < bound {
            size as int
        } else {
            0
        },
    decreases bound,
{
    if bound > 0 {
        lemma_bytes_below_insert(sizes, offset, size, bound - 1);
    }
}

/// A block that goes takes its size off the sums above its offset.
pub proof fn lemma_bytes_below_remove(sizes: Map<u64, u64>, offset: u64, bound: int)
    requires
        0 <= bound <= address_space(),
        sizes.contains_key(offset),
    ensures
        bytes_below(sizes.remove(offset), bound) == bytes_below(sizes, bound) - if offset < bound {
            sizes[offset] as int
        } else {
            0
        },
{
    lemma_bytes_below_insert(sizes.remove(offset), offset, sizes[offset], bound);
    assert(sizes.remove(offset).insert(offset, sizes[offset]) =~= sizes);
}

/// Blocks that do not overlap, and that end by `end`, are together no longer than `end`.
pub proof fn lemma_bytes_below_bound(sizes: Map<u64, u64>, bound: int, end: int)
    requires
        0 <= bound <= address_space(),
        0 <= end,
        forall|o: u64|
            #![trigger sizes.contains_key(o)]
            sizes.contains_key(o) && o < bound ==> o + sizes[o] <= end,
        forall|o: u64, p: u64|
            #![trigger sizes.contains_key(o), sizes.contains_key(p)]
            sizes.contains_key(o) && sizes.contains_key(p) && o < p ==> o + sizes[o] <= p,
    ensures
        bytes_below(sizes, bound) <= end,
    decreases bound,
{
    if bound > 0 {
        let offset = (bound - 1) as u64;
        if sizes.contains_key(offset) {
            lemma_bytes_below_bound(sizes, bound - 1, offset as int);
        } else {
            lemma_bytes_below_bound(sizes, bound - 1, end);
        }
    }
}

/// Blocks of aligned sizes have an aligned sum.
pub proof fn lemma_bytes_below_multiple(sizes: Map<u64, u64>, bound: int)
    requires
        0 <= bound <= address_space(),
        forall|o: u64| sizes.contains_key(o) ==> (#[trigger] sizes[o]) as int % alignment::alignment() == 0,
    ensures
        bytes_below(sizes, bound) % alignment::alignment() == 0,
    decreases bound,
{
    if bound > 0 {
        lemma_bytes_below_multiple(sizes, bound - 1);
    }
}

} // verus!

//! Proofs about compacting.
use crate::alignment;
use crate::allocator::UsedBytes;
use crate::layout::Layout;
use crate::preservation;
use crate::sums;
use vstd::prelude::*;

verus! {

/// Up to a block boundary, the bytes of the blocks that start before it are all the bytes before it.
pub proof fn lemma_boundary(layout: Layout, bound: int)
    requires
        layout.wf(),
        bound == layout.size || (0 <= bound < layout.size && layout.is_block(bound as u64)),
    ensures
        sums::bytes_below(layout.sizes(), bound) + sums::bytes_below(layout.free, bound) == bound,
    decreases bound,
{
    if bound > 0 {
        let address = bound - 1;
        assert(layout.is_owned(address));
        let last = choose|o: u64| layout.owns(o, address);
        let size = layout.block_size(last);
        assert(layout.is_block(last));
        if bound < layout.size {
            assert(layout.is_block(bound as u64));
        }
        assert(last + size == bound);
        lemma_boundary(layout, last as int);
        assert forall|o: u64| last < o < bound implies !layout.sizes().contains_key(o)
            && !layout.free.contains_key(o) by {
            if layout.is_block(o) {
                assert(layout.is_block(last));
            }
        }
        sums::lemma_bytes_below_gap(layout.sizes(), last + 1, bound);
        sums::lemma_bytes_below_gap(layout.free, last + 1, bound);
        if layout.allocated.contains_key(last) {
            assert(!layout.free.contains_key(last));
        }
    }
}

/// No block has its target behind it, and the targets keep blocks in order and apart.
pub proof fn lemma_targets(layout: Layout)
    requires
        layout.wf(),
    ensures
        forall|o: u64| #[trigger]
            layout.allocated.contains_key(o) ==> 0 <= layout.target(o) <= o && layout.target(o)
                + layout.allocated[o].physical_size <= layout.used <= layout.size,
        forall|o: u64, p: u64|
            #![trigger layout.allocated.contains_key(o), layout.allocated.contains_key(p)]
            layout.allocated.contains_key(o) && layout.allocated.contains_key(p) && o < p
                ==> layout.target(o) + layout.allocated[o].physical_size <= layout.target(p),
{
    let sizes = layout.sizes();
    preservation::lemma_used_within_size(layout);
    assert forall|o: u64| #[trigger] layout.allocated.contains_key(o) implies 0 <= layout.target(o)
        <= o && layout.target(o) + layout.allocated[o].physical_size <= layout.used by {
        assert(layout.is_block(o));
        if o < layout.size {
            lemma_boundary(layout, o as int);
            sums::lemma_bytes_below_monotone(layout.free, 0, o as int);
        }
        sums::lemma_bytes_below_monotone(sizes, 0, o as int);
        sums::lemma_bytes_below_monotone(sizes, o + 1, sums::address_space());
    }
    assert forall|o: u64, p: u64|
        #![trigger layout.allocated.contains_key(o), layout.allocated.contains_key(p)]
        layout.allocated.contains_key(o) && layout.allocated.contains_key(p) && o
            < p implies layout.target(o) + layout.allocated[o].physical_size <= layout.target(
        p,
    ) by {
        sums::lemma_bytes_below_monotone(sizes, o + 1, p as int);
    }
}

/// The moves listed for the blocks below `bound` take each of them to its target.
proof fn lemma_listed_moves(layout: Layout, bound: int)
    requires
        layout.wf(),
        0 <= bound <= sums::address_space(),
    ensures
        ({
            let moves = Layout::moves(layout.relocations_below(bound));
            forall|o: u64| #[trigger]
                moves.contains_key(o) <==> o < bound && layout.allocated.contains_key(o)
                    && layout.target(o) != o
        }),
        ({
            let moves = Layout::moves(layout.relocations_below(bound));
            forall|o: u64| #[trigger] moves.contains_key(o) ==> moves[o] == layout.target(o)
        }),
    decreases bound,
{
    if bound > 0 {
        lemma_listed_moves(layout, bound - 1);
        lemma_targets(layout);
        let offset = (bound - 1) as u64;
        let before = layout.relocations_below(bound - 1);
        let list = layout.relocations_below(bound);
        if layout.allocated.contains_key(offset) && layout.target(offset) != offset {
            assert(list.drop_last() =~= before);
            assert(Layout::moves(list) == Layout::moves(before).insert(
                offset,
                layout.target(offset) as u64,
            ));
        }
    }
}

/// The blocks after the moves of those below `bound`: these are at their targets, the others where
/// they were.
pub open spec fn half_compacted(layout: Layout, bound: int, moved: Map<u64, UsedBytes>) -> bool {
    &&& forall|o: u64| #[trigger]
        layout.allocated.contains_key(o) && o < bound ==> moved.contains_key(
            layout.target(o) as u64,
        ) && moved[layout.target(o) as u64] == layout.allocated[o]
    &&& forall|k: u64| #[trigger]
        moved.contains_key(k) && k < bound ==> exists|o: u64|
            #![trigger layout.allocated.contains_key(o)]
            o < bound && layout.allocated.contains_key(o) && layout.target(o) == k
    &&& forall|k: u64|
        k >= bound ==> (#[trigger] moved.contains_key(k) <==> layout.allocated.contains_key(k))
            && (moved.contains_key(k) ==> moved[k] == layout.allocated[k])
}

/// Making the moves of the relocation list by increasing offset leaves the blocks half compacted at
/// every step, and loses none.
proof fn lemma_moving(layout: Layout, moves: Map<u64, u64>, bound: int)
    requires
        layout.wf(),
        0 <= bound <= sums::address_space(),
        moves == Layout::moves(layout.relocations()),
    ensures
        half_compacted(layout, bound, Layout::moved_below(layout.allocated, moves, bound)),
        ({
            let moved = Layout {
                allocated: Layout::moved_below(layout.allocated, moves, bound),
                ..layout
            };
            sums::total(moved.sizes()) == sums::total(layout.sizes())
        }),
    decreases bound,
{
    if bound > 0 {
        let offset = (bound - 1) as u64;
        lemma_moving(layout, moves, bound - 1);
        lemma_targets(layout);
        lemma_listed_moves(layout, sums::address_space());
        let before = Layout::moved_below(layout.allocated, moves, bound - 1);
        let after = Layout::moved_below(layout.allocated, moves, bound);
        if layout.allocated.contains_key(offset) {
            let target = layout.target(offset) as u64;
            assert(before.contains_key(offset));
            assert(layout.is_block(offset));
            if target != offset {
                assert(moves.contains_key(offset));
                assert(!before.contains_key(target)) by {
                    if before.contains_key(target) {
                        let o = choose|o: u64|
                            #![trigger layout.allocated.contains_key(o)]
                            o < bound - 1 && layout.allocated.contains_key(o) && layout.target(o)
                                == target;
                        assert(layout.is_block(o));
                    }
                }
                let was = Layout { allocated: before, ..layout };
                let is = Layout { allocated: after, ..layout };
                let size = before[offset].physical_size;
                assert(is.sizes() =~= was.sizes().remove(offset).insert(target, size));
                sums::lemma_bytes_below_remove(was.sizes(), offset, sums::address_space());
                sums::lemma_bytes_below_insert(
                    was.sizes().remove(offset),
                    target,
                    size,
                    sums::address_space(),
                );
                assert forall|o: u64| #[trigger]
                    layout.allocated.contains_key(o) && o < bound implies after.contains_key(
                    layout.target(o) as u64,
                ) && after[layout.target(o) as u64] == layout.allocated[o] by {
                    if o < offset {
                        assert(layout.is_block(o));
                    }
                }
            } else {
                assert(!moves.contains_key(offset));
            }
            assert forall|k: u64| #[trigger] after.contains_key(k) && k < bound implies exists|
                o: u64,
            |
                #![trigger layout.allocated.contains_key(o)]
                o < bound && layout.allocated.contains_key(o) && layout.target(o) == k by {
                if k != target {
                    assert(before.contains_key(k));
                }
            }
        } else {
            assert(!moves.contains_key(offset));
            assert(!before.contains_key(offset));
        }
    }
}

/// In the blocks that start below `bound`, every byte below their sum is taken.
proof fn lemma_targets_cover(layout: Layout, bound: int, address: int) -> (offset: u64)
    requires
        0 <= bound <= sums::address_space(),
        0 <= address < sums::bytes_below(layout.sizes(), bound),
    ensures
        layout.allocated.contains_key(offset),
        layout.target(offset) <= address < layout.target(offset)
            + layout.allocated[offset].physical_size,
    decreases bound,
{
    let offset = (bound - 1) as u64;
    if address < sums::bytes_below(layout.sizes(), bound - 1) {
        lemma_targets_cover(layout, bound - 1, address)
    } else {
        offset
    }
}

/// Where the moves of a layout's own relocation list leave each block.
pub proof fn lemma_compacted(layout: Layout)
    requires
        layout.wf(),
    ensures
        ({
            let list = layout.relocations();
            let after = layout.after_relocate(list);
            &&& layout.moves_found(Layout::moves(list))
            &&& sums::total(after.sizes()) == layout.used
            &&& forall|o: u64| #[trigger]
                layout.allocated.contains_key(o) ==> after.allocated.contains_key(
                    layout.target(o) as u64,
                ) && after.allocated[layout.target(o) as u64] == layout.allocated[o]
            &&& forall|k: u64| #[trigger]
                after.allocated.contains_key(k) ==> exists|o: u64| #[trigger]
                    layout.allocated.contains_key(o) && layout.target(o) == k
        }),
{
    let list = layout.relocations();
    let moves = Layout::moves(list);
    let after = layout.after_relocate(list);
    assert forall|o: u64| #[trigger] moves.contains_key(o) implies Layout::moved_below(
        layout.allocated,
        moves,
        o as int,
    ).contains_key(o) by {
        lemma_listed_moves(layout, sums::address_space());
        lemma_moving(layout, moves, o as int);
    }
    lemma_moving(layout, moves, sums::address_space());
    let moved = Layout { allocated: layout.moved(moves), ..layout };
    assert(after.sizes() =~= moved.sizes());
}

/// Compacting keeps a layout well-formed, and leaves at most one free block, at the end.
pub proof fn lemma_compact_wf(layout: Layout)
    requires
        layout.wf(),
    ensures
        layout.after_relocate(layout.relocations()).wf(),
        layout.after_relocate(layout.relocations()).coalesced(),
{
    let after = layout.after_relocate(layout.relocations());
    lemma_compacted(layout);
    lemma_targets(layout);
    preservation::lemma_used_within_size(layout);
    let used = layout.used;
    let room = (layout.size - used) as u64;
    assert forall|k: u64| #[trigger] after.allocated.contains_key(k) implies exists|o: u64| #[trigger]
        layout.allocated.contains_key(o) && layout.target(o) == k && after.allocated[k]
            == layout.allocated[o] by {}
    assert(after.indexed()) by {
        if room > 0 {
            assert(after.by_size[room] =~= seq![used]);
            assert(after.by_size[room][0] == used);
        }
    }
    assert(after.nonempty()) by {
        assert forall|k: u64| #[trigger] after.is_block(k) implies after.block_size(k) > 0
            || after.size == 0 by {
            if after.allocated.contains_key(k) {
                let o = choose|o: u64| #[trigger]
                    layout.allocated.contains_key(o) && layout.target(o) == k;
                assert(layout.is_block(o));
            }
        }
    }
    assert(after.disjoint()) by {
        assert forall|k: u64| #[trigger] after.allocated.contains_key(k) implies k
            + after.allocated[k].physical_size <= used && (after.allocated[k].physical_size > 0
            || after.size == 0) by {
            let o = choose|o: u64| #[trigger]
                layout.allocated.contains_key(o) && layout.target(o) == k;
            assert(layout.is_block(o));
        }
        assert forall|l: u64, r: u64|
            #![trigger after.is_block(l), after.is_block(r)]
            after.is_block(l) && after.is_block(r) && l < r implies l + after.block_size(l)
            <= r by {
            if after.allocated.contains_key(l) && after.allocated.contains_key(r) {
                let o = choose|o: u64| #[trigger]
                    layout.allocated.contains_key(o) && layout.target(o) == l;
                let p = choose|p: u64| #[trigger]
                    layout.allocated.contains_key(p) && layout.target(p) == r;
                assert(layout.allocated.contains_key(o) && layout.allocated.contains_key(p));
            }
        }
        assert forall|k: u64| !(#[trigger] after.allocated.contains_key(k)
            && after.free.contains_key(k)) by {}
    }
    assert(after.covered()) by {
        assert forall|address: int| 0 <= address < after.size implies #[trigger] after.is_owned(
            address,
        ) by {
            if address < used {
                let o = lemma_targets_cover(layout, sums::address_space(), address);
                assert(after.owns(layout.target(o) as u64, address));
            } else {
                assert(after.owns(used, address));
            }
        }
    }
    assert(after.aligned()) by {
        assert forall|k: u64| #[trigger] after.allocated.contains_key(k) implies k as int
            % alignment::alignment() == 0 && after.allocated[k].physical_size as int
            % alignment::alignment() == 0 && after.allocated[k]._virtual_size
            <= after.allocated[k].physical_size by {
            let o = choose|o: u64| #[trigger]
                layout.allocated.contains_key(o) && layout.target(o) == k;
            assert(layout.allocated.contains_key(o));
            sums::lemma_bytes_below_multiple(layout.sizes(), o as int);
        }
        sums::lemma_bytes_below_multiple(layout.sizes(), sums::address_space());
    }
}

} // verus!

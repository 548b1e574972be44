//! What holds of the library as a whole.
use crate::alignment;
use crate::allocator::UsedBytes;
use crate::compaction;
use crate::layout::Layout;
use crate::memory::{self, BufferCopy, BufferWrite};
use crate::preservation;
use crate::sums;
use vstd::prelude::*;

verus! {

/// Padding brings data up to an aligned length, and padding what is padded changes nothing.
/// What `pad_data` accepts, it accepts again once it is padded.
pub proof fn law_padding_twice(data: Seq<u8>)
    ensures
        alignment::padded(data).len() as int % alignment::alignment() == 0,
        alignment::padded(alignment::padded(data)) == alignment::padded(data),
        data.len() as int % alignment::alignment() == 0 <==> alignment::padded(data) == data,
        data.len() + alignment::alignment() - 1 <= usize::MAX ==> alignment::padded(data).len()
            + alignment::alignment() - 1 <= usize::MAX,
{
    assert(alignment::padded(data).len() == alignment::align_up(data.len() as int));
    assert(alignment::padded(alignment::padded(data)) =~= alignment::padded(data));
    if data.len() as int % alignment::alignment() == 0 {
        assert(alignment::padded(data) =~= data);
    }
}

/// Padding goes behind the data: an aligned front is left as it is, and so is no data at all.
pub proof fn law_padding_behind(front: Seq<u8>, back: Seq<u8>)
    requires
        front.len() as int % alignment::alignment() == 0,
    ensures
        alignment::padded(front + back) == front + alignment::padded(back),
        alignment::padded(Seq::empty()) == Seq::<u8>::empty(),
{
    assert(alignment::padded(front + back) =~= front + alignment::padded(back));
    assert(alignment::padded(Seq::empty()) =~= Seq::<u8>::empty());
}

/// No byte is lost: those in use and those of the free blocks are together all bytes of the
/// buffer.
pub proof fn law_conservation(layout: Layout)
    requires
        layout.wf(),
    ensures
        layout.used + sums::total(layout.free) == layout.size,
{
    compaction::lemma_boundary(layout, layout.size as int);
    let size = layout.size as int;
    lemma_nothing_above(layout, layout.sizes(), size, sums::address_space());
    lemma_nothing_above(layout, layout.free, size, sums::address_space());
}

/// Blocks that start at or above the size of the buffer have no bytes.
proof fn lemma_nothing_above(layout: Layout, sizes: Map<u64, u64>, low: int, high: int)
    requires
        layout.wf(),
        sizes == layout.sizes() || sizes == layout.free,
        layout.size <= low <= high <= sums::address_space(),
    ensures
        sums::bytes_below(sizes, low) == sums::bytes_below(sizes, high),
    decreases high - low,
{
    if low < high {
        lemma_nothing_above(layout, sizes, low, high - 1);
        let offset = (high - 1) as u64;
        if sizes.contains_key(offset) {
            assert(layout.is_block(offset));
        }
    }
}

/// Every byte of the buffer belongs to exactly one block.
pub proof fn law_one_owner(layout: Layout, address: int)
    requires
        layout.wf(),
        0 <= address < layout.size,
    ensures
        exists|offset: u64| layout.owns(offset, address),
        forall|left: u64, right: u64| #[trigger]
            layout.owns(left, address) && #[trigger] layout.owns(right, address) ==> left == right,
{
    assert(layout.is_owned(address));
    assert forall|left: u64, right: u64| #[trigger]
        layout.owns(left, address) && #[trigger] layout.owns(right, address) implies left
        == right by {
        assert(layout.is_block(left) && layout.is_block(right));
    }
}

/// A request is served exactly when some free block is large enough for it, and then from a free
/// block that no smaller free block could replace.
pub proof fn law_best_fit(layout: Layout, request: int)
    requires
        layout.wf(),
    ensures
        layout.placement(request) is Some <==> exists|offset: u64| #[trigger]
            layout.free.contains_key(offset) && request <= layout.free[offset],
        layout.placement(request) matches Some(offset) ==> {
            &&& layout.free.contains_key(offset)
            &&& request <= layout.free[offset]
            &&& forall|other: u64| #[trigger]
                layout.free.contains_key(other) && request <= layout.free[other]
                    ==> layout.free[offset] <= layout.free[other]
        },
{
    preservation::lemma_placement(layout, request);
}

/// When no block is allocated, the whole buffer is one free block.
pub proof fn law_all_free(layout: Layout)
    requires
        layout.wf(),
        layout.coalesced(),
        layout.allocated.dom() == Set::<u64>::empty(),
        layout.size > 0,
    ensures
        layout.free == Map::<u64, u64>::empty().insert(0, layout.size),
        layout.used == 0,
{
    assert(layout.is_owned(0));
    let first = choose|o: u64| layout.owns(o, 0);
    assert(layout.is_block(0));
    assert(layout.free.contains_key(0));
    let end = layout.free[0] as int;
    if end < layout.size {
        assert(layout.is_owned(end));
        let next = choose|o: u64| layout.owns(o, end);
        assert(layout.is_block(next));
        assert(layout.free.contains_key(next));
    }
    assert forall|o: u64| layout.free.contains_key(o) implies o == 0 by {
        assert(layout.is_block(o));
    }
    assert(layout.free =~= Map::<u64, u64>::empty().insert(0, layout.size));
    sums::lemma_bytes_below_gap(layout.sizes(), 0, sums::address_space());
}

/// An allocation leaves all others as they are, at an aligned offset where none was.
pub proof fn law_allocation_is_apart(layout: Layout, block: UsedBytes)
    requires
        layout.wf(),
        layout.placement(block.physical_size as int) is Some,
    ensures
        ({
            let offset = layout.placement(block.physical_size as int)->0;
            let after = layout.after_allocate(block);
            &&& !layout.allocated.contains_key(offset)
            &&& offset as int % alignment::alignment() == 0
            &&& after.allocated == layout.allocated.insert(offset, block)
            &&& after.used == layout.used + block.physical_size
            &&& forall|other: u64| #[trigger]
                layout.allocated.contains_key(other) ==> other
                    + layout.allocated[other].physical_size <= offset || offset
                    + block.physical_size <= other
        }),
{
    let request = block.physical_size as int;
    preservation::lemma_placement(layout, request);
    preservation::lemma_placement_fits(layout, request);
    let offset = layout.placement(request)->0;
    assert(layout.is_block(offset));
    assert forall|other: u64| #[trigger] layout.allocated.contains_key(other) implies other
        + layout.allocated[other].physical_size <= offset || offset + request <= other by {
        assert(layout.is_block(other));
    }
}

/// Freeing a block right after it was allocated restores the free blocks, the allocated blocks and
/// the count of bytes in use.
pub proof fn law_deallocate_undoes_allocate(layout: Layout, block: UsedBytes)
    requires
        layout.wf(),
        layout.coalesced(),
        layout.placement(block.physical_size as int) is Some,
    ensures
        ({
            let offset = layout.placement(block.physical_size as int)->0;
            let after = layout.after_allocate(block).after_deallocate(offset);
            &&& after.size == layout.size
            &&& after.used == layout.used
            &&& after.free == layout.free
            &&& after.allocated == layout.allocated
            &&& after.wf()
        }),
{
    let request = block.physical_size as int;
    let offset = layout.placement(request)->0;
    let held = layout.after_allocate(block);
    let after = held.after_deallocate(offset);
    preservation::lemma_placement(layout, request);
    preservation::lemma_placement_fits(layout, request);
    let size = layout.free[offset];
    assert(layout.is_block(offset) && layout.block_size(offset) == size);
    let end = (offset + request) as u64;
    let rest = held.without_right(offset);
    assert(held.free.contains_key(end) <==> size > request) by {
        if size == request && held.free.contains_key(end) {
            assert(layout.free.contains_key(end));
            assert(layout.free.contains_key(offset));
        }
    }
    assert(held.freed_end(offset) == offset + size);
    assert(rest.left_neighbor(offset) is None) by {
        preservation::lemma_last_free_below(rest, offset);
        if let Some(left) = rest.last_free_below(offset) {
            assert(layout.free.contains_key(left));
        }
    }
    assert(after.free =~= layout.free) by {
        if size > request > 0 {
            assert(!layout.free.contains_key(end)) by {
                if layout.free.contains_key(end) {
                    assert(layout.is_block(end));
                }
            }
        }
    }
    assert(after.allocated =~= layout.allocated);
    assert(after.indexed()) by {
        preservation::lemma_indexed_served(layout, block);
        if size > request {
            preservation::lemma_indexed_without_free(held.without_allocated(offset), end);
        }
        preservation::lemma_indexed_with_free(rest, offset, size);
    }
    assert(after.covered()) by {
        assert forall|address: int| 0 <= address < after.size implies #[trigger] after.is_owned(
            address,
        ) by {
            assert(layout.is_owned(address));
            let owner = choose|o: u64| layout.owns(o, address);
            assert(after.owns(owner, address));
        }
    }
    assert(after.nonempty() && after.disjoint() && after.aligned()) by {
        assert forall|o: u64| #[trigger] after.is_block(o) implies layout.is_block(o)
            && after.block_size(o) == layout.block_size(o) by {}
    }
    assert(after.sizes() == layout.sizes());
}

/// Freeing a block takes it, and no other, off the allocated blocks, so that it cannot be freed
/// again, and makes its bytes part of one free block.
pub proof fn law_deallocation(layout: Layout, offset: u64)
    requires
        layout.wf(),
        layout.allocated.contains_key(offset),
    ensures
        ({
            let size = layout.allocated[offset].physical_size;
            let after = layout.after_deallocate(offset);
            &&& after.allocated == layout.allocated.remove(offset)
            &&& after.used == layout.used - size
            &&& sums::total(after.free) == sums::total(layout.free) + size
            &&& exists|start: u64| #[trigger]
                after.free.contains_key(start) && start <= offset && offset + size <= start
                    + after.free[start]
        }),
{
    let size = layout.allocated[offset].physical_size;
    let after = layout.after_deallocate(offset);
    preservation::lemma_release_fits(layout, offset);
    preservation::lemma_deallocate_wf(layout, offset);
    law_conservation(layout);
    law_conservation(after);
    let rest = layout.without_right(offset);
    let start = match rest.left_neighbor(offset) {
        Some(left) => left,
        None => offset,
    };
    preservation::lemma_last_free_below(rest, offset);
    assert(after.free.contains_key(start));
}

// ---- the bytes of the buffer ----
/// A write of no more than `len` bytes at `offset` changes nothing outside these.
proof fn lemma_write_apart(
    memory: Seq<u8>,
    write: BufferWrite,
    len: int,
    other: int,
    other_len: int,
)
    requires
        write.data@.len() <= len,
        0 <= other,
        0 <= other_len,
        other + other_len <= memory.len(),
        other + other_len <= write.offset || write.offset + len <= other,
    ensures
        memory::read(write.applied(memory), other, other_len) == memory::read(
            memory,
            other,
            other_len,
        ),
{
    assert(memory::read(write.applied(memory), other, other_len) =~= memory::read(
        memory,
        other,
        other_len,
    ));
}

/// What an allocation stores is read back from its block, and no other block changes.
pub proof fn law_allocate_stores(
    layout: Layout,
    memory: Seq<u8>,
    data: Seq<u8>,
    padding: Option<u64>,
    write: BufferWrite,
)
    requires
        layout.wf(),
        memory.len() == layout.size,
        layout.placement(alignment::physical_size(data.len(), padding)) == Some(write.offset),
        write.data@ == alignment::padded(data),
    ensures
        write.offset + write.data@.len() <= write.offset + alignment::physical_size(
            data.len(),
            padding,
        ) <= layout.size,
        memory::read(write.applied(memory), write.offset as int, data.len() as int) == data,
        forall|other: u64| #[trigger]
            layout.allocated.contains_key(other) ==> memory::read(
                write.applied(memory),
                other as int,
                layout.allocated[other].physical_size as int,
            ) == memory::read(
                memory,
                other as int,
                layout.allocated[other].physical_size as int,
            ),
{
    let request = alignment::physical_size(data.len(), padding);
    let offset = write.offset;
    preservation::lemma_placement(layout, request);
    assert(layout.is_block(offset));
    assert(memory::read(write.applied(memory), offset as int, data.len() as int) =~= data);
    assert forall|other: u64| #[trigger]
        layout.allocated.contains_key(other) implies memory::read(
        write.applied(memory),
        other as int,
        layout.allocated[other].physical_size as int,
    ) == memory::read(memory, other as int, layout.allocated[other].physical_size as int) by {
        assert(layout.is_block(other));
        lemma_write_apart(
            memory,
            write,
            request,
            other as int,
            layout.allocated[other].physical_size as int,
        );
    }
}

/// What a modification stores is read back from the start of its block, the bytes of the block
/// behind the padding stay, and no other block changes.
pub proof fn law_modify_stores(
    layout: Layout,
    memory: Seq<u8>,
    data: Seq<u8>,
    write: BufferWrite,
)
    requires
        layout.wf(),
        memory.len() == layout.size,
        layout.allocated.contains_key(write.offset),
        data.len() <= layout.allocated[write.offset].physical_size,
        write.data@ == alignment::padded(data),
    ensures
        write.data@.len() <= layout.allocated[write.offset].physical_size,
        memory::read(write.applied(memory), write.offset as int, data.len() as int) == data,
        ({
            let rest = write.offset + write.data@.len();
            let rest_len = layout.allocated[write.offset].physical_size - write.data@.len();
            memory::read(write.applied(memory), rest, rest_len) == memory::read(
                memory,
                rest,
                rest_len,
            )
        }),
        forall|other: u64| #[trigger]
            layout.allocated.contains_key(other) && other != write.offset ==> memory::read(
                write.applied(memory),
                other as int,
                layout.allocated[other].physical_size as int,
            ) == memory::read(
                memory,
                other as int,
                layout.allocated[other].physical_size as int,
            ),
{
    let offset = write.offset;
    let size = layout.allocated[offset].physical_size as int;
    assert(layout.is_block(offset));
    assert(memory::read(write.applied(memory), offset as int, data.len() as int) =~= data);
    lemma_write_apart(
        memory,
        write,
        write.data@.len() as int,
        offset + write.data@.len(),
        size - write.data@.len(),
    );
    assert forall|other: u64| #[trigger]
        layout.allocated.contains_key(other) && other != offset implies memory::read(
        write.applied(memory),
        other as int,
        layout.allocated[other].physical_size as int,
    ) == memory::read(memory, other as int, layout.allocated[other].physical_size as int) by {
        assert(layout.is_block(other));
        lemma_write_apart(
            memory,
            write,
            size,
            other as int,
            layout.allocated[other].physical_size as int,
        );
    }
}

/// Freeing a block leaves nothing of its data, and no other block changes.
pub proof fn law_deallocate_wipes(layout: Layout, memory: Seq<u8>, write: BufferWrite)
    requires
        layout.wf(),
        memory.len() == layout.size,
        layout.allocated.contains_key(write.offset),
        write.data@ == alignment::padded(
            memory::zeros(layout.allocated[write.offset].physical_size as nat),
        ),
    ensures
        memory::read(
            write.applied(memory),
            write.offset as int,
            layout.allocated[write.offset].physical_size as int,
        ) == memory::zeros(layout.allocated[write.offset].physical_size as nat),
        forall|other: u64| #[trigger]
            layout.allocated.contains_key(other) && other != write.offset ==> memory::read(
                write.applied(memory),
                other as int,
                layout.allocated[other].physical_size as int,
            ) == memory::read(
                memory,
                other as int,
                layout.allocated[other].physical_size as int,
            ),
{
    law_modify_stores(
        layout,
        memory,
        memory::zeros(layout.allocated[write.offset].physical_size as nat),
        write,
    );
}

// ---- compacting ----
/// The relocation list names, by increasing offset, exactly the allocated blocks that have free
/// bytes before them, and moves each of them left by the number of these bytes.
pub proof fn law_relocations(layout: Layout)
    requires
        layout.wf(),
    ensures
        ({
            let list = layout.relocations();
            &&& forall|i: int|
                0 <= i < list.len() ==> {
                    let (offset, target, size) = #[trigger] list[i];
                    &&& layout.allocated.contains_key(offset)
                    &&& size == layout.allocated[offset].physical_size
                    &&& target == offset - sums::bytes_below(layout.free, offset as int)
                    &&& target < offset
                }
            &&& forall|i: int, j: int| 0 <= i < j < list.len() ==> list[i].0 < list[j].0
            &&& forall|offset: u64| #[trigger]
                layout.allocated.contains_key(offset) && sums::bytes_below(
                    layout.free,
                    offset as int,
                ) > 0 ==> exists|i: int| 0 <= i < list.len() && (#[trigger] list[i]).0 == offset
        }),
{
    lemma_relocations_below(layout, sums::address_space());
    let list = layout.relocations();
    assert forall|i: int, j: int| 0 <= i < j < list.len() implies list[i].0 < list[j].0 by {}
    assert forall|offset: u64| #[trigger]
        layout.allocated.contains_key(offset) && sums::bytes_below(layout.free, offset as int)
            > 0 implies exists|i: int| 0 <= i < list.len() && (#[trigger] list[i]).0 == offset by {}
}

proof fn lemma_relocations_below(layout: Layout, bound: int)
    requires
        layout.wf(),
        0 <= bound <= sums::address_space(),
    ensures
        ({
            let list = layout.relocations_below(bound);
            &&& forall|i: int|
                0 <= i < list.len() ==> {
                    let (offset, target, size) = #[trigger] list[i];
                    &&& layout.allocated.contains_key(offset)
                    &&& offset < bound
                    &&& size == layout.allocated[offset].physical_size
                    &&& target == layout.target(offset)
                    &&& target == offset - sums::bytes_below(layout.free, offset as int)
                    &&& target < offset
                }
            &&& forall|i: int, j: int| 0 <= i < j < list.len() ==> list[i].0 < list[j].0
            &&& forall|offset: u64| #[trigger]
                layout.allocated.contains_key(offset) && offset < bound && sums::bytes_below(
                    layout.free,
                    offset as int,
                ) > 0 ==> exists|i: int| 0 <= i < list.len() && (#[trigger] list[i]).0 == offset
        }),
    decreases bound,
{
    if bound > 0 {
        lemma_relocations_below(layout, bound - 1);
        let before = layout.relocations_below(bound - 1);
        let list = layout.relocations_below(bound);
        let last = (bound - 1) as u64;
        if layout.allocated.contains_key(last) {
            lemma_target_is_left_by_free(layout, last);
            if layout.target(last) != last {
                assert(list[before.len() as int].0 == last);
            }
        }
        assert forall|offset: u64| #[trigger]
            layout.allocated.contains_key(offset) && offset < bound && sums::bytes_below(
                layout.free,
                offset as int,
            ) > 0 implies exists|i: int| 0 <= i < list.len() && (#[trigger] list[i]).0
            == offset by {
            if offset < last {
                let i = choose|i: int| 0 <= i < before.len() && (#[trigger] before[i]).0 == offset;
                assert(list[i].0 == offset);
            }
        }
    }
}

proof fn lemma_target_is_left_by_free(layout: Layout, offset: u64)
    requires
        layout.wf(),
        layout.allocated.contains_key(offset),
    ensures
        layout.target(offset) == offset - sums::bytes_below(layout.free, offset as int),
        0 <= layout.target(offset) <= offset,
{
    assert(layout.is_block(offset));
    compaction::lemma_targets(layout);
    compaction::lemma_boundary(layout, offset as int);
}

/// Compacting leaves the blocks in one piece at the start of the buffer, each with its sizes, and
/// all free bytes in one piece behind them; compacting again would move nothing.
pub proof fn law_compacted(layout: Layout)
    requires
        layout.wf(),
    ensures
        ({
            let after = layout.after_relocate(layout.relocations());
            &&& after.wf()
            &&& after.used == layout.used
            &&& after.free == if layout.used < layout.size {
                Map::<u64, u64>::empty().insert(layout.used, (layout.size - layout.used) as u64)
            } else {
                Map::<u64, u64>::empty()
            }
            &&& forall|offset: u64| #[trigger]
                layout.allocated.contains_key(offset) ==> after.allocated.contains_key(
                    layout.target(offset) as u64,
                ) && after.allocated[layout.target(offset) as u64] == layout.allocated[offset]
            &&& forall|offset: u64| #[trigger]
                after.allocated.contains_key(offset) ==> exists|from: u64| #[trigger]
                    layout.allocated.contains_key(from) && layout.target(from) == offset
            &&& after.relocations().len() == 0
        }),
{
    let after = layout.after_relocate(layout.relocations());
    compaction::lemma_compacted(layout);
    compaction::lemma_compact_wf(layout);
    preservation::lemma_used_within_size(layout);
    compaction::lemma_targets(after);
    assert(after.free =~= if layout.used < layout.size {
        Map::<u64, u64>::empty().insert(layout.used, (layout.size - layout.used) as u64)
    } else {
        Map::<u64, u64>::empty()
    });
    lemma_relocations_below(after, sums::address_space());
    if after.relocations().len() > 0 {
        let (offset, _target, _size) = after.relocations()[0];
        assert(after.is_block(offset));
        if after.free.contains_key(layout.used) {
            assert(after.is_block(layout.used));
        }
        sums::lemma_bytes_below_gap(after.free, 0, offset as int);
    }
}

/// After compacting, a request is served whenever as many bytes are free.
pub proof fn law_compacted_serves_what_is_free(layout: Layout, request: int)
    requires
        layout.wf(),
        request > 0 || layout.used < layout.size,
    ensures
        layout.after_relocate(layout.relocations()).placement(request) is Some <==> request
            <= layout.size - layout.used,
{
    let after = layout.after_relocate(layout.relocations());
    law_compacted(layout);
    preservation::lemma_used_within_size(layout);
    preservation::lemma_placement(after, request);
    if layout.used < layout.size {
        assert(after.free.contains_key(layout.used));
    }
}

/// The copies of a relocation list carry the bytes of every block to its new offset.
pub proof fn law_compacting_keeps_data(layout: Layout, memory: Seq<u8>)
    requires
        layout.wf(),
        memory.len() == layout.size,
    ensures
        ({
            let after = BufferCopy::all_applied(
                BufferCopy::of_moves(layout.relocations()),
                memory,
            );
            &&& after.len() == memory.len()
            &&& forall|offset: u64| #[trigger]
                layout.allocated.contains_key(offset) ==> memory::read(
                    after,
                    layout.target(offset),
                    layout.allocated[offset].physical_size as int,
                ) == memory::read(
                    memory,
                    offset as int,
                    layout.allocated[offset].physical_size as int,
                )
        }),
{
    lemma_copies_below(layout, memory, sums::address_space());
}

proof fn lemma_copies_below(layout: Layout, memory: Seq<u8>, bound: int)
    requires
        layout.wf(),
        memory.len() == layout.size,
        0 <= bound <= sums::address_space(),
    ensures
        ({
            let after = BufferCopy::all_applied(
                BufferCopy::of_moves(layout.relocations_below(bound)),
                memory,
            );
            &&& after.len() == memory.len()
            &&& forall|address: int|
                sums::bytes_below(layout.sizes(), bound) <= address < memory.len() ==> (
                #[trigger] after[address]) == memory[address]
            &&& forall|offset: u64| #[trigger]
                layout.allocated.contains_key(offset) && offset < bound ==> memory::read(
                    after,
                    layout.target(offset),
                    layout.allocated[offset].physical_size as int,
                ) == memory::read(
                    memory,
                    offset as int,
                    layout.allocated[offset].physical_size as int,
                )
        }),
    decreases bound,
{
    if bound > 0 {
        lemma_copies_below(layout, memory, bound - 1);
        compaction::lemma_targets(layout);
        let last = (bound - 1) as u64;
        let list = layout.relocations_below(bound - 1);
        let before = BufferCopy::all_applied(BufferCopy::of_moves(list), memory);
        let after = BufferCopy::all_applied(
            BufferCopy::of_moves(layout.relocations_below(bound)),
            memory,
        );
        if layout.allocated.contains_key(last) {
            let size = layout.allocated[last].physical_size as int;
            let target = layout.target(last);
            assert(layout.is_block(last));
            if target != last {
                let longer = layout.relocations_below(bound);
                assert(longer.drop_last() =~= list);
                if size > 0 {
                    let copy = BufferCopy {
                        source_offset: last,
                        destination_offset: target as u64,
                        size: size as u64,
                    };
                    assert(BufferCopy::of_moves(longer).drop_last() =~= BufferCopy::of_moves(list));
                    assert(after == copy.applied(before));
                }
            }
            assert(memory::read(after, target, size) =~= memory::read(memory, last as int, size));
        }
        assert forall|offset: u64| #[trigger]
            layout.allocated.contains_key(offset) && offset < bound implies memory::read(
            after,
            layout.target(offset),
            layout.allocated[offset].physical_size as int,
        ) == memory::read(
            memory,
            offset as int,
            layout.allocated[offset].physical_size as int,
        ) by {
            if offset < last {
                let size = layout.allocated[offset].physical_size as int;
                assert(memory::read(after, layout.target(offset), size) =~= memory::read(
                    before,
                    layout.target(offset),
                    size,
                ));
            }
        }
    }
}

/// One relocation list, taken through all three steps, compacts the buffer: every block, with its
/// sizes, and its bytes are found at the same new offset, there are as many blocks as before, and
/// the free bytes are one block behind them.
pub proof fn law_three_steps(layout: Layout, memory: Seq<u8>, list: Seq<(u64, u64, u64)>)
    requires
        layout.wf(),
        memory.len() == layout.size,
        list == layout.relocations(),
    ensures
        ({
            let after = layout.after_relocate(list);
            let bytes = BufferCopy::all_applied(BufferCopy::of_moves(list), memory);
            &&& after.wf()
            &&& after.coalesced()
            &&& after.allocated.len() == layout.allocated.len()
            &&& after.free == if layout.used < layout.size {
                Map::<u64, u64>::empty().insert(layout.used, (layout.size - layout.used) as u64)
            } else {
                Map::<u64, u64>::empty()
            }
            &&& forall|offset: u64| #[trigger]
                layout.allocated.contains_key(offset) ==> {
                    let target = layout.target(offset);
                    let size = layout.allocated[offset].physical_size as int;
                    &&& after.allocated.contains_key(target as u64)
                    &&& after.allocated[target as u64] == layout.allocated[offset]
                    &&& memory::read(bytes, target, size) == memory::read(
                        memory,
                        offset as int,
                        size,
                    )
                }
        }),
{
    compaction::lemma_compact_wf(layout);
    law_compacted(layout);
    law_compacting_keeps_data(layout, memory);
    lemma_count(layout);
}

/// Offsets below a bound are finitely many.
proof fn lemma_offsets_finite(offsets: Set<u64>, bound: int)
    requires
        0 <= bound <= sums::address_space(),
        forall|o: u64| #[trigger] offsets.contains(o) ==> o < bound,
    ensures
        offsets.finite(),
    decreases bound,
{
    if bound == 0 {
        assert(offsets =~= Set::empty());
    } else {
        let last = (bound - 1) as u64;
        lemma_offsets_finite(offsets.remove(last), bound - 1);
        assert(offsets.remove(last).insert(last).finite());
        if offsets.contains(last) {
            assert(offsets.remove(last).insert(last) =~= offsets);
        } else {
            assert(offsets.remove(last) =~= offsets);
        }
    }
}

/// Compacting keeps the number of blocks, because no two blocks have the same target.
proof fn lemma_count(layout: Layout)
    requires
        layout.wf(),
    ensures
        layout.after_relocate(layout.relocations()).allocated.len() == layout.allocated.len(),
{
    let after = layout.after_relocate(layout.relocations());
    let from = layout.allocated.dom();
    let to = |offset: u64| layout.target(offset) as u64;
    law_compacted(layout);
    compaction::lemma_targets(layout);
    lemma_offsets_finite(from, sums::address_space());
    assert(vstd::relations::injective_on(to, from)) by {
        assert forall|o: u64, p: u64|
            #![trigger to(o), to(p)]
            from.contains(o) && from.contains(p) && to(o) == to(p) implies o == p by {
            assert(layout.is_block(o) && layout.is_block(p));
            assert(layout.allocated.contains_key(o) && layout.allocated.contains_key(p));
        }
    }
    assert(from.map(to) =~= after.allocated.dom()) by {
        assert forall|k: u64| #[trigger] after.allocated.dom().contains(k) implies from.map(
            to,
        ).contains(k) by {
            assert(after.allocated.contains_key(k));
            let o = choose|o: u64| #[trigger]
                layout.allocated.contains_key(o) && layout.target(o) == k;
            assert(from.contains(o) && to(o) == k);
        }
        assert forall|k: u64| #[trigger] from.map(to).contains(k) implies after.allocated.dom().contains(
            k,
        ) by {
            let o = choose|o: u64| from.contains(o) && k == to(o);
            assert(layout.allocated.contains_key(o));
        }
    }
    vstd::set_lib::lemma_map_size(from, after.allocated.dom(), to);
}

/// An empty relocation list leaves every block at its offset, and the bookkeeping well-formed
/// exactly when no block has free bytes before it.
pub proof fn law_no_moves(layout: Layout)
    requires
        layout.wf(),
    ensures
        layout.relocation_fits(Seq::empty()),
        layout.after_relocate(Seq::empty()).allocated == layout.allocated,
        layout.after_relocate(Seq::empty()).wf() <==> layout.relocations().len() == 0,
{
    preservation::lemma_used_within_size(layout);
    preservation::lemma_moved_gap(layout.allocated, Map::empty(), 0, sums::address_space());
    assert(Layout::moves(Seq::empty()) == Map::<u64, u64>::empty());
    let after = layout.after_relocate(Seq::empty());
    assert(after.sizes() =~= layout.sizes());
    if layout.relocations().len() == 0 {
        assert(layout.relocations() =~= Seq::empty());
        compaction::lemma_compact_wf(layout);
    } else if after.wf() {
        lemma_relocations_below(layout, sums::address_space());
        let (offset, _target, _size) = layout.relocations()[0];
        assert(after.is_block(offset));
        compaction::lemma_boundary(after, offset as int);
        if after.free.contains_key(layout.used) {
            assert(after.is_block(layout.used));
        }
        sums::lemma_bytes_below_gap(after.free, 0, offset as int);
    }
}

} // verus!

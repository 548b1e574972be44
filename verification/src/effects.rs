//! What each operation does, said of what goes in and what comes out.
use crate::alignment;
use crate::allocator::{SSBOAllocator, UsedBytes};
use crate::layout::Layout;
use crate::memory::{self, BufferCopy, BufferWrite};
use crate::preservation;
use crate::sums;
use vstd::prelude::*;

verus! {

// ---- alignment ----
/// Rounding up gives the only multiple of four from `size` up to the three numbers behind it.
pub proof fn law_round_up(size: int)
    ensures
        size <= alignment::align_up(size) < size + 4,
        alignment::align_up(size) % 4 == 0,
{
}

/// The block for a request has room for the data and for all of the padding, and wastes fewer than
/// four bytes on being aligned.
pub proof fn law_block_holds_request(len: nat, padding: Option<u64>)
    ensures
        ({
            let asked = len + match padding {
                Some(extra) => extra as int,
                None => 0,
            };
            let size = alignment::physical_size(len, padding);
            &&& asked <= size < asked + 4
            &&& size % 4 == 0
        }),
{
}

/// More padding never gives a smaller block, and four bytes more give a block four bytes larger.
pub proof fn law_padding_counts(len: nat, padding: u64, more: u64)
    requires
        padding <= more,
    ensures
        alignment::physical_size(len, Some(padding)) <= alignment::physical_size(len, Some(more)),
        more == padding + 4 ==> alignment::physical_size(len, Some(more))
            == alignment::physical_size(len, Some(padding)) + 4,
        alignment::physical_size(len, None) == alignment::physical_size(len, Some(0)),
        alignment::physical_size(len + padding as nat, None) == alignment::physical_size(
            len,
            Some(padding),
        ),
{
}

/// Padded data are the data and then zero bytes, fewer than four, up to a multiple of four.
pub proof fn law_padding_is_zeros(data: Seq<u8>)
    ensures
        ({
            let bytes = alignment::padded(data);
            &&& data.len() <= bytes.len() < data.len() + 4
            &&& bytes.len() % 4 == 0
            &&& forall|i: int| 0 <= i < data.len() ==> #[trigger] bytes[i] == data[i]
            &&& forall|i: int| data.len() <= i < bytes.len() ==> #[trigger] bytes[i] == 0u8
        }),
{
}

// ---- transfers ----
/// Reading takes the bytes as they stand.
pub proof fn law_read(memory: Seq<u8>, offset: int, len: int)
    requires
        0 <= offset,
        0 <= len,
        offset + len <= memory.len(),
    ensures
        memory::read(memory, offset, len).len() == len,
        forall|i: int|
            0 <= i < len ==> #[trigger] memory::read(memory, offset, len)[i] == memory[offset + i],
{
}

/// The write that stores `data` is queued behind the others, which stay. Carried out on any memory,
/// it puts every byte of the data in its place, zeros behind them up to the next multiple of four,
/// and changes nothing else.
pub proof fn law_stored(
    before: Seq<BufferWrite>,
    after: Seq<BufferWrite>,
    offset: u64,
    data: Seq<u8>,
    memory: Seq<u8>,
)
    requires
        BufferWrite::queued(before, after, offset, alignment::padded(data)),
    ensures
        after.len() == before.len() + 1,
        forall|i: int| 0 <= i < before.len() ==> #[trigger] after[i] == before[i],
        ({
            let write = after[before.len() as int];
            let stored = write.applied(memory);
            let end = offset + write.data@.len();
            &&& write.offset == offset
            &&& data.len() <= write.data@.len() < data.len() + 4
            &&& write.data@.len() % 4 == 0
            &&& forall|i: int| 0 <= i < data.len() ==> #[trigger] write.data@[i] == data[i]
            &&& forall|i: int|
                data.len() <= i < write.data@.len() ==> #[trigger] write.data@[i] == 0u8
            &&& stored.len() == memory.len()
            &&& forall|i: int|
                0 <= i < memory.len() ==> (#[trigger] stored[i]) == if offset <= i < offset
                    + data.len() {
                    data[i - offset]
                } else if offset + data.len() <= i < end {
                    0u8
                } else {
                    memory[i]
                }
        }),
{
    law_padding_is_zeros(data);
    assert forall|i: int| 0 <= i < before.len() implies #[trigger] after[i] == before[i] by {
        assert(after.drop_last()[i] == before[i]);
    }
}

/// The write that wipes a block of `size` bytes covers the block and holds nothing but zeros.
pub proof fn law_wiped(
    before: Seq<BufferWrite>,
    after: Seq<BufferWrite>,
    offset: u64,
    size: nat,
    memory: Seq<u8>,
)
    requires
        BufferWrite::queued(before, after, offset, alignment::padded(memory::zeros(size))),
    ensures
        after.len() == before.len() + 1,
        forall|i: int| 0 <= i < before.len() ==> #[trigger] after[i] == before[i],
        ({
            let write = after[before.len() as int];
            let wiped = write.applied(memory);
            &&& write.offset == offset
            &&& size <= write.data@.len() < size + 4
            &&& size % 4 == 0 ==> write.data@.len() == size
            &&& forall|i: int| 0 <= i < write.data@.len() ==> #[trigger] write.data@[i] == 0u8
            &&& wiped.len() == memory.len()
            &&& forall|i: int|
                0 <= i < memory.len() ==> (#[trigger] wiped[i]) == if offset <= i < offset
                    + write.data@.len() {
                    0u8
                } else {
                    memory[i]
                }
        }),
{
    law_stored(before, after, offset, memory::zeros(size), memory);
    assert(memory::zeros(size).len() == size);
    assert forall|i: int| 0 <= i < size implies #[trigger] memory::zeros(size)[i] == 0u8 by {}
}

/// A copy gives each byte of its destination the value that the byte of the source had, and
/// changes nothing else.
pub proof fn law_copied(copy: BufferCopy, memory: Seq<u8>)
    requires
        copy.source_offset + copy.size <= memory.len(),
        copy.destination_offset + copy.size <= memory.len(),
    ensures
        ({
            let copied = copy.applied(memory);
            &&& copied.len() == memory.len()
            &&& forall|i: int|
                0 <= i < memory.len() ==> (#[trigger] copied[i]) == if copy.destination_offset <= i
                    < copy.destination_offset + copy.size {
                    memory[copy.source_offset + (i - copy.destination_offset)]
                } else {
                    memory[i]
                }
        }),
{
}

/// Copies are made one after the other, each on what the copies before it left.
pub proof fn law_copies_in_turn(first: Seq<BufferCopy>, next: BufferCopy, memory: Seq<u8>)
    ensures
        BufferCopy::all_applied(Seq::empty(), memory) == memory,
        BufferCopy::all_applied(first.push(next), memory) == next.applied(
            BufferCopy::all_applied(first, memory),
        ),
{
    assert(first.push(next).drop_last() =~= first);
}

/// Each move of a list gives one copy of its bytes from the old to the new offset, in the order of
/// the list, and none where the two are equal or there are no bytes.
pub proof fn law_copies_of_moves(
    front: Seq<(u64, u64, u64)>,
    back: Seq<(u64, u64, u64)>,
    from: u64,
    to: u64,
    size: u64,
)
    ensures
        BufferCopy::of_moves(Seq::empty()) == Seq::<BufferCopy>::empty(),
        BufferCopy::of_moves(front + back) == BufferCopy::of_moves(front) + BufferCopy::of_moves(
            back,
        ),
        BufferCopy::of_moves(seq![(from, to, size)]) == if from == to || size == 0 {
            Seq::<BufferCopy>::empty()
        } else {
            seq![BufferCopy { source_offset: from, destination_offset: to, size }]
        },
    decreases back.len(),
{
    assert(seq![(from, to, size)].drop_last() =~= Seq::empty());
    assert(BufferCopy::of_moves(seq![(from, to, size)].drop_last()) == Seq::<BufferCopy>::empty());
    if back.len() == 0 {
        assert(front + back =~= front);
    } else {
        law_copies_of_moves(front, back.drop_last(), from, to, size);
        assert((front + back).drop_last() =~= front + back.drop_last());
    }
    assert(BufferCopy::of_moves(front + back) =~= BufferCopy::of_moves(front)
        + BufferCopy::of_moves(back));
}

// ---- the bookkeeping ----
/// The model of an allocator is what its fields hold.
pub proof fn law_view(allocator: SSBOAllocator)
    ensures
        allocator@.size == allocator.buffer_size,
        allocator@.used == allocator.used_size,
        allocator@.free == allocator.free_by_offset@,
        allocator@.allocated == allocator.allocated_blocks@,
        forall|size: u64| #[trigger]
            allocator@.by_size.contains_key(size) <==> allocator.free_by_size@.contains_key(size),
        forall|size: u64| #[trigger]
            allocator.free_by_size@.contains_key(size) ==> allocator@.by_size[size]
                == allocator.free_by_size@[size]@,
{
}

/// A new buffer has the size that was asked for, all of it one free block at its start.
pub proof fn law_new(size: u64)
    ensures
        ({
            let layout = Layout::initial(size);
            &&& layout.size == size
            &&& layout.used == 0
            &&& layout.allocated == Map::<u64, UsedBytes>::empty()
            &&& forall|offset: u64| #[trigger] layout.free.contains_key(offset) <==> offset == 0
            &&& layout.free[0] == size
            &&& forall|other: u64| #[trigger] layout.by_size.contains_key(other) <==> other == size
            &&& layout.by_size[size] == seq![0u64]
        }),
{
}

/// In a well-formed layout the blocks divide the buffer, the bytes in use are counted exactly, and
/// the index by size lists each free block once, under its size.
pub proof fn law_well_formed(layout: Layout, offset: u64, other: u64, address: int)
    requires
        layout.wf(),
    ensures
        layout.used == sums::total(layout.sizes()),
        layout.allocated.contains_key(offset) ==> {
            &&& offset + layout.allocated[offset].physical_size <= layout.size
            &&& offset % 4 == 0
            &&& layout.allocated[offset].physical_size % 4 == 0
            &&& layout.allocated[offset].physical_size > 0 || layout.size == 0
            &&& layout.allocated[offset]._virtual_size <= layout.allocated[offset].physical_size
            &&& !layout.free.contains_key(offset)
        },
        layout.free.contains_key(offset) ==> {
            &&& offset + layout.free[offset] <= layout.size
            &&& offset % 4 == 0
            &&& layout.free[offset] > 0 || layout.size == 0
            &&& layout.by_size.contains_key(layout.free[offset])
            &&& layout.by_size[layout.free[offset]].contains(offset)
        },
        layout.allocated.contains_key(offset) && layout.allocated.contains_key(other) && offset
            < other ==> offset + layout.allocated[offset].physical_size <= other,
        layout.free.contains_key(offset) && layout.free.contains_key(other) && offset < other
            ==> offset + layout.free[offset] <= other,
        layout.allocated.contains_key(offset) && layout.free.contains_key(other) ==> offset
            + layout.allocated[offset].physical_size <= other || other + layout.free[other]
            <= offset,
        0 <= address < layout.size ==> (exists|o: u64| #[trigger]
            layout.allocated.contains_key(o) && o <= address < o
                + layout.allocated[o].physical_size) || (exists|o: u64| #[trigger]
            layout.free.contains_key(o) && o <= address < o + layout.free[o]),
        layout.by_size.contains_key(offset) ==> layout.by_size[offset].len() > 0
            && layout.by_size[offset].no_duplicates(),
        layout.by_size.contains_key(offset) ==> forall|i: int|
            0 <= i < layout.by_size[offset].len() ==> layout.free.contains_key(
                #[trigger] layout.by_size[offset][i],
            ) && layout.free[layout.by_size[offset][i]] == offset,
        layout.coalesced() && layout.free.contains_key(offset) ==> !layout.free.contains_key(
            (offset + layout.free[offset]) as u64,
        ) || layout.free[offset] == 0,
{
    assert(!(layout.allocated.contains_key(offset) && layout.free.contains_key(offset)));
    assert(!(layout.allocated.contains_key(other) && layout.free.contains_key(other)));
    if layout.allocated.contains_key(offset) || layout.free.contains_key(offset) {
        assert(layout.is_block(offset));
    }
    if layout.allocated.contains_key(other) || layout.free.contains_key(other) {
        assert(layout.is_block(other));
    }
    if 0 <= address < layout.size {
        assert(layout.is_owned(address));
        let owner = choose|o: u64| layout.owns(o, address);
        assert(layout.allocated.contains_key(owner) || layout.free.contains_key(owner));
    }
}

/// Queueing an offset puts it last among those of its size; taking one off leaves the others in
/// their order; a size without offsets is no longer listed. Other sizes stay.
pub proof fn law_index(by_size: Map<u64, Seq<u64>>, size: u64, offset: u64, queue: Seq<u64>)
    ensures
        ({
            let now = Layout::enqueued(by_size, size, offset);
            &&& now.dom() == by_size.dom().insert(size)
            &&& by_size.contains_key(size) ==> now[size] == by_size[size].push(offset)
            &&& !by_size.contains_key(size) ==> now[size] == seq![offset]
            &&& forall|other: u64| other != size ==> #[trigger] now[other] == by_size[other]
        }),
        ({
            let now = Layout::with_queue(by_size, size, queue);
            &&& queue.len() > 0 ==> now == by_size.insert(size, queue)
            &&& queue.len() == 0 ==> now == by_size.remove(size)
        }),
        ({
            let now = Layout::dequeued(by_size, size, offset);
            let kept = by_size[size].filter(|o: u64| o != offset);
            &&& !by_size.contains_key(size) ==> now == by_size
            &&& by_size.contains_key(size) && kept.len() > 0 ==> now == by_size.insert(size, kept)
            &&& by_size.contains_key(size) && kept.len() == 0 ==> now == by_size.remove(size)
        }),
{
    assert(Layout::other_than(offset) =~= (|o: u64| o != offset));
    if !by_size.contains_key(size) {
        assert(Seq::<u64>::empty().push(offset) =~= seq![offset]);
    }
}

// ---- allocating ----
/// A request gets the least listed size that is enough for it, and of that size the offset that
/// was queued first. It gets none exactly when no size is enough or the queue is empty.
pub proof fn law_choice(layout: Layout, request: int)
    ensures
        match layout.best_fit(request) {
            Some(size) => {
                &&& layout.by_size.contains_key(size)
                &&& request <= size
                &&& forall|other: u64| #[trigger]
                    layout.by_size.contains_key(other) && request <= other ==> size <= other
                &&& layout.placement(request) == if layout.by_size[size].len() > 0 {
                    Some(layout.by_size[size][0])
                } else {
                    None
                }
            },
            None => {
                &&& forall|other: u64| #[trigger]
                    layout.by_size.contains_key(other) ==> other < request
                &&& layout.placement(request) is None
            },
        },
{
    preservation::lemma_best_fit(layout, request);
    assert forall|other: u64| #[trigger]
        layout.by_size.contains_key(other) && request <= other implies layout.suits(
        other,
        request,
    ) by {}
}

/// Serving a block takes the free block at its offset, records the block there, counts its bytes,
/// and makes what is left of the free block a free block right behind it. Every other free block
/// keeps its place in its queue.
pub proof fn law_allocate(layout: Layout, block: UsedBytes, size: u64)
    requires
        layout.by_size.contains_key(size),
        block.physical_size <= size,
        forall|other: u64| #[trigger]
            layout.by_size.contains_key(other) && block.physical_size <= other ==> size <= other,
        layout.by_size[size].len() > 0,
        layout.used + block.physical_size <= u64::MAX,
        block.physical_size < size ==> layout.by_size[size][0] + block.physical_size <= u64::MAX,
    ensures
        ({
            let taken = block.physical_size;
            let offset = layout.by_size[size][0];
            let after = layout.after_allocate(block);
            &&& layout.placement(taken as int) == Some(offset)
            &&& layout.placement_fits(taken as int)
            &&& after.size == layout.size
            &&& after.used == layout.used + taken
            &&& after.allocated == layout.allocated.insert(offset, block)
            &&& taken == size ==> after.free == layout.free.remove(offset)
            &&& taken < size ==> after.free == layout.free.remove(offset).insert(
                (offset + taken) as u64,
                (size - taken) as u64,
            )
            &&& forall|k: u64|
                ({
                    let was = if layout.by_size.contains_key(k) {
                        layout.by_size[k]
                    } else {
                        Seq::empty()
                    };
                    let kept = if k == size {
                        was.drop_first()
                    } else {
                        was
                    };
                    let now = if taken < size && k == size - taken {
                        kept.push((offset + taken) as u64)
                    } else {
                        kept
                    };
                    &&& #[trigger] after.by_size.contains_key(k) <==> now.len() > 0 || (k != size
                        && layout.by_size.contains_key(k))
                    &&& after.by_size.contains_key(k) ==> after.by_size[k] == now
                })
        }),
{
    let request = block.physical_size as int;
    let queue = layout.by_size[size];
    assert forall|other: u64| #[trigger] layout.suits(other, request) implies size <= other by {}
    assert(layout.suits(size, request));
    preservation::lemma_is_best_fit(layout, size, request);
    assert(queue.subrange(1, queue.len() as int) =~= queue.drop_first());
}

// ---- deallocating ----
/// Freeing a block forgets it, uncounts its bytes, and leaves one free block in its place: together
/// with the free block that starts where it ends, if there is one, and with the last free block
/// before it, `left`, if that ends where it starts. The new free block is queued last of its size,
/// the two that it takes in leave their queues, and every other free block keeps its place.
pub proof fn law_deallocate(layout: Layout, offset: u64, left: Option<u64>)
    requires
        layout.allocated.contains_key(offset),
        layout.allocated[offset].physical_size <= layout.used,
        offset + layout.allocated[offset].physical_size <= u64::MAX,
        forall|l: u64| #[trigger]
            layout.free.contains_key(l) && l < offset && (forall|o: u64| #[trigger]
                layout.free.contains_key(o) && o < offset ==> o <= l) ==> l + layout.free[l]
                <= u64::MAX,
        ({
            let size = layout.allocated[offset].physical_size;
            let end = (offset + size) as u64;
            let right = if layout.free.contains_key(end) {
                layout.free[end] as int
            } else {
                0
            };
            match left {
                Some(l) => layout.free[l] + size + right <= u64::MAX,
                None => size + right <= u64::MAX,
            }
        }),
        match left {
            Some(l) => {
                &&& layout.free.contains_key(l)
                &&& l < offset
                &&& l + layout.free[l] == offset
                &&& forall|o: u64| #[trigger] layout.free.contains_key(o) && o < offset ==> o <= l
            },
            None => forall|l: u64| #[trigger]
                layout.free.contains_key(l) && l < offset && l + layout.free[l] == offset
                    ==> exists|o: u64| #[trigger] layout.free.contains_key(o) && l < o < offset,
        },
    ensures
        ({
            let size = layout.allocated[offset].physical_size;
            let end = (offset + size) as u64;
            let meets_right = layout.free.contains_key(end);
            let start = match left {
                Some(l) => l,
                None => offset,
            };
            let grown = (offset - start) + size + if meets_right {
                layout.free[end] as int
            } else {
                0
            };
            let after = layout.after_deallocate(offset);
            &&& after.size == layout.size
            &&& after.used == layout.used - size
            &&& after.allocated == layout.allocated.remove(offset)
            &&& after.free == layout.free.remove(end).insert(start, grown as u64)
            &&& layout.release_fits(offset)
            &&& forall|k: u64|
                ({
                    let was = if layout.by_size.contains_key(k) {
                        layout.by_size[k]
                    } else {
                        Seq::empty()
                    };
                    let leaves_right = meets_right && k == layout.free[end];
                    let leaves_left = left is Some && k == layout.free[start];
                    let without_right = if leaves_right {
                        was.filter(|o: u64| o != end)
                    } else {
                        was
                    };
                    let kept = if leaves_left {
                        without_right.filter(|o: u64| o != start)
                    } else {
                        without_right
                    };
                    let now = if k == grown {
                        kept.push(start)
                    } else {
                        kept
                    };
                    &&& #[trigger] after.by_size.contains_key(k) <==> now.len() > 0 || (
                    layout.by_size.contains_key(k) && !leaves_right && !leaves_left)
                    &&& after.by_size.contains_key(k) ==> after.by_size[k] == now
                })
        }),
{
    let size = layout.allocated[offset].physical_size;
    let end = (offset + size) as u64;
    let rest = layout.without_right(offset);
    let after = layout.after_deallocate(offset);
    preservation::lemma_last_free_below(rest, offset);
    match left {
        Some(l) => {
            assert(rest.is_last_free_below(l, offset));
            preservation::lemma_is_last_free_below(rest, l, offset);
            assert(Layout::other_than(l) =~= (|o: u64| o != l));
            assert(after.free =~= layout.free.remove(end).insert(l, after.free[l]));
        },
        None => {
            if let Some(l) = rest.left_neighbor(offset) {
                assert(layout.free.contains_key(l));
                let o = choose|o: u64| #[trigger] layout.free.contains_key(o) && l < o < offset;
                assert(rest.free.contains_key(o));
            }
        },
    }
    assert(Layout::other_than(end) =~= (|o: u64| o != end));
    reveal(Seq::filter);
}

// ---- sums ----
/// The bytes of the blocks below a bound: none without blocks, and each new block below the bound
/// adds its size.
pub proof fn law_sums(sizes: Map<u64, u64>, offset: u64, size: u64, bound: int)
    requires
        0 <= bound <= 0x1_0000_0000_0000_0000,
        !sizes.contains_key(offset),
    ensures
        sums::bytes_below(Map::empty(), bound) == 0,
        sums::total(Map::empty()) == 0,
        offset < bound ==> sums::bytes_below(sizes.insert(offset, size), bound)
            == sums::bytes_below(sizes, bound) + size,
        offset >= bound ==> sums::bytes_below(sizes.insert(offset, size), bound)
            == sums::bytes_below(sizes, bound),
        sums::total(sizes.insert(offset, size)) == sums::total(sizes) + size,
{
    sums::lemma_bytes_below_gap(Map::empty(), 0, bound);
    sums::lemma_bytes_below_gap(Map::empty(), 0, sums::address_space());
    sums::lemma_bytes_below_insert(sizes, offset, size, bound);
    sums::lemma_bytes_below_insert(sizes, offset, size, sums::address_space());
}

/// The sizes that are summed are the physical sizes of the allocated blocks.
pub proof fn law_sizes(layout: Layout)
    ensures
        layout.sizes().dom() == layout.allocated.dom(),
        forall|offset: u64| #[trigger]
            layout.allocated.contains_key(offset) ==> layout.sizes()[offset]
                == layout.allocated[offset].physical_size,
{
}

// ---- compacting ----
/// The first block goes to the start of the buffer, and each other block to the end of the block
/// before it.
pub proof fn law_targets(layout: Layout, offset: u64)
    requires
        layout.allocated.contains_key(offset),
    ensures
        (forall|o: u64| #[trigger] layout.allocated.contains_key(o) ==> offset <= o)
            ==> layout.target(offset) == 0,
        forall|before: u64| #[trigger]
            layout.allocated.contains_key(before) && before < offset && (forall|o: u64| #[trigger]
                layout.allocated.contains_key(o) ==> o <= before || offset <= o) ==> layout.target(
                offset,
            ) == layout.target(before) + layout.allocated[before].physical_size,
{
    let sizes = layout.sizes();
    if forall|o: u64| #[trigger] layout.allocated.contains_key(o) ==> offset <= o {
        sums::lemma_bytes_below_gap(sizes, 0, offset as int);
    }
    assert forall|before: u64| #[trigger]
        layout.allocated.contains_key(before) && before < offset && (forall|o: u64| #[trigger]
            layout.allocated.contains_key(o) ==> o <= before || offset <= o) implies layout.target(
        offset,
    ) == layout.target(before) + layout.allocated[before].physical_size by {
        sums::lemma_bytes_below_gap(sizes, before + 1, offset as int);
    }
}

/// The relocation list holds, by increasing offset, one move for each block that is not at its
/// target: its offset, its target and its physical size.
pub proof fn law_relocation_list(layout: Layout)
    requires
        sums::total(layout.sizes()) <= u64::MAX,
    ensures
        ({
            let list = layout.relocations();
            &&& forall|i: int|
                0 <= i < list.len() ==> {
                    let (offset, target, size) = #[trigger] list[i];
                    &&& layout.allocated.contains_key(offset)
                    &&& target == layout.target(offset)
                    &&& target != offset
                    &&& size == layout.allocated[offset].physical_size
                }
            &&& forall|i: int, j: int| 0 <= i < j < list.len() ==> list[i].0 < list[j].0
            &&& forall|offset: u64| #[trigger]
                layout.allocated.contains_key(offset) && layout.target(offset) != offset
                    ==> exists|i: int| 0 <= i < list.len() && (#[trigger] list[i]).0 == offset
        }),
{
    lemma_listed(layout, sums::address_space());
    let list = layout.relocations();
    assert forall|i: int, j: int| 0 <= i < j < list.len() implies list[i].0 < list[j].0 by {}
}

proof fn lemma_listed(layout: Layout, bound: int)
    requires
        sums::total(layout.sizes()) <= u64::MAX,
        0 <= bound <= sums::address_space(),
    ensures
        ({
            let list = layout.relocations_below(bound);
            &&& forall|i: int|
                0 <= i < list.len() ==> {
                    let (offset, target, size) = #[trigger] list[i];
                    &&& layout.allocated.contains_key(offset)
                    &&& offset < bound
                    &&& target == layout.target(offset)
                    &&& target != offset
                    &&& size == layout.allocated[offset].physical_size
                }
            &&& forall|i: int, j: int| 0 <= i < j < list.len() ==> list[i].0 < list[j].0
            &&& forall|offset: u64| #[trigger]
                layout.allocated.contains_key(offset) && offset < bound && layout.target(offset)
                    != offset ==> exists|i: int|
                    0 <= i < list.len() && (#[trigger] list[i]).0 == offset
        }),
    decreases bound,
{
    if bound > 0 {
        lemma_listed(layout, bound - 1);
        let before = layout.relocations_below(bound - 1);
        let list = layout.relocations_below(bound);
        let last = (bound - 1) as u64;
        sums::lemma_bytes_below_monotone(layout.sizes(), bound - 1, sums::address_space());
        if layout.allocated.contains_key(last) && layout.target(last) != last {
            assert(list[before.len() as int].0 == last);
        }
        assert forall|offset: u64| #[trigger]
            layout.allocated.contains_key(offset) && offset < bound && layout.target(offset)
                != offset implies exists|i: int|
            0 <= i < list.len() && (#[trigger] list[i]).0 == offset by {
            if offset < last {
                let i = choose|i: int| 0 <= i < before.len() && (#[trigger] before[i]).0 == offset;
                assert(list[i].0 == offset);
            }
        }
    }
}

/// Each move of a list counts, a later one in place of an earlier one of the same offset.
pub proof fn law_moves(list: Seq<(u64, u64, u64)>, from: u64, to: u64, size: u64)
    ensures
        Layout::moves(Seq::empty()) == Map::<u64, u64>::empty(),
        Layout::moves(list.push((from, to, size))) == Layout::moves(list).insert(from, to),
{
    assert(list.push((from, to, size)).drop_last() =~= list);
}

/// Without moves the blocks stay. Otherwise the move from the greatest offset is made last: it takes
/// the block that the other moves leave at that offset to its new one.
pub proof fn law_moved(layout: Layout, moves: Map<u64, u64>, last: u64)
    requires
        moves.contains_key(last),
        forall|o: u64| #[trigger] moves.contains_key(o) ==> o <= last,
    ensures
        layout.moved(Map::empty()) == layout.allocated,
        ({
            let before = layout.moved(moves.remove(last));
            layout.moved(moves) == before.remove(last).insert(moves[last], before[last])
        }),
{
    let fewer = moves.remove(last);
    let end = sums::address_space();
    preservation::lemma_moved_gap(layout.allocated, Map::empty(), 0, end);
    preservation::lemma_moved_gap(layout.allocated, moves, last + 1, end);
    preservation::lemma_moved_gap(layout.allocated, fewer, last as int, end);
    lemma_moved_alike(layout.allocated, moves, fewer, last as int);
}

/// Moves that are alike below a bound move the blocks alike up to it.
proof fn lemma_moved_alike(
    allocated: Map<u64, UsedBytes>,
    moves: Map<u64, u64>,
    others: Map<u64, u64>,
    bound: int,
)
    requires
        0 <= bound <= sums::address_space(),
        forall|o: u64|
            #![trigger moves.contains_key(o)]
            #![trigger others.contains_key(o)]
            o < bound ==> moves.contains_key(o) == others.contains_key(o) && (moves.contains_key(o)
                ==> moves[o] == others[o]),
    ensures
        Layout::moved_below(allocated, moves, bound) == Layout::moved_below(
            allocated,
            others,
            bound,
        ),
    decreases bound,
{
    if bound > 0 {
        lemma_moved_alike(allocated, moves, others, bound - 1);
    }
}

/// A list of moves can be taken over exactly when each move finds a block at its old offset, once
/// all moves from smaller offsets are made, and the blocks are then no longer than the buffer.
pub proof fn law_relocation_admitted(layout: Layout, list: Seq<(u64, u64, u64)>)
    ensures
        ({
            let moves = Layout::moves(list);
            layout.relocation_fits(list) <==> {
                &&& sums::total(layout.after_relocate(list).sizes()) <= layout.size
                &&& forall|offset: u64| #[trigger]
                    moves.contains_key(offset) ==> layout.moved(
                        moves.restrict(Set::new(|o: u64| o < offset)),
                    ).contains_key(offset)
            }
        }),
{
    let moves = Layout::moves(list);
    assert forall|offset: u64| #[trigger] moves.contains_key(offset) implies layout.moved(
        moves.restrict(Set::new(|o: u64| o < offset)),
    ) == Layout::moved_below(layout.allocated, moves, offset as int) by {
        let earlier = moves.restrict(Set::new(|o: u64| o < offset));
        preservation::lemma_moved_gap(
            layout.allocated,
            earlier,
            offset as int,
            sums::address_space(),
        );
        lemma_moved_alike(layout.allocated, moves, earlier, offset as int);
    }
}

/// Taking moves over changes neither the size of the buffer nor the count of bytes in use. It moves
/// the blocks, and makes all bytes that they do not fill one free block behind as many bytes as they
/// fill.
pub proof fn law_relocate(layout: Layout, list: Seq<(u64, u64, u64)>)
    requires
        sums::total(layout.after_relocate(list).sizes()) <= layout.size,
    ensures
        ({
            let after = layout.after_relocate(list);
            let filled = sums::total(after.sizes());
            &&& after.size == layout.size
            &&& after.used == layout.used
            &&& after.allocated == layout.moved(Layout::moves(list))
            &&& filled == layout.size ==> after.free == Map::<u64, u64>::empty() && after.by_size
                == Map::<u64, Seq<u64>>::empty()
            &&& filled < layout.size ==> after.free == Map::<u64, u64>::empty().insert(
                filled as u64,
                (layout.size - filled) as u64,
            ) && after.by_size == Map::<u64, Seq<u64>>::empty().insert(
                (layout.size - filled) as u64,
                seq![filled as u64],
            )
        }),
{
    let after = layout.after_relocate(list);
    let moved = Layout { allocated: layout.moved(Layout::moves(list)), ..layout };
    let filled = sums::total(moved.sizes());
    assert(after.sizes() =~= moved.sizes());
    sums::lemma_bytes_below_monotone(moved.sizes(), 0, sums::address_space());
    if filled < layout.size {
        assert(Seq::<u64>::empty().push(filled as u64) =~= seq![filled as u64]);
    }
}

} // verus!

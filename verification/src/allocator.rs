//! The allocator.
use crate::alignment::{self, pad_data, round_up};
use crate::compaction;
use crate::effects;
use crate::layout::Layout;
use crate::memory::{BufferCopy, BufferWrite};
use crate::ordered::{self, first_key_at_least, last_key_below};
use crate::preservation;
use crate::size_index;
use crate::sums;
use std::borrow::Cow;
use std::collections::{BTreeMap, VecDeque};
use vstd::prelude::*;

verus! {

pub type Offset = u64;

pub type PhysicalSize = u64;

pub type VirtualSize = u64;

pub type EmptySize = u64;

/// Moves of blocks: old offset, new offset, size.
pub type RelocationList = VecDeque<(Offset, Offset, PhysicalSize)>;

/// The bytes that an allocation takes up.
#[derive(Debug, Clone, Copy, PartialEq, Eq, Structural)]
pub struct UsedBytes {
    /// The size of the block in the buffer.
    pub physical_size: u64,
    /// The size of the data stored in it.
    pub _virtual_size: u64,
}

/// Hands out blocks of one buffer and keeps track of those that are free.
pub struct SSBOAllocator {
    pub buffer_size: u64,
    pub used_size: u64,
    /// The free blocks by size, for finding the best fit.
    pub free_by_size: BTreeMap<EmptySize, VecDeque<Offset>>,
    /// The free blocks by offset, for coalescing.
    pub free_by_offset: BTreeMap<Offset, EmptySize>,
    /// The allocated blocks by offset.
    pub allocated_blocks: BTreeMap<Offset, UsedBytes>,
}

impl View for SSBOAllocator {
    type V = Layout;

    open spec fn view(&self) -> Layout {
        Layout {
            size: self.buffer_size,
            used: self.used_size,
            by_size: size_index::queues(self.free_by_size@),
            free: self.free_by_offset@,
            allocated: self.allocated_blocks@,
        }
    }
}

/// Queues a write of `data`, padded to the alignment, at `offset`.
fn queue_write(queue: &mut Vec<BufferWrite>, offset: Offset, data: &[u8])
    requires
        data@.len() + alignment::alignment() - 1 <= usize::MAX,
    ensures
        BufferWrite::queued(
            old(queue)@,
            final(queue)@,
            offset,
            alignment::padded(data@),
        ),
{
    let bytes: Vec<u8> = match pad_data(data) {
        Cow::Borrowed(bytes) => vstd::slice::slice_to_vec(bytes),
        Cow::Owned(bytes) => bytes,
    };
    queue.push(BufferWrite { offset, data: bytes });
    assert(queue@.drop_last() =~= old(queue)@);
}

/// The new offset for each old offset of a relocation list.
fn collect_moves(relocation_list: &RelocationList) -> (moves: BTreeMap<Offset, Offset>)
    ensures
        moves@ == Layout::moves(relocation_list@),
{
    let mut moves: BTreeMap<Offset, Offset> = BTreeMap::new();
    let mut i: usize = 0;
    assert(relocation_list@.subrange(0, 0) =~= Seq::empty());
    while i < relocation_list.len()
        invariant
            i <= relocation_list@.len(),
            moves@ == Layout::moves(relocation_list@.subrange(0, i as int)),
        decreases relocation_list@.len() - i,
    {
        let (old_offset, new_offset, _size): (u64, u64, u64) = relocation_list[i];
        moves.insert(old_offset, new_offset);
        assert(relocation_list@.subrange(0, i + 1).drop_last() =~= relocation_list@.subrange(
            0,
            i as int,
        ));
        i += 1;
    }
    assert(relocation_list@.subrange(0, i as int) =~= relocation_list@);
    moves
}

/// Moves the blocks at the old offsets to the new ones, by increasing old offset.
fn move_blocks(blocks: &mut BTreeMap<Offset, UsedBytes>, moves: &BTreeMap<Offset, Offset>)
    requires
        forall|offset: u64| #[trigger]
            moves@.contains_key(offset) ==> Layout::moved_below(
                old(blocks)@,
                moves@,
                offset as int,
            ).contains_key(offset),
    ensures
        final(blocks)@ == Layout::moved_below(old(blocks)@, moves@, sums::address_space()),
{
    let ghost before = blocks@;
    let iter = moves.iter();
    let ghost mut bound: int = 0;
    proof {
        ordered::lemma_iter_in_order(moves);
    }
    for entry in it: iter
        invariant
            ordered::in_order(it.seq(), moves@),
            forall|offset: u64| #[trigger]
                moves@.contains_key(offset) ==> Layout::moved_below(
                    before,
                    moves@,
                    offset as int,
                ).contains_key(offset),
            bound == (if it.index() == 0 {
                0
            } else {
                *it.seq()[it.index() - 1].0 + 1
            }),
            blocks@ == Layout::moved_below(before, moves@, bound),
    {
        let old_offset: u64 = *entry.0;
        let new_offset: u64 = *entry.1;
        proof {
            assert forall|o: u64| bound <= o < old_offset implies !(
            #[trigger] moves@.contains_key(o)) by {}
            preservation::lemma_moved_gap(before, moves@, bound, old_offset as int);
            assert(moves@.contains_key(old_offset));
            bound = old_offset + 1;
        }
        let used_bytes: UsedBytes = blocks.remove(&old_offset).unwrap();
        blocks.insert(new_offset, used_bytes);
    }
    proof {
        assert forall|o: u64| bound <= o < sums::address_space() implies !(
        #[trigger] moves@.contains_key(o)) by {}
        preservation::lemma_moved_gap(before, moves@, bound, sums::address_space());
    }
}

/// The sum of the physical sizes of all blocks.
fn total_size(blocks: &BTreeMap<Offset, UsedBytes>) -> (total: u64)
    requires
        sums::total(blocks@.map_values(|block: UsedBytes| block.physical_size)) <= u64::MAX,
    ensures
        total == sums::total(blocks@.map_values(|block: UsedBytes| block.physical_size)),
{
    let ghost sizes = blocks@.map_values(|block: UsedBytes| block.physical_size);
    let mut total: u64 = 0;
    let iter = blocks.iter();
    let ghost mut bound: int = 0;
    proof {
        ordered::lemma_iter_in_order(blocks);
    }
    for entry in it: iter
        invariant
            ordered::in_order(it.seq(), blocks@),
            sizes == blocks@.map_values(|block: UsedBytes| block.physical_size),
            sums::total(sizes) <= u64::MAX,
            bound == (if it.index() == 0 {
                0
            } else {
                *it.seq()[it.index() - 1].0 + 1
            }),
            total == sums::bytes_below(sizes, bound),
    {
        let offset: u64 = *entry.0;
        let block: UsedBytes = *entry.1;
        proof {
            assert forall|o: u64| bound <= o < offset implies !(
            #[trigger] blocks@.contains_key(o)) by {}
            sums::lemma_bytes_below_gap(sizes, bound, offset as int);
            sums::lemma_bytes_below_monotone(sizes, offset + 1, sums::address_space());
            bound = offset + 1;
        }
        total = total + block.physical_size;
    }
    proof {
        assert forall|o: u64| bound <= o < sums::address_space() implies !(
        #[trigger] blocks@.contains_key(o)) by {}
        sums::lemma_bytes_below_gap(sizes, bound, sums::address_space());
    }
    total
}

impl SSBOAllocator {
    /// An allocator of a buffer of `size` bytes, all of them one free block.
    pub fn new(size: u64) -> (allocator: Self)
        ensures
            allocator@ == Layout::initial(size),
            allocator@.wf(),
            allocator@.coalesced(),
            allocator.buffer_size == size,
            allocator.used_size == 0,
            allocator.free_by_offset@ == Map::<Offset, EmptySize>::empty().insert(0, size),
            allocator.allocated_blocks@ == Map::<Offset, UsedBytes>::empty(),
            allocator.free_by_size@.dom() == Set::<EmptySize>::empty().insert(size),
            allocator.free_by_size@[size]@ == seq![0u64],
    {
        let mut free_by_size: BTreeMap<EmptySize, VecDeque<Offset>> = BTreeMap::new();
        let mut free_by_offset: BTreeMap<Offset, EmptySize> = BTreeMap::new();
        assert(size_index::queues(free_by_size@) =~= Map::empty());
        size_index::enqueue(&mut free_by_size, size, 0);
        free_by_offset.insert(0, size);
        let allocator = SSBOAllocator {
            buffer_size: size,
            used_size: 0,
            free_by_size,
            free_by_offset,
            allocated_blocks: BTreeMap::new(),
        };
        proof {
            assert(Layout::enqueued(Map::empty(), size, 0) =~= Map::empty().insert(
                size,
                seq![0u64],
            ));
            assert(allocator@ =~= Layout::initial(size));
            preservation::lemma_initial_wf(size);
            effects::law_new(size);
            effects::law_view(allocator);
            assert(allocator.free_by_size@.dom() =~= allocator@.by_size.dom());
        }
        allocator
    }

    /// The size of the buffer.
    pub fn get_size(&self) -> (size: u64)
        ensures
            size == self@.size,
            size == self.buffer_size,
    {
        self.buffer_size
    }

    /// The number of bytes in use.
    pub fn get_used_size(&self) -> (size: u64)
        ensures
            size == self@.used,
            size == self.used_size,
    {
        self.used_size
    }

    /// The number of bytes that are free.
    pub fn get_free_size(&self) -> (size: u64)
        requires
            self@.wf() || self@.used <= self@.size,
        ensures
            size == self@.size - self@.used,
            size == self.buffer_size - self.used_size,
    {
        proof {
            if self@.wf() {
                preservation::lemma_used_within_size(self@);
            }
        }
        self.buffer_size - self.used_size
    }

    /// The number of allocated blocks.
    pub fn get_allocation_count(&self) -> (count: usize)
        ensures
            count == self@.allocated.len(),
            count == self.allocated_blocks@.len(),
    {
        self.allocated_blocks.len()
    }

    /// Stores `data` in a block of its own and returns the offset of the block.
    ///
    /// The block has room for the data and the padding, rounded up to the alignment, and is cut from
    /// the start of the smallest free block that is large enough; of several of that size from the
    /// one that has been free for longest.
    pub fn allocate(
        &mut self,
        queue: &mut Vec<BufferWrite>,
        data: &[u8],
        padding: Option<u64>,
    ) -> (result: Result<Offset, &'static str>)
        requires
            data@.len() + alignment::alignment() - 1 <= usize::MAX,
            data@.len() + padding.unwrap_or(0) + alignment::alignment() - 1 <= u64::MAX,
            old(self)@.wf() || old(self)@.placement_fits(alignment::physical_size(data@.len(), padding)),
        ensures
            ({
                let request = alignment::physical_size(data@.len(), padding);
                let block = UsedBytes {
                    physical_size: request as u64,
                    _virtual_size: data@.len() as u64,
                };
                match old(self)@.placement(request) {
                    Some(offset) => {
                        &&& result == Ok::<Offset, &'static str>(offset)
                        &&& final(self)@ == old(self)@.after_allocate(block)
                        &&& BufferWrite::queued(
                            old(queue)@,
                            final(queue)@,
                            offset,
                            alignment::padded(data@),
                        )
                    },
                    None => {
                        &&& result matches Err(message) && message@ == (if old(self)@.best_fit(
                            request,
                        ) is None {
                            "No suitable block found"@
                        } else {
                            "No suitable offset found"@
                        })
                        &&& final(self)@ == old(self)@
                        &&& final(queue)@ == old(queue)@
                    },
                }
            }),
            match old(self)@.best_fit(alignment::physical_size(data@.len(), padding)) {
                Some(size) => old(self)@.is_best_fit(
                    size,
                    alignment::physical_size(data@.len(), padding),
                ),
                None => forall|size: u64| #[trigger]
                    old(self)@.by_size.contains_key(size) ==> size < alignment::physical_size(
                        data@.len(),
                        padding,
                    ),
            },
            ({
                let asked = data@.len() + match padding {
                    Some(extra) => extra as int,
                    None => 0,
                };
                match result {
                    Ok(offset) => {
                        let block = final(self).allocated_blocks@[offset];
                        let taken = block.physical_size;
                        let bytes = final(queue)@.last().data@;
                        &&& asked <= taken < asked + 4
                        &&& taken % 4 == 0
                        &&& block._virtual_size == data@.len()
                        &&& final(self).buffer_size == old(self).buffer_size
                        &&& final(self).used_size == old(self).used_size + taken
                        &&& final(self).allocated_blocks@ == old(self).allocated_blocks@.insert(
                            offset,
                            block,
                        )
                        &&& exists|size: u64|
                            {
                                &&& #[trigger] old(self).free_by_size@.contains_key(size)
                                &&& old(self).free_by_size@[size]@.len() > 0
                                &&& old(self).free_by_size@[size]@[0] == offset
                                &&& taken <= size
                                &&& forall|other: u64| #[trigger]
                                    old(self).free_by_size@.contains_key(other) && taken <= other
                                        ==> size <= other
                                &&& final(self).free_by_offset@ == if taken < size {
                                    old(self).free_by_offset@.remove(offset).insert(
                                        (offset + taken) as u64,
                                        (size - taken) as u64,
                                    )
                                } else {
                                    old(self).free_by_offset@.remove(offset)
                                }
                            }
                        &&& final(queue)@.len() == old(queue)@.len() + 1
                        &&& forall|i: int|
                            0 <= i < old(queue)@.len() ==> #[trigger] final(queue)@[i]
                                == old(queue)@[i]
                        &&& final(queue)@.last().offset == offset
                        &&& data@.len() <= bytes.len() < data@.len() + 4
                        &&& bytes.len() % 4 == 0
                        &&& forall|i: int|
                            0 <= i < data@.len() ==> #[trigger] bytes[i] == data@[i]
                        &&& forall|i: int|
                            data@.len() <= i < bytes.len() ==> #[trigger] bytes[i] == 0u8
                    },
                    Err(_) => {
                        &&& final(self).buffer_size == old(self).buffer_size
                        &&& final(self).used_size == old(self).used_size
                        &&& final(self).free_by_offset@ == old(self).free_by_offset@
                        &&& final(self).allocated_blocks@ == old(self).allocated_blocks@
                    },
                }
            }),
            old(self)@.wf() && (data@.len() + padding.unwrap_or(0) > 0 || old(self)@.size == 0)
                ==> final(self)@.wf() && (old(self)@.coalesced() ==> final(self)@.coalesced()),
    {
        let virtual_size: u64 = data.len() as u64;
        let requested_physical_size: u64 = virtual_size + padding.unwrap_or(0);
        let physical_size: u64 = round_up(requested_physical_size);

        let block_size: u64 = match first_key_at_least(&self.free_by_size, physical_size) {
            Some(size) => size,
            None => {
                assert forall|size: u64| !#[trigger] self@.suits(size, physical_size as int) by {
                    assert(self.free_by_size@.contains_key(size)
                        == self@.by_size.contains_key(size));
                }
                return Err("No suitable block found");
            },
        };
        proof {
            let request = physical_size as int;
            assert forall|other: u64| #[trigger] self@.suits(other, request) implies block_size
                <= other by {
                assert(self.free_by_size@.contains_key(other));
            }
            preservation::lemma_is_best_fit(self@, block_size, request);
            if self@.wf() {
                preservation::lemma_placement_fits(self@, request);
            }
        }
        let offset: u64 = match size_index::pop(&mut self.free_by_size, block_size) {
            Some(offset) => offset,
            None => {
                return Err("No suitable offset found");
            },
        };
        self.free_by_offset.remove(&offset);
        self.allocated_blocks.insert(
            offset,
            UsedBytes { physical_size, _virtual_size: virtual_size },
        );
        self.used_size = self.used_size + physical_size;
        queue_write(queue, offset, data);
        if block_size > physical_size {
            let remainder_offset: u64 = offset + physical_size;
            let remainder_size: u64 = block_size - physical_size;
            self.free_by_offset.insert(remainder_offset, remainder_size);
            size_index::enqueue(&mut self.free_by_size, remainder_size, remainder_offset);
        }
        proof {
            let request = physical_size as int;
            let block = UsedBytes { physical_size, _virtual_size: virtual_size };
            assert(self@ =~= old(self)@.after_allocate(block));
            assert(old(self).free_by_size@.contains_key(block_size));
            assert(self.allocated_blocks@[offset] == block);
            effects::law_stored(old(queue)@, queue@, offset, data@, Seq::empty());
            if old(self)@.wf() && (request > 0 || old(self)@.size == 0) {
                preservation::lemma_allocate_wf(old(self)@, block);
            }
        }
        Ok(offset)
    }

    /// Overwrites the data of the block at `offset`. Fails if the block is too small.
    pub fn modify(
        &mut self,
        queue: &mut Vec<BufferWrite>,
        offset: Offset,
        data: &[u8],
    ) -> (result: Result<(), &'static str>)
        requires
            data@.len() + alignment::alignment() - 1 <= usize::MAX,
        ensures
            *final(self) == *old(self),
            ({
                let known = old(self)@.allocated.contains_key(offset);
                if known && data@.len() <= old(self)@.allocated[offset].physical_size {
                    &&& result is Ok
                    &&& BufferWrite::queued(
                        old(queue)@,
                        final(queue)@,
                        offset,
                        alignment::padded(data@),
                    )
                } else {
                    &&& result matches Err(message) && message@ == (if known {
                        "Data size too big for buffer"@
                    } else {
                        "Offset not allocated"@
                    })
                    &&& final(queue)@ == old(queue)@
                }
            }),
            result is Ok ==> {
                let bytes = final(queue)@.last().data@;
                &&& final(queue)@.len() == old(queue)@.len() + 1
                &&& forall|i: int|
                    0 <= i < old(queue)@.len() ==> #[trigger] final(queue)@[i] == old(queue)@[i]
                &&& final(queue)@.last().offset == offset
                &&& data@.len() <= bytes.len() < data@.len() + 4
                &&& bytes.len() % 4 == 0
                &&& forall|i: int| 0 <= i < data@.len() ==> #[trigger] bytes[i] == data@[i]
                &&& forall|i: int| data@.len() <= i < bytes.len() ==> #[trigger] bytes[i] == 0u8
            },
    {
        match self.allocated_blocks.get(&offset) {
            Some(size) => {
                if data.len() as u64 <= size.physical_size {
                    queue_write(queue, offset, data);
                    proof {
                        effects::law_stored(old(queue)@, queue@, offset, data@, Seq::empty());
                    }
                    Ok(())
                } else {
                    Err("Data size too big for buffer")
                }
            },
            None => Err("Offset not allocated"),
        }
    }

    /// Frees the block at `offset` and overwrites its bytes with zeros.
    pub fn deallocate_wipe(
        &mut self,
        queue: &mut Vec<BufferWrite>,
        offset: Offset,
    ) -> (result: Result<(), &'static str>)
        requires
            old(self)@.allocated.contains_key(offset) ==> {
                &&& old(self)@.allocated[offset].physical_size <= isize::MAX
                &&& old(self)@.wf() || old(self)@.release_fits(offset)
            },
        ensures
            if old(self)@.allocated.contains_key(offset) {
                &&& result is Ok
                &&& final(self)@ == old(self)@.after_deallocate(offset)
                &&& BufferWrite::queued(
                    old(queue)@,
                    final(queue)@,
                    offset,
                    alignment::padded(
                        crate::memory::zeros(old(self)@.allocated[offset].physical_size as nat),
                    ),
                )
            } else {
                &&& result matches Err(message) && message@
                    == "Offset wasn't allocated, can't deallocate"@
                &&& final(self)@ == old(self)@
                &&& final(queue)@ == old(queue)@
            },
            result is Ok ==> {
                let block = old(self).allocated_blocks@[offset];
                let bytes = final(queue)@.last().data@;
                &&& old(self).allocated_blocks@.contains_key(offset)
                &&& final(self).allocated_blocks@ == old(self).allocated_blocks@.remove(offset)
                &&& final(self).used_size == old(self).used_size - block.physical_size
                &&& final(self).buffer_size == old(self).buffer_size
                &&& final(queue)@.len() == old(queue)@.len() + 1
                &&& forall|i: int|
                    0 <= i < old(queue)@.len() ==> #[trigger] final(queue)@[i] == old(queue)@[i]
                &&& final(queue)@.last().offset == offset
                &&& block.physical_size <= bytes.len() < block.physical_size + 4
                &&& bytes.len() % 4 == 0
                &&& forall|i: int| 0 <= i < bytes.len() ==> #[trigger] bytes[i] == 0u8
            },
            old(self)@.wf() ==> final(self)@.wf(),
            old(self)@.wf() && old(self)@.coalesced() ==> final(self)@.coalesced(),
    {
        proof {
            if self@.wf() && self@.allocated.contains_key(offset) {
                preservation::lemma_release_fits(self@, offset);
                preservation::lemma_deallocate_wf(self@, offset);
            }
        }
        let mut current_size: u64 = match self.allocated_blocks.remove(&offset) {
            Some(size) => {
                let zeroed_data: Vec<u8> = vec![0u8; size.physical_size as usize];
                assert(zeroed_data@ =~= crate::memory::zeros(size.physical_size as nat));
                queue_write(queue, offset, zeroed_data.as_slice());
                self.used_size = self.used_size - size.physical_size;
                size.physical_size
            },
            None => {
                assert(self@ =~= old(self)@);
                return Err("Offset wasn't allocated, can't deallocate");
            },
        };
        assert(self@ =~= old(self)@.without_allocated(offset));

        let right_neighbor_offset: u64 = offset + current_size;
        if let Some(right_neighbor_size) = self.free_by_offset.remove(&right_neighbor_offset) {
            size_index::dequeue(
                &mut self.free_by_size,
                right_neighbor_size,
                right_neighbor_offset,
            );
            current_size = current_size + right_neighbor_size;
        }
        assert(self@ =~= old(self)@.without_right(offset));
        assert(offset + current_size == old(self)@.freed_end(offset));

        let mut current_offset: u64 = offset;
        let ghost rest = self@;
        if let Some(left_offset) = last_key_below(&self.free_by_offset, offset) {
            proof {
                preservation::lemma_is_last_free_below(rest, left_offset, offset);
            }
            let left_size: u64 = *self.free_by_offset.get(&left_offset).unwrap();
            if left_offset + left_size == offset {
                self.free_by_offset.remove(&left_offset);
                size_index::dequeue(&mut self.free_by_size, left_size, left_offset);
                current_offset = left_offset;
                current_size = current_size + left_size;
                assert(self@ =~= rest.without_free(left_offset));
            }
        }
        self.free_by_offset.insert(current_offset, current_size);
        size_index::enqueue(&mut self.free_by_size, current_size, current_offset);
        assert(self@ =~= old(self)@.after_deallocate(offset));
        proof {
            effects::law_wiped(
                old(queue)@,
                queue@,
                offset,
                old(self)@.allocated[offset].physical_size as nat,
                Seq::empty(),
            );
        }
        Ok(())
    }

    /// Lists the moves that bring all blocks together at the start of the buffer.
    ///
    /// This is the first step of compacting.
    pub fn get_relocation_list(&self) -> (relocation_list: RelocationList)
        requires
            self@.wf() || sums::total(self@.sizes()) <= u64::MAX,
        ensures
            relocation_list@ == self@.relocations(),
    {
        let mut relocation_list: RelocationList = VecDeque::new();
        let mut next_destination_offset: Offset = 0;
        let iter = self.allocated_blocks.iter();
        let ghost mut bound: int = 0;
        proof {
            ordered::lemma_iter_in_order(&self.allocated_blocks);
            if self@.wf() {
                preservation::lemma_used_within_size(self@);
            }
        }
        for entry in it: iter
            invariant
                ordered::in_order(it.seq(), self.allocated_blocks@),
                sums::total(self@.sizes()) <= u64::MAX,
                bound == (if it.index() == 0 {
                    0
                } else {
                    *it.seq()[it.index() - 1].0 + 1
                }),
                next_destination_offset == sums::bytes_below(self@.sizes(), bound),
                relocation_list@ == self@.relocations_below(bound),
        {
            let current_source_offset: u64 = *entry.0;
            let current_block: UsedBytes = *entry.1;
            proof {
                assert forall|o: u64| bound <= o < current_source_offset implies !(
                #[trigger] self.allocated_blocks@.contains_key(o)) by {}
                sums::lemma_bytes_below_gap(self@.sizes(), bound, current_source_offset as int);
                preservation::lemma_relocations_gap(self@, bound, current_source_offset as int);
                sums::lemma_bytes_below_monotone(
                    self@.sizes(),
                    current_source_offset + 1,
                    sums::address_space(),
                );
                bound = current_source_offset + 1;
            }
            if current_source_offset != next_destination_offset {
                relocation_list.push_back(
                    (current_source_offset, next_destination_offset, current_block.physical_size),
                );
            }
            next_destination_offset = next_destination_offset + current_block.physical_size;
        }
        proof {
            assert forall|o: u64| bound <= o < sums::address_space() implies !(
            #[trigger] self.allocated_blocks@.contains_key(o)) by {}
            preservation::lemma_relocations_gap(self@, bound, sums::address_space());
        }
        relocation_list
    }

    /// Queues the copies within the buffer that carry out `relocation_list`.
    ///
    /// This is the second step of compacting. It leaves the list as it is, for the last step.
    pub fn submit_copies_to_encoder(
        &mut self,
        encoder: &mut Vec<BufferCopy>,
        relocation_list: &mut RelocationList,
    )
        ensures
            *final(self) == *old(self),
            final(encoder)@ == old(encoder)@ + BufferCopy::of_moves(old(relocation_list)@),
            final(relocation_list)@ == old(relocation_list)@,
    {
        let ghost list = relocation_list@;
        let mut i: usize = 0;
        assert(list.subrange(0, 0) =~= Seq::empty());
        while i < relocation_list.len()
            invariant
                *self == *old(self),
                i <= list.len(),
                relocation_list@ == list,
                encoder@ == old(encoder)@ + BufferCopy::of_moves(list.subrange(0, i as int)),
            decreases list.len() - i,
        {
            let (old_offset, new_offset, size): (u64, u64, u64) = relocation_list[i];
            assert(list.subrange(0, i + 1).drop_last() =~= list.subrange(0, i as int));
            i += 1;
            if old_offset != new_offset && size > 0 {
                encoder.push(
                    BufferCopy {
                        source_offset: old_offset,
                        destination_offset: new_offset,
                        size,
                    },
                );
            }
            assert(encoder@ =~= old(encoder)@ + BufferCopy::of_moves(
                list.subrange(0, i as int),
            ));
        }
        assert(list.subrange(0, i as int) =~= list);
    }

    /// Moves the blocks of `relocation_list` to their new offsets and makes all bytes behind the
    /// last block one free block.
    ///
    /// This is the last step of compacting.
    pub fn update_allocator_schema_with_relocation_list(&mut self, relocation_list: &RelocationList)
        requires
            (old(self)@.wf() && relocation_list@ == old(self)@.relocations()) || old(
                self,
            )@.relocation_fits(relocation_list@),
        ensures
            final(self)@ == old(self)@.after_relocate(relocation_list@),
            old(self)@.wf() && relocation_list@ == old(self)@.relocations() ==> final(self)@.wf()
                && final(self)@.coalesced(),
    {
        proof {
            if self@.wf() && relocation_list@ == self@.relocations() {
                preservation::lemma_used_within_size(self@);
                compaction::lemma_compacted(self@);
                compaction::lemma_compact_wf(self@);
            }
        }
        let relocation_map: BTreeMap<Offset, Offset> = collect_moves(relocation_list);
        move_blocks(&mut self.allocated_blocks, &relocation_map);
        assert(self@.sizes() == old(self)@.after_relocate(relocation_list@).sizes());
        let used_size: u64 = total_size(&self.allocated_blocks);

        let new_free_size: u64 = self.buffer_size - used_size;
        self.free_by_offset.clear();
        self.free_by_size.clear();
        assert(size_index::queues(self.free_by_size@) =~= Map::empty());
        if new_free_size > 0 {
            self.free_by_offset.insert(used_size, new_free_size);
            size_index::enqueue(&mut self.free_by_size, new_free_size, used_size);
        }
        assert(self@ =~= old(self)@.after_relocate(relocation_list@));
    }
}

} // verus!

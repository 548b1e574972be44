//! The model of an allocator's bookkeeping, and what each operation makes of it.
use crate::alignment;
use crate::allocator::UsedBytes;
use crate::sums;
use vstd::prelude::*;

verus! {

/// The bookkeeping of an allocator, as mathematical values.
#[verifier::ext_equal]
pub struct Layout {
    /// The size of the buffer.
    pub size: u64,
    /// The number of bytes counted as in use.
    pub used: u64,
    /// The offsets of the free blocks of each size, in the order in which they are handed out.
    pub by_size: Map<u64, Seq<u64>>,
    /// The size of the free block at each offset.
    pub free: Map<u64, u64>,
    /// The block allocated at each offset.
    pub allocated: Map<u64, UsedBytes>,
}

impl Layout {
    // ---- the index of free blocks by size ----
    /// `by_size` with `offset` queued last among the free blocks of `size` bytes.
    pub open spec fn enqueued(
        by_size: Map<u64, Seq<u64>>,
        size: u64,
        offset: u64,
    ) -> Map<u64, Seq<u64>> {
        let queue = if by_size.contains_key(size) {
            by_size[size]
        } else {
            Seq::empty()
        };
        by_size.insert(size, queue.push(offset))
    }

    /// `by_size` with `queue` as the free blocks of `size` bytes, or no such size if there are none.
    pub open spec fn with_queue(
        by_size: Map<u64, Seq<u64>>,
        size: u64,
        queue: Seq<u64>,
    ) -> Map<u64, Seq<u64>> {
        if queue.len() == 0 {
            by_size.remove(size)
        } else {
            by_size.insert(size, queue)
        }
    }

    /// The offsets other than `offset`.
    pub open spec fn other_than(offset: u64) -> spec_fn(u64) -> bool {
        |other: u64| other != offset
    }

    /// `by_size` with `offset` no longer among the free blocks of `size` bytes.
    pub open spec fn dequeued(
        by_size: Map<u64, Seq<u64>>,
        size: u64,
        offset: u64,
    ) -> Map<u64, Seq<u64>> {
        if by_size.contains_key(size) {
            Self::with_queue(by_size, size, by_size[size].filter(Self::other_than(offset)))
        } else {
            by_size
        }
    }

    /// A buffer of `size` bytes that is one free block.
    pub open spec fn initial(size: u64) -> Self {
        Layout {
            size,
            used: 0,
            by_size: Map::empty().insert(size, seq![0u64]),
            free: Map::empty().insert(0, size),
            allocated: Map::empty(),
        }
    }

    // ---- allocating ----
    /// Free blocks of `size` bytes are listed, and `size` is enough for `request` bytes.
    pub open spec fn suits(self, size: u64, request: int) -> bool {
        self.by_size.contains_key(size) && request <= size
    }

    /// `size` is the least listed size that is enough for `request` bytes.
    pub open spec fn is_best_fit(self, size: u64, request: int) -> bool {
        &&& self.suits(size, request)
        &&& forall|other: u64| #[trigger] self.suits(other, request) ==> size <= other
    }

    /// The least listed size that is enough for `request` bytes.
    pub open spec fn best_fit(self, request: int) -> Option<u64> {
        if exists|size: u64| self.suits(size, request) {
            Some(choose|size: u64| self.is_best_fit(size, request))
        } else {
            None
        }
    }

    /// The offset that a request of `request` bytes is served from.
    pub open spec fn placement(self, request: int) -> Option<u64> {
        match self.best_fit(request) {
            Some(size) if self.by_size[size].len() > 0 => Some(self.by_size[size][0]),
            _ => None,
        }
    }

    /// Serving a request of `request` bytes leaves every counter and offset within 64 bits.
    pub open spec fn placement_fits(self, request: int) -> bool {
        self.placement(request) matches Some(offset) ==> {
            &&& self.used + request <= u64::MAX
            &&& self.best_fit(request)->0 > request ==> offset + request <= u64::MAX
        }
    }

    /// What serving `block` leaves: the first free block of the best-fitting size is in use from its
    /// start, and what it has left over is a free block of its own.
    pub open spec fn after_allocate(self, block: UsedBytes) -> Self {
        let request = block.physical_size as int;
        let size = self.best_fit(request)->0;
        let queue = self.by_size[size];
        let offset = queue[0];
        let taken = Layout {
            used: (self.used + request) as u64,
            by_size: Self::with_queue(self.by_size, size, queue.subrange(1, queue.len() as int)),
            free: self.free.remove(offset),
            allocated: self.allocated.insert(offset, block),
            ..self
        };
        if size > request {
            let rest_offset = (offset + request) as u64;
            let rest_size = (size - request) as u64;
            Layout {
                by_size: Self::enqueued(taken.by_size, rest_size, rest_offset),
                free: taken.free.insert(rest_offset, rest_size),
                ..taken
            }
        } else {
            taken
        }
    }

    // ---- deallocating ----
    /// `offset` is the largest offset of a free block below `bound`.
    pub open spec fn is_last_free_below(self, offset: u64, bound: u64) -> bool {
        &&& self.free.contains_key(offset)
        &&& offset < bound
        &&& forall|other: u64| #[trigger]
            self.free.contains_key(other) && other < bound ==> other <= offset
    }

    /// The last free block below `bound`.
    pub open spec fn last_free_below(self, bound: u64) -> Option<u64> {
        if exists|offset: u64| self.free.contains_key(offset) && offset < bound {
            Some(choose|offset: u64| self.is_last_free_below(offset, bound))
        } else {
            None
        }
    }

    /// The bookkeeping without the free block at `offset`.
    pub open spec fn without_free(self, offset: u64) -> Self {
        Layout {
            by_size: Self::dequeued(self.by_size, self.free[offset], offset),
            free: self.free.remove(offset),
            ..self
        }
    }

    /// The bookkeeping with a free block at `offset`.
    pub open spec fn with_free(self, offset: u64, size: u64) -> Self {
        Layout {
            by_size: Self::enqueued(self.by_size, size, offset),
            free: self.free.insert(offset, size),
            ..self
        }
    }

    /// The bookkeeping without the block allocated at `offset`, whose bytes belong to no block.
    pub open spec fn without_allocated(self, offset: u64) -> Self {
        Layout {
            used: (self.used - self.allocated[offset].physical_size) as u64,
            allocated: self.allocated.remove(offset),
            ..self
        }
    }

    /// The end of the free block that the block allocated at `offset` becomes part of: its own end,
    /// or that of the free block that starts there.
    pub open spec fn freed_end(self, offset: u64) -> int {
        let end = offset + self.allocated[offset].physical_size;
        if self.free.contains_key(end as u64) {
            end + self.free[end as u64]
        } else {
            end
        }
    }

    /// The bookkeeping without the block allocated at `offset` and without the free block, if any,
    /// that starts where it ends.
    pub open spec fn without_right(self, offset: u64) -> Self {
        let end = (offset + self.allocated[offset].physical_size) as u64;
        let rest = self.without_allocated(offset);
        if self.free.contains_key(end) {
            rest.without_free(end)
        } else {
            rest
        }
    }

    /// The last free block below `offset`, where it ends at `offset`.
    pub open spec fn left_neighbor(self, offset: u64) -> Option<u64> {
        match self.last_free_below(offset) {
            Some(left) if left + self.free[left] == offset => Some(left),
            _ => None,
        }
    }

    /// Freeing the block allocated at `offset` leaves every counter and offset within 64 bits.
    pub open spec fn release_fits(self, offset: u64) -> bool {
        let rest = self.without_right(offset);
        &&& self.allocated[offset].physical_size <= self.used
        &&& offset + self.allocated[offset].physical_size <= u64::MAX
        &&& self.freed_end(offset) - offset <= u64::MAX
        &&& rest.last_free_below(offset) matches Some(left) ==> left + rest.free[left] <= u64::MAX
        &&& rest.left_neighbor(offset) matches Some(left) ==> self.freed_end(offset) - left
            <= u64::MAX
    }

    /// What freeing the block allocated at `offset` leaves: one free block in its place, grown by the
    /// free block that starts where it ends and by the free block that ends where it starts.
    pub open spec fn after_deallocate(self, offset: u64) -> Self {
        let end = self.freed_end(offset);
        let rest = self.without_right(offset);
        match rest.left_neighbor(offset) {
            Some(left) => rest.without_free(left).with_free(left, (end - left) as u64),
            None => rest.with_free(offset, (end - offset) as u64),
        }
    }

    // ---- compacting ----
    /// The size of the block allocated at each offset.
    pub open spec fn sizes(self) -> Map<u64, u64> {
        self.allocated.map_values(|block: UsedBytes| block.physical_size)
    }

    /// The offset that the block allocated at `offset` has once there is no free byte before it: the
    /// number of bytes allocated before it.
    pub open spec fn target(self, offset: u64) -> int {
        sums::bytes_below(self.sizes(), offset as int)
    }

    /// The moves of the blocks that start below `bound` and are not yet at their target, by
    /// increasing offset: the offset of the block, its target and its size.
    pub open spec fn relocations_below(self, bound: int) -> Seq<(u64, u64, u64)>
        decreases bound,
    {
        if bound <= 0 {
            Seq::empty()
        } else {
            let offset = (bound - 1) as u64;
            let before = self.relocations_below(bound - 1);
            if self.allocated.contains_key(offset) && self.target(offset) != offset {
                before.push(
                    (offset, self.target(offset) as u64, self.allocated[offset].physical_size),
                )
            } else {
                before
            }
        }
    }

    /// The moves that bring all allocated blocks together at the start of the buffer.
    pub open spec fn relocations(self) -> Seq<(u64, u64, u64)> {
        self.relocations_below(sums::address_space())
    }

    /// The new offset that a list of moves gives for each old offset; of several for one old offset
    /// the last counts.
    pub open spec fn moves(list: Seq<(u64, u64, u64)>) -> Map<u64, u64>
        decreases list.len(),
    {
        if list.len() == 0 {
            Map::empty()
        } else {
            Self::moves(list.drop_last()).insert(list.last().0, list.last().1)
        }
    }

    /// `allocated` after those of `moves` whose old offset is below `bound`, made one after the
    /// other by increasing old offset.
    pub open spec fn moved_below(
        allocated: Map<u64, UsedBytes>,
        moves: Map<u64, u64>,
        bound: int,
    ) -> Map<u64, UsedBytes>
        decreases bound,
    {
        if bound <= 0 {
            allocated
        } else {
            let offset = (bound - 1) as u64;
            let before = Self::moved_below(allocated, moves, bound - 1);
            if moves.contains_key(offset) {
                before.remove(offset).insert(moves[offset], before[offset])
            } else {
                before
            }
        }
    }

    /// The allocated blocks after all of `moves`.
    pub open spec fn moved(self, moves: Map<u64, u64>) -> Map<u64, UsedBytes> {
        Self::moved_below(self.allocated, moves, sums::address_space())
    }

    /// Each of `moves` finds a block at its old offset when its turn comes.
    pub open spec fn moves_found(self, moves: Map<u64, u64>) -> bool {
        forall|offset: u64| #[trigger]
            moves.contains_key(offset) ==> Self::moved_below(
                self.allocated,
                moves,
                offset as int,
            ).contains_key(offset)
    }

    /// What the moves of `list` leave: the blocks at their new offsets, and one free block of all
    /// the bytes that they do not fill, at the end of the buffer.
    pub open spec fn after_relocate(self, list: Seq<(u64, u64, u64)>) -> Self {
        let moved = Layout { allocated: self.moved(Self::moves(list)), ..self };
        let filled = sums::total(moved.sizes());
        let cleared = Layout { by_size: Map::empty(), free: Map::empty(), ..moved };
        if filled < self.size {
            cleared.with_free(filled as u64, (self.size - filled) as u64)
        } else {
            cleared
        }
    }

    /// The moves of `list` can all be made, and the blocks that they leave are together no longer
    /// than the buffer.
    pub open spec fn relocation_fits(self, list: Seq<(u64, u64, u64)>) -> bool {
        &&& self.moves_found(Self::moves(list))
        &&& sums::total(self.after_relocate(list).sizes()) <= self.size
    }

    // ---- well-formedness ----
    /// A block, allocated or free, starts at `offset`.
    pub open spec fn is_block(self, offset: u64) -> bool {
        self.allocated.contains_key(offset) || self.free.contains_key(offset)
    }

    /// The size of the block at `offset`.
    pub open spec fn block_size(self, offset: u64) -> int {
        if self.allocated.contains_key(offset) {
            self.allocated[offset].physical_size as int
        } else {
            self.free[offset] as int
        }
    }

    /// The byte at `address` belongs to the block at `offset`.
    pub open spec fn owns(self, offset: u64, address: int) -> bool {
        self.is_block(offset) && offset <= address < offset + self.block_size(offset)
    }

    /// The index by size lists exactly the free blocks, each once, and no size without blocks.
    pub open spec fn indexed(self) -> bool {
        &&& forall|size: u64| #[trigger]
            self.by_size.contains_key(size) ==> self.by_size[size].len() > 0
                && self.by_size[size].no_duplicates()
        &&& forall|size: u64, i: int|
            #![trigger self.by_size[size][i]]
            self.by_size.contains_key(size) && 0 <= i < self.by_size[size].len()
                ==> self.free.contains_key(self.by_size[size][i])
                && self.free[self.by_size[size][i]] == size
        &&& forall|offset: u64| #[trigger]
            self.free.contains_key(offset) ==> self.by_size.contains_key(self.free[offset])
                && self.by_size[self.free[offset]].contains(offset)
    }

    /// No block is empty, unless the buffer is.
    pub open spec fn nonempty(self) -> bool {
        forall|offset: u64| #[trigger]
            self.is_block(offset) ==> self.block_size(offset) > 0 || self.size == 0
    }

    /// Every block lies within the buffer, and no two blocks overlap.
    pub open spec fn disjoint(self) -> bool {
        &&& forall|offset: u64| #[trigger]
            self.is_block(offset) ==> offset + self.block_size(offset) <= self.size
        &&& forall|offset: u64|
            !(#[trigger] self.allocated.contains_key(offset) && self.free.contains_key(offset))
        &&& forall|left: u64, right: u64|
            #![trigger self.is_block(left), self.is_block(right)]
            self.is_block(left) && self.is_block(right) && left < right ==> left + self.block_size(
                left,
            ) <= right
    }

    /// The byte at `address` belongs to some block.
    pub open spec fn is_owned(self, address: int) -> bool {
        exists|offset: u64| self.owns(offset, address)
    }

    /// Every byte of the buffer belongs to a block.
    pub open spec fn covered(self) -> bool {
        forall|address: int| 0 <= address < self.size ==> #[trigger] self.is_owned(address)
    }

    /// Every block starts at an aligned offset, and every allocated block has an aligned size, of
    /// which its data take no more than all.
    pub open spec fn aligned(self) -> bool {
        &&& forall|offset: u64| #[trigger] self.is_block(offset) ==> offset as int % alignment::alignment() == 0
        &&& forall|offset: u64| #[trigger]
            self.allocated.contains_key(offset) ==> {
                &&& self.allocated[offset].physical_size as int % alignment::alignment() == 0
                &&& self.allocated[offset]._virtual_size <= self.allocated[offset].physical_size
            }
    }

    /// The bytes counted as in use are those of the allocated blocks.
    pub open spec fn accounted(self) -> bool {
        self.used == sums::total(self.sizes())
    }

    /// The bookkeeping describes one division of the buffer into blocks.
    pub open spec fn wf(self) -> bool {
        &&& self.indexed()
        &&& self.nonempty()
        &&& self.disjoint()
        &&& self.covered()
        &&& self.aligned()
        &&& self.accounted()
    }

    /// No free block starts where another ends.
    pub open spec fn coalesced(self) -> bool {
        forall|left: u64, right: u64|
            #![trigger self.free.contains_key(left), self.free.contains_key(right)]
            self.free.contains_key(left) && self.free.contains_key(right) && left < right ==> left
                + self.free[left] < right
    }
}

} // verus!

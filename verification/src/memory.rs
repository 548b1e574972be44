//! Transfers to and within the buffer.
use vstd::prelude::*;

verus! {

/// A write of `data` into the buffer, from `offset` on.
#[derive(Debug, Clone, PartialEq, Eq)]
pub struct BufferWrite {
    pub offset: u64,
    pub data: Vec<u8>,
}

/// A copy of `size` bytes within the buffer.
#[derive(Debug, Clone, Copy, PartialEq, Eq, Structural)]
pub struct BufferCopy {
    pub source_offset: u64,
    pub destination_offset: u64,
    pub size: u64,
}

/// The `len` bytes of `memory` from `offset` on.
pub open spec fn read(memory: Seq<u8>, offset: int, len: int) -> Seq<u8> {
    memory.subrange(offset, offset + len)
}

/// `memory` with `data` from `offset` on.
pub open spec fn written(memory: Seq<u8>, offset: int, data: Seq<u8>) -> Seq<u8> {
    Seq::new(
        memory.len(),
        |i: int|
            if offset <= i < offset + data.len() {
                data[i - offset]
            } else {
                memory[i]
            },
    )
}

/// `len` zero bytes.
pub open spec fn zeros(len: nat) -> Seq<u8> {
    Seq::new(len, |i: int| 0u8)
}

impl BufferWrite {
    /// `memory` after this write.
    pub open spec fn applied(self, memory: Seq<u8>) -> Seq<u8> {
        written(memory, self.offset as int, self.data@)
    }

    /// `after` is `before` with a write of `data` at `offset` queued last.
    pub open spec fn queued(
        before: Seq<BufferWrite>,
        after: Seq<BufferWrite>,
        offset: u64,
        data: Seq<u8>,
    ) -> bool {
        &&& after.len() == before.len() + 1
        &&& after.drop_last() == before
        &&& after.last().offset == offset
        &&& after.last().data@ == data
    }
}

impl BufferCopy {
    /// The copies that carry out a list of moves, in the order of the list. A move to where the
    /// block already is, or of no bytes, takes no copy.
    pub open spec fn of_moves(list: Seq<(u64, u64, u64)>) -> Seq<BufferCopy>
        decreases list.len(),
    {
        if list.len() == 0 {
            Seq::empty()
        } else {
            let before = Self::of_moves(list.drop_last());
            let (source_offset, destination_offset, size) = list.last();
            if source_offset != destination_offset && size > 0 {
                before.push(BufferCopy { source_offset, destination_offset, size })
            } else {
                before
            }
        }
    }

    /// `memory` after this copy, which reads all its bytes before it writes any.
    pub open spec fn applied(self, memory: Seq<u8>) -> Seq<u8> {
        written(
            memory,
            self.destination_offset as int,
            read(memory, self.source_offset as int, self.size as int),
        )
    }

    /// `memory` after `copies`, one after the other.
    pub open spec fn all_applied(copies: Seq<BufferCopy>, memory: Seq<u8>) -> Seq<u8>
        decreases copies.len(),
    {
        if copies.len() == 0 {
            memory
        } else {
            copies.last().applied(Self::all_applied(copies.drop_last(), memory))
        }
    }
}

} // verus!

//! The index of free blocks by size: for each size, a queue of offsets.
use crate::layout::Layout;
use std::collections::{BTreeMap, VecDeque};
use vstd::prelude::*;

verus! {

/// The queues of an index, as sequences.
pub open spec fn queues(index: Map<u64, VecDeque<u64>>) -> Map<u64, Seq<u64>> {
    index.map_values(|queue: VecDeque<u64>| queue@)
}

/// Queues `offset` last among the free blocks of `size` bytes.
pub fn enqueue(index: &mut BTreeMap<u64, VecDeque<u64>>, size: u64, offset: u64)
    ensures
        queues(final(index)@) == Layout::enqueued(queues(old(index)@), size, offset),
{
    let mut queue: VecDeque<u64> = match index.remove(&size) {
        Some(queue) => queue,
        None => VecDeque::new(),
    };
    queue.push_back(offset);
    index.insert(size, queue);
    assert(queues(index@) =~= Layout::enqueued(queues(old(index)@), size, offset));
}

/// Puts `queue` back as the free blocks of `size` bytes, unless it is empty.
fn put_back(index: &mut BTreeMap<u64, VecDeque<u64>>, size: u64, queue: VecDeque<u64>)
    requires
        !old(index)@.contains_key(size),
    ensures
        queues(final(index)@) == Layout::with_queue(queues(old(index)@), size, queue@),
{
    if queue.len() > 0 {
        index.insert(size, queue);
    }
    assert(queues(index@) =~= Layout::with_queue(queues(old(index)@), size, queue@));
}

/// Takes the first free block of `size` bytes off its queue.
pub fn pop(index: &mut BTreeMap<u64, VecDeque<u64>>, size: u64) -> (offset: Option<u64>)
    requires
        old(index)@.contains_key(size),
    ensures
        ({
            let queue = queues(old(index)@)[size];
            match offset {
                Some(offset) => {
                    &&& queue.len() > 0
                    &&& offset == queue[0]
                    &&& queues(final(index)@) == Layout::with_queue(
                        queues(old(index)@),
                        size,
                        queue.subrange(1, queue.len() as int),
                    )
                },
                None => queue.len() == 0 && queues(final(index)@) == queues(old(index)@),
            }
        }),
{
    let mut queue: VecDeque<u64> = index.remove(&size).unwrap();
    let offset: Option<u64> = queue.pop_front();
    if offset.is_none() {
        index.insert(size, queue);
        assert(queues(index@) =~= queues(old(index)@));
    } else {
        put_back(index, size, queue);
        assert(queues(old(index)@.remove(size)) =~= queues(old(index)@).remove(size));
        assert(queues(index@) =~= Layout::with_queue(queues(old(index)@), size, queue@));
    }
    offset
}

/// Takes `offset` out of the free blocks of `size` bytes.
pub fn dequeue(index: &mut BTreeMap<u64, VecDeque<u64>>, size: u64, offset: u64)
    ensures
        queues(final(index)@) == Layout::dequeued(queues(old(index)@), size, offset),
{
    let queue: VecDeque<u64> = match index.remove(&size) {
        Some(queue) => queue,
        None => {
            assert(queues(index@) =~= queues(old(index)@));
            return;
        },
    };
    let ghost keep = Layout::other_than(offset);
    let mut kept: VecDeque<u64> = VecDeque::new();
    let mut i: usize = 0;
    assert(queue@.subrange(0, 0).filter(keep) =~= Seq::<u64>::empty()) by {
        reveal(Seq::filter);
    }
    while i < queue.len()
        invariant
            i <= queue@.len(),
            keep == Layout::other_than(offset),
            kept@ == queue@.subrange(0, i as int).filter(keep),
        decreases queue@.len() - i,
    {
        let o: u64 = queue[i];
        if o != offset {
            kept.push_back(o);
        }
        proof {
            reveal(Seq::filter);
            assert(queue@.subrange(0, i + 1).drop_last() =~= queue@.subrange(0, i as int));
        }
        i += 1;
    }
    assert(queue@.subrange(0, queue@.len() as int) =~= queue@);
    put_back(index, size, kept);
    assert(queues(old(index)@.remove(size)) =~= queues(old(index)@).remove(size));
    assert(queues(index@) =~= Layout::dequeued(queues(old(index)@), size, offset));
}

} // verus!

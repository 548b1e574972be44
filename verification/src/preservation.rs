//! Proofs that each operation keeps the bookkeeping well-formed.
use crate::alignment;
use crate::allocator::UsedBytes;
use crate::layout::Layout;
use crate::sums;
use vstd::prelude::*;

verus! {

/// There is only one best-fitting size.
pub proof fn lemma_is_best_fit(layout: Layout, size: u64, request: int)
    requires
        layout.is_best_fit(size, request),
    ensures
        layout.best_fit(request) == Some(size),
{
    assert(layout.suits(size, request));
    let chosen = choose|s: u64| layout.is_best_fit(s, request);
    assert(layout.is_best_fit(chosen, request));
}

/// Of the listed sizes that are enough there is a least one.
proof fn lemma_least_suiting(layout: Layout, size: u64, request: int) -> (least: u64)
    requires
        layout.suits(size, request),
    ensures
        layout.is_best_fit(least, request),
    decreases size,
{
    if forall|other: u64| #[trigger] layout.suits(other, request) ==> size <= other {
        size
    } else {
        let smaller = choose|other: u64| #[trigger] layout.suits(other, request) && other < size;
        lemma_least_suiting(layout, smaller, request)
    }
}

/// There is a best-fitting size whenever any size is enough.
pub proof fn lemma_best_fit(layout: Layout, request: int)
    ensures
        match layout.best_fit(request) {
            Some(size) => layout.is_best_fit(size, request),
            None => forall|size: u64| !layout.suits(size, request),
        },
{
    if exists|size: u64| layout.suits(size, request) {
        let size = choose|size: u64| layout.suits(size, request);
        let least = lemma_least_suiting(layout, size, request);
        lemma_is_best_fit(layout, least, request);
    }
}

/// There is only one last free block below a bound.
pub proof fn lemma_is_last_free_below(layout: Layout, offset: u64, bound: u64)
    requires
        layout.is_last_free_below(offset, bound),
    ensures
        layout.last_free_below(bound) == Some(offset),
{
    let chosen = choose|o: u64| layout.is_last_free_below(o, bound);
    assert(layout.is_last_free_below(chosen, bound));
}

/// Of the free blocks below a bound there is a last one.
proof fn lemma_greatest_free_below(layout: Layout, offset: u64, bound: u64) -> (greatest: u64)
    requires
        layout.free.contains_key(offset),
        offset < bound,
    ensures
        layout.is_last_free_below(greatest, bound),
    decreases bound - offset,
{
    if forall|other: u64| #[trigger]
        layout.free.contains_key(other) && other < bound ==> other <= offset {
        offset
    } else {
        let greater = choose|other: u64| #[trigger]
            layout.free.contains_key(other) && offset < other < bound;
        lemma_greatest_free_below(layout, greater, bound)
    }
}

/// There is a last free block below a bound whenever there is any.
pub proof fn lemma_last_free_below(layout: Layout, bound: u64)
    ensures
        match layout.last_free_below(bound) {
            Some(offset) => layout.is_last_free_below(offset, bound),
            None => forall|offset: u64| #[trigger] layout.free.contains_key(offset) ==> bound <= offset,
        },
{
    if exists|offset: u64| layout.free.contains_key(offset) && offset < bound {
        let offset = choose|offset: u64| layout.free.contains_key(offset) && offset < bound;
        let greatest = lemma_greatest_free_below(layout, offset, bound);
        lemma_is_last_free_below(layout, greatest, bound);
    }
}

/// A buffer that is one free block is well-formed.
pub proof fn lemma_initial_wf(size: u64)
    ensures
        Layout::initial(size).wf(),
        Layout::initial(size).coalesced(),
{
    let layout = Layout::initial(size);
    assert(layout.by_size[size][0] == 0);
    assert forall|address: int| 0 <= address < size implies #[trigger] layout.is_owned(address) by {
        assert(layout.owns(0, address));
    }
    sums::lemma_bytes_below_gap(layout.sizes(), 0, sums::address_space());
}

/// In a well-formed layout the block that a request is served from is free, and large enough.
pub proof fn lemma_placement(layout: Layout, request: int)
    requires
        layout.wf(),
    ensures
        match layout.placement(request) {
            Some(offset) => {
                &&& layout.free.contains_key(offset)
                &&& layout.best_fit(request) == Some(layout.free[offset])
                &&& request <= layout.free[offset]
                &&& forall|other: u64| #[trigger]
                    layout.free.contains_key(other) && request <= layout.free[other]
                        ==> layout.free[offset] <= layout.free[other]
            },
            None => forall|other: u64| #[trigger]
                layout.free.contains_key(other) ==> layout.free[other] < request,
        },
{
    lemma_best_fit(layout, request);
    match layout.best_fit(request) {
        Some(size) => {
            let offset = layout.by_size[size][0];
            assert(layout.free.contains_key(offset));
            assert forall|other: u64| #[trigger]
                layout.free.contains_key(other) && request <= layout.free[other] implies size
                <= layout.free[other] by {
                assert(layout.suits(layout.free[other], request));
            }
        },
        None => {
            assert forall|other: u64| #[trigger]
                layout.free.contains_key(other) implies layout.free[other] < request by {
                assert(!layout.suits(layout.free[other], request));
            }
        },
    }
}

/// The allocated blocks and one free block together are no longer than the buffer.
pub proof fn lemma_room(layout: Layout, offset: u64)
    requires
        layout.wf(),
        layout.free.contains_key(offset),
    ensures
        layout.used + layout.free[offset] <= layout.size,
{
    let sizes = layout.sizes();
    let more = sizes.insert(offset, layout.free[offset]);
    assert(!layout.allocated.contains_key(offset));
    sums::lemma_bytes_below_insert(sizes, offset, layout.free[offset], sums::address_space());
    assert forall|o: u64| #[trigger] more.contains_key(o) implies layout.is_block(o) && more[o]
        == layout.block_size(o) by {}
    sums::lemma_bytes_below_bound(more, sums::address_space(), layout.size as int);
}

/// The allocated blocks together are no longer than the buffer.
pub proof fn lemma_used_within_size(layout: Layout)
    requires
        layout.wf(),
    ensures
        layout.used <= layout.size,
{
    let sizes = layout.sizes();
    assert forall|o: u64| #[trigger] sizes.contains_key(o) implies layout.is_block(o) && sizes[o]
        == layout.block_size(o) by {}
    sums::lemma_bytes_below_bound(sizes, sums::address_space(), layout.size as int);
}

/// In a well-formed layout no request overflows a counter or an offset.
pub proof fn lemma_placement_fits(layout: Layout, request: int)
    requires
        layout.wf(),
        0 <= request,
    ensures
        layout.placement_fits(request),
{
    lemma_placement(layout, request);
    if let Some(offset) = layout.placement(request) {
        lemma_room(layout, offset);
        assert(layout.is_block(offset));
    }
}

/// Taking one free block off its queue keeps the index exact.
proof fn lemma_indexed_taken(before: Layout, after: Layout, offset: u64, queue: Seq<u64>)
    requires
        before.indexed(),
        before.free.contains_key(offset),
        queue.no_duplicates(),
        forall|o: u64| #[trigger]
            queue.contains(o) <==> before.by_size[before.free[offset]].contains(o) && o != offset,
        after.by_size == Layout::with_queue(before.by_size, before.free[offset], queue),
        after.free == before.free.remove(offset),
    ensures
        after.indexed(),
{
    let class = before.free[offset];
    assert forall|size: u64, i: int|
        #![trigger after.by_size[size][i]]
        after.by_size.contains_key(size) && 0 <= i < after.by_size[size].len() implies {
        &&& after.free.contains_key(after.by_size[size][i])
        &&& after.free[after.by_size[size][i]] == size
    } by {
        let o = after.by_size[size][i];
        if size == class {
            assert(queue.contains(o));
            let j = choose|j: int|
                0 <= j < before.by_size[class].len() && before.by_size[class][j] == o;
            assert(before.by_size[class][j] == o);
        } else {
            assert(before.by_size[size][i] == o);
        }
    }
    assert forall|o: u64| #[trigger] after.free.contains_key(o) implies {
        &&& after.by_size.contains_key(after.free[o])
        &&& after.by_size[after.free[o]].contains(o)
    } by {
        assert(before.free.contains_key(o));
        if before.free[o] == class {
            assert(queue.contains(o));
            assert(queue.len() > 0);
        }
    }
}

/// Queueing a new free block keeps the index exact.
pub proof fn lemma_indexed_with_free(layout: Layout, offset: u64, size: u64)
    requires
        layout.indexed(),
        !layout.free.contains_key(offset),
    ensures
        layout.with_free(offset, size).indexed(),
{
    let after = layout.with_free(offset, size);
    let queue = if layout.by_size.contains_key(size) {
        layout.by_size[size]
    } else {
        Seq::empty()
    };
    assert(after.by_size[size] == queue.push(offset));
    assert forall|i: int| 0 <= i < queue.len() implies #[trigger] queue[i] != offset by {
        assert(layout.free.contains_key(layout.by_size[size][i]));
    }
    assert forall|s: u64, i: int|
        #![trigger after.by_size[s][i]]
        after.by_size.contains_key(s) && 0 <= i < after.by_size[s].len() implies {
        &&& after.free.contains_key(after.by_size[s][i])
        &&& after.free[after.by_size[s][i]] == s
    } by {
        if s == size && i == queue.len() {
        } else {
            assert(after.by_size[s][i] == layout.by_size[s][i]);
        }
    }
    assert forall|o: u64| #[trigger] after.free.contains_key(o) implies {
        &&& after.by_size.contains_key(after.free[o])
        &&& after.by_size[after.free[o]].contains(o)
    } by {
        if o == offset {
            assert(after.by_size[size][queue.len() as int] == offset);
        } else {
            assert(layout.free.contains_key(o));
            if layout.free[o] == size {
                let i = choose|i: int| 0 <= i < queue.len() && queue[i] == o;
                assert(after.by_size[size][i] == o);
            }
        }
    }
}

/// Taking a free block out of the index keeps the index exact.
pub proof fn lemma_indexed_without_free(layout: Layout, offset: u64)
    requires
        layout.indexed(),
        layout.free.contains_key(offset),
    ensures
        layout.without_free(offset).indexed(),
{
    let keep = Layout::other_than(offset);
    let all = layout.by_size[layout.free[offset]];
    let queue = all.filter(keep);
    lemma_filter_distinct(all, keep);
    lemma_indexed_taken(layout, layout.without_free(offset), offset, queue);
}

/// Filtering keeps the elements that pass, without repeating one.
proof fn lemma_filter_distinct(all: Seq<u64>, keep: spec_fn(u64) -> bool)
    requires
        all.no_duplicates(),
    ensures
        all.filter(keep).no_duplicates(),
        forall|o: u64| #[trigger] all.filter(keep).contains(o) <==> all.contains(o) && keep(o),
    decreases all.len(),
{
    reveal(Seq::filter);
    if all.len() > 0 {
        let rest = all.drop_last();
        lemma_filter_distinct(rest, keep);
        let kept = rest.filter(keep);
        assert forall|o: u64| all.contains(o) <==> rest.contains(o) || o == all.last() by {
            if all.contains(o) {
                let i = choose|i: int| 0 <= i < all.len() && all[i] == o;
                if i < rest.len() {
                    assert(rest[i] == o);
                }
            }
            if rest.contains(o) {
                let i = choose|i: int| 0 <= i < rest.len() && rest[i] == o;
                assert(all[i] == o);
            }
            if o == all.last() {
                assert(all[all.len() - 1] == o);
            }
        }
        assert(!rest.contains(all.last()));
        if keep(all.last()) {
            let pushed = kept.push(all.last());
            assert forall|o: u64| #[trigger] pushed.contains(o) <==> kept.contains(o) || o
                == all.last() by {
                if kept.contains(o) {
                    let i = choose|i: int| 0 <= i < kept.len() && kept[i] == o;
                    assert(pushed[i] == o);
                }
                if o == all.last() {
                    assert(pushed[kept.len() as int] == o);
                }
            }
            assert forall|i: int| 0 <= i < kept.len() implies #[trigger] kept[i] != all.last() by {
                assert(kept.contains(kept[i]));
            }
        }
    }
}

/// Serving a request keeps the index exact.
pub proof fn lemma_indexed_served(layout: Layout, block: UsedBytes)
    requires
        layout.wf(),
        layout.placement(block.physical_size as int) is Some,
    ensures
        layout.after_allocate(block).indexed(),
{
    let request = block.physical_size as int;
    let after = layout.after_allocate(block);
    lemma_placement(layout, request);
    lemma_placement_fits(layout, request);
    let offset = layout.placement(request)->0;
    let size = layout.free[offset];
    let queue = layout.by_size[size];
    let shorter = queue.subrange(1, queue.len() as int);
    assert(layout.is_block(offset) && layout.block_size(offset) == size);
    let rest = (offset + request) as u64;
    let taken = Layout {
        used: (layout.used + request) as u64,
        by_size: Layout::with_queue(layout.by_size, size, shorter),
        free: layout.free.remove(offset),
        allocated: layout.allocated.insert(offset, block),
        ..layout
    };
    assert forall|o: u64| #[trigger] shorter.contains(o) <==> queue.contains(o) && o != offset by {
        if shorter.contains(o) {
            let i = choose|i: int| 0 <= i < shorter.len() && shorter[i] == o;
            assert(queue[i + 1] == o);
        }
        if queue.contains(o) && o != offset {
            let i = choose|i: int| 0 <= i < queue.len() && queue[i] == o;
            assert(shorter[i - 1] == o);
        }
    }
    lemma_indexed_taken(layout, taken, offset, shorter);
    if size > request {
        assert(!taken.free.contains_key(rest)) by {
            if taken.free.contains_key(rest) {
                assert(layout.is_block(rest));
            }
        }
        lemma_indexed_with_free(taken, rest, (size - request) as u64);
        assert(after == taken.with_free(rest, (size - request) as u64));
    }
}

/// Serving a request keeps a layout well-formed, unless the request is empty and the buffer is not.
pub proof fn lemma_allocate_wf(layout: Layout, block: UsedBytes)
    requires
        layout.wf(),
        layout.placement(block.physical_size as int) is Some,
        block.physical_size > 0 || layout.size == 0,
        block.physical_size as int % alignment::alignment() == 0,
        block._virtual_size <= block.physical_size,
    ensures
        layout.after_allocate(block).wf(),
        layout.coalesced() ==> layout.after_allocate(block).coalesced(),
{
    let request = block.physical_size as int;
    let after = layout.after_allocate(block);
    lemma_placement(layout, request);
    lemma_placement_fits(layout, request);
    let offset = layout.placement(request)->0;
    let size = layout.free[offset];
    assert(layout.is_block(offset) && layout.block_size(offset) == size);
    let rest = (offset + request) as u64;
    lemma_indexed_served(layout, block);
    assert forall|o: u64| #[trigger] after.is_block(o) implies layout.is_block(o) || (o == rest
        && size > request) by {}
    assert forall|o: u64| #[trigger] after.is_block(o) implies after.block_size(o) == if o
        == offset {
        request
    } else if o == rest && size > request {
        size - request
    } else {
        layout.block_size(o)
    } by {
        if o == rest && size > request {
            assert(!layout.is_block(rest));
        }
    }
    assert(after.disjoint()) by {
        assert forall|o: u64| !(#[trigger] after.allocated.contains_key(o)
            && after.free.contains_key(o)) by {
            if o == rest && size > request {
                assert(!layout.is_block(rest));
            }
        }
        assert forall|left: u64, right: u64|
            #![trigger after.is_block(left), after.is_block(right)]
            after.is_block(left) && after.is_block(right) && left < right implies left
            + after.block_size(left) <= right by {
            let l = if left == rest && size > request {
                offset
            } else {
                left
            };
            let r = if right == rest && size > request {
                offset
            } else {
                right
            };
            assert(layout.is_block(l) && layout.is_block(r));
        }
    }
    assert(after.covered()) by {
        assert forall|address: int| 0 <= address < after.size implies #[trigger] after.is_owned(
            address,
        ) by {
            assert(layout.is_owned(address));
            let o = choose|o: u64| layout.owns(o, address);
            if o == offset && address >= rest {
                assert(after.owns(rest, address));
            } else {
                assert(after.owns(o, address));
            }
        }
    }
    assert(after.accounted()) by {
        assert(after.sizes() =~= layout.sizes().insert(offset, block.physical_size));
        sums::lemma_bytes_below_insert(
            layout.sizes(),
            offset,
            block.physical_size,
            sums::address_space(),
        );
    }
    if layout.coalesced() {
        assert forall|left: u64, right: u64|
            #![trigger after.free.contains_key(left), after.free.contains_key(right)]
            after.free.contains_key(left) && after.free.contains_key(right) && left
                < right implies left + after.free[left] < right by {
            let l = if left == rest && size > request {
                offset
            } else {
                left
            };
            let r = if right == rest && size > request {
                offset
            } else {
                right
            };
            assert(layout.free.contains_key(l) && layout.free.contains_key(r));
            assert(layout.is_block(l) && layout.is_block(r));
        }
    }
}

/// In a well-formed layout no block that is freed overflows a counter or an offset.
pub proof fn lemma_release_fits(layout: Layout, offset: u64)
    requires
        layout.wf(),
        layout.allocated.contains_key(offset),
    ensures
        layout.release_fits(offset),
{
    let sizes = layout.sizes();
    let size = layout.allocated[offset].physical_size;
    let rest = layout.without_right(offset);
    assert(sizes.contains_key(offset) && sizes[offset] == size);
    sums::lemma_bytes_below_remove(sizes, offset, sums::address_space());
    sums::lemma_bytes_below_monotone(sizes.remove(offset), 0, sums::address_space());
    assert(layout.is_block(offset));
    let right = (offset + size) as u64;
    if layout.free.contains_key(right) {
        assert(layout.is_block(right));
    }
    lemma_last_free_below(rest, offset);
    if let Some(left) = rest.last_free_below(offset) {
        assert(layout.is_block(left));
    }
}

/// Freeing a block keeps a layout well-formed.
pub proof fn lemma_deallocate_wf(layout: Layout, offset: u64)
    requires
        layout.wf(),
        layout.allocated.contains_key(offset),
    ensures
        layout.after_deallocate(offset).wf(),
        layout.coalesced() ==> layout.after_deallocate(offset).coalesced(),
{
    let after = layout.after_deallocate(offset);
    let size = layout.allocated[offset].physical_size;
    let right = (offset + size) as u64;
    let end = layout.freed_end(offset);
    let alone = layout.without_allocated(offset);
    let rest = layout.without_right(offset);
    lemma_release_fits(layout, offset);
    lemma_last_free_below(rest, offset);
    let left = rest.left_neighbor(offset);
    let start = if left is Some {
        left->0
    } else {
        offset
    };
    assert(layout.is_block(offset) && layout.block_size(offset) == size);
    if layout.free.contains_key(right) {
        assert(layout.is_block(right) && layout.block_size(right) == layout.free[right]);
    }
    if left is Some {
        assert(layout.is_block(start) && layout.block_size(start) == layout.free[start]);
    }
    assert(after.indexed()) by {
        assert(alone.indexed());
        if layout.free.contains_key(right) {
            lemma_indexed_without_free(alone, right);
        }
        assert(rest.indexed());
        assert(!rest.free.contains_key(offset));
        if left is Some {
            lemma_indexed_without_free(rest, start);
            lemma_indexed_with_free(rest.without_free(start), start, (end - start) as u64);
        } else {
            lemma_indexed_with_free(rest, offset, (end - offset) as u64);
        }
    }
    assert forall|o: u64| #[trigger] after.is_block(o) <==> o == start || (layout.is_block(o) && o
        != offset && !(o == right && layout.free.contains_key(right))) by {}
    assert(after.free[start] == end - start);
    assert forall|o: u64| #[trigger] after.is_block(o) && o != start implies after.block_size(o)
        == layout.block_size(o) by {}
    assert(after.block_size(start) == end - start);
    assert(after.disjoint()) by {
        assert forall|l: u64, r: u64|
            #![trigger after.is_block(l), after.is_block(r)]
            after.is_block(l) && after.is_block(r) && l < r implies l + after.block_size(l)
            <= r by {
            assert(layout.is_block(l) && layout.is_block(r));
        }
        assert forall|o: u64| !(#[trigger] after.allocated.contains_key(o)
            && after.free.contains_key(o)) by {
            assert(!(layout.allocated.contains_key(o) && layout.free.contains_key(o)));
        }
    }
    assert(after.nonempty());
    assert(after.aligned());
    assert(after.covered()) by {
        assert forall|address: int| 0 <= address < after.size implies #[trigger] after.is_owned(
            address,
        ) by {
            assert(layout.is_owned(address));
            let o = choose|o: u64| layout.owns(o, address);
            if start <= address < end {
                assert(after.owns(start, address));
            } else {
                assert(after.owns(o, address));
            }
        }
    }
    assert(after.accounted()) by {
        assert(after.sizes() =~= layout.sizes().remove(offset));
        sums::lemma_bytes_below_remove(layout.sizes(), offset, sums::address_space());
    }
    if layout.coalesced() {
        assert forall|l: u64, r: u64|
            #![trigger after.free.contains_key(l), after.free.contains_key(r)]
            after.free.contains_key(l) && after.free.contains_key(r) && l < r implies l
            + after.free[l] < r by {
            assert(after.is_block(l) && after.is_block(r));
            if r == start && left is None {
                assert(rest.free.contains_key(l));
                let last = rest.last_free_below(offset)->0;
                assert(l <= last);
                assert(layout.is_block(l) && layout.is_block(last));
            }
        }
    }
}

/// Raising the bound over offsets at which no block starts adds no move.
pub proof fn lemma_relocations_gap(layout: Layout, low: int, high: int)
    requires
        0 <= low <= high <= sums::address_space(),
        forall|o: u64| low <= o < high ==> !(#[trigger] layout.allocated.contains_key(o)),
    ensures
        layout.relocations_below(low) == layout.relocations_below(high),
    decreases high - low,
{
    if low < high {
        lemma_relocations_gap(layout, low, high - 1);
    }
}

/// Raising the bound over offsets that no move starts from moves no block.
pub proof fn lemma_moved_gap(
    allocated: Map<u64, UsedBytes>,
    moves: Map<u64, u64>,
    low: int,
    high: int,
)
    requires
        0 <= low <= high <= sums::address_space(),
        forall|o: u64| low <= o < high ==> !(#[trigger] moves.contains_key(o)),
    ensures
        Layout::moved_below(allocated, moves, low) == Layout::moved_below(allocated, moves, high),
    decreases high - low,
{
    if low < high {
        lemma_moved_gap(allocated, moves, low, high - 1);
    }
}

} // verus!

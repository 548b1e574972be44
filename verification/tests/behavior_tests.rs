use std::borrow::Cow;
use std::collections::VecDeque;
use wgpu_buffer_allocator::alignment::{pad_data, round_up};
use wgpu_buffer_allocator::allocator::{RelocationList, SSBOAllocator, UsedBytes};
use wgpu_buffer_allocator::memory::{BufferCopy, BufferWrite};

/// A buffer in main memory, with an allocator and the transfers that it has queued.
struct Bench {
    allocator: SSBOAllocator,
    queue: Vec<BufferWrite>,
    memory: Vec<u8>,
}

impl Bench {
    fn new(size: u64) -> Self {
        Bench {
            allocator: SSBOAllocator::new(size),
            queue: Vec::new(),
            memory: vec![0xEE; size as usize],
        }
    }

    fn flush(&mut self) {
        for write in self.queue.drain(..) {
            let start = write.offset as usize;
            self.memory[start..start + write.data.len()].copy_from_slice(&write.data);
        }
    }

    fn allocate(&mut self, data: &[u8], padding: Option<u64>) -> Result<u64, &'static str> {
        let result = self.allocator.allocate(&mut self.queue, data, padding);
        self.flush();
        result
    }

    fn modify(&mut self, offset: u64, data: &[u8]) -> Result<(), &'static str> {
        let result = self.allocator.modify(&mut self.queue, offset, data);
        self.flush();
        result
    }

    fn deallocate(&mut self, offset: u64) -> Result<(), &'static str> {
        let result = self.allocator.deallocate_wipe(&mut self.queue, offset);
        self.flush();
        result
    }

    fn compact(&mut self) -> RelocationList {
        let mut list = self.allocator.get_relocation_list();
        let mut copies: Vec<BufferCopy> = Vec::new();
        self.allocator.submit_copies_to_encoder(&mut copies, &mut list);
        for copy in copies {
            let start = copy.source_offset as usize;
            let bytes = self.memory[start..start + copy.size as usize].to_vec();
            let target = copy.destination_offset as usize;
            self.memory[target..target + bytes.len()].copy_from_slice(&bytes);
        }
        self.allocator.update_allocator_schema_with_relocation_list(&list);
        list
    }

    fn free(&self) -> Vec<(u64, u64)> {
        self.allocator.free_by_offset.iter().map(|(&o, &s)| (o, s)).collect()
    }

    fn allocated(&self) -> Vec<(u64, u64, u64)> {
        self.allocator
            .allocated_blocks
            .iter()
            .map(|(&o, b)| (o, b.physical_size, b._virtual_size))
            .collect()
    }

    fn by_size(&self) -> Vec<(u64, Vec<u64>)> {
        self.allocator
            .free_by_size
            .iter()
            .map(|(&s, offsets)| (s, offsets.iter().copied().collect()))
            .collect()
    }

    /// How many blocks the byte at `address` belongs to.
    fn owners(&self, address: u64) -> usize {
        let free = self.free().into_iter();
        let allocated = self.allocated().into_iter().map(|(o, s, _)| (o, s));
        free.chain(allocated).filter(|&(o, s)| o <= address && address < o + s).count()
    }
}

/// Four blocks of 8, 4, 12 and 8 bytes in a buffer of 48, the first and third of them freed.
fn fragmented() -> Bench {
    let mut bench = Bench::new(48);
    assert_eq!(bench.allocate(&[1; 8], None), Ok(0));
    assert_eq!(bench.allocate(&[2; 3], None), Ok(8));
    assert_eq!(bench.allocate(&[3; 12], None), Ok(12));
    assert_eq!(bench.allocate(&[4; 5], Some(2)), Ok(24));
    assert_eq!(bench.deallocate(0), Ok(()));
    assert_eq!(bench.deallocate(12), Ok(()));
    bench
}

#[test]
fn round_up_gives_multiples_of_the_alignment() {
    assert_eq!(round_up(0), 0);
    assert_eq!(round_up(1), 4);
    assert_eq!(round_up(3), 4);
    assert_eq!(round_up(4), 4);
    assert_eq!(round_up(5), 8);
    assert_eq!(round_up(u64::MAX - 3), u64::MAX - 3);
    assert_eq!(round_up(7) % wgpu::COPY_BUFFER_ALIGNMENT, 0);
}

#[test]
fn pad_data_appends_zeros() {
    assert_eq!(pad_data(&[7]).as_ref(), &[7, 0, 0, 0]);
    assert_eq!(pad_data(&[7, 8, 9, 10, 11]).as_ref(), &[7, 8, 9, 10, 11, 0, 0, 0]);
    assert!(matches!(pad_data(&[7]), Cow::Owned(_)));
}

#[test]
fn padding_twice_changes_nothing() {
    for len in 0..9 {
        let data = vec![7; len];
        let once = pad_data(&data);
        let twice = pad_data(&once);
        assert!(matches!(twice, Cow::Borrowed(_)));
        assert_eq!(twice, once);
    }
}

#[test]
fn padding_goes_behind_an_aligned_front() {
    let padded = pad_data(&[1, 2, 3, 4, 5, 6]);
    assert_eq!(padded[..4], [1, 2, 3, 4]);
    assert_eq!(padded[4..], pad_data(&[5, 6])[..]);
}

#[test]
fn pad_data_borrows_what_is_aligned() {
    assert!(matches!(pad_data(&[]), Cow::Borrowed(bytes) if bytes.is_empty()));
    assert!(matches!(pad_data(&[1, 2, 3, 4]), Cow::Borrowed(bytes) if bytes == [1, 2, 3, 4]));
}

#[test]
fn new_is_one_free_block() {
    let bench = Bench::new(100);
    assert_eq!(bench.free(), vec![(0, 100)]);
    assert_eq!(bench.by_size(), vec![(100, vec![0])]);
    assert!(bench.allocated().is_empty());
    assert_eq!(bench.allocator.get_size(), 100);
    assert_eq!(bench.allocator.get_used_size(), 0);
    assert_eq!(bench.allocator.get_free_size(), 100);
    assert_eq!(bench.allocator.get_allocation_count(), 0);
}

#[test]
fn getters_follow_the_blocks() {
    let bench = fragmented();
    assert_eq!(bench.allocator.get_size(), 48);
    assert_eq!(bench.allocator.get_used_size(), 12);
    assert_eq!(bench.allocator.get_free_size(), 36);
    assert_eq!(bench.allocator.get_allocation_count(), 2);
    assert_eq!(bench.allocated(), vec![(8, 4, 3), (24, 8, 5)]);
    assert_eq!(bench.free(), vec![(0, 8), (12, 12), (32, 16)]);
}

#[test]
fn no_byte_is_lost() {
    let bench = fragmented();
    let free: u64 = bench.free().iter().map(|block| block.1).sum();
    assert_eq!(bench.allocator.get_used_size() + free, 48);
}

#[test]
fn every_byte_has_one_owner() {
    let bench = fragmented();
    for address in 0..48 {
        assert_eq!(bench.owners(address), 1);
    }
}

#[test]
fn allocate_takes_the_best_fit() {
    let mut bench = fragmented();
    assert_eq!(bench.allocate(&[5; 9], None), Ok(12));
    assert_eq!(bench.free(), vec![(0, 8), (32, 16)]);
    assert_eq!(bench.allocate(&[6; 2], None), Ok(0));
    assert_eq!(bench.free(), vec![(4, 4), (32, 16)]);
    assert_eq!(bench.allocate(&[7; 17], None), Err("No suitable block found"));
    assert_eq!(bench.allocate(&[7; 16], None), Ok(32));
    assert_eq!(bench.free(), vec![(4, 4)]);
}

#[test]
fn of_equal_blocks_the_longest_free_goes_first() {
    let mut bench = Bench::new(24);
    for offset in [0, 4, 8, 12, 16, 20] {
        assert_eq!(bench.allocate(&[1; 4], None), Ok(offset));
    }
    assert_eq!(bench.deallocate(16), Ok(()));
    assert_eq!(bench.deallocate(0), Ok(()));
    assert_eq!(bench.deallocate(8), Ok(()));
    assert_eq!(bench.by_size(), vec![(4, vec![16, 0, 8])]);
    assert_eq!(bench.allocate(&[2; 4], None), Ok(16));
    assert_eq!(bench.allocate(&[2; 4], None), Ok(0));
    assert_eq!(bench.allocate(&[2; 4], None), Ok(8));
    assert!(bench.by_size().is_empty());
}

#[test]
fn a_buffer_can_be_filled() {
    let mut bench = Bench::new(8);
    assert_eq!(bench.allocate(&[1; 8], None), Ok(0));
    assert!(bench.free().is_empty());
    assert!(bench.by_size().is_empty());
    assert_eq!(bench.allocate(&[1], None), Err("No suitable block found"));
}

#[test]
fn the_rest_of_an_unaligned_buffer_stays_free() {
    let mut bench = Bench::new(10);
    assert_eq!(bench.allocate(&[1; 9], None), Err("No suitable block found"));
    assert_eq!(bench.allocate(&[1; 8], None), Ok(0));
    assert_eq!(bench.free(), vec![(8, 2)]);
    assert_eq!(bench.allocate(&[1], None), Err("No suitable block found"));
    assert_eq!(bench.deallocate(0), Ok(()));
    assert_eq!(bench.free(), vec![(0, 10)]);
}

#[test]
fn a_size_without_blocks_has_no_offset() {
    let mut bench = Bench::new(16);
    bench.allocator.free_by_size.insert(8, VecDeque::new());
    assert_eq!(bench.allocate(&[1; 5], None), Err("No suitable offset found"));
    assert_eq!(bench.by_size(), vec![(8, vec![]), (16, vec![0])]);
    assert!(bench.allocated().is_empty());
}

#[test]
fn a_refused_request_changes_nothing() {
    let mut bench = fragmented();
    let (free, by_size, allocated) = (bench.free(), bench.by_size(), bench.allocated());
    let memory = bench.memory.clone();
    assert!(bench.allocate(&[9; 16], Some(1)).is_err());
    assert!(bench.modify(8, &[9; 5]).is_err());
    assert!(bench.modify(0, &[9]).is_err());
    assert!(bench.deallocate(12).is_err());
    assert_eq!(bench.free(), free);
    assert_eq!(bench.by_size(), by_size);
    assert_eq!(bench.allocated(), allocated);
    assert_eq!(bench.memory, memory);
}

#[test]
fn allocations_are_apart_and_aligned() {
    let mut bench = fragmented();
    let before = bench.allocated();
    let offset = bench.allocate(&[5; 6], None).unwrap();
    assert_eq!(offset % 4, 0);
    for (other, size, _) in before {
        assert!(other + size <= offset || offset + 8 <= other);
    }
}

#[test]
fn deallocate_undoes_allocate() {
    let mut bench = fragmented();
    let (free, allocated) = (bench.free(), bench.allocated());
    for request in [0, 5, 8, 12, 16] {
        let offset = bench.allocate(&vec![5; request], None).unwrap();
        assert_eq!(bench.deallocate(offset), Ok(()));
        assert_eq!(bench.free(), free);
        assert_eq!(bench.allocated(), allocated);
        assert_eq!(bench.allocator.get_used_size(), 12);
    }
}

#[test]
fn without_allocations_all_is_one_free_block() {
    let mut bench = fragmented();
    assert_eq!(bench.deallocate(24), Ok(()));
    assert_eq!(bench.deallocate(8), Ok(()));
    assert_eq!(bench.free(), vec![(0, 48)]);
    assert_eq!(bench.by_size(), vec![(48, vec![0])]);
    assert_eq!(bench.allocator.get_used_size(), 0);
}

#[test]
fn a_block_is_freed_once() {
    let mut bench = Bench::new(16);
    let offset = bench.allocate(&[1; 4], None).unwrap();
    assert_eq!(bench.deallocate(offset), Ok(()));
    assert_eq!(bench.deallocate(offset), Err("Offset wasn't allocated, can't deallocate"));
}

#[test]
fn a_freed_block_without_free_neighbors_stands_alone() {
    let mut bench = Bench::new(12);
    for offset in [0, 4, 8] {
        assert_eq!(bench.allocate(&[1; 4], None), Ok(offset));
    }
    assert_eq!(bench.deallocate(4), Ok(()));
    assert_eq!(bench.free(), vec![(4, 4)]);
    assert_eq!(bench.deallocate(8), Ok(()));
    assert_eq!(bench.free(), vec![(4, 8)]);
    assert_eq!(bench.by_size(), vec![(8, vec![4])]);
}

#[test]
fn allocate_stores_data_and_padding_bytes() {
    let mut bench = Bench::new(16);
    assert_eq!(bench.allocate(&[1, 2, 3], None), Ok(0));
    assert_eq!(bench.allocate(&[4, 5, 6, 7, 8], Some(3)), Ok(4));
    assert_eq!(bench.memory[..4], [1, 2, 3, 0]);
    assert_eq!(bench.memory[4..12], [4, 5, 6, 7, 8, 0, 0, 0]);
    assert_eq!(bench.memory[12..], [0xEE; 4]);
    let block: UsedBytes = bench.allocator.allocated_blocks[&4];
    assert_eq!((block.physical_size, block._virtual_size), (8, 5));
}

#[test]
fn padding_is_not_written() {
    let mut bench = Bench::new(16);
    assert_eq!(bench.allocator.allocate(&mut bench.queue, &[1, 2], Some(9)), Ok(0));
    assert_eq!(bench.queue, vec![BufferWrite { offset: 0, data: vec![1, 2, 0, 0] }]);
    assert_eq!(bench.allocated(), vec![(0, 12, 2)]);
}

#[test]
fn modify_changes_its_block_only() {
    let mut bench = fragmented();
    let memory = bench.memory.clone();
    assert_eq!(bench.modify(24, &[9, 9]), Ok(()));
    assert_eq!(bench.memory[24..32], [9, 9, 0, 0, 4, 0, 0, 0]);
    assert_eq!(bench.memory[..24], memory[..24]);
    assert_eq!(bench.memory[32..], memory[32..]);
}

#[test]
fn modify_may_use_the_padding() {
    let mut bench = fragmented();
    assert_eq!(bench.modify(24, &[9; 8]), Ok(()));
    assert_eq!(bench.memory[24..32], [9; 8]);
    assert_eq!(bench.modify(24, &[9; 9]), Err("Data size too big for buffer"));
    assert_eq!(bench.allocated(), vec![(8, 4, 3), (24, 8, 5)]);
}

#[test]
fn modify_needs_an_allocated_block() {
    let mut bench = fragmented();
    assert_eq!(bench.modify(12, &[9]), Err("Offset not allocated"));
    assert_eq!(bench.modify(25, &[9]), Err("Offset not allocated"));
}

#[test]
fn deallocate_wipes_its_block_only() {
    let mut bench = fragmented();
    assert_eq!(bench.deallocate(8), Ok(()));
    assert_eq!(bench.memory[..24], [0; 24]);
    assert_eq!(bench.memory[24..32], [4, 4, 4, 4, 4, 0, 0, 0]);
    assert_eq!(bench.memory[32..], [0xEE; 16]);
}

#[test]
fn relocations_close_the_gaps() {
    let bench = fragmented();
    let list = bench.allocator.get_relocation_list();
    assert_eq!(list, VecDeque::from(vec![(8, 0, 4), (24, 4, 8)]));
}

#[test]
fn a_block_at_its_target_is_not_listed() {
    let mut bench = Bench::new(16);
    for offset in [0, 4, 8] {
        assert_eq!(bench.allocate(&[1; 4], None), Ok(offset));
    }
    assert_eq!(bench.deallocate(4), Ok(()));
    assert_eq!(bench.allocator.get_relocation_list(), VecDeque::from(vec![(8, 4, 4)]));
}

#[test]
fn compacting_gathers_blocks_and_free_bytes() {
    let mut bench = fragmented();
    bench.compact();
    assert_eq!(bench.allocated(), vec![(0, 4, 3), (4, 8, 5)]);
    assert_eq!(bench.free(), vec![(12, 36)]);
    assert_eq!(bench.by_size(), vec![(36, vec![12])]);
    assert_eq!(bench.allocator.get_used_size(), 12);
    assert!(bench.allocator.get_relocation_list().is_empty());
}

#[test]
fn one_list_goes_through_all_three_steps() {
    let mut bench = Bench::new(1024);
    assert_eq!(bench.allocate(&[1; 100], None), Ok(0));
    assert_eq!(bench.allocate(&[2; 200], None), Ok(100));
    assert_eq!(bench.allocate(&[3; 300], None), Ok(300));
    assert_eq!(bench.deallocate(100), Ok(()));

    let mut list = bench.allocator.get_relocation_list();
    let mut copies: Vec<BufferCopy> = Vec::new();
    bench.allocator.submit_copies_to_encoder(&mut copies, &mut list);
    bench.allocator.update_allocator_schema_with_relocation_list(&list);

    assert_eq!(
        copies,
        vec![BufferCopy { source_offset: 300, destination_offset: 100, size: 300 }]
    );
    assert_eq!(bench.allocated(), vec![(0, 100, 100), (100, 300, 300)]);
    assert_eq!(bench.free(), vec![(400, 624)]);
    assert_eq!(bench.by_size(), vec![(624, vec![400])]);
    for address in 0..1024 {
        assert_eq!(bench.owners(address), 1);
    }
    assert!(bench.allocator.get_relocation_list().is_empty());
}

#[test]
fn compacting_keeps_the_data() {
    let mut bench = fragmented();
    bench.compact();
    assert_eq!(bench.memory[..12], [2, 2, 2, 0, 4, 4, 4, 4, 4, 0, 0, 0]);
}

#[test]
fn compacting_keeps_data_that_overlap_their_target() {
    let mut bench = Bench::new(20);
    assert_eq!(bench.allocate(&[1; 4], None), Ok(0));
    let data: Vec<u8> = (10..26).collect();
    assert_eq!(bench.allocate(&data, None), Ok(4));
    assert_eq!(bench.deallocate(0), Ok(()));
    bench.compact();
    assert_eq!(bench.memory[..16], data[..]);
    assert_eq!(bench.free(), vec![(16, 4)]);
}

#[test]
fn compacting_serves_what_is_free() {
    let mut bench = fragmented();
    assert_eq!(bench.allocate(&[5; 36], None), Err("No suitable block found"));
    bench.compact();
    assert_eq!(bench.allocate(&[5; 37], None), Err("No suitable block found"));
    assert_eq!(bench.allocate(&[5; 36], None), Ok(12));
}

#[test]
fn compacting_a_full_buffer_leaves_no_free_block() {
    let mut bench = Bench::new(8);
    assert_eq!(bench.allocate(&[1; 8], None), Ok(0));
    assert!(bench.compact().is_empty());
    assert!(bench.free().is_empty());
    assert!(bench.by_size().is_empty());
    assert_eq!(bench.allocated(), vec![(0, 8, 8)]);
}

#[test]
fn copies_leave_out_moves_without_effect() {
    let mut allocator = SSBOAllocator::new(64);
    let moves: RelocationList =
        VecDeque::from(vec![(8, 8, 4), (16, 0, 0), (24, 4, 8), (32, 12, 4)]);
    let mut list = moves.clone();
    let earlier = BufferCopy { source_offset: 60, destination_offset: 56, size: 4 };
    let mut copies = vec![earlier];
    allocator.submit_copies_to_encoder(&mut copies, &mut list);
    assert_eq!(list, moves);
    assert_eq!(
        copies,
        vec![
            earlier,
            BufferCopy { source_offset: 24, destination_offset: 4, size: 8 },
            BufferCopy { source_offset: 32, destination_offset: 12, size: 4 },
        ]
    );
}

#[test]
fn an_empty_list_moves_no_block() {
    let mut bench = fragmented();
    bench.allocator.update_allocator_schema_with_relocation_list(&VecDeque::new());
    assert_eq!(bench.allocated(), vec![(8, 4, 3), (24, 8, 5)]);
    assert_eq!(bench.free(), vec![(12, 36)]);
    assert_eq!(bench.allocator.get_used_size(), 12);
}

#[test]
fn of_several_moves_of_one_block_the_last_counts() {
    let mut bench = Bench::new(32);
    assert_eq!(bench.allocate(&[1; 4], None), Ok(0));
    let list: RelocationList = VecDeque::from(vec![(0, 8, 4), (0, 16, 4)]);
    bench.allocator.update_allocator_schema_with_relocation_list(&list);
    assert_eq!(bench.allocated(), vec![(16, 4, 4)]);
    assert_eq!(bench.free(), vec![(4, 28)]);
}

#[test]
fn moves_are_made_by_increasing_offset() {
    let mut bench = Bench::new(32);
    assert_eq!(bench.allocate(&[1; 4], None), Ok(0));
    assert_eq!(bench.allocate(&[2; 8], None), Ok(4));
    let list: RelocationList = VecDeque::from(vec![(4, 16, 8), (0, 4, 4)]);
    bench.allocator.update_allocator_schema_with_relocation_list(&list);
    assert_eq!(bench.allocated(), vec![(16, 4, 4)]);
    assert_eq!(bench.free(), vec![(4, 28)]);
}

#[test]
fn an_empty_request_shares_its_offset_with_a_free_block() {
    let mut bench = Bench::new(8);
    assert_eq!(bench.allocator.allocate(&mut bench.queue, &[], None), Ok(0));
    assert_eq!(bench.queue, vec![BufferWrite { offset: 0, data: vec![] }]);
    assert_eq!(bench.allocated(), vec![(0, 0, 0)]);
    assert_eq!(bench.free(), vec![(0, 8)]);
    assert_eq!(bench.by_size(), vec![(8, vec![0])]);
    assert_eq!(bench.allocator.get_used_size(), 0);
}

#[test]
fn an_empty_buffer_serves_one_empty_request() {
    let mut bench = Bench::new(0);
    assert_eq!(bench.allocate(&[1], None), Err("No suitable block found"));
    assert_eq!(bench.allocate(&[], None), Ok(0));
    assert_eq!(bench.allocate(&[], None), Err("No suitable block found"));
    assert_eq!(bench.deallocate(0), Ok(()));
    assert_eq!(bench.free(), vec![(0, 0)]);
}

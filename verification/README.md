# wgpu_buffer_allocator

A memory allocator for managing parts of one large GPU buffer in wgpu applications, verified with
Verus.

- `src/` is the allocator: best-fit allocation, coalescing on release, compaction in three steps.
  It works on offsets and sizes alone and queues the transfers that it wants made. `layout.rs` is
  the model that its contracts speak of, and `laws.rs` states what holds of the library as a whole.
- `app/` holds the buffer, and carries the queued transfers out on the device.
- `tests/` run the library against a buffer in main memory.

A request of no bytes is served, but its block shares its offset with a free block. The bookkeeping
is then no longer a division of the buffer into blocks, and what is said of well-formed layouts does
not apply to it.

Compacting takes one relocation list through three steps: `get_relocation_list` makes it,
`submit_copies_to_encoder` queues its copies and leaves it as it is, and
`update_allocator_schema_with_relocation_list` takes its moves over into the bookkeeping.

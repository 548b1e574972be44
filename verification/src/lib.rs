//! A memory allocator for parts of one large GPU storage buffer.
//!
//! [`allocator::SSBOAllocator`] hands out blocks of the buffer, best fit first, merges blocks that
//! become free with their free neighbors, and compacts the buffer in three steps. It keeps the
//! books and decides which bytes go where; the transfers that this takes are queued as
//! [`memory::BufferWrite`] and [`memory::BufferCopy`], for whoever holds the buffer to carry out.
//!
//! [`layout::Layout`] is the model that the contracts speak of. [`effects`] states what each
//! operation does, and [`laws`] what holds of the library as a whole.
pub mod alignment;
pub mod allocator;
pub mod compaction;
pub mod effects;
pub mod laws;
pub mod layout;
pub mod memory;
pub mod ordered;
pub mod preservation;
pub mod size_index;
pub mod sums;

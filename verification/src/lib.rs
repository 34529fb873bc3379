//! Fixed-capacity allocators whose bookkeeping lives inside the managed
//! cell array: a linked-list (variable-size) allocator with first-fit
//! allocation and address-ordered coalescing release, and a slab
//! (fixed-slot) allocator with an address-ordered free chain.

pub mod linked_list;
pub mod runs;
pub mod slab;

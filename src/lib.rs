//! Core of a small x86_64 kernel: frame and heap allocators, page tables,
//! interrupt descriptor encoding and a cooperative round-robin process
//! executor.

pub mod frame_bitmap;
pub mod idt;
pub mod executor;
pub mod bump;
pub mod free_list;
pub mod buddy;
pub mod slab;
pub mod paging;
pub mod table_release;

//! Verified building blocks of a small kernel: an FNV-1a hasher, a chained hash map, an
//! early bump allocator, and the decision logic of the system call handler and of `mmap`.

pub mod fnv;
pub mod hash_map;
pub mod bump;
pub mod errno;
pub mod mmap;
pub mod syscall;

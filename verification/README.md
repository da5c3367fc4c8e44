# arceos_core

Verified pieces of a small kernel, written in Verus.

- `src/fnv.rs`: the FNV-1a hasher and the hash of `u64` keys.
- `src/hash_map.rs`: a hash map with separate chaining keyed by `u64`; its contracts are
  stated over a `Map<u64, V>` view, and iteration over the pairs is specified in order.
- `src/bump.rs`: the early allocator that hands out bytes from the front and pages from
  the back of one range, with its state as the view.
- `src/errno.rs`, `src/syscall.rs`, `src/mmap.rs`: error numbers (from `axerrno`), the
  dispatch of system call numbers, and the decisions of `mmap`.
- `app/`: the kernel glue that Verus does not see: the `allocator` traits, the trap
  handler, the memory mapping and file reads of `mmap`, and the greeting program.
- `tests/`: concrete scenarios for each module.

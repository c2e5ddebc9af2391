# oram

Building blocks of Oblivious RAM, written in Verus with their contracts proved:

- `linear_time_oram`: an ORAM that touches every block of its memory on each access,
  with single and batched reads and writes. Its laws (a read returns the last value
  written; a batch read returns what a batch write wrote; writing back what was read
  changes nothing) are proof functions of the module.
- `stash`: the stash of a (batched) Path ORAM. It reads a path, or the union of several
  paths, into a scratch prefix; serves single and batched accesses by scanning every
  block; and evicts its blocks back into the tree, each real block going as deep as its
  own path and the buckets' capacity allow.
- `evict`, `union`, `batch`, `sort`, `tree`, `block`: the pieces the stash is made of:
  bucket assignment, write-back order of a union of paths, batched lookups and updates,
  an oblivious sort by keys, and complete-binary-tree indices.
- `experiment`: helpers of the stash experiments (sorting bytes, the stash size that a
  security parameter calls for, random indices).

Comparisons and selections on secret data go through the `subtle` crate, and random
numbers come from `rand`'s `OsRng`; both are reached through small trusted wrappers whose
contracts say what those crates document. A failure of the operating system's random
source is reported as `None`, never as a panic.

`app/main.rs` is a small command-line driver: a round trip through the linear-time ORAM,
an eviction into one path of a small Path ORAM tree (logging a warning when the stash has
to grow), drawing distinct random indices, and removing old experiment results.

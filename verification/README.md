# simd_quickheap

A min-priority queue (`ConfigurableSimdQuickHeap`) organised as a quickheap: elements
live in layers separated by pivots that decrease from the first layer to the last, new
elements go to the layer their key belongs to, and a pop splits the last layer around a
pivot until it is short enough to search directly.

The SIMD backends `Avx2`, `Avx512<CS>` and `Neon` implement `SimdElem<T>` for `i32`,
`u32`, `i64` and `u64`. A vector is held as the array of its lanes; lane comparisons are
done by the `wide` crate and read back as bitmasks, and the partition of a vector against
a threshold writes the lanes on each side in lane order.

Layout of `src/`:

- `key.rs`: the `Key` trait that orders element types.
- `mask.rs`: bitmasks of lane flags, the lanes a mask selects, and their lemmas.
- `wide_masks.rs`: the calls into `wide`, one per vector type.
- `simd.rs`: the backends, `push_position` and `position_min`.
- `heap.rs`: the quickheap, its invariant and the laws of its pops.

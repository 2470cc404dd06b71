# lumen

Bookkeeping for device memory: caching allocators over CUDA-like and Metal-like
devices, their size policies, process settings, and the device names that the
Python module understands. The library is written in Verus; every function in
`src/` is proved against its contract.

Device allocation is expensive, so freed blocks are kept and handed out again.
The library decides which block serves a request, when the device is asked for a
segment, how blocks are split and merged, and what goes back to the device. It
works on addresses as numbers; `app/` owns the memory behind them.

## Layout

| Path | What it holds |
| --- | --- |
| `src/allocator/space.rs` | the mathematical model: chunks in address order, the operations on them, and their laws |
| `src/allocator/ledger.rs` | what follows from the chunks: sums behind the statistics, entries of the pools |
| `src/allocator/backing.rs` | how chunks relate to the memory that a device has handed out |
| `src/allocator/pool.rs` | the pools of free blocks, ordered by size and address |
| `src/allocator/blocks.rs` | finding a block by its address |
| `src/allocator/traits.rs` | what a size policy decides, and rounding up |
| `src/allocator/cache_stats.rs` | the statistics |
| `src/allocator/registry.rs` | one allocator per device |
| `src/allocator/caching/` | the caching allocator over a backend and a size policy |
| `src/allocator/cuda/` | CUDA size rules, and the allocator of one CUDA device |
| `src/allocator/mps.rs` | Metal size rules |
| `src/allocator/cpu.rs` | host memory |
| `src/allocator/mod.rs` | layouts, errors, owning pointers, the backend contract |
| `src/config.rs`, `src/device.rs` | settings and devices |
| `src/python.rs` | device names, as Python spells them |
| `src/toolkit.rs` | where the CUDA runtime library is looked for |
| `app/` | pointers, foreign calls, shared handles, the Python module |

## What is promised

* Blocks tile their segments; live blocks never overlap and never leave memory
  that the device has handed out.
* A request is served by the smallest free block that fits, and of those by the
  lowest. The device is asked only if none fits, and once more after all idle
  segments went back to it.
* Releasing a block just handed out from the cache puts the blocks back as they
  were. Wherever a released block came from, the same request gets it again, and
  the device is not asked.
* A segment of which nothing is in use is one free block, and only such segments
  go back to the device.
* The statistics are sums over the blocks at any time, and the peaks are the
  largest values there were.
* With caching off, a request goes to the device in its exact size and back to it
  on release; pointers of either mode can be released at any time.

//! The blocks, pools and counters of a cache.
use vstd::prelude::*;

use super::super::blocks::{self, Placed};
use super::super::cache_stats::CacheStats;
use super::super::ledger::{self, Measure};
use super::super::pool::Pools;
use super::super::space::{self, Chunk};
use super::super::traits::{CachePolicy, K_SMALL_SIZE};
use super::super::AllocError;
use crate::device::Device;

verus! {

/// One contiguous slice of device memory tracked by the allocator.
#[derive(Debug, Clone, Copy)]
pub struct Block {
    /// Start address.
    pub ptr: usize,
    /// Length in bytes.
    pub size: usize,
    /// True while handed out to a user.
    pub allocated: bool,
    /// Base address of the segment this block was carved from.
    pub segment_base: usize,
    /// Length of that segment.
    pub segment_size: usize,
    /// Which pool this block belongs to. Membership is a property of the
    /// segment the block was carved from, not of its current size: a small
    /// block that merges back into a whole segment stays in the small pool.
    pub pool_small: bool,
}

impl Placed for Block {
    open spec fn chunk(&self) -> Chunk {
        Chunk {
            ptr: self.ptr as int,
            size: self.size as int,
            free: !self.allocated,
            base: self.segment_base as int,
            seg: self.segment_size as int,
            small: self.pool_small,
        }
    }

    fn start(&self) -> usize {
        self.ptr
    }
}

/// The blocks, pools and counters of a cache.
pub struct State {
    /// All blocks, in address order (enables neighbour lookups).
    blocks: Vec<Block>,
    /// The free blocks.
    pools: Pools,
    stats: CacheStats,
}

impl State {
    /// The blocks, in address order.
    pub closed spec fn chunks(&self) -> Seq<Chunk> {
        blocks::chunks_of(self.blocks@)
    }

    /// The entries of a pool.
    pub closed spec fn pool(&self, small: bool) -> Set<(usize, usize)> {
        self.pools.entries(small)
    }

    /// The counters.
    pub closed spec fn stats(&self) -> CacheStats {
        self.stats
    }

    /// The pools are in order.
    pub closed spec fn pools_ordered(&self) -> bool {
        self.pools.wf()
    }

    /// The blocks cover their segments, no two free neighbours of a segment are
    /// left apart, the pools list exactly the free blocks, and the counters tell
    /// what the blocks show.
    pub open spec fn wf(&self) -> bool {
        &&& space::tiled(self.chunks())
        &&& space::settled(self.chunks())
        &&& self.pools_ordered()
        &&& self.pool(true) == ledger::keys(self.chunks(), true)
        &&& self.pool(false) == ledger::keys(self.chunks(), false)
        &&& ledger::balanced(self.chunks(), self.stats())
        &&& self.stats().num_alloc == self.stats().num_free + ledger::sum(
            self.chunks(),
            Measure::InUse,
        )
    }

    /// An empty cache.
    pub fn new() -> (s: State)
        ensures
            s.wf(),
            s.chunks() == Seq::<Chunk>::empty(),
            s.stats() == CacheStats::zero(),
    {
        let s = State {
            blocks: Vec::new(),
            pools: Pools::new(),
            stats: CacheStats::default(),
        };
        proof {
            assert(s.chunks() =~= Seq::<Chunk>::empty());
            assert(ledger::keys(s.chunks(), true) =~= Set::<(usize, usize)>::empty());
            assert(ledger::keys(s.chunks(), false) =~= Set::<(usize, usize)>::empty());
            assert forall|i: int| !#[trigger] space::mergeable(s.chunks(), i) by {}
        }
        s
    }

    /// The counters.
    pub fn get_stats(&self) -> (s: CacheStats)
        ensures
            s == self.stats(),
    {
        self.stats
    }

    /// The size of the block at an address.
    pub fn block_size(&self, ptr: usize) -> (n: usize)
        requires
            self.wf(),
            space::starts_at(self.chunks(), ptr as int),
        ensures
            n == self.chunks()[space::rank(self.chunks(), ptr as int)].size,
    {
        let i: usize = blocks::position(&self.blocks, ptr);
        assert(self.chunks()[i as int] == self.blocks@[i as int].chunk());
        self.blocks[i].size
    }

    /// Hands out the free block at `ptr` for a `size`-byte request, splitting
    /// off the rest if it is worth keeping. Returns the address of the block.
    pub fn take_block<P: CachePolicy>(&mut self, policy: &P, ptr: usize, size: usize) -> (r: usize)
        requires
            old(self).wf(),
            policy.valid(),
            space::starts_at(old(self).chunks(), ptr as int),
            old(self).chunks()[space::rank(old(self).chunks(), ptr as int)].free,
            0 < size <= old(self).chunks()[space::rank(old(self).chunks(), ptr as int)].size,
            old(self).stats().num_alloc < usize::MAX,
        ensures
            final(self).wf(),
            final(self).stats().peaks_follow(old(self).stats()),
            r == ptr,
            ({
                let s = old(self).chunks();
                let i = space::rank(s, ptr as int);
                let rest = s[i].size - size;
                let split = policy.spec_should_split(s[i].small, rest as usize);
                &&& final(self).chunks() == space::taken(s, i, size as int, split)
                &&& final(self).stats() == old(self).stats().handed_out(
                    if split {
                        size as int
                    } else {
                        s[i].size
                    },
                ).requested()
            }),
    {
        let ghost s = self.chunks();
        let i: usize = blocks::position(&self.blocks, ptr);
        proof {
            space::lemma_rank(s, ptr as int);
            assert(s[i as int] == self.blocks@[i as int].chunk());
            assert(s[i as int].ok());
            space::lemma_used(s, i as int);
            ledger::lemma_used_ledger(s, i as int, true);
            ledger::lemma_used_ledger(s, i as int, false);
        }
        let block: Block = self.blocks[i];
        let small: bool = block.pool_small;
        self.pools.remove(small, (block.size, ptr));

        let remaining: usize = block.size - size;
        let ghost u = space::used(s, i as int);
        assert(i < self.blocks.len());
        if policy.should_split(small, remaining) {
            self.blocks[i] = Block { size, allocated: true, ..block };
            let rest: Block = Block {
                ptr: ptr + size,
                size: remaining,
                allocated: false,
                ..block
            };
            self.blocks.insert(i + 1, rest);
            self.pools.insert(small, (remaining, ptr + size));
            proof {
                let t = space::cut(u, i as int, size as int);
                assert(self.chunks() =~= t);
                assert(t[i + 1] == rest.chunk());
                space::lemma_taken(s, i as int, size as int, true);
                ledger::lemma_cut_ledger(u, i as int, size as int, true);
                ledger::lemma_cut_ledger(u, i as int, size as int, false);
                ledger::lemma_sums(t);
            }
            self.stats.hand_out(size);
        } else {
            self.blocks[i] = Block { allocated: true, ..block };
            proof {
                assert(self.chunks() =~= u);
                ledger::lemma_sums(u);
            }
            // The whole block counts: it is bigger than the request.
            self.stats.hand_out(block.size);
        }
        self.stats.request();
        ptr
    }

    /// Finds the smallest free block that fits and hands it out. Returns the
    /// address of the block.
    pub fn try_alloc<P: CachePolicy>(&mut self, policy: &P, size: usize) -> (r: Option<usize>)
        requires
            old(self).wf(),
            policy.valid(),
            0 < size,
            old(self).stats().num_alloc < usize::MAX,
        ensures
            final(self).wf(),
            final(self).stats().peaks_follow(old(self).stats()),
            match r {
                Some(ptr) => {
                    let s = old(self).chunks();
                    let i = space::rank(s, ptr as int);
                    let small = size <= K_SMALL_SIZE;
                    let split = policy.spec_should_split(small, (s[i].size - size) as usize);
                    &&& space::best_fit(s, small, size as int, i)
                    &&& s[i].ptr == ptr
                    &&& final(self).chunks() == space::taken(s, i, size as int, split)
                    &&& final(self).stats() == old(self).stats().handed_out(
                        if split {
                            size as int
                        } else {
                            s[i].size
                        },
                    ).requested()
                },
                None => {
                    &&& !space::has_fit(old(self).chunks(), size <= K_SMALL_SIZE, size as int)
                    &&& final(self).chunks() == old(self).chunks()
                    &&& final(self).stats() == old(self).stats()
                },
            },
    {
        let ghost s = self.chunks();
        let small: bool = size <= K_SMALL_SIZE;
        // The first entry of at least `size` bytes is the best fit.
        match self.pools.best_fit(small, size) {
            Some(k) => {
                let ghost j = choose|j: int|
                    0 <= j < s.len() && (#[trigger] s[j]).pooled(small) && s[j].key() == k;
                proof {
                    assert(self.pool(small).contains(k));
                    assert(ledger::listed(s, small, k));
                    ledger::lemma_pool_best_fit(s, small, size as int, k, j);
                }
                let r: usize = self.take_block(policy, k.1, size);
                Some(r)
            },
            None => {
                proof {
                    if space::has_fit(s, small, size as int) {
                        let j = choose|j: int|
                            0 <= j < s.len() && (#[trigger] s[j]).pooled(small) && s[j].size
                                >= size;
                        assert(s[j].ok());
                        assert(ledger::keys(s, small).contains(s[j].key()));
                    }
                }
                None
            },
        }
    }

    /// Takes in a segment that the device gave, or not, and carves the request
    /// out of it. Returns the address of the block.
    pub fn alloc_new_segment<P: CachePolicy>(
        &mut self,
        policy: &P,
        device: Device,
        raw: Option<usize>,
        size: usize,
        seg_size: usize,
    ) -> (r: Result<usize, AllocError>)
        requires
            old(self).wf(),
            policy.valid(),
            0 < size <= seg_size,
            raw matches Some(base) ==> 0 < base && base + seg_size <= usize::MAX
                && space::clear_of(old(self).chunks(), base as int, seg_size as int),
            old(self).stats().num_alloc < usize::MAX,
            old(self).stats().num_device_alloc < usize::MAX,
        ensures
            final(self).wf(),
            final(self).stats().peaks_follow(old(self).stats()),
            match raw {
                Some(base) => {
                    let small = size <= K_SMALL_SIZE;
                    let s = space::grown(
                        old(self).chunks(),
                        space::segment(base as int, seg_size as int, small, true),
                    );
                    let i = space::rank(old(self).chunks(), base as int);
                    let split = policy.spec_should_split(small, (seg_size - size) as usize);
                    &&& r == Ok::<usize, AllocError>(base)
                    &&& final(self).chunks() == space::taken(s, i, size as int, split)
                    &&& final(self).stats() == old(self).stats().reserved(
                        seg_size as int,
                    ).handed_out(
                        if split {
                            size as int
                        } else {
                            seg_size as int
                        },
                    ).requested()
                },
                None => {
                    &&& r == Err::<usize, AllocError>(
                        AllocError::Device { bytes: seg_size, device },
                    )
                    &&& final(self).chunks() == old(self).chunks()
                    &&& final(self).stats() == old(self).stats()
                },
            },
    {
        let base: usize = match raw {
            Some(base) => base,
            None => return Err(AllocError::Device { bytes: seg_size, device }),
        };
        let small: bool = size <= K_SMALL_SIZE;
        let ghost s = self.chunks();
        let ghost c = space::segment(base as int, seg_size as int, small, true);
        let ghost t = space::grown(s, c);
        proof {
            space::lemma_grown(s, c);
            ledger::lemma_grown_ledger(s, c, true);
            ledger::lemma_grown_ledger(s, c, false);
            ledger::lemma_room(s, c);
        }
        self.stats.reserve(seg_size);
        // The segment starts out as one free block the request is cut from.
        let i: usize = blocks::position(&self.blocks, base);
        self.blocks.insert(
            i,
            Block {
                ptr: base,
                size: seg_size,
                allocated: false,
                segment_base: base,
                segment_size: seg_size,
                pool_small: small,
            },
        );
        self.pools.insert(small, (seg_size, base));
        proof {
            assert(self.chunks() =~= t);
            space::lemma_rank_at(t, i as int);
        }
        Ok(self.take_block(policy, base, size))
    }

    /// The free block at `i` is listed in no pool yet, and it alone may be left
    /// to merge.
    spec fn loose(&self, i: int) -> bool {
        let s = self.chunks();
        &&& space::tiled(s)
        &&& 0 <= i < s.len()
        &&& s[i].free
        &&& forall|k: int| k != i && k != i - 1 ==> !#[trigger] space::mergeable(s, k)
        &&& self.pools_ordered()
        &&& self.pool(true) == ledger::without_key(ledger::keys(s, true), s[i], true)
        &&& self.pool(false) == ledger::without_key(ledger::keys(s, false), s[i], false)
    }

    /// Joins the blocks at `i` and `i + 1`, of which the one at `listed` leaves
    /// its pool.
    fn join_blocks(&mut self, i: usize, listed: usize)
        requires
            space::tiled(old(self).chunks()),
            space::mergeable(old(self).chunks(), i as int),
            listed == i || listed == i + 1,
            old(self).pools_ordered(),
            forall|small: bool| #[trigger]
                old(self).pool(small) == ledger::without_key(
                    ledger::keys(old(self).chunks(), small),
                    old(self).chunks()[if listed == i {
                        i + 1
                    } else {
                        i as int
                    }],
                    small,
                ),
        ensures
            final(self).chunks() == space::joined(old(self).chunks(), i as int),
            final(self).pools_ordered(),
            forall|small: bool| #[trigger]
                final(self).pool(small) == ledger::without_key(
                    ledger::keys(final(self).chunks(), small),
                    final(self).chunks()[i as int],
                    small,
                ),
            final(self).stats() == old(self).stats(),
    {
        let ghost s = self.chunks();
        assert(i + 1 < self.blocks.len());
        let a: Block = self.blocks[i];
        let b: Block = self.blocks[i + 1];
        proof {
            assert(s[i as int] == a.chunk() && s[i + 1] == b.chunk());
            assert(s[i as int].ok() && s[i + 1].ok());
            assert(space::link_at(s, i as int));
            ledger::lemma_joined_ledger(s, i as int, true);
            ledger::lemma_joined_ledger(s, i as int, false);
        }
        if listed == i {
            self.pools.remove(a.pool_small, (a.size, a.ptr));
        } else {
            self.pools.remove(b.pool_small, (b.size, b.ptr));
        }
        self.blocks[i] = Block { size: a.size + b.size, ..a };
        self.blocks.remove(i + 1);
        proof {
            let t = space::joined(s, i as int);
            assert(self.chunks() =~= t);
            assert forall|small: bool| #[trigger]
                self.pool(small) == ledger::without_key(
                    ledger::keys(t, small),
                    t[i as int],
                    small,
                ) by {
                let k = ledger::keys(s, small);
                let x = s[i as int];
                let y = s[i + 1];
                assert(ledger::without_key(ledger::without_key(k, y, small), x, small)
                    =~= ledger::without_key(ledger::without_key(k, x, small), y, small));
                assert(old(self).pool(small) == old(self).pool(small));
                assert(old(self).pool(!small) == old(self).pool(!small));
                ledger::lemma_joined_ledger(s, i as int, small);
            }
        }
    }

    /// Merges the free block at `ptr` with adjacent free blocks of its segment.
    /// Returns the (possibly earlier) address of the merged block.
    fn coalesce_block(&mut self, ptr: usize) -> (start: usize)
        requires
            space::starts_at(old(self).chunks(), ptr as int),
            old(self).loose(space::rank(old(self).chunks(), ptr as int)),
        ensures
            ({
                let s = old(self).chunks();
                let i = space::rank(s, ptr as int);
                &&& final(self).chunks() == space::merged(s, i)
                &&& final(self).loose(space::merged_at(s, i))
                &&& start == final(self).chunks()[space::merged_at(s, i)].ptr
            }),
            final(self).stats() == old(self).stats(),
    {
        let ghost s = self.chunks();
        let i: usize = blocks::position(&self.blocks, ptr);
        let mut k: usize = i;
        proof {
            space::lemma_merged(s, i as int);
            assert(s[i as int] == self.blocks@[i as int].chunk());
        }
        let segment: usize = self.blocks[i].segment_base;
        // Predecessor: the block ending at our start.
        if i > 0 {
            let prev: Block = self.blocks[i - 1];
            assert(s[i - 1] == prev.chunk());
            if !prev.allocated && prev.segment_base == segment {
                assert(space::mergeable(s, i - 1));
                self.join_blocks(i - 1, i - 1);
                k = i - 1;
            }
        }
        let ghost a = self.chunks();
        assert(a == space::joined_prev(s, i as int));
        assert(k == space::merged_at(s, i as int));
        // Successor: the block starting at our end.
        assert(k < self.blocks.len());
        if k + 1 < self.blocks.len() {
            let next: Block = self.blocks[k + 1];
            assert(a[k + 1] == next.chunk());
            assert(a[k as int] == self.blocks@[k as int].chunk());
            if !next.allocated && next.segment_base == segment {
                assert(space::mergeable(a, k as int));
                self.join_blocks(k, k + 1);
            }
        }
        let start: usize = self.blocks[k].ptr;
        proof {
            assert(self.chunks() == space::merged(s, i as int));
            assert(self.chunks()[k as int] == self.blocks@[k as int].chunk());
        }
        start
    }

    /// Returns the block at `ptr` to its pool, merged with its free neighbours.
    pub fn free_block(&mut self, ptr: usize, size: usize)
        requires
            old(self).wf(),
            space::in_use(old(self).chunks(), ptr as int, size as int),
        ensures
            final(self).wf(),
            final(self).stats().peaks_follow(old(self).stats()),
            final(self).chunks() == space::freed(
                old(self).chunks(),
                space::rank(old(self).chunks(), ptr as int),
            ),
            final(self).stats() == old(self).stats().returned(size as int),
    {
        let ghost s = self.chunks();
        let i: usize = blocks::position(&self.blocks, ptr);
        let ghost m = space::marked(s, i as int);
        proof {
            space::lemma_in_use(s, ptr as int, size as int);
            assert(s[i as int] == self.blocks@[i as int].chunk());
            space::lemma_marked(s, i as int);
            ledger::lemma_marked_ledger(s, i as int, true);
            ledger::lemma_marked_ledger(s, i as int, false);
            ledger::lemma_part(s, i as int);
        }
        let block: Block = self.blocks[i];
        self.blocks[i] = Block { allocated: false, ..block };
        self.stats.give_back(size);
        proof {
            assert(self.chunks() =~= m);
            space::lemma_rank_at(m, i as int);
            space::lemma_merged(m, i as int);
        }
        let start: usize = self.coalesce_block(ptr);
        let ghost f = self.chunks();
        let ghost k = space::merged_at(m, i as int);
        proof {
            space::lemma_rank_at(f, k);
            ledger::lemma_merged_sums(m, i as int);
        }
        let at: usize = blocks::position(&self.blocks, start);
        let merged: Block = self.blocks[at];
        assert(f[k] == merged.chunk());
        assert(f[k].ok());
        self.pools.insert(merged.pool_small, (merged.size, merged.ptr));
        proof {
            assert(self.chunks() == f);
            lemma_relisted(f, k, true);
            lemma_relisted(f, k, false);
        }
    }

    /// Drops the idle segment at `i`. Returns its address.
    fn drop_segment(&mut self, i: usize) -> (base: usize)
        requires
            old(self).wf(),
            i < old(self).chunks().len(),
            old(self).chunks()[i as int].idle(),
        ensures
            final(self).wf(),
            final(self).chunks() == old(self).chunks().remove(i as int),
            final(self).stats() == old(self).stats().released(old(self).chunks()[i as int].size, 1),
            base == old(self).chunks()[i as int].base,
            old(self).chunks()[i as int].size <= old(self).stats().reserved_bytes,
            old(self).stats().num_device_free < usize::MAX,
    {
        let ghost s = self.chunks();
        let block: Block = self.blocks[i];
        proof {
            assert(s[i as int] == block.chunk());
            assert(s[i as int].ok());
            space::lemma_dropped(s, i as int);
            ledger::lemma_dropped_ledger(s, i as int, true);
            ledger::lemma_dropped_ledger(s, i as int, false);
            ledger::lemma_part(s, i as int);
        }
        self.blocks.remove(i);
        self.pools.remove(block.pool_small, (block.size, block.ptr));
        self.stats.unreserve(block.size);
        proof {
            assert(self.chunks() =~= s.remove(i as int));
        }
        block.segment_base
    }

    /// Drops every wholly free segment. Free neighbours always merge, so a
    /// segment is wholly free exactly when one free block spans it. Returns the
    /// addresses of the segments, for the device to take back.
    pub fn release_free_segments(&mut self) -> (released: Vec<usize>)
        requires
            old(self).wf(),
        ensures
            final(self).wf(),
            final(self).stats().peaks_follow(old(self).stats()),
            final(self).chunks() == space::kept(old(self).chunks()),
            released@ == space::bases(space::idle_segments(old(self).chunks())),
            final(self).stats() == old(self).stats().released(
                ledger::sum(space::idle_segments(old(self).chunks()), Measure::Bytes),
                space::idle_segments(old(self).chunks()).len() as int,
            ),
            ledger::sum(space::idle_segments(old(self).chunks()), Measure::Bytes)
                <= old(self).stats().reserved_bytes,
            old(self).stats().num_device_free + space::idle_segments(old(self).chunks()).len()
                <= usize::MAX,
    {
        let ghost s = self.chunks();
        let ghost st = self.stats();
        let mut released: Vec<usize> = Vec::new();
        let mut i: usize = 0;
        let ghost mut n: int = 0;
        proof {
            assert(s.take(0) =~= Seq::<Chunk>::empty());
            assert(space::kept(s.take(0)) + s.skip(0) =~= s);
            assert(space::bases(space::idle_segments(s.take(0))) =~= Seq::<usize>::empty());
            assert(self.stats() == st.released(0, 0));
        }
        while i < self.blocks.len()
            invariant
                self.wf(),
                0 <= n <= s.len(),
                self.chunks() == space::kept(s.take(n)) + s.skip(n),
                i == space::kept(s.take(n)).len(),
                released@ == space::bases(space::idle_segments(s.take(n))),
                self.stats() == st.released(
                    ledger::sum(space::idle_segments(s.take(n)), Measure::Bytes),
                    space::idle_segments(s.take(n)).len() as int,
                ),
                0 <= ledger::sum(space::idle_segments(s.take(n)), Measure::Bytes)
                    <= st.reserved_bytes,
                st.num_device_free + space::idle_segments(s.take(n)).len() <= usize::MAX,
            decreases s.len() - n,
        {
            let ghost d = space::idle_segments(s.take(n));
            let ghost c = self.chunks();
            let block: Block = self.blocks[i];
            proof {
                assert(self.blocks@.len() == c.len());
                assert(c[i as int] == s[n]);
                assert(c[i as int] == block.chunk());
                assert(s[n].ok());
                space::lemma_kept_step(s, n);
            }
            if !block.allocated && block.size == block.segment_size {
                let base: usize = self.drop_segment(i);
                released.push(base);
                proof {
                    assert(self.chunks() =~= space::kept(s.take(n + 1)) + s.skip(n + 1));
                    assert(d.push(s[n]).drop_last() =~= d);
                    assert(space::bases(d.push(s[n])) =~= space::bases(d).push(base));
                }
            } else {
                assert(self.chunks() =~= space::kept(s.take(n + 1)) + s.skip(n + 1));
                i = i + 1;
            }
            proof {
                n = n + 1;
            }
        }
        proof {
            assert(self.chunks().len() == self.blocks@.len());
            assert(n == s.len());
            assert(s.take(n) =~= s);
            assert(self.chunks() =~= space::kept(s));
        }
        released
    }
}

/// Listing a free chunk completes the pools.
proof fn lemma_relisted(s: Seq<Chunk>, i: int, small: bool)
    requires
        0 <= i < s.len(),
    ensures
        ledger::with_key(
            ledger::without_key(ledger::keys(s, small), s[i], small),
            s[i],
            small,
        ) == ledger::keys(s, small),
{
    if s[i].pooled(small) {
        assert(ledger::listed(s, small, s[i].key()));
    }
    assert(ledger::with_key(
        ledger::without_key(ledger::keys(s, small), s[i], small),
        s[i],
        small,
    ) =~= ledger::keys(s, small));
}

} // verus!

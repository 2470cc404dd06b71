//! The blocks, pools and counters of the CUDA caching allocator.
use vstd::prelude::*;

use super::super::blocks::{self, Placed};
use super::super::cache_stats;
use super::super::ledger::{self, Measure};
use super::super::pool::Pools;
use super::super::space::{self, Chunk};
use super::should_split;

verus! {

/// Allocation statistics.
#[derive(Debug, Clone, Copy, PartialEq, Eq, Structural)]
pub struct CacheStats {
    /// Bytes currently handed out to users (block sizes, not requests).
    pub allocated_bytes: usize,
    /// Peak of `allocated_bytes`.
    pub allocated_bytes_peak: usize,
    /// Bytes currently held from the device.
    pub reserved_bytes: usize,
    /// Peak of `reserved_bytes`.
    pub reserved_bytes_peak: usize,
    /// Calls to `allocate` for at least one byte, with caching on.
    pub num_alloc: u64,
    /// Blocks returned to the cache.
    pub num_free: u64,
    /// Segments obtained from the device.
    pub num_device_alloc: u64,
    /// Segments given back to the device.
    pub num_device_free: u64,
}

impl CacheStats {
    /// The counters of a new allocator.
    pub open spec fn zero() -> CacheStats {
        CacheStats {
            allocated_bytes: 0,
            allocated_bytes_peak: 0,
            reserved_bytes: 0,
            reserved_bytes_peak: 0,
            num_alloc: 0,
            num_free: 0,
            num_device_alloc: 0,
            num_device_free: 0,
        }
    }

    /// One more request is counted.
    pub open spec fn requested(self) -> CacheStats {
        CacheStats { num_alloc: (self.num_alloc + 1) as u64, ..self }
    }

    /// `n` more bytes are handed out.
    pub open spec fn handed_out(self, n: int) -> CacheStats {
        let total = self.allocated_bytes + n;
        CacheStats {
            allocated_bytes: total as usize,
            allocated_bytes_peak: cache_stats::larger(
                self.allocated_bytes_peak as int,
                total,
            ) as usize,
            ..self
        }
    }

    /// A block of `n` bytes came back.
    pub open spec fn returned(self, n: int) -> CacheStats {
        CacheStats {
            allocated_bytes: (self.allocated_bytes - n) as usize,
            num_free: (self.num_free + 1) as u64,
            ..self
        }
    }

    /// A segment of `n` bytes was obtained from the device.
    pub open spec fn reserved(self, n: int) -> CacheStats {
        let total = self.reserved_bytes + n;
        CacheStats {
            reserved_bytes: total as usize,
            reserved_bytes_peak: cache_stats::larger(
                self.reserved_bytes_peak as int,
                total,
            ) as usize,
            num_device_alloc: (self.num_device_alloc + 1) as u64,
            ..self
        }
    }

    /// `count` segments of `n` bytes together went back to the device.
    pub open spec fn released(self, n: int, count: int) -> CacheStats {
        CacheStats {
            reserved_bytes: (self.reserved_bytes - n) as usize,
            num_device_free: (self.num_device_free + count) as u64,
            ..self
        }
    }

    /// The peaks after a step are the larger of the peaks before it and the values
    /// after it.
    pub open spec fn peaks_follow(self, before: CacheStats) -> bool {
        &&& self.allocated_bytes_peak == cache_stats::larger(
            before.allocated_bytes_peak as int,
            self.allocated_bytes as int,
        )
        &&& self.reserved_bytes_peak == cache_stats::larger(
            before.reserved_bytes_peak as int,
            self.reserved_bytes as int,
        )
    }

    /// The counters tell what the chunks show: bytes in use and bytes held, the
    /// segments held as the difference of device calls, at least one request for
    /// every chunk in use or given back, and peaks that are not below the present.
    pub open spec fn balanced(self, s: Seq<Chunk>) -> bool {
        &&& self.allocated_bytes == ledger::sum(s, Measure::BytesInUse)
        &&& self.reserved_bytes == ledger::sum(s, Measure::Bytes)
        &&& self.allocated_bytes <= self.allocated_bytes_peak
        &&& self.reserved_bytes <= self.reserved_bytes_peak
        &&& self.num_device_alloc == self.num_device_free + ledger::sum(s, Measure::Segments)
        &&& self.num_alloc >= self.num_free + ledger::sum(s, Measure::InUse)
    }
}

impl Default for CacheStats {
    /// All counters at zero.
    fn default() -> (s: CacheStats)
        ensures
            s == CacheStats::zero(),
    {
        CacheStats {
            allocated_bytes: 0,
            allocated_bytes_peak: 0,
            reserved_bytes: 0,
            reserved_bytes_peak: 0,
            num_alloc: 0,
            num_free: 0,
            num_device_alloc: 0,
            num_device_free: 0,
        }
    }
}

/// Over any run of steps from a new allocator on, the peaks are the largest values
/// that the counters have had.
pub proof fn law_peaks_are_largest(run: Seq<CacheStats>)
    requires
        run.len() > 0,
        run[0] == CacheStats::zero(),
        forall|k: int| 0 <= k < run.len() - 1 ==> (#[trigger] run[k + 1]).peaks_follow(run[k]),
    ensures
        forall|k: int|
            0 <= k < run.len() ==> (#[trigger] run[k]).allocated_bytes
                <= run.last().allocated_bytes_peak && run[k].reserved_bytes
                <= run.last().reserved_bytes_peak,
        exists|k: int|
            0 <= k < run.len() && (#[trigger] run[k]).allocated_bytes
                == run.last().allocated_bytes_peak,
        exists|k: int|
            0 <= k < run.len() && (#[trigger] run[k]).reserved_bytes
                == run.last().reserved_bytes_peak,
{
    let a = run.map_values(|s: CacheStats| s.allocated_bytes as int);
    let p = run.map_values(|s: CacheStats| s.allocated_bytes_peak as int);
    let r = run.map_values(|s: CacheStats| s.reserved_bytes as int);
    let q = run.map_values(|s: CacheStats| s.reserved_bytes_peak as int);
    assert forall|k: int| 0 <= k < run.len() - 1 implies #[trigger] p[k + 1] == cache_stats::larger(
        p[k],
        a[k + 1],
    ) by {
        assert(run[k + 1].peaks_follow(run[k]));
    }
    assert forall|k: int| 0 <= k < run.len() - 1 implies #[trigger] q[k + 1] == cache_stats::larger(
        q[k],
        r[k + 1],
    ) by {
        assert(run[k + 1].peaks_follow(run[k]));
    }
    cache_stats::law_peak_is_largest(a, p);
    cache_stats::law_peak_is_largest(r, q);
    assert forall|k: int| 0 <= k < run.len() implies (#[trigger] run[k]).allocated_bytes
        <= run.last().allocated_bytes_peak && run[k].reserved_bytes
        <= run.last().reserved_bytes_peak by {
        assert(a[k] <= p.last());
        assert(r[k] <= q.last());
    }
    let x = choose|x: int| 0 <= x < a.len() && a[x] == p.last();
    assert(run[x].allocated_bytes == run.last().allocated_bytes_peak);
    let y = choose|y: int| 0 <= y < r.len() && r[y] == q.last();
    assert(run[y].reserved_bytes == run.last().reserved_bytes_peak);
}

/// One contiguous run of device memory: a whole segment or a piece of one.
#[derive(Clone, Copy)]
struct Block {
    /// Start address.
    ptr: usize,
    /// Total bytes in this block (after any splits).
    size: usize,
    /// Bytes the user asked for; 0 while the block sits free in a pool.
    requested: usize,
    /// Which pool this block belongs to when free.
    small_pool: bool,
    /// Whether the block is currently free (in a pool).
    free: bool,
    /// Base address of the segment this block was carved from. Two segments can
    /// be address-adjacent, so address adjacency alone does not mean that two
    /// blocks may merge; they must also share a segment.
    segment: usize,
    /// Length of that segment.
    segment_size: Ghost<int>,
}

impl Placed for Block {
    closed spec fn chunk(&self) -> Chunk {
        Chunk {
            ptr: self.ptr as int,
            size: self.size as int,
            free: self.free,
            base: self.segment as int,
            seg: self.segment_size@,
            small: self.small_pool,
        }
    }

    fn start(&self) -> usize {
        self.ptr
    }
}

/// The blocks, pools and counters of a cache.
pub struct State {
    /// Every block, in address order. Adjacency for coalescing is found by
    /// position, restricted to the same segment.
    blocks: Vec<Block>,
    /// Free blocks, ordered for best-fit lookup.
    pools: Pools,
    stats: CacheStats,
}

impl State {
    /// The blocks, in address order.
    pub closed spec fn chunks(&self) -> Seq<Chunk> {
        blocks::chunks_of(self.blocks@)
    }

    /// What was asked of each block, in address order.
    pub closed spec fn requests(&self) -> Seq<usize> {
        self.blocks@.map_values(|b: Block| b.requested)
    }

    /// The entries of a pool.
    pub closed spec fn pool(&self, small: bool) -> Set<(usize, usize)> {
        self.pools.entries(small)
    }

    /// The entries of the small pool, then those of the large pool, each in
    /// ascending order.
    pub closed spec fn free_order(&self) -> Seq<(usize, usize)> {
        self.pools.order(true) + self.pools.order(false)
    }

    /// The counters.
    pub closed spec fn stats(&self) -> CacheStats {
        self.stats
    }

    /// The pools are in order.
    pub closed spec fn pools_ordered(&self) -> bool {
        self.pools.wf()
    }

    /// The pools list exactly the free blocks.
    pub open spec fn pools_match(&self) -> bool {
        &&& self.pools_ordered()
        &&& self.pool(true) == ledger::keys(self.chunks(), true)
        &&& self.pool(false) == ledger::keys(self.chunks(), false)
    }

    /// The free blocks hold no request, the others one that fits.
    pub open spec fn requests_match(&self) -> bool {
        matching(self.chunks(), self.requests())
    }

    /// The blocks cover their segments, no two free neighbours of a segment are
    /// left apart, the pools list exactly the free blocks, and requests and
    /// counters tell what the blocks show.
    pub open spec fn wf(&self) -> bool {
        &&& space::tiled(self.chunks())
        &&& space::settled(self.chunks())
        &&& self.pools_match()
        &&& self.requests_match()
        &&& self.stats().balanced(self.chunks())
    }

    /// An empty cache.
    pub fn new() -> (s: State)
        ensures
            s.wf(),
            s.chunks() == Seq::<Chunk>::empty(),
            s.requests() == Seq::<usize>::empty(),
            s.stats() == CacheStats::zero(),
    {
        let s = State { blocks: Vec::new(), pools: Pools::new(), stats: CacheStats::default() };
        proof {
            assert(s.chunks() =~= Seq::<Chunk>::empty());
            assert(s.requests() =~= Seq::<usize>::empty());
            assert(ledger::keys(s.chunks(), true) =~= Set::<(usize, usize)>::empty());
            assert(ledger::keys(s.chunks(), false) =~= Set::<(usize, usize)>::empty());
            assert forall|i: int| !#[trigger] space::mergeable(s.chunks(), i) by {}
        }
        s
    }

    /// The counters.
    pub fn get_stats(&self) -> (s: CacheStats)
        ensures
            s == self.stats(),
    {
        self.stats
    }

    /// The place of the block at an address.
    fn find(&self, ptr: usize) -> (i: usize)
        requires
            space::chained(self.chunks()),
            space::starts_at(self.chunks(), ptr as int),
        ensures
            i == space::rank(self.chunks(), ptr as int),
            i < self.blocks@.len(),
            self.blocks@.len() == self.chunks().len(),
            self.chunks()[i as int] == self.blocks@[i as int].chunk(),
            self.blocks@[i as int].ptr == ptr,
            self.chunks()[i as int].ok(),
    {
        let i: usize = blocks::position(&self.blocks, ptr);
        assert(self.chunks()[i as int] == self.blocks@[i as int].chunk());
        assert(self.chunks()[i as int].ok());
        i
    }

    /// Marks the block at `ptr` free and lists it in its pool.
    pub fn insert_free(&mut self, ptr: usize)
        requires
            space::chained(old(self).chunks()),
            space::starts_at(old(self).chunks(), ptr as int),
            old(self).pools_ordered(),
        ensures
            ({
                let s = old(self).chunks();
                let i = space::rank(s, ptr as int);
                let t = space::marked(s, i);
                &&& final(self).chunks() == t
                &&& final(self).requests() == old(self).requests().update(i, 0usize)
                &&& final(self).pools_ordered()
                &&& final(self).pool(true) == ledger::with_key(old(self).pool(true), t[i], true)
                &&& final(self).pool(false) == ledger::with_key(old(self).pool(false), t[i], false)
                &&& final(self).stats() == old(self).stats()
            }),
    {
        let i: usize = self.find(ptr);
        let block: Block = self.blocks[i];
        self.blocks[i] = Block { free: true, requested: 0, ..block };
        self.pools.insert(block.small_pool, (block.size, ptr));
        proof {
            assert(self.chunks() =~= space::marked(old(self).chunks(), i as int));
            assert(self.requests() =~= old(self).requests().update(i as int, 0usize));
        }
    }

    /// Marks the free block at `ptr` used and takes it out of its pool. Returns
    /// its size and pool.
    pub fn remove_free(&mut self, ptr: usize) -> (r: (usize, bool))
        requires
            space::chained(old(self).chunks()),
            space::starts_at(old(self).chunks(), ptr as int),
            old(self).chunks()[space::rank(old(self).chunks(), ptr as int)].free,
            old(self).pools_ordered(),
        ensures
            ({
                let s = old(self).chunks();
                let i = space::rank(s, ptr as int);
                &&& r.0 == s[i].size
                &&& r.1 == s[i].small
                &&& final(self).chunks() == space::used(s, i)
                &&& final(self).requests() == old(self).requests()
                &&& final(self).pools_ordered()
                &&& final(self).pool(true) == ledger::without_key(old(self).pool(true), s[i], true)
                &&& final(self).pool(false) == ledger::without_key(
                    old(self).pool(false),
                    s[i],
                    false,
                )
                &&& final(self).stats() == old(self).stats()
            }),
    {
        let i: usize = self.find(ptr);
        let block: Block = self.blocks[i];
        self.blocks[i] = Block { free: false, ..block };
        self.pools.remove(block.small_pool, (block.size, ptr));
        proof {
            assert(self.chunks() =~= space::used(old(self).chunks(), i as int));
            assert(self.requests() =~= old(self).requests());
        }
        (block.size, block.small_pool)
    }

    /// Best-fit search: takes the smallest free block of at least `size` bytes out
    /// of a pool.
    pub fn get_free_block(&mut self, size: usize, small: bool) -> (r: Option<usize>)
        requires
            space::tiled(old(self).chunks()),
            old(self).pools_match(),
        ensures
            final(self).pools_match(),
            final(self).requests() == old(self).requests(),
            final(self).stats() == old(self).stats(),
            match r {
                Some(ptr) => {
                    let s = old(self).chunks();
                    let i = space::rank(s, ptr as int);
                    &&& space::best_fit(s, small, size as int, i)
                    &&& s[i].ptr == ptr
                    &&& final(self).chunks() == space::used(s, i)
                },
                None => {
                    &&& !space::has_fit(old(self).chunks(), small, size as int)
                    &&& final(self).chunks() == old(self).chunks()
                },
            },
    {
        let ghost s = self.chunks();
        match self.pools.best_fit(small, size) {
            Some(k) => {
                let ghost j = choose|j: int|
                    0 <= j < s.len() && (#[trigger] s[j]).pooled(small) && s[j].key() == k;
                proof {
                    assert(self.pool(small).contains(k));
                    assert(ledger::listed(s, small, k));
                    ledger::lemma_pool_best_fit(s, small, size as int, k, j);
                    ledger::lemma_used_ledger(s, j, true);
                    ledger::lemma_used_ledger(s, j, false);
                }
                self.remove_free(k.1);
                Some(k.1)
            },
            None => {
                proof {
                    if space::has_fit(s, small, size as int) {
                        let j = choose|j: int|
                            0 <= j < s.len() && (#[trigger] s[j]).pooled(small) && s[j].size
                                >= size;
                        assert(s[j].ok());
                        assert(ledger::keys(s, small).contains(s[j].key()));
                    }
                }
                None
            },
        }
    }

    /// Splits the block in use at `ptr` down to `size` bytes if the rest is worth
    /// keeping.
    pub fn maybe_split(&mut self, ptr: usize, size: usize)
        requires
            space::tiled(old(self).chunks()),
            space::starts_at(old(self).chunks(), ptr as int),
            !old(self).chunks()[space::rank(old(self).chunks(), ptr as int)].free,
            0 < size <= old(self).chunks()[space::rank(old(self).chunks(), ptr as int)].size,
            old(self).pools_match(),
        ensures
            final(self).pools_match(),
            final(self).stats() == old(self).stats(),
            ({
                let s = old(self).chunks();
                let i = space::rank(s, ptr as int);
                if super::worth_splitting(s[i].small, s[i].size - size) {
                    &&& final(self).chunks() == space::cut(s, i, size as int)
                    &&& final(self).requests() == old(self).requests().insert(i + 1, 0usize)
                } else {
                    &&& final(self).chunks() == s
                    &&& final(self).requests() == old(self).requests()
                }
            }),
    {
        let ghost s = self.chunks();
        let i: usize = self.find(ptr);
        let block: Block = self.blocks[i];
        let remaining: usize = block.size - size;
        if !should_split(block.small_pool, remaining) {
            return;
        }
        let rest_ptr: usize = ptr + size;
        let rest: Block = Block {
            ptr: rest_ptr,
            size: remaining,
            requested: 0,
            free: false,
            ..block
        };
        let ghost t = space::cut(s, i as int, size as int);
        let ghost u = space::used(t, i + 1);
        assert(i < self.blocks.len());
        self.blocks[i] = Block { size, ..block };
        self.blocks.insert(i + 1, rest);
        proof {
            space::lemma_cut(s, i as int, size as int);
            space::lemma_used(t, i + 1);
            assert(self.chunks() =~= u);
            space::lemma_rank_at(u, i + 1);
            ledger::lemma_cut_ledger(s, i as int, size as int, true);
            ledger::lemma_cut_ledger(s, i as int, size as int, false);
        }
        self.insert_free(rest_ptr);
        proof {
            assert(self.chunks() =~= t);
            assert(self.requests() =~= old(self).requests().insert(i + 1, 0usize));
        }
    }

    /// The block ending right before `ptr` in the same segment, if any.
    pub fn prev_in_segment(&self, ptr: usize) -> (r: Option<usize>)
        requires
            space::tiled(self.chunks()),
            space::starts_at(self.chunks(), ptr as int),
        ensures
            ({
                let s = self.chunks();
                let i = space::rank(s, ptr as int);
                match r {
                    Some(p) => i > 0 && s[i - 1].base == s[i].base && p == s[i - 1].ptr,
                    None => i == 0 || s[i - 1].base != s[i].base,
                }
            }),
    {
        let i: usize = self.find(ptr);
        if i == 0 {
            return None;
        }
        let b: Block = self.blocks[i - 1];
        proof {
            let s = self.chunks();
            assert(s[i - 1] == b.chunk());
            assert(s[i - 1].ok());
            assert(space::link_at(s, i - 1));
        }
        if b.ptr + b.size == ptr && b.segment == self.blocks[i].segment {
            Some(b.ptr)
        } else {
            None
        }
    }

    /// The block starting right after the block at `ptr` in the same segment, if
    /// any.
    pub fn next_in_segment(&self, ptr: usize) -> (r: Option<usize>)
        requires
            space::tiled(self.chunks()),
            space::starts_at(self.chunks(), ptr as int),
        ensures
            ({
                let s = self.chunks();
                let i = space::rank(s, ptr as int);
                match r {
                    Some(p) => i + 1 < s.len() && s[i + 1].base == s[i].base && p == s[i + 1].ptr,
                    None => i + 1 == s.len() || s[i + 1].base != s[i].base,
                }
            }),
    {
        let i: usize = self.find(ptr);
        let block: Block = self.blocks[i];
        let end: usize = ptr + block.size;
        assert(i < self.blocks.len());
        if i + 1 == self.blocks.len() {
            return None;
        }
        let next: Block = self.blocks[i + 1];
        proof {
            let s = self.chunks();
            assert(s[i + 1] == next.chunk());
            assert(s[i + 1].ok());
            assert(space::link_at(s, i as int));
        }
        if next.ptr == end && next.segment == block.segment {
            Some(end)
        } else {
            None
        }
    }

    /// Joins the free block at `ptr` with the free block at `next_ptr` that
    /// continues its segment.
    fn join(&mut self, ptr: usize, next_ptr: usize)
        requires
            space::tiled(old(self).chunks()),
            space::starts_at(old(self).chunks(), ptr as int),
            space::mergeable(
                old(self).chunks(),
                space::rank(old(self).chunks(), ptr as int),
            ),
            next_ptr == old(self).chunks()[space::rank(old(self).chunks(), ptr as int) + 1].ptr,
            old(self).pools_match(),
        ensures
            final(self).pools_match(),
            final(self).stats() == old(self).stats(),
            ({
                let i = space::rank(old(self).chunks(), ptr as int);
                &&& final(self).chunks() == space::joined(old(self).chunks(), i)
                &&& final(self).requests() == joined_requests(old(self).requests(), i)
            }),
    {
        let ghost s = self.chunks();
        let ghost i = space::rank(s, ptr as int);
        let ghost u = space::used(s, i);
        let ghost v = space::used(u, i + 1);
        proof {
            space::lemma_used(s, i);
            space::lemma_used(u, i + 1);
            space::lemma_joined(v, i);
            space::lemma_rank_at(s, i + 1);
            space::lemma_rank_at(u, i + 1);
            space::lemma_rank_at(v, i);
            space::lemma_rank_at(space::joined(v, i), i);
            ledger::lemma_joined_ledger(s, i, true);
            ledger::lemma_joined_ledger(s, i, false);
            assert(s[i].ok() && s[i + 1].ok());
        }
        self.remove_free(ptr);
        let (next_size, _small): (usize, bool) = self.remove_free(next_ptr);
        let at: usize = self.find(ptr);
        let block: Block = self.blocks[at];
        proof {
            assert(space::link_at(s, i));
            assert(at < self.blocks.len());
        }
        self.blocks[at] = Block { size: block.size + next_size, ..block };
        self.blocks.remove(at + 1);
        proof {
            assert(self.chunks() =~= space::joined(v, i));
        }
        self.insert_free(ptr);
        proof {
            assert(self.chunks() =~= space::joined(s, i));
            assert(self.requests() =~= joined_requests(old(self).requests(), i));
        }
    }

    /// Merges the free block at `ptr` with the next one if that is free.
    pub fn coalesce_next(&mut self, ptr: usize)
        requires
            space::tiled(old(self).chunks()),
            space::starts_at(old(self).chunks(), ptr as int),
            old(self).chunks()[space::rank(old(self).chunks(), ptr as int)].free,
            old(self).pools_match(),
        ensures
            final(self).pools_match(),
            final(self).stats() == old(self).stats(),
            ({
                let s = old(self).chunks();
                let i = space::rank(s, ptr as int);
                &&& final(self).chunks() == space::joined_next(s, i)
                &&& final(self).requests() == if space::next_free(s, i) {
                    joined_requests(old(self).requests(), i)
                } else {
                    old(self).requests()
                }
            }),
    {
        let next_ptr: usize = match self.next_in_segment(ptr) {
            Some(p) => p,
            None => {
                return;
            },
        };
        proof {
            space::lemma_rank_at(self.chunks(), space::rank(self.chunks(), ptr as int) + 1);
        }
        if !self.is_free(next_ptr) {
            return;
        }
        self.join(ptr, next_ptr);
    }

    /// Whether the block at `ptr` is free.
    fn is_free(&self, ptr: usize) -> (r: bool)
        requires
            space::tiled(self.chunks()),
            space::starts_at(self.chunks(), ptr as int),
        ensures
            r == self.chunks()[space::rank(self.chunks(), ptr as int)].free,
    {
        let i: usize = self.find(ptr);
        self.blocks[i].free
    }

    /// Merges the free block at `ptr` with free neighbours in its segment.
    pub fn coalesce(&mut self, ptr: usize)
        requires
            space::tiled(old(self).chunks()),
            space::starts_at(old(self).chunks(), ptr as int),
            old(self).chunks()[space::rank(old(self).chunks(), ptr as int)].free,
            old(self).pools_match(),
        ensures
            final(self).pools_match(),
            final(self).stats() == old(self).stats(),
            ({
                let s = old(self).chunks();
                let i = space::rank(s, ptr as int);
                &&& final(self).chunks() == space::merged(s, i)
                &&& final(self).requests() == merged_requests(s, old(self).requests(), i)
            }),
    {
        let ghost s = self.chunks();
        let ghost i = space::rank(s, ptr as int);
        // Merge with the previous block if it is free.
        if let Some(prev_ptr) = self.prev_in_segment(ptr) {
            proof {
                space::lemma_rank_at(s, i - 1);
            }
            if self.is_free(prev_ptr) {
                self.join(prev_ptr, ptr);
                proof {
                    space::lemma_joined(s, i - 1);
                    space::lemma_rank_at(self.chunks(), i - 1);
                }
                // The merged block may now be adjacent to the next one.
                self.coalesce_next(prev_ptr);
                return;
            }
        }
        self.coalesce_next(ptr);
    }

    /// Returns the block at `ptr` to its pool and merges it with its neighbours.
    pub fn free_block(&mut self, ptr: usize, size: usize)
        requires
            old(self).wf(),
            space::in_use(old(self).chunks(), ptr as int, size as int),
        ensures
            final(self).wf(),
            ({
                let s = old(self).chunks();
                let i = space::rank(s, ptr as int);
                &&& final(self).chunks() == space::freed(s, i)
                &&& final(self).requests() == merged_requests(
                    space::marked(s, i),
                    old(self).requests().update(i, 0usize),
                    i,
                )
            }),
            final(self).stats() == old(self).stats().returned(size as int),
    {
        let ghost s = self.chunks();
        let ghost i = space::rank(s, ptr as int);
        let ghost m = space::marked(s, i);
        let ghost r = self.requests();
        proof {
            space::lemma_in_use(s, ptr as int, size as int);
            space::lemma_marked(s, i);
            space::lemma_rank_at(m, i);
            space::lemma_merged(m, i);
            ledger::lemma_marked_ledger(s, i, true);
            ledger::lemma_marked_ledger(s, i, false);
            ledger::lemma_merged_sums(m, i);
            ledger::lemma_part(s, i);
        }
        self.stats.num_free = self.stats.num_free + 1;
        self.stats.allocated_bytes = self.stats.allocated_bytes - size;
        self.insert_free(ptr);
        self.coalesce(ptr);
        proof {
            lemma_merged_requests(m, r.update(i, 0usize), i);
            assert(ledger::sum(self.chunks(), Measure::BytesInUse) == ledger::sum(
                m,
                Measure::BytesInUse,
            ));
            assert(ledger::sum(self.chunks(), Measure::Bytes) == ledger::sum(m, Measure::Bytes));
            assert(ledger::sum(self.chunks(), Measure::InUse) == ledger::sum(m, Measure::InUse));
            assert(ledger::sum(self.chunks(), Measure::Segments) == ledger::sum(
                m,
                Measure::Segments,
            ));
        }
    }

    /// Drops the idle segment at `ptr`. Returns its size.
    fn drop_segment(&mut self, ptr: usize) -> (size: usize)
        requires
            old(self).wf(),
            space::starts_at(old(self).chunks(), ptr as int),
            old(self).chunks()[space::rank(old(self).chunks(), ptr as int)].idle(),
        ensures
            final(self).wf(),
            ({
                let s = old(self).chunks();
                let i = space::rank(s, ptr as int);
                &&& size == s[i].size
                &&& size <= old(self).stats().reserved_bytes
                &&& old(self).stats().num_device_free < u64::MAX
                &&& final(self).chunks() == s.remove(i)
                &&& final(self).requests() == old(self).requests().remove(i)
                &&& final(self).stats() == old(self).stats().released(size as int, 1)
            }),
    {
        let ghost s = self.chunks();
        let i: usize = self.find(ptr);
        let block: Block = self.blocks[i];
        proof {
            let k = i as int;
            space::lemma_dropped(s, k);
            space::lemma_alone(s, k);
            ledger::lemma_dropped_ledger(s, k, true);
            ledger::lemma_dropped_ledger(s, k, false);
            if k > 0 {
                assert(space::link_at(s, k - 1));
            }
            ledger::lemma_part(s, k);
        }
        self.blocks.remove(i);
        self.pools.remove(block.small_pool, (block.size, ptr));
        self.stats.reserved_bytes = self.stats.reserved_bytes - block.size;
        self.stats.num_device_free = self.stats.num_device_free + 1;
        proof {
            let t = s.remove(i as int);
            let r = old(self).requests().remove(i as int);
            assert(self.chunks() =~= t);
            assert(self.requests() =~= r);
            assert forall|k: int| 0 <= k < t.len() implies if (#[trigger] t[k]).free {
                r[k] == 0
            } else {
                0 < r[k] <= t[k].size
            } by {
                if k < i {
                    assert(t[k] == s[k]);
                } else {
                    assert(t[k] == s[k + 1]);
                }
            }
        }
        block.size
    }

    /// The addresses of the free blocks, pool by pool.
    fn free_ptrs(&self) -> (r: Vec<usize>)
        ensures
            r@.len() == self.free_order().len(),
            forall|i: int| 0 <= i < r@.len() ==> #[trigger] r@[i] == self.free_order()[i].1,
    {
        let mut r: Vec<usize> = Vec::new();
        let mut i: usize = 0;
        while i < self.pools.len(true)
            invariant
                i <= self.pools.order(true).len(),
                r@.len() == i,
                forall|k: int| 0 <= k < i ==> #[trigger] r@[k] == self.free_order()[k].1,
            decreases self.pools.order(true).len() - i,
        {
            r.push(self.pools.at(true, i).1);
            i = i + 1;
        }
        let ghost n = i;
        i = 0;
        while i < self.pools.len(false)
            invariant
                n == self.pools.order(true).len(),
                i <= self.pools.order(false).len(),
                r@.len() == n + i,
                forall|k: int| 0 <= k < n + i ==> #[trigger] r@[k] == self.free_order()[k].1,
            decreases self.pools.order(false).len() - i,
        {
            r.push(self.pools.at(false, i).1);
            i = i + 1;
        }
        r
    }

    /// Drops all segments that are wholly free.
    ///
    /// Only whole segments can go back to the device: a free block with a
    /// neighbour in its segment is a piece of a segment whose other pieces are
    /// still in use, since free neighbours would have merged.
    ///
    /// Returns addresses and sizes, for the device to take back.
    pub fn drain_free_blocks(&mut self) -> (freed: Vec<(usize, usize)>)
        requires
            old(self).wf(),
        ensures
            final(self).wf(),
            final(self).chunks() == space::kept(old(self).chunks()),
            final(self).requests() == kept_requests(old(self).chunks(), old(self).requests()),
            freed@ == idle_entries(old(self).chunks(), old(self).free_order()),
            forall|j: int|
                0 <= j < freed@.len() ==> (#[trigger] freed@[j]).1 == size_at(
                    old(self).chunks(),
                    freed@[j].0 as int,
                ),
            freed@.len() == space::idle_segments(old(self).chunks()).len(),
            distinct_starts(freed@),
            starts(freed@).to_set() == space::bases(
                space::idle_segments(old(self).chunks()),
            ).to_set(),
            final(self).stats() == old(self).stats().released(
                ledger::sum(space::idle_segments(old(self).chunks()), Measure::Bytes),
                space::idle_segments(old(self).chunks()).len() as int,
            ),
    {
        let ghost s = self.chunks();
        let ghost st = self.stats();
        let ghost r = self.requests();
        let ghost order = self.free_order();
        let free_ptrs: Vec<usize> = self.free_ptrs();
        let mut freed: Vec<(usize, usize)> = Vec::new();
        let mut n: usize = 0;
        let ghost mut bytes: int = 0;
        proof {
            self.lemma_free_order();
            assert(idle_entries(s, order.take(0)) =~= Seq::<(usize, usize)>::empty());
            assert(st == st.released(0, 0));
        }
        while n < free_ptrs.len()
            invariant
                space::tiled(s),
                n <= free_ptrs.len(),
                free_ptrs@.len() == order.len(),
                forall|i: int| 0 <= i < order.len() ==> #[trigger] free_ptrs@[i] == order[i].1,
                distinct_ptrs(order),
                self.wf(),
                space::kept(self.chunks()) == space::kept(s),
                kept_requests(self.chunks(), self.requests()) == kept_requests(s, r),
                forall|c: Chunk| #[trigger] self.chunks().contains(c) ==> s.contains(c),
                forall|j: int| n <= j < order.len() ==> holds(self.chunks(), #[trigger] order[j]),
                forall|c: Chunk| #[trigger]
                    self.chunks().contains(c) && c.idle() ==> exists|j: int|
                        n <= j < order.len() && #[trigger] order[j] == c.key(),
                freed@ == idle_entries(s, order.take(n as int)),
                forall|j: int|
                    0 <= j < freed@.len() ==> (#[trigger] freed@[j]).1 == size_at(
                        s,
                        freed@[j].0 as int,
                    ),
                self.stats() == st.released(bytes, freed@.len() as int),
                0 <= bytes <= st.reserved_bytes,
                st.num_device_free + freed@.len() <= u64::MAX,
                bytes + ledger::sum(space::idle_segments(self.chunks()), Measure::Bytes)
                    == ledger::sum(space::idle_segments(s), Measure::Bytes),
                freed@.len() + space::idle_segments(self.chunks()).len() == space::idle_segments(
                    s,
                ).len(),
            decreases free_ptrs.len() - n,
        {
            let ptr: usize = free_ptrs[n];
            let ghost t = self.chunks();
            let ghost q = self.requests();
            let ghost i = space::rank(t, ptr as int);
            let ghost k = order[n as int];
            proof {
                assert(holds(t, order[n as int]));
                lemma_holds(t, k);
                assert(t.contains(t[i]));
                assert(s.contains(t[i]));
                let x = choose|x: int| 0 <= x < s.len() && s[x] == t[i];
                space::lemma_rank_at(s, x);
                space::lemma_alone(t, i);
                assert(order.take(n + 1).drop_last() =~= order.take(n as int));
                assert(order.take(n + 1).last() == k);
            }
            // A piece of a busy segment stays cached.
            if self.prev_in_segment(ptr).is_none() && self.next_in_segment(ptr).is_none() {
                let size: usize = self.drop_segment(ptr);
                freed.push((ptr, size));
                proof {
                    space::lemma_kept_remove(t, i);
                    lemma_kept_requests_remove(t, q, i);
                    ledger::lemma_idle_remove(t, i, Measure::Bytes);
                    bytes = bytes + size;
                    lemma_removed_members(t, i);
                    assert forall|j: int| n + 1 <= j < order.len() implies holds(
                        self.chunks(),
                        #[trigger] order[j],
                    ) by {
                        assert(holds(t, order[j]));
                        lemma_holds(t, order[j]);
                        assert(order[n as int].1 != order[j].1);
                        let y = space::rank(t, order[j].1 as int);
                        assert(self.chunks().contains(t[y]));
                        let z = choose|z: int|
                            0 <= z < self.chunks().len() && self.chunks()[z] == t[y];
                        assert(self.chunks()[z].key() == order[j]);
                    }
                }
            }
            proof {
                assert forall|c: Chunk| #[trigger]
                    self.chunks().contains(c) && c.idle() implies exists|j: int|
                    n + 1 <= j < order.len() && #[trigger] order[j] == c.key() by {
                    assert(t.contains(c));
                    let j = choose|j: int| n <= j < order.len() && #[trigger] order[j] == c.key();
                    if j == n {
                        let y = choose|y: int| 0 <= y < t.len() && t[y] == c;
                        assert(t[y].ok());
                        space::lemma_rank_at(t, y);
                        assert(y == i);
                        if t[i].idle() {
                            lemma_removed_members(t, i);
                            assert(false);
                        }
                    }
                    assert(order[j] == c.key());
                }
            }
            n = n + 1;
        }
        proof {
            assert(order.take(n as int) =~= order);
            assert forall|x: int| 0 <= x < self.chunks().len() implies !(
            #[trigger] self.chunks()[x]).idle() by {
                assert(self.chunks().contains(self.chunks()[x]));
            }
            space::lemma_kept_all(self.chunks());
            lemma_kept_requests_all(self.chunks(), self.requests());
            old(self).lemma_free_order();
            lemma_idle_entries(s, order);
            lemma_idle_starts(s, order);
        }
        freed
    }

    /// Counts a request.
    pub fn count_request(&mut self)
        requires
            old(self).wf(),
            old(self).stats().num_alloc < u64::MAX,
        ensures
            final(self).wf(),
            final(self).chunks() == old(self).chunks(),
            final(self).requests() == old(self).requests(),
            final(self).free_order() == old(self).free_order(),
            final(self).stats() == old(self).stats().requested(),
    {
        self.stats.num_alloc = self.stats.num_alloc + 1;
    }

    /// Takes in a segment of the device, as one block in use.
    pub fn add_segment(&mut self, ptr: usize, seg_size: usize, small: bool)
        requires
            old(self).wf(),
            0 < ptr,
            0 < seg_size,
            ptr + seg_size <= usize::MAX,
            space::clear_of(old(self).chunks(), ptr as int, seg_size as int),
            old(self).stats().num_device_alloc < u64::MAX,
        ensures
            final(self).pools_match(),
            ({
                let s = old(self).chunks();
                let c = space::segment(ptr as int, seg_size as int, small, false);
                &&& final(self).chunks() == space::grown(s, c)
                &&& final(self).requests() == old(self).requests().insert(
                    space::rank(s, ptr as int),
                    0usize,
                )
                &&& final(self).stats() == old(self).stats().reserved(seg_size as int)
                &&& old(self).stats().reserved_bytes + seg_size <= usize::MAX
            }),
    {
        let ghost s = self.chunks();
        let ghost c = space::segment(ptr as int, seg_size as int, small, false);
        proof {
            space::lemma_grown(s, c);
            ledger::lemma_grown_ledger(s, c, true);
            ledger::lemma_grown_ledger(s, c, false);
            ledger::lemma_room(s, c);
        }
        self.stats.num_device_alloc = self.stats.num_device_alloc + 1;
        self.stats.reserved_bytes = self.stats.reserved_bytes + seg_size;
        if self.stats.reserved_bytes > self.stats.reserved_bytes_peak {
            self.stats.reserved_bytes_peak = self.stats.reserved_bytes;
        }
        let i: usize = blocks::position(&self.blocks, ptr);
        self.blocks.insert(
            i,
            Block {
                ptr,
                size: seg_size,
                requested: 0,
                small_pool: small,
                free: false,
                segment: ptr,
                segment_size: Ghost(seg_size as int),
            },
        );
        proof {
            assert(self.chunks() =~= space::grown(s, c));
            assert(self.requests() =~= old(self).requests().insert(i as int, 0usize));
        }
    }

    /// The block at `i` was taken for a request that is counted, but not yet set
    /// down; all else is in order.
    pub open spec fn pending(&self, i: int) -> bool {
        let s = self.chunks();
        let r = self.requests();
        let st = self.stats();
        &&& space::tiled(s)
        &&& space::settled(s)
        &&& self.pools_match()
        &&& 0 <= i < s.len()
        &&& !s[i].free
        &&& !space::next_free(s, i)
        &&& r.len() == s.len()
        &&& forall|k: int|
            0 <= k < s.len() && k != i ==> if (#[trigger] s[k]).free {
                r[k] == 0
            } else {
                0 < r[k] <= s[k].size
            }
        &&& st.allocated_bytes + s[i].size == ledger::sum(s, Measure::BytesInUse)
        &&& st.reserved_bytes == ledger::sum(s, Measure::Bytes)
        &&& st.allocated_bytes <= st.allocated_bytes_peak
        &&& st.reserved_bytes <= st.reserved_bytes_peak
        &&& st.num_device_alloc == st.num_device_free + ledger::sum(s, Measure::Segments)
        &&& st.num_alloc >= st.num_free + ledger::sum(s, Measure::InUse)
    }

    /// Sets down a request of `nbytes`, rounded to `size`, for the block taken at
    /// `ptr`. Returns the size of the block.
    pub fn set_down(&mut self, ptr: usize, size: usize, nbytes: usize) -> (block_size: usize)
        requires
            space::starts_at(old(self).chunks(), ptr as int),
            old(self).pending(space::rank(old(self).chunks(), ptr as int)),
            0 < nbytes <= size,
            size <= old(self).chunks()[space::rank(old(self).chunks(), ptr as int)].size,
        ensures
            final(self).wf(),
            ({
                let s = old(self).chunks();
                let i = space::rank(s, ptr as int);
                let split = super::worth_splitting(s[i].small, s[i].size - size);
                &&& block_size == (if split {
                    size as int
                } else {
                    s[i].size
                })
                &&& final(self).chunks() == (if split {
                    space::cut(s, i, size as int)
                } else {
                    s
                })
                &&& final(self).requests() == (if split {
                    old(self).requests().insert(i + 1, 0usize)
                } else {
                    old(self).requests()
                }).update(i, nbytes)
                &&& final(self).stats() == old(self).stats().handed_out(block_size as int)
                &&& old(self).stats().allocated_bytes + block_size <= usize::MAX
            }),
    {
        let ghost s = self.chunks();
        let ghost i = space::rank(s, ptr as int);
        let ghost split = super::worth_splitting(s[i].small, s[i].size - size);
        proof {
            assert(s[i].ok());
            if split {
                space::lemma_cut(s, i, size as int);
                ledger::lemma_cut_ledger(s, i, size as int, true);
            }
        }
        self.maybe_split(ptr, size);
        let ghost t = self.chunks();
        let ghost q = self.requests();
        proof {
            assert(t[i].ptr == ptr);
            space::lemma_rank_at(t, i);
            ledger::lemma_sums(t);
        }
        let at: usize = self.find(ptr);
        let block: Block = self.blocks[at];
        self.blocks[at] = Block { requested: nbytes, ..block };
        proof {
            assert(self.chunks() =~= t);
            assert(self.requests() =~= q.update(i, nbytes));
            let r = self.requests();
            assert forall|k: int| 0 <= k < t.len() implies if (#[trigger] t[k]).free {
                r[k] == 0
            } else {
                0 < r[k] <= t[k].size
            } by {
                if split && k > i + 1 {
                    assert(t[k] == s[k - 1]);
                } else if k < i {
                    assert(t[k] == s[k]);
                } else if !split && k > i {
                    assert(t[k] == s[k]);
                }
            }
        }
        self.stats.allocated_bytes = self.stats.allocated_bytes + block.size;
        if self.stats.allocated_bytes > self.stats.allocated_bytes_peak {
            self.stats.allocated_bytes_peak = self.stats.allocated_bytes;
        }
        block.size
    }

    /// The order of the free blocks lists each of them once.
    proof fn lemma_free_order(&self)
        requires
            self.wf(),
        ensures
            distinct_ptrs(self.free_order()),
            forall|j: int|
                0 <= j < self.free_order().len() ==> holds(
                    self.chunks(),
                    #[trigger] self.free_order()[j],
                ),
            forall|c: Chunk| #[trigger]
                self.chunks().contains(c) && c.free ==> exists|j: int|
                    0 <= j < self.free_order().len() && #[trigger] self.free_order()[j] == c.key(),
    {
        let s = self.chunks();
        let order = self.free_order();
        let a = self.pools.order(true);
        let b = self.pools.order(false);
        assert forall|j: int| 0 <= j < order.len() implies holds(s, #[trigger] order[j])
            && ledger::listed(s, j < a.len(), order[j]) by {
            let small = j < a.len();
            if small {
                assert(a.contains(order[j])) by {
                    assert(a[j] == order[j]);
                }
            } else {
                assert(b.contains(order[j])) by {
                    assert(b[j - a.len()] == order[j]);
                }
            }
            assert(self.pool(small).contains(order[j]));
            assert(ledger::keys(s, small).contains(order[j]));
            let x = choose|x: int|
                0 <= x < s.len() && (#[trigger] s[x]).pooled(small) && s[x].key() == order[j];
            assert(s[x].free && s[x].key() == order[j]);
        }
        assert forall|i: int, j: int| 0 <= i < j < order.len() implies (#[trigger] order[i]).1 != (
        #[trigger] order[j]).1 by {
            if order[i].1 == order[j].1 {
                assert(ledger::listed(s, i < a.len(), order[i]));
                assert(ledger::listed(s, j < a.len(), order[j]));
                let x = choose|x: int|
                    0 <= x < s.len() && (#[trigger] s[x]).pooled(i < a.len()) && s[x].key()
                        == order[i];
                let y = choose|y: int|
                    0 <= y < s.len() && (#[trigger] s[y]).pooled(j < a.len()) && s[y].key()
                        == order[j];
                assert(s[x].ok() && s[y].ok());
                space::lemma_same_ptr(s, x, y);
                if j < a.len() {
                    assert(a[i] == order[i] && a[j] == order[j]);
                    assert(super::super::pool::before(a[i], a[j]));
                } else {
                    assert(b[i - a.len()] == order[i] && b[j - a.len()] == order[j]);
                    assert(super::super::pool::before(b[i - a.len()], b[j - a.len()]));
                }
            }
        }
        assert forall|c: Chunk| #[trigger] s.contains(c) && c.free implies exists|j: int|
            0 <= j < order.len() && #[trigger] order[j] == c.key() by {
            let x = choose|x: int| 0 <= x < s.len() && s[x] == c;
            assert(s[x].pooled(c.small));
            assert(ledger::listed(s, c.small, c.key()));
            assert(ledger::keys(s, c.small).contains(c.key()));
            assert(self.pool(c.small).contains(c.key()));
            if c.small {
                let j = choose|j: int| 0 <= j < a.len() && a[j] == c.key();
                assert(order[j] == c.key());
            } else {
                let j = choose|j: int| 0 <= j < b.len() && b[j] == c.key();
                assert(order[j + a.len()] == c.key());
            }
        }
    }
}

/// The entry belongs to a free chunk.
pub open spec fn holds(s: Seq<Chunk>, k: (usize, usize)) -> bool {
    exists|i: int| 0 <= i < s.len() && (#[trigger] s[i]).free && s[i].key() == k
}

/// No two entries are of one address.
pub open spec fn distinct_ptrs(order: Seq<(usize, usize)>) -> bool {
    forall|i: int, j: int|
        0 <= i < j < order.len() ==> (#[trigger] order[i]).1 != (#[trigger] order[j]).1
}

/// Addresses and sizes of the entries whose chunk spans its segment, in order.
pub open spec fn idle_entries(s: Seq<Chunk>, order: Seq<(usize, usize)>) -> Seq<(usize, usize)>
    decreases order.len(),
{
    if order.len() == 0 {
        order
    } else {
        let k = order.last();
        let rest = idle_entries(s, order.drop_last());
        if s[space::rank(s, k.1 as int)].idle() {
            rest.push((k.1, k.0))
        } else {
            rest
        }
    }
}

/// The addresses of a list of addresses and sizes.
pub open spec fn starts(v: Seq<(usize, usize)>) -> Seq<usize> {
    v.map_values(|e: (usize, usize)| e.0)
}

/// No address is listed twice.
pub open spec fn distinct_starts(v: Seq<(usize, usize)>) -> bool {
    forall|i: int, j: int| 0 <= i < j < v.len() ==> (#[trigger] v[i]).0 != (#[trigger] v[j]).0
}

/// The idle entries are those of the order whose chunk is idle, each once.
proof fn lemma_idle_entries(s: Seq<Chunk>, order: Seq<(usize, usize)>)
    requires
        distinct_ptrs(order),
    ensures
        distinct_starts(idle_entries(s, order)),
        forall|e: (usize, usize)| #[trigger]
            idle_entries(s, order).contains(e) <==> order.contains((e.1, e.0)) && s[space::rank(
                s,
                e.0 as int,
            )].idle(),
    decreases order.len(),
{
    let v = idle_entries(s, order);
    if order.len() > 0 {
        let rest = order.drop_last();
        let k = order.last();
        assert(distinct_ptrs(rest)) by {
            assert forall|i: int, j: int| 0 <= i < j < rest.len() implies (
            #[trigger] rest[i]).1 != (#[trigger] rest[j]).1 by {
                assert(rest[i] == order[i] && rest[j] == order[j]);
            }
        }
        lemma_idle_entries(s, rest);
        let w = idle_entries(s, rest);
        let idle = s[space::rank(s, k.1 as int)].idle();
        assert forall|e: (usize, usize)| #[trigger] v.contains(e) <==> order.contains((e.1, e.0))
            && s[space::rank(s, e.0 as int)].idle() by {
            if v.contains(e) {
                let i = choose|i: int| 0 <= i < v.len() && v[i] == e;
                if i < w.len() {
                    assert(w[i] == e);
                    assert(w.contains(e));
                    let j = choose|j: int| 0 <= j < rest.len() && rest[j] == (e.1, e.0);
                    assert(order[j] == (e.1, e.0));
                } else {
                    assert(order[order.len() - 1] == (e.1, e.0));
                }
            }
            if order.contains((e.1, e.0)) && s[space::rank(s, e.0 as int)].idle() {
                let j = choose|j: int| 0 <= j < order.len() && order[j] == (e.1, e.0);
                if j < rest.len() {
                    assert(rest[j] == (e.1, e.0));
                    assert(w.contains(e));
                    let i = choose|i: int| 0 <= i < w.len() && w[i] == e;
                    assert(v[i] == e);
                } else {
                    assert(v[w.len() as int] == e);
                }
            }
        }
        assert forall|i: int, j: int| 0 <= i < j < v.len() implies (#[trigger] v[i]).0 != (
        #[trigger] v[j]).0 by {
            assert(w[i] == v[i]);
            if j < w.len() {
                assert(w[j] == v[j]);
            } else {
                assert(w.contains(w[i]));
                let x = choose|x: int| 0 <= x < rest.len() && rest[x] == (w[i].1, w[i].0);
                assert(order[x].1 != order[order.len() - 1].1);
            }
        }
    }
}

/// The idle entries start where the idle segments do.
proof fn lemma_idle_starts(s: Seq<Chunk>, order: Seq<(usize, usize)>)
    requires
        space::tiled(s),
        distinct_ptrs(order),
        forall|j: int| 0 <= j < order.len() ==> holds(s, #[trigger] order[j]),
        forall|c: Chunk| #[trigger]
            s.contains(c) && c.free ==> exists|j: int|
                0 <= j < order.len() && #[trigger] order[j] == c.key(),
    ensures
        starts(idle_entries(s, order)).to_set() == space::bases(space::idle_segments(s)).to_set(),
{
    let v = idle_entries(s, order);
    let d = space::idle_segments(s);
    lemma_idle_entries(s, order);
    space::lemma_idle_order(s);
    space::lemma_kept_members(s);
    assert forall|p: usize| #[trigger] starts(v).to_set().contains(p) <==> space::bases(
        d,
    ).to_set().contains(p) by {
        if starts(v).contains(p) {
            let i = choose|i: int| 0 <= i < starts(v).len() && starts(v)[i] == p;
            assert(v.contains(v[i]));
            let j = choose|j: int| 0 <= j < order.len() && order[j] == (v[i].1, v[i].0);
            assert(holds(s, order[j]));
            lemma_holds(s, order[j]);
            let x = space::rank(s, p as int);
            space::lemma_alone(s, x);
            if x > 0 {
                assert(space::link_at(s, x - 1));
            }
            assert(s.contains(s[x]));
            assert(d.contains(s[x]));
            let y = choose|y: int| 0 <= y < d.len() && d[y] == s[x];
            assert(space::bases(d)[y] == p);
        }
        if space::bases(d).contains(p) {
            let y = choose|y: int| 0 <= y < space::bases(d).len() && space::bases(d)[y] == p;
            assert(d.contains(d[y]));
            assert(s.contains(d[y]));
            let x = choose|x: int| 0 <= x < s.len() && s[x] == d[y];
            assert(s[x].ok());
            space::lemma_alone(s, x);
            if x > 0 {
                assert(space::link_at(s, x - 1));
            }
            space::lemma_rank_at(s, x);
            let j = choose|j: int| 0 <= j < order.len() && #[trigger] order[j] == s[x].key();
            let e = (order[j].1, order[j].0);
            assert(order.contains((e.1, e.0)));
            assert(v.contains(e));
            let i = choose|i: int| 0 <= i < v.len() && v[i] == e;
            assert(starts(v)[i] == p);
        }
    }
    assert(starts(v).to_set() =~= space::bases(d).to_set());
}

/// The chunk of an entry stands at the rank of its address.
proof fn lemma_holds(s: Seq<Chunk>, k: (usize, usize))
    requires
        space::chained(s),
        holds(s, k),
    ensures
        space::starts_at(s, k.1 as int),
        s[space::rank(s, k.1 as int)].free,
        s[space::rank(s, k.1 as int)].key() == k,
        s[space::rank(s, k.1 as int)].ok(),
{
    let i = choose|i: int| 0 <= i < s.len() && (#[trigger] s[i]).free && s[i].key() == k;
    assert(s[i].ok());
    space::lemma_rank_at(s, i);
}

/// The members of a sequence of chunks without one of them.
proof fn lemma_removed_members(s: Seq<Chunk>, i: int)
    requires
        space::chained(s),
        0 <= i < s.len(),
    ensures
        forall|c: Chunk| #[trigger] s.remove(i).contains(c) <==> s.contains(c) && c.ptr != s[i].ptr,
{
    let t = s.remove(i);
    assert forall|c: Chunk| #[trigger] t.contains(c) <==> s.contains(c) && c.ptr != s[i].ptr by {
        if t.contains(c) {
            let j = choose|j: int| 0 <= j < t.len() && t[j] == c;
            let k = if j < i {
                j
            } else {
                j + 1
            };
            assert(s[k] == c);
            if c.ptr == s[i].ptr {
                space::lemma_same_ptr(s, k, i);
            }
        }
        if s.contains(c) && c.ptr != s[i].ptr {
            let k = choose|k: int| 0 <= k < s.len() && s[k] == c;
            assert(k != i);
            let j = if k < i {
                k
            } else {
                k - 1
            };
            assert(t[j] == c);
        }
    }
}

/// The size of the chunk at an address.
pub open spec fn size_at(s: Seq<Chunk>, ptr: int) -> int {
    s[space::rank(s, ptr)].size
}

/// What was asked of the blocks once those at `i` and `i + 1`, both free, are
/// joined.
pub open spec fn joined_requests(r: Seq<usize>, i: int) -> Seq<usize> {
    r.update(i, 0usize).remove(i + 1)
}

/// What was asked of the blocks once the free block at `i` is joined with its
/// free neighbours.
pub open spec fn merged_requests(s: Seq<Chunk>, r: Seq<usize>, i: int) -> Seq<usize> {
    let a = if space::prev_free(s, i) {
        joined_requests(r, i - 1)
    } else {
        r
    };
    let k = space::merged_at(s, i);
    if space::next_free(space::joined_prev(s, i), k) {
        joined_requests(a, k)
    } else {
        a
    }
}

/// What was asked of the blocks that stay when every idle segment goes.
pub open spec fn kept_requests(s: Seq<Chunk>, r: Seq<usize>) -> Seq<usize>
    decreases s.len(),
{
    if s.len() == 0 {
        Seq::empty()
    } else if s.last().idle() {
        kept_requests(s.drop_last(), r.drop_last())
    } else {
        kept_requests(s.drop_last(), r.drop_last()).push(r.last())
    }
}

/// The requests that stay of two sequences laid end to end.
proof fn lemma_kept_requests_add(a: Seq<Chunk>, p: Seq<usize>, b: Seq<Chunk>, q: Seq<usize>)
    requires
        a.len() == p.len(),
        b.len() == q.len(),
    ensures
        kept_requests(a + b, p + q) == kept_requests(a, p) + kept_requests(b, q),
    decreases b.len(),
{
    if b.len() == 0 {
        assert(a + b =~= a);
        assert(p + q =~= p);
        assert(kept_requests(a, p) + kept_requests(b, q) =~= kept_requests(a, p));
    } else {
        lemma_kept_requests_add(a, p, b.drop_last(), q.drop_last());
        assert((a + b).drop_last() =~= a + b.drop_last());
        assert((p + q).drop_last() =~= p + q.drop_last());
        assert(kept_requests(a, p) + kept_requests(b, q) =~= kept_requests(a + b, p + q));
    }
}

/// Dropping one idle segment leaves the requests that stay.
proof fn lemma_kept_requests_remove(s: Seq<Chunk>, r: Seq<usize>, i: int)
    requires
        s.len() == r.len(),
        0 <= i < s.len(),
        s[i].idle(),
    ensures
        kept_requests(s.remove(i), r.remove(i)) == kept_requests(s, r),
{
    let a = s.take(i);
    let p = r.take(i);
    let b = s.skip(i + 1);
    let q = r.skip(i + 1);
    let one = seq![s[i]];
    let ask = seq![r[i]];
    assert(s =~= a + one + b);
    assert(r =~= p + ask + q);
    assert(s.remove(i) =~= a + b);
    assert(r.remove(i) =~= p + q);
    lemma_kept_requests_add(a, p, b, q);
    lemma_kept_requests_add(a, p, one, ask);
    lemma_kept_requests_add(a + one, p + ask, b, q);
    assert(one.last() == s[i]);
    assert(kept_requests(one.drop_last(), ask.drop_last()) =~= Seq::<usize>::empty());
    assert(kept_requests(a, p) + kept_requests(one, ask) =~= kept_requests(a, p));
}

/// Where no segment is idle, every request stays.
proof fn lemma_kept_requests_all(s: Seq<Chunk>, r: Seq<usize>)
    requires
        s.len() == r.len(),
        forall|i: int| 0 <= i < s.len() ==> !(#[trigger] s[i]).idle(),
    ensures
        kept_requests(s, r) == r,
    decreases s.len(),
{
    if s.len() > 0 {
        let t = s.drop_last();
        assert forall|i: int| 0 <= i < t.len() implies !(#[trigger] t[i]).idle() by {
            assert(t[i] == s[i]);
        }
        lemma_kept_requests_all(t, r.drop_last());
        assert(s[s.len() - 1] == s.last());
        assert(r.drop_last().push(r.last()) =~= r);
    } else {
        assert(kept_requests(s, r) =~= r);
    }
}

/// The requests match the chunks.
pub open spec fn matching(s: Seq<Chunk>, r: Seq<usize>) -> bool {
    &&& r.len() == s.len()
    &&& forall|i: int|
        0 <= i < s.len() ==> if (#[trigger] s[i]).free {
            r[i] == 0
        } else {
            0 < r[i] <= s[i].size
        }
}

/// Joining free neighbours keeps the requests matched.
proof fn lemma_joined_requests(s: Seq<Chunk>, r: Seq<usize>, i: int)
    requires
        space::tiled(s),
        space::mergeable(s, i),
        matching(s, r),
    ensures
        matching(space::joined(s, i), joined_requests(r, i)),
{
    space::lemma_joined(s, i);
    let t = space::joined(s, i);
    let q = joined_requests(r, i);
    assert forall|k: int| 0 <= k < t.len() implies if (#[trigger] t[k]).free {
        q[k] == 0
    } else {
        0 < q[k] <= t[k].size
    } by {
        if k < i {
            assert(t[k] == s[k]);
        } else if k > i {
            assert(t[k] == s[k + 1]);
        }
    }
}

/// Merging a free block keeps the requests matched.
proof fn lemma_merged_requests(s: Seq<Chunk>, r: Seq<usize>, i: int)
    requires
        space::tiled(s),
        0 <= i < s.len(),
        s[i].free,
        forall|k: int| k != i && k != i - 1 ==> !#[trigger] space::mergeable(s, k),
        matching(s, r),
    ensures
        matching(space::merged(s, i), merged_requests(s, r, i)),
{
    space::lemma_merged(s, i);
    let a = space::joined_prev(s, i);
    let k = space::merged_at(s, i);
    if space::prev_free(s, i) {
        assert(space::mergeable(s, i - 1));
        lemma_joined_requests(s, r, i - 1);
    }
    if space::next_free(a, k) {
        assert(space::mergeable(a, k));
        lemma_joined_requests(
            a,
            if space::prev_free(s, i) {
                joined_requests(r, i - 1)
            } else {
                r
            },
            k,
        );
    }
}

/// Where an idle entry stands in the order.
proof fn lemma_idle_at(s: Seq<Chunk>, order: Seq<(usize, usize)>, i: int) -> (x: int)
    requires
        0 <= i < idle_entries(s, order).len(),
    ensures
        0 <= x < order.len(),
        order[x] == (idle_entries(s, order)[i].1, idle_entries(s, order)[i].0),
    decreases order.len(),
{
    let rest = idle_entries(s, order.drop_last());
    if i < rest.len() {
        lemma_idle_at(s, order.drop_last(), i)
    } else {
        order.len() - 1
    }
}

/// Of two idle entries, the first stands first in the order.
proof fn lemma_idle_pair(s: Seq<Chunk>, order: Seq<(usize, usize)>, i: int, j: int) -> (r: (
    int,
    int,
))
    requires
        0 <= i < j < idle_entries(s, order).len(),
    ensures
        0 <= r.0 < r.1 < order.len(),
        order[r.0] == (idle_entries(s, order)[i].1, idle_entries(s, order)[i].0),
        order[r.1] == (idle_entries(s, order)[j].1, idle_entries(s, order)[j].0),
    decreases order.len(),
{
    let rest = idle_entries(s, order.drop_last());
    if j < rest.len() {
        lemma_idle_pair(s, order.drop_last(), i, j)
    } else {
        (lemma_idle_at(s, order.drop_last(), i), order.len() - 1)
    }
}

impl State {
    /// An entry of the order is of a free block, of the small pool as long as those
    /// last.
    proof fn lemma_order_entry(&self, x: int)
        requires
            self.wf(),
            0 <= x < self.free_order().len(),
        ensures
            ({
                let c = self.chunks()[space::rank(
                    self.chunks(),
                    self.free_order()[x].1 as int,
                )];
                &&& c.free
                &&& c.small == (x < self.pools.order(true).len())
            }),
    {
        let s = self.chunks();
        let k = self.free_order()[x];
        let a = self.pools.order(true);
        let small = x < a.len();
        assert(self.pools.order(small).contains(k)) by {
            if small {
                assert(a[x] == k);
            } else {
                assert(self.pools.order(false)[x - a.len()] == k);
            }
        }
        assert(self.pool(small).contains(k));
        assert(ledger::keys(s, small).contains(k));
        let j = choose|j: int|
            0 <= j < s.len() && (#[trigger] s[j]).pooled(small) && s[j].key() == k;
        assert(s[j].ok());
        space::lemma_rank_at(s, j);
    }

    /// The segments go back in order: those of the small pool first, and in either
    /// pool the shorter ones first, of one length the lower ones.
    pub proof fn law_drained_in_order(&self, i: int, j: int)
        requires
            self.wf(),
            0 <= i < j < idle_entries(self.chunks(), self.free_order()).len(),
        ensures
            ({
                let s = self.chunks();
                let v = idle_entries(s, self.free_order());
                let a = s[space::rank(s, v[i].0 as int)];
                let b = s[space::rank(s, v[j].0 as int)];
                &&& b.small ==> a.small
                &&& a.small == b.small ==> v[i].1 < v[j].1 || (v[i].1 == v[j].1 && v[i].0
                    < v[j].0)
            }),
    {
        let s = self.chunks();
        let order = self.free_order();
        let (x, y) = lemma_idle_pair(s, order, i, j);
        let n = self.pools.order(true).len();
        self.lemma_order_entry(x);
        self.lemma_order_entry(y);
        if y < n {
            assert(super::super::pool::before(
                self.pools.order(true)[x],
                self.pools.order(true)[y],
            ));
        } else if x >= n {
            assert(super::super::pool::before(
                self.pools.order(false)[x - n],
                self.pools.order(false)[y - n],
            ));
        }
    }
}

/// Joining two blocks leaves what the others are down for; the joined block is down
/// for nothing.
pub proof fn law_joining_keeps_other_requests(r: Seq<usize>, i: int, k: int)
    requires
        0 <= i < r.len() - 1,
        0 <= k < r.len(),
        k != i,
        k != i + 1,
    ensures
        joined_requests(r, i).len() == r.len() - 1,
        joined_requests(r, i)[i] == 0,
        joined_requests(r, i)[if k < i {
            k
        } else {
            k - 1
        }] == r[k],
{
}

} // verus!

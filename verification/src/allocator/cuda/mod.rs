//! CUDA: size rules, and a caching allocator of its own for CUDA devices.
//!
//! Device calls are expensive and synchronize, so memory is not given back when
//! a pointer is released: the block returns to a pool and is used again.
//!
//! * **Two pools per device**: requests of at most 1 MiB come from the *small*
//!   pool (2 MiB segments), larger ones from the *large* pool (20 MiB segments,
//!   or 2 MiB-rounded ones from 10 MiB on).
//! * **Size rounding**: every request rounds up to a multiple of 512 bytes, so
//!   cached blocks fit many similar request sizes.
//! * **Splitting**: a block much larger than the request is split; the rest goes
//!   back into the pool.
//! * **Coalescing**: freed blocks merge with free neighbours, so segments
//!   reassemble.
use vstd::prelude::*;

use super::backing;
use super::ledger::{self, Measure};
use super::registry::{self, Registry};
use super::space::{self, Chunk};
use super::traits::{checked_round_up, CachePolicy};
use super::{AllocError, DataPtr, Deleter, Layout, Reclaim, Release};
use crate::config::{memory_caching, Settings};
use crate::device::Device;

pub mod laws;
pub mod state;

pub use state::CacheStats;
use state::State;

verus! {

/// All request sizes round up to a multiple of this.
pub const K_MIN_BLOCK_SIZE: usize = 512;

/// Largest request served by the small pool: 1 MiB.
pub const K_SMALL_SIZE: usize = 0x10_0000;

/// Segment size of the small pool: 2 MiB.
pub const K_SMALL_BUFFER: usize = 0x20_0000;

/// Requests from here on get a segment of their own size: 10 MiB.
pub const K_MIN_LARGE_ALLOC: usize = 0xA0_0000;

/// Segment size of large requests below [`K_MIN_LARGE_ALLOC`]: 20 MiB.
pub const K_LARGE_BUFFER: usize = 0x140_0000;

/// Segments of very large requests round up to a multiple of this: 2 MiB.
pub const K_ROUND_LARGE: usize = 0x20_0000;

// ---------------------------------------------------------------------
// Sizes
// ---------------------------------------------------------------------

/// The block size for a request: in whole [`K_MIN_BLOCK_SIZE`], at least one.
pub open spec fn rounded(n: int) -> int {
    super::traits::round_up(
        if n >= K_MIN_BLOCK_SIZE {
            n
        } else {
            K_MIN_BLOCK_SIZE as int
        },
        K_MIN_BLOCK_SIZE as int,
    )
}

/// The segment size for a block size.
pub open spec fn segment(size: int) -> int {
    if size <= K_SMALL_SIZE {
        K_SMALL_BUFFER as int
    } else if size < K_MIN_LARGE_ALLOC {
        K_LARGE_BUFFER as int
    } else {
        super::traits::round_up(size, K_ROUND_LARGE as int)
    }
}

/// The rest of a block is worth keeping.
pub open spec fn worth_splitting(small: bool, remaining: int) -> bool {
    if small {
        remaining >= K_MIN_BLOCK_SIZE
    } else {
        remaining > K_SMALL_SIZE
    }
}

/// The block and the segment for a request are within the address space.
pub open spec fn sizes_fit(n: int) -> bool {
    rounded(n) <= usize::MAX && segment(rounded(n)) <= usize::MAX
}

/// Segments come in whole [`K_ROUND_LARGE`], hence in whole [`K_MIN_BLOCK_SIZE`],
/// and hold their block.
pub proof fn lemma_segment(size: int)
    requires
        0 <= size,
    ensures
        size <= segment(size),
        segment(size) % K_ROUND_LARGE as int == 0,
        segment(size) % K_MIN_BLOCK_SIZE as int == 0,
{
    super::traits::lemma_round_up(size, K_ROUND_LARGE as int);
    let q = segment(size) / 2097152;
    assert(segment(size) == 512 * (4096 * q));
}

/// A block holds its request and wastes less than [`K_MIN_BLOCK_SIZE`] beyond the
/// least block; a segment holds its block. Both are whole multiples.
pub proof fn law_sizes(n: int)
    requires
        0 < n,
    ensures
        n <= rounded(n),
        rounded(n) < n + K_MIN_BLOCK_SIZE,
        rounded(n) >= K_MIN_BLOCK_SIZE,
        rounded(n) % K_MIN_BLOCK_SIZE as int == 0,
        rounded(n) <= segment(rounded(n)),
        segment(rounded(n)) % K_ROUND_LARGE as int == 0,
        rounded(rounded(n)) == rounded(n),
{
    let m = if n >= K_MIN_BLOCK_SIZE {
        n
    } else {
        K_MIN_BLOCK_SIZE as int
    };
    super::traits::lemma_round_up(m, K_MIN_BLOCK_SIZE as int);
    lemma_segment(rounded(n));
    super::traits::lemma_round_up_unique(rounded(n), K_MIN_BLOCK_SIZE as int, rounded(n));
    if n < K_MIN_BLOCK_SIZE {
        super::traits::lemma_round_up_unique(
            K_MIN_BLOCK_SIZE as int,
            K_MIN_BLOCK_SIZE as int,
            K_MIN_BLOCK_SIZE as int,
        );
    }
}

/// A larger request never gets a smaller block.
pub proof fn law_rounding_is_monotone(n: int, m: int)
    requires
        0 < n <= m,
    ensures
        rounded(n) <= rounded(m),
{
    law_sizes(m);
    law_rounding_is_least(n, rounded(m));
}

/// The block for a request is the least there is: no smaller whole multiple of 512
/// bytes, above zero, holds it.
pub proof fn law_rounding_is_least(n: int, m: int)
    requires
        0 <= n <= m,
        0 < m,
        m % 512 == 0,
    ensures
        0 < rounded(n),
        n <= rounded(n) <= m,
        rounded(n) % 512 == 0,
{
    super::traits::lemma_round_up(
        if n >= K_MIN_BLOCK_SIZE {
            n
        } else {
            K_MIN_BLOCK_SIZE as int
        },
        512,
    );
}

/// Blocks of at most 1 MiB share segments of 2 MiB, larger ones below 10 MiB
/// segments of 20 MiB. From there on a block has a segment of its own, which is
/// tight: it is in whole 2 MiB and wastes less than that.
pub proof fn law_segments_are_tight(size: int)
    requires
        0 <= size,
    ensures
        size <= segment(size),
        segment(size) % 0x20_0000 == 0,
        size <= 0x10_0000 ==> segment(size) == 0x20_0000,
        0x10_0000 < size < 0xA0_0000 ==> segment(size) == 0x140_0000,
        0xA0_0000 <= size ==> segment(size) < size + 0x20_0000,
{
    super::traits::lemma_round_up(size, 0x20_0000);
}

/// A rest that is worth keeping stays worth keeping when it is larger; what is not
/// kept is below 512 bytes in the small pool and at most 1 MiB in the large one,
/// and what is kept is not.
pub proof fn law_splitting_bounds_waste(small: bool, a: int, b: int)
    requires
        a <= b,
    ensures
        worth_splitting(small, a) ==> worth_splitting(small, b),
        !worth_splitting(small, a) ==> a < (if small {
            512int
        } else {
            0x10_0001
        }),
        worth_splitting(small, a) ==> a >= (if small {
            512int
        } else {
            0x10_0001
        }),
{
}

/// A request fits if and only if some whole multiple of 2 MiB within the address
/// space holds it; then its segment is one.
pub proof fn law_requests_fit(n: int, m: int)
    requires
        0 <= n,
    ensures
        n <= m <= usize::MAX && m % 0x20_0000 == 0 && 0 < m ==> sizes_fit(n),
        sizes_fit(n) ==> n <= rounded(n) <= segment(rounded(n)) <= usize::MAX,
        sizes_fit(n) ==> segment(rounded(n)) % 0x20_0000 == 0,
{
    let at_least = if n >= K_MIN_BLOCK_SIZE {
        n
    } else {
        K_MIN_BLOCK_SIZE as int
    };
    super::traits::lemma_round_up(at_least, 512);
    let r = rounded(n);
    law_segments_are_tight(r);
    if n <= m <= usize::MAX && m % 0x20_0000 == 0 && 0 < m {
        assert(m >= 0x20_0000);
        assert(m % 512 == 0);
        law_rounding_is_least(n, m);
        assert(usize::MAX >= 0xffff_ffff);
        if r >= K_MIN_LARGE_ALLOC {
            super::traits::lemma_round_up_least(r, 0x20_0000, m);
        }
    }
}

/// The policy of CUDA devices goes by these rules, whatever is held already, and
/// takes every request.
pub proof fn law_policy_goes_by_the_rules(
    nbytes: usize,
    size: usize,
    reserved: usize,
    small: bool,
)
    ensures
        CudaPolicy.spec_alignment() == 512,
        rounded(nbytes as int) <= usize::MAX ==> CudaPolicy.spec_round_size(nbytes) == rounded(
            nbytes as int,
        ),
        segment(size as int) <= usize::MAX ==> CudaPolicy.spec_segment_size(size, reserved)
            == segment(size as int),
        CudaPolicy.spec_should_split(small, size) == worth_splitting(small, size as int),
        CudaPolicy.refusal(nbytes) is None,
        CudaPolicy.fits(nbytes) == sizes_fit(nbytes as int),
        CudaPolicy.can_round(nbytes) == (rounded(nbytes as int) <= usize::MAX),
        CudaPolicy.can_segment(size, reserved) == (segment(size as int) <= usize::MAX),
        CudaPolicy.valid(),
{
    law_rounding_is_least(nbytes as int, 512 * (nbytes as int + 1));
    law_segments_are_tight(size as int);
}

/// The block size for a request.
pub fn round_size(size: usize) -> (r: usize)
    requires
        rounded(size as int) <= usize::MAX,
    ensures
        r == rounded(size as int),
{
    let at_least: usize = if size >= K_MIN_BLOCK_SIZE {
        size
    } else {
        K_MIN_BLOCK_SIZE
    };
    checked_round_up(at_least, K_MIN_BLOCK_SIZE).unwrap()
}

/// How many bytes to ask of the device for a block of `size` bytes.
pub fn segment_size(size: usize) -> (r: usize)
    requires
        segment(size as int) <= usize::MAX,
    ensures
        r == segment(size as int),
{
    if size <= K_SMALL_SIZE {
        K_SMALL_BUFFER
    } else if size < K_MIN_LARGE_ALLOC {
        K_LARGE_BUFFER
    } else {
        checked_round_up(size, K_ROUND_LARGE).unwrap()
    }
}

/// Whether the rest of a block is worth keeping.
pub fn should_split(small: bool, remaining: usize) -> (r: bool)
    ensures
        r == worth_splitting(small, remaining as int),
{
    if small {
        remaining >= K_MIN_BLOCK_SIZE
    } else {
        remaining > K_SMALL_SIZE
    }
}

/// Tests whether the block and the segment for a request are within the address
/// space.
pub fn request_fits(nbytes: usize) -> (r: bool)
    ensures
        r == sizes_fit(nbytes as int),
{
    let at_least: usize = if nbytes >= K_MIN_BLOCK_SIZE {
        nbytes
    } else {
        K_MIN_BLOCK_SIZE
    };
    match checked_round_up(at_least, K_MIN_BLOCK_SIZE) {
        None => false,
        Some(size) => size < K_MIN_LARGE_ALLOC || checked_round_up(size, K_ROUND_LARGE).is_some(),
    }
}

/// What the device can give of whole [`K_MIN_BLOCK_SIZE`] has a layout at
/// [`K_MIN_BLOCK_SIZE`].
pub proof fn lemma_block_layout(size: int)
    requires
        0 <= size <= isize::MAX,
        size % K_MIN_BLOCK_SIZE as int == 0,
    ensures
        super::layout_fits(size, K_MIN_BLOCK_SIZE as int),
{
    super::lemma_alignments();
}

// ---------------------------------------------------------------------
// The policy
// ---------------------------------------------------------------------

/// The size rules of CUDA devices.
#[derive(Debug, Clone, Copy, PartialEq, Eq, Structural)]
pub struct CudaPolicy;

impl CachePolicy for CudaPolicy {
    open spec fn valid(&self) -> bool {
        true
    }

    open spec fn spec_alignment(&self) -> usize {
        K_MIN_BLOCK_SIZE
    }

    open spec fn spec_round_size(&self, nbytes: usize) -> usize {
        rounded(nbytes as int) as usize
    }

    open spec fn spec_should_split(&self, small: bool, remaining: usize) -> bool {
        worth_splitting(small, remaining as int)
    }

    open spec fn spec_segment_size(&self, size: usize, reserved: usize) -> usize {
        segment(size as int) as usize
    }

    open spec fn refusal(&self, nbytes: usize) -> Option<AllocError> {
        None
    }

    open spec fn fits(&self, nbytes: usize) -> bool {
        sizes_fit(nbytes as int)
    }

    open spec fn can_round(&self, nbytes: usize) -> bool {
        rounded(nbytes as int) <= usize::MAX
    }

    open spec fn can_segment(&self, size: usize, reserved: usize) -> bool {
        segment(size as int) <= usize::MAX
    }

    open spec fn block_size(&self, size: usize) -> bool {
        segment(size as int) <= usize::MAX
    }

    fn alignment(&self) -> usize {
        K_MIN_BLOCK_SIZE
    }

    fn round_size(&self, nbytes: usize) -> usize {
        proof {
            if nbytes > 0 {
                law_sizes(nbytes as int);
            }
        }
        round_size(nbytes)
    }

    fn should_split(&self, small: bool, remaining: usize) -> bool {
        should_split(small, remaining)
    }

    fn segment_size(&self, size: usize, reserved: usize) -> usize {
        proof {
            let seg = segment(size as int);
            lemma_segment(size as int);
            if seg <= isize::MAX {
                lemma_block_layout(seg);
            }
        }
        segment_size(size)
    }

    fn check_request(&self, nbytes: usize) -> Result<(), AllocError> {
        Ok(())
    }

    fn check_layout(&self, nbytes: usize) -> Result<(), AllocError> {
        if request_fits(nbytes) {
            Ok(())
        } else {
            Err(AllocError::InvalidLayout)
        }
    }
}

// ---------------------------------------------------------------------
// The allocator
// ---------------------------------------------------------------------

/// A request to a device.
pub struct Ask {
    /// How many bytes were asked for.
    pub bytes: usize,
    /// The regions that were handed out and not freed at that time.
    pub live: Map<usize, usize>,
    /// The address of the memory, or null.
    pub ptr: usize,
}

/// Raw device memory operations, abstracted so that the caching logic does not
/// depend on a device. Each backend says what it holds; the spec functions here
/// only stand in where it does not.
pub trait DeviceBackend: Sized {
    /// The regions handed out and not freed.
    open spec fn live(&self) -> Map<usize, usize> {
        Map::empty()
    }

    /// What was asked so far, in order.
    open spec fn log(&self) -> Seq<Ask> {
        Seq::empty()
    }

    /// Allocates `nbytes` on the device; returns the null address on failure. The
    /// memory lies apart from all that is handed out, and is no longer than
    /// memory can be. No bytes need no memory.
    fn device_alloc(&mut self, nbytes: usize) -> (ptr: usize)
        ensures
            final(self).log() == old(self).log().push(
                Ask { bytes: nbytes, live: old(self).live(), ptr },
            ),
            if ptr == 0 || nbytes == 0 {
                final(self).live() == old(self).live()
            } else {
                &&& nbytes <= isize::MAX
                &&& super::fresh(old(self).live(), ptr as int, nbytes as int)
                &&& final(self).live() == old(self).live().insert(ptr, nbytes)
            },
    ;

    /// Frees memory that was handed out.
    fn device_free(&mut self, ptr: usize)
        requires
            old(self).live().contains_key(ptr),
        ensures
            final(self).log() == old(self).log(),
            final(self).live() == old(self).live().remove(ptr),
    ;
}

/// What an allocator keeps of its memory.
pub struct Books {
    /// The blocks, in address order.
    pub chunks: Seq<Chunk>,
    /// What was asked of each block, in the same order; 0 of a free one.
    pub requests: Seq<usize>,
    /// The counters.
    pub counters: CacheStats,
}

/// The books after the idle segments went back.
pub open spec fn emptied(b: Books) -> Books {
    Books {
        chunks: space::kept(b.chunks),
        requests: state::kept_requests(b.chunks, b.requests),
        counters: b.counters.released(
            ledger::sum(space::idle_segments(b.chunks), Measure::Bytes),
            space::idle_segments(b.chunks).len() as int,
        ),
    }
}

/// The books after the block of `size` bytes at an address came back.
pub open spec fn given_back(b: Books, addr: int, size: int) -> Books {
    let i = space::rank(b.chunks, addr);
    Books {
        chunks: space::freed(b.chunks, i),
        requests: state::merged_requests(
            space::marked(b.chunks, i),
            b.requests.update(i, 0usize),
            i,
        ),
        counters: b.counters.returned(size),
    }
}

/// The books after a segment came in, as one free block.
pub open spec fn widened(b: Books, c: Chunk) -> Books {
    Books {
        chunks: space::grown(b.chunks, c),
        requests: b.requests.insert(space::rank(b.chunks, c.ptr), 0usize),
        counters: b.counters.reserved(c.size),
    }
}

/// The books after a request for `nbytes`, which needs a block of `size` bytes,
/// was served from the free block at `i`.
pub open spec fn taken(b: Books, i: int, size: int, nbytes: usize) -> Books {
    let split = worth_splitting(b.chunks[i].small, b.chunks[i].size - size);
    Books {
        chunks: space::taken(b.chunks, i, size, split),
        requests: (if split {
            b.requests.insert(i + 1, 0usize)
        } else {
            b.requests
        }).update(i, nbytes),
        counters: b.counters.handed_out(taken_size(b.chunks[i], size)),
    }
}

/// How many bytes a request for a block of `size` bytes takes from a free block.
pub open spec fn taken_size(c: Chunk, size: int) -> int {
    if worth_splitting(c.small, c.size - size) {
        size
    } else {
        c.size
    }
}

/// The pointer is to the first bytes of a chunk, from which a request for a block
/// of `size` bytes was served.
pub open spec fn points_to(d: DataPtr, c: Chunk, size: int) -> bool {
    let n = taken_size(c, size);
    &&& d.addr() == c.ptr
    &&& d.layout().spec_size() == n
    &&& d.layout().spec_align() == K_MIN_BLOCK_SIZE
    &&& d.deleter() == Deleter::Custom(Reclaim::Block { size: n as usize })
}

/// What serving a request for `nbytes` from a fresh segment makes of the books and
/// the regions.
pub open spec fn carved(
    nbytes: usize,
    b: Books,
    live: Map<usize, usize>,
    b2: Books,
    live2: Map<usize, usize>,
    d: DataPtr,
) -> bool {
    let size = rounded(nbytes as int);
    let seg = segment(size);
    let c = space::segment(d.addr() as int, seg, size <= K_SMALL_SIZE, true);
    &&& super::fresh(live, d.addr() as int, seg)
    &&& live2 == live.insert(d.addr(), seg as usize)
    &&& b2 == taken(widened(b, c), space::rank(b.chunks, c.ptr), size, nbytes)
    &&& points_to(d, c, size)
}

/// A caching allocator for one CUDA device.
pub struct CachingAllocator<B: DeviceBackend> {
    device_index: usize,
    backend: B,
    state: State,
}

impl<B: DeviceBackend> CachingAllocator<B> {
    /// The blocks, in address order.
    pub closed spec fn chunks(&self) -> Seq<Chunk> {
        self.state.chunks()
    }

    /// What was asked of each block, in address order; 0 of a free one.
    pub closed spec fn requests(&self) -> Seq<usize> {
        self.state.requests()
    }

    /// The counters.
    pub closed spec fn counters(&self) -> CacheStats {
        self.state.stats()
    }

    /// What the allocator keeps of its memory.
    pub open spec fn books(&self) -> Books {
        Books { chunks: self.chunks(), requests: self.requests(), counters: self.counters() }
    }

    /// The regions that the device has handed out.
    pub closed spec fn live(&self) -> Map<usize, usize> {
        self.backend.live()
    }

    /// What the device was asked so far.
    pub closed spec fn log(&self) -> Seq<Ask> {
        self.backend.log()
    }

    /// The device.
    pub closed spec fn index(&self) -> usize {
        self.device_index
    }

    /// Blocks, pools, requests and counters agree.
    pub closed spec fn state_wf(&self) -> bool {
        self.state.wf()
    }

    /// The bookkeeping is sound, every segment is a live region of the device,
    /// and its blocks have layouts.
    pub open spec fn wf(&self) -> bool {
        &&& self.state_wf()
        &&& backing::backed(self.chunks(), self.live(), K_MIN_BLOCK_SIZE as int)
    }

    /// The pointer came from this allocator and was not released: it owns
    /// nothing, or a block in use, or uncached memory of the device.
    pub open spec fn owns(&self, d: DataPtr) -> bool {
        owned(self.chunks(), self.live(), d)
    }

    /// Nothing changed but what cannot be seen.
    pub open spec fn same_as(&self, other: &Self) -> bool {
        &&& self.books() == other.books()
        &&& self.live() == other.live()
        &&& self.log() == other.log()
        &&& self.index() == other.index()
    }

    /// An allocator with an empty cache.
    pub fn new(device_index: usize, backend: B) -> (a: Self)
        ensures
            a.wf(),
            a.chunks() == Seq::<Chunk>::empty(),
            a.requests() == Seq::<usize>::empty(),
            a.counters() == CacheStats::zero(),
            a.live() == backend.live(),
            a.log() == backend.log(),
            a.index() == device_index,
    {
        CachingAllocator { device_index, backend, state: State::new() }
    }

    /// Snapshot of the allocator's statistics.
    pub fn stats(&self) -> (s: CacheStats)
        ensures
            s == self.counters(),
    {
        self.state.get_stats()
    }

    /// The device the memory lives on.
    pub fn device(&self) -> (d: Device)
        ensures
            d == Device::Cuda(self.index()),
    {
        Device::Cuda(self.device_index)
    }

    /// Returns all cached (unused) memory to the device.
    pub fn empty_cache(&mut self)
        requires
            old(self).wf(),
        ensures
            final(self).wf(),
            final(self).books() == emptied(old(self).books()),
            final(self).live() == backing::without_segments(
                old(self).live(),
                space::idle_segments(old(self).chunks()),
            ),
            final(self).log() == old(self).log(),
            final(self).index() == old(self).index(),
            final(self).counters().peaks_follow(old(self).counters()),
            backing::apart(old(self).live()) ==> backing::apart(final(self).live()),
            forall|d: DataPtr| old(self).owns(d) ==> #[trigger] final(self).owns(d),
    {
        let ghost s = self.chunks();
        let ghost live = self.live();
        let freed: Vec<(usize, usize)> = self.state.drain_free_blocks();
        let ghost gone = state::starts(freed@);
        proof {
            backing::lemma_idle_backed(s, live, K_MIN_BLOCK_SIZE as int);
            backing::lemma_kept_backed(s, live, K_MIN_BLOCK_SIZE as int);
            assert forall|i: int| 0 <= i < gone.len() implies live.contains_key(
                #[trigger] gone[i],
            ) by {
                assert(gone.contains(gone[i]));
                assert(gone.to_set().contains(gone[i]));
                let b = space::bases(space::idle_segments(s));
                assert(b.to_set().contains(gone[i]));
                let k = choose|k: int| 0 <= k < b.len() && b[k] == gone[i];
                assert(live.contains_key(space::idle_segments(s)[k].base as usize));
            }
            assert(live.remove_keys(gone.take(0).to_set()) =~= live);
        }
        let ghost drained = *self;
        let mut k: usize = 0;
        while k < freed.len()
            invariant
                k <= freed.len(),
                gone == state::starts(freed@),
                state::distinct_starts(freed@),
                forall|i: int| 0 <= i < gone.len() ==> live.contains_key(#[trigger] gone[i]),
                self.live() == live.remove_keys(gone.take(k as int).to_set()),
                self.log() == drained.log(),
                self.state == drained.state,
                self.device_index == drained.device_index,
            decreases freed.len() - k,
        {
            let (ptr, _size): (usize, usize) = freed[k];
            proof {
                assert(ptr == gone[k as int]);
                assert(!gone.take(k as int).contains(ptr)) by {
                    if gone.take(k as int).contains(ptr) {
                        let j = choose|j: int|
                            0 <= j < gone.take(k as int).len() && gone.take(k as int)[j] == ptr;
                        assert(freed@[j].0 != freed@[k as int].0);
                    }
                }
                assert(live.contains_key(gone[k as int]));
                backing::lemma_remove_next(live, gone, k as int);
            }
            self.backend.device_free(ptr);
            k = k + 1;
        }
        proof {
            assert(gone.take(k as int) =~= gone);
            ledger::lemma_sums(s);
            if backing::apart(live) {
                backing::lemma_apart_fewer(live, self.live());
            }
            assert forall|d: DataPtr| old(self).owns(d) implies #[trigger] self.owns(d) by {
                match d.release_spec() {
                    Release::Custom { addr, reclaim: Reclaim::Block { size } } => {
                        space::lemma_kept_keeps(s, addr as int, size as int);
                    },
                    Release::Custom { addr, reclaim: Reclaim::Backend } => {
                        backing::lemma_uncached_kept(s, live, addr);
                    },
                    _ => {},
                }
            }
        }
    }

    /// Asks the device for a segment and takes it in. Returns its address, or the
    /// null address.
    fn alloc_segment(&mut self, seg_size: usize, small: bool) -> (ptr: usize)
        requires
            old(self).wf(),
            seg_size > 0,
            seg_size % K_MIN_BLOCK_SIZE == 0,
            old(self).counters().num_device_alloc < u64::MAX,
        ensures
            final(self).index() == old(self).index(),
            final(self).log() == old(self).log().push(
                Ask { bytes: seg_size, live: old(self).live(), ptr },
            ),
            if ptr == 0 {
                &&& final(self).wf()
                &&& final(self).books() == old(self).books()
                &&& final(self).live() == old(self).live()
            } else {
                let s = old(self).chunks();
                let c = space::segment(ptr as int, seg_size as int, small, false);
                &&& super::fresh(old(self).live(), ptr as int, seg_size as int)
                &&& space::clear_of(s, ptr as int, seg_size as int)
                &&& final(self).live() == old(self).live().insert(ptr, seg_size)
                &&& final(self).state.pools_match()
                &&& final(self).books() == widened(old(self).books(), c)
                &&& old(self).counters().reserved_bytes + seg_size <= usize::MAX
                &&& backing::backed(
                    final(self).chunks(),
                    final(self).live(),
                    K_MIN_BLOCK_SIZE as int,
                )
            },
    {
        let ghost s = self.chunks();
        let ghost live = self.live();
        let ptr: usize = self.backend.device_alloc(seg_size);
        if ptr != 0 {
            proof {
                let c = space::segment(ptr as int, seg_size as int, small, false);
                lemma_block_layout(seg_size as int);
                backing::lemma_fresh_clear(s, live, K_MIN_BLOCK_SIZE as int, ptr, seg_size);
                backing::lemma_grown_backed(s, live, K_MIN_BLOCK_SIZE as int, c);
            }
            self.state.add_segment(ptr, seg_size, small);
        }
        ptr
    }

    /// Sets down a request for the block taken at `ptr`, and the pointer to it.
    fn make_data_ptr(&mut self, ptr: usize, size: usize, nbytes: usize) -> (d: DataPtr)
        requires
            space::starts_at(old(self).chunks(), ptr as int),
            old(self).state.pending(space::rank(old(self).chunks(), ptr as int)),
            backing::backed(old(self).chunks(), old(self).live(), K_MIN_BLOCK_SIZE as int),
            0 < nbytes <= size,
            size <= old(self).chunks()[space::rank(old(self).chunks(), ptr as int)].size,
        ensures
            final(self).wf(),
            final(self).live() == old(self).live(),
            final(self).log() == old(self).log(),
            final(self).index() == old(self).index(),
            final(self).owns(d),
            ({
                let s = old(self).chunks();
                let i = space::rank(s, ptr as int);
                let split = worth_splitting(s[i].small, s[i].size - size);
                &&& final(self).chunks() == (if split {
                    space::cut(s, i, size as int)
                } else {
                    s
                })
                &&& final(self).requests() == (if split {
                    old(self).requests().insert(i + 1, 0usize)
                } else {
                    old(self).requests()
                }).update(i, nbytes)
                &&& final(self).counters() == old(self).counters().handed_out(
                    taken_size(s[i], size as int),
                )
                &&& old(self).counters().allocated_bytes + taken_size(s[i], size as int)
                    <= usize::MAX
                &&& points_to(d, s[i], size as int)
            }),
    {
        let ghost s = self.chunks();
        let ghost i = space::rank(s, ptr as int);
        let ghost split = worth_splitting(s[i].small, s[i].size - size);
        proof {
            assert(s[i].ok());
            assert(backing::backed(s, self.live(), K_MIN_BLOCK_SIZE as int));
            assert(super::layout_fits(s[i].seg, K_MIN_BLOCK_SIZE as int));
        }
        let block_size: usize = self.state.set_down(ptr, size, nbytes);
        proof {
            let t = self.chunks();
            assert(t[i].ptr == ptr && t[i].size == block_size && !t[i].free);
            assert forall|j: int| 0 <= j < t.len() implies {
                &&& self.live().contains_key((#[trigger] t[j]).base as usize)
                &&& self.live()[t[j].base as usize] == t[j].seg
                &&& super::layout_fits(t[j].seg, K_MIN_BLOCK_SIZE as int)
            } by {
                let k = if split && j > i {
                    j - 1
                } else {
                    j
                };
                assert(t[j].base == s[k].base && t[j].seg == s[k].seg);
            }
        }
        let layout: Layout = Layout::from_size_align(block_size, K_MIN_BLOCK_SIZE).unwrap();
        DataPtr::with_deleter(ptr, layout, Reclaim::Block { size: block_size })
    }

    /// A request for `nbytes` went past the cache: the device gave the memory, or
    /// it had none.
    pub open spec fn passes_on(
        &self,
        before: &Self,
        nbytes: usize,
        r: Result<DataPtr, AllocError>,
    ) -> bool {
        &&& self.books() == before.books()
        &&& self.index() == before.index()
        &&& match r {
            Ok(d) => {
                &&& nbytes <= isize::MAX
                &&& super::fresh(before.live(), d.addr() as int, nbytes as int)
                &&& self.live() == before.live().insert(d.addr(), nbytes)
                &&& self.log() == before.log().push(
                    Ask { bytes: nbytes, live: before.live(), ptr: d.addr() },
                )
                &&& d.layout().spec_size() == nbytes
                &&& d.layout().spec_align() == 1
                &&& d.deleter() == Deleter::Custom(Reclaim::Backend)
            },
            Err(e) => {
                &&& self.live() == before.live()
                &&& self.log() == before.log().push(
                    Ask { bytes: nbytes, live: before.live(), ptr: 0 },
                )
                &&& e == (AllocError::CudaOutOfMemory {
                    bytes: nbytes,
                    device_index: before.index(),
                })
            },
        }
    }

    /// Asks the device for exactly `nbytes`, past the cache.
    fn allocate_uncached(&mut self, nbytes: usize) -> (r: Result<DataPtr, AllocError>)
        requires
            old(self).wf(),
            nbytes > 0,
        ensures
            final(self).wf(),
            final(self).passes_on(old(self), nbytes, r),
            r matches Ok(d) ==> final(self).owns(d),
            final(self).counters().peaks_follow(old(self).counters()),
            backing::apart(old(self).live()) ==> backing::apart(final(self).live()),
            forall|d: DataPtr| old(self).owns(d) ==> #[trigger] final(self).owns(d),
    {
        let ghost s = self.chunks();
        let ghost live = self.live();
        let ptr: usize = self.backend.device_alloc(nbytes);
        if ptr == 0 {
            return Err(
                AllocError::CudaOutOfMemory { bytes: nbytes, device_index: self.device_index },
            );
        }
        proof {
            super::lemma_alignments();
            backing::lemma_uncached(s, live, K_MIN_BLOCK_SIZE as int, ptr, nbytes);
            if backing::apart(live) {
                backing::lemma_apart_insert(live, ptr, nbytes);
            }
        }
        let layout: Layout = Layout::from_size_align(nbytes, 1).unwrap();
        Ok(DataPtr::with_deleter(ptr, layout, Reclaim::Backend))
    }

    /// A request for `nbytes` was counted, and met from the cache, without the
    /// device; or else from a segment that the device gave; or else, since the
    /// device gave none, from a segment that it gave once the cache was emptied;
    /// or else, since the device gave none again, not at all. When the device is
    /// asked again, the idle segments are back with it.
    pub open spec fn meets(
        &self,
        before: &Self,
        nbytes: usize,
        r: Result<DataPtr, AllocError>,
    ) -> bool {
        let s = before.chunks();
        let b = Books { counters: before.counters().requested(), ..before.books() };
        let size = rounded(nbytes as int);
        let seg = segment(size) as usize;
        let left = backing::without_segments(before.live(), space::idle_segments(s));
        let none = before.log().push(Ask { bytes: seg, live: before.live(), ptr: 0 });
        &&& self.index() == before.index()
        &&& if space::has_fit(s, size <= K_SMALL_SIZE, size) {
            &&& self.live() == before.live()
            &&& self.log() == before.log()
            &&& r matches Ok(d) && {
                let i = space::rank(s, d.addr() as int);
                &&& space::best_fit(s, size <= K_SMALL_SIZE, size, i)
                &&& self.books() == taken(b, i, size, nbytes)
                &&& points_to(d, s[i], size)
            }
        } else {
            match r {
                Ok(d) => {
                    ||| {
                        &&& self.log() == before.log().push(
                            Ask { bytes: seg, live: before.live(), ptr: d.addr() },
                        )
                        &&& carved(nbytes, b, before.live(), self.books(), self.live(), d)
                    }
                    ||| {
                        &&& self.log() == none.push(
                            Ask { bytes: seg, live: left, ptr: d.addr() },
                        )
                        &&& carved(nbytes, emptied(b), left, self.books(), self.live(), d)
                    }
                },
                Err(e) => {
                    &&& self.log() == none.push(Ask { bytes: seg, live: left, ptr: 0 })
                    &&& e == (AllocError::CudaOutOfMemory {
                        bytes: seg,
                        device_index: before.index(),
                    })
                    &&& self.books() == emptied(b)
                    &&& self.live() == left
                },
            }
        }
    }

    /// Allocates `nbytes`.
    ///
    /// No bytes need no memory, only an aligned address. With caching off, the
    /// request goes straight to the device. Otherwise the best-fitting free block
    /// serves it; where there is none, a segment of the device does; under
    /// pressure, the cached segments go back to the device and it is asked once
    /// more.
    #[verifier::rlimit(40)]
    pub fn allocate(&mut self, settings: &Settings, nbytes: usize) -> (r: Result<
        DataPtr,
        AllocError,
    >)
        requires
            old(self).wf(),
            nbytes > 0 && settings.caching() ==> old(self).counters().num_alloc < u64::MAX
                && old(self).counters().num_device_alloc < u64::MAX,
        ensures
            final(self).wf(),
            r matches Ok(d) ==> final(self).owns(d) && nbytes <= d.layout().spec_size(),
            final(self).counters().peaks_follow(old(self).counters()),
            backing::apart(old(self).live()) ==> backing::apart(final(self).live()),
            forall|d: DataPtr| old(self).owns(d) ==> #[trigger] final(self).owns(d),
            nbytes == 0 ==> {
                &&& final(self).same_as(old(self))
                &&& r matches Ok(d) && d.addr() == K_MIN_BLOCK_SIZE && d.layout().spec_size() == 0
                    && d.layout().spec_align() == K_MIN_BLOCK_SIZE && d.deleter() == Deleter::Std
            },
            nbytes > 0 && !settings.caching() ==> final(self).passes_on(old(self), nbytes, r),
            nbytes > 0 && settings.caching() && !sizes_fit(nbytes as int) ==> {
                &&& r == Err::<DataPtr, AllocError>(AllocError::InvalidLayout)
                &&& final(self).same_as(old(self))
            },
            nbytes > 0 && settings.caching() && sizes_fit(nbytes as int) ==> final(self).meets(
                old(self),
                nbytes,
                r,
            ),
    {
        if nbytes == 0 {
            proof {
                super::lemma_alignments();
            }
            let layout: Layout = Layout::from_size_align(0, K_MIN_BLOCK_SIZE).unwrap();
            return Ok(DataPtr::new(K_MIN_BLOCK_SIZE, layout));
        }
        if !memory_caching(settings) {
            return self.allocate_uncached(nbytes);
        }
        if !request_fits(nbytes) {
            return Err(AllocError::InvalidLayout);
        }
        let size: usize = round_size(nbytes);
        let small: bool = size <= K_SMALL_SIZE;
        let ghost s = self.chunks();
        proof {
            law_sizes(nbytes as int);
            lemma_segment(size as int);
            ledger::lemma_sums(s);
            ledger::lemma_kept_in_use(s);
        }
        self.state.count_request();

        // 1. Best-fit reuse from the pool.
        if let Some(ptr) = self.state.get_free_block(size, small) {
            let ghost i = space::rank(s, ptr as int);
            proof {
                self.lemma_reused(old(self), i);
                assert(s[i].pooled(small));
                assert(space::has_fit(s, small, size as int));
            }
            let d: DataPtr = self.make_data_ptr(ptr, size, nbytes);
            proof {
                let split = worth_splitting(small, s[i].size - size);
                assert(self.chunks() == space::taken(s, i, size as int, split));
                assert forall|e: DataPtr| old(self).owns(e) implies #[trigger] self.owns(e) by {
                    lemma_taken_owned(s, self.live(), i, size as int, split, e);
                }
            }
            return Ok(d);
        }
        // 2. Carve a new segment out of the device.
        let seg_size: usize = segment_size(size);
        let ghost counted = *self;
        let mut ptr: usize = self.alloc_segment(seg_size, small);
        let ghost mut asked = counted;
        if ptr == 0 {
            // Under pressure: return cached blocks to the device and retry once.
            self.empty_cache();
            proof {
                asked = *self;
            }
            ptr = self.alloc_segment(seg_size, small);
            if ptr == 0 {
                proof {
                    assert forall|e: DataPtr| old(self).owns(e) implies #[trigger] self.owns(e) by {
                        assert(counted.owns(e));
                        assert(asked.owns(e));
                    }
                }
                return Err(
                    AllocError::CudaOutOfMemory {
                        bytes: seg_size,
                        device_index: self.device_index,
                    },
                );
            }
        }
        let ghost i = space::rank(asked.chunks(), ptr as int);
        proof {
            self.lemma_new_segment(&asked, ptr, seg_size, small);
        }
        let d: DataPtr = self.make_data_ptr(ptr, size, nbytes);
        proof {
            let c = space::segment(ptr as int, seg_size as int, small, true);
            let b = widened(asked.books(), c);
            let split = worth_splitting(small, seg_size - size);
            assert(self.books() == taken(b, i, size as int, nbytes));
            if backing::apart(asked.live()) {
                backing::lemma_apart_insert(asked.live(), ptr, seg_size);
            }
            assert forall|e: DataPtr| old(self).owns(e) implies #[trigger] self.owns(e) by {
                assert(counted.owns(e));
                assert(asked.owns(e));
                lemma_grown_owned(asked.chunks(), asked.live(), c, e);
                lemma_taken_owned(b.chunks, self.live(), i, size as int, split, e);
            }
        }
        Ok(d)
    }

    /// A block reused for a counted request is pending.
    proof fn lemma_reused(&self, before: &Self, i: int)
        requires
            before.wf(),
            0 <= i < before.chunks().len(),
            before.chunks()[i].free,
            before.counters().num_alloc < u64::MAX,
            self.chunks() == space::used(before.chunks(), i),
            self.requests() == before.requests(),
            self.state.pools_match(),
            self.counters() == before.counters().requested(),
            self.live() == before.live(),
        ensures
            self.state.pending(i),
            space::starts_at(self.chunks(), before.chunks()[i].ptr),
            space::rank(self.chunks(), before.chunks()[i].ptr) == i,
            backing::backed(self.chunks(), self.live(), K_MIN_BLOCK_SIZE as int),
    {
        let s = before.chunks();
        let t = self.chunks();
        space::lemma_used(s, i);
        space::lemma_rank_at(t, i);
        ledger::lemma_used_ledger(s, i, true);
        assert(!space::mergeable(s, i));
        assert forall|k: int| 0 <= k < t.len() && k != i implies if (#[trigger] t[k]).free {
            self.requests()[k] == 0
        } else {
            0 < self.requests()[k] <= t[k].size
        } by {
            assert(t[k] == s[k]);
        }
        backing::lemma_taken_backed(s, self.live(), K_MIN_BLOCK_SIZE as int, i, 0, false);
    }

    /// A segment taken in for a counted request is pending.
    proof fn lemma_new_segment(&self, before: &Self, ptr: usize, seg_size: usize, small: bool)
        requires
            before.wf(),
            0 < ptr,
            0 < seg_size,
            ptr + seg_size <= usize::MAX,
            space::clear_of(before.chunks(), ptr as int, seg_size as int),
            before.counters().num_alloc >= before.counters().num_free + ledger::sum(
                before.chunks(),
                Measure::InUse,
            ) + 1,
            before.counters().num_device_alloc < u64::MAX,
            before.counters().reserved_bytes + seg_size <= usize::MAX,
            self.books() == widened(
                before.books(),
                space::segment(ptr as int, seg_size as int, small, false),
            ),
            self.state.pools_match(),
        ensures
            ({
                let i = space::rank(before.chunks(), ptr as int);
                let c = space::segment(ptr as int, seg_size as int, small, true);
                let g = space::grown(before.chunks(), c);
                &&& self.state.pending(i)
                &&& space::starts_at(self.chunks(), ptr as int)
                &&& space::rank(self.chunks(), ptr as int) == i
                &&& self.chunks()[i].size == seg_size
                &&& self.chunks()[i].small == small
                &&& g[i] == c
                &&& self.chunks() == space::used(g, i)
            }),
    {
        let s = before.chunks();
        let c = space::segment(ptr as int, seg_size as int, small, false);
        let i = space::rank(s, ptr as int);
        let t = self.chunks();
        let q = self.requests();
        space::lemma_grown(s, c);
        space::lemma_rank_at(t, i);
        ledger::lemma_grown_ledger(s, c, true);
        assert forall|k: int| 0 <= k < t.len() && k != i implies if (#[trigger] t[k]).free {
            q[k] == 0
        } else {
            0 < q[k] <= t[k].size
        } by {
            if k < i {
                assert(t[k] == s[k]);
            } else {
                assert(t[k] == s[k - 1]);
            }
        }
        assert(t =~= space::used(
            space::grown(s, space::segment(ptr as int, seg_size as int, small, true)),
            i,
        ));
    }

    /// A released block returns to its pool and merges. Nothing goes back to the
    /// device here.
    pub fn free_block(&mut self, ptr: usize, size: usize)
        requires
            old(self).wf(),
            space::in_use(old(self).chunks(), ptr as int, size as int),
        ensures
            final(self).wf(),
            final(self).books() == given_back(old(self).books(), ptr as int, size as int),
            final(self).live() == old(self).live(),
            final(self).log() == old(self).log(),
            final(self).index() == old(self).index(),
            final(self).counters().peaks_follow(old(self).counters()),
            forall|d: DataPtr|
                old(self).owns(d) && d.addr() != ptr ==> #[trigger] final(self).owns(d),
    {
        let ghost s = self.chunks();
        self.state.free_block(ptr, size);
        proof {
            let i = space::rank(s, ptr as int);
            space::lemma_in_use(s, ptr as int, size as int);
            backing::lemma_freed_backed(s, self.live(), K_MIN_BLOCK_SIZE as int, i);
            assert forall|d: DataPtr|
                old(self).owns(d) && d.addr() != ptr implies #[trigger] self.owns(d) by {
                match d.release_spec() {
                    Release::Custom { addr, reclaim: Reclaim::Block { size: n } } => {
                        space::lemma_freed_keeps(s, i, addr as int, n as int);
                    },
                    Release::Custom { addr, reclaim: Reclaim::Backend } => {
                        backing::lemma_freed_members(s, i);
                        assert forall|k: int| 0 <= k < self.chunks().len() implies (
                        #[trigger] self.chunks()[k]).base != addr by {
                            let j = choose|j: int|
                                0 <= j < s.len() && (#[trigger] s[j]).base
                                    == self.chunks()[k].base;
                            assert(s[j].base != addr);
                        }
                    },
                    _ => {},
                }
            }
        }
    }

    /// Gives up a pointer of this allocator: a block goes back to its pool,
    /// uncached memory to the device.
    pub fn release(&mut self, data: DataPtr)
        requires
            old(self).wf(),
            old(self).owns(data),
        ensures
            final(self).wf(),
            final(self).log() == old(self).log(),
            final(self).index() == old(self).index(),
            match data.deleter() {
                Deleter::Custom(Reclaim::Block { size }) => {
                    &&& final(self).books() == given_back(
                        old(self).books(),
                        data.addr() as int,
                        size as int,
                    )
                    &&& final(self).live() == old(self).live()
                },
                Deleter::Custom(Reclaim::Backend) => {
                    &&& final(self).books() == old(self).books()
                    &&& final(self).live() == old(self).live().remove(data.addr())
                },
                _ => final(self).same_as(old(self)),
            },
            final(self).counters().peaks_follow(old(self).counters()),
            backing::apart(old(self).live()) ==> backing::apart(final(self).live()),
            forall|d: DataPtr|
                old(self).owns(d) && d.addr() != data.addr() ==> #[trigger] final(self).owns(d),
    {
        match data.release() {
            Release::Custom { addr, reclaim: Reclaim::Block { size } } => {
                self.free_block(addr, size);
            },
            Release::Custom { addr, reclaim: Reclaim::Backend } => {
                self.backend.device_free(addr);
                proof {
                    if backing::apart(old(self).live()) {
                        backing::lemma_apart_fewer(old(self).live(), self.live());
                    }
                    assert forall|i: int| 0 <= i < self.chunks().len() implies {
                        &&& self.live().contains_key((#[trigger] self.chunks()[i]).base as usize)
                        &&& self.live()[self.chunks()[i].base as usize] == self.chunks()[i].seg
                        &&& super::layout_fits(self.chunks()[i].seg, K_MIN_BLOCK_SIZE as int)
                    } by {
                        assert(self.chunks()[i].ok());
                        assert(old(self).chunks()[i].base != addr);
                    }
                }
            },
            _ => {},
        }
    }
}

/// The pointer owns nothing, or a chunk in use, or a live region that is no
/// segment.
pub open spec fn owned(s: Seq<Chunk>, live: Map<usize, usize>, d: DataPtr) -> bool {
    match d.release_spec() {
        Release::Nothing => true,
        Release::Custom { addr, reclaim: Reclaim::Block { size } } => space::in_use(
            s,
            addr as int,
            size as int,
        ),
        Release::Custom { addr, reclaim: Reclaim::Backend } => {
            &&& live.contains_key(addr)
            &&& live[addr] == d.layout().spec_size()
            &&& d.layout().spec_size() > 0
            &&& forall|i: int| 0 <= i < s.len() ==> (#[trigger] s[i]).base != addr
        },
        _ => false,
    }
}

/// Taking a free chunk leaves every pointer what it owns.
proof fn lemma_taken_owned(
    s: Seq<Chunk>,
    live: Map<usize, usize>,
    i: int,
    size: int,
    split: bool,
    d: DataPtr,
)
    requires
        0 <= i < s.len(),
        s[i].free,
        owned(s, live, d),
    ensures
        owned(space::taken(s, i, size, split), live, d),
{
    match d.release_spec() {
        Release::Custom { addr, reclaim: Reclaim::Block { size: n } } => {
            space::lemma_taken_keeps(s, i, size, split, addr as int, n as int);
        },
        Release::Custom { addr, reclaim: Reclaim::Backend } => {
            backing::lemma_taken_bases(s, i, size, split, addr as int);
        },
        _ => {},
    }
}

/// Taking in a segment leaves every pointer what it owns.
proof fn lemma_grown_owned(s: Seq<Chunk>, live: Map<usize, usize>, c: Chunk, d: DataPtr)
    requires
        space::chained(s),
        c.ok(),
        super::fresh(live, c.base, c.seg),
        owned(s, live, d),
    ensures
        owned(space::grown(s, c), live.insert(c.base as usize, c.seg as usize), d),
{
    match d.release_spec() {
        Release::Custom { addr, reclaim: Reclaim::Block { size } } => {
            space::lemma_grown_keeps(s, c, addr as int, size as int);
        },
        Release::Custom { addr, reclaim: Reclaim::Backend } => {
            backing::lemma_grown_apart(s, live, c, addr);
        },
        _ => {},
    }
}

// ---------------------------------------------------------------------
// Laws
// ---------------------------------------------------------------------

/// The counters tell what the blocks show: what is handed out never exceeds what
/// is held, no peak is below the present, there were at least as many requests as
/// blocks in use or given back, and every segment obtained and not yet given back
/// is held.
pub proof fn law_counters<B: DeviceBackend>(a: &CachingAllocator<B>)
    requires
        a.wf(),
    ensures
        a.counters().allocated_bytes == ledger::sum(a.chunks(), Measure::BytesInUse),
        a.counters().reserved_bytes == ledger::sum(a.chunks(), Measure::Bytes),
        a.counters().allocated_bytes <= a.counters().reserved_bytes,
        a.counters().num_free <= a.counters().num_alloc,
        a.counters().allocated_bytes <= a.counters().allocated_bytes_peak,
        a.counters().reserved_bytes <= a.counters().reserved_bytes_peak,
        a.counters().num_alloc - a.counters().num_free >= ledger::sum(a.chunks(), Measure::InUse),
        a.counters().num_device_alloc - a.counters().num_device_free == ledger::sum(
            a.chunks(),
            Measure::Segments,
        ),
{
    ledger::lemma_sums(a.chunks());
}

/// The blocks are in address order, cover their segments without gaps or
/// overlaps, and no two free neighbours of a segment are left unmerged.
pub proof fn law_blocks<B: DeviceBackend>(a: &CachingAllocator<B>)
    requires
        a.wf(),
    ensures
        space::tiled(a.chunks()),
        space::settled(a.chunks()),
{
}

/// Two pointers to blocks are one, or lie apart; each lies in a live region of
/// the device.
pub proof fn law_pointers_lie_apart<B: DeviceBackend>(
    a: &CachingAllocator<B>,
    d: DataPtr,
    e: DataPtr,
    n: usize,
    m: usize,
)
    requires
        a.wf(),
        a.owns(d),
        a.owns(e),
        d.deleter() == Deleter::Custom(Reclaim::Block { size: n }),
        e.deleter() == Deleter::Custom(Reclaim::Block { size: m }),
    ensures
        d.addr() == e.addr() || d.addr() + n <= e.addr() || e.addr() + m <= d.addr(),
        exists|b: usize| #[trigger]
            a.live().contains_key(b) && b <= d.addr() && d.addr() + n <= b + a.live()[b],
{
    let s = a.chunks();
    let i = space::rank(s, d.addr() as int);
    space::law_chunks_in_use_lie_apart(
        s,
        d.addr() as int,
        n as int,
        e.addr() as int,
        m as int,
    );
    assert(s[i].ok());
    assert(a.live().contains_key(s[i].base as usize));
}

/// Every block in use holds a request of at least one byte that fits in it; a free
/// block holds none.
pub proof fn law_requests<B: DeviceBackend>(a: &CachingAllocator<B>)
    requires
        a.wf(),
    ensures
        state::matching(a.chunks(), a.requests()),
{
}

/// How many bytes a pointer owns.
pub open spec fn extent(d: DataPtr) -> int {
    match d.deleter() {
        Deleter::Custom(Reclaim::Block { size }) => size as int,
        Deleter::Custom(Reclaim::Backend) => d.layout().spec_size() as int,
        _ => 0,
    }
}

/// The region of the device that an owned pointer lies in: the segment of its
/// block, or the uncached memory itself.
pub open spec fn region<B: DeviceBackend>(a: &CachingAllocator<B>, d: DataPtr) -> usize {
    match d.deleter() {
        Deleter::Custom(Reclaim::Block { .. }) => a.chunks()[space::rank(
            a.chunks(),
            d.addr() as int,
        )].base as usize,
        _ => d.addr(),
    }
}

/// What a pointer owns lies in one live region of the device, and is not empty.
pub proof fn law_memory_is_live<B: DeviceBackend>(a: &CachingAllocator<B>, d: DataPtr)
    requires
        a.wf(),
        a.owns(d),
        d.deleter() != Deleter::Std,
    ensures
        extent(d) > 0,
        a.live().contains_key(region(a, d)),
        region(a, d) <= d.addr(),
        d.addr() + extent(d) <= region(a, d) + a.live()[region(a, d)],
{
    let s = a.chunks();
    if let Deleter::Custom(Reclaim::Block { size }) = d.deleter() {
        space::lemma_in_use(s, d.addr() as int, size as int);
        let i = space::rank(s, d.addr() as int);
        assert(s[i].ok());
        assert(a.live().contains_key(s[i].base as usize));
    }
}

/// On a device whose regions lie apart, what two pointers own, cached or not, is
/// one or lies apart.
pub proof fn law_memory_lies_apart<B: DeviceBackend>(
    a: &CachingAllocator<B>,
    d: DataPtr,
    e: DataPtr,
)
    requires
        a.wf(),
        backing::apart(a.live()),
        a.owns(d),
        a.owns(e),
        d.deleter() != Deleter::Std,
        e.deleter() != Deleter::Std,
    ensures
        d.addr() == e.addr() || d.addr() + extent(d) <= e.addr() || e.addr() + extent(e)
            <= d.addr(),
        d.addr() == e.addr() ==> (d.deleter() == Deleter::Custom(Reclaim::Backend)) == (
        e.deleter() == Deleter::Custom(Reclaim::Backend)),
{
    law_memory_is_live(a, d);
    law_memory_is_live(a, e);
    let s = a.chunks();
    match (d.deleter(), e.deleter()) {
        (
            Deleter::Custom(Reclaim::Block { size: n }),
            Deleter::Custom(Reclaim::Block { size: m }),
        ) => {
            law_pointers_lie_apart(a, d, e, n, m);
        },
        (Deleter::Custom(Reclaim::Block { size: n }), _) => {
            space::lemma_in_use(s, d.addr() as int, n as int);
            let i = space::rank(s, d.addr() as int);
            assert(s[i].ok());
            assert(s[i].base != e.addr());
        },
        (_, Deleter::Custom(Reclaim::Block { size: m })) => {
            space::lemma_in_use(s, e.addr() as int, m as int);
            let j = space::rank(s, e.addr() as int);
            assert(s[j].ok());
            assert(s[j].base != d.addr());
        },
        _ => {},
    }
}

/// A block just handed out holds its request, and meets none of what was out
/// before: no block, and, on a device whose regions lie apart, no uncached memory.
pub proof fn law_fresh_pointer<B: DeviceBackend>(
    before: &CachingAllocator<B>,
    after: &CachingAllocator<B>,
    nbytes: usize,
    d: DataPtr,
    e: DataPtr,
)
    requires
        before.wf(),
        after.wf(),
        0 < nbytes,
        sizes_fit(nbytes as int),
        after.meets(before, nbytes, Ok(d)),
        before.owns(e),
        after.owns(d),
        after.owns(e),
        e.deleter() != Deleter::Std,
        e.deleter() == Deleter::Custom(Reclaim::Backend) ==> backing::apart(before.live())
            && backing::apart(after.live()),
    ensures
        nbytes <= extent(d),
        d.addr() + extent(d) <= e.addr() || e.addr() + extent(e) <= d.addr(),
{
    let s = before.chunks();
    let live = before.live();
    let size = rounded(nbytes as int);
    let small = size <= K_SMALL_SIZE;
    law_sizes(nbytes as int);
    law_memory_is_live(before, e);
    if space::has_fit(s, small, size) {
        let i = space::rank(s, d.addr() as int);
        assert(s[i].ok());
        assert(live.contains_key(s[i].base as usize));
        match e.deleter() {
            Deleter::Custom(Reclaim::Block { size: m }) => {
                space::lemma_in_use(s, e.addr() as int, m as int);
            },
            _ => {
                assert(s[i].base != e.addr());
            },
        }
    } else {
        let left = backing::without_segments(live, space::idle_segments(s));
        match e.deleter() {
            Deleter::Custom(Reclaim::Block { size: m }) => {
                let j = space::rank(s, e.addr() as int);
                space::lemma_in_use(s, e.addr() as int, m as int);
                assert(s[j].ok());
                assert forall|x: int| 0 <= x < s.len() && (#[trigger] s[x]).idle() implies s[x].base
                    != s[j].base as usize by {
                    space::lemma_dropped(s, x);
                    assert(s[x].ok());
                    assert(s[j].base != s[x].base);
                }
                backing::lemma_not_idle(s, s[j].base as usize);
            },
            _ => {
                backing::lemma_uncached_kept(s, live, e.addr());
            },
        }
        assert(left.contains_key(region(before, e)));
    }
    assert(d.addr() != e.addr());
    match (d.deleter(), e.deleter()) {
        (
            Deleter::Custom(Reclaim::Block { size: n }),
            Deleter::Custom(Reclaim::Block { size: m }),
        ) => {
            law_pointers_lie_apart(after, d, e, n, m);
        },
        _ => {
            law_memory_lies_apart(after, d, e);
        },
    }
}

/// Uncached memory just handed out is none of what was out before.
pub proof fn law_fresh_uncached_pointer<B: DeviceBackend>(
    before: &CachingAllocator<B>,
    after: &CachingAllocator<B>,
    nbytes: usize,
    d: DataPtr,
    e: DataPtr,
)
    requires
        before.wf(),
        0 < nbytes,
        after.passes_on(before, nbytes, Ok(d)),
        before.owns(e),
        e.deleter() != Deleter::Std,
    ensures
        nbytes == extent(d),
        d.addr() + nbytes <= e.addr() || e.addr() + extent(e) <= d.addr(),
{
    law_memory_is_live(before, e);
}

/// The pointer to a block was released.
pub open spec fn released<B: DeviceBackend>(
    held: &CachingAllocator<B>,
    after: &CachingAllocator<B>,
    d: DataPtr,
) -> bool {
    &&& after.books() == given_back(
        held.books(),
        d.addr() as int,
        d.layout().spec_size() as int,
    )
    &&& after.live() == held.live()
    &&& after.log() == held.log()
    &&& after.index() == held.index()
}

/// Releasing a block right after it was handed out from the cache undoes it: the
/// blocks are as before, with what was asked of them, and so are the bytes handed
/// out.
pub proof fn law_release_undoes_allocate<B: DeviceBackend>(
    before: &CachingAllocator<B>,
    held: &CachingAllocator<B>,
    after: &CachingAllocator<B>,
    nbytes: usize,
    d: DataPtr,
)
    requires
        before.wf(),
        held.wf(),
        after.wf(),
        0 < nbytes,
        space::has_fit(
            before.chunks(),
            rounded(nbytes as int) <= K_SMALL_SIZE,
            rounded(nbytes as int),
        ),
        held.meets(before, nbytes, Ok(d)),
        released(held, after, d),
    ensures
        after.chunks() == before.chunks(),
        after.requests() == before.requests(),
        after.live() == before.live(),
        after.log() == before.log(),
        after.counters().allocated_bytes == before.counters().allocated_bytes,
        after.counters().reserved_bytes == before.counters().reserved_bytes,
{
    let s = before.chunks();
    let t = held.chunks();
    let i = space::rank(s, d.addr() as int);
    let size = rounded(nbytes as int);
    let split = worth_splitting(s[i].small, s[i].size - size);
    law_sizes(nbytes as int);
    space::lemma_taken_and_freed(s, t, i, size, split);
    let m = space::marked(t, i);
    assert(!space::mergeable(s, i - 1) && !space::mergeable(s, i));
    assert(!space::prev_free(m, i));
    assert(space::next_free(m, i) == split);
    assert(after.requests() =~= before.requests());
}

/// A block that was handed out, with caching on, and released again serves the
/// next request that needs a block of its size: the pointer is the same, and the
/// device is not asked.
pub proof fn law_released_block_is_reused<B: DeviceBackend>(
    before: &CachingAllocator<B>,
    held: &CachingAllocator<B>,
    free: &CachingAllocator<B>,
    again: &CachingAllocator<B>,
    nbytes: usize,
    next: usize,
    d: DataPtr,
    r: Result<DataPtr, AllocError>,
)
    requires
        before.wf(),
        held.wf(),
        free.wf(),
        0 < nbytes,
        sizes_fit(nbytes as int),
        rounded(next as int) == rounded(nbytes as int),
        held.meets(before, nbytes, Ok(d)),
        released(held, free, d),
        again.meets(free, next, r),
    ensures
        r matches Ok(e) && e.addr() == d.addr(),
        again.live() == held.live(),
        again.log() == held.log(),
        again.counters().num_device_alloc == held.counters().num_device_alloc,
{
    let s = before.chunks();
    let size = rounded(nbytes as int);
    let small = size <= K_SMALL_SIZE;
    law_sizes(nbytes as int);
    if space::has_fit(s, small, size) {
        let i = space::rank(s, d.addr() as int);
        let split = worth_splitting(s[i].small, s[i].size - size);
        space::lemma_taken_and_freed(s, held.chunks(), i, size, split);
        assert(s[i].pooled(small) && s[i].size >= size);
        if let Ok(e) = r {
            let k = space::rank(s, e.addr() as int);
            space::law_best_fit_is_unique(s, small, size, i, k);
        }
    } else {
        let seg = segment(size);
        let c = space::segment(d.addr() as int, seg, small, true);
        let b = Books { counters: before.counters().requested(), ..before.books() };
        let now = carved(nbytes, b, before.live(), held.books(), held.live(), d);
        let t = if now {
            s
        } else {
            space::kept(s)
        };
        let live = if now {
            before.live()
        } else {
            backing::without_segments(before.live(), space::idle_segments(s))
        };
        lemma_segment(size);
        space::lemma_kept_tiled(s);
        space::lemma_kept_fits_no_more(s, small, size);
        backing::lemma_kept_backed(s, before.live(), K_MIN_BLOCK_SIZE as int);
        let g = space::grown(t, c);
        let i = space::rank(t, c.ptr);
        backing::lemma_fresh_clear(t, live, K_MIN_BLOCK_SIZE as int, d.addr(), seg as usize);
        space::lemma_grown(t, c);
        let split = worth_splitting(small, seg - size);
        space::lemma_taken_and_freed(g, held.chunks(), i, size, split);
        space::lemma_lone_fit(t, c, size);
        if let Ok(e) = r {
            assert(space::best_fit(g, small, size, space::rank(g, e.addr() as int)));
        }
    }
}

/// Emptying the cache when no byte is handed out gives every segment back: no
/// block is left, no byte is held, and as many segments went back as ever came.
pub proof fn law_idle_cache_empties<B: DeviceBackend>(
    before: &CachingAllocator<B>,
    after: &CachingAllocator<B>,
)
    requires
        before.wf(),
        after.wf(),
        before.counters().allocated_bytes == 0,
        after.chunks() == space::kept(before.chunks()),
    ensures
        after.chunks() == Seq::<Chunk>::empty(),
        after.counters().reserved_bytes == 0,
        after.counters().num_device_free == after.counters().num_device_alloc,
{
    let s = before.chunks();
    ledger::lemma_sums(s);
    ledger::lemma_none_in_use(s);
    space::law_nothing_in_use_nothing_kept(s);
}

// ---------------------------------------------------------------------
// Devices
// ---------------------------------------------------------------------

/// A CUDA device, by the number that the CUDA runtime knows it by.
#[derive(Debug, Clone, Copy, PartialEq, Eq, Structural)]
pub struct CudaBackend {
    device_index: i32,
}

impl CudaBackend {
    /// The number of the device.
    pub closed spec fn number(self) -> i32 {
        self.device_index
    }

    /// The device with an index. Indices beyond `i32::MAX` wrap around, as the
    /// runtime takes a C `int`.
    pub fn new(device_index: usize) -> (b: CudaBackend)
        ensures
            b.number() == device_index as i32,
    {
        CudaBackend {
            device_index: #[verifier::truncate]
            (device_index as i32),
        }
    }

    /// The number of the device.
    pub fn device_index(&self) -> (n: i32)
        ensures
            n == self.number(),
    {
        self.device_index
    }
}

/// The allocator for a device, which is `fresh` on first use.
pub fn get<T>(registry: &mut Registry<T>, device_index: usize, fresh: T) -> (a: &T)
    ensures
        final(registry)@ == registry::settled(old(registry)@, device_index, fresh),
        *a == final(registry)@[device_index],
{
    registry.settle(device_index, fresh);
    registry.find(device_index).unwrap()
}

/// Two uses of a device share one cache, whatever is offered the second time: the
/// second finds the allocator as the first left it, so a block that the first
/// released serves the second, and the device is not asked. Every other device
/// keeps its own.
pub proof fn law_uses_share_one_cache<B: DeviceBackend>(
    m: Map<usize, CachingAllocator<B>>,
    i: usize,
    first: CachingAllocator<B>,
    second: CachingAllocator<B>,
    held: CachingAllocator<B>,
    free: CachingAllocator<B>,
    again: CachingAllocator<B>,
    nbytes: usize,
    next: usize,
    d: DataPtr,
    r: Result<DataPtr, AllocError>,
)
    requires
        registry::settled(m, i, first)[i].wf(),
        held.wf(),
        free.wf(),
        0 < nbytes,
        sizes_fit(nbytes as int),
        rounded(next as int) == rounded(nbytes as int),
        held.meets(&registry::settled(m, i, first)[i], nbytes, Ok(d)),
        released(&held, &free, d),
        again.meets(&registry::settled(m.insert(i, free), i, second)[i], next, r),
    ensures
        registry::settled(m.insert(i, free), i, second)[i] == free,
        forall|j: usize|
            i != j && #[trigger] m.contains_key(j) ==> registry::settled(
                m.insert(i, free),
                i,
                second,
            )[j] == m[j],
        r matches Ok(e) && e.addr() == d.addr(),
        again.live() == held.live(),
        again.log() == held.log(),
        again.index() == registry::settled(m, i, first)[i].index(),
{
    law_released_block_is_reused(
        &registry::settled(m, i, first)[i],
        &held,
        &free,
        &again,
        nbytes,
        next,
        d,
        r,
    );
}

} // verus!

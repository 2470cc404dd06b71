//! A caching device allocator.
//!
//! Device allocation is expensive, so freed blocks are not given back to the
//! device: they go to a pool and are handed out again.
//!
//! * Two pools: requests of at most 1 MiB come from the *small* pool, larger
//!   ones from the *large* pool. A block belongs to the pool of the segment it
//!   was cut from.
//! * Size rounding, segment sizes and splitting are up to a [`CachePolicy`].
//! * Freed blocks merge with free neighbours of their segment, so segments
//!   reassemble.
//! * Memory goes back to the device only when the cache is emptied, and then
//!   only in whole segments.
use vstd::prelude::*;

use super::backing;
use super::ledger::{self, Measure};
use super::space::{self, Chunk};
use super::traits::{CachePolicy, K_SMALL_SIZE};
use super::{AllocError, Allocator, Answer, Ask, DataPtr, Deleter, Layout, Reclaim, Release};
use crate::config::{memory_caching, Settings};
use crate::device::Device;

pub mod laws;
pub mod state;

pub use super::cache_stats::CacheStats;
use state::State;

verus! {

/// The address of an allocation of no bytes.
pub const DANGLING: usize = 1;

/// The counters after the idle segments went back.
pub open spec fn emptied(st: CacheStats, s: Seq<Chunk>) -> CacheStats {
    st.released(
        ledger::sum(space::idle_segments(s), Measure::Bytes),
        space::idle_segments(s).len() as int,
    )
}

/// What a request for `size` bytes makes of the free chunk at `i`: the chunks and
/// counters after it, and the pointer to the block.
pub open spec fn served<P: CachePolicy>(
    policy: P,
    size: int,
    i: int,
    s: Seq<Chunk>,
    st: CacheStats,
    s2: Seq<Chunk>,
    st2: CacheStats,
    d: DataPtr,
) -> bool {
    let split = policy.spec_should_split(s[i].small, (s[i].size - size) as usize);
    let n = if split {
        size
    } else {
        s[i].size
    };
    &&& s2 == space::taken(s, i, size, split)
    &&& st2 == st.handed_out(n).requested()
    &&& d.addr() == s[i].ptr
    &&& d.layout().spec_size() == n
    &&& d.layout().spec_align() == policy.spec_alignment()
    &&& d.deleter() == Deleter::Custom(Reclaim::Block { size: n as usize })
}

/// What a request for `size` bytes makes of a fresh segment of `seg` bytes.
pub open spec fn carved<P: CachePolicy>(
    policy: P,
    size: usize,
    seg: usize,
    s: Seq<Chunk>,
    st: CacheStats,
    live: Map<usize, usize>,
    s2: Seq<Chunk>,
    st2: CacheStats,
    live2: Map<usize, usize>,
    d: DataPtr,
) -> bool {
    let c = space::segment(d.addr() as int, seg as int, size <= K_SMALL_SIZE, true);
    &&& size <= seg
    &&& super::fresh(live, d.addr() as int, seg as int)
    &&& live2 == live.insert(d.addr(), seg)
    &&& served(
        policy,
        size as int,
        space::rank(s, c.ptr),
        space::grown(s, c),
        st.reserved(seg as int),
        s2,
        st2,
        d,
    )
}

/// A caching device allocator over a backend, with the size rules of a policy.
pub struct CachingAllocator<B: Allocator, P: CachePolicy> {
    policy: P,
    backend: B,
    state: State,
}

impl<B: Allocator, P: CachePolicy> CachingAllocator<B, P> {
    /// The blocks, in address order.
    pub closed spec fn chunks(&self) -> Seq<Chunk> {
        self.state.chunks()
    }

    /// The counters.
    pub closed spec fn counters(&self) -> CacheStats {
        self.state.stats()
    }

    /// The regions that the device has handed out.
    pub closed spec fn live(&self) -> Map<usize, usize> {
        self.backend.live()
    }

    /// What the device was asked so far, and what it answered.
    pub closed spec fn log(&self) -> Seq<Ask> {
        self.backend.log()
    }

    /// The device.
    pub closed spec fn on(&self) -> Device {
        self.backend.on()
    }

    /// The size rules.
    pub closed spec fn policy(&self) -> P {
        self.policy
    }

    /// Blocks, pools and counters agree.
    pub closed spec fn state_wf(&self) -> bool {
        self.state.wf()
    }

    /// The bookkeeping is sound, every segment is a live region of the device,
    /// and its blocks have layouts.
    pub open spec fn wf(&self) -> bool {
        &&& self.state_wf()
        &&& self.policy().valid()
        &&& backing::backed(self.chunks(), self.live(), self.policy().spec_alignment() as int)
    }

    /// The pointer came from this allocator and was not released: it owns
    /// nothing, or a block in use, or uncached memory of the device.
    pub open spec fn owns(&self, d: DataPtr) -> bool {
        match d.deleter() {
            Deleter::Std => false,
            Deleter::Custom(Reclaim::Nothing) => true,
            Deleter::Custom(Reclaim::Block { size }) => space::in_use(
                self.chunks(),
                d.addr() as int,
                size as int,
            ),
            Deleter::Custom(Reclaim::Backend) => {
                &&& self.live().contains_key(d.addr())
                &&& self.live()[d.addr()] == d.layout().spec_size()
                &&& d.layout().spec_size() > 0
                &&& forall|i: int|
                    0 <= i < self.chunks().len() ==> (#[trigger] self.chunks()[i]).base != d.addr()
            },
        }
    }

    /// Nothing changed but what cannot be seen.
    pub open spec fn same_as(&self, other: &Self) -> bool {
        &&& self.chunks() == other.chunks()
        &&& self.counters() == other.counters()
        &&& self.live() == other.live()
        &&& self.log() == other.log()
        &&& self.on() == other.on()
        &&& self.policy() == other.policy()
    }

    /// An allocator with an empty cache.
    pub fn new(backend: B, policy: P) -> (a: Self)
        requires
            policy.valid(),
        ensures
            a.wf(),
            a.chunks() == Seq::<Chunk>::empty(),
            a.counters() == CacheStats::zero(),
            a.live() == backend.live(),
            a.log() == backend.log(),
            a.on() == backend.on(),
            a.policy() == policy,
    {
        CachingAllocator { policy, backend, state: State::new() }
    }

    /// The device the memory lives on.
    pub fn device(&self) -> (d: Device)
        ensures
            d == self.on(),
    {
        self.backend.device()
    }

    /// Current statistics snapshot.
    pub fn stats(&self) -> (s: CacheStats)
        ensures
            s == self.counters(),
    {
        self.state.get_stats()
    }

    /// Hands the segments at the addresses back to the device.
    fn surrender(&mut self, gone: &Vec<usize>, Ghost(segments): Ghost<Seq<Chunk>>)
        requires
            gone@ == space::bases(segments),
            forall|i: int|
                0 <= i < segments.len() ==> old(self).live().contains_key(
                    (#[trigger] segments[i]).base as usize,
                ) && segments[i].ok() && segments[i].idle(),
            forall|i: int, j: int|
                0 <= i < j < segments.len() ==> (#[trigger] segments[i]).ptr < (
                #[trigger] segments[j]).ptr,
        ensures
            final(self).live() == backing::without_segments(old(self).live(), segments),
            final(self).log() == old(self).log(),
            final(self).on() == old(self).on(),
            final(self).policy() == old(self).policy(),
            final(self).state == old(self).state,
    {
        let ghost live = self.live();
        let mut k: usize = 0;
        assert(live.remove_keys(gone@.take(0).to_set()) =~= live);
        while k < gone.len()
            invariant
                k <= gone.len(),
                gone@ == space::bases(segments),
                forall|i: int|
                    0 <= i < segments.len() ==> live.contains_key(
                        (#[trigger] segments[i]).base as usize,
                    ) && segments[i].ok() && segments[i].idle(),
                forall|i: int, j: int|
                    0 <= i < j < segments.len() ==> (#[trigger] segments[i]).ptr < (
                    #[trigger] segments[j]).ptr,
                self.live() == live.remove_keys(gone@.take(k as int).to_set()),
                self.log() == old(self).log(),
                self.on() == old(self).on(),
                self.policy() == old(self).policy(),
                self.state == old(self).state,
            decreases gone.len() - k,
        {
            proof {
                let b = gone@[k as int];
                assert(b == segments[k as int].base as usize);
                assert(!gone@.take(k as int).contains(b)) by {
                    if gone@.take(k as int).contains(b) {
                        let j = choose|j: int|
                            0 <= j < gone@.take(k as int).len() && gone@.take(k as int)[j] == b;
                        assert(segments[j].base as usize == b);
                        assert(segments[j].ptr < segments[k as int].ptr);
                    }
                }
                assert(self.live().contains_key(b));
                backing::lemma_remove_next(live, gone@, k as int);
            }
            self.backend.deallocate(gone[k]);
            k = k + 1;
        }
        assert(gone@.take(k as int) =~= gone@);
    }

    /// Releases every cached block whose entire segment is free back to the
    /// device.
    pub fn empty_cache(&mut self)
        requires
            old(self).wf(),
        ensures
            final(self).wf(),
            final(self).chunks() == space::kept(old(self).chunks()),
            final(self).counters() == emptied(old(self).counters(), old(self).chunks()),
            final(self).live() == backing::without_segments(
                old(self).live(),
                space::idle_segments(old(self).chunks()),
            ),
            final(self).log() == old(self).log(),
            final(self).on() == old(self).on(),
            final(self).policy() == old(self).policy(),
            final(self).counters().peaks_follow(old(self).counters()),
            backing::apart(old(self).live()) ==> backing::apart(final(self).live()),
            forall|d: DataPtr| old(self).owns(d) ==> #[trigger] final(self).owns(d),
    {
        let ghost s = self.chunks();
        let ghost gone = space::idle_segments(s);
        let released: Vec<usize> = self.state.release_free_segments();
        proof {
            space::lemma_idle_order(s);
            backing::lemma_idle_backed(s, self.live(), self.policy().spec_alignment() as int);
        }
        self.surrender(&released, Ghost(gone));
        proof {
            backing::lemma_kept_backed(s, old(self).live(), self.policy().spec_alignment() as int);
            if backing::apart(old(self).live()) {
                backing::lemma_apart_fewer(old(self).live(), self.live());
            }
            assert forall|d: DataPtr| old(self).owns(d) implies #[trigger] self.owns(d) by {
                match d.deleter() {
                    Deleter::Custom(Reclaim::Block { size }) => {
                        space::lemma_kept_keeps(s, d.addr() as int, size as int);
                    },
                    Deleter::Custom(Reclaim::Backend) => {
                        backing::lemma_uncached_kept(s, old(self).live(), d.addr());
                    },
                    _ => {},
                }
            }
        }
    }

    /// Asks the device for a segment and carves the request out of it. Returns
    /// the address of the block, or `None` where the device has no memory now.
    fn alloc_new_segment(&mut self, size: usize, seg_size: usize) -> (r: Result<
        Option<usize>,
        AllocError,
    >)
        requires
            old(self).wf(),
            0 < size <= seg_size,
            super::layout_once_given(
                seg_size as int,
                old(self).policy().spec_alignment() as int,
            ),
            old(self).counters().num_alloc < usize::MAX,
            old(self).counters().num_device_alloc < usize::MAX,
        ensures
            final(self).wf(),
            final(self).on() == old(self).on(),
            final(self).policy() == old(self).policy(),
            match r {
                Ok(Some(base)) => {
                    let small = size <= K_SMALL_SIZE;
                    let s = space::grown(
                        old(self).chunks(),
                        space::segment(base as int, seg_size as int, small, true),
                    );
                    let i = space::rank(old(self).chunks(), base as int);
                    let split = old(self).policy().spec_should_split(
                        small,
                        (seg_size - size) as usize,
                    );
                    &&& super::fresh(old(self).live(), base as int, seg_size as int)
                    &&& final(self).live() == old(self).live().insert(base, seg_size)
                    &&& super::gave(
                        old(self).log(),
                        final(self).log(),
                        seg_size,
                        old(self).live(),
                        base,
                    )
                    &&& 0 <= i < s.len()
                    &&& s[i] == space::segment(base as int, seg_size as int, small, true)
                    &&& final(self).chunks() == space::taken(s, i, size as int, split)
                    &&& final(self).counters() == old(self).counters().reserved(
                        seg_size as int,
                    ).handed_out(
                        if split {
                            size as int
                        } else {
                            seg_size as int
                        },
                    ).requested()
                },
                Ok(None) => {
                    &&& final(self).chunks() == old(self).chunks()
                    &&& final(self).counters() == old(self).counters()
                    &&& final(self).live() == old(self).live()
                    &&& final(self).log() == old(self).log().push(
                        Ask { bytes: seg_size, live: old(self).live(), answer: Answer::Nothing },
                    )
                },
                Err(e) => {
                    &&& final(self).chunks() == old(self).chunks()
                    &&& final(self).counters() == old(self).counters()
                    &&& final(self).live() == old(self).live()
                    &&& final(self).log() == old(self).log().push(
                        Ask { bytes: seg_size, live: old(self).live(), answer: Answer::Failed(e) },
                    )
                },
            },
            final(self).counters().peaks_follow(old(self).counters()),
            backing::apart(old(self).live()) ==> backing::apart(final(self).live()),
            forall|d: DataPtr| old(self).owns(d) ==> #[trigger] final(self).owns(d),
    {
        let ghost s = self.chunks();
        let ghost live = self.live();
        let ghost align = self.policy().spec_alignment() as int;
        let device: Device = self.backend.device();
        let raw: Option<usize> = match self.backend.try_allocate(seg_size) {
            Ok(Some(segment)) => Some(segment.as_ptr()),
            Ok(None) => None,
            Err(e) => {
                return Err(e);
            },
        };
        proof {
            if let Some(base) = raw {
                backing::lemma_fresh_clear(s, live, align, base, seg_size);
            }
        }
        let r: Result<usize, AllocError> = self.state.alloc_new_segment(
            &self.policy,
            device,
            raw,
            size,
            seg_size,
        );
        proof {
            if let Some(base) = raw {
                let c = space::segment(base as int, seg_size as int, size <= K_SMALL_SIZE, true);
                let g = space::grown(s, c);
                let i = space::rank(s, base as int);
                let split = self.policy().spec_should_split(c.small, (seg_size - size) as usize);
                space::lemma_grown(s, c);
                backing::lemma_grown_backed(s, live, align, c);
                backing::lemma_taken_backed(g, self.live(), align, i, size as int, split);
                if backing::apart(live) {
                    backing::lemma_apart_insert(live, base, seg_size);
                }
                assert forall|d: DataPtr| old(self).owns(d) implies #[trigger] self.owns(d) by {
                    match d.deleter() {
                        Deleter::Custom(Reclaim::Block { size: n }) => {
                            space::lemma_grown_keeps(s, c, d.addr() as int, n as int);
                            space::lemma_taken_keeps(
                                g,
                                i,
                                size as int,
                                split,
                                d.addr() as int,
                                n as int,
                            );
                        },
                        Deleter::Custom(Reclaim::Backend) => {
                            assert(live.contains_key(d.addr()));
                            backing::lemma_grown_apart(s, live, c, d.addr());
                            backing::lemma_taken_bases(g, i, size as int, split, d.addr() as int);
                        },
                        _ => {},
                    }
                }
            }
        }
        match r {
            Ok(ptr) => Ok(Some(ptr)),
            Err(_) => Ok(None),
        }
    }

    /// Wraps a block in use in a pointer whose deleter returns the block to the
    /// cache.
    fn make_data_ptr(&self, ptr: usize) -> (d: DataPtr)
        requires
            self.wf(),
            space::starts_at(self.chunks(), ptr as int),
        ensures
            d.addr() == ptr,
            d.layout().spec_size() == self.chunks()[space::rank(self.chunks(), ptr as int)].size,
            d.layout().spec_align() == self.policy().spec_alignment(),
            d.deleter() == Deleter::Custom(Reclaim::Block { size: d.layout().spec_size() }),
    {
        let size: usize = self.state.block_size(ptr);
        proof {
            let i = space::rank(self.chunks(), ptr as int);
            space::lemma_rank(self.chunks(), ptr as int);
            assert(self.chunks()[i].ok());
        }
        let layout: Layout = Layout::from_size_align(size, self.policy.alignment()).unwrap();
        DataPtr::with_deleter(ptr, layout, Reclaim::Block { size })
    }

    /// A free block is handed out, and the pointer to it.
    fn hand_out(&mut self, size: usize) -> (r: Option<DataPtr>)
        requires
            old(self).wf(),
            0 < size,
            old(self).counters().num_alloc < usize::MAX,
        ensures
            final(self).wf(),
            final(self).live() == old(self).live(),
            final(self).log() == old(self).log(),
            final(self).on() == old(self).on(),
            final(self).policy() == old(self).policy(),
            match r {
                Some(d) => {
                    let i = space::rank(old(self).chunks(), d.addr() as int);
                    &&& space::best_fit(old(self).chunks(), size <= K_SMALL_SIZE, size as int, i)
                    &&& served(
                        old(self).policy(),
                        size as int,
                        i,
                        old(self).chunks(),
                        old(self).counters(),
                        final(self).chunks(),
                        final(self).counters(),
                        d,
                    )
                    &&& final(self).owns(d)
                },
                None => {
                    &&& !space::has_fit(old(self).chunks(), size <= K_SMALL_SIZE, size as int)
                    &&& final(self).same_as(old(self))
                },
            },
            final(self).counters().peaks_follow(old(self).counters()),
            forall|d: DataPtr| old(self).owns(d) ==> #[trigger] final(self).owns(d),
    {
        let ghost s = self.chunks();
        let ghost align = self.policy().spec_alignment() as int;
        match self.state.try_alloc(&self.policy, size) {
            Some(ptr) => {
                proof {
                    let i = space::rank(s, ptr as int);
                    let split = self.policy().spec_should_split(
                        s[i].small,
                        (s[i].size - size) as usize,
                    );
                    backing::lemma_taken_backed(s, self.live(), align, i, size as int, split);
                    space::lemma_taken_in_use(s, i, size as int, split);
                    space::lemma_rank_at(self.chunks(), i);
                    assert forall|d: DataPtr| old(self).owns(d) implies #[trigger] self.owns(d) by {
                        lemma_taken_owned(self, old(self), d, i, size as int, split);
                    }
                }
                Some(self.make_data_ptr(ptr))
            },
            None => None,
        }
    }

    /// A segment of the device serves the request, and the pointer to the block.
    fn hand_out_new(&mut self, size: usize, seg_size: usize) -> (r: Result<
        Option<DataPtr>,
        AllocError,
    >)
        requires
            old(self).wf(),
            0 < size <= seg_size,
            super::layout_once_given(
                seg_size as int,
                old(self).policy().spec_alignment() as int,
            ),
            old(self).counters().num_alloc < usize::MAX,
            old(self).counters().num_device_alloc < usize::MAX,
        ensures
            final(self).wf(),
            final(self).on() == old(self).on(),
            final(self).policy() == old(self).policy(),
            match r {
                Ok(Some(d)) => {
                    &&& carved(
                        old(self).policy(),
                        size,
                        seg_size,
                        old(self).chunks(),
                        old(self).counters(),
                        old(self).live(),
                        final(self).chunks(),
                        final(self).counters(),
                        final(self).live(),
                        d,
                    )
                    &&& super::gave(
                        old(self).log(),
                        final(self).log(),
                        seg_size,
                        old(self).live(),
                        d.addr(),
                    )
                    &&& final(self).owns(d)
                    &&& size <= d.layout().spec_size()
                },
                Ok(None) => {
                    &&& final(self).chunks() == old(self).chunks()
                    &&& final(self).counters() == old(self).counters()
                    &&& final(self).live() == old(self).live()
                    &&& final(self).log() == old(self).log().push(
                        Ask { bytes: seg_size, live: old(self).live(), answer: Answer::Nothing },
                    )
                },
                Err(e) => {
                    &&& final(self).chunks() == old(self).chunks()
                    &&& final(self).counters() == old(self).counters()
                    &&& final(self).live() == old(self).live()
                    &&& final(self).log() == old(self).log().push(
                        Ask { bytes: seg_size, live: old(self).live(), answer: Answer::Failed(e) },
                    )
                },
            },
            final(self).counters().peaks_follow(old(self).counters()),
            backing::apart(old(self).live()) ==> backing::apart(final(self).live()),
            forall|d: DataPtr| old(self).owns(d) ==> #[trigger] final(self).owns(d),
    {
        let ghost s = self.chunks();
        match self.alloc_new_segment(size, seg_size) {
            Ok(Some(ptr)) => {
                proof {
                    let c = space::segment(ptr as int, seg_size as int, size <= K_SMALL_SIZE, true);
                    let g = space::grown(s, c);
                    let i = space::rank(s, ptr as int);
                    let split = self.policy().spec_should_split(
                        c.small,
                        (seg_size - size) as usize,
                    );
                    space::lemma_taken_in_use(g, i, size as int, split);
                    space::lemma_rank_at(self.chunks(), i);
                }
                Ok(Some(self.make_data_ptr(ptr)))
            },
            Ok(None) => Ok(None),
            Err(e) => Err(e),
        }
    }

    /// Memory of the device itself, in the exact size, that goes back to the
    /// device when it is released.
    fn allocate_uncached(&mut self, nbytes: usize) -> (r: Result<DataPtr, AllocError>)
        requires
            old(self).wf(),
            nbytes > 0,
        ensures
            final(self).wf(),
            final(self).passes_on(old(self), nbytes, r),
            r matches Ok(d) ==> final(self).owns(d),
            final(self).counters().peaks_follow(old(self).counters()),
            backing::apart(old(self).live()) ==> backing::apart(final(self).live()),
            forall|d: DataPtr| old(self).owns(d) ==> #[trigger] final(self).owns(d),
    {
        let ghost s = self.chunks();
        let ghost live = self.live();
        match self.backend.allocate(nbytes) {
            Ok(d) => {
                proof {
                    let align = self.policy().spec_alignment() as int;
                    backing::lemma_uncached(s, live, align, d.addr(), nbytes);
                    if backing::apart(live) {
                        backing::lemma_apart_insert(live, d.addr(), nbytes);
                    }
                }
                Ok(d.reclaimed_by(Reclaim::Backend))
            },
            Err(e) => Err(e),
        }
    }

    /// A request for `nbytes` went past the cache: the device gave the memory, or
    /// its failure was passed on.
    pub open spec fn passes_on(
        &self,
        before: &Self,
        nbytes: usize,
        r: Result<DataPtr, AllocError>,
    ) -> bool {
        &&& self.chunks() == before.chunks()
        &&& self.counters() == before.counters()
        &&& self.on() == before.on()
        &&& self.policy() == before.policy()
        &&& match r {
            Ok(d) => {
                &&& super::fresh(before.live(), d.addr() as int, nbytes as int)
                &&& self.live() == before.live().insert(d.addr(), nbytes)
                &&& super::gave(before.log(), self.log(), nbytes, before.live(), d.addr())
                &&& self.log().last().answer->Given_0.layout() == d.layout()
                &&& d.layout().spec_size() == nbytes
                &&& d.deleter() == Deleter::Custom(Reclaim::Backend)
            },
            Err(e) => {
                &&& self.live() == before.live()
                &&& self.log() == before.log().push(
                    Ask { bytes: nbytes, live: before.live(), answer: Answer::Failed(e) },
                )
            },
        }
    }

    /// A request for a block of `size` bytes was met from the cache, without the
    /// device; or else from a segment that the device gave; or else, since the
    /// device gave none, from a segment that it gave once the cache was emptied;
    /// or else, since the device gave none again, not at all. When the device is
    /// asked again, the idle segments are back with it. A failure of the device is
    /// passed on.
    pub open spec fn meets(
        &self,
        before: &Self,
        size: usize,
        r: Result<DataPtr, AllocError>,
    ) -> bool {
        let p = before.policy();
        let s = before.chunks();
        let st = before.counters();
        let seg = p.spec_segment_size(size, st.reserved_bytes);
        let left = backing::without_segments(before.live(), space::idle_segments(s));
        let none = before.log().push(
            Ask { bytes: seg, live: before.live(), answer: Answer::Nothing },
        );
        &&& self.on() == before.on()
        &&& self.policy() == p
        &&& if space::has_fit(s, size <= K_SMALL_SIZE, size as int) {
            &&& self.live() == before.live()
            &&& self.log() == before.log()
            &&& r matches Ok(d) && {
                let i = space::rank(s, d.addr() as int);
                &&& space::best_fit(s, size <= K_SMALL_SIZE, size as int, i)
                &&& served(p, size as int, i, s, st, self.chunks(), self.counters(), d)
            }
        } else {
            match r {
                Ok(d) => {
                    ||| {
                        &&& super::gave(before.log(), self.log(), seg, before.live(), d.addr())
                        &&& carved(
                            p,
                            size,
                            seg,
                            s,
                            st,
                            before.live(),
                            self.chunks(),
                            self.counters(),
                            self.live(),
                            d,
                        )
                    }
                    ||| {
                        &&& super::gave(none, self.log(), seg, left, d.addr())
                        &&& carved(
                            p,
                            size,
                            seg,
                            space::kept(s),
                            emptied(st, s),
                            left,
                            self.chunks(),
                            self.counters(),
                            self.live(),
                            d,
                        )
                    }
                },
                Err(e) => {
                    ||| {
                        &&& self.log() == before.log().push(
                            Ask { bytes: seg, live: before.live(), answer: Answer::Failed(e) },
                        )
                        &&& self.chunks() == s
                        &&& self.counters() == st
                        &&& self.live() == before.live()
                    }
                    ||| {
                        &&& {
                            ||| self.log() == none.push(
                                Ask { bytes: seg, live: left, answer: Answer::Failed(e) },
                            )
                            ||| {
                                &&& self.log() == none.push(
                                    Ask { bytes: seg, live: left, answer: Answer::Nothing },
                                )
                                &&& e == (AllocError::OutOfMemory {
                                    bytes: seg,
                                    device: before.on(),
                                })
                            }
                        }
                        &&& self.chunks() == space::kept(s)
                        &&& self.counters() == emptied(st, s)
                        &&& self.live() == left
                    }
                },
            }
        }
    }

    /// Allocates `nbytes`.
    ///
    /// No bytes need no memory. With caching off, the request goes straight to
    /// the device. Otherwise the best-fitting free block serves it; where there
    /// is none, a fresh segment of the device does; where the device is out of
    /// memory, the cached segments go back to it and it is asked once more.
    pub fn allocate(&mut self, settings: &Settings, nbytes: usize) -> (r: Result<
        DataPtr,
        AllocError,
    >)
        requires
            old(self).wf(),
            nbytes > 0 && settings.caching() ==> old(self).counters().num_alloc < usize::MAX
                && old(self).counters().num_device_alloc < usize::MAX,
        ensures
            final(self).wf(),
            r matches Ok(d) ==> final(self).owns(d) && nbytes <= d.layout().spec_size(),
            final(self).counters().peaks_follow(old(self).counters()),
            backing::apart(old(self).live()) ==> backing::apart(final(self).live()),
            forall|d: DataPtr| old(self).owns(d) ==> #[trigger] final(self).owns(d),
            nbytes == 0 ==> {
                &&& final(self).same_as(old(self))
                &&& r matches Ok(d) && d.addr() == DANGLING && d.layout().spec_size() == 0
                    && d.layout().spec_align() == 1 && d.deleter() == Deleter::Custom(
                    Reclaim::Nothing,
                )
            },
            nbytes > 0 && !settings.caching() ==> final(self).passes_on(old(self), nbytes, r),
            nbytes > 0 && settings.caching() ==> match old(self).policy().refusal(nbytes) {
                Some(e) => r == Err::<DataPtr, AllocError>(e) && final(self).same_as(old(self)),
                None => if old(self).policy().fits(nbytes) {
                    final(self).meets(old(self), old(self).policy().spec_round_size(nbytes), r)
                } else {
                    &&& r == Err::<DataPtr, AllocError>(AllocError::InvalidLayout)
                    &&& final(self).same_as(old(self))
                },
            },
    {
        if nbytes == 0 {
            proof {
                super::lemma_alignments();
            }
            let layout: Layout = Layout::from_size_align(0, 1).unwrap();
            return Ok(DataPtr::with_deleter(DANGLING, layout, Reclaim::Nothing));
        }
        if !memory_caching(settings) {
            return self.allocate_uncached(nbytes);
        }
        match self.policy.check_request(nbytes) {
            Ok(_) => {},
            Err(e) => {
                return Err(e);
            },
        }
        match self.policy.check_layout(nbytes) {
            Ok(_) => {},
            Err(e) => {
                return Err(e);
            },
        }
        let size: usize = self.policy.round_size(nbytes);

        // 1. Best-fit search in the pool.
        if let Some(d) = self.hand_out(size) {
            proof {
                let s = old(self).chunks();
                let i = space::rank(s, d.addr() as int);
                assert(s[i].pooled(size <= K_SMALL_SIZE));
                assert(space::has_fit(s, size <= K_SMALL_SIZE, size as int));
            }
            return Ok(d);
        }
        // 2. Nothing cached: ask the device for a fresh segment.
        let reserved: usize = self.stats().reserved_bytes;
        let seg_size: usize = self.policy.segment_size(size, reserved);
        match self.hand_out_new(size, seg_size) {
            Ok(Some(d)) => Ok(d),
            // 3. The device is out of memory: release cached segments and retry once.
            Ok(None) => {
                self.empty_cache();
                match self.hand_out_new(size, seg_size) {
                    Ok(Some(d)) => Ok(d),
                    Ok(None) => Err(
                        AllocError::OutOfMemory { bytes: seg_size, device: self.device() },
                    ),
                    Err(e) => Err(e),
                }
            },
            Err(e) => Err(e),
        }
    }

    /// Returns a block to its pool, merged with its free neighbours.
    pub fn free_block(&mut self, ptr: usize, size: usize)
        requires
            old(self).wf(),
            space::in_use(old(self).chunks(), ptr as int, size as int),
        ensures
            final(self).wf(),
            final(self).chunks() == space::freed(
                old(self).chunks(),
                space::rank(old(self).chunks(), ptr as int),
            ),
            final(self).counters() == old(self).counters().returned(size as int),
            final(self).live() == old(self).live(),
            final(self).log() == old(self).log(),
            final(self).on() == old(self).on(),
            final(self).policy() == old(self).policy(),
            final(self).counters().peaks_follow(old(self).counters()),
            forall|d: DataPtr|
                old(self).owns(d) && d.addr() != ptr ==> #[trigger] final(self).owns(d),
    {
        let ghost s = self.chunks();
        self.state.free_block(ptr, size);
        proof {
            let i = space::rank(s, ptr as int);
            space::lemma_in_use(s, ptr as int, size as int);
            backing::lemma_freed_backed(s, self.live(), self.policy().spec_alignment() as int, i);
            assert forall|d: DataPtr|
                old(self).owns(d) && d.addr() != ptr implies #[trigger] self.owns(d) by {
                match d.deleter() {
                    Deleter::Custom(Reclaim::Block { size: n }) => {
                        space::lemma_freed_keeps(s, i, d.addr() as int, n as int);
                    },
                    Deleter::Custom(Reclaim::Backend) => {
                        backing::lemma_freed_members(s, i);
                        assert forall|k: int| 0 <= k < self.chunks().len() implies (
                        #[trigger] self.chunks()[k]).base != d.addr() by {
                            let j = choose|j: int|
                                0 <= j < s.len() && (#[trigger] s[j]).base
                                    == self.chunks()[k].base;
                            assert(s[j].base != d.addr());
                        }
                    },
                    _ => {},
                }
            }
        }
    }

    /// Gives up a pointer of this allocator: a block goes back to its pool,
    /// uncached memory to the device.
    pub fn release(&mut self, data: DataPtr)
        requires
            old(self).wf(),
            old(self).owns(data),
        ensures
            final(self).wf(),
            final(self).log() == old(self).log(),
            final(self).on() == old(self).on(),
            final(self).policy() == old(self).policy(),
            match data.deleter() {
                Deleter::Custom(Reclaim::Block { size }) => {
                    &&& final(self).chunks() == space::freed(
                        old(self).chunks(),
                        space::rank(old(self).chunks(), data.addr() as int),
                    )
                    &&& final(self).counters() == old(self).counters().returned(size as int)
                    &&& final(self).live() == old(self).live()
                },
                Deleter::Custom(Reclaim::Backend) => {
                    &&& final(self).chunks() == old(self).chunks()
                    &&& final(self).counters() == old(self).counters()
                    &&& final(self).live() == old(self).live().remove(data.addr())
                },
                _ => final(self).same_as(old(self)),
            },
            final(self).counters().peaks_follow(old(self).counters()),
            backing::apart(old(self).live()) ==> backing::apart(final(self).live()),
            forall|d: DataPtr|
                old(self).owns(d) && d.addr() != data.addr() ==> #[trigger] final(self).owns(d),
    {
        match data.release() {
            Release::Custom { addr, reclaim: Reclaim::Block { size } } => {
                self.free_block(addr, size);
            },
            Release::Custom { addr, reclaim: Reclaim::Backend } => {
                self.backend.deallocate(addr);
                proof {
                    if backing::apart(old(self).live()) {
                        backing::lemma_apart_fewer(old(self).live(), self.live());
                    }
                    assert forall|i: int| 0 <= i < self.chunks().len() implies {
                        &&& self.live().contains_key((#[trigger] self.chunks()[i]).base as usize)
                        &&& self.live()[self.chunks()[i].base as usize] == self.chunks()[i].seg
                        &&& super::layout_fits(
                            self.chunks()[i].seg,
                            self.policy().spec_alignment() as int,
                        )
                    } by {
                        assert(self.chunks()[i].ok());
                        assert(old(self).chunks()[i].base != addr);
                    }
                }
            },
            _ => {},
        }
    }

    /// Ends the allocator: every cached segment that nothing uses goes back to
    /// the device, which is handed over.
    pub fn close(self) -> (backend: B)
        requires
            self.wf(),
        ensures
            backend.on() == self.on(),
            backend.log() == self.log(),
            backend.live() == backing::without_segments(
                self.live(),
                space::idle_segments(self.chunks()),
            ),
    {
        let mut flushed = self;
        flushed.empty_cache();
        flushed.backend
    }
}

/// Taking a chunk leaves every other pointer's ownership alone.
proof fn lemma_taken_owned<B: Allocator, P: CachePolicy>(
    now: &CachingAllocator<B, P>,
    before: &CachingAllocator<B, P>,
    d: DataPtr,
    i: int,
    size: int,
    split: bool,
)
    requires
        0 <= i < before.chunks().len(),
        before.chunks()[i].free,
        now.chunks() == space::taken(before.chunks(), i, size, split),
        now.live() == before.live(),
        before.owns(d),
    ensures
        now.owns(d),
{
    match d.deleter() {
        Deleter::Custom(Reclaim::Block { size: n }) => {
            space::lemma_taken_keeps(before.chunks(), i, size, split, d.addr() as int, n as int);
        },
        Deleter::Custom(Reclaim::Backend) => {
            backing::lemma_taken_bases(before.chunks(), i, size, split, d.addr() as int);
        },
        _ => {},
    }
}

// ---------------------------------------------------------------------
// Laws
// ---------------------------------------------------------------------

/// The counters tell what the blocks show: what is handed out never exceeds what
/// is held, no peak is below the present, every request served and not yet given
/// back is one block in use, and every segment obtained and not yet given back
/// is held.
pub proof fn law_counters<B: Allocator, P: CachePolicy>(a: &CachingAllocator<B, P>)
    requires
        a.wf(),
    ensures
        a.counters().allocated_bytes == ledger::sum(a.chunks(), Measure::BytesInUse),
        a.counters().reserved_bytes == ledger::sum(a.chunks(), Measure::Bytes),
        a.counters().allocated_bytes <= a.counters().reserved_bytes,
        a.counters().num_free <= a.counters().num_alloc,
        a.counters().allocated_bytes <= a.counters().allocated_bytes_peak,
        a.counters().reserved_bytes <= a.counters().reserved_bytes_peak,
        a.counters().num_alloc - a.counters().num_free == ledger::sum(a.chunks(), Measure::InUse),
        a.counters().num_device_alloc - a.counters().num_device_free == ledger::sum(
            a.chunks(),
            Measure::Segments,
        ),
{
    ledger::lemma_sums(a.chunks());
}

/// The blocks are in address order, cover their segments without gaps or
/// overlaps, and no two free neighbours of a segment are left unmerged.
pub proof fn law_blocks<B: Allocator, P: CachePolicy>(a: &CachingAllocator<B, P>)
    requires
        a.wf(),
    ensures
        space::tiled(a.chunks()),
        space::settled(a.chunks()),
{
}

/// Two pointers to blocks are one, or lie apart; each lies in a live region of
/// the device.
pub proof fn law_pointers_lie_apart<B: Allocator, P: CachePolicy>(
    a: &CachingAllocator<B, P>,
    d: DataPtr,
    e: DataPtr,
    n: usize,
    m: usize,
)
    requires
        a.wf(),
        a.owns(d),
        a.owns(e),
        d.deleter() == Deleter::Custom(Reclaim::Block { size: n }),
        e.deleter() == Deleter::Custom(Reclaim::Block { size: m }),
    ensures
        d.addr() == e.addr() || d.addr() + n <= e.addr() || e.addr() + m <= d.addr(),
        exists|b: usize| #[trigger]
            a.live().contains_key(b) && b <= d.addr() && d.addr() + n <= b + a.live()[b],
{
    let s = a.chunks();
    let i = space::rank(s, d.addr() as int);
    space::law_chunks_in_use_lie_apart(
        s,
        d.addr() as int,
        n as int,
        e.addr() as int,
        m as int,
    );
    assert(s[i].ok());
    assert(a.live().contains_key(s[i].base as usize));
}

/// How many bytes a pointer owns.
pub open spec fn extent(d: DataPtr) -> int {
    match d.deleter() {
        Deleter::Custom(Reclaim::Block { size }) => size as int,
        Deleter::Custom(Reclaim::Backend) => d.layout().spec_size() as int,
        _ => 0,
    }
}

/// The region of the device that an owned pointer lies in: the segment of its
/// block, or the uncached memory itself.
pub open spec fn region<B: Allocator, P: CachePolicy>(
    a: &CachingAllocator<B, P>,
    d: DataPtr,
) -> usize {
    match d.deleter() {
        Deleter::Custom(Reclaim::Block { .. }) => a.chunks()[space::rank(
            a.chunks(),
            d.addr() as int,
        )].base as usize,
        _ => d.addr(),
    }
}

/// What a pointer owns lies in one live region of the device, and is not empty.
pub proof fn law_memory_is_live<B: Allocator, P: CachePolicy>(
    a: &CachingAllocator<B, P>,
    d: DataPtr,
)
    requires
        a.wf(),
        a.owns(d),
        d.deleter() != Deleter::Custom(Reclaim::Nothing),
    ensures
        extent(d) > 0,
        a.live().contains_key(region(a, d)),
        region(a, d) <= d.addr(),
        d.addr() + extent(d) <= region(a, d) + a.live()[region(a, d)],
{
    let s = a.chunks();
    if let Deleter::Custom(Reclaim::Block { size }) = d.deleter() {
        space::lemma_in_use(s, d.addr() as int, size as int);
        let i = space::rank(s, d.addr() as int);
        assert(s[i].ok());
        assert(a.live().contains_key(s[i].base as usize));
    }
}

/// On a device whose regions lie apart, what two pointers own, cached or not, is
/// one or lies apart.
pub proof fn law_memory_lies_apart<B: Allocator, P: CachePolicy>(
    a: &CachingAllocator<B, P>,
    d: DataPtr,
    e: DataPtr,
)
    requires
        a.wf(),
        backing::apart(a.live()),
        a.owns(d),
        a.owns(e),
        d.deleter() != Deleter::Custom(Reclaim::Nothing),
        e.deleter() != Deleter::Custom(Reclaim::Nothing),
    ensures
        d.addr() == e.addr() || d.addr() + extent(d) <= e.addr() || e.addr() + extent(e)
            <= d.addr(),
        d.addr() == e.addr() ==> (d.deleter() == Deleter::Custom(Reclaim::Backend)) == (
        e.deleter() == Deleter::Custom(Reclaim::Backend)),
{
    law_memory_is_live(a, d);
    law_memory_is_live(a, e);
    let s = a.chunks();
    match (d.deleter(), e.deleter()) {
        (
            Deleter::Custom(Reclaim::Block { size: n }),
            Deleter::Custom(Reclaim::Block { size: m }),
        ) => {
            space::law_chunks_in_use_lie_apart(
                s,
                d.addr() as int,
                n as int,
                e.addr() as int,
                m as int,
            );
        },
        (Deleter::Custom(Reclaim::Block { size: n }), _) => {
            space::lemma_in_use(s, d.addr() as int, n as int);
            let i = space::rank(s, d.addr() as int);
            assert(s[i].ok());
            assert(s[i].base != e.addr());
        },
        (_, Deleter::Custom(Reclaim::Block { size: m })) => {
            space::lemma_in_use(s, e.addr() as int, m as int);
            let j = space::rank(s, e.addr() as int);
            assert(s[j].ok());
            assert(s[j].base != d.addr());
        },
        _ => {},
    }
}

/// A block just handed out meets none of what was out before: no block, and, on a
/// device whose regions lie apart, no uncached memory.
pub proof fn law_fresh_pointer<B: Allocator, P: CachePolicy>(
    before: &CachingAllocator<B, P>,
    after: &CachingAllocator<B, P>,
    size: usize,
    d: DataPtr,
    e: DataPtr,
)
    requires
        before.wf(),
        after.wf(),
        0 < size,
        after.meets(before, size, Ok(d)),
        before.owns(e),
        after.owns(d),
        after.owns(e),
        e.deleter() != Deleter::Custom(Reclaim::Nothing),
        e.deleter() == Deleter::Custom(Reclaim::Backend) ==> backing::apart(before.live())
            && backing::apart(after.live()),
    ensures
        d.addr() + extent(d) <= e.addr() || e.addr() + extent(e) <= d.addr(),
{
    let s = before.chunks();
    let live = before.live();
    let small = size <= K_SMALL_SIZE;
    law_memory_is_live(before, e);
    if space::has_fit(s, small, size as int) {
        let i = space::rank(s, d.addr() as int);
        assert(s[i].ok());
        assert(live.contains_key(s[i].base as usize));
        match e.deleter() {
            Deleter::Custom(Reclaim::Block { size: m }) => {
                space::lemma_in_use(s, e.addr() as int, m as int);
            },
            _ => {
                assert(s[i].base != e.addr());
            },
        }
    } else {
        let left = backing::without_segments(live, space::idle_segments(s));
        match e.deleter() {
            Deleter::Custom(Reclaim::Block { size: m }) => {
                let j = space::rank(s, e.addr() as int);
                space::lemma_in_use(s, e.addr() as int, m as int);
                assert(s[j].ok());
                assert forall|x: int| 0 <= x < s.len() && (#[trigger] s[x]).idle() implies s[x].base
                    != s[j].base as usize by {
                    space::lemma_dropped(s, x);
                    assert(s[x].ok());
                    assert(s[j].base != s[x].base);
                }
                backing::lemma_not_idle(s, s[j].base as usize);
            },
            _ => {
                backing::lemma_uncached_kept(s, live, e.addr());
            },
        }
        assert(left.contains_key(region(before, e)));
    }
    assert(d.addr() != e.addr());
    match (d.deleter(), e.deleter()) {
        (
            Deleter::Custom(Reclaim::Block { size: n }),
            Deleter::Custom(Reclaim::Block { size: m }),
        ) => {
            law_pointers_lie_apart(after, d, e, n, m);
        },
        _ => {
            law_memory_lies_apart(after, d, e);
        },
    }
}

/// Uncached memory just handed out is none of what was out before.
pub proof fn law_fresh_uncached_pointer<B: Allocator, P: CachePolicy>(
    before: &CachingAllocator<B, P>,
    after: &CachingAllocator<B, P>,
    nbytes: usize,
    d: DataPtr,
    e: DataPtr,
)
    requires
        before.wf(),
        0 < nbytes,
        after.passes_on(before, nbytes, Ok(d)),
        before.owns(e),
        e.deleter() != Deleter::Custom(Reclaim::Nothing),
    ensures
        d.addr() + nbytes <= e.addr() || e.addr() + extent(e) <= d.addr(),
{
    law_memory_is_live(before, e);
}

/// Releasing a block right after it was handed out from the cache undoes it: the
/// blocks are as before, and so are the bytes handed out.
pub proof fn law_release_undoes_allocate<B: Allocator, P: CachePolicy>(
    before: &CachingAllocator<B, P>,
    held: &CachingAllocator<B, P>,
    after: &CachingAllocator<B, P>,
    size: usize,
    d: DataPtr,
)
    requires
        before.wf(),
        held.wf(),
        after.wf(),
        0 < size,
        space::has_fit(before.chunks(), size <= K_SMALL_SIZE, size as int),
        held.meets(before, size, Ok(d)),
        released(held, after, d),
    ensures
        after.chunks() == before.chunks(),
        after.live() == before.live(),
        after.counters().allocated_bytes == before.counters().allocated_bytes,
        after.counters().reserved_bytes == before.counters().reserved_bytes,
{
    let s = before.chunks();
    let i = space::rank(s, d.addr() as int);
    let p = before.policy();
    let split = p.spec_should_split(s[i].small, (s[i].size - size) as usize);
    space::lemma_taken_and_freed(s, held.chunks(), i, size as int, split);
}

/// A block that was handed out, with caching on, and released again serves the
/// next request of its size: the pointer is the same, and the device is not
/// asked.
pub proof fn law_released_block_is_reused<B: Allocator, P: CachePolicy>(
    before: &CachingAllocator<B, P>,
    held: &CachingAllocator<B, P>,
    free: &CachingAllocator<B, P>,
    again: &CachingAllocator<B, P>,
    size: usize,
    d: DataPtr,
    r: Result<DataPtr, AllocError>,
)
    requires
        before.wf(),
        held.wf(),
        free.wf(),
        0 < size,
        held.meets(before, size, Ok(d)),
        released(held, free, d),
        again.meets(free, size, r),
    ensures
        r matches Ok(e) && e.addr() == d.addr(),
        again.live() == held.live(),
        again.log() == held.log(),
        again.counters().num_device_alloc == held.counters().num_device_alloc,
{
    let s = before.chunks();
    let p = before.policy();
    let small = size <= K_SMALL_SIZE;
    if space::has_fit(s, small, size as int) {
        let i = space::rank(s, d.addr() as int);
        let split = p.spec_should_split(s[i].small, (s[i].size - size) as usize);
        space::lemma_taken_and_freed(s, held.chunks(), i, size as int, split);
        assert(s[i].pooled(small) && s[i].size >= size);
        if let Ok(e) = r {
            let k = space::rank(s, e.addr() as int);
            space::law_best_fit_is_unique(s, small, size as int, i, k);
        }
    } else {
        let seg = p.spec_segment_size(size, before.counters().reserved_bytes);
        let st = before.counters();
        let c = space::segment(d.addr() as int, seg as int, small, true);
        let now = carved(
            p,
            size,
            seg,
            s,
            st,
            before.live(),
            held.chunks(),
            held.counters(),
            held.live(),
            d,
        );
        let t = if now {
            s
        } else {
            space::kept(s)
        };
        let live = if now {
            before.live()
        } else {
            backing::without_segments(before.live(), space::idle_segments(s))
        };
        let align = p.spec_alignment() as int;
        space::lemma_kept_tiled(s);
        space::lemma_kept_fits_no_more(s, small, size as int);
        backing::lemma_kept_backed(s, before.live(), align);
        let g = space::grown(t, c);
        let i = space::rank(t, c.ptr);
        backing::lemma_fresh_clear(t, live, align, d.addr(), seg);
        space::lemma_grown(t, c);
        let split = p.spec_should_split(small, (seg - size) as usize);
        space::lemma_taken_and_freed(g, held.chunks(), i, size as int, split);
        space::lemma_lone_fit(t, c, size as int);
        if let Ok(e) = r {
            assert(space::best_fit(g, small, size as int, space::rank(g, e.addr() as int)));
        }
    }
}

/// The pointer to a block was released.
pub open spec fn released<B: Allocator, P: CachePolicy>(
    held: &CachingAllocator<B, P>,
    after: &CachingAllocator<B, P>,
    d: DataPtr,
) -> bool {
    &&& after.chunks() == space::freed(
        held.chunks(),
        space::rank(held.chunks(), d.addr() as int),
    )
    &&& after.counters() == held.counters().returned(d.layout().spec_size() as int)
    &&& after.live() == held.live()
    &&& after.log() == held.log()
    &&& after.on() == held.on()
    &&& after.policy() == held.policy()
}

/// Emptying the cache when nothing is in use gives every segment back: no block
/// is left, no byte is held, and as many segments went back as ever came.
pub proof fn law_idle_cache_empties<B: Allocator, P: CachePolicy>(
    before: &CachingAllocator<B, P>,
    after: &CachingAllocator<B, P>,
)
    requires
        before.wf(),
        after.wf(),
        before.counters().num_alloc == before.counters().num_free,
        after.chunks() == space::kept(before.chunks()),
        after.live() == backing::without_segments(
            before.live(),
            space::idle_segments(before.chunks()),
        ),
    ensures
        after.chunks() == Seq::<Chunk>::empty(),
        after.counters().reserved_bytes == 0,
        after.counters().allocated_bytes == 0,
        after.counters().num_device_free == after.counters().num_device_alloc,
        forall|i: int|
            0 <= i < before.chunks().len() ==> !after.live().contains_key(
                (#[trigger] before.chunks()[i]).base as usize,
            ),
{
    let s = before.chunks();
    ledger::lemma_none_in_use(s);
    space::law_nothing_in_use_nothing_kept(s);
    assert forall|i: int| 0 <= i < s.len() implies !after.live().contains_key(
        (#[trigger] s[i]).base as usize,
    ) by {
        space::lemma_free_chunks_are_idle(s, i);
        space::lemma_kept_members(s);
        let d = space::idle_segments(s);
        assert(s.contains(s[i]));
        assert(d.contains(s[i]));
        let k = choose|k: int| 0 <= k < d.len() && d[k] == s[i];
        assert(space::bases(d)[k] == s[i].base as usize);
        assert(space::bases(d).to_set().contains(s[i].base as usize));
    }
}

} // verus!

//! What the operations of the caching allocator amount to, in what its callers see:
//! the blocks, the counters and the calls on the device.
use vstd::prelude::*;

use super::super::backing;
use super::super::cache_stats::CacheStats;
use super::super::ledger::{self, Measure};
use super::super::space::{self, Chunk};
use super::super::traits::CachePolicy;
use super::super::{AllocError, Allocator, Answer, Ask, DataPtr, Deleter, Reclaim};
use super::CachingAllocator;

verus! {

/// The larger of two peaks.
spec fn peak(old: usize, now: usize) -> usize {
    if now > old {
        now
    } else {
        old
    }
}

/// Chunks and counters are in order.
spec fn sound(s: Seq<Chunk>, st: CacheStats) -> bool {
    &&& space::tiled(s)
    &&& space::settled(s)
    &&& st.allocated_bytes == ledger::sum(s, Measure::BytesInUse)
    &&& st.reserved_bytes == ledger::sum(s, Measure::Bytes)
    &&& st.allocated_bytes <= st.allocated_bytes_peak
    &&& st.reserved_bytes <= st.reserved_bytes_peak
    &&& st.num_device_alloc == st.num_device_free + ledger::sum(s, Measure::Segments)
}

/// The chunks and counters of an allocator are in order.
proof fn lemma_sound<B: Allocator, P: CachePolicy>(a: &CachingAllocator<B, P>)
    requires
        a.wf(),
    ensures
        sound(a.chunks(), a.counters()),
{
}

/// Handing out a free chunk, in the counters.
proof fn lemma_taken(s: Seq<Chunk>, st: CacheStats, i: int, size: int, split: bool)
    requires
        sound(s, st),
        0 <= i < s.len(),
        s[i].free,
        split ==> 0 < size < s[i].size,
        st.num_alloc < usize::MAX,
    ensures
        ({
            let n = if split {
                size
            } else {
                s[i].size
            };
            let t = st.handed_out(n).requested();
            &&& t.allocated_bytes == st.allocated_bytes + n
            &&& t.allocated_bytes_peak == peak(st.allocated_bytes_peak, t.allocated_bytes)
            &&& t.reserved_bytes == st.reserved_bytes
            &&& t.reserved_bytes_peak == st.reserved_bytes_peak
            &&& t.num_alloc == st.num_alloc + 1
            &&& t.num_free == st.num_free
            &&& t.num_device_alloc == st.num_device_alloc
            &&& t.num_device_free == st.num_device_free
        }),
{
    ledger::lemma_taken_sums(s, i, size, split);
}

/// Taking in a segment, in the counters.
proof fn lemma_widened(s: Seq<Chunk>, st: CacheStats, c: Chunk)
    requires
        sound(s, st),
        c.ok(),
        c.whole(),
        c.free,
        c.ptr == c.base,
        space::clear_of(s, c.base, c.seg),
        st.num_device_alloc < usize::MAX,
    ensures
        ({
            let t = st.reserved(c.size);
            &&& t.reserved_bytes == st.reserved_bytes + c.size
            &&& t.reserved_bytes_peak == peak(st.reserved_bytes_peak, t.reserved_bytes)
            &&& t.num_device_alloc == st.num_device_alloc + 1
            &&& t.num_device_free == st.num_device_free
            &&& t.num_alloc == st.num_alloc
            &&& t.num_free == st.num_free
            &&& t.allocated_bytes == st.allocated_bytes
            &&& t.allocated_bytes_peak == st.allocated_bytes_peak
            &&& sound(space::grown(s, c), t)
        }),
{
    space::lemma_grown(s, c);
    ledger::lemma_grown_ledger(s, c, true);
    ledger::lemma_room(s, c);
}

/// Giving the idle segments back, in the counters.
proof fn lemma_emptied(s: Seq<Chunk>, st: CacheStats)
    requires
        sound(s, st),
    ensures
        ({
            let t = super::emptied(st, s);
            &&& t.num_alloc == st.num_alloc
            &&& t.num_free == st.num_free
            &&& t.num_device_alloc == st.num_device_alloc
            &&& t.num_device_free == st.num_device_free + space::idle_segments(s).len()
            &&& t.allocated_bytes == st.allocated_bytes
            &&& t.allocated_bytes_peak == st.allocated_bytes_peak
            &&& t.reserved_bytes == ledger::sum(space::kept(s), Measure::Bytes)
            &&& t.reserved_bytes <= st.reserved_bytes
            &&& t.reserved_bytes_peak == st.reserved_bytes_peak
            &&& sound(space::kept(s), t)
        }),
{
    ledger::lemma_kept_sums(s, Measure::Bytes);
    ledger::lemma_kept_sums(s, Measure::Segments);
    ledger::lemma_kept_in_use(s);
    ledger::lemma_sums(s);
    space::lemma_kept_tiled(s);
}

// ---------------------------------------------------------------------
// Allocating
// ---------------------------------------------------------------------

/// Where a free block of the pool has room, the smallest such block serves the
/// request, the lowest of those of one size, and the device is not asked. Blocks of
/// at most 1 MiB are served from the small pool.
pub proof fn law_smallest_block_serves<B: Allocator, P: CachePolicy>(
    before: &CachingAllocator<B, P>,
    after: &CachingAllocator<B, P>,
    size: usize,
    r: Result<DataPtr, AllocError>,
    i: int,
)
    requires
        before.wf(),
        0 < size,
        after.meets(before, size, r),
        0 <= i < before.chunks().len(),
        before.chunks()[i].free,
        before.chunks()[i].small == (size <= 0x10_0000),
        size <= before.chunks()[i].size,
    ensures
        after.policy() == before.policy(),
        after.on() == before.on(),
        after.log() == before.log(),
        after.live() == before.live(),
        r matches Ok(d) && exists|k: int|
            0 <= k < before.chunks().len() && (#[trigger] before.chunks()[k]).ptr == d.addr()
                && before.chunks()[k].free && before.chunks()[k].small == before.chunks()[i].small
                && size <= before.chunks()[k].size && (before.chunks()[k].size
                < before.chunks()[i].size || (before.chunks()[k].size == before.chunks()[i].size
                && before.chunks()[k].ptr <= before.chunks()[i].ptr)),
{
    let s = before.chunks();
    let small = size <= 0x10_0000;
    assert(s[i].pooled(small));
    assert(space::has_fit(s, small, size as int));
    if let Ok(d) = r {
        let k = space::rank(s, d.addr() as int);
        assert(space::best_fit(s, small, size as int, k));
        assert(s[k].ptr == d.addr());
    }
}

/// Where no free block of the pool has room, the device is asked for a segment of
/// the size that the policy gives for what is held. If it gives none, the idle
/// segments go back to it and it is asked once more for the same bytes; if it gives
/// none again, the request fails. A failure of the device is passed on as it is.
pub proof fn law_device_is_asked<B: Allocator, P: CachePolicy>(
    before: &CachingAllocator<B, P>,
    after: &CachingAllocator<B, P>,
    size: usize,
    r: Result<DataPtr, AllocError>,
)
    requires
        before.wf(),
        0 < size,
        after.meets(before, size, r),
        forall|i: int|
            0 <= i < before.chunks().len() && (#[trigger] before.chunks()[i]).free
                && before.chunks()[i].small == (size <= 0x10_0000) ==> before.chunks()[i].size
                < size,
    ensures
        ({
            let n = before.log().len() as int;
            let seg = before.policy().spec_segment_size(size, before.counters().reserved_bytes);
            let left = backing::without_segments(
                before.live(),
                space::idle_segments(before.chunks()),
            );
            let first = after.log()[n];
            let second = after.log()[n + 1];
            &&& after.policy() == before.policy()
            &&& after.on() == before.on()
            &&& after.log().take(n) == before.log()
            &&& first.bytes == seg && first.live == before.live()
            &&& first.answer is Nothing <==> after.log().len() == n + 2
            &&& after.log().len() == n + 1 || after.log().len() == n + 2
            &&& first.answer matches Answer::Given(g) ==> {
                &&& r matches Ok(d) && d.addr() == g.addr()
                &&& after.live() == before.live().insert(g.addr(), first.bytes)
            }
            &&& first.answer matches Answer::Failed(e) ==> {
                &&& r == Err::<DataPtr, AllocError>(e)
                &&& after.live() == before.live()
                &&& after.chunks() == before.chunks()
            }
            &&& first.answer is Nothing ==> second.bytes == seg && second.live == left
            &&& first.answer is Nothing ==> match second.answer {
                Answer::Given(g) => {
                    &&& r matches Ok(d) && d.addr() == g.addr()
                    &&& after.live() == left.insert(g.addr(), second.bytes)
                },
                Answer::Nothing => {
                    &&& r == Err::<DataPtr, AllocError>(
                        AllocError::OutOfMemory { bytes: first.bytes, device: before.on() },
                    )
                    &&& after.live() == left
                },
                Answer::Failed(e) => {
                    &&& r == Err::<DataPtr, AllocError>(e)
                    &&& after.live() == left
                },
            }
        }),
{
    let s = before.chunks();
    let small = size <= 0x10_0000;
    let n = before.log().len() as int;
    assert(!space::has_fit(s, small, size as int)) by {
        if space::has_fit(s, small, size as int) {
            let i = choose|i: int|
                0 <= i < s.len() && (#[trigger] s[i]).pooled(small) && s[i].size >= size;
            assert(s[i].free && s[i].small == small);
        }
    }
    let seg = before.policy().spec_segment_size(size, before.counters().reserved_bytes);
    let none = before.log().push(
        Ask { bytes: seg, live: before.live(), answer: Answer::Nothing },
    );
    assert(none.len() == n + 1);
    assert(after.log().take(n) =~= before.log());
}

/// How a request was met from a free chunk, whether the chunk was there, or its
/// segment came in, or came in once the idle segments were gone.
proof fn lemma_met<B: Allocator, P: CachePolicy>(
    before: &CachingAllocator<B, P>,
    after: &CachingAllocator<B, P>,
    size: usize,
    d: DataPtr,
) -> (r: (Seq<Chunk>, CacheStats, Seq<Chunk>, CacheStats, int))
    requires
        before.wf(),
        after.wf(),
        before.counters().num_device_alloc < usize::MAX,
        0 < size,
        after.meets(before, size, Ok(d)),
    ensures
        ({
            let (from, st, s, st2, i) = r;
            let p = before.policy();
            let seg = p.spec_segment_size(size, before.counters().reserved_bytes) as int;
            let c = space::segment(d.addr() as int, seg, size <= 0x10_0000, true);
            let new = after.log().len() > before.log().len();
            let again = after.log().len() > before.log().len() + 1;
            let split = p.spec_should_split(s[i].small, (s[i].size - size) as usize);
            &&& sound(from, st)
            &&& from == (if again {
                space::kept(before.chunks())
            } else {
                before.chunks()
            })
            &&& st == (if again {
                super::emptied(before.counters(), before.chunks())
            } else {
                before.counters()
            })
            &&& sound(s, st2)
            &&& s == (if new {
                space::grown(from, c)
            } else {
                from
            })
            &&& st2 == (if new {
                st.reserved(seg)
            } else {
                st
            })
            &&& new ==> {
                &&& c.ok()
                &&& space::clear_of(from, c.base, c.seg)
                &&& s[i] == c
                &&& i == space::rank(from, c.ptr)
            }
            &&& 0 <= i < s.len()
            &&& s[i].free
            &&& s[i].small == (size <= 0x10_0000)
            &&& s[i].ptr == d.addr()
            &&& size <= s[i].size
            &&& split ==> size < s[i].size
            &&& after.chunks() == space::taken(s, i, size as int, split)
            &&& after.counters() == st2.handed_out(d.layout().spec_size() as int).requested()
            &&& d.layout().spec_size() == (if split {
                size as int
            } else {
                s[i].size
            })
            &&& d.layout().spec_align() == p.spec_alignment()
            &&& d.deleter() == Deleter::Custom(Reclaim::Block { size: d.layout().spec_size() })
            &&& after.log().len() >= before.log().len()
        }),
{
    let s = before.chunks();
    let p = before.policy();
    let small = size <= 0x10_0000;
    let seg = p.spec_segment_size(size, before.counters().reserved_bytes);
    lemma_sound(before);
    lemma_sound(after);
    if space::has_fit(s, small, size as int) {
        let i = space::rank(s, d.addr() as int);
        let split = p.spec_should_split(s[i].small, (s[i].size - size) as usize);
        assert(s[i].ok());
        if split {
            assert(after.chunks()[i + 1].ok());
        }
        (s, before.counters(), s, before.counters(), i)
    } else {
        let c = space::segment(d.addr() as int, seg as int, small, true);
        lemma_emptied(s, before.counters());
        backing::lemma_kept_backed(s, before.live(), p.spec_alignment() as int);
        let none = before.log().push(
            Ask { bytes: seg, live: before.live(), answer: Answer::Nothing },
        );
        assert(none.len() == before.log().len() + 1);
        let again = after.log().len() > before.log().len() + 1;
        let from = if again {
            space::kept(s)
        } else {
            s
        };
        let st = if again {
            super::emptied(before.counters(), s)
        } else {
            before.counters()
        };
        let live = if again {
            backing::without_segments(before.live(), space::idle_segments(s))
        } else {
            before.live()
        };
        backing::lemma_fresh_clear(from, live, p.spec_alignment() as int, d.addr(), seg);
        lemma_widened(from, st, c);
        space::lemma_grown(from, c);
        let g = space::grown(from, c);
        let i = space::rank(from, c.ptr);
        let split = p.spec_should_split(g[i].small, (g[i].size - size) as usize);
        if split {
            assert(after.chunks()[i + 1].ok());
        }
        (from, st, g, st.reserved(seg as int), i)
    }
}

/// A block holds the size it was asked for, and beyond that only what the policy
/// does not find worth keeping. It has the alignment of the policy and goes back to
/// the cache in its own size.
pub proof fn law_little_is_wasted<B: Allocator, P: CachePolicy>(
    before: &CachingAllocator<B, P>,
    after: &CachingAllocator<B, P>,
    size: usize,
    d: DataPtr,
)
    requires
        before.wf(),
        after.wf(),
        before.counters().num_device_alloc < usize::MAX,
        0 < size,
        after.meets(before, size, Ok(d)),
    ensures
        size <= d.layout().spec_size(),
        size < d.layout().spec_size() ==> !before.policy().spec_should_split(
            size <= 0x10_0000,
            (d.layout().spec_size() - size) as usize,
        ),
        d.layout().spec_align() == before.policy().spec_alignment(),
        d.deleter() == Deleter::Custom(Reclaim::Block { size: d.layout().spec_size() }),
        d.addr() != 0,
{
    let (from, st, s, st2, i) = lemma_met(before, after, size, d);
    assert(s[i].ok());
}

/// What allocating counts, where it succeeds: one block, which is all that is handed
/// out; a segment as held if the device gave one. No block is counted as given
/// back, and each peak is the larger of itself and the present.
pub proof fn law_allocating_counts<B: Allocator, P: CachePolicy>(
    before: &CachingAllocator<B, P>,
    after: &CachingAllocator<B, P>,
    size: usize,
    d: DataPtr,
)
    requires
        before.wf(),
        after.wf(),
        before.counters().num_alloc < usize::MAX,
        before.counters().num_device_alloc < usize::MAX,
        0 < size,
        after.meets(before, size, Ok(d)),
    ensures
        ({
            let a = before.counters();
            let b = after.counters();
            let asked = after.log().len() > before.log().len();
            let again = after.log().len() > before.log().len() + 1;
            let seg = before.policy().spec_segment_size(size, a.reserved_bytes) as int;
            &&& b.num_alloc == a.num_alloc + 1
            &&& b.num_free == a.num_free
            &&& b.allocated_bytes == a.allocated_bytes + d.layout().spec_size()
            &&& b.num_device_alloc == a.num_device_alloc + (if asked {
                1int
            } else {
                0
            })
            &&& !again ==> b.num_device_free == a.num_device_free
            &&& !again ==> b.reserved_bytes == a.reserved_bytes + (if asked {
                seg
            } else {
                0
            })
            &&& again ==> b.num_device_free == a.num_device_free + space::idle_segments(
                before.chunks(),
            ).len()
            &&& again ==> b.reserved_bytes == a.reserved_bytes - ledger::sum(
                space::idle_segments(before.chunks()),
                Measure::Bytes,
            ) + seg
            &&& b.allocated_bytes_peak == (if b.allocated_bytes > a.allocated_bytes_peak {
                b.allocated_bytes
            } else {
                a.allocated_bytes_peak
            })
            &&& b.reserved_bytes_peak == (if b.reserved_bytes > a.reserved_bytes_peak {
                b.reserved_bytes
            } else {
                a.reserved_bytes_peak
            })
        }),
{
    let (from, st, s, st2, i) = lemma_met(before, after, size, d);
    let p = before.policy();
    let seg = p.spec_segment_size(size, before.counters().reserved_bytes) as int;
    let split = p.spec_should_split(s[i].small, (s[i].size - size) as usize);
    lemma_sound(before);
    lemma_emptied(before.chunks(), before.counters());
    ledger::lemma_kept_sums(before.chunks(), Measure::Bytes);
    if after.log().len() > before.log().len() {
        lemma_widened(from, st, space::segment(d.addr() as int, seg, size <= 0x10_0000, true));
    }
    lemma_taken(s, st2, i, size as int, split);
}

/// What allocating does to the blocks: the one it hands out is in use at the
/// pointer, in its size, and every other block in use stays. What is free afterwards
/// was free, or is the rest behind the block. What was free stays, but for the block
/// that served and, where the device was asked twice, the idle segments.
pub proof fn law_allocating_takes_one_block<B: Allocator, P: CachePolicy>(
    before: &CachingAllocator<B, P>,
    after: &CachingAllocator<B, P>,
    size: usize,
    d: DataPtr,
    c: Chunk,
)
    requires
        before.wf(),
        after.wf(),
        before.counters().num_device_alloc < usize::MAX,
        0 < size,
        after.meets(before, size, Ok(d)),
    ensures
        exists|k: int|
            0 <= k < after.chunks().len() && (#[trigger] after.chunks()[k]).ptr == d.addr()
                && !after.chunks()[k].free && after.chunks()[k].size == d.layout().spec_size()
                && after.chunks()[k].small == (size <= 0x10_0000),
        c.ptr != d.addr() && !c.free ==> (after.chunks().contains(c) <==> before.chunks().contains(
            c,
        )),
        c.free && after.chunks().contains(c) && !before.chunks().contains(c) ==> {
            &&& c.ptr == d.addr() + d.layout().spec_size()
            &&& d.layout().spec_size() == size
            &&& before.policy().spec_should_split(size <= 0x10_0000, c.size as usize)
        },
        c.free && before.chunks().contains(c) && c.ptr != d.addr() && (after.log().len()
            <= before.log().len() + 1 || c.size != c.seg) ==> after.chunks().contains(c),
{
    let (from, st, s, st2, i) = lemma_met(before, after, size, d);
    let p = before.policy();
    let split = p.spec_should_split(s[i].small, (s[i].size - size) as usize);
    space::law_taking(s, i, size as int, split, c);
    let mine = Chunk { size: d.layout().spec_size() as int, free: false, ..s[i] };
    space::law_taking(s, i, size as int, split, mine);
    let k = choose|k: int| 0 <= k < after.chunks().len() && after.chunks()[k] == mine;
    assert(after.chunks()[k].ptr == d.addr());
    space::law_keeping(before.chunks(), c);
    if after.log().len() > before.log().len() {
        let seg = p.spec_segment_size(size, before.counters().reserved_bytes) as int;
        space::law_growing(
            from,
            space::segment(d.addr() as int, seg, size <= 0x10_0000, true),
            c,
        );
    }
}

/// A request that fails counts nothing and leaves the blocks, but for the idle
/// segments where the device was asked twice.
pub proof fn law_failing<B: Allocator, P: CachePolicy>(
    before: &CachingAllocator<B, P>,
    after: &CachingAllocator<B, P>,
    size: usize,
    e: AllocError,
    c: Chunk,
)
    requires
        before.wf(),
        after.meets(before, size, Err(e)),
    ensures
        ({
            let a = before.counters();
            let b = after.counters();
            let again = after.log().len() > before.log().len() + 1;
            &&& after.chunks().contains(c) <==> before.chunks().contains(c) && !(again && c.free
                && c.size == c.seg)
            &&& b.num_alloc == a.num_alloc
            &&& b.num_free == a.num_free
            &&& b.num_device_alloc == a.num_device_alloc
            &&& b.allocated_bytes == a.allocated_bytes
            &&& b.allocated_bytes_peak == a.allocated_bytes_peak
            &&& b.reserved_bytes_peak == a.reserved_bytes_peak
            &&& b.reserved_bytes == ledger::sum(after.chunks(), Measure::Bytes)
            &&& b.num_device_free - a.num_device_free == before.chunks().len()
                - after.chunks().len()
        }),
{
    lemma_sound(before);
    lemma_emptied(before.chunks(), before.counters());
    space::law_keeping(before.chunks(), c);
    let seg = before.policy().spec_segment_size(size, before.counters().reserved_bytes);
    let none = before.log().push(
        Ask { bytes: seg, live: before.live(), answer: Answer::Nothing },
    );
    assert(none.len() == before.log().len() + 1);
}

// ---------------------------------------------------------------------
// Past the cache
// ---------------------------------------------------------------------

/// Past the cache, the device is asked once for exactly the bytes of the request,
/// and what it gives or fails with is handed on; nothing is counted and no block
/// changes.
pub proof fn law_uncached_requests<B: Allocator, P: CachePolicy>(
    before: &CachingAllocator<B, P>,
    after: &CachingAllocator<B, P>,
    nbytes: usize,
    r: Result<DataPtr, AllocError>,
)
    requires
        0 < nbytes,
        after.passes_on(before, nbytes, r),
    ensures
        after.counters() == before.counters(),
        after.chunks() == before.chunks(),
        after.policy() == before.policy(),
        after.on() == before.on(),
        after.log().len() == before.log().len() + 1,
        after.log().drop_last() == before.log(),
        after.log().last().bytes == nbytes,
        after.log().last().live == before.live(),
        r matches Ok(d) ==> {
            &&& after.log().last().answer matches Answer::Given(g) && d.addr() == g.addr()
                && d.layout() == g.layout()
            &&& d.layout().spec_size() == nbytes
            &&& d.deleter() == Deleter::Custom(Reclaim::Backend)
            &&& after.live() == before.live().insert(d.addr(), nbytes)
        },
        r matches Err(e) ==> {
            &&& after.log().last().answer == Answer::Failed(e)
            &&& after.live() == before.live()
        },
{
    assert(after.log().drop_last() =~= before.log());
}

// ---------------------------------------------------------------------
// Giving back
// ---------------------------------------------------------------------

/// The chunks and counters after the block of `size` bytes at a pointer came back.
pub open spec fn gave_back<B: Allocator, P: CachePolicy>(
    before: &CachingAllocator<B, P>,
    after: &CachingAllocator<B, P>,
    d: DataPtr,
    size: usize,
) -> bool {
    &&& d.deleter() == Deleter::Custom(Reclaim::Block { size })
    &&& after.chunks() == space::freed(
        before.chunks(),
        space::rank(before.chunks(), d.addr() as int),
    )
    &&& after.counters() == before.counters().returned(size as int)
}

/// What giving a block back counts: one more block came back, whatever its size,
/// and its bytes are no longer handed out. Nothing else is counted.
pub proof fn law_releasing_counts<B: Allocator, P: CachePolicy>(
    before: &CachingAllocator<B, P>,
    after: &CachingAllocator<B, P>,
    d: DataPtr,
    size: usize,
)
    requires
        before.wf(),
        before.owns(d),
        gave_back(before, after, d, size),
    ensures
        after.counters().num_free == before.counters().num_free + 1,
        after.counters().num_alloc == before.counters().num_alloc,
        after.counters().allocated_bytes == before.counters().allocated_bytes - size,
        after.counters().reserved_bytes == before.counters().reserved_bytes,
        after.counters().num_device_alloc == before.counters().num_device_alloc,
        after.counters().num_device_free == before.counters().num_device_free,
        after.counters().allocated_bytes_peak == before.counters().allocated_bytes_peak,
        after.counters().reserved_bytes_peak == before.counters().reserved_bytes_peak,
{
    let s = before.chunks();
    space::lemma_in_use(s, d.addr() as int, size as int);
    let i = space::rank(s, d.addr() as int);
    ledger::lemma_freed_sums(s, i);
    ledger::lemma_part(s, i);
    ledger::lemma_sums(s);
}

/// What giving a block back does to the blocks: it is no longer in use, and every
/// other one is. Its bytes are in one free block of its segment and pool; other
/// segments stay as they are.
pub proof fn law_releasing_frees_one_block<B: Allocator, P: CachePolicy>(
    before: &CachingAllocator<B, P>,
    after: &CachingAllocator<B, P>,
    d: DataPtr,
    size: usize,
    c: Chunk,
    i: int,
)
    requires
        before.wf(),
        before.owns(d),
        gave_back(before, after, d, size),
        0 <= i < before.chunks().len(),
        before.chunks()[i].ptr == d.addr(),
    ensures
        !c.free ==> (after.chunks().contains(c) <==> before.chunks().contains(c) && c.ptr
            != d.addr()),
        c.base != before.chunks()[i].base ==> (after.chunks().contains(c)
            <==> before.chunks().contains(c)),
        exists|k: int|
            0 <= k < after.chunks().len() && (#[trigger] after.chunks()[k]).free
                && after.chunks()[k].ptr <= d.addr() && d.addr() + size <= after.chunks()[k].ptr
                + after.chunks()[k].size && after.chunks()[k].base == before.chunks()[i].base
                && after.chunks()[k].seg == before.chunks()[i].seg && after.chunks()[k].small
                == before.chunks()[i].small,
{
    let s = before.chunks();
    space::lemma_in_use(s, d.addr() as int, size as int);
    space::lemma_rank_at(s, i);
    space::law_freeing(s, i, c);
}

/// A new allocator has counted nothing.
pub proof fn law_new_counts<B: Allocator, P: CachePolicy>(a: &CachingAllocator<B, P>)
    requires
        a.counters() == CacheStats::zero(),
    ensures
        a.counters().allocated_bytes == 0 && a.counters().allocated_bytes_peak == 0,
        a.counters().reserved_bytes == 0 && a.counters().reserved_bytes_peak == 0,
        a.counters().num_alloc == 0 && a.counters().num_free == 0,
        a.counters().num_device_alloc == 0 && a.counters().num_device_free == 0,
{
}

/// Emptying the cache takes the segments of which nothing is in use, and them only.
/// It counts them, and nothing else but that their bytes are no longer held.
pub proof fn law_emptying<B: Allocator, P: CachePolicy>(
    before: &CachingAllocator<B, P>,
    after: &CachingAllocator<B, P>,
    c: Chunk,
)
    requires
        before.wf(),
        after.chunks() == space::kept(before.chunks()),
        after.counters() == super::emptied(before.counters(), before.chunks()),
    ensures
        after.chunks().contains(c) <==> before.chunks().contains(c) && !(c.free && c.size
            == c.seg),
        after.counters().num_alloc == before.counters().num_alloc,
        after.counters().num_free == before.counters().num_free,
        after.counters().allocated_bytes == before.counters().allocated_bytes,
        after.counters().num_device_alloc == before.counters().num_device_alloc,
        after.counters().num_device_free - before.counters().num_device_free
            == before.chunks().len() - after.chunks().len(),
        after.counters().reserved_bytes == ledger::sum(after.chunks(), Measure::Bytes),
        after.counters().allocated_bytes_peak == before.counters().allocated_bytes_peak,
        after.counters().reserved_bytes_peak == before.counters().reserved_bytes_peak,
{
    lemma_sound(before);
    lemma_emptied(before.chunks(), before.counters());
    space::law_keeping(before.chunks(), c);
}

// ---------------------------------------------------------------------
// At any time
// ---------------------------------------------------------------------

/// Blocks lie one behind the other in their segments, from end to end, and no two
/// free ones side by side; every segment is a region that the device handed out.
pub proof fn law_blocks_are_in_order<B: Allocator, P: CachePolicy>(
    a: &CachingAllocator<B, P>,
    i: int,
)
    requires
        a.wf(),
        0 <= i < a.chunks().len(),
    ensures
        ({
            let s = a.chunks();
            let c = s[i];
            let ends = i == s.len() - 1 || s[i + 1].base != c.base;
            &&& 0 < c.size && 0 < c.base <= c.ptr
            &&& c.ptr + c.size <= c.base + c.seg <= usize::MAX
            &&& i == 0 || s[i - 1].base != c.base ==> c.ptr == c.base
            &&& ends ==> c.ptr + c.size == c.base + c.seg
            &&& !ends ==> {
                &&& s[i + 1].ptr == c.ptr + c.size
                &&& s[i + 1].seg == c.seg && s[i + 1].small == c.small
                &&& !(c.free && s[i + 1].free)
            }
            &&& ends && i < s.len() - 1 ==> c.base + c.seg <= s[i + 1].base
            &&& a.live().contains_key(c.base as usize) && a.live()[c.base as usize] == c.seg
        }),
{
    let s = a.chunks();
    lemma_sound(a);
    space::law_chunks_cover_their_segments(s, i);
    if i < s.len() - 1 && s[i].base == s[i + 1].base {
        space::law_free_neighbours_are_one(s, i);
    }
    assert(a.live().contains_key(s[i].base as usize));
}

/// Where nothing changed, nothing did: not a block, a counter, a region or a call on
/// the device.
pub proof fn law_unchanged<B: Allocator, P: CachePolicy>(
    before: &CachingAllocator<B, P>,
    after: &CachingAllocator<B, P>,
)
    requires
        after.same_as(before),
    ensures
        after.chunks() == before.chunks(),
        after.counters() == before.counters(),
        after.live() == before.live(),
        after.log() == before.log(),
        after.on() == before.on(),
        after.policy() == before.policy(),
{
}

} // verus!

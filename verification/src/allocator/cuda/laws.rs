//! What the operations of the CUDA caching allocator amount to, in what its callers
//! see: the blocks, the counters, the requests and the calls on the device.
use vstd::prelude::*;

use super::super::backing;
use super::super::ledger::{self, Measure};
use super::super::space::{self, Chunk};
use super::super::{AllocError, DataPtr, Deleter, Reclaim};
use super::{Books, CachingAllocator, DeviceBackend};

verus! {

/// The larger of two peaks.
spec fn peak(old: usize, now: usize) -> usize {
    if now > old {
        now
    } else {
        old
    }
}

/// The books are in order.
spec fn sound(b: Books) -> bool {
    &&& space::tiled(b.chunks)
    &&& space::settled(b.chunks)
    &&& super::state::matching(b.chunks, b.requests)
    &&& b.counters.allocated_bytes == ledger::sum(b.chunks, Measure::BytesInUse)
    &&& b.counters.reserved_bytes == ledger::sum(b.chunks, Measure::Bytes)
    &&& b.counters.allocated_bytes <= b.counters.allocated_bytes_peak
    &&& b.counters.reserved_bytes <= b.counters.reserved_bytes_peak
    &&& b.counters.num_device_alloc == b.counters.num_device_free + ledger::sum(
        b.chunks,
        Measure::Segments,
    )
}

/// How many requests were counted and neither hold a block nor gave one back.
pub open spec fn unmet(b: Books) -> int {
    b.counters.num_alloc - b.counters.num_free - ledger::sum(b.chunks, Measure::InUse)
}

/// Taking a free block, in the books.
proof fn lemma_taken(b: Books, i: int, size: int, nbytes: usize)
    requires
        sound(b),
        0 <= i < b.chunks.len(),
        b.chunks[i].free,
        0 < size <= b.chunks[i].size,
    ensures
        ({
            let t = super::taken(b, i, size, nbytes);
            let n = super::taken_size(b.chunks[i], size);
            &&& size <= n <= b.chunks[i].size
            &&& t.counters.allocated_bytes == b.counters.allocated_bytes + n
            &&& t.counters.allocated_bytes_peak == peak(
                b.counters.allocated_bytes_peak,
                t.counters.allocated_bytes,
            )
            &&& t.counters.reserved_bytes == b.counters.reserved_bytes
            &&& t.counters.reserved_bytes_peak == b.counters.reserved_bytes_peak
            &&& t.counters.num_alloc == b.counters.num_alloc
            &&& t.counters.num_free == b.counters.num_free
            &&& t.counters.num_device_alloc == b.counters.num_device_alloc
            &&& t.counters.num_device_free == b.counters.num_device_free
            &&& unmet(t) == unmet(b) - 1
        }),
{
    let s = b.chunks;
    let split = super::worth_splitting(s[i].small, s[i].size - size);
    assert(s[i].ok());
    ledger::lemma_taken_sums(s, i, size, split);
}

/// Taking in a segment, in the books.
proof fn lemma_widened(b: Books, c: Chunk)
    requires
        sound(b),
        c.ok(),
        c.whole(),
        c.free,
        c.ptr == c.base,
        space::clear_of(b.chunks, c.base, c.seg),
        b.counters.num_device_alloc < u64::MAX,
    ensures
        ({
            let t = super::widened(b, c);
            &&& t.counters.reserved_bytes == b.counters.reserved_bytes + c.size
            &&& t.counters.reserved_bytes_peak == peak(
                b.counters.reserved_bytes_peak,
                t.counters.reserved_bytes,
            )
            &&& t.counters.num_device_alloc == b.counters.num_device_alloc + 1
            &&& t.counters.num_device_free == b.counters.num_device_free
            &&& t.counters.num_alloc == b.counters.num_alloc
            &&& t.counters.num_free == b.counters.num_free
            &&& t.counters.allocated_bytes == b.counters.allocated_bytes
            &&& t.counters.allocated_bytes_peak == b.counters.allocated_bytes_peak
            &&& unmet(t) == unmet(b)
            &&& sound(t)
        }),
{
    let s = b.chunks;
    let i = space::rank(s, c.ptr);
    let t = super::widened(b, c);
    space::lemma_grown(s, c);
    ledger::lemma_grown_ledger(s, c, true);
    ledger::lemma_room(s, c);
    assert forall|k: int| 0 <= k < t.chunks.len() implies if (#[trigger] t.chunks[k]).free {
        t.requests[k] == 0
    } else {
        0 < t.requests[k] <= t.chunks[k].size
    } by {
        if k < i {
            assert(t.chunks[k] == s[k]);
        } else if k > i {
            assert(t.chunks[k] == s[k - 1]);
        }
    }
}

/// What stays of the requests stays with its block.
proof fn lemma_kept_requests(s: Seq<Chunk>, r: Seq<usize>, k: int) -> (j: int)
    requires
        s.len() == r.len(),
        0 <= k < space::kept(s).len(),
    ensures
        super::state::kept_requests(s, r).len() == space::kept(s).len(),
        0 <= j < s.len(),
        space::kept(s)[k] == s[j],
        super::state::kept_requests(s, r)[k] == r[j],
    decreases s.len(),
{
    lemma_kept_requests_len(s, r);
    let t = s.drop_last();
    let q = r.drop_last();
    lemma_kept_requests_len(t, q);
    if s.last().idle() || k < space::kept(t).len() {
        lemma_kept_requests(t, q, k)
    } else {
        s.len() - 1
    }
}

/// As many requests stay as blocks.
proof fn lemma_kept_requests_len(s: Seq<Chunk>, r: Seq<usize>)
    requires
        s.len() == r.len(),
    ensures
        super::state::kept_requests(s, r).len() == space::kept(s).len(),
    decreases s.len(),
{
    if s.len() > 0 {
        lemma_kept_requests_len(s.drop_last(), r.drop_last());
    }
}

/// Giving the idle segments back, in the books.
proof fn lemma_emptied(b: Books)
    requires
        sound(b),
    ensures
        ({
            let t = super::emptied(b);
            &&& t.counters.num_alloc == b.counters.num_alloc
            &&& t.counters.num_free == b.counters.num_free
            &&& t.counters.num_device_alloc == b.counters.num_device_alloc
            &&& t.counters.num_device_free == b.counters.num_device_free
                + space::idle_segments(b.chunks).len()
            &&& t.counters.allocated_bytes == b.counters.allocated_bytes
            &&& t.counters.allocated_bytes_peak == b.counters.allocated_bytes_peak
            &&& t.counters.reserved_bytes == ledger::sum(t.chunks, Measure::Bytes)
            &&& t.counters.reserved_bytes <= b.counters.reserved_bytes
            &&& t.counters.reserved_bytes_peak == b.counters.reserved_bytes_peak
            &&& unmet(t) == unmet(b)
            &&& sound(t)
        }),
{
    let s = b.chunks;
    let t = super::emptied(b);
    ledger::lemma_kept_sums(s, Measure::Bytes);
    ledger::lemma_kept_sums(s, Measure::Segments);
    ledger::lemma_kept_in_use(s);
    ledger::lemma_sums(s);
    space::lemma_kept_tiled(s);
    lemma_kept_requests_len(s, b.requests);
    assert forall|k: int| 0 <= k < t.chunks.len() implies if (#[trigger] t.chunks[k]).free {
        t.requests[k] == 0
    } else {
        0 < t.requests[k] <= t.chunks[k].size
    } by {
        let j = lemma_kept_requests(s, b.requests, k);
        assert(s[j] == t.chunks[k]);
    }
}

/// The books of an allocator are in order.
proof fn lemma_sound<B: DeviceBackend>(a: &CachingAllocator<B>)
    requires
        a.wf(),
    ensures
        sound(a.books()),
{
}

// ---------------------------------------------------------------------
// Allocating
// ---------------------------------------------------------------------

/// Where a free block of the pool has room, the smallest such block serves the
/// request, the lowest of those of one size, and the device is not asked. Requests
/// whose block is at most 1 MiB are served from the small pool.
pub proof fn law_smallest_block_serves<B: DeviceBackend>(
    before: &CachingAllocator<B>,
    after: &CachingAllocator<B>,
    nbytes: usize,
    r: Result<DataPtr, AllocError>,
    i: int,
)
    requires
        before.wf(),
        0 < nbytes,
        after.meets(before, nbytes, r),
        0 <= i < before.chunks().len(),
        before.chunks()[i].free,
        before.chunks()[i].small == (super::rounded(nbytes as int) <= 0x10_0000),
        super::rounded(nbytes as int) <= before.chunks()[i].size,
    ensures
        after.index() == before.index(),
        after.log() == before.log(),
        after.live() == before.live(),
        r matches Ok(d) && exists|k: int|
            0 <= k < before.chunks().len() && (#[trigger] before.chunks()[k]).ptr == d.addr()
                && before.chunks()[k].free && before.chunks()[k].small == before.chunks()[i].small
                && super::rounded(nbytes as int) <= before.chunks()[k].size && (
            before.chunks()[k].size < before.chunks()[i].size || (before.chunks()[k].size
                == before.chunks()[i].size && before.chunks()[k].ptr <= before.chunks()[i].ptr)),
{
    let s = before.chunks();
    let size = super::rounded(nbytes as int);
    let small = size <= 0x10_0000;
    assert(s[i].pooled(small));
    assert(space::has_fit(s, small, size));
    if let Ok(d) = r {
        let k = space::rank(s, d.addr() as int);
        assert(space::best_fit(s, small, size, k));
        assert(s[k].ptr == d.addr());
    }
}

/// Where no free block of the pool has room, the device is asked for a segment. If
/// it gives none, the idle segments go back to it and it is asked once more for the
/// same bytes; if it gives none again, the request fails.
pub proof fn law_device_is_asked<B: DeviceBackend>(
    before: &CachingAllocator<B>,
    after: &CachingAllocator<B>,
    nbytes: usize,
    r: Result<DataPtr, AllocError>,
)
    requires
        before.wf(),
        0 < nbytes,
        super::sizes_fit(nbytes as int),
        after.meets(before, nbytes, r),
        forall|i: int|
            0 <= i < before.chunks().len() && (#[trigger] before.chunks()[i]).free
                && before.chunks()[i].small == (super::rounded(nbytes as int) <= 0x10_0000)
                ==> before.chunks()[i].size < super::rounded(nbytes as int),
    ensures
        ({
            let n = before.log().len() as int;
            let seg = super::segment(super::rounded(nbytes as int));
            let left = backing::without_segments(
                before.live(),
                space::idle_segments(before.chunks()),
            );
            let first = after.log()[n];
            let second = after.log()[n + 1];
            &&& after.index() == before.index()
            &&& after.log().take(n) == before.log()
            &&& first.bytes == seg && first.live == before.live()
            &&& first.ptr != 0 ==> {
                &&& after.log().len() == n + 1
                &&& r matches Ok(d) && d.addr() == first.ptr
                &&& after.live() == before.live().insert(first.ptr, first.bytes)
            }
            &&& first.ptr == 0 ==> {
                &&& after.log().len() == n + 2
                &&& second.bytes == seg && second.live == left
            }
            &&& first.ptr == 0 && second.ptr != 0 ==> {
                &&& r matches Ok(d) && d.addr() == second.ptr
                &&& after.live() == left.insert(second.ptr, second.bytes)
            }
            &&& first.ptr == 0 && second.ptr == 0 ==> {
                &&& r == Err::<DataPtr, AllocError>(
                    AllocError::CudaOutOfMemory {
                        bytes: first.bytes,
                        device_index: before.index(),
                    },
                )
                &&& after.live() == left
            }
        }),
{
    let s = before.chunks();
    let size = super::rounded(nbytes as int);
    let n = before.log().len() as int;
    super::law_sizes(nbytes as int);
    assert(!space::has_fit(s, size <= 0x10_0000, size)) by {
        if space::has_fit(s, size <= 0x10_0000, size) {
            let i = choose|i: int|
                0 <= i < s.len() && (#[trigger] s[i]).pooled(size <= 0x10_0000) && s[i].size
                    >= size;
            assert(s[i].free && s[i].small == (size <= 0x10_0000));
        }
    }
    assert(after.log().take(n) =~= before.log());
}

/// A block holds its request in whole 512 bytes, and beyond those hardly more is
/// handed out: less than 512 bytes in the small pool, at most 1 MiB in the large
/// one. It is aligned to 512 bytes and goes back to the cache in its own size.
pub proof fn law_little_is_wasted<B: DeviceBackend>(
    before: &CachingAllocator<B>,
    after: &CachingAllocator<B>,
    nbytes: usize,
    d: DataPtr,
)
    requires
        before.wf(),
        0 < nbytes,
        super::sizes_fit(nbytes as int),
        after.meets(before, nbytes, Ok(d)),
    ensures
        nbytes <= super::rounded(nbytes as int) <= d.layout().spec_size(),
        d.layout().spec_size() - super::rounded(nbytes as int) < (if super::rounded(nbytes as int)
            <= 0x10_0000 {
            512int
        } else {
            0x10_0001
        }),
        d.layout().spec_align() == 512,
        d.deleter() == Deleter::Custom(Reclaim::Block { size: d.layout().spec_size() }),
        d.addr() != 0,
{
    let s = before.chunks();
    let size = super::rounded(nbytes as int);
    super::law_sizes(nbytes as int);
    super::lemma_segment(size);
    if space::has_fit(s, size <= super::K_SMALL_SIZE, size) {
        let i = space::rank(s, d.addr() as int);
        assert(s[i].ok());
        super::law_splitting_bounds_waste(s[i].small, s[i].size - size, s[i].size - size);
    } else {
        super::law_splitting_bounds_waste(
            size <= super::K_SMALL_SIZE,
            super::segment(size) - size,
            super::segment(size) - size,
        );
    }
}

/// How a request was met from a free block, whether the block was there, or its
/// segment came in, or came in once the idle segments were gone.
proof fn lemma_met<B: DeviceBackend>(
    before: &CachingAllocator<B>,
    after: &CachingAllocator<B>,
    nbytes: usize,
    d: DataPtr,
) -> (r: (Books, Books, int))
    requires
        before.wf(),
        before.counters().num_alloc < u64::MAX,
        before.counters().num_device_alloc < u64::MAX,
        0 < nbytes,
        super::sizes_fit(nbytes as int),
        after.meets(before, nbytes, Ok(d)),
    ensures
        ({
            let (from, b, i) = r;
            let counted = Books {
                counters: before.counters().requested(),
                ..before.books()
            };
            let size = super::rounded(nbytes as int);
            let c = space::segment(
                d.addr() as int,
                super::segment(size),
                size <= 0x10_0000,
                true,
            );
            let new = after.log().len() > before.log().len();
            let again = after.log().len() > before.log().len() + 1;
            &&& sound(from)
            &&& from == (if again {
                super::emptied(counted)
            } else {
                counted
            })
            &&& sound(b)
            &&& b == (if new {
                super::widened(from, c)
            } else {
                from
            })
            &&& new ==> {
                &&& c.ok()
                &&& space::clear_of(from.chunks, c.base, c.seg)
                &&& i == space::rank(from.chunks, c.ptr)
                &&& b.chunks[i] == c
            }
            &&& 0 <= i < b.chunks.len()
            &&& b.chunks[i].free
            &&& b.chunks[i].small == (size <= 0x10_0000)
            &&& b.chunks[i].ptr == d.addr()
            &&& 0 < size <= b.chunks[i].size
            &&& after.books() == super::taken(b, i, size, nbytes)
            &&& super::taken_size(b.chunks[i], size) == d.layout().spec_size()
            &&& after.log().len() >= before.log().len()
        }),
{
    let s = before.chunks();
    let size = super::rounded(nbytes as int);
    let small = size <= 0x10_0000;
    let counted = Books { counters: before.counters().requested(), ..before.books() };
    lemma_sound(before);
    super::law_sizes(nbytes as int);
    super::lemma_segment(size);
    if space::has_fit(s, small, size) {
        let i = space::rank(s, d.addr() as int);
        (counted, counted, i)
    } else {
        let c = space::segment(d.addr() as int, super::segment(size), small, true);
        lemma_emptied(counted);
        backing::lemma_kept_backed(s, before.live(), super::K_MIN_BLOCK_SIZE as int);
        let again = after.log().len() > before.log().len() + 1;
        let from = if again {
            super::emptied(counted)
        } else {
            counted
        };
        let live = if again {
            backing::without_segments(before.live(), space::idle_segments(s))
        } else {
            before.live()
        };
        backing::lemma_fresh_clear(
            from.chunks,
            live,
            super::K_MIN_BLOCK_SIZE as int,
            d.addr(),
            super::segment(size) as usize,
        );
        lemma_widened(from, c);
        space::lemma_grown(from.chunks, c);
        (from, super::widened(from, c), space::rank(from.chunks, c.ptr))
    }
}

/// What allocating counts: one request, served or not; the whole block and nothing
/// else as handed out; a segment as held if the device gave one. No block is
/// counted as given back, and each peak is the larger of itself and the present.
/// Every counted request has a block, had one, or failed.
pub proof fn law_allocating_counts<B: DeviceBackend>(
    before: &CachingAllocator<B>,
    after: &CachingAllocator<B>,
    nbytes: usize,
    r: Result<DataPtr, AllocError>,
)
    requires
        before.wf(),
        after.wf(),
        before.counters().num_alloc < u64::MAX,
        before.counters().num_device_alloc < u64::MAX,
        0 < nbytes,
        super::sizes_fit(nbytes as int),
        after.meets(before, nbytes, r),
    ensures
        ({
            let a = before.counters();
            let b = after.counters();
            let asked = after.log().len() > before.log().len();
            let again = after.log().len() > before.log().len() + 1;
            let seg = super::segment(super::rounded(nbytes as int));
            let handed = match r {
                Ok(d) => d.layout().spec_size() as int,
                Err(_) => 0,
            };
            &&& b.num_alloc == a.num_alloc + 1
            &&& b.num_free == a.num_free
            &&& b.allocated_bytes == a.allocated_bytes + handed
            &&& b.num_device_alloc == a.num_device_alloc + (if asked && r is Ok {
                1int
            } else {
                0
            })
            &&& !again ==> b.num_device_free == a.num_device_free
            &&& !again ==> b.reserved_bytes == a.reserved_bytes + (if asked {
                seg
            } else {
                0
            })
            &&& again ==> b.num_device_free == a.num_device_free + space::idle_segments(
                before.chunks(),
            ).len()
            &&& again ==> b.reserved_bytes == a.reserved_bytes - ledger::sum(
                space::idle_segments(before.chunks()),
                Measure::Bytes,
            ) + (if r is Ok {
                seg
            } else {
                0
            })
            &&& b.allocated_bytes_peak == (if b.allocated_bytes > a.allocated_bytes_peak {
                b.allocated_bytes
            } else {
                a.allocated_bytes_peak
            })
            &&& b.reserved_bytes_peak == (if b.reserved_bytes > a.reserved_bytes_peak {
                b.reserved_bytes
            } else {
                a.reserved_bytes_peak
            })
            &&& unmet(after.books()) == unmet(before.books()) + (if r is Ok {
                0int
            } else {
                1
            })
        }),
{
    let s = before.chunks();
    let size = super::rounded(nbytes as int);
    let counted = Books { counters: before.counters().requested(), ..before.books() };
    lemma_sound(before);
    lemma_emptied(counted);
    ledger::lemma_kept_sums(s, Measure::Bytes);
    match r {
        Ok(d) => {
            let (from, b, i) = lemma_met(before, after, nbytes, d);
            lemma_taken(b, i, size, nbytes);
            if after.log().len() > before.log().len() {
                let c = space::segment(
                    d.addr() as int,
                    super::segment(size),
                    size <= 0x10_0000,
                    true,
                );
                lemma_widened(from, c);
            }
        },
        Err(_) => {
            super::law_sizes(nbytes as int);
        },
    }
}

/// What allocating does to the blocks: the one it hands out is in use at the
/// pointer, in its size, and every other block in use stays. What is free afterwards
/// was free, or is the rest behind the block. What was free stays, but for the block
/// that served and, where the device was asked twice, the idle segments.
pub proof fn law_allocating_takes_one_block<B: DeviceBackend>(
    before: &CachingAllocator<B>,
    after: &CachingAllocator<B>,
    nbytes: usize,
    d: DataPtr,
    c: Chunk,
)
    requires
        before.wf(),
        before.counters().num_alloc < u64::MAX,
        before.counters().num_device_alloc < u64::MAX,
        0 < nbytes,
        super::sizes_fit(nbytes as int),
        after.meets(before, nbytes, Ok(d)),
    ensures
        exists|k: int|
            0 <= k < after.chunks().len() && (#[trigger] after.chunks()[k]).ptr == d.addr()
                && !after.chunks()[k].free && after.chunks()[k].size == d.layout().spec_size()
                && after.chunks()[k].small == (super::rounded(nbytes as int) <= 0x10_0000),
        c.ptr != d.addr() && !c.free ==> (after.chunks().contains(c) <==> before.chunks().contains(
            c,
        )),
        c.free && after.chunks().contains(c) && !before.chunks().contains(c) ==> {
            &&& c.ptr == d.addr() + d.layout().spec_size()
            &&& d.layout().spec_size() == super::rounded(nbytes as int)
            &&& c.size >= (if super::rounded(nbytes as int) <= 0x10_0000 {
                512int
            } else {
                0x10_0001
            })
        },
        c.free && before.chunks().contains(c) && c.ptr != d.addr() && (after.log().len()
            <= before.log().len() + 1 || c.size != c.seg) ==> after.chunks().contains(c),
{
    let size = super::rounded(nbytes as int);
    let (from, b, i) = lemma_met(before, after, nbytes, d);
    let split = super::worth_splitting(b.chunks[i].small, b.chunks[i].size - size);
    lemma_taken(b, i, size, nbytes);
    super::law_splitting_bounds_waste(
        b.chunks[i].small,
        b.chunks[i].size - size,
        b.chunks[i].size - size,
    );
    space::law_taking(b.chunks, i, size, split, c);
    let mine = Chunk {
        size: d.layout().spec_size() as int,
        free: false,
        ..b.chunks[i]
    };
    space::law_taking(b.chunks, i, size, split, mine);
    let k = choose|k: int| 0 <= k < after.chunks().len() && after.chunks()[k] == mine;
    assert(after.chunks()[k].ptr == d.addr());
    space::law_keeping(before.chunks(), c);
    if after.log().len() > before.log().len() {
        let fresh = space::segment(d.addr() as int, super::segment(size), size <= 0x10_0000, true);
        space::law_growing(from.chunks, fresh, c);
    }
}

/// A request that fails leaves the blocks, but for the idle segments, which went
/// back to the device for nothing.
pub proof fn law_failing_empties_the_cache<B: DeviceBackend>(
    before: &CachingAllocator<B>,
    after: &CachingAllocator<B>,
    nbytes: usize,
    e: AllocError,
    c: Chunk,
)
    requires
        before.wf(),
        after.meets(before, nbytes, Err(e)),
    ensures
        after.chunks().contains(c) <==> before.chunks().contains(c) && !(c.free && c.size
            == c.seg),
        e == (AllocError::CudaOutOfMemory {
            bytes: after.log().last().bytes,
            device_index: before.index(),
        }),
{
    space::law_keeping(before.chunks(), c);
}

/// The block that is handed out is down for exactly the bytes that were asked for,
/// and every other block in use for what it was.
pub proof fn law_allocating_sets_the_request_down<B: DeviceBackend>(
    before: &CachingAllocator<B>,
    after: &CachingAllocator<B>,
    nbytes: usize,
    d: DataPtr,
    j: int,
    k: int,
)
    requires
        before.wf(),
        after.wf(),
        before.counters().num_alloc < u64::MAX,
        before.counters().num_device_alloc < u64::MAX,
        0 < nbytes,
        super::sizes_fit(nbytes as int),
        after.meets(before, nbytes, Ok(d)),
        0 <= k < after.chunks().len(),
    ensures
        after.chunks()[k].ptr == d.addr() ==> after.requests()[k] == nbytes,
        after.chunks()[k].free ==> after.requests()[k] == 0,
        0 <= j < before.chunks().len() && !before.chunks()[j].free && after.chunks()[k].ptr
            == before.chunks()[j].ptr ==> after.requests()[k] == before.requests()[j],
{
    let s = before.chunks();
    let t = after.chunks();
    let size = super::rounded(nbytes as int);
    let (from, b, i) = lemma_met(before, after, nbytes, d);
    let split = super::worth_splitting(b.chunks[i].small, b.chunks[i].size - size);
    lemma_sound(after);
    assert(t[i].ptr == d.addr());
    if t[k].ptr == d.addr() {
        space::lemma_same_ptr(t, i, k);
    }
    if 0 <= j < s.len() && !s[j].free && t[k].ptr == s[j].ptr {
        if k == i {
            lemma_free_start(before, after, nbytes, d, j);
        } else if split && k == i + 1 {
            assert(t[k].free);
            lemma_still_in_use(before, after, nbytes, d, j);
            let x = choose|x: int| 0 <= x < t.len() && t[x] == s[j];
            space::lemma_same_ptr(t, x, k);
        } else {
            // The block in the books before it was taken, and before its segment
            // came.
            let y = lemma_taken_requests(b, i, size, nbytes, k);
            let z = if after.log().len() > before.log().len() {
                lemma_widened_requests(from, b.chunks[i], y)
            } else {
                y
            };
            lemma_counted_requests(before, from, z, j);
        }
    }
}

/// What a block is down for when another one is taken.
proof fn lemma_taken_requests(b: Books, i: int, size: int, nbytes: usize, k: int) -> (y: int)
    requires
        b.chunks.len() == b.requests.len(),
        0 <= i < b.chunks.len(),
        0 <= k < super::taken(b, i, size, nbytes).chunks.len(),
        k != i,
        super::worth_splitting(b.chunks[i].small, b.chunks[i].size - size) ==> k != i + 1,
    ensures
        0 <= y < b.chunks.len(),
        y != i,
        b.chunks[y] == super::taken(b, i, size, nbytes).chunks[k],
        b.requests[y] == super::taken(b, i, size, nbytes).requests[k],
{
    if super::worth_splitting(b.chunks[i].small, b.chunks[i].size - size) && k > i {
        k - 1
    } else {
        k
    }
}

/// What a block is down for when a segment comes in.
proof fn lemma_widened_requests(b: Books, c: Chunk, y: int) -> (z: int)
    requires
        space::chained(b.chunks),
        b.chunks.len() == b.requests.len(),
        0 <= y < super::widened(b, c).chunks.len(),
        y != space::rank(b.chunks, c.ptr),
    ensures
        0 <= z < b.chunks.len(),
        b.chunks[z] == super::widened(b, c).chunks[y],
        b.requests[z] == super::widened(b, c).requests[y],
{
    space::lemma_rank(b.chunks, c.ptr);
    if y > space::rank(b.chunks, c.ptr) {
        y - 1
    } else {
        y
    }
}

/// What a block is down for when a request is counted, and the cache emptied or not.
proof fn lemma_counted_requests<B: DeviceBackend>(
    before: &CachingAllocator<B>,
    from: Books,
    z: int,
    j: int,
)
    requires
        before.wf(),
        ({
            let counted = Books {
                counters: before.counters().requested(),
                ..before.books()
            };
            from == counted || from == super::emptied(counted)
        }),
        0 <= z < from.chunks.len(),
        0 <= j < before.chunks().len(),
        from.chunks[z].ptr == before.chunks()[j].ptr,
    ensures
        from.requests[z] == before.requests()[j],
{
    let s = before.chunks();
    let counted = Books { counters: before.counters().requested(), ..before.books() };
    lemma_sound(before);
    if from == super::emptied(counted) {
        let w = lemma_kept_requests(s, before.requests(), z);
        space::lemma_same_ptr(s, w, j);
    } else {
        space::lemma_same_ptr(s, z, j);
    }
}

/// No block was in use where the block now handed out begins.
proof fn lemma_free_start<B: DeviceBackend>(
    before: &CachingAllocator<B>,
    after: &CachingAllocator<B>,
    nbytes: usize,
    d: DataPtr,
    j: int,
)
    requires
        before.wf(),
        before.counters().num_alloc < u64::MAX,
        before.counters().num_device_alloc < u64::MAX,
        0 < nbytes,
        super::sizes_fit(nbytes as int),
        after.meets(before, nbytes, Ok(d)),
        0 <= j < before.chunks().len(),
        !before.chunks()[j].free,
    ensures
        before.chunks()[j].ptr != d.addr(),
{
    let s = before.chunks();
    let (from, b, i) = lemma_met(before, after, nbytes, d);
    space::law_keeping(s, s[j]);
    assert(s.contains(s[j]));
    assert(from.chunks.contains(s[j]));
    let x = choose|x: int| 0 <= x < from.chunks.len() && from.chunks[x] == s[j];
    assert(from.chunks[x].ok());
    if s[j].ptr == d.addr() && after.log().len() <= before.log().len() {
        space::lemma_same_ptr(s, i, j);
    }
}

/// A block in use stays.
proof fn lemma_still_in_use<B: DeviceBackend>(
    before: &CachingAllocator<B>,
    after: &CachingAllocator<B>,
    nbytes: usize,
    d: DataPtr,
    j: int,
)
    requires
        before.wf(),
        before.counters().num_alloc < u64::MAX,
        before.counters().num_device_alloc < u64::MAX,
        0 < nbytes,
        super::sizes_fit(nbytes as int),
        after.meets(before, nbytes, Ok(d)),
        0 <= j < before.chunks().len(),
        !before.chunks()[j].free,
    ensures
        after.chunks().contains(before.chunks()[j]),
{
    lemma_free_start(before, after, nbytes, d, j);
    law_allocating_takes_one_block(before, after, nbytes, d, before.chunks()[j]);
    assert(before.chunks().contains(before.chunks()[j]));
}

// ---------------------------------------------------------------------
// Past the cache
// ---------------------------------------------------------------------

/// Past the cache, the device is asked once for exactly the bytes of the request,
/// and what it gives is handed on; nothing is counted and no block changes.
pub proof fn law_uncached_requests<B: DeviceBackend>(
    before: &CachingAllocator<B>,
    after: &CachingAllocator<B>,
    nbytes: usize,
    r: Result<DataPtr, AllocError>,
)
    requires
        0 < nbytes,
        after.passes_on(before, nbytes, r),
    ensures
        after.counters() == before.counters(),
        after.chunks() == before.chunks(),
        after.requests() == before.requests(),
        after.index() == before.index(),
        after.log().len() == before.log().len() + 1,
        after.log().drop_last() == before.log(),
        after.log().last().bytes == nbytes,
        after.log().last().live == before.live(),
        r is Ok <==> after.log().last().ptr != 0,
        r matches Ok(d) ==> {
            &&& d.addr() == after.log().last().ptr
            &&& d.layout().spec_size() == nbytes
            &&& d.deleter() == Deleter::Custom(Reclaim::Backend)
            &&& after.live() == before.live().insert(d.addr(), nbytes)
        },
        r matches Err(e) ==> {
            &&& after.live() == before.live()
            &&& e == (AllocError::CudaOutOfMemory {
                bytes: nbytes,
                device_index: before.index(),
            })
        },
{
    assert(after.log().drop_last() =~= before.log());
}

// ---------------------------------------------------------------------
// Giving back
// ---------------------------------------------------------------------

/// What giving a block back counts: one more block came back, whatever its size,
/// and its bytes are no longer handed out. Nothing else is counted.
pub proof fn law_releasing_counts<B: DeviceBackend>(
    before: &CachingAllocator<B>,
    after: &CachingAllocator<B>,
    d: DataPtr,
    size: usize,
)
    requires
        before.wf(),
        before.owns(d),
        d.deleter() == Deleter::Custom(Reclaim::Block { size }),
        after.books() == super::given_back(before.books(), d.addr() as int, size as int),
    ensures
        after.counters().num_free == before.counters().num_free + 1,
        after.counters().num_alloc == before.counters().num_alloc,
        after.counters().allocated_bytes == before.counters().allocated_bytes - size,
        after.counters().reserved_bytes == before.counters().reserved_bytes,
        after.counters().num_device_alloc == before.counters().num_device_alloc,
        after.counters().num_device_free == before.counters().num_device_free,
        after.counters().allocated_bytes_peak == before.counters().allocated_bytes_peak,
        after.counters().reserved_bytes_peak == before.counters().reserved_bytes_peak,
        unmet(after.books()) == unmet(before.books()),
{
    let s = before.chunks();
    space::lemma_in_use(s, d.addr() as int, size as int);
    let i = space::rank(s, d.addr() as int);
    ledger::lemma_freed_sums(s, i);
    ledger::lemma_part(s, i);
    ledger::lemma_sums(s);
}

/// What giving a block back does to the blocks: it is no longer in use, and every
/// other one is. Its bytes are in one free block of its segment and pool; other
/// segments stay as they are.
pub proof fn law_releasing_frees_one_block<B: DeviceBackend>(
    before: &CachingAllocator<B>,
    after: &CachingAllocator<B>,
    d: DataPtr,
    size: usize,
    c: Chunk,
    i: int,
)
    requires
        before.wf(),
        before.owns(d),
        d.deleter() == Deleter::Custom(Reclaim::Block { size }),
        after.books() == super::given_back(before.books(), d.addr() as int, size as int),
        0 <= i < before.chunks().len(),
        before.chunks()[i].ptr == d.addr(),
    ensures
        !c.free ==> (after.chunks().contains(c) <==> before.chunks().contains(c) && c.ptr
            != d.addr()),
        c.base != before.chunks()[i].base ==> (after.chunks().contains(c)
            <==> before.chunks().contains(c)),
        exists|k: int|
            0 <= k < after.chunks().len() && (#[trigger] after.chunks()[k]).free
                && after.chunks()[k].ptr <= d.addr() && d.addr() + size <= after.chunks()[k].ptr
                + after.chunks()[k].size && after.chunks()[k].base == before.chunks()[i].base
                && after.chunks()[k].seg == before.chunks()[i].seg && after.chunks()[k].small
                == before.chunks()[i].small,
{
    let s = before.chunks();
    space::lemma_in_use(s, d.addr() as int, size as int);
    space::lemma_rank_at(s, i);
    space::law_freeing(s, i, c);
}

/// Giving a block back leaves what the other blocks in use are down for.
pub proof fn law_releasing_keeps_other_requests<B: DeviceBackend>(
    before: &CachingAllocator<B>,
    after: &CachingAllocator<B>,
    d: DataPtr,
    size: usize,
    j: int,
    k: int,
)
    requires
        before.wf(),
        after.wf(),
        before.owns(d),
        d.deleter() == Deleter::Custom(Reclaim::Block { size }),
        after.books() == super::given_back(before.books(), d.addr() as int, size as int),
        0 <= k < after.chunks().len(),
    ensures
        after.chunks()[k].free ==> after.requests()[k] == 0,
        0 <= j < before.chunks().len() && !before.chunks()[j].free && before.chunks()[j].ptr
            != d.addr() && after.chunks()[k].ptr == before.chunks()[j].ptr ==> after.requests()[k]
            == before.requests()[j],
{
    let s = before.chunks();
    let f = after.chunks();
    lemma_sound(before);
    lemma_sound(after);
    space::lemma_in_use(s, d.addr() as int, size as int);
    let i = space::rank(s, d.addr() as int);
    let m = space::marked(s, i);
    let q = before.requests().update(i, 0usize);
    space::lemma_marked(s, i);
    space::lemma_merged(m, i);
    if 0 <= j < s.len() && !s[j].free && s[j].ptr != d.addr() && f[k].ptr == s[j].ptr {
        let a = space::joined_prev(m, i);
        let at = space::merged_at(m, i);
        let p = if space::prev_free(m, i) {
            super::state::joined_requests(q, i - 1)
        } else {
            q
        };
        if space::prev_free(m, i) {
            space::lemma_joined(m, i - 1);
        }
        if space::next_free(a, at) {
            space::lemma_joined(a, at);
        }
        // Where the block stands on the way.
        let y = if space::prev_free(m, i) && j > i - 1 {
            j - 1
        } else {
            j
        };
        assert(m[j] == s[j]);
        assert(a[y] == s[j]);
        assert(p[y] == before.requests()[j]);
        assert(y != at);
        let z = if space::next_free(a, at) && y > at {
            y - 1
        } else {
            y
        };
        assert(f[z] == s[j]);
        assert(after.requests()[z] == before.requests()[j]);
        space::lemma_same_ptr(f, z, k);
    }
}

/// Emptying the cache takes the segments of which nothing is in use, and them only;
/// the device has them back. It counts them, and nothing else but that their bytes
/// are no longer held.
pub proof fn law_emptying<B: DeviceBackend>(
    before: &CachingAllocator<B>,
    after: &CachingAllocator<B>,
    c: Chunk,
)
    requires
        before.wf(),
        after.books() == super::emptied(before.books()),
    ensures
        after.chunks().contains(c) <==> before.chunks().contains(c) && !(c.free && c.size
            == c.seg),
        after.counters().num_alloc == before.counters().num_alloc,
        after.counters().num_free == before.counters().num_free,
        after.counters().allocated_bytes == before.counters().allocated_bytes,
        after.counters().num_device_alloc == before.counters().num_device_alloc,
        after.counters().num_device_free - before.counters().num_device_free
            == before.chunks().len() - after.chunks().len(),
        after.counters().reserved_bytes == ledger::sum(after.chunks(), Measure::Bytes),
        after.counters().allocated_bytes_peak == before.counters().allocated_bytes_peak,
        after.counters().reserved_bytes_peak == before.counters().reserved_bytes_peak,
        unmet(after.books()) == unmet(before.books()),
{
    lemma_sound(before);
    lemma_emptied(before.books());
    space::law_keeping(before.chunks(), c);
}

/// Emptying the cache leaves what the blocks are down for.
pub proof fn law_emptying_keeps_requests<B: DeviceBackend>(
    before: &CachingAllocator<B>,
    after: &CachingAllocator<B>,
    j: int,
    k: int,
)
    requires
        before.wf(),
        after.books() == super::emptied(before.books()),
        0 <= k < after.chunks().len(),
        0 <= j < before.chunks().len(),
        after.chunks()[k].ptr == before.chunks()[j].ptr,
    ensures
        after.requests()[k] == before.requests()[j],
{
    lemma_sound(before);
    let w = lemma_kept_requests(before.chunks(), before.requests(), k);
    space::lemma_same_ptr(before.chunks(), w, j);
}

/// A new allocator has counted nothing.
pub proof fn law_new_counts<B: DeviceBackend>(a: &CachingAllocator<B>)
    requires
        a.chunks() == Seq::<Chunk>::empty(),
        a.counters() == super::CacheStats::zero(),
    ensures
        a.counters().allocated_bytes == 0 && a.counters().allocated_bytes_peak == 0,
        a.counters().reserved_bytes == 0 && a.counters().reserved_bytes_peak == 0,
        a.counters().num_alloc == 0 && a.counters().num_free == 0,
        a.counters().num_device_alloc == 0 && a.counters().num_device_free == 0,
        unmet(a.books()) == 0,
{
}

/// Over any run of operations from a new allocator on, every counted request has its
/// block, gave it back, or failed: `failed[k]` tells how many failed up to step `k`.
pub proof fn law_requests_add_up(run: Seq<Books>, failed: Seq<int>)
    requires
        run.len() > 0,
        failed.len() == run.len(),
        unmet(run[0]) == 0,
        failed[0] == 0,
        forall|k: int|
            0 <= k < run.len() - 1 ==> unmet(#[trigger] run[k + 1]) - unmet(run[k]) == failed[k + 1]
                - failed[k],
    ensures
        run.last().counters.num_alloc == run.last().counters.num_free + ledger::sum(
            run.last().chunks,
            Measure::InUse,
        ) + failed.last(),
    decreases run.len(),
{
    let n = run.len() - 1;
    if n > 0 {
        let a = run.drop_last();
        let f = failed.drop_last();
        assert forall|k: int| 0 <= k < a.len() - 1 implies unmet(#[trigger] a[k + 1]) - unmet(a[k])
            == f[k + 1] - f[k] by {
            assert(unmet(run[k + 1]) - unmet(run[k]) == failed[k + 1] - failed[k]);
        }
        law_requests_add_up(a, f);
        assert(unmet(run[(n - 1) + 1]) - unmet(run[n - 1]) == failed[n] - failed[n - 1]);
    }
}

// ---------------------------------------------------------------------
// At any time
// ---------------------------------------------------------------------

/// Blocks lie one behind the other in their segments, from end to end, and no two
/// free ones side by side; a free block is down for nothing, any other for at least
/// a byte and no more than it has.
pub proof fn law_blocks_are_in_order<B: DeviceBackend>(a: &CachingAllocator<B>, i: int)
    requires
        a.wf(),
        0 <= i < a.chunks().len(),
    ensures
        ({
            let s = a.chunks();
            let c = s[i];
            let ends = i == s.len() - 1 || s[i + 1].base != c.base;
            &&& 0 < c.size && 0 < c.base <= c.ptr
            &&& c.ptr + c.size <= c.base + c.seg <= usize::MAX
            &&& i == 0 || s[i - 1].base != c.base ==> c.ptr == c.base
            &&& ends ==> c.ptr + c.size == c.base + c.seg
            &&& !ends ==> {
                &&& s[i + 1].ptr == c.ptr + c.size
                &&& s[i + 1].seg == c.seg && s[i + 1].small == c.small
                &&& !(c.free && s[i + 1].free)
            }
            &&& ends && i < s.len() - 1 ==> c.base + c.seg <= s[i + 1].base
            &&& a.live().contains_key(c.base as usize) && a.live()[c.base as usize] == c.seg
            &&& c.free ==> a.requests()[i] == 0
            &&& !c.free ==> 0 < a.requests()[i] <= c.size
        }),
{
    let s = a.chunks();
    lemma_sound(a);
    space::law_chunks_cover_their_segments(s, i);
    if i < s.len() - 1 && s[i].base == s[i + 1].base {
        space::law_free_neighbours_are_one(s, i);
    }
    assert(a.live().contains_key(s[i].base as usize));
}

/// Where nothing changed, nothing did: not a block, a request, a counter, a region or
/// a call on the device.
pub proof fn law_unchanged<B: DeviceBackend>(
    before: &CachingAllocator<B>,
    after: &CachingAllocator<B>,
)
    requires
        after.same_as(before),
    ensures
        after.chunks() == before.chunks(),
        after.requests() == before.requests(),
        after.counters() == before.counters(),
        after.live() == before.live(),
        after.log() == before.log(),
        after.index() == before.index(),
{
}

} // verus!

//! Size rules for Metal's shared-storage heaps.
use vstd::arithmetic::power2::*;
use vstd::prelude::*;
use vstd::string::*;

use super::caching::CachingAllocator;
use super::traits::{
    checked_round_up, dedicated_segment_size, CachePolicy, K_MIN_LARGE_ALLOC, K_SMALL_SIZE,
};
use super::{AllocError, Allocator, DataPtr, Layout};

verus! {

/// Heap for small allocations: 8 MiB.
pub const K_SMALL_HEAP: usize = 0x80_0000;

/// Heap for 1 to 10 MiB allocations: 32 MiB.
pub const K_LARGE_HEAP: usize = 0x200_0000;

/// Heap for 10 MiB to 512 MiB allocations absent memory pressure: 1 GiB.
pub const K_XLARGE_HEAP: usize = 0x4000_0000;

/// The size rules, parameterized by the properties of the device.
#[derive(Debug, Clone, Copy, PartialEq, Eq, Structural)]
pub struct MpsPolicy {
    /// Placement alignment of heap buffers.
    pub alignment: usize,
    /// Page size: the smallest granule large requests are bucketed to.
    pub page_size: usize,
    /// Longest buffer; requests must be smaller.
    pub max_buffer_size: usize,
    /// Reserved bytes at which large allocations count as under memory
    /// pressure. `usize::MAX` disables it.
    pub low_watermark_limit: usize,
}

/// What a Metal device reports about itself.
#[derive(Debug, Clone, Copy, PartialEq, Eq, Structural)]
pub struct Limits {
    /// Placement alignment of heap buffers.
    pub alignment: usize,
    /// Page size.
    pub page_size: usize,
    /// Longest buffer.
    pub max_buffer_length: usize,
    /// Bytes that the device recommends to hold at most.
    pub recommended_max_working_set: usize,
}

/// Heap size class.
#[derive(Debug, Clone, Copy, PartialEq, Eq, Structural)]
pub enum HeapTier {
    /// Up to 1 MiB.
    Small,
    /// Below 10 MiB.
    Large,
    /// Below 512 MiB, absent memory pressure.
    XLarge,
    /// A heap of its own.
    Oversize,
}

/// The heap size class of a block.
pub open spec fn tier(size: int, memory_pressure: bool) -> HeapTier {
    if size <= K_SMALL_SIZE {
        HeapTier::Small
    } else if size < K_MIN_LARGE_ALLOC {
        HeapTier::Large
    } else if size < K_XLARGE_HEAP / 2 && !memory_pressure {
        HeapTier::XLarge
    } else {
        HeapTier::Oversize
    }
}

/// The heap size class of a block.
pub fn heap_tier(size: usize, memory_pressure: bool) -> (t: HeapTier)
    ensures
        t == tier(size as int, memory_pressure),
{
    if size <= K_SMALL_SIZE {
        HeapTier::Small
    } else if size < K_MIN_LARGE_ALLOC {
        HeapTier::Large
    } else if size < K_XLARGE_HEAP / 2 && !memory_pressure {
        HeapTier::XLarge
    } else {
        HeapTier::Oversize
    }
}

/// The heap that a block of `size` bytes is cut from.
pub open spec fn heap(size: int, memory_pressure: bool) -> int {
    match tier(size, memory_pressure) {
        HeapTier::Small => K_SMALL_HEAP as int,
        HeapTier::Large => K_LARGE_HEAP as int,
        HeapTier::XLarge => K_XLARGE_HEAP as int,
        HeapTier::Oversize => super::traits::dedicated(size),
    }
}

/// The largest power of two that is at most `n`.
pub open spec fn floor_pow2(n: int) -> int
    decreases n,
{
    if n < 2 {
        1
    } else {
        2 * floor_pow2(n / 2)
    }
}

/// `floor_pow2` is a power of two, and the next one is above `n`.
pub proof fn lemma_floor_pow2(n: int)
    requires
        1 <= n,
    ensures
        is_pow2(floor_pow2(n)),
        floor_pow2(n) <= n < 2 * floor_pow2(n),
    decreases n,
{
    reveal(is_pow2);
    if n >= 2 {
        lemma_floor_pow2(n / 2);
        assert((2 * floor_pow2(n / 2)) / 2 == floor_pow2(n / 2));
    }
}

/// The largest power of two that is at most `n`.
fn floor_power_of_two(n: usize) -> (p: usize)
    requires
        1 <= n,
    ensures
        p == floor_pow2(n as int),
{
    let mut m: usize = n;
    let mut p: usize = 1;
    while m >= 2
        invariant
            1 <= m,
            1 <= p,
            p * floor_pow2(m as int) == floor_pow2(n as int),
            p * m <= n,
        decreases m,
    {
        let ghost f = floor_pow2(m as int / 2);
        proof {
            assert(p * (2 * f) == (p * 2) * f) by (nonlinear_arith);
            assert((p * 2) * (m as int / 2) <= p * m) by (nonlinear_arith)
                requires
                    2 * (m as int / 2) <= m,
                    1 <= p,
            ;
            assert(p * 2 <= (p * 2) * (m as int / 2)) by (nonlinear_arith)
                requires
                    1 <= m as int / 2,
                    1 <= p,
            ;
        }
        p = p * 2;
        m = m / 2;
    }
    assert(floor_pow2(m as int) == 1);
    p
}

/// The alignment of block sizes above 1 MiB: 32 steps per power of two, at least
/// a page.
pub open spec fn granule(size: int, page_size: int) -> int {
    let step = floor_pow2(size) / 32;
    if step >= page_size {
        step
    } else {
        page_size
    }
}

impl MpsPolicy {
    /// The request in whole alignments.
    pub open spec fn aligned(self, nbytes: int) -> int {
        super::traits::round_up(nbytes, self.alignment as int)
    }

    /// The aligned request in whole granules.
    pub open spec fn bucketed(self, nbytes: int) -> int {
        let a = self.aligned(nbytes);
        super::traits::round_up(a, granule(a, self.page_size as int))
    }

    /// The block size for a request: small ones are aligned; large ones fill
    /// their bucket, unless that is in a larger heap class or past the longest
    /// buffer.
    pub open spec fn rounded(self, nbytes: int) -> int {
        let a = self.aligned(nbytes);
        let b = self.bucketed(nbytes);
        if a <= K_SMALL_SIZE || b >= self.max_buffer_size || tier(b, false) != tier(a, false) {
            a
        } else {
            b
        }
    }

    /// There is an alignment, and the sizes that come up on the way are within
    /// the address space.
    pub open spec fn in_range(self, nbytes: int) -> bool {
        let a = self.aligned(nbytes);
        &&& self.alignment > 0
        &&& a <= usize::MAX
        &&& a > K_SMALL_SIZE ==> self.bucketed(nbytes) <= usize::MAX
    }

    /// A heap for blocks of this size is within the address space, and has a
    /// layout if the device can give it, under pressure or not.
    pub open spec fn heaps_fit(self, size: int) -> bool {
        &&& super::layout_once_given(heap(size, false), self.alignment as int)
        &&& super::layout_once_given(heap(size, true), self.alignment as int)
    }

    /// Large requests are under memory pressure once reserved memory is within
    /// 1 MiB of the low watermark.
    pub open spec fn pressure(self, size: int, reserved: int) -> bool {
        size > K_SMALL_SIZE && (if reserved + K_SMALL_SIZE <= usize::MAX {
            reserved + K_SMALL_SIZE
        } else {
            usize::MAX as int
        }) > self.low_watermark_limit
    }

    /// The block size for a request, if it is within the address space.
    fn checked_round(&self, nbytes: usize) -> (r: Option<usize>)
        ensures
            r == (if self.in_range(nbytes as int) {
                Some(self.rounded(nbytes as int) as usize)
            } else {
                None
            }),
            r is Some ==> self.rounded(nbytes as int) >= nbytes,
            r is Some ==> self.rounded(nbytes as int) <= usize::MAX,
    {
        if self.alignment == 0 {
            return None;
        }
        proof {
            super::traits::lemma_round_up(nbytes as int, self.alignment as int);
        }
        match checked_round_up(nbytes, self.alignment) {
            None => None,
            Some(aligned) => {
                if aligned <= K_SMALL_SIZE {
                    return Some(aligned);
                }
                // Large requests round up into 32 buckets per power of two (at
                // least a page), so a slowly growing allocation reuses its
                // predecessor's freed block.
                let step: usize = floor_power_of_two(aligned) / 32;
                let granule: usize = if step >= self.page_size {
                    step
                } else {
                    self.page_size
                };
                proof {
                    lemma_floor_pow2(aligned as int);
                    super::traits::lemma_round_up(aligned as int, granule as int);
                }
                match checked_round_up(aligned, granule) {
                    None => None,
                    Some(bucketed) => {
                        // Never round into a larger heap class or past the
                        // longest buffer.
                        if bucketed >= self.max_buffer_size || heap_tier(bucketed, false)
                            != heap_tier(aligned, false) {
                            Some(aligned)
                        } else {
                            Some(bucketed)
                        }
                    },
                }
            },
        }
    }

    /// Tests whether the heap for blocks of this size is within the address space
    /// and has a layout if the device can give it.
    fn heap_fits(&self, size: usize, memory_pressure: bool) -> (r: bool)
        ensures
            r == super::layout_once_given(
                heap(size as int, memory_pressure),
                self.alignment as int,
            ),
    {
        proof {
            reveal(is_pow2);
            super::traits::lemma_round_up(size as int, super::traits::K_ROUND_LARGE as int);
        }
        let bytes: usize = match heap_tier(size, memory_pressure) {
            HeapTier::Small => K_SMALL_HEAP,
            HeapTier::Large => K_LARGE_HEAP,
            HeapTier::XLarge => K_XLARGE_HEAP,
            HeapTier::Oversize => match checked_round_up(size, super::traits::K_ROUND_LARGE) {
                Some(n) => n,
                None => return false,
            },
        };
        bytes > isize::MAX as usize || Layout::from_size_align(bytes, self.alignment).is_some()
    }

    /// The policy for a device: what it reports, and the low watermark in bytes,
    /// where there is one.
    pub fn from_device(raw: &Limits, low_watermark: Option<usize>) -> (p: MpsPolicy)
        ensures
            p.alignment == raw.alignment,
            p.page_size == raw.page_size,
            p.max_buffer_size == raw.max_buffer_length,
            p.low_watermark_limit == (match low_watermark {
                Some(n) => n,
                None => usize::MAX,
            }),
    {
        MpsPolicy {
            alignment: raw.alignment,
            page_size: raw.page_size,
            max_buffer_size: raw.max_buffer_length,
            low_watermark_limit: match low_watermark {
                Some(n) => n,
                None => usize::MAX,
            },
        }
    }
}

impl CachePolicy for MpsPolicy {
    open spec fn valid(&self) -> bool {
        is_pow2(self.alignment as int)
    }

    open spec fn spec_alignment(&self) -> usize {
        self.alignment
    }

    open spec fn spec_round_size(&self, nbytes: usize) -> usize {
        self.rounded(nbytes as int) as usize
    }

    open spec fn spec_should_split(&self, small: bool, remaining: usize) -> bool {
        remaining >= (if small {
            self.alignment
        } else {
            K_SMALL_SIZE
        })
    }

    open spec fn spec_segment_size(&self, size: usize, reserved: usize) -> usize {
        heap(size as int, self.pressure(size as int, reserved as int)) as usize
    }

    open spec fn refusal(&self, nbytes: usize) -> Option<AllocError> {
        if nbytes >= self.max_buffer_size {
            Some(AllocError::InvalidBufferSize { nbytes })
        } else {
            None
        }
    }

    open spec fn fits(&self, nbytes: usize) -> bool {
        self.in_range(nbytes as int) && self.heaps_fit(self.rounded(nbytes as int))
    }

    open spec fn can_round(&self, nbytes: usize) -> bool {
        self.in_range(nbytes as int)
    }

    open spec fn can_segment(&self, size: usize, reserved: usize) -> bool {
        heap(size as int, self.pressure(size as int, reserved as int)) <= usize::MAX
    }

    open spec fn block_size(&self, size: usize) -> bool {
        self.heaps_fit(size as int)
    }

    fn alignment(&self) -> usize {
        self.alignment
    }

    fn round_size(&self, nbytes: usize) -> usize {
        self.checked_round(nbytes).unwrap()
    }

    fn should_split(&self, small: bool, remaining: usize) -> bool {
        proof {
            reveal(is_pow2);
        }
        remaining >= (if small {
            self.alignment
        } else {
            K_SMALL_SIZE
        })
    }

    fn segment_size(&self, size: usize, reserved: usize) -> usize {
        proof {
            reveal(is_pow2);
            super::traits::lemma_round_up(size as int, super::traits::K_ROUND_LARGE as int);
        }
        let held: usize = match reserved.checked_add(K_SMALL_SIZE) {
            Some(n) => n,
            None => usize::MAX,
        };
        let pressure: bool = size > K_SMALL_SIZE && held > self.low_watermark_limit;
        match heap_tier(size, pressure) {
            HeapTier::Small => K_SMALL_HEAP,
            HeapTier::Large => K_LARGE_HEAP,
            HeapTier::XLarge => K_XLARGE_HEAP,
            HeapTier::Oversize => dedicated_segment_size(size),
        }
    }

    fn check_request(&self, nbytes: usize) -> Result<(), AllocError> {
        if nbytes >= self.max_buffer_size {
            Err(AllocError::InvalidBufferSize { nbytes })
        } else {
            Ok(())
        }
    }

    fn check_layout(&self, nbytes: usize) -> Result<(), AllocError> {
        match self.checked_round(nbytes) {
            None => Err(AllocError::InvalidLayout),
            Some(size) => {
                if self.heap_fits(size, false) && self.heap_fits(size, true) {
                    Ok(())
                } else {
                    Err(AllocError::InvalidLayout)
                }
            },
        }
    }
}

/// A block holds its request, in a heap of the request's own class that holds the
/// block, and no bucket reaches past the longest buffer.
pub proof fn law_rounding(p: MpsPolicy, nbytes: int)
    requires
        p.valid(),
        0 < nbytes,
    ensures
        nbytes <= p.aligned(nbytes) <= p.rounded(nbytes),
        p.aligned(nbytes) < nbytes + p.alignment,
        p.aligned(nbytes) % p.alignment as int == 0,
        tier(p.rounded(nbytes), false) == tier(p.aligned(nbytes), false),
        p.rounded(nbytes) == p.aligned(nbytes) || p.rounded(nbytes) < p.max_buffer_size,
        p.rounded(nbytes) <= heap(p.rounded(nbytes), false),
        p.rounded(nbytes) <= heap(p.rounded(nbytes), true),
{
    reveal(is_pow2);
    let a = p.aligned(nbytes);
    super::traits::lemma_round_up(nbytes, p.alignment as int);
    lemma_floor_pow2(a);
    if a > K_SMALL_SIZE {
        super::traits::lemma_round_up(a, granule(a, p.page_size as int));
    }
    super::traits::lemma_round_up(p.rounded(nbytes), super::traits::K_ROUND_LARGE as int);
}

/// A request that grows within its block, without passing a power of two, keeps
/// its block size.
pub proof fn law_grown_request_keeps_its_bucket(p: MpsPolicy, n: int, m: int)
    requires
        p.valid(),
        0 < n,
        0 < m,
        p.aligned(n) <= p.aligned(m) <= p.rounded(n),
        floor_pow2(p.aligned(n)) == floor_pow2(p.aligned(m)),
    ensures
        p.rounded(m) == p.rounded(n),
{
    law_rounding(p, n);
    law_rounding(p, m);
    let a = p.aligned(n);
    if a > K_SMALL_SIZE {
        let g = granule(a, p.page_size as int);
        let b = p.bucketed(n);
        lemma_floor_pow2(a);
        super::traits::lemma_round_up(a, g);
        if p.rounded(n) == b {
            super::traits::lemma_round_up_unique(p.aligned(m), g, b);
        }
    }
}

/// Of two powers of two, the smaller divides the larger.
pub proof fn lemma_pow2_divides(x: int, y: int)
    requires
        is_pow2(x),
        is_pow2(y),
        x <= y,
    ensures
        0 < x,
        y % x == 0,
        x < y ==> 2 * x <= y,
    decreases y,
{
    reveal(is_pow2);
    if x < y {
        if x > y / 2 {
            lemma_pow2_divides(y / 2, x);
        } else {
            lemma_pow2_divides(x, y / 2);
            assert(y % (y / 2) == 0) by (nonlinear_arith)
                requires
                    y == 2 * (y / 2),
                    0 < y / 2,
            ;
            super::traits::lemma_divides(x, y / 2, y);
        }
    } else {
        assert(y % y == 0) by (nonlinear_arith)
            requires
                0 < y,
        ;
    }
}

/// Half of a power of two above one is a power of two.
proof fn lemma_half(n: int)
    requires
        is_pow2(n),
        n > 1,
    ensures
        is_pow2(n / 2),
        2 * (n / 2) == n,
{
    reveal(is_pow2);
}

/// A power of two is its own floor.
proof fn lemma_floor_of_pow2(n: int)
    requires
        is_pow2(n),
    ensures
        floor_pow2(n) == n,
    decreases n,
{
    reveal(is_pow2);
    if n > 1 {
        lemma_floor_of_pow2(n / 2);
    }
}

/// The bucket of a large size: it ends by the next power of two, unless a single
/// page is longer than that.
proof fn lemma_bucket(a: int, page: int)
    requires
        a > K_SMALL_SIZE,
        is_pow2(page),
    ensures
        ({
            let f = floor_pow2(a);
            let g = granule(a, page);
            let b = super::traits::round_up(a, g);
            &&& is_pow2(f)
            &&& is_pow2(f / 32)
            &&& f <= a < 2 * f
            &&& is_pow2(g)
            &&& 0 < f / 32 <= g
            &&& 0 < page <= g
            &&& a <= b < a + g
            &&& b % g == 0
            &&& (g <= 2 * f && b <= 2 * f) || (g == page && b == page && a < page)
        }),
{
    let f = floor_pow2(a);
    let g = granule(a, page);
    let b = super::traits::round_up(a, g);
    lemma_floor_pow2(a);
    lemma_half(f);
    lemma_half(f / 2);
    lemma_half(f / 4);
    lemma_half(f / 8);
    lemma_half(f / 16);
    assert(f / 32 == f / 16 / 2 && f / 16 == f / 8 / 2 && f / 8 == f / 4 / 2);
    assert(is_pow2(2 * f) && 0 < page) by {
        reveal(is_pow2);
    }
    super::traits::lemma_round_up(a, g);
    if g <= 2 * f {
        lemma_pow2_divides(g, 2 * f);
        super::traits::lemma_round_up_least(a, g, 2 * f);
    } else {
        lemma_pow2_divides(page, page);
        super::traits::lemma_round_up_unique(a, page, page);
    }
}

/// Sizes that share a bucket have one granule and one end.
proof fn lemma_same_bucket(a: int, c: int, page: int)
    requires
        a > K_SMALL_SIZE,
        is_pow2(page),
        a <= c < super::traits::round_up(a, granule(a, page)),
    ensures
        super::traits::round_up(c, granule(c, page)) == super::traits::round_up(
            a,
            granule(a, page),
        ),
{
    let g = granule(a, page);
    let b = super::traits::round_up(a, g);
    let f = floor_pow2(a);
    let h = floor_pow2(c);
    lemma_bucket(a, page);
    lemma_bucket(c, page);
    if h < f {
        lemma_pow2_divides(h, f);
    } else if f < h {
        lemma_pow2_divides(f, h);
    }
    assert(granule(c, page) == g);
    super::traits::lemma_round_up_unique(c, g, b);
}

/// The end of a bucket is in a bucket that ends there.
proof fn lemma_bucket_end(a: int, page: int)
    requires
        a > K_SMALL_SIZE,
        is_pow2(page),
    ensures
        ({
            let b = super::traits::round_up(a, granule(a, page));
            super::traits::round_up(b, granule(b, page)) == b
        }),
{
    let g = granule(a, page);
    let b = super::traits::round_up(a, g);
    let f = floor_pow2(a);
    let h = floor_pow2(b);
    lemma_bucket(a, page);
    lemma_bucket(b, page);
    if h < f {
        lemma_pow2_divides(h, f);
    } else if f < h {
        lemma_pow2_divides(f, h);
        if g <= 2 * f {
            assert(b == h);
            lemma_pow2_divides(granule(b, page), h);
        } else {
            lemma_floor_of_pow2(page);
            assert(granule(b, page) == page);
        }
    }
    super::traits::lemma_round_up_unique(b, granule(b, page), b);
}

/// With powers of two, a block is a whole number of alignments, wastes less than
/// a granule beyond the aligned request, and stays below the longest buffer where
/// the aligned request does.
pub proof fn law_blocks_are_whole(p: MpsPolicy, nbytes: int)
    requires
        p.valid(),
        is_pow2(p.page_size as int),
        0 < nbytes,
    ensures
        p.rounded(nbytes) % p.alignment as int == 0,
        p.aligned(nbytes) <= K_SMALL_SIZE ==> p.rounded(nbytes) == p.aligned(nbytes),
        p.rounded(nbytes) - p.aligned(nbytes) < granule(
            p.aligned(nbytes),
            p.page_size as int,
        ),
        p.aligned(nbytes) < p.max_buffer_size ==> p.rounded(nbytes) < p.max_buffer_size,
{
    law_rounding(p, nbytes);
    let a = p.aligned(nbytes);
    let al = p.alignment as int;
    assert(p.page_size > 0) by {
        reveal(is_pow2);
    }
    if a > K_SMALL_SIZE {
        let g = granule(a, p.page_size as int);
        let b = p.bucketed(nbytes);
        lemma_bucket(a, p.page_size as int);
        if al <= g {
            lemma_pow2_divides(al, g);
            super::traits::lemma_divides(al, g, b);
        } else {
            lemma_pow2_divides(g, al);
            super::traits::lemma_divides(g, al, a);
            super::traits::lemma_round_up_unique(a, g, a);
        }
    }
}

/// With powers of two, a larger request never gets a smaller block.
pub proof fn law_rounding_is_monotone(p: MpsPolicy, n: int, m: int)
    requires
        p.valid(),
        is_pow2(p.page_size as int),
        0 < n <= m,
    ensures
        p.rounded(n) <= p.rounded(m),
{
    law_rounding(p, n);
    law_rounding(p, m);
    let a = p.aligned(n);
    let c = p.aligned(m);
    super::traits::lemma_round_up_least(n, p.alignment as int, c);
    if p.rounded(n) > c {
        lemma_same_bucket(a, c, p.page_size as int);
    }
}

/// With powers of two, a block size is its own block size.
pub proof fn law_rounding_is_idempotent(p: MpsPolicy, n: int)
    requires
        p.valid(),
        is_pow2(p.page_size as int),
        0 < n,
    ensures
        p.rounded(p.rounded(n)) == p.rounded(n),
{
    law_rounding(p, n);
    law_blocks_are_whole(p, n);
    let r = p.rounded(n);
    assert(p.alignment > 0) by {
        reveal(is_pow2);
    }
    super::traits::lemma_round_up_unique(r, p.alignment as int, r);
    if p.aligned(n) > K_SMALL_SIZE && r == p.bucketed(n) {
        lemma_bucket_end(p.aligned(n), p.page_size as int);
    }
}

/// A segment holds its block, in whole 2 MiB. What is reserved matters only for
/// blocks from 10 MiB up to 512 MiB, and only where there is a low watermark.
pub proof fn law_segments(p: MpsPolicy, size: usize, r1: usize, r2: usize)
    requires
        0 < size <= usize::MAX - super::traits::K_ROUND_LARGE,
    ensures
        p.can_segment(size, r1),
        p.spec_segment_size(size, r1) >= size,
        p.spec_segment_size(size, r1) % super::traits::K_ROUND_LARGE == 0,
        size < K_MIN_LARGE_ALLOC || size >= K_XLARGE_HEAP / 2 || p.low_watermark_limit
            == usize::MAX ==> p.spec_segment_size(size, r1) == p.spec_segment_size(size, r2),
{
    super::traits::lemma_round_up(size as int, super::traits::K_ROUND_LARGE as int);
}

/// The block size for a request, without its buckets by name: `a` is the request in
/// whole alignments, `f` the power of two that `a` lies above, `b` the end of the
/// bucket of `a`, of which there are 32 per power of two, at least a page long. Up
/// to 1 MiB a block is `a`. Beyond, it is `b`, unless that is past the longest
/// buffer or on the other side of 10 MiB or 512 MiB, where heaps change. The
/// rounding can be done if and only if there is an alignment and these sizes are
/// within the address space.
pub proof fn law_block_size(p: MpsPolicy, nbytes: usize, a: int, f: int, b: int)
    requires
        0 < p.alignment,
        nbytes <= a < nbytes + p.alignment,
        a % p.alignment as int == 0,
        is_pow2(f),
        f <= a < 2 * f,
        b % (if f / 32 >= p.page_size {
            f / 32
        } else {
            p.page_size as int
        }) == 0,
        a <= b < a + (if f / 32 >= p.page_size {
            f / 32
        } else {
            p.page_size as int
        }),
    ensures
        p.can_round(nbytes) <==> a <= usize::MAX && (a > 0x10_0000 ==> b <= usize::MAX),
        p.can_round(nbytes) ==> p.spec_round_size(nbytes) == (if a > 0x10_0000 && b
            < p.max_buffer_size && (a < 0xA0_0000 <==> b < 0xA0_0000) && (a < 0x2000_0000 <==> b
            < 0x2000_0000) {
            b
        } else {
            a
        }),
{
    super::traits::lemma_round_up_unique(nbytes as int, p.alignment as int, a);
    lemma_floor_pow2(a);
    let g = floor_pow2(a);
    if f < g {
        lemma_pow2_divides(f, g);
    } else if g < f {
        lemma_pow2_divides(g, f);
    }
    super::traits::lemma_round_up_unique(a, granule(a, p.page_size as int), b);
}

/// A request of up to 1 MiB in whole alignments is rounded up to them.
pub proof fn law_small_block_size(p: MpsPolicy, nbytes: usize, a: usize)
    requires
        0 < p.alignment,
        nbytes <= a < nbytes + p.alignment,
        a % p.alignment == 0,
        a <= 0x10_0000,
    ensures
        p.can_round(nbytes),
        p.spec_round_size(nbytes) == a,
{
    super::traits::lemma_round_up_unique(nbytes as int, p.alignment as int, a as int);
}

/// A block above 1 MiB wastes less than a 32nd of its aligned request, or less
/// than a page.
pub proof fn law_waste_is_bounded(p: MpsPolicy, nbytes: usize)
    requires
        p.valid(),
        p.can_round(nbytes),
        0 < nbytes,
    ensures
        ({
            let a = p.aligned(nbytes as int);
            let waste = p.spec_round_size(nbytes) - a;
            &&& nbytes <= a < nbytes + p.alignment
            &&& a % p.alignment as int == 0
            &&& a <= 0x10_0000 ==> waste == 0
            &&& 0 <= waste
            &&& 32 * waste < a || waste < p.page_size
        }),
{
    law_rounding(p, nbytes as int);
    let a = p.aligned(nbytes as int);
    if a > 0x10_0000 {
        lemma_floor_pow2(a);
        super::traits::lemma_round_up(a, granule(a, p.page_size as int));
    }
}

/// Heap classes: up to 1 MiB, below 10 MiB, and below 512 MiB without pressure,
/// blocks share heaps; else each has one of its own. A larger block is never in a
/// lower class, and pressure takes blocks only out of the largest shared heaps.
pub proof fn law_tiers(size: int, larger: int, pressure: bool)
    requires
        size <= larger,
    ensures
        tier(size, pressure) is Small <==> size <= 0x10_0000,
        tier(size, pressure) is Large <==> 0x10_0000 < size < 0xA0_0000,
        tier(size, pressure) is XLarge <==> 0xA0_0000 <= size < 0x2000_0000 && !pressure,
        tier(larger, pressure) is Small ==> tier(size, pressure) is Small,
        tier(size, pressure) is Oversize ==> tier(larger, pressure) is Oversize,
        tier(size, true) != tier(size, false) ==> tier(size, false) is XLarge && tier(
            size,
            true,
        ) is Oversize,
{
}

/// The heaps by size: 8 MiB, 32 MiB and 1 GiB, or the block in whole 2 MiB with
/// less than that wasted. The 1 GiB heaps, for blocks of 10 MiB to 512 MiB, are
/// not opened once 1 MiB beyond what is held would pass the low watermark; without
/// a watermark they always are.
pub proof fn law_heaps(p: MpsPolicy, size: usize, reserved: usize)
    requires
        p.can_segment(size, reserved),
    ensures
        ({
            let h = p.spec_segment_size(size, reserved);
            let tight = size <= h < size + 0x20_0000 && h % 0x20_0000 == 0;
            let open = reserved + 0x10_0000 <= p.low_watermark_limit || p.low_watermark_limit
                == usize::MAX;
            &&& size <= 0x10_0000 ==> h == 0x80_0000
            &&& 0x10_0000 < size < 0xA0_0000 ==> h == 0x200_0000
            &&& 0xA0_0000 <= size < 0x2000_0000 && open ==> h == 0x4000_0000
            &&& 0xA0_0000 <= size < 0x2000_0000 && !open ==> tight
            &&& 0x2000_0000 <= size ==> tight
        }),
{
    super::traits::lemma_round_up(size as int, 0x20_0000);
}

/// Holding more never makes a heap larger, and the heap can be laid out for every
/// amount that is held once the request fits.
pub proof fn law_pressure_shrinks_heaps(p: MpsPolicy, size: usize, less: usize, more: usize)
    requires
        less <= more,
        p.block_size(size),
    ensures
        p.can_segment(size, less),
        p.can_segment(size, more),
        size <= p.spec_segment_size(size, more) <= p.spec_segment_size(size, less),
{
    super::traits::lemma_round_up(size as int, 0x20_0000);
    if size < 0x2000_0000 {
        super::traits::lemma_round_up_least(size as int, 0x20_0000, 0x4000_0000);
    }
}

/// Which requests fit: the rounding can be done, and each heap that the block may
/// come from, shared or its own (`t` bytes, in whole 2 MiB), is within the address
/// space and, unless no memory is that long, can be laid out at the alignment.
pub proof fn law_requests_fit(p: MpsPolicy, nbytes: usize, t: int)
    requires
        t % 0x20_0000 == 0,
        p.spec_round_size(nbytes) <= t < p.spec_round_size(nbytes) + 0x20_0000,
    ensures
        p.fits(nbytes) <==> p.can_round(nbytes) && ({
            let r = p.spec_round_size(nbytes);
            let short = isize::MAX - (p.alignment - 1);
            if r <= 0x10_0000 {
                is_pow2(p.alignment as int) && 0x80_0000 <= short
            } else if r < 0xA0_0000 {
                is_pow2(p.alignment as int) && 0x200_0000 <= short
            } else if r < 0x2000_0000 {
                is_pow2(p.alignment as int) && 0x4000_0000 <= short && t <= short
            } else {
                t <= usize::MAX && (t <= isize::MAX ==> is_pow2(p.alignment as int) && t <= short)
            }
        }),
        p.fits(nbytes) ==> p.block_size(p.spec_round_size(nbytes)),
{
    super::traits::lemma_round_up_unique(p.spec_round_size(nbytes) as int, 0x20_0000, t);
    assert(isize::MAX == 0x7fff_ffff || isize::MAX == 0x7fff_ffff_ffff_ffff);
    assert(usize::MAX == 0xffff_ffff || usize::MAX == 0xffff_ffff_ffff_ffff);
    let a = p.aligned(nbytes as int);
    if p.alignment > 0 {
        super::traits::lemma_round_up(nbytes as int, p.alignment as int);
        if a > 0x10_0000 {
            lemma_floor_pow2(a);
            super::traits::lemma_round_up(a, granule(a, p.page_size as int));
        }
    }
    if t < 0x2020_0000 {
        reveal(is_pow2);
    }
}

/// A request is refused if and only if it is not below the longest buffer, and the
/// refusal names its size. A policy makes sense if and only if its alignment is a
/// power of two; without an alignment there is no rounding.
pub proof fn law_refusals(p: MpsPolicy, nbytes: usize)
    ensures
        p.valid() <==> is_pow2(p.alignment as int),
        p.alignment == 0 ==> !p.can_round(nbytes) && !p.fits(nbytes),
        p.refusal(nbytes) is Some <==> nbytes >= p.max_buffer_size,
        p.refusal(nbytes) matches Some(e) ==> e == (AllocError::InvalidBufferSize { nbytes }),
{
}

/// A rest that is worth keeping stays worth keeping when it is larger; what is not
/// kept is below the alignment in the small pool and below 1 MiB in the large one,
/// and what is kept is not.
pub proof fn law_splitting_bounds_waste(p: MpsPolicy, small: bool, a: usize, b: usize)
    requires
        a <= b,
    ensures
        p.spec_alignment() == p.alignment,
        p.spec_should_split(small, a) ==> p.spec_should_split(small, b),
        !p.spec_should_split(small, a) ==> a < (if small {
            p.alignment
        } else {
            0x10_0000
        }),
        p.spec_should_split(small, a) ==> a >= (if small {
            p.alignment
        } else {
            0x10_0000
        }),
{
}

/// Whether a Metal device can be used: `status` is what the shim reports, or
/// `None` where it was not linked.
pub fn is_available(status: Option<i32>) -> (r: bool)
    ensures
        r == (status is Some && status != Some(0i32)),
{
    match status {
        Some(n) => n != 0,
        None => false,
    }
}

/// Why there is no allocator for the Metal device.
#[derive(Debug, Clone, Copy, PartialEq, Eq, Structural)]
pub struct NoMetalDevice;

impl NoMetalDevice {
    /// The message of the error.
    pub fn message(&self) -> (s: String)
        ensures
            s@ == "no Metal device available"@,
    {
        "no Metal device available".to_owned()
    }
}

/// The slot once the allocator was asked for: `fresh` fills it on first use.
pub open spec fn settled<T>(slot: Option<T>, fresh: T) -> Option<T> {
    match slot {
        Some(_) => slot,
        None => Some(fresh),
    }
}

/// Asking again changes nothing, whatever is offered.
pub proof fn law_settled_once<T>(slot: Option<T>, first: T, second: T)
    ensures
        settled(slot, first) is Some,
        settled(settled(slot, first), second) == settled(slot, first),
{
}

/// The allocator for the default Metal device, which is `fresh` on first use.
/// `status` is what the shim reports, or `None` where it was not linked.
pub fn get<T>(slot: &mut Option<T>, status: Option<i32>, fresh: T) -> (r: Result<
    &T,
    NoMetalDevice,
>)
    ensures
        r is Ok <==> status is Some && status != Some(0i32),
        *final(slot) == (if r is Ok {
            settled(*old(slot), fresh)
        } else {
            *old(slot)
        }),
        r matches Ok(a) ==> *final(slot) == Some(*a),
{
    if !is_available(status) {
        return Err(NoMetalDevice);
    }
    if slot.is_none() {
        *slot = Some(fresh);
    }
    Ok(slot.as_ref().unwrap())
}

/// Two uses of the Metal device share one cache, whatever is offered the second
/// time: the second finds the allocator as the first left it, so a block that the
/// first released serves the second, and the device is not asked.
pub proof fn law_uses_share_one_cache<B: Allocator>(
    slot: Option<CachingAllocator<B, MpsPolicy>>,
    first: CachingAllocator<B, MpsPolicy>,
    second: CachingAllocator<B, MpsPolicy>,
    held: CachingAllocator<B, MpsPolicy>,
    free: CachingAllocator<B, MpsPolicy>,
    again: CachingAllocator<B, MpsPolicy>,
    size: usize,
    d: DataPtr,
    r: Result<DataPtr, AllocError>,
)
    requires
        settled(slot, first).unwrap().wf(),
        held.wf(),
        free.wf(),
        0 < size,
        held.meets(&settled(slot, first).unwrap(), size, Ok(d)),
        super::caching::released(&held, &free, d),
        again.meets(&settled(Some(free), second).unwrap(), size, r),
    ensures
        settled(Some(free), second) == Some(free),
        r matches Ok(e) && e.addr() == d.addr(),
        again.live() == held.live(),
        again.log() == held.log(),
        again.on() == settled(slot, first).unwrap().on(),
{
    super::caching::law_released_block_is_reused(
        &settled(slot, first).unwrap(),
        &held,
        &free,
        &again,
        size,
        d,
        r,
    );
}

/// On a Metal device, hardly more is handed out than the block size of the request:
/// the rest is below the alignment in the small pool, and below 1 MiB in the large
/// one. So requests of 10 MiB to 512 MiB are carved out of shared heaps.
pub proof fn law_little_is_wasted<B: Allocator>(
    before: &CachingAllocator<B, MpsPolicy>,
    after: &CachingAllocator<B, MpsPolicy>,
    nbytes: usize,
    d: DataPtr,
)
    requires
        before.wf(),
        after.wf(),
        before.counters().num_device_alloc < usize::MAX,
        0 < nbytes,
        before.policy().fits(nbytes),
        after.meets(before, before.policy().spec_round_size(nbytes), Ok(d)),
    ensures
        ({
            let size = before.policy().spec_round_size(nbytes);
            &&& nbytes <= size <= d.layout().spec_size()
            &&& d.layout().spec_size() - size < (if size <= 0x10_0000 {
                before.policy().alignment
            } else {
                0x10_0000
            })
        }),
{
    let p = before.policy();
    let size = p.spec_round_size(nbytes);
    let a = p.aligned(nbytes as int);
    super::traits::lemma_round_up(nbytes as int, p.alignment as int);
    if a > 0x10_0000 {
        lemma_floor_pow2(a);
        super::traits::lemma_round_up(a, granule(a, p.page_size as int));
    }
    super::caching::laws::law_little_is_wasted(before, after, size, d);
    let rest = (d.layout().spec_size() - size) as usize;
    law_splitting_bounds_waste(p, size <= 0x10_0000, rest, rest);
}

} // verus!

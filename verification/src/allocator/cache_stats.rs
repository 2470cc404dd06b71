//! Statistics for the caching allocators.
use vstd::prelude::*;

verus! {

/// A snapshot of an allocator's counters.
#[derive(Debug, Clone, Copy, PartialEq, Eq, Structural)]
pub struct CacheStats {
    /// Bytes currently handed out to users (block sizes, not request sizes).
    pub allocated_bytes: usize,
    /// Peak of `allocated_bytes`.
    pub allocated_bytes_peak: usize,
    /// Bytes currently obtained from the device (cached + in use).
    pub reserved_bytes: usize,
    /// Peak of `reserved_bytes`.
    pub reserved_bytes_peak: usize,
    /// Number of user allocations served.
    pub num_alloc: usize,
    /// Number of user blocks freed back to the cache.
    pub num_free: usize,
    /// Number of backend allocations (segments).
    pub num_device_alloc: usize,
    /// Number of backend frees.
    pub num_device_free: usize,
}

/// The larger of two numbers.
pub open spec fn larger(a: int, b: int) -> int {
    if a >= b {
        a
    } else {
        b
    }
}

impl CacheStats {
    /// The counters of a new allocator.
    pub open spec fn zero() -> CacheStats {
        CacheStats {
            allocated_bytes: 0,
            allocated_bytes_peak: 0,
            reserved_bytes: 0,
            reserved_bytes_peak: 0,
            num_alloc: 0,
            num_free: 0,
            num_device_alloc: 0,
            num_device_free: 0,
        }
    }

    /// `n` more bytes are handed out.
    pub open spec fn handed_out(self, n: int) -> CacheStats {
        let total = self.allocated_bytes + n;
        CacheStats {
            allocated_bytes: total as usize,
            allocated_bytes_peak: larger(self.allocated_bytes_peak as int, total) as usize,
            ..self
        }
    }

    /// One more request is counted.
    pub open spec fn requested(self) -> CacheStats {
        CacheStats { num_alloc: (self.num_alloc + 1) as usize, ..self }
    }

    /// A block of `n` bytes came back.
    pub open spec fn returned(self, n: int) -> CacheStats {
        CacheStats {
            allocated_bytes: (self.allocated_bytes - n) as usize,
            num_free: (self.num_free + 1) as usize,
            ..self
        }
    }

    /// A segment of `n` bytes was obtained from the device.
    pub open spec fn reserved(self, n: int) -> CacheStats {
        let total = self.reserved_bytes + n;
        CacheStats {
            reserved_bytes: total as usize,
            reserved_bytes_peak: larger(self.reserved_bytes_peak as int, total) as usize,
            num_device_alloc: (self.num_device_alloc + 1) as usize,
            ..self
        }
    }

    /// `count` segments of `n` bytes together went back to the device.
    pub open spec fn released(self, n: int, count: int) -> CacheStats {
        CacheStats {
            reserved_bytes: (self.reserved_bytes - n) as usize,
            num_device_free: (self.num_device_free + count) as usize,
            ..self
        }
    }

    /// The peaks after a step are the larger of the peaks before it and the values
    /// after it.
    pub open spec fn peaks_follow(self, before: CacheStats) -> bool {
        &&& self.allocated_bytes_peak == larger(
            before.allocated_bytes_peak as int,
            self.allocated_bytes as int,
        )
        &&& self.reserved_bytes_peak == larger(
            before.reserved_bytes_peak as int,
            self.reserved_bytes as int,
        )
    }

    /// Counts `n` more bytes as handed out.
    pub fn hand_out(&mut self, n: usize)
        requires
            old(self).allocated_bytes + n <= usize::MAX,
        ensures
            *final(self) == old(self).handed_out(n as int),
    {
        self.allocated_bytes = self.allocated_bytes + n;
        if self.allocated_bytes > self.allocated_bytes_peak {
            self.allocated_bytes_peak = self.allocated_bytes;
        }
    }

    /// Counts a request.
    pub fn request(&mut self)
        requires
            old(self).num_alloc < usize::MAX,
        ensures
            *final(self) == old(self).requested(),
    {
        self.num_alloc = self.num_alloc + 1;
    }

    /// Counts a block of `n` bytes as given back.
    pub fn give_back(&mut self, n: usize)
        requires
            old(self).allocated_bytes >= n,
            old(self).num_free < usize::MAX,
        ensures
            *final(self) == old(self).returned(n as int),
    {
        self.allocated_bytes = self.allocated_bytes - n;
        self.num_free = self.num_free + 1;
    }

    /// Counts a segment of `n` bytes obtained from the device.
    pub fn reserve(&mut self, n: usize)
        requires
            old(self).reserved_bytes + n <= usize::MAX,
            old(self).num_device_alloc < usize::MAX,
        ensures
            *final(self) == old(self).reserved(n as int),
    {
        self.reserved_bytes = self.reserved_bytes + n;
        if self.reserved_bytes > self.reserved_bytes_peak {
            self.reserved_bytes_peak = self.reserved_bytes;
        }
        self.num_device_alloc = self.num_device_alloc + 1;
    }

    /// Counts a segment of `n` bytes as given back to the device.
    pub fn unreserve(&mut self, n: usize)
        requires
            old(self).reserved_bytes >= n,
            old(self).num_device_free < usize::MAX,
        ensures
            *final(self) == old(self).released(n as int, 1),
    {
        self.reserved_bytes = self.reserved_bytes - n;
        self.num_device_free = self.num_device_free + 1;
    }
}

impl Default for CacheStats {
    /// All counters at zero.
    fn default() -> (s: CacheStats)
        ensures
            s == CacheStats::zero(),
    {
        CacheStats {
            allocated_bytes: 0,
            allocated_bytes_peak: 0,
            reserved_bytes: 0,
            reserved_bytes_peak: 0,
            num_alloc: 0,
            num_free: 0,
            num_device_alloc: 0,
            num_device_free: 0,
        }
    }
}

/// A peak that starts at zero, and at every step is the larger of the last peak
/// and the new value, is the largest value there was.
pub proof fn law_peak_is_largest(now: Seq<int>, peak: Seq<int>)
    requires
        now.len() > 0,
        peak.len() == now.len(),
        now[0] == 0,
        peak[0] == 0,
        forall|k: int|
            0 <= k < now.len() - 1 ==> #[trigger] peak[k + 1] == larger(peak[k], now[k + 1]),
    ensures
        forall|k: int| 0 <= k < now.len() ==> #[trigger] now[k] <= peak.last(),
        now.contains(peak.last()),
    decreases now.len(),
{
    let n = now.len() - 1;
    if n == 0 {
        assert(now[0] == peak.last());
    } else {
        let a = now.drop_last();
        let p = peak.drop_last();
        assert forall|k: int| 0 <= k < a.len() - 1 implies #[trigger] p[k + 1] == larger(
            p[k],
            a[k + 1],
        ) by {
            assert(peak[k + 1] == larger(peak[k], now[k + 1]));
        }
        law_peak_is_largest(a, p);
        assert(peak[(n - 1) + 1] == larger(peak[n - 1], now[n]));
        assert(p.last() == peak[n - 1]);
        assert forall|k: int| 0 <= k < now.len() implies #[trigger] now[k] <= peak.last() by {
            if k < n {
                assert(a[k] == now[k]);
            }
        }
        let k = choose|k: int| 0 <= k < a.len() && a[k] == p.last();
        assert(now[k] == p.last());
        assert(now[n] == now.last());
    }
}

/// Over any run of steps from a new allocator on, the peaks are the largest values
/// that the counters have had.
pub proof fn law_peaks_are_largest(run: Seq<CacheStats>)
    requires
        run.len() > 0,
        run[0] == CacheStats::zero(),
        forall|k: int| 0 <= k < run.len() - 1 ==> (#[trigger] run[k + 1]).peaks_follow(run[k]),
    ensures
        forall|k: int|
            0 <= k < run.len() ==> (#[trigger] run[k]).allocated_bytes
                <= run.last().allocated_bytes_peak && run[k].reserved_bytes
                <= run.last().reserved_bytes_peak,
        exists|k: int|
            0 <= k < run.len() && (#[trigger] run[k]).allocated_bytes
                == run.last().allocated_bytes_peak,
        exists|k: int|
            0 <= k < run.len() && (#[trigger] run[k]).reserved_bytes
                == run.last().reserved_bytes_peak,
{
    let a = run.map_values(|s: CacheStats| s.allocated_bytes as int);
    let p = run.map_values(|s: CacheStats| s.allocated_bytes_peak as int);
    let r = run.map_values(|s: CacheStats| s.reserved_bytes as int);
    let q = run.map_values(|s: CacheStats| s.reserved_bytes_peak as int);
    assert forall|k: int| 0 <= k < run.len() - 1 implies #[trigger] p[k + 1] == larger(
        p[k],
        a[k + 1],
    ) by {
        assert(run[k + 1].peaks_follow(run[k]));
    }
    assert forall|k: int| 0 <= k < run.len() - 1 implies #[trigger] q[k + 1] == larger(
        q[k],
        r[k + 1],
    ) by {
        assert(run[k + 1].peaks_follow(run[k]));
    }
    law_peak_is_largest(a, p);
    law_peak_is_largest(r, q);
    assert forall|k: int| 0 <= k < run.len() implies (#[trigger] run[k]).allocated_bytes
        <= run.last().allocated_bytes_peak && run[k].reserved_bytes
        <= run.last().reserved_bytes_peak by {
        assert(a[k] <= p.last());
        assert(r[k] <= q.last());
    }
    let x = choose|x: int| 0 <= x < a.len() && a[x] == p.last();
    assert(run[x].allocated_bytes == run.last().allocated_bytes_peak);
    let y = choose|y: int| 0 <= y < r.len() && r[y] == q.last();
    assert(run[y].reserved_bytes == run.last().reserved_bytes_peak);
}

} // verus!

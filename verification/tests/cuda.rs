use std::collections::HashMap;
use std::sync::{Arc, Mutex};

use lumen::allocator::cuda::{
    self, CachingAllocator as DeviceCache, CudaBackend, DeviceBackend, K_MIN_BLOCK_SIZE,
};
use lumen::allocator::registry::Registry;
use lumen::allocator::traits::K_SMALL_SIZE;
use lumen::allocator::{AllocError, Layout, Reclaim};
use lumen::config::{self, Settings};
use lumen::{Allocator, CachePolicy, CachingAllocator, CudaPolicy, DataPtr, Device};

/// Shared observation state: the allocator owns the backend, so tests keep a
/// clone of this handle to inspect it.
#[derive(Default)]
struct MockState {
    mallocs: usize,
    frees: usize,
    /// Sizes asked of the device (the segment sizes).
    malloc_sizes: Vec<usize>,
    /// Live allocations by address.
    live: HashMap<usize, usize>,
    next: usize,
}

type Mock = Arc<Mutex<MockState>>;

struct MockBackend {
    state: Mock,
    byte_limit: Option<usize>,
    device_index: usize,
}

impl MockBackend {
    fn take(&mut self, nbytes: usize) -> Option<usize> {
        let mut state = self.state.lock().unwrap();
        if let Some(limit) = self.byte_limit {
            let live_bytes: usize = state.live.values().sum();
            if live_bytes + nbytes > limit {
                return None; // pretend the GPU is full
            }
        }
        state.mallocs += 1;
        state.malloc_sizes.push(nbytes);
        if state.next == 0 {
            state.next = 1 << 40;
        }
        let addr = state.next;
        // 256-byte alignment, like the real device guarantees.
        state.next += nbytes.next_multiple_of(256) + 256;
        state.live.insert(addr, nbytes);
        Some(addr)
    }

    fn give(&mut self, addr: usize) {
        let mut state = self.state.lock().unwrap();
        state.frees += 1;
        state
            .live
            .remove(&addr)
            .expect("double free or unknown pointer");
    }
}

impl Allocator for MockBackend {
    fn device(&self) -> Device {
        Device::Cuda(self.device_index)
    }

    fn allocate(&mut self, nbytes: usize) -> Result<DataPtr, AllocError> {
        match self.take(nbytes) {
            Some(addr) => Ok(DataPtr::with_deleter(
                addr,
                Layout::from_size_align(nbytes, 256).unwrap(),
                Reclaim::Nothing,
            )),
            None => Err(AllocError::Device {
                bytes: nbytes,
                device: self.device(),
            }),
        }
    }

    fn try_allocate(&mut self, nbytes: usize) -> Result<Option<DataPtr>, AllocError> {
        Ok(self.allocate(nbytes).ok())
    }

    fn deallocate(&mut self, addr: usize) {
        self.give(addr);
    }
}

impl DeviceBackend for MockBackend {
    fn device_alloc(&mut self, nbytes: usize) -> usize {
        self.take(nbytes).unwrap_or(0)
    }

    fn device_free(&mut self, ptr: usize) {
        self.give(ptr);
    }
}

fn mock(byte_limit: Option<usize>, device_index: usize) -> (MockBackend, Mock) {
    let state = Arc::new(Mutex::new(MockState::default()));
    let backend = MockBackend {
        state: Arc::clone(&state),
        byte_limit,
        device_index,
    };
    (backend, state)
}

type Cached = CachingAllocator<MockBackend, CudaPolicy>;

fn allocator(byte_limit: Option<usize>) -> (Cached, Mock) {
    let (backend, state) = mock(byte_limit, 0);
    (CachingAllocator::new(backend, CudaPolicy), state)
}

fn get<B: Allocator, P: CachePolicy>(alloc: &mut CachingAllocator<B, P>, nbytes: usize) -> DataPtr {
    match alloc.allocate(&Settings::default(), nbytes) {
        Ok(data) => data,
        Err(e) => panic!("{}", e.message()),
    }
}

#[test]
fn reports_cuda_device() {
    let (alloc, _) = allocator(None);
    assert_eq!(alloc.device(), Device::Cuda(0));
    let alloc7 = CachingAllocator::new(mock(None, 7).0, CudaPolicy);
    assert_eq!(alloc7.device(), Device::Cuda(7));
}

#[test]
fn dropped_blocks_are_reused_not_freed() {
    let (mut alloc, mock) = allocator(None);
    let a = get(&mut alloc, 512);
    let a_ptr = a.as_ptr();
    alloc.release(a);

    // Block went back to the pool, NOT to the device.
    assert_eq!(mock.lock().unwrap().mallocs, 1);
    assert_eq!(mock.lock().unwrap().frees, 0);

    // Same-size request reuses the same block.
    let b = get(&mut alloc, 512);
    assert_eq!(b.as_ptr(), a_ptr);
    assert_eq!(mock.lock().unwrap().mallocs, 1);
}

#[test]
fn sizes_round_up_to_512() {
    let (mut alloc, _) = allocator(None);
    let data = get(&mut alloc, 300);
    let stats = alloc.stats();
    assert_eq!(stats.allocated_bytes, K_MIN_BLOCK_SIZE);

    // A 500-byte request fits the rounded 512-byte block.
    let ptr = data.as_ptr();
    alloc.release(data);
    let again = get(&mut alloc, 500);
    assert_eq!(again.as_ptr(), ptr);
}

#[test]
fn small_and_large_pools_use_different_segment_sizes() {
    let (mut alloc, mock) = allocator(None);
    let small = get(&mut alloc, K_SMALL_SIZE); // ≤ 1 MiB → small pool, 2 MiB segment
    let large = get(&mut alloc, K_SMALL_SIZE * 2); // → large pool, 20 MiB segment
    let sizes = mock.lock().unwrap().malloc_sizes.clone();
    assert_eq!(sizes, vec![2 * K_SMALL_SIZE, 20 * K_SMALL_SIZE]);
    alloc.release(small);
    alloc.release(large);
}

#[test]
fn segments_are_split_and_remainders_reused() {
    let (mut alloc, mock) = allocator(None);
    // First request carves 512 B out of a fresh 2 MiB segment...
    let a = get(&mut alloc, 512);
    // ...the second 512 B request is served from the same segment's
    // remainder — no new device call.
    let b = get(&mut alloc, 512);
    assert_eq!(mock.lock().unwrap().mallocs, 1);
    assert_eq!(b.as_ptr(), a.as_ptr() + 512);
    assert_eq!(alloc.stats().reserved_bytes, 2 * K_SMALL_SIZE);
}

#[test]
fn freed_blocks_coalesce_back_into_whole_segments() {
    let (mut alloc, mock) = allocator(None);
    let a = get(&mut alloc, 512);
    let b = get(&mut alloc, 512);
    alloc.release(a);
    alloc.release(b);

    // The two 512 B blocks plus the segment remainder must have merged
    // back into one whole 2 MiB segment: empty_cache then frees it with
    // a single device call, and reserved bytes drop to zero.
    alloc.empty_cache();
    assert_eq!(mock.lock().unwrap().frees, 1);
    assert_eq!(alloc.stats().reserved_bytes, 0);
}

#[test]
fn stats_track_peaks_and_counts() {
    let (mut alloc, mock) = allocator(None);
    let a = get(&mut alloc, 1024);
    let b = get(&mut alloc, 1024);
    let peak = alloc.stats();
    assert_eq!(peak.allocated_bytes, 2048);
    assert_eq!(peak.allocated_bytes_peak, 2048);
    assert_eq!(peak.num_alloc, 2);
    assert_eq!(peak.num_device_alloc, 1); // one 2 MiB segment
    assert_eq!(peak.num_free, 0);

    alloc.release(a);
    alloc.release(b);
    let after = alloc.stats();
    assert_eq!(after.allocated_bytes, 0);
    assert_eq!(after.allocated_bytes_peak, 2048); // peak survives
    assert_eq!(after.num_free, 2);
    assert_eq!(after.num_device_free, 0); // nothing returned to device
    assert_eq!(mock.lock().unwrap().frees, 0);
}

#[test]
fn oom_releases_cached_blocks_and_retries() {
    // "VRAM" holds exactly one 2 MiB segment.
    let (mut alloc, mock) = allocator(Some(2 * K_SMALL_SIZE));
    let a = get(&mut alloc, 1024);
    alloc.release(a); // cached, but still reserved on the "device"

    // A 3 MiB request needs a fresh 20 MiB segment: the device fails, the
    // allocator releases the cached 2 MiB segment... still not enough, so it
    // fails — but the release must have happened.
    let result = alloc.allocate(&Settings::default(), 3 * K_SMALL_SIZE);
    assert!(result.is_err());
    assert!(mock.lock().unwrap().frees >= 1);
    assert_eq!(alloc.stats().reserved_bytes, 0);
    match result {
        Ok(_) => unreachable!(),
        Err(e) => assert_eq!(
            e.message(),
            "failed to allocate 20971520 bytes on cuda:0 (after empty_cache retry)"
        ),
    }
}

#[test]
fn empty_cache_only_releases_unused_memory() {
    let (mut alloc, mock) = allocator(None);
    let live = get(&mut alloc, 1024); // stays alive across empty_cache
    let temp = get(&mut alloc, 1024);
    alloc.release(temp);

    alloc.empty_cache();
    // The live block's segment can't be freed (it coalesced with the
    // temp block, but the live 1024 B piece keeps the segment busy), so
    // nothing whole is free... except nothing: the segment is split.
    // Only wholly-free segments are returned.
    assert!(alloc.stats().reserved_bytes > 0);
    let freed_before = mock.lock().unwrap().frees;

    alloc.release(live);
    alloc.empty_cache();
    assert_eq!(alloc.stats().reserved_bytes, 0);
    assert!(mock.lock().unwrap().frees > freed_before);
}

#[test]
fn cuda_zero_byte_allocation_is_safe() {
    let (mut alloc, mock) = allocator(None);
    let data = get(&mut alloc, 0);
    assert!(data.as_ptr() != 0);
    alloc.release(data);
    assert_eq!(mock.lock().unwrap().mallocs, 0);
}

/// `(ptr, size)` of everything given back, in call order.
type FreedLog = Arc<Mutex<Vec<(usize, usize)>>>;

/// Hands out segments back to back out of one arena, so consecutive ones are
/// address-adjacent (a real device can do this too).
struct ArenaBackend {
    base: usize,
    len: usize,
    next: usize,
    freed: FreedLog,
    sizes: HashMap<usize, usize>,
}

impl ArenaBackend {
    fn new(nbytes: usize) -> (Self, FreedLog) {
        let freed = Arc::new(Mutex::new(Vec::new()));
        let backend = ArenaBackend {
            base: 1 << 33,
            len: nbytes,
            next: 0,
            freed: Arc::clone(&freed),
            sizes: HashMap::new(),
        };
        (backend, freed)
    }

    fn take(&mut self, nbytes: usize) -> Option<usize> {
        let offset = self.next;
        self.next += nbytes;
        if offset + nbytes > self.len {
            return None;
        }
        let addr = self.base + offset;
        self.sizes.insert(addr, nbytes);
        Some(addr)
    }

    fn give(&mut self, addr: usize) {
        let size = self
            .sizes
            .remove(&addr)
            .expect("double free or unknown pointer");
        self.freed.lock().unwrap().push((addr, size));
    }
}

impl Allocator for ArenaBackend {
    fn device(&self) -> Device {
        Device::Cuda(0)
    }

    fn allocate(&mut self, nbytes: usize) -> Result<DataPtr, AllocError> {
        match self.take(nbytes) {
            Some(addr) => Ok(DataPtr::with_deleter(
                addr,
                Layout::from_size_align(nbytes, 512).unwrap(),
                Reclaim::Nothing,
            )),
            None => Err(AllocError::Device {
                bytes: nbytes,
                device: Device::Cuda(0),
            }),
        }
    }

    fn try_allocate(&mut self, nbytes: usize) -> Result<Option<DataPtr>, AllocError> {
        Ok(self.allocate(nbytes).ok())
    }

    fn deallocate(&mut self, addr: usize) {
        self.give(addr);
    }
}

impl DeviceBackend for ArenaBackend {
    fn device_alloc(&mut self, nbytes: usize) -> usize {
        self.take(nbytes).unwrap_or(0)
    }

    fn device_free(&mut self, ptr: usize) {
        self.give(ptr);
    }
}

#[test]
fn adjacent_segments_never_coalesce() {
    let (backend, freed) = ArenaBackend::new(8 * K_SMALL_SIZE);
    let base = backend.base;
    let mut alloc = CachingAllocator::new(backend, CudaPolicy);

    // a and b fill segment 1 exactly; c starts segment 2, which the
    // arena places right after segment 1.
    let a = get(&mut alloc, K_SMALL_SIZE);
    let b = get(&mut alloc, K_SMALL_SIZE);
    let c = get(&mut alloc, K_SMALL_SIZE);
    assert_eq!(c.as_ptr(), base + 2 * K_SMALL_SIZE);
    assert_eq!(alloc.stats().reserved_bytes, 4 * K_SMALL_SIZE);

    // b (end of segment 1) and c (start of segment 2) are free and
    // address-adjacent, but must not merge across the boundary.
    alloc.release(b);
    alloc.release(c);
    alloc.release(a);

    alloc.empty_cache();
    let mut freed = freed.lock().unwrap().clone();
    freed.sort();
    assert_eq!(
        freed,
        vec![
            (base, 2 * K_SMALL_SIZE),
            (base + 2 * K_SMALL_SIZE, 2 * K_SMALL_SIZE)
        ]
    );
    assert_eq!(alloc.stats().reserved_bytes, 0);
    assert_eq!(alloc.stats().num_device_free, 2);
}

#[test]
fn whole_segment_next_to_busy_segment_is_released() {
    let (backend, freed) = ArenaBackend::new(8 * K_SMALL_SIZE);
    let base = backend.base;
    let mut alloc = CachingAllocator::new(backend, CudaPolicy);

    // a and b keep segment 1 busy; c's segment 2 sits right after it.
    let a = get(&mut alloc, K_SMALL_SIZE);
    let b = get(&mut alloc, K_SMALL_SIZE);
    let c = get(&mut alloc, K_SMALL_SIZE);
    alloc.release(c);

    // Segment 2 is wholly free; its address neighbor b belongs to another
    // segment, so it must not count as a split piece.
    alloc.empty_cache();
    assert_eq!(
        freed.lock().unwrap().clone(),
        vec![(base + 2 * K_SMALL_SIZE, 2 * K_SMALL_SIZE)]
    );
    assert_eq!(alloc.stats().reserved_bytes, 2 * K_SMALL_SIZE);
    alloc.release(a);
    alloc.release(b);
}

// ---------------- the allocator of one CUDA device ----------------

fn device_cache(byte_limit: Option<usize>) -> (DeviceCache<MockBackend>, Mock) {
    let (backend, state) = mock(byte_limit, 3);
    (DeviceCache::new(3, backend), state)
}

fn take(alloc: &mut DeviceCache<MockBackend>, nbytes: usize) -> DataPtr {
    match alloc.allocate(&Settings::default(), nbytes) {
        Ok(data) => data,
        Err(e) => panic!("{}", e.message()),
    }
}

#[test]
fn device_cache_reuses_and_splits() {
    let (mut alloc, mock) = device_cache(None);
    assert_eq!(alloc.device(), Device::Cuda(3));
    let a = take(&mut alloc, 300);
    assert_eq!(a.size(), 512);
    let b = take(&mut alloc, 513);
    assert_eq!(b.size(), 1024);
    assert_eq!(b.as_ptr(), a.as_ptr() + 512);
    assert_eq!(mock.lock().unwrap().malloc_sizes, vec![2 << 20]);
    let a_ptr = a.as_ptr();
    alloc.release(a);
    let again = take(&mut alloc, 500);
    assert_eq!(again.as_ptr(), a_ptr);
    assert_eq!(mock.lock().unwrap().mallocs, 1);
    let stats = alloc.stats();
    assert_eq!(stats.allocated_bytes, 1536);
    assert_eq!(stats.allocated_bytes_peak, 1536);
    assert_eq!(stats.num_alloc, 3);
    assert_eq!(stats.num_free, 1);
}

#[test]
fn device_cache_merges_and_empties() {
    let (mut alloc, mock) = device_cache(None);
    let a = take(&mut alloc, 512);
    let b = take(&mut alloc, 512);
    let c = take(&mut alloc, 512);
    alloc.release(a);
    alloc.release(c);
    alloc.empty_cache();
    assert_eq!(mock.lock().unwrap().frees, 0);
    alloc.release(b);
    alloc.empty_cache();
    assert_eq!(mock.lock().unwrap().frees, 1);
    let stats = alloc.stats();
    assert_eq!(stats.reserved_bytes, 0);
    assert_eq!(stats.reserved_bytes_peak, 2 << 20);
    assert_eq!(stats.num_device_alloc, 1);
    assert_eq!(stats.num_device_free, 1);
}

#[test]
fn device_cache_counts_unsplit_blocks_whole() {
    let (mut alloc, mock) = device_cache(None);
    let a = take(&mut alloc, 11 << 20);
    assert_eq!(a.size(), 12 << 20);
    assert_eq!(mock.lock().unwrap().malloc_sizes, vec![12 << 20]);
    alloc.release(a);
    let b = take(&mut alloc, 3 << 20);
    assert_eq!(b.size(), 3 << 20, "9 MiB are worth keeping");
    assert_eq!(mock.lock().unwrap().mallocs, 1);
}

#[test]
fn device_cache_empties_small_segments_first() {
    let (backend, freed) = ArenaBackend::new(64 << 20);
    let base = backend.base;
    let mut alloc = DeviceCache::new(0, backend);
    let large = match alloc.allocate(&Settings::default(), 2 << 20) {
        Ok(d) => d,
        Err(e) => panic!("{}", e.message()),
    };
    let small = match alloc.allocate(&Settings::default(), 512) {
        Ok(d) => d,
        Err(e) => panic!("{}", e.message()),
    };
    alloc.release(large);
    alloc.release(small);
    alloc.empty_cache();
    assert_eq!(
        freed.lock().unwrap().clone(),
        vec![(base + (20 << 20), 2 << 20), (base, 20 << 20)]
    );
}

#[test]
fn device_cache_retries_under_pressure() {
    let (mut alloc, mock) = device_cache(Some(21 << 20));
    let a = take(&mut alloc, 512);
    alloc.release(a);
    // The cached 2 MiB segment has to go before 20 MiB fit.
    let b = take(&mut alloc, 2 << 20);
    assert_eq!(mock.lock().unwrap().malloc_sizes, vec![2 << 20, 20 << 20]);
    assert_eq!(mock.lock().unwrap().frees, 1);
    assert_eq!(alloc.stats().reserved_bytes, 20 << 20);
    alloc.release(b);
}

#[test]
fn device_cache_reports_out_of_memory() {
    let (mut alloc, _mock) = device_cache(Some(2 << 20));
    match alloc.allocate(&Settings::default(), 3 << 20) {
        Ok(_) => panic!("the device is full"),
        Err(e) => {
            assert_eq!(
                e,
                AllocError::CudaOutOfMemory {
                    bytes: 20 << 20,
                    device_index: 3
                }
            );
            assert_eq!(
                e.message(),
                "CUDA out of memory: failed to allocate 20971520 bytes on device 3"
            );
        }
    }
    // The request was counted all the same.
    assert_eq!(alloc.stats().num_alloc, 1);
    assert_eq!(alloc.stats().num_device_alloc, 0);
}

#[test]
fn device_cache_hands_out_nothing_for_zero_bytes() {
    let (mut alloc, mock) = device_cache(None);
    let d = take(&mut alloc, 0);
    assert_eq!(d.as_ptr(), K_MIN_BLOCK_SIZE);
    assert_eq!(d.size(), 0);
    alloc.release(d);
    assert_eq!(mock.lock().unwrap().mallocs, 0);
    assert_eq!(alloc.stats().num_alloc, 0);
}

#[test]
fn oversized_requests_are_refused() {
    let (mut alloc, mock) = device_cache(None);
    assert!(matches!(
        alloc.allocate(&Settings::default(), usize::MAX),
        Err(AllocError::InvalidLayout)
    ));
    let (mut cached, _) = allocator(None);
    assert!(matches!(
        cached.allocate(&Settings::default(), usize::MAX),
        Err(AllocError::InvalidLayout)
    ));
    assert_eq!(mock.lock().unwrap().mallocs, 0);
    assert_eq!(AllocError::InvalidLayout.message(), "invalid allocation layout");
}

#[test]
fn sizes() {
    assert_eq!(cuda::round_size(1), 512);
    assert_eq!(cuda::round_size(512), 512);
    assert_eq!(cuda::round_size(513), 1024);
    assert_eq!(cuda::segment_size(512), 2 << 20);
    assert_eq!(cuda::segment_size(1 << 20), 2 << 20);
    assert_eq!(cuda::segment_size((1 << 20) + 512), 20 << 20);
    assert_eq!(cuda::segment_size((10 << 20) - 512), 20 << 20);
    assert_eq!(cuda::segment_size(10 << 20), 10 << 20);
    assert_eq!(cuda::segment_size((10 << 20) + 512), 12 << 20);
    assert!(cuda::should_split(true, 512));
    assert!(!cuda::should_split(true, 511));
    assert!(!cuda::should_split(false, 1 << 20));
    assert!(cuda::should_split(false, (1 << 20) + 1));
    assert!(cuda::request_fits(1 << 40));
    assert!(!cuda::request_fits(usize::MAX - 511));
}

#[test]
fn one_allocator_per_device() {
    let mut registry: Registry<&str> = Registry::new();
    assert_eq!(*cuda::get(&mut registry, 0, "first"), "first");
    assert_eq!(*cuda::get(&mut registry, 7, "second"), "second");
    assert_eq!(*cuda::get(&mut registry, 0, "third"), "first");
    assert_eq!(registry.find(0), Some(&"first"));
    assert_eq!(registry.find(7), Some(&"second"));
    assert_eq!(registry.find(1), None);
    assert_eq!(CudaBackend::new(7).device_index(), 7);
}

#[test]
fn device_cache_goes_past_the_cache_when_caching_is_off() {
    let (mut alloc, mock) = device_cache(None);
    let mut settings = Settings::default();
    let cached = take(&mut alloc, 100);
    assert_eq!(mock.lock().unwrap().malloc_sizes, vec![2 << 20]);
    let before = alloc.stats();

    // Off: exact sizes straight to the device, freed on release, not counted.
    config::set_memory_caching(&mut settings, false);
    let a = alloc.allocate(&settings, 100).unwrap_or_else(|e| panic!("{}", e.message()));
    let b = alloc.allocate(&settings, 3 << 20).unwrap_or_else(|e| panic!("{}", e.message()));
    assert_eq!(a.size(), 100);
    assert_eq!(b.size(), 3 << 20);
    assert_eq!(mock.lock().unwrap().malloc_sizes, vec![2 << 20, 100, 3 << 20]);
    assert_eq!(alloc.stats(), before);
    alloc.empty_cache();
    assert_eq!(mock.lock().unwrap().frees, 0);
    alloc.release(a);
    assert_eq!(mock.lock().unwrap().frees, 1);

    // A block of the cache returns to it; uncached memory goes back to the device.
    alloc.release(cached);
    assert_eq!(mock.lock().unwrap().frees, 1);
    config::set_memory_caching(&mut settings, true);
    alloc.release(b);
    assert_eq!(mock.lock().unwrap().frees, 2);
    assert_eq!(mock.lock().unwrap().live.len(), 1);
    let again = alloc.allocate(&settings, 100).unwrap_or_else(|e| panic!("{}", e.message()));
    assert_eq!(mock.lock().unwrap().mallocs, 3);
    alloc.release(again);
}

#[test]
fn uncached_device_requests_report_out_of_memory() {
    let (mut alloc, mock) = device_cache(Some(2 << 20));
    let mut settings = Settings::default();
    let a = take(&mut alloc, 512);
    alloc.release(a);
    config::set_memory_caching(&mut settings, false);
    match alloc.allocate(&settings, 100) {
        Ok(_) => panic!("the device is full"),
        Err(e) => assert_eq!(
            e,
            AllocError::CudaOutOfMemory {
                bytes: 100,
                device_index: 3
            }
        ),
    }
    assert_eq!(mock.lock().unwrap().frees, 0, "the cache is left alone");
}

#[test]
fn device_cache_memory_lies_apart() {
    let (mut alloc, mock) = device_cache(None);
    let mut settings = Settings::default();
    let mut held: Vec<DataPtr> = Vec::new();
    let mut seed: usize = 99;
    let mut most = 0;
    let mut most_reserved = 0;
    for step in 0..300 {
        seed = (seed * 1103515245 + 12345) % (1 << 31);
        if seed % 3 == 0 && !held.is_empty() {
            let k = (seed / 3) % held.len();
            let data = held.swap_remove(k);
            alloc.release(data);
        } else {
            let nbytes = 1 + (seed / 7) % [4096, 1 << 20, 4 << 20, 30 << 20][step % 4];
            config::set_memory_caching(&mut settings, seed % 5 != 0);
            let data = alloc
                .allocate(&settings, nbytes)
                .unwrap_or_else(|e| panic!("{}", e.message()));
            assert!(data.size() >= nbytes);
            assert!(held.iter().all(|d| d.as_ptr() != data.as_ptr()));
            held.push(data);
        }
        let mut ranges: Vec<(usize, usize)> = held.iter().map(|d| (d.as_ptr(), d.size())).collect();
        ranges.sort();
        for w in ranges.windows(2) {
            assert!(w[0].0 + w[0].1 <= w[1].0);
        }
        for r in &ranges {
            let live = &mock.lock().unwrap().live;
            assert!(live.iter().any(|(a, n)| *a <= r.0 && r.0 + r.1 <= a + n));
        }
        let stats = alloc.stats();
        most = most.max(stats.allocated_bytes);
        most_reserved = most_reserved.max(stats.reserved_bytes);
        assert_eq!(stats.allocated_bytes_peak, most);
        assert_eq!(stats.reserved_bytes_peak, most_reserved);
        assert!(stats.num_free <= stats.num_alloc);
        if step % 40 == 39 {
            alloc.empty_cache();
        }
    }
}

#[test]
fn device_cache_release_undoes_allocate() {
    let (mut alloc, mock) = device_cache(None);
    let a = take(&mut alloc, 700);
    let b = take(&mut alloc, 700);
    let c = take(&mut alloc, 700);
    alloc.release(b);
    let before = alloc.stats();
    let d = take(&mut alloc, 400);
    let first = d.as_ptr();
    alloc.release(d);
    assert_eq!(alloc.stats().allocated_bytes, before.allocated_bytes);
    assert_eq!(alloc.stats().reserved_bytes, before.reserved_bytes);
    // Any request that needs a block of that size gets it.
    let e = take(&mut alloc, 512);
    assert_eq!(e.as_ptr(), first);
    assert_eq!(mock.lock().unwrap().mallocs, 1);
    alloc.release(a);
    alloc.release(c);
    alloc.release(e);
}

#[test]
fn the_policy_refuses_what_has_no_layout() {
    assert_eq!(CudaPolicy.check_request(usize::MAX), Ok(()));
    assert_eq!(
        CudaPolicy.check_layout(usize::MAX),
        Err(AllocError::InvalidLayout)
    );
    assert_eq!(CudaPolicy.check_layout(1 << 40), Ok(()));
}

#[test]
fn uses_of_a_device_share_one_cache() {
    let (a, mock_a) = device_cache(None);
    let (b, mock_b) = device_cache(None);
    let mut registry: Registry<std::cell::RefCell<DeviceCache<MockBackend>>> = Registry::new();
    let settings = Settings::default();
    let first = cuda::get(&mut registry, 3, std::cell::RefCell::new(a));
    let d = match first.borrow_mut().allocate(&settings, 512) {
        Ok(d) => d,
        Err(e) => panic!("{}", e.message()),
    };
    let addr = d.as_ptr();
    first.borrow_mut().release(d);
    let second = cuda::get(&mut registry, 3, std::cell::RefCell::new(b));
    assert_eq!(second.borrow().stats().num_alloc, 1);
    let e = match second.borrow_mut().allocate(&settings, 512) {
        Ok(d) => d,
        Err(e) => panic!("{}", e.message()),
    };
    assert_eq!(e.as_ptr(), addr);
    assert_eq!(mock_a.lock().unwrap().mallocs, 1);
    assert_eq!(mock_b.lock().unwrap().mallocs, 0);
    assert_eq!(second.borrow().device(), Device::Cuda(3));
}

/// Every call on the device, in order.
type Calls = Arc<Mutex<Vec<(&'static str, usize)>>>;

/// A device with little room, which writes every call down.
struct Cramped {
    calls: Calls,
    room: usize,
    sizes: HashMap<usize, usize>,
    next: usize,
}

impl DeviceBackend for Cramped {
    fn device_alloc(&mut self, nbytes: usize) -> usize {
        self.calls.lock().unwrap().push(("ask", nbytes));
        if nbytes > self.room {
            return 0;
        }
        self.room -= nbytes;
        let addr = self.next;
        self.next += nbytes;
        self.sizes.insert(addr, nbytes);
        addr
    }

    fn device_free(&mut self, ptr: usize) {
        let nbytes = self.sizes.remove(&ptr).expect("live region");
        self.room += nbytes;
        self.calls.lock().unwrap().push(("free", nbytes));
    }
}

#[test]
fn device_cache_gives_back_before_it_asks_again() {
    let calls: Calls = Arc::new(Mutex::new(Vec::new()));
    let backend = Cramped {
        calls: Arc::clone(&calls),
        room: 24 << 20,
        sizes: HashMap::new(),
        next: 1 << 32,
    };
    let mut alloc = DeviceCache::new(0, backend);
    let settings = Settings::default();
    let a = alloc.allocate(&settings, 512).unwrap_or_else(|e| panic!("{}", e.message()));
    let b = alloc.allocate(&settings, 2 << 20).unwrap_or_else(|e| panic!("{}", e.message()));
    alloc.release(b);
    // The device is full only because of the cache.
    let c = alloc.allocate(&settings, 22 << 20).unwrap_or_else(|e| panic!("{}", e.message()));
    assert_eq!(c.size(), 22 << 20);
    assert_eq!(
        calls.lock().unwrap().clone(),
        vec![
            ("ask", 2 << 20),
            ("ask", 20 << 20),
            ("ask", 22 << 20),
            ("free", 20 << 20),
            ("ask", 22 << 20),
        ]
    );
    alloc.release(a);
    alloc.release(c);
}

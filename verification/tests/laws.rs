use std::sync::{Arc, Mutex};

use lumen::allocator::cache_stats::CacheStats;
use lumen::allocator::pool::{FreePool, Pools};
use lumen::allocator::{AllocError, Layout, Reclaim, Release};
use lumen::config::Settings;
use lumen::{Allocator, CachePolicy, CachingAllocator, CudaPolicy, DataPtr, Device};

const MIB: usize = 1 << 20;

/// Hands out regions back to back, up to a limit of live bytes.
struct Bump {
    next: usize,
    limit: usize,
    live: Arc<Mutex<Vec<(usize, usize)>>>,
}

impl Allocator for Bump {
    fn device(&self) -> Device {
        Device::Cuda(1)
    }

    fn allocate(&mut self, nbytes: usize) -> Result<DataPtr, AllocError> {
        let mut live = self.live.lock().unwrap();
        let held: usize = live.iter().map(|r| r.1).sum();
        if held + nbytes > self.limit {
            return Err(AllocError::Device {
                bytes: nbytes,
                device: Device::Cuda(1),
            });
        }
        let addr = self.next;
        self.next += nbytes;
        live.push((addr, nbytes));
        Ok(DataPtr::with_deleter(
            addr,
            Layout::from_size_align(nbytes, 512).unwrap(),
            Reclaim::Nothing,
        ))
    }

    fn try_allocate(&mut self, nbytes: usize) -> Result<Option<DataPtr>, AllocError> {
        Ok(self.allocate(nbytes).ok())
    }

    fn deallocate(&mut self, addr: usize) {
        let mut live = self.live.lock().unwrap();
        let i = live.iter().position(|r| r.0 == addr).expect("live region");
        live.remove(i);
    }
}

type Cached = CachingAllocator<Bump, CudaPolicy>;

fn cached(limit: usize) -> (Cached, Arc<Mutex<Vec<(usize, usize)>>>) {
    let live = Arc::new(Mutex::new(Vec::new()));
    let backend = Bump {
        next: 1 << 32,
        limit,
        live: Arc::clone(&live),
    };
    (CachingAllocator::new(backend, CudaPolicy), live)
}

fn get(alloc: &mut Cached, nbytes: usize) -> DataPtr {
    match alloc.allocate(&Settings::default(), nbytes) {
        Ok(data) => data,
        Err(e) => panic!("{}", e.message()),
    }
}

fn counters_hold(s: &CacheStats, in_use: usize, segments: usize) {
    assert!(s.allocated_bytes <= s.reserved_bytes);
    assert!(s.allocated_bytes <= s.allocated_bytes_peak);
    assert!(s.reserved_bytes <= s.reserved_bytes_peak);
    assert_eq!(s.num_alloc - s.num_free, in_use);
    assert_eq!(s.num_device_alloc - s.num_device_free, segments);
}

#[test]
fn live_blocks_never_overlap() {
    let (mut alloc, live) = cached(1 << 40);
    let mut held: Vec<DataPtr> = Vec::new();
    let mut seed: usize = 12345;
    for step in 0..400 {
        seed = (seed * 1103515245 + 12345) % (1 << 31);
        if seed % 3 == 0 && !held.is_empty() {
            let k = (seed / 3) % held.len();
            let data = held.swap_remove(k);
            alloc.release(data);
        } else {
            let nbytes = 1 + (seed / 7) % [4096, MIB, 4 * MIB, 30 * MIB][step % 4];
            held.push(get(&mut alloc, nbytes));
        }
        if step % 50 == 49 {
            alloc.empty_cache();
        }
        let mut ranges: Vec<(usize, usize)> = held.iter().map(|d| (d.as_ptr(), d.size())).collect();
        ranges.sort();
        for w in ranges.windows(2) {
            assert!(w[0].0 + w[0].1 <= w[1].0);
        }
        let regions = live.lock().unwrap().clone();
        for r in &ranges {
            assert!(regions
                .iter()
                .any(|l| l.0 <= r.0 && r.0 + r.1 <= l.0 + l.1));
        }
        let total: usize = ranges.iter().map(|r| r.1).sum();
        let reserved: usize = regions.iter().map(|r| r.1).sum();
        let stats = alloc.stats();
        assert_eq!(stats.allocated_bytes, total);
        assert_eq!(stats.reserved_bytes, reserved);
        counters_hold(&stats, held.len(), regions.len());
    }
    for data in held {
        alloc.release(data);
    }
    alloc.empty_cache();
    assert!(live.lock().unwrap().is_empty());
    counters_hold(&alloc.stats(), 0, 0);
}

#[test]
fn release_undoes_allocate() {
    let (mut alloc, _) = cached(1 << 40);
    let keep = get(&mut alloc, 3 * MIB);
    let first = get(&mut alloc, 2 * MIB);
    let at = first.as_ptr();
    alloc.release(first);
    let before = alloc.stats();
    for _ in 0..3 {
        let d = get(&mut alloc, 2 * MIB);
        assert_eq!(d.as_ptr(), at);
        alloc.release(d);
    }
    let after = alloc.stats();
    assert_eq!(after.allocated_bytes, before.allocated_bytes);
    assert_eq!(after.reserved_bytes, before.reserved_bytes);
    assert_eq!(after.num_device_alloc, before.num_device_alloc);
    alloc.release(keep);
}

#[test]
fn best_fit_takes_the_smallest_and_then_the_lowest() {
    let (mut alloc, _) = cached(1 << 40);
    let a = get(&mut alloc, 1024);
    let b = get(&mut alloc, 512);
    let c = get(&mut alloc, 2048);
    let d = get(&mut alloc, 512);
    let e = get(&mut alloc, 1024);
    let f = get(&mut alloc, 512);
    let (pa, pc, pe) = (a.as_ptr(), c.as_ptr(), e.as_ptr());
    alloc.release(e);
    alloc.release(c);
    alloc.release(a);
    // 1024 bytes are free at two places: the lower one serves first.
    let first = get(&mut alloc, 1000);
    assert_eq!(first.as_ptr(), pa);
    let second = get(&mut alloc, 1000);
    assert_eq!(second.as_ptr(), pe);
    // Now 2048 bytes are the smallest fit, and are split.
    let third = get(&mut alloc, 1000);
    assert_eq!(third.as_ptr(), pc);
    let fourth = get(&mut alloc, 1000);
    assert_eq!(fourth.as_ptr(), pc + 1024);
    for p in [b, d, f, first, second, third, fourth] {
        alloc.release(p);
    }
    alloc.empty_cache();
    assert_eq!(alloc.stats().reserved_bytes, 0);
}

#[test]
fn emptying_twice_is_emptying_once() {
    let (mut alloc, live) = cached(1 << 40);
    let a = get(&mut alloc, 512);
    let b = get(&mut alloc, 5 * MIB);
    alloc.release(b);
    alloc.empty_cache();
    let once = alloc.stats();
    assert_eq!(live.lock().unwrap().len(), 1);
    alloc.empty_cache();
    assert_eq!(alloc.stats(), once);
    alloc.release(a);
}

#[test]
fn retry_succeeds_once_the_cache_is_emptied() {
    let (mut alloc, live) = cached(21 * MIB);
    let a = get(&mut alloc, 512);
    alloc.release(a);
    let b = get(&mut alloc, 3 * MIB);
    assert_eq!(b.size(), 3 * MIB);
    assert_eq!(live.lock().unwrap().clone(), vec![(b.as_ptr(), 20 * MIB)]);
    let stats = alloc.stats();
    assert_eq!(stats.num_device_alloc, 2);
    assert_eq!(stats.num_device_free, 1);
    alloc.release(b);
}

#[test]
fn closing_gives_idle_segments_back() {
    let (mut alloc, live) = cached(1 << 40);
    let a = get(&mut alloc, 512);
    let b = get(&mut alloc, 5 * MIB);
    alloc.release(a);
    alloc.release(b);
    assert_eq!(live.lock().unwrap().len(), 2);
    let backend = alloc.close();
    assert_eq!(backend.device(), Device::Cuda(1));
    assert!(live.lock().unwrap().is_empty());
}

/// Whole requests in segments of their own size, up to a limit.
struct Exact {
    most: usize,
}

impl CachePolicy for Exact {
    fn alignment(&self) -> usize {
        8
    }

    fn round_size(&self, nbytes: usize) -> usize {
        nbytes
    }

    fn should_split(&self, _small: bool, _remaining: usize) -> bool {
        false
    }

    fn segment_size(&self, size: usize, _reserved: usize) -> usize {
        size
    }

    fn check_request(&self, nbytes: usize) -> Result<(), AllocError> {
        if nbytes <= self.most {
            Ok(())
        } else {
            Err(AllocError::InvalidBufferSize { nbytes })
        }
    }

    fn check_layout(&self, _nbytes: usize) -> Result<(), AllocError> {
        Ok(())
    }
}

#[test]
fn the_policy_decides() {
    let live = Arc::new(Mutex::new(Vec::new()));
    let backend = Bump {
        next: 1 << 32,
        limit: 1 << 40,
        live: Arc::clone(&live),
    };
    let mut alloc = CachingAllocator::new(backend, Exact { most: 1000 });
    let settings = Settings::default();
    let a = alloc.allocate(&settings, 1000).unwrap_or_else(|e| panic!("{}", e.message()));
    assert_eq!(a.size(), 1000);
    assert_eq!(a.get_layout().align(), 8);
    assert_eq!(live.lock().unwrap().clone(), vec![(1 << 32, 1000)]);
    assert!(matches!(
        alloc.allocate(&settings, 1001),
        Err(AllocError::InvalidBufferSize { nbytes: 1001 })
    ));
    alloc.release(a);
    // The whole block serves a smaller request.
    let b = alloc.allocate(&settings, 10).unwrap_or_else(|e| panic!("{}", e.message()));
    assert_eq!(b.size(), 1000);
    assert_eq!(alloc.stats().allocated_bytes, 1000);
    alloc.release(b);
    alloc.close();
    assert!(live.lock().unwrap().is_empty());
}

#[test]
fn pools_are_ordered() {
    let mut pool = FreePool::new();
    for k in [(512, 9), (1024, 3), (512, 4), (512, 9)] {
        pool.insert(k);
    }
    assert_eq!(pool.len(), 3);
    assert_eq!(
        (0..3).map(|i| pool.at(i)).collect::<Vec<_>>(),
        vec![(512, 4), (512, 9), (1024, 3)]
    );
    assert_eq!(pool.best_fit(1), Some((512, 4)));
    assert_eq!(pool.best_fit(513), Some((1024, 3)));
    assert_eq!(pool.best_fit(1025), None);
    assert!(pool.remove((512, 9)));
    assert!(!pool.remove((512, 9)));
    assert_eq!(pool.len(), 2);

    let mut pools = Pools::new();
    pools.insert(true, (512, 1));
    pools.insert(false, (4096, 2));
    assert_eq!(pools.best_fit(true, 1), Some((512, 1)));
    assert_eq!(pools.best_fit(false, 1), Some((4096, 2)));
    assert_eq!(pools.best_fit(true, 4096), None);
    assert!(!pools.remove(true, (4096, 2)));
    assert!(pools.remove(false, (4096, 2)));
    assert_eq!(pools.len(false), 0);
    assert_eq!(pools.at(true, 0), (512, 1));
}

/// A device whose failures are final: it keeps the default `try_allocate`.
struct Stern {
    asked: Arc<Mutex<Vec<usize>>>,
    left: usize,
}

impl Allocator for Stern {
    fn device(&self) -> Device {
        Device::Mps
    }

    fn allocate(&mut self, nbytes: usize) -> Result<DataPtr, AllocError> {
        self.asked.lock().unwrap().push(nbytes);
        if nbytes > self.left {
            return Err(AllocError::InvalidBufferSize { nbytes });
        }
        self.left -= nbytes;
        Ok(DataPtr::with_deleter(
            (1 << 40) - self.left,
            Layout::from_size_align(nbytes, 1).unwrap(),
            Reclaim::Nothing,
        ))
    }

    fn deallocate(&mut self, _addr: usize) {}
}

#[test]
fn default_try_allocate_asks_once_and_passes_failures_on() {
    let asked = Arc::new(Mutex::new(Vec::new()));
    let mut device = Stern {
        asked: Arc::clone(&asked),
        left: 100,
    };
    match device.try_allocate(60) {
        Ok(Some(d)) => assert_eq!(d.size(), 60),
        _ => panic!("there is room"),
    }
    assert!(matches!(
        device.try_allocate(60),
        Err(AllocError::InvalidBufferSize { nbytes: 60 })
    ));
    assert_eq!(asked.lock().unwrap().clone(), vec![60, 60]);
}

#[test]
fn final_failures_pass_through_the_cache_without_a_retry() {
    let asked = Arc::new(Mutex::new(Vec::new()));
    let device = Stern {
        asked: Arc::clone(&asked),
        left: 2 * MIB,
    };
    let mut alloc = CachingAllocator::new(device, CudaPolicy);
    let settings = Settings::default();
    let a = alloc.allocate(&settings, 512).unwrap_or_else(|e| panic!("{}", e.message()));
    alloc.release(a);
    let before = alloc.stats();
    assert!(matches!(
        alloc.allocate(&settings, 3 * MIB),
        Err(AllocError::InvalidBufferSize { nbytes: 20971520 })
    ));
    assert_eq!(asked.lock().unwrap().clone(), vec![2 * MIB, 20 * MIB]);
    assert_eq!(alloc.stats(), before, "the cached segment is still there");
}

#[test]
fn peaks_are_the_largest_values() {
    let (mut alloc, _live) = cached(1 << 40);
    let mut held: Vec<DataPtr> = Vec::new();
    let mut most = 0;
    let mut most_reserved = 0;
    for nbytes in [512, 3 * MIB, 100, 12 * MIB, 700, 40 * MIB, 1] {
        held.push(get(&mut alloc, nbytes));
        most = most.max(alloc.stats().allocated_bytes);
        most_reserved = most_reserved.max(alloc.stats().reserved_bytes);
        if nbytes > MIB {
            alloc.release(held.swap_remove(0));
            alloc.empty_cache();
        }
        assert_eq!(alloc.stats().allocated_bytes_peak, most);
        assert_eq!(alloc.stats().reserved_bytes_peak, most_reserved);
    }
}

#[test]
fn uncached_memory_lies_apart_from_blocks() {
    let (mut alloc, live) = cached(1 << 40);
    let mut off = Settings::default();
    lumen::config::set_memory_caching(&mut off, false);
    let mut held: Vec<DataPtr> = Vec::new();
    for nbytes in [100, 5 * MIB, 512, 700] {
        held.push(get(&mut alloc, nbytes));
        let raw = alloc.allocate(&off, nbytes).unwrap_or_else(|e| panic!("{}", e.message()));
        assert_eq!(raw.size(), nbytes);
        held.push(raw);
    }
    let mut ranges: Vec<(usize, usize)> = held.iter().map(|d| (d.as_ptr(), d.size())).collect();
    ranges.sort();
    for w in ranges.windows(2) {
        assert!(w[0].0 + w[0].1 <= w[1].0);
    }
    for data in held {
        alloc.release(data);
    }
    alloc.empty_cache();
    assert!(live.lock().unwrap().is_empty());
}

/// A backend that writes down every call: what is asked for, and what comes back.
struct Scribe {
    calls: Arc<Mutex<Vec<(&'static str, usize)>>>,
    room: usize,
    sizes: Vec<(usize, usize)>,
    next: usize,
}

impl Allocator for Scribe {
    fn device(&self) -> Device {
        Device::Cuda(2)
    }

    fn allocate(&mut self, nbytes: usize) -> Result<DataPtr, AllocError> {
        self.calls.lock().unwrap().push(("ask", nbytes));
        if nbytes > self.room {
            return Err(AllocError::Device {
                bytes: nbytes,
                device: Device::Cuda(2),
            });
        }
        self.room -= nbytes;
        let addr = self.next;
        self.next += nbytes;
        self.sizes.push((addr, nbytes));
        Ok(DataPtr::with_deleter(
            addr,
            Layout::from_size_align(nbytes, 128).unwrap(),
            Reclaim::Nothing,
        ))
    }

    fn try_allocate(&mut self, nbytes: usize) -> Result<Option<DataPtr>, AllocError> {
        Ok(self.allocate(nbytes).ok())
    }

    fn deallocate(&mut self, addr: usize) {
        let i = self.sizes.iter().position(|r| r.0 == addr).expect("live region");
        let (_, nbytes) = self.sizes.swap_remove(i);
        self.room += nbytes;
        self.calls.lock().unwrap().push(("free", nbytes));
    }
}

fn scribe(room: usize) -> (Scribe, Arc<Mutex<Vec<(&'static str, usize)>>>) {
    let calls = Arc::new(Mutex::new(Vec::new()));
    let backend = Scribe {
        calls: Arc::clone(&calls),
        room,
        sizes: Vec::new(),
        next: 1 << 32,
    };
    (backend, calls)
}

#[test]
fn idle_segments_go_back_before_the_device_is_asked_again() {
    let (backend, calls) = scribe(24 * MIB);
    let mut alloc = CachingAllocator::new(backend, CudaPolicy);
    let settings = Settings::default();
    let a = alloc.allocate(&settings, 512).unwrap_or_else(|e| panic!("{}", e.message()));
    let b = alloc.allocate(&settings, 2 * MIB).unwrap_or_else(|e| panic!("{}", e.message()));
    alloc.release(b);
    // The device is full only because of the cache.
    let c = alloc.allocate(&settings, 22 * MIB).unwrap_or_else(|e| panic!("{}", e.message()));
    assert_eq!(c.size(), 22 * MIB);
    alloc.release(a);
    alloc.release(c);
    // Nothing is idle enough to help: every whole segment goes back, and the same
    // bytes are asked for exactly once more.
    match alloc.allocate(&settings, 30 * MIB) {
        Ok(_) => panic!("the device is too small"),
        Err(e) => assert_eq!(
            e,
            AllocError::OutOfMemory {
                bytes: 30 * MIB,
                device: Device::Cuda(2)
            }
        ),
    }
    assert_eq!(
        calls.lock().unwrap().clone(),
        vec![
            ("ask", 2 * MIB),
            ("ask", 20 * MIB),
            ("ask", 22 * MIB),
            ("free", 20 * MIB),
            ("ask", 22 * MIB),
            ("ask", 30 * MIB),
            ("free", 2 * MIB),
            ("free", 22 * MIB),
            ("ask", 30 * MIB),
        ]
    );
    assert_eq!(alloc.stats().reserved_bytes, 0);
}

#[test]
fn uncached_memory_keeps_the_layout_that_the_device_gave() {
    let (backend, calls) = scribe(22 * MIB);
    let mut alloc = CachingAllocator::new(backend, CudaPolicy);
    let mut off = Settings::default();
    lumen::config::set_memory_caching(&mut off, false);
    let a = alloc.allocate(&off, 300).unwrap_or_else(|e| panic!("{}", e.message()));
    assert_eq!(a.size(), 300);
    assert_eq!(a.get_layout().align(), 128);
    alloc.release(a);
    assert_eq!(calls.lock().unwrap().clone(), vec![("ask", 300), ("free", 300)]);
}

#[test]
fn default_try_allocate_hands_the_pointer_on() {
    let mut device = Stern {
        asked: Arc::new(Mutex::new(Vec::new())),
        left: 100,
    };
    match device.try_allocate(10) {
        Ok(Some(d)) => {
            assert_eq!(d.as_ptr(), (1 << 40) - 90);
            assert_eq!(d.get_layout().align(), 1);
            assert!(matches!(
                d.release(),
                Release::Custom {
                    reclaim: Reclaim::Nothing,
                    ..
                }
            ));
        }
        _ => panic!("there is room"),
    }
}

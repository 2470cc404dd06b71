use std::collections::HashMap;
use std::sync::{Arc, Mutex};

use lumen::allocator::mps::{
    self, heap_tier, HeapTier, Limits, K_LARGE_HEAP, K_SMALL_HEAP, K_XLARGE_HEAP,
};
use lumen::allocator::traits::{checked_round_up, dedicated_segment_size};
use lumen::allocator::{is_power_of_two, AllocError, Layout, Reclaim};
use lumen::config::Settings;
use lumen::{Allocator, CachePolicy, CachingAllocator, DataPtr, Device, MpsPolicy};

/// A Metal device on paper: addresses only.
struct PaperMetal {
    next: usize,
    live: Arc<Mutex<HashMap<usize, usize>>>,
}

impl Allocator for PaperMetal {
    fn device(&self) -> Device {
        Device::Mps
    }

    fn allocate(&mut self, nbytes: usize) -> Result<DataPtr, AllocError> {
        let addr = self.next;
        self.next += nbytes.next_multiple_of(16 << 10);
        self.live.lock().unwrap().insert(addr, nbytes);
        Ok(DataPtr::with_deleter(
            addr,
            Layout::from_size_align(nbytes, 256).unwrap(),
            Reclaim::Nothing,
        ))
    }

    fn deallocate(&mut self, addr: usize) {
        assert!(self.live.lock().unwrap().remove(&addr).is_some());
    }
}

/// What an Apple Silicon device reports.
const LIMITS: Limits = Limits {
    alignment: 256,
    page_size: 16 << 10,
    max_buffer_length: 9 << 30,
    recommended_max_working_set: 12 << 30,
};

fn policy() -> MpsPolicy {
    MpsPolicy::from_device(&LIMITS, Some(16 << 30))
}

type Cached = CachingAllocator<PaperMetal, MpsPolicy>;

/// An allocator with its own private cache.
fn fresh() -> Cached {
    let backend = PaperMetal {
        next: 1 << 36,
        live: Arc::new(Mutex::new(HashMap::new())),
    };
    CachingAllocator::new(backend, policy())
}

fn get(alloc: &mut Cached, nbytes: usize) -> DataPtr {
    match alloc.allocate(&Settings::default(), nbytes) {
        Ok(data) => data,
        Err(e) => panic!("{}", e.message()),
    }
}

#[test]
fn reports_mps_device() {
    let mut slot: Option<Cached> = None;
    match mps::get(&mut slot, Some(1), fresh()) {
        Ok(alloc) => assert_eq!(alloc.device(), Device::Mps),
        Err(e) => panic!("{}", e.message()),
    }
    assert_eq!(Device::Mps.to_string(), "mps");
}

#[test]
fn mps_get_returns_the_same_global_instance() {
    let mut slot: Option<Cached> = None;
    assert!(mps::get(&mut slot, Some(1), fresh()).is_ok());
    // Both calls share one cache: an allocation freed after the first is
    // reusable after the second.
    let p = get(slot.as_mut().unwrap(), 512);
    let ptr = p.as_ptr();
    slot.as_mut().unwrap().release(p);
    assert!(mps::get(&mut slot, Some(1), fresh()).is_ok());
    let q = get(slot.as_mut().unwrap(), 512);
    assert_eq!(
        q.as_ptr(),
        ptr,
        "expected block reuse from the shared cache"
    );
    assert_eq!(slot.as_ref().unwrap().stats().num_alloc, 2);
}

#[test]
fn small_alloc_uses_mps_segment_size() {
    let mut alloc = fresh();
    let _data = get(&mut alloc, 512);
    // Small requests carve an 8 MiB segment, not CUDA's 2 MiB.
    assert_eq!(alloc.stats().reserved_bytes, 8 << 20);
}

#[test]
fn freed_block_is_reused_without_new_device_alloc() {
    let mut alloc = fresh();
    let a = get(&mut alloc, 2048);
    let b = get(&mut alloc, 2048); // served from the same segment's remainder
    alloc.release(a);
    alloc.release(b);
    assert_eq!(alloc.stats().num_device_alloc, 1);
}

#[test]
fn empty_cache_releases_segments_to_metal() {
    let mut alloc = fresh();
    let data = get(&mut alloc, 1 << 20);
    alloc.release(data);
    assert!(alloc.stats().reserved_bytes > 0);
    alloc.empty_cache();
    let stats = alloc.stats();
    assert_eq!(stats.reserved_bytes, 0);
    assert_eq!(stats.num_device_free, stats.num_device_alloc);
}

#[test]
fn stats_track_allocated_and_peak() {
    let mut alloc = fresh();
    let a = get(&mut alloc, 1000); // rounds to 1024
    let b = get(&mut alloc, 1000);
    assert_eq!(alloc.stats().allocated_bytes, 2048);
    alloc.release(a);
    assert_eq!(alloc.stats().allocated_bytes, 1024);
    assert_eq!(alloc.stats().allocated_bytes_peak, 2048);
    alloc.release(b);
}

#[test]
fn limits_come_from_metal() {
    let limits = policy();
    assert!(is_power_of_two(limits.alignment));
    assert!(is_power_of_two(limits.page_size));
    assert!(limits.max_buffer_size > 1 << 30);
    assert!(limits.low_watermark_limit > limits.max_buffer_size / 2);
    println!("{limits:?}");
}

#[test]
fn small_alloc_rounds_to_metal_alignment() {
    let mut alloc = fresh();
    let _data = get(&mut alloc, 1);
    assert_eq!(alloc.stats().allocated_bytes, policy().alignment);
}

#[test]
fn policy_takes_over_what_the_device_reports() {
    let p = MpsPolicy::from_device(&LIMITS, None);
    assert_eq!(p.alignment, 256);
    assert_eq!(p.page_size, 16 << 10);
    assert_eq!(p.max_buffer_size, 9 << 30);
    assert_eq!(p.low_watermark_limit, usize::MAX);
    assert_eq!(
        MpsPolicy::from_device(&LIMITS, Some(5)).low_watermark_limit,
        5
    );
}

#[test]
fn tiers_at_their_edges() {
    assert_eq!(heap_tier(1 << 20, true), HeapTier::Small);
    assert_eq!(heap_tier((1 << 20) + 1, true), HeapTier::Large);
    assert_eq!(heap_tier((10 << 20) - 1, false), HeapTier::Large);
    assert_eq!(heap_tier(10 << 20, false), HeapTier::XLarge);
    assert_eq!(heap_tier(10 << 20, true), HeapTier::Oversize);
    assert_eq!(heap_tier((512 << 20) - 1, false), HeapTier::XLarge);
    assert_eq!(heap_tier(512 << 20, false), HeapTier::Oversize);
}

#[test]
fn policy_sizes() {
    let p = policy();
    assert_eq!(p.alignment(), 256);
    assert_eq!(p.round_size(1), 256);
    assert_eq!(p.round_size(257), 512);
    assert_eq!(p.round_size(1 << 20), 1 << 20);
    assert_eq!(p.round_size((3 << 20) + 1), (3 << 20) + (64 << 10));
    assert_eq!(p.segment_size(256, 0), K_SMALL_HEAP);
    assert_eq!(p.segment_size(2 << 20, 0), K_LARGE_HEAP);
    assert_eq!(p.segment_size(20 << 20, 0), K_XLARGE_HEAP);
    assert_eq!(p.segment_size(20 << 20, 16 << 30), 20 << 20);
    assert_eq!(p.segment_size(20 << 20, usize::MAX), 20 << 20);
    assert!(p.should_split(true, 256));
    assert!(!p.should_split(true, 255));
    assert!(p.should_split(false, 1 << 20));
    assert!(!p.should_split(false, (1 << 20) - 1));
    assert_eq!(p.check_request((9 << 30) - 1), Ok(()));
    assert_eq!(
        p.check_request(9 << 30),
        Err(AllocError::InvalidBufferSize { nbytes: 9 << 30 })
    );
    assert_eq!(
        AllocError::InvalidBufferSize { nbytes: 100 }.message(),
        "Invalid buffer size: 100 bytes"
    );
}

#[test]
fn requests_beyond_the_address_space_are_refused() {
    let p = MpsPolicy {
        max_buffer_size: usize::MAX,
        ..policy()
    };
    assert_eq!(p.check_request(usize::MAX - 1), Ok(()));
    assert_eq!(
        p.check_layout(usize::MAX - 1),
        Err(AllocError::InvalidLayout)
    );
    assert_eq!(p.check_layout(1 << 40), Ok(()));
    let mut alloc = CachingAllocator::new(
        PaperMetal {
            next: 1 << 36,
            live: Arc::new(Mutex::new(HashMap::new())),
        },
        p,
    );
    assert!(matches!(
        alloc.allocate(&Settings::default(), usize::MAX - 1),
        Err(AllocError::InvalidLayout)
    ));
}

#[test]
fn only_the_longest_buffer_decides_on_a_request() {
    let p = MpsPolicy {
        alignment: 3,
        max_buffer_size: 64 << 20,
        ..policy()
    };
    assert_eq!(p.check_request((64 << 20) - 1), Ok(()));
    assert_eq!(
        p.check_request(64 << 20),
        Err(AllocError::InvalidBufferSize { nbytes: 64 << 20 })
    );
    assert_eq!(
        p.check_layout((64 << 20) - 1),
        Err(AllocError::InvalidLayout)
    );
}

#[test]
fn buckets_stop_at_the_longest_buffer() {
    let p = MpsPolicy {
        max_buffer_size: (3 << 20) + (64 << 10),
        ..policy()
    };
    assert_eq!(p.round_size((3 << 20) + 1), (3 << 20) + 256);
}

#[test]
fn rounding_up() {
    assert_eq!(checked_round_up(0, 7), Some(0));
    assert_eq!(checked_round_up(7, 7), Some(7));
    assert_eq!(checked_round_up(8, 7), Some(14));
    assert_eq!(checked_round_up(usize::MAX, 2), None);
    assert_eq!(dedicated_segment_size(1), 2 << 20);
    assert_eq!(dedicated_segment_size(4 << 20), 4 << 20);
}

#[test]
fn metal_has_to_be_there() {
    assert!(mps::is_available(Some(1)));
    assert!(!mps::is_available(Some(0)));
    assert!(!mps::is_available(None));
    let mut slot: Option<usize> = None;
    match mps::get(&mut slot, None, 5) {
        Ok(_) => panic!("there is no device"),
        Err(e) => assert_eq!(e.message(), "no Metal device available"),
    }
    assert_eq!(slot, None);
    assert!(matches!(mps::get(&mut slot, Some(1), 5), Ok(5)));
    assert!(matches!(mps::get(&mut slot, Some(1), 6), Ok(5)));
    assert_eq!(slot, Some(5));
}

#[test]
fn rounding_does_not_ask_for_the_longest_buffer() {
    let p = MpsPolicy {
        max_buffer_size: 64 << 20,
        ..policy()
    };
    assert_eq!(p.round_size(64 << 20), 64 << 20);
    assert_eq!(p.round_size((64 << 20) + 1), (64 << 20) + 256);
    assert_eq!(
        p.check_request(64 << 20),
        Err(AllocError::InvalidBufferSize { nbytes: 64 << 20 })
    );
}

#[test]
fn segments_do_not_depend_on_the_alignment() {
    let p = MpsPolicy {
        alignment: 3,
        ..policy()
    };
    assert_eq!(p.segment_size(512, 0), K_SMALL_HEAP);
    assert_eq!(p.segment_size(600 << 20, 7), 600 << 20);
    assert_eq!(p.segment_size((600 << 20) + 1, 7), 602 << 20);
    assert!(p.should_split(true, 3));
    assert!(!p.should_split(true, 2));
}

#[test]
fn rounding_is_whole_monotone_and_idempotent() {
    let p = policy();
    let mut last = 0;
    for k in 1..4000 {
        let n = k * 9973;
        let r = p.round_size(n);
        let aligned = n.next_multiple_of(p.alignment);
        assert!(r >= aligned);
        assert_eq!(r % p.alignment, 0);
        assert!(r >= last);
        assert_eq!(p.round_size(r), r);
        assert_eq!(heap_tier(r, false), heap_tier(aligned, false));
        if aligned <= 1 << 20 {
            assert_eq!(r, aligned);
        } else {
            let bucket = (1usize << aligned.ilog2()) >> 5;
            assert!(r - aligned < bucket.max(p.page_size));
        }
        last = r;
    }
}

use std::sync::{Arc, Mutex};

use lumen::allocator::caching::DANGLING;
use lumen::allocator::{AllocError, Layout, Reclaim};
use lumen::config::{self, Settings};
use lumen::{Allocator, CachingAllocator, CudaPolicy, DataPtr, Device};

#[derive(Default)]
struct Log {
    allocs: Vec<usize>,
    frees: usize,
    full: bool,
}

/// Returns fake, never-dereferenced addresses and logs every call.
struct FakeBackend(Arc<Mutex<Log>>);

impl Allocator for FakeBackend {
    fn device(&self) -> Device {
        Device::Cuda(0)
    }

    fn allocate(&mut self, nbytes: usize) -> Result<DataPtr, AllocError> {
        let mut log = self.0.lock().unwrap();
        if log.full {
            return Err(AllocError::Device {
                bytes: nbytes,
                device: Device::Cuda(0),
            });
        }
        log.allocs.push(nbytes);
        let addr = (1 << 32) + log.allocs.len() * (1 << 30);
        Ok(DataPtr::with_deleter(
            addr,
            Layout::from_size_align(nbytes, 1).unwrap(),
            Reclaim::Nothing,
        ))
    }

    fn try_allocate(&mut self, nbytes: usize) -> Result<Option<DataPtr>, AllocError> {
        Ok(self.allocate(nbytes).ok())
    }

    fn deallocate(&mut self, _addr: usize) {
        self.0.lock().unwrap().frees += 1;
    }
}

#[test]
fn memory_caching_can_be_switched_off_and_on() {
    let log = Arc::new(Mutex::new(Log::default()));
    let mut alloc = CachingAllocator::new(FakeBackend(Arc::clone(&log)), CudaPolicy);
    let mut settings = Settings::default();
    assert!(config::memory_caching(&settings), "caching is on by default");

    // Cached: one 2 MiB segment, rounded blocks, reuse, nothing freed.
    let cached = alloc.allocate(&settings, 100).unwrap_or_else(|e| panic!("{}", e.message()));
    let second = alloc.allocate(&settings, 100).unwrap_or_else(|e| panic!("{}", e.message()));
    alloc.release(second);
    assert_eq!(log.lock().unwrap().allocs, vec![2 << 20]);
    assert_eq!(alloc.stats().allocated_bytes, 512);

    // Off: exact sizes straight to the backend, freed on release, not counted.
    config::set_memory_caching(&mut settings, false);
    let a = alloc.allocate(&settings, 100).unwrap_or_else(|e| panic!("{}", e.message()));
    let b = alloc.allocate(&settings, 3 << 20).unwrap_or_else(|e| panic!("{}", e.message()));
    assert_eq!(log.lock().unwrap().allocs, vec![2 << 20, 100, 3 << 20]);
    assert_eq!(alloc.stats().allocated_bytes, 512, "only the cached block");
    alloc.release(a);
    alloc.release(b);
    assert_eq!(log.lock().unwrap().frees, 2);
    let empty = alloc.allocate(&settings, 0).unwrap_or_else(|e| panic!("{}", e.message()));
    assert_eq!(empty.as_ptr(), DANGLING);
    assert_eq!(DANGLING, std::ptr::NonNull::<u8>::dangling().addr().get());

    // A block allocated while caching was on still returns to the cache.
    alloc.release(cached);
    assert_eq!(alloc.stats().allocated_bytes, 0);
    assert_eq!(log.lock().unwrap().frees, 2, "the segment stays cached");

    // Back on: the cached segment is reused.
    config::set_memory_caching(&mut settings, true);
    let again = alloc.allocate(&settings, 100).unwrap_or_else(|e| panic!("{}", e.message()));
    alloc.release(again);
    assert_eq!(log.lock().unwrap().allocs.len(), 3);

    alloc.close(); // last reference: the cached segment goes back to the device
    assert_eq!(log.lock().unwrap().frees, 3);
}

#[test]
fn uncached_requests_pass_the_failure_of_the_device_on() {
    let log = Arc::new(Mutex::new(Log::default()));
    let mut alloc = CachingAllocator::new(FakeBackend(Arc::clone(&log)), CudaPolicy);
    let mut settings = Settings::default();
    config::set_memory_caching(&mut settings, false);
    log.lock().unwrap().full = true;
    match alloc.allocate(&settings, 100) {
        Ok(_) => panic!("the device is full"),
        Err(e) => {
            assert_eq!(
                e,
                AllocError::Device {
                    bytes: 100,
                    device: Device::Cuda(0)
                }
            );
            assert_eq!(e.message(), "failed to allocate 100 bytes on cuda:0");
        }
    }
}

#[test]
fn settings_are_displayed() {
    let mut settings = Settings::default();
    assert_eq!(settings.repr(), "lumen.config(memory_caching=True)");
    config::set_memory_caching(&mut settings, false);
    assert_eq!(settings.repr(), "lumen.config(memory_caching=False)");
    assert!(!config::memory_caching(&settings));
}

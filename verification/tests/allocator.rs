use std::collections::HashMap;

use lumen::allocator::cpu::HostRequest;
use lumen::allocator::{AllocError, Layout, Reclaim, Release};
use lumen::{CpuAllocator, DataPtr, Device};

/// A host that hands out aligned addresses and checks what comes back.
struct Host {
    next: usize,
    live: HashMap<usize, Layout>,
}

impl Host {
    fn new() -> Self {
        Host {
            next: 4096,
            live: HashMap::new(),
        }
    }

    fn allocate(&mut self, nbytes: usize) -> DataPtr {
        match CpuAllocator::get().allocate(nbytes) {
            Ok(HostRequest::Ready(data)) => data,
            Ok(HostRequest::Alloc(layout)) => {
                let addr = self.next.next_multiple_of(layout.align());
                self.next = addr + layout.size();
                self.live.insert(addr, layout);
                CpuAllocator::get()
                    .complete(layout, addr)
                    .expect("the host gave memory")
            }
            Err(e) => panic!("{}", e.message()),
        }
    }

    fn release(&mut self, data: DataPtr) {
        match data.release() {
            Release::Nothing => {}
            Release::Dealloc { addr, layout } => {
                assert_eq!(self.live.remove(&addr), Some(layout));
            }
            Release::Custom { .. } => panic!("host memory has no deleter"),
        }
    }
}

#[test]
fn allocator_reports_cpu_device() {
    assert_eq!(CpuAllocator.device(), Device::Cpu);
    assert_eq!(CpuAllocator::get().device(), Device::Cpu);
}

#[test]
fn allocator_get_returns_the_same_global_instance() {
    let a = CpuAllocator::get();
    let b = CpuAllocator::get();
    assert!(std::ptr::eq(a, b));
}

#[test]
fn allocation_is_non_null_and_64_byte_aligned() {
    let mut host = Host::new();
    let data = host.allocate(256);
    let ptr = data.as_ptr();
    assert!(ptr != 0);
    assert_eq!(ptr % 64, 0, "pointer must be 64-byte aligned");
    host.release(data);
}

#[test]
fn allocator_zero_byte_allocation_is_safe() {
    let mut host = Host::new();
    let data = host.allocate(0);
    // Dangling but aligned; must not be dereferenced, must drop cleanly.
    assert_eq!(data.as_ptr() % 64, 0);
    host.release(data);
    assert!(host.live.is_empty());
}

#[test]
fn repeated_alloc_and_drop_cycles_do_not_crash() {
    // Exercises the release (with the matching layout).
    let mut host = Host::new();
    for i in 0..100 {
        let data = host.allocate(1 << (i % 12));
        assert!(data.as_ptr() != 0);
        host.release(data);
    }
    assert!(host.live.is_empty());
}

#[test]
fn data_ptr_crosses_threads() {
    fn assert_send_sync<T: Send + Sync>() {}
    assert_send_sync::<DataPtr>();
}

#[test]
fn host_requests_without_a_layout_are_refused() {
    assert!(matches!(
        CpuAllocator::get().allocate(isize::MAX as usize),
        Err(AllocError::InvalidLayout)
    ));
    assert!(matches!(
        CpuAllocator::get().allocate(isize::MAX as usize - 63),
        Ok(HostRequest::Alloc(_))
    ));
}

#[test]
fn a_host_without_memory_gives_no_pointer() {
    let layout = Layout::from_size_align(100, 64).unwrap();
    assert!(CpuAllocator::get().complete(layout, 0).is_none());
}

#[test]
fn layouts() {
    let l = Layout::from_size_align(100, 64).unwrap();
    assert_eq!(l.size(), 100);
    assert_eq!(l.align(), 64);
    assert!(Layout::from_size_align(100, 0).is_none());
    assert!(Layout::from_size_align(100, 48).is_none());
    assert!(Layout::from_size_align(isize::MAX as usize, 1).is_some());
    assert!(Layout::from_size_align(isize::MAX as usize, 2).is_none());
    for (size, align) in [(0, 1), (7, 8), (512, 512), (1 << 20, 1 << 30)] {
        assert_eq!(
            Layout::from_size_align(size, align).is_some(),
            std::alloc::Layout::from_size_align(size, align).is_ok()
        );
    }
}

#[test]
fn pointers_say_who_takes_them_back() {
    let layout = Layout::from_size_align(512, 512).unwrap();
    assert_eq!(
        DataPtr::new(4096, layout).release(),
        Release::Dealloc { addr: 4096, layout }
    );
    let block = DataPtr::with_deleter(4096, layout, Reclaim::Block { size: 512 });
    assert_eq!(block.size(), 512);
    assert_eq!(
        block.release(),
        Release::Custom {
            addr: 4096,
            reclaim: Reclaim::Block { size: 512 }
        }
    );
}

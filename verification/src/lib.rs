//! Device memory: caching allocators, their size policies, and the devices they
//! serve.
//!
//! The library keeps the books. Addresses are numbers here; who owns the memory
//! behind them, and who is asked for it, is up to the backends.
use vstd::prelude::*;

pub mod allocator;
pub mod config;
pub mod device;
pub mod python;
pub mod text;
pub mod toolkit;

pub use allocator::caching::CachingAllocator;
pub use allocator::cpu::CpuAllocator;
pub use allocator::cuda::CudaPolicy;
pub use allocator::mps::MpsPolicy;
pub use allocator::traits::CachePolicy;
pub use allocator::{Allocator, DataPtr};
pub use device::Device;

verus! {

} // verus!

//! The host allocator: 64-byte aligned memory, uninitialized.
use vstd::prelude::*;

use super::{AllocError, DataPtr, Deleter, Layout};
use crate::device::Device;

verus! {

/// Alignment of host memory, to keep SIMD loads happy.
pub const HOST_ALIGN: usize = 64;

/// What a request asks of the host.
pub enum HostRequest {
    /// Nothing: the pointer owns no memory.
    Ready(DataPtr),
    /// Memory of this layout.
    Alloc(Layout),
}

/// The allocator of host memory.
#[derive(Debug, Clone, Copy, PartialEq, Eq, Structural)]
pub struct CpuAllocator;

impl CpuAllocator {
    /// The one host allocator.
    pub fn get() -> (a: &'static CpuAllocator)
        ensures
            *a == CpuAllocator,
    {
        &CpuAllocator
    }

    /// The device the memory lives on.
    pub fn device(&self) -> (d: Device)
        ensures
            d == Device::Cpu,
    {
        Device::Cpu
    }

    /// What a request for `nbytes` asks of the host. No bytes need no memory, only
    /// an aligned address.
    pub fn allocate(&self, nbytes: usize) -> (r: Result<HostRequest, AllocError>)
        ensures
            match r {
                Ok(HostRequest::Ready(d)) => {
                    &&& nbytes == 0
                    &&& d.addr() == HOST_ALIGN
                    &&& d.layout().spec_size() == 0
                    &&& d.layout().spec_align() == HOST_ALIGN
                    &&& d.deleter() == Deleter::Std
                },
                Ok(HostRequest::Alloc(layout)) => {
                    &&& nbytes > 0
                    &&& super::layout_fits(nbytes as int, HOST_ALIGN as int)
                    &&& layout.spec_size() == nbytes
                    &&& layout.spec_align() == HOST_ALIGN
                },
                Err(e) => {
                    &&& !super::layout_fits(nbytes as int, HOST_ALIGN as int)
                    &&& e == AllocError::InvalidLayout
                },
            },
    {
        proof {
            super::lemma_alignments();
        }
        match Layout::from_size_align(nbytes, HOST_ALIGN) {
            None => Err(AllocError::InvalidLayout),
            Some(layout) => {
                if nbytes == 0 {
                    Ok(HostRequest::Ready(DataPtr::new(layout.align(), layout)))
                } else {
                    Ok(HostRequest::Alloc(layout))
                }
            },
        }
    }

    /// Owns the memory that the host gave for a layout; the null address means
    /// that it gave none.
    pub fn complete(&self, layout: Layout, raw: usize) -> (r: Option<DataPtr>)
        ensures
            match r {
                Some(d) => {
                    &&& raw != 0
                    &&& d.addr() == raw
                    &&& d.layout() == layout
                    &&& d.deleter() == Deleter::Std
                },
                None => raw == 0,
            },
    {
        if raw == 0 {
            None
        } else {
            Some(DataPtr::new(raw, layout))
        }
    }
}

} // verus!

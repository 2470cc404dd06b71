//! Allocators hand out [`DataPtr`]s: an owning address plus what is needed to
//! give the memory back.
use vstd::arithmetic::power2::*;
use vstd::prelude::*;
use vstd::string::*;

use crate::device::Device;
use crate::text::decimal_string;

pub mod backing;
pub mod blocks;
pub mod cache_stats;
pub mod caching;
pub mod cpu;
pub mod cuda;
pub mod ledger;
pub mod mps;
pub mod pool;
pub mod registry;
pub mod space;
pub mod traits;

verus! {

// ---------------------------------------------------------------------
// Layouts
// ---------------------------------------------------------------------

/// Whether a block of `size` bytes can be laid out at `align`: the alignment is
/// a power of two, and the size, rounded up to it, is within `isize::MAX`.
pub open spec fn layout_fits(size: int, align: int) -> bool {
    is_pow2(align) && 0 <= size <= isize::MAX - (align - 1)
}

/// A block of `size` bytes at `align` has a layout, unless it is longer than
/// memory can be.
pub open spec fn layout_once_given(size: int, align: int) -> bool {
    0 <= size <= usize::MAX && (size <= isize::MAX ==> layout_fits(size, align))
}

/// The size and alignment of a block of memory.
#[derive(Debug, Clone, Copy, PartialEq, Eq, Structural)]
pub struct Layout {
    size: usize,
    align: usize,
}

impl Layout {
    /// Size in bytes.
    pub closed spec fn spec_size(self) -> usize {
        self.size
    }

    /// Alignment in bytes.
    pub closed spec fn spec_align(self) -> usize {
        self.align
    }

    /// The layout of `size` bytes at `align`, if there is one.
    pub fn from_size_align(size: usize, align: usize) -> (r: Option<Layout>)
        ensures
            match r {
                Some(l) => {
                    &&& layout_fits(size as int, align as int)
                    &&& l.spec_size() == size
                    &&& l.spec_align() == align
                },
                None => !layout_fits(size as int, align as int),
            },
    {
        proof {
            reveal(is_pow2);
        }
        if is_power_of_two(align) && align - 1 <= isize::MAX as usize && size <= isize::MAX as usize
            - (align - 1) {
            Some(Layout { size, align })
        } else {
            None
        }
    }

    /// Size in bytes.
    pub fn size(&self) -> (n: usize)
        ensures
            n == self.spec_size(),
    {
        self.size
    }

    /// Alignment in bytes.
    pub fn align(&self) -> (n: usize)
        ensures
            n == self.spec_align(),
    {
        self.align
    }
}

/// Tests for a power of two.
pub fn is_power_of_two(n: usize) -> (r: bool)
    ensures
        r == is_pow2(n as int),
{
    let mut m: usize = n;
    while m > 1 && m % 2 == 0
        invariant
            is_pow2(m as int) == is_pow2(n as int),
        decreases m,
    {
        proof {
            reveal(is_pow2);
        }
        m = m / 2;
    }
    proof {
        reveal(is_pow2);
    }
    m == 1
}

/// The powers of two that serve as alignments here.
pub proof fn lemma_alignments()
    ensures
        is_pow2(1),
        is_pow2(64),
        is_pow2(512),
{
    reveal_with_fuel(is_pow2, 11);
}

// ---------------------------------------------------------------------
// Errors
// ---------------------------------------------------------------------

/// Why an allocation was refused.
#[derive(Debug, Clone, Copy, PartialEq, Eq, Structural)]
pub enum AllocError {
    /// The policy does not take requests of this size.
    InvalidBufferSize {
        /// Bytes asked for.
        nbytes: usize,
    },
    /// The rounded request has no valid layout.
    InvalidLayout,
    /// The device could not give a segment, nor memory for an uncached request.
    Device {
        /// Bytes asked of the device.
        bytes: usize,
        /// The device.
        device: Device,
    },
    /// The device could not give a segment even after the cache was emptied.
    OutOfMemory {
        /// Bytes asked of the device.
        bytes: usize,
        /// The device.
        device: Device,
    },
    /// A CUDA device could not give a segment even after the cache was emptied.
    CudaOutOfMemory {
        /// Bytes asked of the device.
        bytes: usize,
        /// Index of the device.
        device_index: usize,
    },
}

impl AllocError {
    /// The message of the error.
    pub open spec fn text(self) -> Seq<char> {
        match self {
            AllocError::InvalidBufferSize { nbytes } => "Invalid buffer size: "@
                + crate::text::decimal(nbytes as int) + " bytes"@,
            AllocError::InvalidLayout => "invalid allocation layout"@,
            AllocError::Device { bytes, device } => "failed to allocate "@ + crate::text::decimal(
                bytes as int,
            ) + " bytes on "@ + device.text(),
            AllocError::OutOfMemory { bytes, device } => "failed to allocate "@
                + crate::text::decimal(bytes as int) + " bytes on "@ + device.text()
                + " (after empty_cache retry)"@,
            AllocError::CudaOutOfMemory { bytes, device_index } =>
            "CUDA out of memory: failed to allocate "@ + crate::text::decimal(bytes as int)
                + " bytes on device "@ + crate::text::decimal(device_index as int),
        }
    }

    /// The message of the error.
    pub fn message(&self) -> (s: String)
        ensures
            s@ == self.text(),
    {
        match self {
            AllocError::InvalidBufferSize { nbytes } => {
                let mut s = "Invalid buffer size: ".to_owned();
                let n = decimal_string(*nbytes as u64);
                s.append(n.as_str());
                s.append(" bytes");
                s
            },
            AllocError::InvalidLayout => "invalid allocation layout".to_owned(),
            AllocError::Device { bytes, device } => {
                let mut s = "failed to allocate ".to_owned();
                let n = decimal_string(*bytes as u64);
                let d = device.to_string();
                s.append(n.as_str());
                s.append(" bytes on ");
                s.append(d.as_str());
                s
            },
            AllocError::OutOfMemory { bytes, device } => {
                let mut s = "failed to allocate ".to_owned();
                let n = decimal_string(*bytes as u64);
                let d = device.to_string();
                s.append(n.as_str());
                s.append(" bytes on ");
                s.append(d.as_str());
                s.append(" (after empty_cache retry)");
                s
            },
            AllocError::CudaOutOfMemory { bytes, device_index } => {
                let mut s = "CUDA out of memory: failed to allocate ".to_owned();
                let n = decimal_string(*bytes as u64);
                let d = decimal_string(*device_index as u64);
                s.append(n.as_str());
                s.append(" bytes on device ");
                s.append(d.as_str());
                s
            },
        }
    }
}

// ---------------------------------------------------------------------
// Pointers
// ---------------------------------------------------------------------

/// Who takes a buffer back, where it is not the host allocator.
#[derive(Debug, Clone, Copy, PartialEq, Eq, Structural)]
pub enum Reclaim {
    /// Nobody: the pointer owns no memory.
    Nothing,
    /// The cache: the block of this size goes back to its pool.
    Block {
        /// Size of the block.
        size: usize,
    },
    /// The device backend that handed out the memory.
    Backend,
}

/// How to release the buffer of a [`DataPtr`].
#[derive(Debug, Clone, Copy, PartialEq, Eq, Structural)]
pub enum Deleter {
    /// Free with the host allocator, using the stored layout.
    Std,
    /// Hand the address to whoever takes it back.
    Custom(Reclaim),
}

/// What is to be done when a [`DataPtr`] goes away.
#[derive(Debug, Clone, Copy, PartialEq, Eq, Structural)]
pub enum Release {
    /// Nothing.
    Nothing,
    /// Free the memory with the host allocator.
    Dealloc {
        /// Address of the memory.
        addr: usize,
        /// The layout it was allocated with.
        layout: Layout,
    },
    /// Hand the address to whoever takes it back.
    Custom {
        /// Address of the memory.
        addr: usize,
        /// Who takes it back.
        reclaim: Reclaim,
    },
}

/// An owning, type-erased address with an associated deleter.
pub struct DataPtr {
    addr: usize,
    layout: Layout,
    deleter: Deleter,
}

impl DataPtr {
    /// The address.
    pub closed spec fn addr(&self) -> usize {
        self.addr
    }

    /// The layout of the memory at the address.
    pub closed spec fn layout(&self) -> Layout {
        self.layout
    }

    /// How the memory is released.
    pub closed spec fn deleter(&self) -> Deleter {
        self.deleter
    }

    /// What releasing the pointer asks for.
    pub open spec fn release_spec(&self) -> Release {
        match self.deleter() {
            Deleter::Std => if self.layout().spec_size() > 0 {
                Release::Dealloc { addr: self.addr(), layout: self.layout() }
            } else {
                Release::Nothing
            },
            Deleter::Custom(reclaim) => Release::Custom { addr: self.addr(), reclaim },
        }
    }

    /// A pointer freed with the host allocator.
    pub fn new(addr: usize, layout: Layout) -> (d: DataPtr)
        ensures
            d.addr() == addr,
            d.layout() == layout,
            d.deleter() == Deleter::Std,
    {
        DataPtr { addr, layout, deleter: Deleter::Std }
    }

    /// A pointer that goes back to `reclaim` instead of the host allocator.
    pub fn with_deleter(addr: usize, layout: Layout, reclaim: Reclaim) -> (d: DataPtr)
        ensures
            d.addr() == addr,
            d.layout() == layout,
            d.deleter() == Deleter::Custom(reclaim),
    {
        DataPtr { addr, layout, deleter: Deleter::Custom(reclaim) }
    }

    /// The pointer, with another deleter.
    pub fn reclaimed_by(self, reclaim: Reclaim) -> (d: DataPtr)
        ensures
            d.addr() == self.addr(),
            d.layout() == self.layout(),
            d.deleter() == Deleter::Custom(reclaim),
    {
        DataPtr { addr: self.addr, layout: self.layout, deleter: Deleter::Custom(reclaim) }
    }

    /// The address.
    pub fn as_ptr(&self) -> (addr: usize)
        ensures
            addr == self.addr(),
    {
        self.addr
    }

    /// The layout of the memory at the address.
    pub fn get_layout(&self) -> (l: Layout)
        ensures
            l == self.layout(),
    {
        self.layout
    }

    /// The size of the memory at the address.
    pub fn size(&self) -> (n: usize)
        ensures
            n == self.layout().spec_size(),
    {
        self.layout.size
    }

    /// Gives the pointer up. Host memory is freed with its layout, unless there
    /// is none; everything else goes to its deleter.
    pub fn release(self) -> (r: Release)
        ensures
            r == self.release_spec(),
    {
        match self.deleter {
            Deleter::Std => {
                if self.layout.size > 0 {
                    Release::Dealloc { addr: self.addr, layout: self.layout }
                } else {
                    Release::Nothing
                }
            },
            Deleter::Custom(reclaim) => Release::Custom { addr: self.addr, reclaim },
        }
    }
}

// ---------------------------------------------------------------------
// The allocator contract
// ---------------------------------------------------------------------

/// `n` bytes at `addr` meet none of the regions and lie in the address space,
/// away from the null address.
pub open spec fn fresh(live: Map<usize, usize>, addr: int, n: int) -> bool {
    &&& 0 < addr
    &&& addr + n <= usize::MAX
    &&& forall|b: usize| #[trigger]
        live.contains_key(b) ==> b + live[b] <= addr || addr + n <= b
}

/// Memory of `nbytes` was handed out at a pointer. No bytes need no memory.
pub open spec fn handed_out(
    live: Map<usize, usize>,
    live2: Map<usize, usize>,
    nbytes: usize,
    d: DataPtr,
) -> bool {
    &&& nbytes <= isize::MAX
    &&& d.layout().spec_size() == nbytes
    &&& if nbytes == 0 {
        live2 == live
    } else {
        &&& fresh(live, d.addr() as int, nbytes as int)
        &&& live2 == live.insert(d.addr(), nbytes)
    }
}

/// What a backend answers when it is asked for memory.
pub enum Answer {
    /// Memory, at this pointer.
    Given(DataPtr),
    /// None right now.
    Nothing,
    /// A failure.
    Failed(AllocError),
}

/// A request to a backend.
pub struct Ask {
    /// How many bytes were asked for.
    pub bytes: usize,
    /// The regions that were handed out and not taken back at that time.
    pub live: Map<usize, usize>,
    /// What the backend answered.
    pub answer: Answer,
}

/// The backend was asked once more, for `bytes` while it held `live`, and gave
/// memory at an address.
pub open spec fn gave(
    log: Seq<Ask>,
    log2: Seq<Ask>,
    bytes: usize,
    live: Map<usize, usize>,
    addr: usize,
) -> bool {
    &&& log2 == log.push(log2.last())
    &&& log2.last().bytes == bytes
    &&& log2.last().live == live
    &&& log2.last().answer matches Answer::Given(g) && g.addr() == addr
}

/// The memory-management contract: allocate `nbytes` on a device, get back an
/// owning [`DataPtr`], and take the memory back by its address.
///
/// Implemented by raw device backends: to the caching layer, a backend is just
/// an uncached allocator, with one device allocation per call. Each backend says
/// what it holds; the spec functions here only stand in where it does not.
pub trait Allocator: Sized {
    /// The regions handed out and not taken back.
    open spec fn live(&self) -> Map<usize, usize> {
        Map::empty()
    }

    /// What was asked so far, in order.
    open spec fn log(&self) -> Seq<Ask> {
        Seq::empty()
    }

    /// The device the memory lives on.
    open spec fn on(&self) -> Device {
        Device::Cpu
    }

    /// The device the memory lives on.
    fn device(&self) -> (d: Device)
        ensures
            d == self.on(),
    ;

    /// Allocates `nbytes`, or fails: the memory lies apart from all that is handed
    /// out, and is no longer than memory can be. No bytes need no memory.
    fn allocate(&mut self, nbytes: usize) -> (r: Result<DataPtr, AllocError>)
        ensures
            final(self).on() == old(self).on(),
            match r {
                Ok(d) => {
                    &&& handed_out(old(self).live(), final(self).live(), nbytes, d)
                    &&& final(self).log() == old(self).log().push(
                        Ask { bytes: nbytes, live: old(self).live(), answer: Answer::Given(d) },
                    )
                },
                Err(e) => {
                    &&& final(self).live() == old(self).live()
                    &&& final(self).log() == old(self).log().push(
                        Ask { bytes: nbytes, live: old(self).live(), answer: Answer::Failed(e) },
                    )
                },
            },
    ;

    /// Allocates `nbytes` where the device can satisfy the request right now, and
    /// gives `None` where it cannot. A failure is an error still.
    ///
    /// Caching allocators use this on their out-of-memory path: release cached
    /// segments, then retry. The default suits allocators whose failures are
    /// final: it asks [`allocate`](Self::allocate) once, hands its pointer on as it
    /// is, and never gives `None`; a failure is passed on.
    fn try_allocate(&mut self, nbytes: usize) -> (r: Result<Option<DataPtr>, AllocError>)
        ensures
            final(self).on() == old(self).on(),
            match r {
                Ok(Some(d)) => {
                    &&& handed_out(old(self).live(), final(self).live(), nbytes, d)
                    &&& final(self).log() == old(self).log().push(
                        Ask { bytes: nbytes, live: old(self).live(), answer: Answer::Given(d) },
                    )
                },
                Ok(None) => {
                    &&& final(self).live() == old(self).live()
                    &&& final(self).log() == old(self).log().push(
                        Ask { bytes: nbytes, live: old(self).live(), answer: Answer::Nothing },
                    )
                },
                Err(e) => {
                    &&& final(self).live() == old(self).live()
                    &&& final(self).log() == old(self).log().push(
                        Ask { bytes: nbytes, live: old(self).live(), answer: Answer::Failed(e) },
                    )
                },
            },
        default_ensures
            r is Ok ==> r->Ok_0 is Some,
    {
        match self.allocate(nbytes) {
            Ok(d) => Ok(Some(d)),
            Err(e) => Err(e),
        }
    }

    /// Takes back the memory at an address that was handed out.
    fn deallocate(&mut self, addr: usize)
        requires
            old(self).live().contains_key(addr),
        ensures
            final(self).on() == old(self).on(),
            final(self).live() == old(self).live().remove(addr),
            final(self).log() == old(self).log(),
    ;
}

// ---------------------------------------------------------------------
// Laws
// ---------------------------------------------------------------------

/// What can be laid out: the alignment is a power of two, and the size, rounded up
/// to a whole number of alignments (`r`), is within `isize::MAX`.
pub proof fn law_layouts(size: int, align: usize, r: int)
    requires
        0 < align,
        0 <= size <= r < size + align,
        r % align as int == 0,
    ensures
        layout_fits(size, align as int) <==> is_pow2(align as int) && r <= isize::MAX,
        layout_once_given(size, align as int) <==> size <= usize::MAX && (size <= isize::MAX
            ==> is_pow2(align as int) && r <= isize::MAX),
{
    let a = align as int;
    let top = isize::MAX + 1;
    if is_pow2(a) {
        assert(is_pow2(top)) by {
            reveal_with_fuel(is_pow2, 65);
        }
        if a <= top {
            mps::lemma_pow2_divides(a, top);
            traits::lemma_round_up_unique(size, a, r);
            if r < top {
                assert(r <= top - a) by {
                    assert((top - a) % a == 0) by (nonlinear_arith)
                        requires
                            top % a == 0,
                            0 < a,
                    ;
                    if r > top - a {
                        traits::lemma_round_up_unique(top - a + 1, a, top);
                        traits::lemma_round_up_unique(top - a + 1, a, r);
                    }
                }
            }
            if size <= top - a {
                assert((top - a) % a == 0) by (nonlinear_arith)
                    requires
                        top % a == 0,
                        0 < a,
                ;
                traits::lemma_round_up_least(size, a, top - a);
            }
        } else {
            mps::lemma_pow2_divides(top, a);
        }
    }
}

/// The messages tell what was asked for, and of which device: the number stands
/// behind the first words, up to the next space.
pub proof fn law_messages(bytes: usize, index: usize, device: Device)
    ensures
        ({
            let s = (AllocError::InvalidBufferSize { nbytes: bytes }).text();
            let n = s.len() - 6;
            &&& s.take(21) == "Invalid buffer size: "@
            &&& s.skip(n) == " bytes"@
            &&& s.subrange(21, n) == crate::text::decimal(bytes as int)
        }),
        ({
            let s = (AllocError::Device { bytes, device }).text();
            let n = 19 + crate::text::decimal(bytes as int).len() as int;
            &&& s.take(19) == "failed to allocate "@
            &&& s.subrange(19, n) == crate::text::decimal(bytes as int)
            &&& s.subrange(n, n + 10) == " bytes on "@
            &&& s.skip(n + 10) == device.text()
        }),
        (AllocError::OutOfMemory { bytes, device }).text() == (AllocError::Device {
            bytes,
            device,
        }).text() + " (after empty_cache retry)"@,
        ({
            let s = (AllocError::CudaOutOfMemory { bytes, device_index: index }).text();
            let n = 39 + crate::text::decimal(bytes as int).len() as int;
            &&& s.take(39) == "CUDA out of memory: failed to allocate "@
            &&& s.subrange(39, n) == crate::text::decimal(bytes as int)
            &&& s.subrange(n, n + 17) == " bytes on device "@
            &&& s.skip(n + 17) == crate::text::decimal(index as int)
        }),
{
    reveal_strlit("Invalid buffer size: ");
    reveal_strlit(" bytes");
    reveal_strlit("failed to allocate ");
    reveal_strlit(" bytes on ");
    reveal_strlit("CUDA out of memory: failed to allocate ");
    reveal_strlit(" bytes on device ");
    let d = crate::text::decimal(bytes as int);
    let a = (AllocError::InvalidBufferSize { nbytes: bytes }).text();
    assert(a.take(21) =~= "Invalid buffer size: "@);
    assert(a.skip(a.len() - 6) =~= " bytes"@);
    assert(a.subrange(21, a.len() - 6) =~= d);
    let b = (AllocError::Device { bytes, device }).text();
    let n = 19 + d.len() as int;
    assert(b.take(19) =~= "failed to allocate "@);
    assert(b.subrange(19, n) =~= d);
    assert(b.subrange(n, n + 10) =~= " bytes on "@);
    assert(b.skip(n + 10) =~= device.text());
    let c = (AllocError::CudaOutOfMemory { bytes, device_index: index }).text();
    let m = 39 + d.len() as int;
    assert(c.take(39) =~= "CUDA out of memory: failed to allocate "@);
    assert(c.subrange(39, m) =~= d);
    assert(c.subrange(m, m + 17) =~= " bytes on device "@);
    assert(c.skip(m + 17) =~= crate::text::decimal(index as int));
}

/// Releasing a pointer hands its address to whoever was named to take it back;
/// host memory goes back with the layout it has, and only if there is any.
pub proof fn law_release(d: DataPtr)
    ensures
        d.deleter() matches Deleter::Custom(r) ==> d.release_spec() == (Release::Custom {
            addr: d.addr(),
            reclaim: r,
        }),
        d.deleter() is Std && d.layout().spec_size() == 0 ==> d.release_spec() is Nothing,
        d.deleter() is Std && d.layout().spec_size() != 0 ==> d.release_spec()
            == (Release::Dealloc { addr: d.addr(), layout: d.layout() }),
{
}

} // verus!

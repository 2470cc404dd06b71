//! Blocks in address order, and how they are found.
use vstd::prelude::*;

use super::space::{self, Chunk};

verus! {

/// A block of a cache.
pub trait Placed: Sized {
    /// The block in the model.
    spec fn chunk(&self) -> Chunk;

    /// Start address of the block.
    fn start(&self) -> (p: usize)
        ensures
            p == self.chunk().ptr,
    ;
}

/// The blocks in the model.
pub open spec fn chunks_of<T: Placed>(s: Seq<T>) -> Seq<Chunk> {
    s.map_values(|b: T| b.chunk())
}

/// The number of blocks below an address.
pub fn position<T: Placed>(blocks: &Vec<T>, ptr: usize) -> (n: usize)
    requires
        space::chained(chunks_of(blocks@)),
    ensures
        n == space::rank(chunks_of(blocks@), ptr as int),
        n <= blocks@.len(),
{
    let ghost s = chunks_of(blocks@);
    let mut lo: usize = 0;
    let mut hi: usize = blocks.len();
    while lo < hi
        invariant
            s == chunks_of(blocks@),
            space::chained(s),
            lo <= hi <= blocks@.len(),
            forall|i: int| 0 <= i < lo ==> (#[trigger] s[i]).ptr < ptr,
            forall|i: int| hi <= i < s.len() ==> (#[trigger] s[i]).ptr >= ptr,
        decreases hi - lo,
    {
        let mid: usize = lo + (hi - lo) / 2;
        assert(s[mid as int] == blocks@[mid as int].chunk());
        if blocks[mid].start() < ptr {
            assert forall|i: int| 0 <= i < mid + 1 implies (#[trigger] s[i]).ptr < ptr by {
                if i < mid {
                    space::lemma_order(s, i, mid as int);
                }
            }
            lo = mid + 1;
        } else {
            assert forall|i: int| mid <= i < s.len() implies (#[trigger] s[i]).ptr >= ptr by {
                if mid < i {
                    space::lemma_order(s, mid as int, i);
                }
            }
            hi = mid;
        }
    }
    proof {
        space::lemma_rank_unique(s, ptr as int, lo as int);
    }
    lo
}

} // verus!

//! The mathematical model of a cache: a sequence of chunks in address order.
//!
//! Every segment obtained from a device is cut into chunks without gaps or
//! overlaps. The operations of a caching allocator (taking a chunk, freeing
//! one, adding a segment, dropping an idle segment) are functions on such
//! sequences, and the invariants are kept by each of them.
use vstd::prelude::*;

verus! {

/// One contiguous run of device memory.
pub struct Chunk {
    /// Start address.
    pub ptr: int,
    /// Length in bytes.
    pub size: int,
    /// True while the chunk sits in a pool, false while a user holds it.
    pub free: bool,
    /// Start address of the segment the chunk was cut from.
    pub base: int,
    /// Length of that segment.
    pub seg: int,
    /// The pool of that segment.
    pub small: bool,
}

impl Chunk {
    /// One past the last byte of the chunk.
    pub open spec fn end(self) -> int {
        self.ptr + self.size
    }

    /// One past the last byte of the chunk's segment.
    pub open spec fn seg_end(self) -> int {
        self.base + self.seg
    }

    /// The chunk spans its segment.
    pub open spec fn whole(self) -> bool {
        self.size == self.seg
    }

    /// A free chunk that spans its segment: nothing in the segment is in use.
    pub open spec fn idle(self) -> bool {
        self.free && self.whole()
    }

    /// The chunk is not empty and lies in its segment, which lies in the
    /// address space and does not start at the null address.
    pub open spec fn ok(self) -> bool {
        &&& 0 < self.size
        &&& 0 < self.base <= self.ptr
        &&& self.end() <= self.seg_end() <= usize::MAX
    }

    /// The pool entry of a free chunk: ordered by size, then by address.
    pub open spec fn key(self) -> (usize, usize) {
        (self.size as usize, self.ptr as usize)
    }

    /// The chunk is listed in the pool for `small` segments.
    pub open spec fn pooled(self, small: bool) -> bool {
        self.free && self.small == small
    }
}

/// `b` follows `a` in address order: either it continues the segment of `a`,
/// or `a` ends its segment and `b` starts another one further up.
pub open spec fn linked(a: Chunk, b: Chunk) -> bool {
    if a.base == b.base {
        &&& a.end() == b.ptr
        &&& a.seg == b.seg
        &&& a.small == b.small
    } else {
        &&& a.end() == a.seg_end()
        &&& b.ptr == b.base
        &&& a.seg_end() <= b.base
    }
}

/// The chunk at `i` and the next one are linked.
pub open spec fn link_at(s: Seq<Chunk>, i: int) -> bool {
    linked(s[i], s[i + 1])
}

/// The chunks are in address order and cut their segments without gaps, up to
/// the last chunk.
pub open spec fn chained(s: Seq<Chunk>) -> bool {
    &&& forall|i: int| 0 <= i < s.len() ==> (#[trigger] s[i]).ok()
    &&& forall|i: int| 0 <= i < s.len() - 1 ==> #[trigger] link_at(s, i)
    &&& s.len() > 0 ==> s[0].ptr == s[0].base
}

/// The chunks are in address order and cover their segments exactly.
pub open spec fn tiled(s: Seq<Chunk>) -> bool {
    &&& chained(s)
    &&& s.len() > 0 ==> s.last().end() == s.last().seg_end()
}

/// The chunks at `i` and `i + 1` are free pieces of one segment.
pub open spec fn mergeable(s: Seq<Chunk>, i: int) -> bool {
    &&& 0 <= i < s.len() - 1
    &&& s[i].free
    &&& s[i + 1].free
    &&& s[i].base == s[i + 1].base
}

/// No two neighbours could be merged.
pub open spec fn settled(s: Seq<Chunk>) -> bool {
    forall|i: int| !#[trigger] mergeable(s, i)
}

/// The number of leading chunks that start below `p`; in an ordered sequence,
/// the place of address `p`.
pub open spec fn rank(s: Seq<Chunk>, p: int) -> int
    decreases s.len(),
{
    if s.len() == 0 {
        0
    } else if s.last().ptr < p {
        s.len() as int
    } else {
        rank(s.drop_last(), p)
    }
}

/// A chunk starts at `p`; it stands at the rank of `p`.
pub open spec fn starts_at(s: Seq<Chunk>, p: int) -> bool {
    0 <= rank(s, p) < s.len() && s[rank(s, p)].ptr == p
}

// ---------------------------------------------------------------------
// Order
// ---------------------------------------------------------------------

/// Chunks further along lie further up: the chunk at `i` ends at or before the
/// start of every later chunk.
pub proof fn lemma_order(s: Seq<Chunk>, i: int, j: int)
    requires
        chained(s),
        0 <= i < j < s.len(),
    ensures
        s[i].end() <= s[j].ptr,
        s[i].ptr < s[j].ptr,
    decreases j - i,
{
    assert(s[i].ok());
    assert(link_at(s, j - 1));
    assert(s[j - 1].ok() && s[j].ok());
    if i < j - 1 {
        lemma_order(s, i, j - 1);
    }
}

/// Two chunks that start at one address are one chunk.
pub proof fn lemma_same_ptr(s: Seq<Chunk>, i: int, j: int)
    requires
        chained(s),
        0 <= i < s.len(),
        0 <= j < s.len(),
        s[i].ptr == s[j].ptr,
    ensures
        i == j,
{
    if i < j {
        lemma_order(s, i, j);
    } else if j < i {
        lemma_order(s, j, i);
    }
}

/// Chunks of one segment agree on its length and pool, and lie between its ends;
/// chunks of different segments lie in disjoint ranges.
pub proof fn lemma_segments(s: Seq<Chunk>, i: int, j: int)
    requires
        chained(s),
        0 <= i < j < s.len(),
    ensures
        s[i].base == s[j].base ==> s[i].seg == s[j].seg && s[i].small == s[j].small,
        s[i].base != s[j].base ==> s[i].seg_end() <= s[j].base,
    decreases j - i,
{
    assert(s[i].ok());
    assert(link_at(s, j - 1));
    assert(s[j - 1].ok() && s[j].ok());
    if i < j - 1 {
        lemma_segments(s, i, j - 1);
        lemma_order(s, i, j - 1);
    }
}

/// `rank` splits an ordered sequence at an address.
pub proof fn lemma_rank(s: Seq<Chunk>, p: int)
    requires
        chained(s),
    ensures
        0 <= rank(s, p) <= s.len(),
        forall|i: int| 0 <= i < rank(s, p) ==> (#[trigger] s[i]).ptr < p,
        forall|i: int| rank(s, p) <= i < s.len() ==> (#[trigger] s[i]).ptr >= p,
    decreases s.len(),
{
    if s.len() > 0 {
        let t = s.drop_last();
        if s.last().ptr < p {
            assert forall|i: int| 0 <= i < s.len() implies (#[trigger] s[i]).ptr < p by {
                if i < s.len() - 1 {
                    lemma_order(s, i, s.len() - 1);
                }
            }
        } else {
            assert forall|i: int| 0 <= i < t.len() - 1 implies #[trigger] link_at(t, i) by {
                assert(link_at(s, i));
            }
            assert forall|i: int| 0 <= i < t.len() implies (#[trigger] t[i]).ok() by {
                assert(s[i].ok());
            }
            lemma_rank(t, p);
            assert forall|i: int| rank(s, p) <= i < s.len() implies (#[trigger] s[i]).ptr >= p by {
                if i < s.len() - 1 {
                    assert(t[i] == s[i]);
                }
            }
            assert forall|i: int| 0 <= i < rank(s, p) implies (#[trigger] s[i]).ptr < p by {
                assert(t[i] == s[i]);
            }
        }
    }
}

/// Whatever index splits the sequence at `p` is the rank of `p`.
pub proof fn lemma_rank_unique(s: Seq<Chunk>, p: int, k: int)
    requires
        chained(s),
        0 <= k <= s.len(),
        forall|i: int| 0 <= i < k ==> (#[trigger] s[i]).ptr < p,
        forall|i: int| k <= i < s.len() ==> (#[trigger] s[i]).ptr >= p,
    ensures
        k == rank(s, p),
{
    lemma_rank(s, p);
    let r = rank(s, p);
    if k < r {
        assert(s[k].ptr < p);
    } else if r < k {
        assert(s[r].ptr < p);
    }
}

/// The chunk at `i` stands at the rank of its address.
pub proof fn lemma_rank_at(s: Seq<Chunk>, i: int)
    requires
        chained(s),
        0 <= i < s.len(),
    ensures
        rank(s, s[i].ptr) == i,
        starts_at(s, s[i].ptr),
{
    let p = s[i].ptr;
    assert forall|k: int| 0 <= k < i implies (#[trigger] s[k]).ptr < p by {
        lemma_order(s, k, i);
    }
    assert forall|k: int| i <= k < s.len() implies (#[trigger] s[k]).ptr >= p by {
        if i < k {
            lemma_order(s, i, k);
        }
    }
    lemma_rank_unique(s, p, i);
}

// ---------------------------------------------------------------------
// Operations
// ---------------------------------------------------------------------

/// The next chunk is a free piece of the same segment.
pub open spec fn next_free(s: Seq<Chunk>, i: int) -> bool {
    &&& i + 1 < s.len()
    &&& s[i + 1].free
    &&& s[i + 1].base == s[i].base
}

/// The previous chunk is a free piece of the same segment.
pub open spec fn prev_free(s: Seq<Chunk>, i: int) -> bool {
    &&& 0 < i
    &&& s[i - 1].free
    &&& s[i - 1].base == s[i].base
}

/// The chunk at `i` is handed out.
pub open spec fn used(s: Seq<Chunk>, i: int) -> Seq<Chunk> {
    s.update(i, Chunk { free: false, ..s[i] })
}

/// The chunk at `i` is given back, without merging it.
pub open spec fn marked(s: Seq<Chunk>, i: int) -> Seq<Chunk> {
    s.update(i, Chunk { free: true, ..s[i] })
}

/// The chunk at `i` shrinks to `size` bytes; the rest becomes a free chunk.
pub open spec fn cut(s: Seq<Chunk>, i: int, size: int) -> Seq<Chunk> {
    s.update(i, Chunk { size, ..s[i] }).insert(
        i + 1,
        Chunk { ptr: s[i].ptr + size, size: s[i].size - size, free: true, ..s[i] },
    )
}

/// The chunk at `i` is handed out for `size` bytes, cut down to them if `split`.
pub open spec fn taken(s: Seq<Chunk>, i: int, size: int, split: bool) -> Seq<Chunk> {
    if split {
        cut(used(s, i), i, size)
    } else {
        used(s, i)
    }
}

/// The chunk at `i` swallows the next one.
pub open spec fn joined(s: Seq<Chunk>, i: int) -> Seq<Chunk> {
    s.update(i, Chunk { size: s[i].size + s[i + 1].size, ..s[i] }).remove(i + 1)
}

/// The chunk at `i` is joined with the previous one if that is a free piece of
/// the same segment.
pub open spec fn joined_prev(s: Seq<Chunk>, i: int) -> Seq<Chunk> {
    if prev_free(s, i) {
        joined(s, i - 1)
    } else {
        s
    }
}

/// The chunk at `i` is joined with the next one if that is a free piece of the
/// same segment.
pub open spec fn joined_next(s: Seq<Chunk>, i: int) -> Seq<Chunk> {
    if next_free(s, i) {
        joined(s, i)
    } else {
        s
    }
}

/// Where the chunk at `i` stands after it was joined with its neighbours.
pub open spec fn merged_at(s: Seq<Chunk>, i: int) -> int {
    if prev_free(s, i) {
        i - 1
    } else {
        i
    }
}

/// The free chunk at `i` is joined with its free neighbours.
pub open spec fn merged(s: Seq<Chunk>, i: int) -> Seq<Chunk> {
    joined_next(joined_prev(s, i), merged_at(s, i))
}

/// The chunk at `i` is given back and joined with its free neighbours.
pub open spec fn freed(s: Seq<Chunk>, i: int) -> Seq<Chunk> {
    merged(marked(s, i), i)
}

/// A fresh segment, as one chunk.
pub open spec fn segment(base: int, seg: int, small: bool, free: bool) -> Chunk {
    Chunk { ptr: base, size: seg, free, base, seg, small }
}

/// The chunk is put in its place by address.
pub open spec fn grown(s: Seq<Chunk>, c: Chunk) -> Seq<Chunk> {
    s.insert(rank(s, c.ptr), c)
}

/// What stays when every idle segment goes.
pub open spec fn kept(s: Seq<Chunk>) -> Seq<Chunk>
    decreases s.len(),
{
    if s.len() == 0 {
        s
    } else if s.last().idle() {
        kept(s.drop_last())
    } else {
        kept(s.drop_last()).push(s.last())
    }
}

/// The idle segments, in address order.
pub open spec fn idle_segments(s: Seq<Chunk>) -> Seq<Chunk>
    decreases s.len(),
{
    if s.len() == 0 {
        s
    } else if s.last().idle() {
        idle_segments(s.drop_last()).push(s.last())
    } else {
        idle_segments(s.drop_last())
    }
}

/// The start addresses of segments, in order.
pub open spec fn bases(s: Seq<Chunk>) -> Seq<usize> {
    s.map_values(|c: Chunk| c.base as usize)
}

/// The free chunk at `i` of the pool is the best fit for `size` bytes: no
/// smaller one fits, and of those of its size it is the lowest.
pub open spec fn best_fit(s: Seq<Chunk>, small: bool, size: int, i: int) -> bool {
    &&& 0 <= i < s.len()
    &&& s[i].pooled(small)
    &&& s[i].size >= size
    &&& forall|j: int|
        0 <= j < s.len() && (#[trigger] s[j]).pooled(small) && s[j].size >= size
            ==> s[i].size < s[j].size || (s[i].size == s[j].size && s[i].ptr <= s[j].ptr)
}

/// Some free chunk of the pool has room for `size` bytes.
pub open spec fn has_fit(s: Seq<Chunk>, small: bool, size: int) -> bool {
    exists|i: int| 0 <= i < s.len() && (#[trigger] s[i]).pooled(small) && s[i].size >= size
}

/// The range of `n` bytes at `p` meets no segment.
pub open spec fn clear_of(s: Seq<Chunk>, p: int, n: int) -> bool {
    forall|i: int|
        0 <= i < s.len() ==> (#[trigger] s[i]).seg_end() <= p || p + n <= s[i].base
}

// ---------------------------------------------------------------------
// The operations keep the chunks in order
// ---------------------------------------------------------------------

/// Handing out a chunk keeps the tiling, and leaves nothing to merge.
pub proof fn lemma_used(s: Seq<Chunk>, i: int)
    requires
        tiled(s),
        0 <= i < s.len(),
    ensures
        tiled(used(s, i)),
        settled(s) ==> settled(used(s, i)),
{
    let t = used(s, i);
    assert forall|k: int| 0 <= k < t.len() implies (#[trigger] t[k]).ok() by {
        assert(s[k].ok());
    }
    assert forall|k: int| 0 <= k < t.len() - 1 implies #[trigger] link_at(t, k) by {
        assert(link_at(s, k));
    }
    if settled(s) {
        assert forall|k: int| !#[trigger] mergeable(t, k) by {
            assert(!mergeable(s, k));
        }
    }
}

/// Giving back a chunk keeps the tiling.
pub proof fn lemma_marked(s: Seq<Chunk>, i: int)
    requires
        tiled(s),
        0 <= i < s.len(),
    ensures
        tiled(marked(s, i)),
        settled(s) ==> forall|k: int|
            k != i && k != i - 1 ==> !#[trigger] mergeable(marked(s, i), k),
{
    let t = marked(s, i);
    assert forall|k: int| 0 <= k < t.len() implies (#[trigger] t[k]).ok() by {
        assert(s[k].ok());
    }
    assert forall|k: int| 0 <= k < t.len() - 1 implies #[trigger] link_at(t, k) by {
        assert(link_at(s, k));
    }
    if settled(s) {
        assert forall|k: int| k != i && k != i - 1 implies !#[trigger] mergeable(t, k) by {
            assert(!mergeable(s, k));
        }
    }
}

/// Cutting a chunk keeps the tiling; where the chunk is in use and the next one
/// is not free, it leaves nothing to merge.
pub proof fn lemma_cut(s: Seq<Chunk>, i: int, size: int)
    requires
        tiled(s),
        0 <= i < s.len(),
        0 < size < s[i].size,
    ensures
        tiled(cut(s, i, size)),
        settled(s) && !s[i].free && !next_free(s, i) ==> settled(cut(s, i, size)),
{
    let t = cut(s, i, size);
    assert(t.len() == s.len() + 1);
    assert(s[i].ok());
    assert forall|k: int| 0 <= k < t.len() implies (#[trigger] t[k]).ok() by {
        if k < i {
            assert(s[k].ok());
        } else if k > i + 1 {
            assert(t[k] == s[k - 1]);
            assert(s[k - 1].ok());
        }
    }
    assert forall|k: int| 0 <= k < t.len() - 1 implies #[trigger] link_at(t, k) by {
        if k < i {
            assert(link_at(s, k));
        } else if k > i {
            assert(link_at(s, k - 1));
            assert(t[k + 1] == s[k]);
        }
    }
    if settled(s) && !s[i].free && !next_free(s, i) {
        assert forall|k: int| !#[trigger] mergeable(t, k) by {
            if k < i {
                assert(!mergeable(s, k));
            } else if k > i + 1 {
                assert(!mergeable(s, k - 1));
            }
        }
    }
}

/// Taking a free chunk keeps the tiling and leaves nothing to merge.
pub proof fn lemma_taken(s: Seq<Chunk>, i: int, size: int, split: bool)
    requires
        tiled(s),
        settled(s),
        0 <= i < s.len(),
        s[i].free,
        split ==> 0 < size < s[i].size,
    ensures
        tiled(taken(s, i, size, split)),
        settled(taken(s, i, size, split)),
{
    lemma_used(s, i);
    if split {
        assert(!mergeable(s, i));
        lemma_cut(used(s, i), i, size);
    }
}

/// Joining two neighbours of one segment keeps the tiling.
pub proof fn lemma_joined(s: Seq<Chunk>, i: int)
    requires
        tiled(s),
        0 <= i < s.len() - 1,
        s[i].base == s[i + 1].base,
    ensures
        tiled(joined(s, i)),
        joined(s, i).len() == s.len() - 1,
        forall|k: int| 0 <= k < i ==> #[trigger] joined(s, i)[k] == s[k],
        joined(s, i)[i] == (Chunk { size: s[i].size + s[i + 1].size, ..s[i] }),
        forall|k: int| i < k < s.len() - 1 ==> #[trigger] joined(s, i)[k] == s[k + 1],
{
    let t = joined(s, i);
    assert(s[i].ok() && s[i + 1].ok());
    assert(link_at(s, i));
    assert forall|k: int| 0 <= k < t.len() implies (#[trigger] t[k]).ok() by {
        if k < i {
            assert(s[k].ok());
        } else if k > i {
            assert(s[k + 1].ok());
        }
    }
    assert forall|k: int| 0 <= k < t.len() - 1 implies #[trigger] link_at(t, k) by {
        if k < i {
            assert(link_at(s, k));
        } else {
            assert(link_at(s, k + 1));
        }
    }
}

/// Joining a free chunk with its free neighbours keeps the tiling and, where
/// nothing else was left to merge, leaves nothing to merge.
pub proof fn lemma_merged(s: Seq<Chunk>, i: int)
    requires
        tiled(s),
        0 <= i < s.len(),
        s[i].free,
        forall|k: int| k != i && k != i - 1 ==> !#[trigger] mergeable(s, k),
    ensures
        tiled(joined_prev(s, i)),
        tiled(merged(s, i)),
        settled(merged(s, i)),
        0 <= merged_at(s, i) < joined_prev(s, i).len(),
        merged_at(s, i) < merged(s, i).len(),
        joined_prev(s, i)[merged_at(s, i)].free,
        merged(s, i)[merged_at(s, i)].free,
        forall|k: int| k != merged_at(s, i) ==> !#[trigger] mergeable(joined_prev(s, i), k),
{
    let a = joined_prev(s, i);
    let k0 = merged_at(s, i);
    if prev_free(s, i) {
        lemma_joined(s, i - 1);
    }
    assert forall|k: int| k != k0 implies !#[trigger] mergeable(a, k) by {
        if prev_free(s, i) {
            if k < i - 2 {
                assert(!mergeable(s, k));
            } else if k == i - 2 {
                assert(!mergeable(s, i - 2));
            } else if k > i - 1 {
                assert(!mergeable(s, k + 1));
            }
        } else {
            assert(k != i - 1 ==> !mergeable(s, k));
        }
    }
    let b = joined_next(a, k0);
    if next_free(a, k0) {
        lemma_joined(a, k0);
    }
    assert forall|k: int| !#[trigger] mergeable(b, k) by {
        if next_free(a, k0) {
            if k < k0 {
                assert(!mergeable(a, k));
            } else {
                assert(!mergeable(a, k + 1));
            }
        } else {
            assert(k != k0 ==> !mergeable(a, k));
        }
    }
}

/// Adding a fresh segment keeps the tiling and leaves nothing to merge.
pub proof fn lemma_grown(s: Seq<Chunk>, c: Chunk)
    requires
        tiled(s),
        c.ok(),
        c.whole(),
        c.ptr == c.base,
        clear_of(s, c.base, c.seg),
    ensures
        tiled(grown(s, c)),
        settled(s) ==> settled(grown(s, c)),
        0 <= rank(s, c.ptr) <= s.len(),
        grown(s, c)[rank(s, c.ptr)] == c,
        !next_free(grown(s, c), rank(s, c.ptr)),
        !prev_free(grown(s, c), rank(s, c.ptr)),
{
    lemma_rank(s, c.ptr);
    let r = rank(s, c.ptr);
    let t = grown(s, c);
    assert(t.len() == s.len() + 1);
    assert(t[r] == c);
    assert forall|k: int| 0 <= k < s.len() implies (#[trigger] s[k]).base != c.base by {
        assert(s[k].ok());
    }
    assert forall|k: int| 0 <= k < t.len() implies (#[trigger] t[k]).ok() by {
        if k < r {
            assert(s[k].ok());
        } else if k > r {
            assert(t[k] == s[k - 1]);
            assert(s[k - 1].ok());
        }
    }
    assert forall|k: int| 0 <= k < t.len() - 1 implies #[trigger] link_at(t, k) by {
        if k < r - 1 {
            assert(link_at(s, k));
        } else if k == r - 1 {
            assert(s[k].ok());
            if r < s.len() {
                assert(link_at(s, k));
                assert(s[r].ok());
                assert(s[r].ptr >= c.ptr);
            }
        } else if k == r {
            assert(t[k + 1] == s[k]);
            assert(s[k].ok());
            if 0 < r {
                assert(link_at(s, r - 1));
                assert(s[r - 1].ok());
                assert(s[r - 1].ptr < c.ptr);
            }
        } else {
            assert(link_at(s, k - 1));
            assert(t[k] == s[k - 1] && t[k + 1] == s[k]);
        }
    }
    if r == s.len() && r > 0 {
        assert(s.last() == s[r - 1]);
    }
    if settled(s) {
        assert forall|k: int| !#[trigger] mergeable(t, k) by {
            if k < r - 1 {
                assert(!mergeable(s, k));
            } else if k > r {
                assert(!mergeable(s, k - 1));
            }
        }
    }
}

/// Dropping an idle segment keeps the tiling and leaves nothing to merge.
pub proof fn lemma_dropped(s: Seq<Chunk>, i: int)
    requires
        tiled(s),
        0 <= i < s.len(),
        s[i].whole(),
    ensures
        tiled(s.remove(i)),
        settled(s) ==> settled(s.remove(i)),
        forall|k: int| 0 <= k < s.len() && k != i ==> (#[trigger] s[k]).base != s[i].base,
{
    let t = s.remove(i);
    assert(s[i].ok());
    assert forall|k: int| 0 <= k < s.len() && k != i implies (#[trigger] s[k]).base
        != s[i].base by {
        assert(s[k].ok());
        if k < i {
            lemma_order(s, k, i);
        } else {
            lemma_order(s, i, k);
            lemma_segments(s, i, k);
        }
    }
    assert forall|k: int| 0 <= k < t.len() implies (#[trigger] t[k]).ok() by {
        if k < i {
            assert(s[k].ok());
        } else {
            assert(s[k + 1].ok());
        }
    }
    assert forall|k: int| 0 <= k < t.len() - 1 implies #[trigger] link_at(t, k) by {
        if k < i - 1 {
            assert(link_at(s, k));
        } else if k == i - 1 {
            assert(link_at(s, i - 1));
            assert(link_at(s, i));
            assert(s[i - 1].ok() && s[i + 1].ok());
        } else {
            assert(link_at(s, k + 1));
        }
    }
    if i == s.len() - 1 && i > 0 {
        assert(link_at(s, i - 1));
    }
    if i == 0 && s.len() > 1 {
        assert(link_at(s, 0));
    }
    if settled(s) {
        assert forall|k: int| !#[trigger] mergeable(t, k) by {
            if k < i - 1 {
                assert(!mergeable(s, k));
            } else if k == i - 1 {
                if 0 <= k < t.len() - 1 {
                    assert(link_at(s, i - 1));
                    assert(link_at(s, i));
                    assert(s[i - 1].ok() && s[i + 1].ok());
                }
            } else {
                assert(!mergeable(s, k + 1));
            }
        }
    }
}

/// One more chunk of a sequence either stays or goes.
pub proof fn lemma_kept_step(s: Seq<Chunk>, n: int)
    requires
        0 <= n < s.len(),
    ensures
        s[n].idle() ==> kept(s.take(n + 1)) == kept(s.take(n)) && idle_segments(s.take(n + 1))
            == idle_segments(s.take(n)).push(s[n]),
        !s[n].idle() ==> kept(s.take(n + 1)) == kept(s.take(n)).push(s[n]) && idle_segments(
            s.take(n + 1),
        ) == idle_segments(s.take(n)),
{
    assert(s.take(n + 1).drop_last() =~= s.take(n));
    assert(s.take(n + 1).last() == s[n]);
}

/// What stays and what goes of two sequences laid end to end.
pub proof fn lemma_kept_add(a: Seq<Chunk>, b: Seq<Chunk>)
    ensures
        kept(a + b) == kept(a) + kept(b),
        idle_segments(a + b) == idle_segments(a) + idle_segments(b),
    decreases b.len(),
{
    if b.len() == 0 {
        assert(a + b =~= a);
        assert(kept(a) + kept(b) =~= kept(a));
        assert(idle_segments(a) + idle_segments(b) =~= idle_segments(a));
    } else {
        let c = b.drop_last();
        lemma_kept_add(a, c);
        assert((a + b).drop_last() =~= a + c);
        assert((a + b).last() == b.last());
        assert(kept(a) + kept(b) =~= kept(a + b));
        assert(idle_segments(a) + idle_segments(b) =~= idle_segments(a + b));
    }
}

/// Dropping one idle segment leaves what stays, and the others that go.
pub proof fn lemma_kept_remove(s: Seq<Chunk>, i: int)
    requires
        0 <= i < s.len(),
        s[i].idle(),
    ensures
        kept(s.remove(i)) == kept(s),
        idle_segments(s) == idle_segments(s.take(i)) + seq![s[i]] + idle_segments(s.skip(i + 1)),
        idle_segments(s.remove(i)) == idle_segments(s.take(i)) + idle_segments(s.skip(i + 1)),
{
    let a = s.take(i);
    let b = s.skip(i + 1);
    let one = seq![s[i]];
    assert(s =~= a + one + b);
    assert(s.remove(i) =~= a + b);
    lemma_kept_add(a, b);
    lemma_kept_add(a, one);
    lemma_kept_add(a + one, b);
    assert(one.drop_last() =~= Seq::<Chunk>::empty());
    assert(kept(one.drop_last()) =~= Seq::<Chunk>::empty());
    assert(idle_segments(one.drop_last()) =~= Seq::<Chunk>::empty());
    assert(one.last() == s[i]);
    assert(idle_segments(one) =~= one);
    assert(kept(one) =~= Seq::<Chunk>::empty());
    assert(kept(a) + kept(one) =~= kept(a));
}

/// Where no segment is idle, everything stays.
pub proof fn lemma_kept_all(s: Seq<Chunk>)
    requires
        forall|i: int| 0 <= i < s.len() ==> !(#[trigger] s[i]).idle(),
    ensures
        kept(s) == s,
        idle_segments(s) == Seq::<Chunk>::empty(),
    decreases s.len(),
{
    if s.len() > 0 {
        let t = s.drop_last();
        assert forall|i: int| 0 <= i < t.len() implies !(#[trigger] t[i]).idle() by {
            assert(t[i] == s[i]);
        }
        lemma_kept_all(t);
        assert(s[s.len() - 1] == s.last());
        assert(t.push(s.last()) =~= s);
    }
}

/// A chunk spans its segment exactly when neither neighbour is of its segment.
pub proof fn lemma_alone(s: Seq<Chunk>, i: int)
    requires
        tiled(s),
        0 <= i < s.len(),
    ensures
        s[i].whole() <==> (i == 0 || s[i - 1].base != s[i].base) && (i == s.len() - 1 || s[i
            + 1].base != s[i].base),
{
    assert(s[i].ok());
    if i > 0 {
        assert(link_at(s, i - 1));
        assert(s[i - 1].ok());
    }
    if i < s.len() - 1 {
        assert(link_at(s, i));
        assert(s[i + 1].ok());
    }
    if s[i].whole() {
        lemma_dropped(s, i);
    }
}

// ---------------------------------------------------------------------
// The operations leave everything else in use alone
// ---------------------------------------------------------------------

/// A chunk of `n` bytes at `p` is in use.
pub open spec fn in_use(s: Seq<Chunk>, p: int, n: int) -> bool {
    exists|i: int|
        0 <= i < s.len() && (#[trigger] s[i]).ptr == p && s[i].size == n && !s[i].free
}

/// A chunk in use stands at the rank of its address.
pub proof fn lemma_in_use(s: Seq<Chunk>, p: int, n: int)
    requires
        chained(s),
        in_use(s, p, n),
    ensures
        starts_at(s, p),
        0 <= rank(s, p) < s.len(),
        !s[rank(s, p)].free,
        s[rank(s, p)].size == n,
{
    let i = choose|i: int|
        0 <= i < s.len() && (#[trigger] s[i]).ptr == p && s[i].size == n && !s[i].free;
    lemma_rank_at(s, i);
}

/// Taking a free chunk leaves every other in use.
pub proof fn lemma_taken_keeps(s: Seq<Chunk>, i: int, size: int, split: bool, p: int, n: int)
    requires
        0 <= i < s.len(),
        s[i].free,
        in_use(s, p, n),
    ensures
        in_use(taken(s, i, size, split), p, n),
{
    let t = taken(s, i, size, split);
    let j = choose|j: int|
        0 <= j < s.len() && (#[trigger] s[j]).ptr == p && s[j].size == n && !s[j].free;
    if split && j > i {
        assert(t[j + 1] == s[j]);
    } else {
        assert(t[j] == s[j]);
    }
}

/// The chunk that was taken is in use.
pub proof fn lemma_taken_in_use(s: Seq<Chunk>, i: int, size: int, split: bool)
    requires
        0 <= i < s.len(),
    ensures
        in_use(
            taken(s, i, size, split),
            s[i].ptr,
            if split {
                size
            } else {
                s[i].size
            },
        ),
        taken(s, i, size, split)[i].ptr == s[i].ptr,
{
    let t = taken(s, i, size, split);
    assert(t[i].ptr == s[i].ptr && !t[i].free);
}

/// Joining free chunks leaves every other in use.
pub proof fn lemma_joined_keeps(s: Seq<Chunk>, i: int, p: int, n: int)
    requires
        tiled(s),
        mergeable(s, i),
        in_use(s, p, n),
    ensures
        in_use(joined(s, i), p, n),
{
    lemma_joined(s, i);
    let t = joined(s, i);
    let j = choose|j: int|
        0 <= j < s.len() && (#[trigger] s[j]).ptr == p && s[j].size == n && !s[j].free;
    if j < i {
        assert(t[j] == s[j]);
    } else {
        assert(t[j - 1] == s[j]);
    }
}

/// Freeing a chunk leaves every other in use.
pub proof fn lemma_freed_keeps(s: Seq<Chunk>, i: int, p: int, n: int)
    requires
        tiled(s),
        settled(s),
        0 <= i < s.len(),
        s[i].ptr != p,
        in_use(s, p, n),
    ensures
        in_use(freed(s, i), p, n),
{
    let m = marked(s, i);
    lemma_marked(s, i);
    lemma_merged(m, i);
    let j = choose|j: int|
        0 <= j < s.len() && (#[trigger] s[j]).ptr == p && s[j].size == n && !s[j].free;
    assert(m[j] == s[j]);
    let a = joined_prev(m, i);
    let k = merged_at(m, i);
    if prev_free(m, i) {
        assert(mergeable(m, i - 1));
        lemma_joined_keeps(m, i - 1, p, n);
    }
    if next_free(a, k) {
        assert(mergeable(a, k));
        lemma_joined_keeps(a, k, p, n);
    }
}

/// Adding a segment leaves every other chunk in use.
pub proof fn lemma_grown_keeps(s: Seq<Chunk>, c: Chunk, p: int, n: int)
    requires
        chained(s),
        in_use(s, p, n),
    ensures
        in_use(grown(s, c), p, n),
{
    lemma_rank(s, c.ptr);
    let r = rank(s, c.ptr);
    let t = grown(s, c);
    let j = choose|j: int|
        0 <= j < s.len() && (#[trigger] s[j]).ptr == p && s[j].size == n && !s[j].free;
    if j < r {
        assert(t[j] == s[j]);
    } else {
        assert(t[j + 1] == s[j]);
    }
}

/// What is kept are chunks that are not idle, and all of those; what goes are
/// the idle ones, and all of those.
pub proof fn lemma_kept_members(s: Seq<Chunk>)
    ensures
        forall|c: Chunk| #[trigger] kept(s).contains(c) <==> s.contains(c) && !c.idle(),
        forall|c: Chunk| #[trigger] idle_segments(s).contains(c) <==> s.contains(c) && c.idle(),
    decreases s.len(),
{
    if s.len() > 0 {
        let t = s.drop_last();
        let last = s.last();
        lemma_kept_members(t);
        assert(s =~= t.push(last));
        assert forall|c: Chunk| s.contains(c) <==> t.contains(c) || c == last by {
            lemma_push_contains(t, last, c);
        }
        assert forall|c: Chunk| #[trigger] kept(s).contains(c) <==> s.contains(c)
            && !c.idle() by {
            lemma_push_contains(kept(t), last, c);
            assert(s.contains(c) <==> t.contains(c) || c == last);
        }
        assert forall|c: Chunk| #[trigger] idle_segments(s).contains(c) <==> s.contains(c)
            && c.idle() by {
            lemma_push_contains(idle_segments(t), last, c);
            assert(s.contains(c) <==> t.contains(c) || c == last);
        }
    }
}

/// The members of a sequence with one more element.
proof fn lemma_push_contains(s: Seq<Chunk>, x: Chunk, c: Chunk)
    ensures
        s.push(x).contains(c) <==> s.contains(c) || c == x,
{
    let t = s.push(x);
    if s.contains(c) {
        let i = choose|i: int| 0 <= i < s.len() && s[i] == c;
        assert(t[i] == c);
    }
    if t.contains(c) {
        let i = choose|i: int| 0 <= i < t.len() && t[i] == c;
        if i < s.len() {
            assert(s[i] == c);
        }
    }
    assert(t[s.len() as int] == x);
}

/// Dropping idle segments leaves everything in use.
pub proof fn lemma_kept_keeps(s: Seq<Chunk>, p: int, n: int)
    requires
        in_use(s, p, n),
    ensures
        in_use(kept(s), p, n),
{
    let j = choose|j: int|
        0 <= j < s.len() && (#[trigger] s[j]).ptr == p && s[j].size == n && !s[j].free;
    lemma_kept_members(s);
    assert(s.contains(s[j]));
    assert(kept(s).contains(s[j]));
    let k = choose|k: int| 0 <= k < kept(s).len() && kept(s)[k] == s[j];
    assert(kept(s)[k].ptr == p);
}

/// The idle segments are listed upwards, each once.
pub proof fn lemma_idle_order(s: Seq<Chunk>)
    requires
        chained(s),
    ensures
        forall|i: int, j: int|
            0 <= i < j < idle_segments(s).len() ==> (#[trigger] idle_segments(s)[i]).ptr < (
            #[trigger] idle_segments(s)[j]).ptr,
        forall|i: int|
            0 <= i < idle_segments(s).len() ==> s.contains(#[trigger] idle_segments(s)[i])
                && idle_segments(s)[i].idle() && idle_segments(s)[i].ok(),
    decreases s.len(),
{
    lemma_kept_members(s);
    assert forall|i: int| 0 <= i < idle_segments(s).len() implies s.contains(
        #[trigger] idle_segments(s)[i],
    ) && idle_segments(s)[i].idle() && idle_segments(s)[i].ok() by {
        let c = idle_segments(s)[i];
        assert(idle_segments(s).contains(c));
        let k = choose|k: int| 0 <= k < s.len() && s[k] == c;
        assert(s[k].ok());
    }
    if s.len() > 0 {
        let t = s.drop_last();
        assert forall|i: int| 0 <= i < t.len() - 1 implies #[trigger] link_at(t, i) by {
            assert(link_at(s, i));
        }
        assert forall|i: int| 0 <= i < t.len() implies (#[trigger] t[i]).ok() by {
            assert(s[i].ok());
        }
        lemma_idle_order(t);
        let d = idle_segments(s);
        let e = idle_segments(t);
        assert forall|i: int, j: int| 0 <= i < j < d.len() implies (#[trigger] d[i]).ptr < (
        #[trigger] d[j]).ptr by {
            assert(d[i] == e[i]);
            if j < e.len() {
                assert(d[j] == e[j]);
            } else {
                assert(t.contains(e[i]));
                let k = choose|k: int| 0 <= k < t.len() && t[k] == e[i];
                assert(s[k] == e[i]);
                lemma_order(s, k, s.len() - 1);
            }
        }
    }
}

// ---------------------------------------------------------------------
// Laws
// ---------------------------------------------------------------------

/// Two chunks in use are one, or lie apart; each lies in its segment.
pub proof fn law_chunks_in_use_lie_apart(s: Seq<Chunk>, p: int, n: int, q: int, m: int)
    requires
        chained(s),
        in_use(s, p, n),
        in_use(s, q, m),
    ensures
        p == q || p + n <= q || q + m <= p,
        0 <= rank(s, p) < s.len(),
        s[rank(s, p)].base <= p,
        p + n <= s[rank(s, p)].seg_end(),
{
    lemma_in_use(s, p, n);
    lemma_in_use(s, q, m);
    let i = rank(s, p);
    let j = rank(s, q);
    assert(s[i].ok());
    if i < j {
        lemma_order(s, i, j);
    } else if j < i {
        lemma_order(s, j, i);
    }
}

/// Freeing what was just taken puts everything back as it was.
pub proof fn law_free_undoes_take(s: Seq<Chunk>, i: int, size: int, split: bool)
    requires
        tiled(s),
        settled(s),
        0 <= i < s.len(),
        s[i].free,
        split ==> 0 < size < s[i].size,
    ensures
        freed(taken(s, i, size, split), i) == s,
{
    let t = taken(s, i, size, split);
    let m = marked(t, i);
    assert(!mergeable(s, i));
    assert(!mergeable(s, i - 1));
    assert(i > 0 ==> m[i - 1] == s[i - 1]);
    assert(!prev_free(m, i));
    if split {
        assert(next_free(m, i));
        assert(joined(m, i) =~= s);
    } else {
        assert(m =~= s);
        assert(!next_free(m, i));
    }
}

/// What was taken and then freed is as before.
pub proof fn lemma_taken_and_freed(s: Seq<Chunk>, t: Seq<Chunk>, i: int, size: int, split: bool)
    requires
        tiled(s),
        settled(s),
        0 <= i < s.len(),
        s[i].free,
        0 < size <= s[i].size,
        t == taken(s, i, size, split),
        tiled(t),
    ensures
        rank(t, s[i].ptr) == i,
        freed(t, i) == s,
        t[i].size == (if split {
            size
        } else {
            s[i].size
        }),
        !t[i].free,
{
    assert(t[i].ptr == s[i].ptr);
    lemma_rank_at(t, i);
    if split {
        assert(t[i + 1].ok());
    }
    law_free_undoes_take(s, i, size, split);
}

/// No two chunks are the best fit.
pub proof fn law_best_fit_is_unique(s: Seq<Chunk>, small: bool, size: int, i: int, j: int)
    requires
        chained(s),
        best_fit(s, small, size, i),
        best_fit(s, small, size, j),
    ensures
        i == j,
{
    assert(s[i].pooled(small) && s[j].pooled(small));
    lemma_same_ptr(s, i, j);
}

/// A freed chunk is there for any request up to its size that its pool serves.
pub proof fn law_freed_chunk_fits(s: Seq<Chunk>, i: int, size: int)
    requires
        tiled(s),
        settled(s),
        0 <= i < s.len(),
        size <= s[i].size,
    ensures
        has_fit(freed(s, i), s[i].small, size),
{
    let m = marked(s, i);
    lemma_marked(s, i);
    lemma_merged(m, i);
    let a = joined_prev(m, i);
    let k = merged_at(m, i);
    let f = freed(s, i);
    assert forall|x: int| 0 <= x < s.len() implies (#[trigger] m[x]).size > 0 by {
        assert(m[x].ok());
    }
    if prev_free(m, i) {
        lemma_joined(m, i - 1);
        assert(link_at(m, i - 1));
        assert(m[i - 1].size > 0);
    }
    assert(a[k].size >= s[i].size && a[k].small == s[i].small);
    if next_free(a, k) {
        lemma_joined(a, k);
        assert(a[k + 1].ok());
    }
    assert(f[k].pooled(s[i].small) && f[k].size >= size);
}

/// A segment of which nothing is in use is one free chunk.
pub proof fn law_free_segment_is_one_chunk(s: Seq<Chunk>, i: int)
    requires
        tiled(s),
        settled(s),
        0 <= i < s.len(),
        forall|k: int| 0 <= k < s.len() && (#[trigger] s[k]).base == s[i].base ==> s[k].free,
    ensures
        s[i].idle(),
        s[i].ptr == s[i].base,
{
    assert(s[i].free);
    lemma_alone(s, i);
    assert(!mergeable(s, i));
    assert(!mergeable(s, i - 1));
    if i > 0 {
        assert(s[i - 1].base == s[i].base ==> s[i - 1].free);
        assert(link_at(s, i - 1));
    }
    if i < s.len() - 1 {
        assert(s[i + 1].base == s[i].base ==> s[i + 1].free);
    }
}

/// Where every chunk is free, every chunk spans its segment.
pub proof fn lemma_free_chunks_are_idle(s: Seq<Chunk>, i: int)
    requires
        tiled(s),
        settled(s),
        0 <= i < s.len(),
        forall|k: int| 0 <= k < s.len() ==> (#[trigger] s[k]).free,
    ensures
        s[i].idle(),
{
    law_free_segment_is_one_chunk(s, i);
}

/// Where nothing is in use, nothing is kept.
pub proof fn law_nothing_in_use_nothing_kept(s: Seq<Chunk>)
    requires
        tiled(s),
        settled(s),
        forall|k: int| 0 <= k < s.len() ==> (#[trigger] s[k]).free,
    ensures
        kept(s) == Seq::<Chunk>::empty(),
{
    lemma_kept_members(s);
    if kept(s).len() > 0 {
        let c = kept(s)[0];
        assert(kept(s).contains(c));
        let i = choose|i: int| 0 <= i < s.len() && s[i] == c;
        lemma_free_chunks_are_idle(s, i);
    }
    assert(kept(s) =~= Seq::<Chunk>::empty());
}

/// Emptying twice is emptying once.
pub proof fn law_kept_is_idempotent(s: Seq<Chunk>)
    ensures
        kept(kept(s)) == kept(s),
        idle_segments(kept(s)) == Seq::<Chunk>::empty(),
{
    lemma_kept_members(s);
    assert forall|i: int| 0 <= i < kept(s).len() implies !(#[trigger] kept(s)[i]).idle() by {
        assert(kept(s).contains(kept(s)[i]));
    }
    lemma_kept_all(kept(s));
}

/// Dropping the idle segments keeps the tiling and leaves nothing to merge.
pub proof fn lemma_kept_tiled(s: Seq<Chunk>)
    requires
        tiled(s),
    ensures
        tiled(kept(s)),
        settled(s) ==> settled(kept(s)),
    decreases s.len(),
{
    if exists|i: int| 0 <= i < s.len() && (#[trigger] s[i]).idle() {
        let i = choose|i: int| 0 <= i < s.len() && (#[trigger] s[i]).idle();
        lemma_dropped(s, i);
        lemma_kept_remove(s, i);
        lemma_kept_tiled(s.remove(i));
    } else {
        lemma_kept_all(s);
    }
}

/// Dropping the idle segments makes no room.
pub proof fn lemma_kept_fits_no_more(s: Seq<Chunk>, small: bool, size: int)
    ensures
        has_fit(kept(s), small, size) ==> has_fit(s, small, size),
{
    let t = kept(s);
    lemma_kept_members(s);
    if has_fit(t, small, size) {
        let x = choose|x: int|
            0 <= x < t.len() && (#[trigger] t[x]).pooled(small) && t[x].size >= size;
        assert(t.contains(t[x]));
        let y = choose|y: int| 0 <= y < s.len() && s[y] == t[x];
        assert(s[y].pooled(small));
    }
}

/// Where nothing fitted, a fresh segment that fits is the only fit.
pub proof fn lemma_lone_fit(s: Seq<Chunk>, c: Chunk, size: int)
    requires
        chained(s),
        c.free,
        size <= c.size,
        !has_fit(s, c.small, size),
    ensures
        has_fit(grown(s, c), c.small, size),
        forall|k: int| #[trigger]
            best_fit(grown(s, c), c.small, size, k) ==> k == rank(s, c.ptr),
{
    lemma_rank(s, c.ptr);
    let i = rank(s, c.ptr);
    let g = grown(s, c);
    assert(g[i].pooled(c.small));
    assert forall|k: int| #[trigger] best_fit(g, c.small, size, k) implies k == i by {
        if k != i {
            let y = if k < i {
                k
            } else {
                k - 1
            };
            assert(g[k] == s[y]);
            assert(s[y].pooled(c.small));
        }
    }
}

/// Chunks are not empty and lie in their segments; they are in address order, and
/// each begins where the last one ends or where a segment begins that starts no
/// lower. A segment begins with its first chunk, ends with its last one, and has
/// one length and one pool.
pub proof fn law_chunks_cover_their_segments(s: Seq<Chunk>, i: int)
    requires
        tiled(s),
        0 <= i < s.len(),
    ensures
        0 < s[i].size,
        0 < s[i].base <= s[i].ptr,
        s[i].ptr + s[i].size <= s[i].base + s[i].seg <= usize::MAX,
        i == 0 || s[i - 1].base != s[i].base ==> s[i].ptr == s[i].base,
        i == s.len() - 1 || s[i + 1].base != s[i].base ==> s[i].ptr + s[i].size == s[i].base
            + s[i].seg,
        i < s.len() - 1 && s[i + 1].base == s[i].base ==> s[i + 1].ptr == s[i].ptr + s[i].size
            && s[i + 1].seg == s[i].seg && s[i + 1].small == s[i].small,
        i < s.len() - 1 && s[i + 1].base != s[i].base ==> s[i].base + s[i].seg <= s[i + 1].base,
{
    assert(s[i].ok());
    if i > 0 {
        assert(link_at(s, i - 1));
    }
    if i < s.len() - 1 {
        assert(link_at(s, i));
    }
}

/// Free neighbours in one segment do not stay apart.
pub proof fn law_free_neighbours_are_one(s: Seq<Chunk>, i: int)
    requires
        settled(s),
        0 <= i < s.len() - 1,
        s[i].base == s[i + 1].base,
    ensures
        !(s[i].free && s[i + 1].free),
{
    assert(!mergeable(s, i));
}

/// Handing out a free chunk, whole or cut down to `size` bytes, changes that chunk
/// and no other: it is in use from its start on, and what was cut off is free.
pub proof fn law_taking(s: Seq<Chunk>, i: int, size: int, split: bool, c: Chunk)
    requires
        chained(s),
        0 <= i < s.len(),
        s[i].free,
        split ==> 0 < size < s[i].size,
    ensures
        taken(s, i, size, split).contains(c) <==> {
            ||| s.contains(c) && c.ptr != s[i].ptr
            ||| {
                &&& c.ptr == s[i].ptr && !c.free
                &&& c.base == s[i].base && c.seg == s[i].seg && c.small == s[i].small
                &&& c.size == (if split {
                    size
                } else {
                    s[i].size
                })
            }
            ||| {
                &&& split && c.ptr == s[i].ptr + size && c.free
                &&& c.base == s[i].base && c.seg == s[i].seg && c.small == s[i].small
                &&& c.size == s[i].size - size
            }
        },
{
    let t = taken(s, i, size, split);
    if s.contains(c) && c.ptr != s[i].ptr {
        let j = choose|j: int| 0 <= j < s.len() && s[j] == c;
        if split && j > i {
            assert(t[j + 1] == c);
        } else {
            assert(t[j] == c);
        }
    }
    let n = if split {
        size
    } else {
        s[i].size
    };
    assert(t[i] == Chunk { size: n, free: false, ..s[i] });
    if split {
        assert(t[i + 1] == Chunk {
            ptr: s[i].ptr + size,
            size: s[i].size - size,
            free: true,
            ..s[i]
        });
    }
    if t.contains(c) {
        let j = choose|j: int| 0 <= j < t.len() && t[j] == c;
        if j < i {
            assert(s[j] == c);
            lemma_order(s, j, i);
        } else if j > i && !split {
            assert(s[j] == c);
            lemma_order(s, i, j);
        } else if j > i + 1 {
            assert(s[j - 1] == c);
            lemma_order(s, i, j - 1);
        }
    }
}

/// Joining two free chunks touches nothing in use and no other segment.
proof fn lemma_joined_contains(s: Seq<Chunk>, i: int, c: Chunk)
    requires
        tiled(s),
        mergeable(s, i),
        !c.free || c.base != s[i].base,
    ensures
        joined(s, i).contains(c) <==> s.contains(c),
{
    lemma_joined(s, i);
    let t = joined(s, i);
    if s.contains(c) {
        let j = choose|j: int| 0 <= j < s.len() && s[j] == c;
        if j < i {
            assert(t[j] == c);
        } else {
            assert(t[j - 1] == c);
        }
    }
    if t.contains(c) {
        let j = choose|j: int| 0 <= j < t.len() && t[j] == c;
        if j < i {
            assert(s[j] == c);
        } else {
            assert(s[j + 1] == c);
        }
    }
}

/// Giving a chunk back ends its use, and no other; other segments stay as they are.
/// All its bytes are in one free chunk then, of the same segment and pool.
pub proof fn law_freeing(s: Seq<Chunk>, i: int, c: Chunk)
    requires
        tiled(s),
        settled(s),
        0 <= i < s.len(),
        !s[i].free,
    ensures
        !c.free ==> (freed(s, i).contains(c) <==> s.contains(c) && c.ptr != s[i].ptr),
        c.base != s[i].base ==> (freed(s, i).contains(c) <==> s.contains(c)),
        exists|k: int|
            0 <= k < freed(s, i).len() && (#[trigger] freed(s, i)[k]).free && freed(s, i)[k].ptr
                <= s[i].ptr && s[i].ptr + s[i].size <= freed(s, i)[k].ptr + freed(s, i)[k].size
                && freed(s, i)[k].base == s[i].base && freed(s, i)[k].seg == s[i].seg && freed(
                s,
                i,
            )[k].small == s[i].small,
{
    let m = marked(s, i);
    lemma_marked(s, i);
    lemma_merged(m, i);
    let a = joined_prev(m, i);
    let k = merged_at(m, i);
    let f = freed(s, i);
    assert(m[i].ok() && s[i].ok());
    if i > 0 {
        assert(link_at(s, i - 1) && link_at(m, i - 1));
        assert(s[i - 1].ok() && m[i - 1].ok());
    }
    if !c.free || c.base != s[i].base {
        assert(s.contains(c) && c.base != s[i].base ==> c.ptr != s[i].ptr) by {
            if s.contains(c) && c.ptr == s[i].ptr {
                let j = choose|j: int| 0 <= j < s.len() && s[j] == c;
                lemma_same_ptr(s, i, j);
            }
        }
        assert(m.contains(c) <==> s.contains(c) && c.ptr != s[i].ptr) by {
            if s.contains(c) && c.ptr != s[i].ptr {
                let j = choose|j: int| 0 <= j < s.len() && s[j] == c;
                assert(m[j] == c);
            }
            if m.contains(c) {
                let j = choose|j: int| 0 <= j < m.len() && m[j] == c;
                assert(j != i);
                assert(s[j] == c);
                if c.ptr == s[i].ptr {
                    lemma_same_ptr(s, i, j);
                }
            }
        }
        if prev_free(m, i) {
            assert(mergeable(m, i - 1));
            lemma_joined_contains(m, i - 1, c);
        }
        if next_free(a, k) {
            assert(mergeable(a, k));
            lemma_joined_contains(a, k, c);
        }
    }
    if prev_free(m, i) {
        lemma_joined(m, i - 1);
    }
    assert(a[k].ok());
    if next_free(a, k) {
        lemma_joined(a, k);
        assert(a[k + 1].ok());
    }
    assert(f[k].free);
}

/// A fresh segment is added as it is, and nothing else changes.
pub proof fn law_growing(s: Seq<Chunk>, fresh: Chunk, c: Chunk)
    requires
        chained(s),
    ensures
        grown(s, fresh).contains(c) <==> s.contains(c) || c == fresh,
        grown(s, fresh).len() == s.len() + 1,
{
    lemma_rank(s, fresh.ptr);
    let r = rank(s, fresh.ptr);
    let t = grown(s, fresh);
    assert(t[r] == fresh);
    if s.contains(c) {
        let j = choose|j: int| 0 <= j < s.len() && s[j] == c;
        if j < r {
            assert(t[j] == c);
        } else {
            assert(t[j + 1] == c);
        }
    }
    if t.contains(c) {
        let j = choose|j: int| 0 <= j < t.len() && t[j] == c;
        if j < r {
            assert(s[j] == c);
        } else if j > r {
            assert(s[j - 1] == c);
        }
    }
}

/// What goes when the cache is emptied: the free chunks that span their segments,
/// and nothing else.
pub proof fn law_keeping(s: Seq<Chunk>, c: Chunk)
    ensures
        kept(s).contains(c) <==> s.contains(c) && !(c.free && c.size == c.seg),
        idle_segments(s).contains(c) <==> s.contains(c) && c.free && c.size == c.seg,
        kept(s).len() + idle_segments(s).len() == s.len(),
    decreases s.len(),
{
    lemma_kept_members(s);
    if s.len() > 0 {
        law_keeping(s.drop_last(), c);
    }
}

/// A segment goes back if and only if no chunk of it is in use.
pub proof fn law_idle_means_unused(s: Seq<Chunk>, i: int)
    requires
        tiled(s),
        settled(s),
        0 <= i < s.len(),
    ensures
        idle_segments(s).contains(s[i]) <==> forall|k: int|
            0 <= k < s.len() && (#[trigger] s[k]).base == s[i].base ==> s[k].free,
{
    law_keeping(s, s[i]);
    assert(s.contains(s[i]));
    if forall|k: int| 0 <= k < s.len() && (#[trigger] s[k]).base == s[i].base ==> s[k].free {
        law_free_segment_is_one_chunk(s, i);
    }
    if s[i].idle() {
        lemma_dropped(s, i);
        assert forall|k: int| 0 <= k < s.len() && (#[trigger] s[k]).base
            == s[i].base implies s[k].free by {
            if k != i {
                assert(s[k].base != s[i].base);
            }
        }
    }
}

} // verus!

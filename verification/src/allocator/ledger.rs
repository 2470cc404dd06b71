//! What follows from a sequence of chunks: the sums behind the statistics and
//! the entries of the pools.
use vstd::prelude::*;

use super::cache_stats::CacheStats;
use super::space::{self, Chunk};

verus! {

/// What a sum over chunks counts.
pub enum Measure {
    /// Bytes of every chunk.
    Bytes,
    /// Bytes of the chunks in use.
    BytesInUse,
    /// Chunks in use.
    InUse,
    /// Segments: chunks that start one.
    Segments,
}

/// The share of one chunk in a sum.
pub open spec fn share(c: Chunk, m: Measure) -> int {
    match m {
        Measure::Bytes => c.size,
        Measure::BytesInUse => if c.free {
            0
        } else {
            c.size
        },
        Measure::InUse => if c.free {
            0
        } else {
            1
        },
        Measure::Segments => if c.ptr == c.base {
            1
        } else {
            0
        },
    }
}

/// The sum over all chunks.
pub open spec fn sum(s: Seq<Chunk>, m: Measure) -> int
    decreases s.len(),
{
    if s.len() == 0 {
        0
    } else {
        sum(s.drop_last(), m) + share(s.last(), m)
    }
}

/// The sum of two sequences laid end to end.
pub proof fn lemma_sum_add(a: Seq<Chunk>, b: Seq<Chunk>, m: Measure)
    ensures
        sum(a + b, m) == sum(a, m) + sum(b, m),
    decreases b.len(),
{
    if b.len() == 0 {
        assert(a + b =~= a);
    } else {
        assert((a + b).drop_last() =~= a + b.drop_last());
        lemma_sum_add(a, b.drop_last(), m);
    }
}

/// The sum of a single chunk.
pub proof fn lemma_sum_one(c: Chunk, m: Measure)
    ensures
        sum(seq![c], m) == share(c, m),
{
    assert(seq![c].drop_last() =~= Seq::<Chunk>::empty());
    assert(sum(Seq::<Chunk>::empty(), m) == 0);
}

/// The sum after one chunk was put in.
pub proof fn lemma_sum_insert(s: Seq<Chunk>, i: int, c: Chunk, m: Measure)
    requires
        0 <= i <= s.len(),
    ensures
        sum(s.insert(i, c), m) == sum(s, m) + share(c, m),
{
    let a = s.subrange(0, i);
    let b = s.subrange(i, s.len() as int);
    assert(s =~= a + b);
    assert(s.insert(i, c) =~= (a + seq![c]) + b);
    lemma_sum_add(a, b, m);
    lemma_sum_add(a, seq![c], m);
    lemma_sum_add(a + seq![c], b, m);
    lemma_sum_one(c, m);
}

/// The sum after one chunk was taken out.
pub proof fn lemma_sum_remove(s: Seq<Chunk>, i: int, m: Measure)
    requires
        0 <= i < s.len(),
    ensures
        sum(s.remove(i), m) == sum(s, m) - share(s[i], m),
{
    lemma_sum_insert(s.remove(i), i, s[i], m);
    assert(s.remove(i).insert(i, s[i]) =~= s);
}

/// The sum after one chunk was changed.
pub proof fn lemma_sum_update(s: Seq<Chunk>, i: int, c: Chunk, m: Measure)
    requires
        0 <= i < s.len(),
    ensures
        sum(s.update(i, c), m) == sum(s, m) - share(s[i], m) + share(c, m),
{
    lemma_sum_remove(s, i, m);
    lemma_sum_insert(s.remove(i), i, c, m);
    assert(s.remove(i).insert(i, c) =~= s.update(i, c));
}

// ---------------------------------------------------------------------
// Pools
// ---------------------------------------------------------------------

/// The entry `k` belongs to a free chunk of the pool.
pub open spec fn listed(s: Seq<Chunk>, small: bool, k: (usize, usize)) -> bool {
    exists|i: int| 0 <= i < s.len() && (#[trigger] s[i]).pooled(small) && s[i].key() == k
}

/// The entries of a pool: those of its free chunks.
pub open spec fn keys(s: Seq<Chunk>, small: bool) -> Set<(usize, usize)> {
    Set::new(|k: (usize, usize)| listed(s, small, k))
}

/// The pool after the chunk entered it, if it belongs there.
pub open spec fn with_key(p: Set<(usize, usize)>, c: Chunk, small: bool) -> Set<(usize, usize)> {
    if c.pooled(small) {
        p.insert(c.key())
    } else {
        p
    }
}

/// The pool after the chunk left it, if it was there.
pub open spec fn without_key(p: Set<(usize, usize)>, c: Chunk, small: bool) -> Set<
    (usize, usize),
> {
    if c.pooled(small) {
        p.remove(c.key())
    } else {
        p
    }
}

/// No two chunks have one pool entry.
pub open spec fn distinct_keys(s: Seq<Chunk>) -> bool {
    forall|i: int, j: int|
        0 <= i < s.len() && 0 <= j < s.len() && (#[trigger] s[i]).key() == (#[trigger] s[j]).key()
            ==> i == j
}

/// The pool entries after one chunk was put in.
pub proof fn lemma_keys_insert(s: Seq<Chunk>, i: int, c: Chunk, small: bool)
    requires
        0 <= i <= s.len(),
    ensures
        keys(s.insert(i, c), small) == with_key(keys(s, small), c, small),
{
    let t = s.insert(i, c);
    assert forall|k: (usize, usize)| #[trigger] keys(t, small).contains(k) <==> with_key(
        keys(s, small),
        c,
        small,
    ).contains(k) by {
        if listed(t, small, k) {
            let j = choose|j: int|
                0 <= j < t.len() && (#[trigger] t[j]).pooled(small) && t[j].key() == k;
            if j < i {
                assert(s[j].pooled(small));
            } else if j > i {
                assert(t[j] == s[j - 1]);
            }
        }
        if listed(s, small, k) {
            let j = choose|j: int|
                0 <= j < s.len() && (#[trigger] s[j]).pooled(small) && s[j].key() == k;
            if j < i {
                assert(t[j] == s[j]);
            } else {
                assert(t[j + 1] == s[j]);
            }
        }
        if c.pooled(small) && k == c.key() {
            assert(t[i] == c);
        }
    }
    assert(keys(t, small) =~= with_key(keys(s, small), c, small));
}

/// The pool entries after one chunk was taken out.
pub proof fn lemma_keys_remove(s: Seq<Chunk>, i: int, small: bool)
    requires
        0 <= i < s.len(),
        distinct_keys(s),
    ensures
        keys(s.remove(i), small) == without_key(keys(s, small), s[i], small),
{
    let t = s.remove(i);
    assert forall|k: (usize, usize)| #[trigger] keys(t, small).contains(k) <==> without_key(
        keys(s, small),
        s[i],
        small,
    ).contains(k) by {
        if listed(t, small, k) {
            let j = choose|j: int|
                0 <= j < t.len() && (#[trigger] t[j]).pooled(small) && t[j].key() == k;
            if j < i {
                assert(t[j] == s[j]);
            } else {
                assert(t[j] == s[j + 1]);
            }
        }
        if listed(s, small, k) {
            let j = choose|j: int|
                0 <= j < s.len() && (#[trigger] s[j]).pooled(small) && s[j].key() == k;
            if j < i {
                assert(t[j] == s[j]);
            } else if j > i {
                assert(t[j - 1] == s[j]);
            }
        }
    }
    assert(keys(t, small) =~= without_key(keys(s, small), s[i], small));
}

/// The pool entries after one chunk was changed.
pub proof fn lemma_keys_update(s: Seq<Chunk>, i: int, c: Chunk, small: bool)
    requires
        0 <= i < s.len(),
        distinct_keys(s),
    ensures
        keys(s.update(i, c), small) == with_key(
            without_key(keys(s, small), s[i], small),
            c,
            small,
        ),
{
    lemma_keys_remove(s, i, small);
    lemma_keys_insert(s.remove(i), i, c, small);
    assert(s.remove(i).insert(i, c) =~= s.update(i, c));
}

// ---------------------------------------------------------------------
// Bounds
// ---------------------------------------------------------------------

/// Chunks in order have different pool entries.
pub proof fn lemma_distinct_keys(s: Seq<Chunk>)
    requires
        space::chained(s),
    ensures
        distinct_keys(s),
{
    assert forall|i: int, j: int|
        0 <= i < s.len() && 0 <= j < s.len() && (#[trigger] s[i]).key() == (
        #[trigger] s[j]).key() implies i == j by {
        assert(s[i].ok() && s[j].ok());
        space::lemma_same_ptr(s, i, j);
    }
}

/// A prefix of chunks in order is in order.
pub proof fn lemma_chained_prefix(s: Seq<Chunk>)
    requires
        space::chained(s),
        s.len() > 0,
    ensures
        space::chained(s.drop_last()),
{
    let t = s.drop_last();
    assert forall|i: int| 0 <= i < t.len() implies (#[trigger] t[i]).ok() by {
        assert(s[i].ok());
    }
    assert forall|i: int| 0 <= i < t.len() - 1 implies #[trigger] space::link_at(
        t,
        i,
    ) by {
        assert(space::link_at(s, i));
    }
}

/// All the chunks lie between the first address and the last, so their sizes add
/// up to no more than that; bytes, chunks and segments in use stay below.
pub proof fn lemma_sums(s: Seq<Chunk>)
    requires
        space::chained(s),
    ensures
        0 <= sum(s, Measure::BytesInUse) <= sum(s, Measure::Bytes) <= usize::MAX,
        0 <= sum(s, Measure::InUse) <= sum(s, Measure::BytesInUse),
        0 <= sum(s, Measure::Segments) <= sum(s, Measure::Bytes),
        s.len() > 0 ==> sum(s, Measure::Bytes) <= s.last().end() - s[0].ptr,
    decreases s.len(),
{
    if s.len() > 0 {
        let t = s.drop_last();
        lemma_chained_prefix(s);
        lemma_sums(t);
        assert(s[s.len() - 1].ok());
        assert(s[0].ok());
        if t.len() > 0 {
            assert(t.last() == s[s.len() - 2]);
            space::lemma_order(s, s.len() - 2, s.len() - 1);
        }
    }
}

/// No chunk is larger than a sum it is part of.
pub proof fn lemma_part(s: Seq<Chunk>, i: int)
    requires
        space::chained(s),
        0 <= i < s.len(),
    ensures
        s[i].size <= sum(s, Measure::Bytes),
        !s[i].free ==> s[i].size <= sum(s, Measure::BytesInUse),
        !s[i].free ==> 1 <= sum(s, Measure::InUse),
        s[i].ptr == s[i].base ==> 1 <= sum(s, Measure::Segments),
    decreases s.len(),
{
    let t = s.drop_last();
    lemma_chained_prefix(s);
    lemma_sums(t);
    assert(s[s.len() - 1].ok());
    if i < s.len() - 1 {
        lemma_part(t, i);
        assert(t[i] == s[i]);
    }
}

/// A fresh segment, apart from those that are there, still adds up within the
/// address space.
pub proof fn lemma_room(s: Seq<Chunk>, c: Chunk)
    requires
        space::tiled(s),
        c.ok(),
        c.whole(),
        c.ptr == c.base,
        space::clear_of(s, c.base, c.seg),
    ensures
        sum(s, Measure::Bytes) + c.size <= usize::MAX,
{
    space::lemma_grown(s, c);
    lemma_sum_insert(s, space::rank(s, c.ptr), c, Measure::Bytes);
    lemma_sums(space::grown(s, c));
}

// ---------------------------------------------------------------------
// What the operations do to sums and pools
// ---------------------------------------------------------------------

/// Handing out a free chunk.
pub proof fn lemma_used_ledger(s: Seq<Chunk>, i: int, small: bool)
    requires
        space::chained(s),
        0 <= i < s.len(),
        s[i].free,
    ensures
        sum(space::used(s, i), Measure::Bytes) == sum(s, Measure::Bytes),
        sum(space::used(s, i), Measure::BytesInUse) == sum(s, Measure::BytesInUse)
            + s[i].size,
        sum(space::used(s, i), Measure::InUse) == sum(s, Measure::InUse) + 1,
        sum(space::used(s, i), Measure::Segments) == sum(s, Measure::Segments),
        keys(space::used(s, i), small) == without_key(keys(s, small), s[i], small),
{
    let c = Chunk { free: false, ..s[i] };
    lemma_sum_update(s, i, c, Measure::Bytes);
    lemma_sum_update(s, i, c, Measure::BytesInUse);
    lemma_sum_update(s, i, c, Measure::InUse);
    lemma_sum_update(s, i, c, Measure::Segments);
    lemma_distinct_keys(s);
    lemma_keys_update(s, i, c, small);
}

/// Giving back a chunk in use.
pub proof fn lemma_marked_ledger(s: Seq<Chunk>, i: int, small: bool)
    requires
        space::chained(s),
        0 <= i < s.len(),
        !s[i].free,
    ensures
        sum(space::marked(s, i), Measure::Bytes) == sum(s, Measure::Bytes),
        sum(space::marked(s, i), Measure::BytesInUse) == sum(s, Measure::BytesInUse)
            - s[i].size,
        sum(space::marked(s, i), Measure::InUse) == sum(s, Measure::InUse) - 1,
        sum(space::marked(s, i), Measure::Segments) == sum(s, Measure::Segments),
        keys(space::marked(s, i), small) == with_key(
            keys(s, small),
            space::marked(s, i)[i],
            small,
        ),
        without_key(
            keys(space::marked(s, i), small),
            space::marked(s, i)[i],
            small,
        ) == keys(s, small),
{
    let c = Chunk { free: true, ..s[i] };
    lemma_sum_update(s, i, c, Measure::Bytes);
    lemma_sum_update(s, i, c, Measure::BytesInUse);
    lemma_sum_update(s, i, c, Measure::InUse);
    lemma_sum_update(s, i, c, Measure::Segments);
    lemma_distinct_keys(s);
    lemma_keys_update(s, i, c, small);
    assert(!keys(s, small).contains(c.key())) by {
        if listed(s, small, c.key()) {
            let j = choose|j: int|
                0 <= j < s.len() && (#[trigger] s[j]).pooled(small) && s[j].key() == c.key();
            assert(s[i].key() == c.key());
        }
    }
    assert(without_key(with_key(keys(s, small), c, small), c, small) =~= keys(s, small));
}

/// Cutting a chunk in use.
pub proof fn lemma_cut_ledger(s: Seq<Chunk>, i: int, size: int, small: bool)
    requires
        space::chained(s),
        0 <= i < s.len(),
        !s[i].free,
        0 < size < s[i].size,
    ensures
        sum(space::cut(s, i, size), Measure::Bytes) == sum(s, Measure::Bytes),
        sum(space::cut(s, i, size), Measure::BytesInUse) == sum(s, Measure::BytesInUse) - (
        s[i].size - size),
        sum(space::cut(s, i, size), Measure::InUse) == sum(s, Measure::InUse),
        sum(space::cut(s, i, size), Measure::Segments) == sum(s, Measure::Segments),
        keys(space::cut(s, i, size), small) == with_key(
            keys(s, small),
            space::cut(s, i, size)[i + 1],
            small,
        ),
{
    let c = Chunk { size, ..s[i] };
    let d = Chunk { ptr: s[i].ptr + size, size: s[i].size - size, free: true, ..s[i] };
    let t = s.update(i, c);
    assert(s[i].ok());
    lemma_sum_update(s, i, c, Measure::Bytes);
    lemma_sum_update(s, i, c, Measure::BytesInUse);
    lemma_sum_update(s, i, c, Measure::InUse);
    lemma_sum_update(s, i, c, Measure::Segments);
    lemma_sum_insert(t, i + 1, d, Measure::Bytes);
    lemma_sum_insert(t, i + 1, d, Measure::BytesInUse);
    lemma_sum_insert(t, i + 1, d, Measure::InUse);
    lemma_sum_insert(t, i + 1, d, Measure::Segments);
    lemma_distinct_keys(s);
    lemma_keys_update(s, i, c, small);
    lemma_keys_insert(t, i + 1, d, small);
    assert(space::cut(s, i, size)[i + 1] == d);
}

/// Joining two free chunks of one segment.
pub proof fn lemma_joined_ledger(s: Seq<Chunk>, i: int, small: bool)
    requires
        space::tiled(s),
        space::mergeable(s, i),
    ensures
        sum(space::joined(s, i), Measure::Bytes) == sum(s, Measure::Bytes),
        sum(space::joined(s, i), Measure::BytesInUse) == sum(s, Measure::BytesInUse),
        sum(space::joined(s, i), Measure::InUse) == sum(s, Measure::InUse),
        sum(space::joined(s, i), Measure::Segments) == sum(s, Measure::Segments),
        keys(space::joined(s, i), small) == with_key(
            without_key(without_key(keys(s, small), s[i], small), s[i + 1], small),
            space::joined(s, i)[i],
            small,
        ),
        without_key(
            keys(space::joined(s, i), small),
            space::joined(s, i)[i],
            small,
        ) == without_key(without_key(keys(s, small), s[i], small), s[i + 1], small),
{
    let c = Chunk { size: s[i].size + s[i + 1].size, ..s[i] };
    let t = s.update(i, c);
    let j = space::joined(s, i);
    assert(s[i].ok() && s[i + 1].ok());
    assert(space::link_at(s, i));
    lemma_sum_update(s, i, c, Measure::Bytes);
    lemma_sum_update(s, i, c, Measure::BytesInUse);
    lemma_sum_update(s, i, c, Measure::InUse);
    lemma_sum_update(s, i, c, Measure::Segments);
    lemma_sum_remove(t, i + 1, Measure::Bytes);
    lemma_sum_remove(t, i + 1, Measure::BytesInUse);
    lemma_sum_remove(t, i + 1, Measure::InUse);
    lemma_sum_remove(t, i + 1, Measure::Segments);
    lemma_distinct_keys(s);
    // Take both chunks out and put the joined one in.
    let u = s.remove(i + 1);
    lemma_keys_remove(s, i + 1, small);
    assert(distinct_keys(u)) by {
        assert forall|a: int, b: int|
            0 <= a < u.len() && 0 <= b < u.len() && (#[trigger] u[a]).key() == (
            #[trigger] u[b]).key() implies a == b by {
            let a0 = if a < i + 1 {
                a
            } else {
                a + 1
            };
            let b0 = if b < i + 1 {
                b
            } else {
                b + 1
            };
            assert(s[a0].key() == s[b0].key());
        }
    }
    assert(u[i] == s[i]);
    lemma_keys_update(u, i, c, small);
    assert(u.update(i, c) =~= j);
    space::lemma_joined(s, i);
    let base = without_key(without_key(keys(s, small), s[i], small), s[i + 1], small);
    assert(without_key(without_key(keys(s, small), s[i + 1], small), s[i], small) =~= base);
    assert(!base.contains(c.key())) by {
        if base.contains(c.key()) {
            let k = choose|k: int|
                0 <= k < s.len() && (#[trigger] s[k]).pooled(small) && s[k].key() == c.key();
            assert(s[k].ok());
            space::lemma_same_ptr(s, k, i);
        }
    }
    assert(without_key(with_key(base, c, small), c, small) =~= base);
}

/// Adding a fresh segment.
pub proof fn lemma_grown_ledger(s: Seq<Chunk>, c: Chunk, small: bool)
    requires
        space::chained(s),
        c.ptr == c.base,
    ensures
        sum(space::grown(s, c), Measure::Bytes) == sum(s, Measure::Bytes) + c.size,
        sum(space::grown(s, c), Measure::BytesInUse) == sum(s, Measure::BytesInUse) + share(
            c,
            Measure::BytesInUse,
        ),
        sum(space::grown(s, c), Measure::InUse) == sum(s, Measure::InUse) + share(
            c,
            Measure::InUse,
        ),
        sum(space::grown(s, c), Measure::Segments) == sum(s, Measure::Segments) + 1,
        keys(space::grown(s, c), small) == with_key(keys(s, small), c, small),
{
    let r = space::rank(s, c.ptr);
    space::lemma_rank(s, c.ptr);
    lemma_sum_insert(s, r, c, Measure::Bytes);
    lemma_sum_insert(s, r, c, Measure::BytesInUse);
    lemma_sum_insert(s, r, c, Measure::InUse);
    lemma_sum_insert(s, r, c, Measure::Segments);
    lemma_keys_insert(s, r, c, small);
}

/// Dropping an idle segment.
pub proof fn lemma_dropped_ledger(s: Seq<Chunk>, i: int, small: bool)
    requires
        space::chained(s),
        0 <= i < s.len(),
        s[i].idle(),
    ensures
        sum(s.remove(i), Measure::Bytes) == sum(s, Measure::Bytes) - s[i].size,
        sum(s.remove(i), Measure::BytesInUse) == sum(s, Measure::BytesInUse),
        sum(s.remove(i), Measure::InUse) == sum(s, Measure::InUse),
        sum(s.remove(i), Measure::Segments) == sum(s, Measure::Segments) - 1,
        keys(s.remove(i), small) == without_key(keys(s, small), s[i], small),
{
    assert(s[i].ok());
    lemma_sum_remove(s, i, Measure::Bytes);
    lemma_sum_remove(s, i, Measure::BytesInUse);
    lemma_sum_remove(s, i, Measure::InUse);
    lemma_sum_remove(s, i, Measure::Segments);
    lemma_distinct_keys(s);
    lemma_keys_remove(s, i, small);
}

/// Dropping one idle segment, seen from all that are idle.
pub proof fn lemma_idle_remove(s: Seq<Chunk>, i: int, m: Measure)
    requires
        0 <= i < s.len(),
        s[i].idle(),
    ensures
        sum(space::idle_segments(s), m) == sum(space::idle_segments(s.remove(i)), m) + share(
            s[i],
            m,
        ),
        space::idle_segments(s).len() == space::idle_segments(s.remove(i)).len() + 1,
{
    let a = space::idle_segments(s.take(i));
    let b = space::idle_segments(s.skip(i + 1));
    space::lemma_kept_remove(s, i);
    lemma_sum_add(a, b, m);
    lemma_sum_add(a, seq![s[i]], m);
    lemma_sum_add(a + seq![s[i]], b, m);
    lemma_sum_one(s[i], m);
}

/// Dropping the idle segments drops nothing in use.
pub proof fn lemma_kept_in_use(s: Seq<Chunk>)
    ensures
        sum(space::kept(s), Measure::InUse) == sum(s, Measure::InUse),
        sum(space::kept(s), Measure::BytesInUse) == sum(s, Measure::BytesInUse),
    decreases s.len(),
{
    if s.len() > 0 {
        let t = s.drop_last();
        lemma_kept_in_use(t);
        if !s.last().idle() {
            assert(space::kept(s).drop_last() =~= space::kept(t));
        }
    }
}

/// Where the count says that nothing is in use, every chunk is free.
pub proof fn lemma_none_in_use(s: Seq<Chunk>)
    requires
        space::chained(s),
        sum(s, Measure::InUse) == 0,
    ensures
        forall|i: int| 0 <= i < s.len() ==> (#[trigger] s[i]).free,
{
    assert forall|i: int| 0 <= i < s.len() implies (#[trigger] s[i]).free by {
        lemma_part(s, i);
    }
}

/// The first pool entry that fits belongs to the best-fitting chunk.
pub proof fn lemma_pool_best_fit(s: Seq<Chunk>, small: bool, size: int, k: (usize, usize), j: int)
    requires
        space::chained(s),
        0 <= j < s.len(),
        s[j].pooled(small),
        s[j].key() == k,
        k.0 >= size,
        forall|e: (usize, usize)| #[trigger]
            keys(s, small).contains(e) && e.0 >= size ==> e == k || super::pool::before(
                k,
                e,
            ),
    ensures
        space::best_fit(s, small, size, j),
        space::rank(s, k.1 as int) == j,
        space::starts_at(s, k.1 as int),
        s[j].ptr == k.1,
        s[j].size == k.0,
{
    assert(s[j].ok());
    space::lemma_rank_at(s, j);
    assert forall|i: int|
        0 <= i < s.len() && (#[trigger] s[i]).pooled(small) && s[i].size >= size implies s[j].size
        < s[i].size || (s[j].size == s[i].size && s[j].ptr <= s[i].ptr) by {
        assert(s[i].ok());
        assert(keys(s, small).contains(s[i].key()));
    }
}

/// Merging neither uses nor frees anything.
pub proof fn lemma_merged_sums(s: Seq<Chunk>, i: int)
    requires
        space::tiled(s),
        0 <= i < s.len(),
        s[i].free,
        forall|k: int| k != i && k != i - 1 ==> !#[trigger] space::mergeable(s, k),
    ensures
        forall|m: Measure| #[trigger]
            sum(space::merged(s, i), m) == sum(s, m),
{
    let a = space::joined_prev(s, i);
    let k = space::merged_at(s, i);
    space::lemma_merged(s, i);
    if space::prev_free(s, i) {
        assert(space::mergeable(s, i - 1));
        lemma_joined_ledger(s, i - 1, true);
    }
    if space::next_free(a, k) {
        assert(space::mergeable(a, k));
        lemma_joined_ledger(a, k, true);
    }
    assert forall|m: Measure| #[trigger]
        sum(space::merged(s, i), m) == sum(s, m) by {
        match m {
            Measure::Bytes => {},
            Measure::BytesInUse => {},
            Measure::InUse => {},
            Measure::Segments => {},
        }
    }
}

// ---------------------------------------------------------------------
// Statistics
// ---------------------------------------------------------------------

/// The statistics tell what the chunks show: bytes in use and bytes held, the
/// segments held as the difference of device calls, and peaks that are not below
/// the present.
pub open spec fn balanced(s: Seq<Chunk>, st: CacheStats) -> bool {
    &&& st.allocated_bytes == sum(s, Measure::BytesInUse)
    &&& st.reserved_bytes == sum(s, Measure::Bytes)
    &&& st.allocated_bytes <= st.allocated_bytes_peak
    &&& st.reserved_bytes <= st.reserved_bytes_peak
    &&& st.num_device_alloc == st.num_device_free + sum(s, Measure::Segments)
}

/// What the sums count, chunk by chunk and in any order: all bytes, the bytes in
/// use, the chunks in use, and the segments, one by its first chunk.
pub proof fn law_sums(s: Seq<Chunk>, i: int, c: Chunk)
    requires
        0 <= i <= s.len(),
    ensures
        forall|m: Measure| #[trigger] sum(Seq::<Chunk>::empty(), m) == 0,
        sum(s.insert(i, c), Measure::Bytes) == sum(s, Measure::Bytes) + c.size,
        c.free ==> {
            &&& sum(s.insert(i, c), Measure::BytesInUse) == sum(s, Measure::BytesInUse)
            &&& sum(s.insert(i, c), Measure::InUse) == sum(s, Measure::InUse)
        },
        !c.free ==> {
            &&& sum(s.insert(i, c), Measure::BytesInUse) == sum(s, Measure::BytesInUse) + c.size
            &&& sum(s.insert(i, c), Measure::InUse) == sum(s, Measure::InUse) + 1
        },
        c.ptr == c.base ==> sum(s.insert(i, c), Measure::Segments) == sum(s, Measure::Segments) + 1,
        c.ptr != c.base ==> sum(s.insert(i, c), Measure::Segments) == sum(s, Measure::Segments),
{
    lemma_sum_insert(s, i, c, Measure::Bytes);
    lemma_sum_insert(s, i, c, Measure::BytesInUse);
    lemma_sum_insert(s, i, c, Measure::InUse);
    lemma_sum_insert(s, i, c, Measure::Segments);
}

/// A pool lists the free chunks of its segments by size and address, and no others.
pub proof fn law_pool_entries(s: Seq<Chunk>, small: bool, i: int, k: (usize, usize))
    requires
        space::tiled(s),
        0 <= i < s.len(),
    ensures
        s[i].free && s[i].small == small ==> keys(s, small).contains(
            (s[i].size as usize, s[i].ptr as usize),
        ),
        keys(s, small).contains(k) ==> exists|j: int|
            0 <= j < s.len() && (#[trigger] s[j]).free && s[j].small == small && s[j].size == k.0
                && s[j].ptr == k.1,
{
    if keys(s, small).contains(k) {
        let j = choose|j: int|
            0 <= j < s.len() && (#[trigger] s[j]).pooled(small) && s[j].key() == k;
        assert(s[j].ok());
    }
    if s[i].free && s[i].small == small {
        assert(s[i].pooled(small) && s[i].key() == (s[i].size as usize, s[i].ptr as usize));
    }
}

/// What is handed out of a free chunk moves from one sum to the other.
pub proof fn lemma_taken_sums(s: Seq<Chunk>, i: int, size: int, split: bool)
    requires
        space::tiled(s),
        0 <= i < s.len(),
        s[i].free,
        split ==> 0 < size < s[i].size,
    ensures
        ({
            let t = space::taken(s, i, size, split);
            let n = if split {
                size
            } else {
                s[i].size
            };
            &&& sum(t, Measure::Bytes) == sum(s, Measure::Bytes)
            &&& sum(t, Measure::BytesInUse) == sum(s, Measure::BytesInUse) + n
            &&& sum(t, Measure::InUse) == sum(s, Measure::InUse) + 1
            &&& sum(t, Measure::Segments) == sum(s, Measure::Segments)
            &&& 0 <= sum(s, Measure::BytesInUse) + n <= usize::MAX
        }),
{
    let u = space::used(s, i);
    space::lemma_used(s, i);
    lemma_used_ledger(s, i, true);
    if split {
        lemma_cut_ledger(u, i, size, true);
        space::lemma_cut(u, i, size);
    }
    lemma_sums(space::taken(s, i, size, split));
}

/// What is given back leaves the sums over what is in use.
pub proof fn lemma_freed_sums(s: Seq<Chunk>, i: int)
    requires
        space::tiled(s),
        space::settled(s),
        0 <= i < s.len(),
        !s[i].free,
    ensures
        ({
            let t = space::freed(s, i);
            &&& sum(t, Measure::Bytes) == sum(s, Measure::Bytes)
            &&& sum(t, Measure::BytesInUse) == sum(s, Measure::BytesInUse) - s[i].size
            &&& sum(t, Measure::InUse) == sum(s, Measure::InUse) - 1
            &&& sum(t, Measure::Segments) == sum(s, Measure::Segments)
            &&& s[i].size <= sum(s, Measure::BytesInUse)
        }),
{
    space::lemma_marked(s, i);
    lemma_marked_ledger(s, i, true);
    lemma_merged_sums(space::marked(s, i), i);
    lemma_part(s, i);
}

/// What stays and what goes make up the whole; each idle chunk is a segment.
pub proof fn lemma_kept_sums(s: Seq<Chunk>, m: Measure)
    requires
        space::chained(s),
    ensures
        sum(space::kept(s), m) + sum(space::idle_segments(s), m) == sum(s, m),
        sum(space::idle_segments(s), Measure::Segments) == space::idle_segments(s).len(),
        0 <= sum(space::idle_segments(s), Measure::Bytes),
        0 <= sum(space::kept(s), Measure::Bytes),
        0 <= sum(space::kept(s), Measure::Segments),
    decreases s.len(),
{
    if s.len() > 0 {
        let t = s.drop_last();
        assert(s[s.len() - 1].ok());
        lemma_chained_prefix(s);
        lemma_kept_sums(t, m);
        let a = space::kept(t);
        let b = space::idle_segments(t);
        assert(a.push(s.last()).drop_last() =~= a);
        assert(b.push(s.last()).drop_last() =~= b);
    }
}

} // verus!

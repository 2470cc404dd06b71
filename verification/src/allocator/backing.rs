//! How the chunks of a cache relate to the memory that a device has handed out:
//! every segment is a live region of the device.
use vstd::prelude::*;

use super::space::{self, Chunk};

verus! {

/// The regions of a device that are left when segments went back.
pub open spec fn without_segments(live: Map<usize, usize>, gone: Seq<Chunk>) -> Map<usize, usize> {
    live.remove_keys(space::bases(gone).to_set())
}

/// The chunks are cut from live regions of the device.
pub open spec fn backed(s: Seq<Chunk>, live: Map<usize, usize>, align: int) -> bool {
    forall|i: int|
        0 <= i < s.len() ==> {
            &&& live.contains_key((#[trigger] s[i]).base as usize)
            &&& live[s[i].base as usize] == s[i].seg
            &&& super::layout_fits(s[i].seg, align)
        }
}

/// Taking one more key away.
pub proof fn lemma_remove_next(live: Map<usize, usize>, gone: Seq<usize>, k: int)
    requires
        0 <= k < gone.len(),
    ensures
        live.remove_keys(gone.take(k).to_set()).remove(gone[k]) == live.remove_keys(
            gone.take(k + 1).to_set(),
        ),
{
    let a = gone.take(k);
    let b = gone.take(k + 1);
    assert(b =~= a.push(gone[k]));
    assert forall|x: usize| b.contains(x) <==> a.contains(x) || x == gone[k] by {
        if a.contains(x) {
            let i = choose|i: int| 0 <= i < a.len() && a[i] == x;
            assert(b[i] == x);
        }
        if b.contains(x) {
            let i = choose|i: int| 0 <= i < b.len() && b[i] == x;
            if i < k {
                assert(a[i] == x);
            }
        }
        assert(b[k] == gone[k]);
    }
    assert(live.remove_keys(a.to_set()).remove(gone[k]) =~= live.remove_keys(b.to_set()));
}

/// Idle segments are live regions.
pub proof fn lemma_idle_backed(s: Seq<Chunk>, live: Map<usize, usize>, align: int)
    requires
        space::chained(s),
        backed(s, live, align),
    ensures
        forall|i: int|
            0 <= i < space::idle_segments(s).len() ==> live.contains_key(
                (#[trigger] space::idle_segments(s)[i]).base as usize,
            ),
{
    space::lemma_idle_order(s);
    assert forall|i: int| 0 <= i < space::idle_segments(s).len() implies live.contains_key(
        (#[trigger] space::idle_segments(s)[i]).base as usize,
    ) by {
        let c = space::idle_segments(s)[i];
        let k = choose|k: int| 0 <= k < s.len() && s[k] == c;
        assert(live.contains_key(s[k].base as usize));
    }
}

/// An address that is no segment's is not among those of the idle segments.
pub proof fn lemma_not_idle(s: Seq<Chunk>, addr: usize)
    requires
        space::chained(s),
        forall|i: int| 0 <= i < s.len() && (#[trigger] s[i]).idle() ==> s[i].base != addr,
    ensures
        !space::bases(space::idle_segments(s)).to_set().contains(addr),
{
    let d = space::idle_segments(s);
    space::lemma_idle_order(s);
    if space::bases(d).contains(addr) {
        let i = choose|i: int| 0 <= i < space::bases(d).len() && space::bases(d)[i] == addr;
        assert(d[i].ok());
        let k = choose|k: int| 0 <= k < s.len() && s[k] == d[i];
        assert(s[k].idle());
    }
}

/// What is kept is still cut from live regions once the idle segments went back.
pub proof fn lemma_kept_backed(s: Seq<Chunk>, live: Map<usize, usize>, align: int)
    requires
        space::tiled(s),
        backed(s, live, align),
    ensures
        backed(space::kept(s), without_segments(live, space::idle_segments(s)), align),
{
    let k = space::kept(s);
    space::lemma_kept_members(s);
    assert forall|i: int| 0 <= i < k.len() implies {
        &&& without_segments(live, space::idle_segments(s)).contains_key(
            (#[trigger] k[i]).base as usize,
        )
        &&& without_segments(live, space::idle_segments(s))[k[i].base as usize] == k[i].seg
        &&& super::layout_fits(k[i].seg, align)
    } by {
        let c = k[i];
        assert(k.contains(c));
        let j = choose|j: int| 0 <= j < s.len() && s[j] == c;
        assert(s[j].ok());
        assert forall|x: int| 0 <= x < s.len() && (#[trigger] s[x]).idle() implies s[x].base
            != c.base as usize by {
            space::lemma_dropped(s, x);
            assert(s[j].base != s[x].base);
        }
        lemma_not_idle(s, c.base as usize);
    }
}

/// Uncached memory stays live when the idle segments go back.
pub proof fn lemma_uncached_kept(s: Seq<Chunk>, live: Map<usize, usize>, addr: usize)
    requires
        space::chained(s),
        live.contains_key(addr),
        forall|i: int| 0 <= i < s.len() ==> (#[trigger] s[i]).base != addr,
    ensures
        without_segments(live, space::idle_segments(s)).contains_key(addr),
        forall|i: int|
            0 <= i < space::kept(s).len() ==> (#[trigger] space::kept(s)[i]).base != addr,
{
    lemma_not_idle(s, addr);
    space::lemma_kept_members(s);
    assert forall|i: int| 0 <= i < space::kept(s).len() implies (
    #[trigger] space::kept(s)[i]).base != addr by {
        let c = space::kept(s)[i];
        assert(space::kept(s).contains(c));
        let j = choose|j: int| 0 <= j < s.len() && s[j] == c;
        assert(s[j].base != addr);
    }
}

/// A fresh region meets no segment.
pub proof fn lemma_fresh_clear(
    s: Seq<Chunk>,
    live: Map<usize, usize>,
    align: int,
    base: usize,
    n: usize,
)
    requires
        space::chained(s),
        backed(s, live, align),
        super::fresh(live, base as int, n as int),
    ensures
        space::clear_of(s, base as int, n as int),
{
    assert forall|i: int| 0 <= i < s.len() implies (#[trigger] s[i]).seg_end() <= base || base + n
        <= s[i].base by {
        assert(s[i].ok());
        assert(live.contains_key(s[i].base as usize));
    }
}

/// With a fresh segment, the chunks are cut from live regions.
pub proof fn lemma_grown_backed(s: Seq<Chunk>, live: Map<usize, usize>, align: int, c: Chunk)
    requires
        space::chained(s),
        backed(s, live, align),
        c.ok(),
        c.whole(),
        c.ptr == c.base,
        super::layout_fits(c.seg, align),
        space::clear_of(s, c.base, c.seg),
    ensures
        backed(space::grown(s, c), live.insert(c.base as usize, c.seg as usize), align),
{
    space::lemma_rank(s, c.ptr);
    let r = space::rank(s, c.ptr);
    let g = space::grown(s, c);
    let l = live.insert(c.base as usize, c.seg as usize);
    assert forall|i: int| 0 <= i < g.len() implies {
        &&& l.contains_key((#[trigger] g[i]).base as usize)
        &&& l[g[i].base as usize] == g[i].seg
        &&& super::layout_fits(g[i].seg, align)
    } by {
        if i == r {
            assert(g[i] == c);
        } else {
            let k = if i < r {
                i
            } else {
                i - 1
            };
            assert(g[i] == s[k]);
            assert(s[k].ok());
            assert(live.contains_key(s[k].base as usize));
        }
    }
}

/// Taking a chunk leaves the segments as they are.
pub proof fn lemma_taken_backed(
    s: Seq<Chunk>,
    live: Map<usize, usize>,
    align: int,
    i: int,
    size: int,
    split: bool,
)
    requires
        0 <= i < s.len(),
        backed(s, live, align),
    ensures
        backed(space::taken(s, i, size, split), live, align),
{
    let t = space::taken(s, i, size, split);
    assert forall|j: int| 0 <= j < t.len() implies {
        &&& live.contains_key((#[trigger] t[j]).base as usize)
        &&& live[t[j].base as usize] == t[j].seg
        &&& super::layout_fits(t[j].seg, align)
    } by {
        let k = if split && j > i {
            j - 1
        } else {
            j
        };
        assert(t[j].base == s[k].base && t[j].seg == s[k].seg);
    }
}

/// Taking a chunk adds no segment.
pub proof fn lemma_taken_bases(s: Seq<Chunk>, i: int, size: int, split: bool, p: int)
    requires
        0 <= i < s.len(),
        forall|k: int| 0 <= k < s.len() ==> (#[trigger] s[k]).base != p,
    ensures
        forall|k: int|
            0 <= k < space::taken(s, i, size, split).len() ==> (#[trigger] space::taken(
                s,
                i,
                size,
                split,
            )[k]).base != p,
{
    let t = space::taken(s, i, size, split);
    assert forall|j: int| 0 <= j < t.len() implies (#[trigger] t[j]).base != p by {
        let k = if split && j > i {
            j - 1
        } else {
            j
        };
        assert(t[j].base == s[k].base);
    }
}

/// A fresh segment is not where live memory is.
pub proof fn lemma_grown_apart(s: Seq<Chunk>, live: Map<usize, usize>, c: Chunk, addr: usize)
    requires
        space::chained(s),
        c.ok(),
        live.contains_key(addr),
        live[addr] > 0,
        super::fresh(live, c.base, c.seg),
        forall|k: int| 0 <= k < s.len() ==> (#[trigger] s[k]).base != addr,
    ensures
        forall|k: int|
            0 <= k < space::grown(s, c).len() ==> (#[trigger] space::grown(s, c)[k]).base != addr,
{
    space::lemma_rank(s, c.ptr);
    let r = space::rank(s, c.ptr);
    let g = space::grown(s, c);
    assert forall|j: int| 0 <= j < g.len() implies (#[trigger] g[j]).base != addr by {
        if j == r {
            assert(g[j] == c);
        } else {
            let k = if j < r {
                j
            } else {
                j - 1
            };
            assert(g[j] == s[k]);
        }
    }
}

/// Memory of the device that bypasses the cache lies apart from its segments,
/// which stay live.
pub proof fn lemma_uncached(
    s: Seq<Chunk>,
    live: Map<usize, usize>,
    align: int,
    addr: usize,
    n: usize,
)
    requires
        space::chained(s),
        backed(s, live, align),
        super::fresh(live, addr as int, n as int),
        n > 0,
    ensures
        backed(s, live.insert(addr, n), align),
        forall|i: int| 0 <= i < s.len() ==> (#[trigger] s[i]).base != addr,
{
    assert forall|i: int| 0 <= i < s.len() implies (#[trigger] s[i]).base != addr by {
        assert(s[i].ok());
        assert(live.contains_key(s[i].base as usize));
    }
    assert forall|i: int| 0 <= i < s.len() implies {
        &&& live.insert(addr, n).contains_key((#[trigger] s[i]).base as usize)
        &&& live.insert(addr, n)[s[i].base as usize] == s[i].seg
        &&& super::layout_fits(s[i].seg, align)
    } by {
        assert(s[i].ok());
        assert(live.contains_key(s[i].base as usize));
        assert(s[i].base != addr);
    }
}

/// Joining neighbours leaves the segments as they are.
pub proof fn lemma_joined_members(s: Seq<Chunk>, i: int)
    requires
        space::tiled(s),
        space::mergeable(s, i),
    ensures
        forall|k: int|
            0 <= k < space::joined(s, i).len() ==> exists|j: int|
                0 <= j < s.len() && (#[trigger] s[j]).base == (#[trigger] space::joined(
                    s,
                    i,
                )[k]).base && s[j].seg == space::joined(s, i)[k].seg,
{
    space::lemma_joined(s, i);
    let t = space::joined(s, i);
    assert forall|k: int| 0 <= k < t.len() implies exists|j: int|
        0 <= j < s.len() && (#[trigger] s[j]).base == (#[trigger] t[k]).base && s[j].seg
            == t[k].seg by {
        let j = if k <= i {
            k
        } else {
            k + 1
        };
        assert(s[j].base == t[k].base && s[j].seg == t[k].seg);
    }
}

/// Freeing a chunk leaves the segments as they are.
pub proof fn lemma_freed_members(s: Seq<Chunk>, i: int)
    requires
        space::tiled(s),
        space::settled(s),
        0 <= i < s.len(),
    ensures
        forall|k: int|
            0 <= k < space::freed(s, i).len() ==> exists|j: int|
                0 <= j < s.len() && (#[trigger] s[j]).base == (#[trigger] space::freed(
                    s,
                    i,
                )[k]).base && s[j].seg == space::freed(s, i)[k].seg,
{
    let m = space::marked(s, i);
    space::lemma_marked(s, i);
    space::lemma_merged(m, i);
    let a = space::joined_prev(m, i);
    let at = space::merged_at(m, i);
    let f = space::freed(s, i);
    if space::prev_free(m, i) {
        assert(space::mergeable(m, i - 1));
        lemma_joined_members(m, i - 1);
    }
    if space::next_free(a, at) {
        assert(space::mergeable(a, at));
        lemma_joined_members(a, at);
    }
    assert forall|k: int| 0 <= k < f.len() implies exists|j: int|
        0 <= j < s.len() && (#[trigger] s[j]).base == (#[trigger] f[k]).base && s[j].seg
            == f[k].seg by {
        let x = if space::next_free(a, at) {
            choose|x: int| 0 <= x < a.len() && (#[trigger] a[x]).base == f[k].base && a[x].seg
                == f[k].seg
        } else {
            k
        };
        assert(a[x].base == f[k].base);
        let y = if space::prev_free(m, i) {
            choose|y: int| 0 <= y < m.len() && (#[trigger] m[y]).base == a[x].base && m[y].seg
                == a[x].seg
        } else {
            x
        };
        assert(s[y].base == m[y].base && s[y].seg == m[y].seg);
    }
}

/// Freeing a chunk keeps the chunks cut from live regions.
pub proof fn lemma_freed_backed(s: Seq<Chunk>, live: Map<usize, usize>, align: int, i: int)
    requires
        space::tiled(s),
        space::settled(s),
        0 <= i < s.len(),
        backed(s, live, align),
    ensures
        backed(space::freed(s, i), live, align),
{
    lemma_freed_members(s, i);
    let f = space::freed(s, i);
    assert forall|k: int| 0 <= k < f.len() implies {
        &&& live.contains_key((#[trigger] f[k]).base as usize)
        &&& live[f[k].base as usize] == f[k].seg
        &&& super::layout_fits(f[k].seg, align)
    } by {
        let j = choose|j: int|
            0 <= j < s.len() && (#[trigger] s[j]).base == f[k].base && s[j].seg == f[k].seg;
        assert(live.contains_key(s[j].base as usize));
    }
}

/// No two regions meet.
pub open spec fn apart(live: Map<usize, usize>) -> bool {
    forall|a: usize, b: usize| #[trigger]
        live.contains_key(a) && #[trigger] live.contains_key(b) && a != b ==> a + live[a] <= b || b
            + live[b] <= a
}

/// A fresh region meets none.
pub proof fn lemma_apart_insert(live: Map<usize, usize>, addr: usize, n: usize)
    requires
        apart(live),
        super::fresh(live, addr as int, n as int),
    ensures
        apart(live.insert(addr, n)),
{
    let l = live.insert(addr, n);
    assert forall|a: usize, b: usize| #[trigger]
        l.contains_key(a) && #[trigger] l.contains_key(b) && a != b implies a + l[a] <= b || b
        + l[b] <= a by {
        assert(a != addr ==> live.contains_key(a));
        assert(b != addr ==> live.contains_key(b));
    }
}

/// Fewer regions meet no more.
pub proof fn lemma_apart_fewer(live: Map<usize, usize>, less: Map<usize, usize>)
    requires
        apart(live),
        forall|a: usize| #[trigger]
            less.contains_key(a) ==> live.contains_key(a) && less[a] == live[a],
    ensures
        apart(less),
{
    assert forall|a: usize, b: usize| #[trigger]
        less.contains_key(a) && #[trigger] less.contains_key(b) && a != b implies a + less[a] <= b
        || b + less[b] <= a by {
        assert(live.contains_key(a) && live.contains_key(b));
    }
}

/// What the device still holds out once idle segments went back: every region but
/// those at the addresses of idle segments, each as long as before.
pub proof fn law_regions_left(s: Seq<Chunk>, live: Map<usize, usize>, a: usize)
    requires
        space::tiled(s),
    ensures
        without_segments(live, space::idle_segments(s)).contains_key(a) <==> live.contains_key(a)
            && forall|i: int|
            0 <= i < s.len() && (#[trigger] s[i]).free && s[i].size == s[i].seg ==> s[i].base != a,
        without_segments(live, space::idle_segments(s)).contains_key(a) ==> without_segments(
            live,
            space::idle_segments(s),
        )[a] == live[a],
{
    let gone = space::idle_segments(s);
    let b = space::bases(gone);
    if forall|i: int|
        0 <= i < s.len() && (#[trigger] s[i]).free && s[i].size == s[i].seg ==> s[i].base != a {
        lemma_not_idle(s, a);
    } else {
        let i = choose|i: int|
            0 <= i < s.len() && (#[trigger] s[i]).free && s[i].size == s[i].seg && s[i].base == a;
        space::law_keeping(s, s[i]);
        assert(s.contains(s[i]));
        let k = choose|k: int| 0 <= k < gone.len() && gone[k] == s[i];
        assert(b[k] == a);
        assert(b.contains(a));
    }
}

} // verus!

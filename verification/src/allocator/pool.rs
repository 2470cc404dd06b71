//! A pool of free blocks, ordered by size and then by address, so that the
//! first entry at or above a size is the best fit with the lowest address.
use vstd::prelude::*;

verus! {

/// `a` comes before `b`: by size, then by address.
pub open spec fn before(a: (usize, usize), b: (usize, usize)) -> bool {
    a.0 < b.0 || (a.0 == b.0 && a.1 < b.1)
}

/// Every entry comes before all later ones.
pub open spec fn ascending(s: Seq<(usize, usize)>) -> bool {
    forall|i: int, j: int| 0 <= i < j < s.len() ==> before(#[trigger] s[i], #[trigger] s[j])
}

/// An ordered set of `(size, address)` entries.
pub struct FreePool {
    entries: Vec<(usize, usize)>,
}

impl View for FreePool {
    type V = Set<(usize, usize)>;

    open spec fn view(&self) -> Set<(usize, usize)> {
        self.order().to_set()
    }
}

impl FreePool {
    /// The entries in ascending order.
    pub closed spec fn order(&self) -> Seq<(usize, usize)> {
        self.entries@
    }

    /// The entries are in ascending order, so none occurs twice.
    pub open spec fn wf(&self) -> bool {
        ascending(self.order())
    }

    /// An empty pool.
    pub fn new() -> (p: FreePool)
        ensures
            p.wf(),
            p.order() == Seq::<(usize, usize)>::empty(),
            p@ == Set::<(usize, usize)>::empty(),
    {
        let p = FreePool { entries: Vec::new() };
        assert(p@ =~= Set::<(usize, usize)>::empty());
        p
    }

    /// The number of entries.
    pub fn len(&self) -> (n: usize)
        ensures
            n == self.order().len(),
    {
        self.entries.len()
    }

    /// The entry at a place in the order.
    pub fn at(&self, i: usize) -> (k: (usize, usize))
        requires
            i < self.order().len(),
        ensures
            k == self.order()[i as int],
    {
        self.entries[i]
    }

    /// The number of entries that come before `k`.
    fn lower_bound(&self, k: (usize, usize)) -> (n: usize)
        requires
            self.wf(),
        ensures
            n <= self.order().len(),
            forall|i: int| 0 <= i < n ==> before(#[trigger] self.order()[i], k),
            forall|i: int| n <= i < self.order().len() ==> !before(#[trigger] self.order()[i], k),
    {
        let mut lo: usize = 0;
        let mut hi: usize = self.entries.len();
        while lo < hi
            invariant
                self.wf(),
                lo <= hi <= self.order().len(),
                self.order() == self.entries@,
                forall|i: int| 0 <= i < lo ==> before(#[trigger] self.order()[i], k),
                forall|i: int|
                    hi <= i < self.order().len() ==> !before(#[trigger] self.order()[i], k),
            decreases hi - lo,
        {
            let mid: usize = lo + (hi - lo) / 2;
            let e = self.entries[mid];
            assert(e == self.order()[mid as int]);
            if e.0 < k.0 || (e.0 == k.0 && e.1 < k.1) {
                assert forall|i: int| 0 <= i < mid + 1 implies before(
                    #[trigger] self.order()[i],
                    k,
                ) by {
                    if i < mid {
                        assert(before(self.order()[i], self.order()[mid as int]));
                    }
                }
                lo = mid + 1;
            } else {
                assert forall|i: int| mid <= i < self.order().len() implies !before(
                    #[trigger] self.order()[i],
                    k,
                ) by {
                    if mid < i {
                        assert(before(self.order()[mid as int], self.order()[i]));
                    }
                }
                hi = mid;
            }
        }
        lo
    }

    /// Puts an entry in.
    pub fn insert(&mut self, k: (usize, usize))
        requires
            old(self).wf(),
        ensures
            final(self).wf(),
            final(self)@ == old(self)@.insert(k),
    {
        let n: usize = self.lower_bound(k);
        let ghost s = self.order();
        if n < self.entries.len() && self.entries[n].0 == k.0 && self.entries[n].1 == k.1 {
            assert(s[n as int] == k);
            assert(self@ =~= old(self)@.insert(k));
        } else {
            self.entries.insert(n, k);
            proof {
                let t = self.order();
                assert(t == s.insert(n as int, k));
                assert forall|i: int, j: int| 0 <= i < j < t.len() implies before(
                    #[trigger] t[i],
                    #[trigger] t[j],
                ) by {
                    if j < n {
                        assert(before(s[i], s[j]));
                    } else if j == n {
                        assert(before(s[i], k));
                    } else if i < n {
                        assert(before(s[i], s[j - 1]));
                    } else if i == n {
                        assert(!before(s[j - 1], k));
                        if n < j - 1 {
                            assert(before(s[n as int], s[j - 1]));
                            assert(!before(s[n as int], k));
                        }
                        assert(s[n as int] != k);
                    } else {
                        assert(before(s[i - 1], s[j - 1]));
                    }
                }
                lemma_insert_set(s, n as int, k);
            }
        }
    }

    /// Takes an entry out; tells whether it was there.
    pub fn remove(&mut self, k: (usize, usize)) -> (found: bool)
        requires
            old(self).wf(),
        ensures
            final(self).wf(),
            final(self)@ == old(self)@.remove(k),
            found == old(self)@.contains(k),
    {
        let n: usize = self.lower_bound(k);
        let ghost s = self.order();
        if n < self.entries.len() && self.entries[n].0 == k.0 && self.entries[n].1 == k.1 {
            self.entries.remove(n);
            proof {
                let t = self.order();
                assert(s[n as int] == k);
                assert(t == s.remove(n as int));
                assert forall|i: int, j: int| 0 <= i < j < t.len() implies before(
                    #[trigger] t[i],
                    #[trigger] t[j],
                ) by {
                    let i0 = if i < n {
                        i
                    } else {
                        i + 1
                    };
                    let j0 = if j < n {
                        j
                    } else {
                        j + 1
                    };
                    assert(before(s[i0], s[j0]));
                }
                lemma_remove_set(s, n as int);
                assert(old(self)@.contains(k));
            }
            true
        } else {
            proof {
                if s.contains(k) {
                    let j = choose|j: int| 0 <= j < s.len() && s[j] == k;
                    assert(!before(k, k));
                    assert(j >= n);
                    if n < j {
                        assert(before(s[n as int], s[j]));
                    }
                }
                assert(self@ =~= old(self)@.remove(k));
            }
            false
        }
    }

    /// The best fit for `size` bytes: the first entry of at least that size.
    pub fn best_fit(&self, size: usize) -> (r: Option<(usize, usize)>)
        requires
            self.wf(),
        ensures
            match r {
                Some(k) => {
                    &&& self@.contains(k)
                    &&& k.0 >= size
                    &&& forall|e: (usize, usize)| #[trigger]
                        self@.contains(e) && e.0 >= size ==> e == k || before(k, e)
                },
                None => forall|e: (usize, usize)| #[trigger] self@.contains(e) ==> e.0 < size,
            },
    {
        let n: usize = self.lower_bound((size, 0));
        let ghost s = self.order();
        if n < self.entries.len() {
            let k = self.entries[n];
            proof {
                assert(s[n as int] == k);
                assert(!before(k, (size, 0)));
                assert forall|e: (usize, usize)| #[trigger]
                    self@.contains(e) && e.0 >= size implies e == k || before(k, e) by {
                    let j = choose|j: int| 0 <= j < s.len() && s[j] == e;
                    assert(!before(e, (size, 0)));
                    if j < n {
                        assert(before(s[j], (size, 0usize)));
                    } else if n < j {
                        assert(before(s[n as int], s[j]));
                    }
                }
            }
            Some(k)
        } else {
            proof {
                assert forall|e: (usize, usize)| #[trigger] self@.contains(e) implies e.0
                    < size by {
                    let j = choose|j: int| 0 <= j < s.len() && s[j] == e;
                    assert(before(s[j], (size, 0usize)));
                }
            }
            None
        }
    }
}

/// The two pools of a cache: one for the blocks of small segments, one for those
/// of the others.
pub struct Pools {
    small: FreePool,
    large: FreePool,
}

impl Pools {
    /// The entries of a pool.
    pub open spec fn entries(&self, small: bool) -> Set<(usize, usize)> {
        self.order(small).to_set()
    }

    /// The entries of a pool in ascending order.
    pub closed spec fn order(&self, small: bool) -> Seq<(usize, usize)> {
        if small {
            self.small.order()
        } else {
            self.large.order()
        }
    }

    /// Both pools are in order.
    pub open spec fn wf(&self) -> bool {
        ascending(self.order(true)) && ascending(self.order(false))
    }

    /// Empty pools.
    pub fn new() -> (p: Pools)
        ensures
            p.wf(),
            p.entries(true) == Set::<(usize, usize)>::empty(),
            p.entries(false) == Set::<(usize, usize)>::empty(),
    {
        Pools { small: FreePool::new(), large: FreePool::new() }
    }

    /// The number of entries of a pool.
    pub fn len(&self, small: bool) -> (n: usize)
        ensures
            n == self.order(small).len(),
    {
        if small {
            self.small.len()
        } else {
            self.large.len()
        }
    }

    /// The entry at a place in the order of a pool.
    pub fn at(&self, small: bool, i: usize) -> (k: (usize, usize))
        requires
            i < self.order(small).len(),
        ensures
            k == self.order(small)[i as int],
    {
        if small {
            self.small.at(i)
        } else {
            self.large.at(i)
        }
    }

    /// Puts an entry into a pool.
    pub fn insert(&mut self, small: bool, k: (usize, usize))
        requires
            old(self).wf(),
        ensures
            final(self).wf(),
            final(self).entries(small) == old(self).entries(small).insert(k),
            final(self).entries(!small) == old(self).entries(!small),
    {
        if small {
            self.small.insert(k);
        } else {
            self.large.insert(k);
        }
    }

    /// Takes an entry out of a pool; tells whether it was there.
    pub fn remove(&mut self, small: bool, k: (usize, usize)) -> (found: bool)
        requires
            old(self).wf(),
        ensures
            final(self).wf(),
            final(self).entries(small) == old(self).entries(small).remove(k),
            final(self).entries(!small) == old(self).entries(!small),
            found == old(self).entries(small).contains(k),
    {
        if small {
            self.small.remove(k)
        } else {
            self.large.remove(k)
        }
    }

    /// The best fit of a pool for `size` bytes: the first entry of at least that
    /// size.
    pub fn best_fit(&self, small: bool, size: usize) -> (r: Option<(usize, usize)>)
        requires
            self.wf(),
        ensures
            match r {
                Some(k) => {
                    &&& self.entries(small).contains(k)
                    &&& k.0 >= size
                    &&& forall|e: (usize, usize)| #[trigger]
                        self.entries(small).contains(e) && e.0 >= size ==> e == k || before(k, e)
                },
                None => forall|e: (usize, usize)| #[trigger]
                    self.entries(small).contains(e) ==> e.0 < size,
            },
    {
        proof {
            assert(self.entries(true) == self.small@);
            assert(self.entries(false) == self.large@);
        }
        if small {
            self.small.best_fit(size)
        } else {
            self.large.best_fit(size)
        }
    }
}

/// The members after one was put in.
proof fn lemma_insert_set(s: Seq<(usize, usize)>, n: int, k: (usize, usize))
    requires
        0 <= n <= s.len(),
    ensures
        s.insert(n, k).to_set() == s.to_set().insert(k),
{
    let t = s.insert(n, k);
    assert forall|e: (usize, usize)| #[trigger] t.to_set().contains(e) <==> s.to_set().insert(
        k,
    ).contains(e) by {
        if t.contains(e) {
            let j = choose|j: int| 0 <= j < t.len() && t[j] == e;
            if j < n {
                assert(s[j] == e);
            } else if j > n {
                assert(s[j - 1] == e);
            }
        }
        if s.contains(e) {
            let j = choose|j: int| 0 <= j < s.len() && s[j] == e;
            if j < n {
                assert(t[j] == e);
            } else {
                assert(t[j + 1] == e);
            }
        }
        assert(t[n] == k);
    }
    assert(t.to_set() =~= s.to_set().insert(k));
}

/// The members after one of an ascending sequence was taken out.
proof fn lemma_remove_set(s: Seq<(usize, usize)>, n: int)
    requires
        0 <= n < s.len(),
        ascending(s),
    ensures
        s.remove(n).to_set() == s.to_set().remove(s[n]),
{
    let t = s.remove(n);
    assert forall|e: (usize, usize)| #[trigger] t.to_set().contains(e) <==> s.to_set().remove(
        s[n],
    ).contains(e) by {
        if t.contains(e) {
            let j = choose|j: int| 0 <= j < t.len() && t[j] == e;
            if j < n {
                assert(s[j] == e);
                assert(before(s[j], s[n]));
            } else {
                assert(s[j + 1] == e);
                assert(before(s[n], s[j + 1]));
            }
        }
        if s.contains(e) && e != s[n] {
            let j = choose|j: int| 0 <= j < s.len() && s[j] == e;
            if j < n {
                assert(t[j] == e);
            } else {
                assert(t[j - 1] == e);
            }
        }
    }
    assert(t.to_set() =~= s.to_set().remove(s[n]));
}

/// Entries are ordered by size, and those of one size by address: smaller sizes
/// come first, lower addresses next, and of two entries exactly one comes first.
pub proof fn law_order(a: (usize, usize), b: (usize, usize), c: (usize, usize))
    ensures
        a.0 < b.0 ==> before(a, b),
        a.0 == b.0 && a.1 < b.1 ==> before(a, b),
        !(before(a, b) && before(b, a)),
        a != b ==> before(a, b) || before(b, a),
        before(a, b) && before(b, c) ==> before(a, c),
{
}

} // verus!

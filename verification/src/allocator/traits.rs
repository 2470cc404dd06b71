//! Size policies: how a caching allocator rounds requests, sizes segments and
//! splits blocks.
use vstd::arithmetic::div_mod::*;
use vstd::arithmetic::mul::*;
use vstd::prelude::*;

use super::AllocError;

verus! {

/// Largest request served by the small pool: 1 MiB.
pub const K_SMALL_SIZE: usize = 0x10_0000;

/// Requests from here on get a segment of their own size class: 10 MiB.
pub const K_MIN_LARGE_ALLOC: usize = 0xA0_0000;

/// Dedicated segments round up to a multiple of this: 2 MiB.
pub const K_ROUND_LARGE: usize = 0x20_0000;

/// The least multiple of `m` that is at least `n`.
pub open spec fn round_up(n: int, m: int) -> int {
    ((n + m - 1) / m) * m
}

/// `round_up` is a multiple of `m`, at least `n`, and less than `m` above it.
pub proof fn lemma_round_up(n: int, m: int)
    requires
        0 < m,
    ensures
        n <= round_up(n, m) < n + m,
        round_up(n, m) % m == 0,
{
    lemma_fundamental_div_mod(n + m - 1, m);
    lemma_mod_bound(n + m - 1, m);
    lemma_mul_is_commutative(m, (n + m - 1) / m);
    lemma_mod_multiples_basic((n + m - 1) / m, m);
}

/// No other multiple of `m` lies that close above `n`.
pub proof fn lemma_round_up_unique(n: int, m: int, r: int)
    requires
        0 < m,
        n <= r < n + m,
        r % m == 0,
    ensures
        r == round_up(n, m),
{
    lemma_round_up(n, m);
    let u = round_up(n, m);
    lemma_fundamental_div_mod(r, m);
    lemma_fundamental_div_mod(u, m);
    let a = r / m;
    let b = u / m;
    assert(r == m * a && u == m * b);
    assert(m * a - m * b == m * (a - b)) by {
        lemma_mul_is_distributive_sub(m, a, b);
    }
    assert(a == b) by (nonlinear_arith)
        requires
            -m < m * (a - b) < m,
            0 < m,
    ;
}

/// No multiple of `m` from `n` on is below `round_up`, so it is the least.
pub proof fn lemma_round_up_least(n: int, m: int, r: int)
    requires
        0 < m,
        n <= r,
        r % m == 0,
    ensures
        round_up(n, m) <= r,
{
    lemma_round_up(n, m);
    let u = round_up(n, m);
    lemma_fundamental_div_mod(r, m);
    lemma_fundamental_div_mod(u, m);
    let a = r / m;
    let b = u / m;
    assert(b <= a) by (nonlinear_arith)
        requires
            m * b < m * a + m,
            0 < m,
    ;
    assert(m * b <= m * a) by (nonlinear_arith)
        requires
            b <= a,
            0 < m,
    ;
}

/// What divides a divisor divides the number.
pub proof fn lemma_divides(a: int, b: int, c: int)
    requires
        0 < a,
        0 < b,
        b % a == 0,
        c % b == 0,
    ensures
        c % a == 0,
{
    lemma_fundamental_div_mod(b, a);
    lemma_fundamental_div_mod(c, b);
    let q = (b / a) * (c / b);
    assert(c == q * a) by (nonlinear_arith)
        requires
            b == a * (b / a),
            c == b * (c / b),
            q == (b / a) * (c / b),
    ;
    lemma_mod_multiples_basic(q, a);
}

/// The least multiple of `m` that is at least `n`, if it is within `usize`.
pub fn checked_round_up(n: usize, m: usize) -> (r: Option<usize>)
    requires
        0 < m,
    ensures
        r == (if round_up(n as int, m as int) <= usize::MAX {
            Some(round_up(n as int, m as int) as usize)
        } else {
            None
        }),
{
    let rest: usize = n % m;
    proof {
        lemma_round_up(n as int, m as int);
        lemma_fundamental_div_mod(n as int, m as int);
        if rest == 0 {
            lemma_round_up_unique(n as int, m as int, n as int);
        } else {
            let q = n as int / m as int;
            let u = n + (m - rest);
            assert(u == m * (q + 1)) by {
                lemma_mul_is_distributive_add(m as int, q, 1);
            }
            lemma_mul_is_commutative(m as int, q + 1);
            lemma_mod_multiples_basic(q + 1, m as int);
            lemma_round_up_unique(n as int, m as int, u);
        }
    }
    if rest == 0 {
        Some(n)
    } else {
        n.checked_add(m - rest)
    }
}

/// A segment that serves one request: the size in whole [`K_ROUND_LARGE`].
pub open spec fn dedicated(size: int) -> int {
    round_up(size, K_ROUND_LARGE as int)
}

/// A segment that serves one request holds it, in whole 2 MiB, and wastes less
/// than that; a larger request never gets a smaller one.
pub proof fn law_dedicated_segments(size: int, larger: int)
    requires
        0 <= size <= larger,
    ensures
        size <= dedicated(size) < size + 0x20_0000,
        dedicated(size) % 0x20_0000 == 0,
        dedicated(size) <= dedicated(larger),
{
    lemma_round_up(size, 0x20_0000);
    lemma_round_up(larger, 0x20_0000);
}

/// The size of a segment that serves one request.
pub fn dedicated_segment_size(size: usize) -> (r: usize)
    requires
        dedicated(size as int) <= usize::MAX,
    ensures
        r == dedicated(size as int),
{
    checked_round_up(size, K_ROUND_LARGE).unwrap()
}

/// The size rules of a device. Each policy says what the rules are; the spec
/// functions here only stand in where it does not.
pub trait CachePolicy: Sized {
    /// The policy makes sense at all.
    open spec fn valid(&self) -> bool {
        true
    }

    /// Alignment of blocks.
    open spec fn spec_alignment(&self) -> usize {
        1
    }

    /// The block size for a request.
    open spec fn spec_round_size(&self, nbytes: usize) -> usize {
        nbytes
    }

    /// Whether the rest of a block is worth keeping.
    open spec fn spec_should_split(&self, small: bool, remaining: usize) -> bool {
        false
    }

    /// The segment size for a block size.
    open spec fn spec_segment_size(&self, size: usize, reserved: usize) -> usize {
        size
    }

    /// Why a request is refused, if it is.
    open spec fn refusal(&self, nbytes: usize) -> Option<AllocError> {
        None
    }

    /// The block and the segment for a request are within the address space, and
    /// have layouts if a device can give them.
    open spec fn fits(&self, nbytes: usize) -> bool {
        true
    }

    /// The rounding of a request is within the address space.
    open spec fn can_round(&self, nbytes: usize) -> bool {
        true
    }

    /// The segment for a block size is within the address space.
    open spec fn can_segment(&self, size: usize, reserved: usize) -> bool {
        true
    }

    /// Some request that fits has this block size.
    open spec fn block_size(&self, size: usize) -> bool {
        true
    }

    /// Alignment of blocks.
    fn alignment(&self) -> (r: usize)
        ensures
            r == self.spec_alignment(),
    ;

    /// The block size for a request, whether or not it can be served.
    fn round_size(&self, nbytes: usize) -> (r: usize)
        requires
            self.can_round(nbytes),
        ensures
            r == self.spec_round_size(nbytes),
            r >= nbytes,
            self.fits(nbytes) ==> self.block_size(r),
            self.fits(nbytes) ==> forall|reserved: usize| #[trigger]
                self.can_segment(r, reserved),
    ;

    /// Whether the rest of a block is worth keeping. An empty rest never is, with
    /// a policy that makes sense.
    fn should_split(&self, small: bool, remaining: usize) -> (r: bool)
        ensures
            r == self.spec_should_split(small, remaining),
            self.valid() && r ==> remaining > 0,
    ;

    /// The segment size for a block size, when `reserved` bytes are held. For the
    /// blocks of requests that fit, it holds the block, and has a layout if a
    /// device can give it.
    fn segment_size(&self, size: usize, reserved: usize) -> (r: usize)
        requires
            self.can_segment(size, reserved),
        ensures
            r == self.spec_segment_size(size, reserved),
            self.block_size(size) ==> r >= size,
            self.block_size(size) ==> super::layout_once_given(
                r as int,
                self.spec_alignment() as int,
            ),
    ;

    /// Refuses the requests that the device never serves.
    fn check_request(&self, nbytes: usize) -> (r: Result<(), AllocError>)
        ensures
            r == (match self.refusal(nbytes) {
                None => Ok::<(), AllocError>(()),
                Some(e) => Err::<(), AllocError>(e),
            }),
    ;

    /// Refuses the requests whose block or segment cannot have a layout.
    fn check_layout(&self, nbytes: usize) -> (r: Result<(), AllocError>)
        ensures
            r == (if self.fits(nbytes) {
                Ok::<(), AllocError>(())
            } else {
                Err::<(), AllocError>(AllocError::InvalidLayout)
            }),
            r is Ok ==> self.can_round(nbytes),
    ;
}

} // verus!

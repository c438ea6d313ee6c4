//! Rounding byte lengths up to a page boundary.
//!
//! File contents start on page boundaries, so every length that enters the
//! layout is first rounded up to a multiple of the page size.

use vstd::prelude::*;

verus! {

/// A usable page size: a power of two.
pub open spec fn is_page_size(page_size: u64) -> bool {
    page_size > 0 && page_size & ((page_size - 1) as u64) == 0
}

/// `m` is a multiple of `p`.
pub open spec fn is_multiple(m: int, p: int) -> bool {
    m % p == 0
}

/// The least multiple of `page_size` that is not below `n`.
pub open spec fn aligned(n: int, page_size: int) -> int {
    if n % page_size == 0 {
        n
    } else {
        n - n % page_size + page_size
    }
}

/// `aligned(n, p)` is a multiple of `p`, lies in `[n, n + p)`, and no
/// multiple of `p` lies between `n` and it.
pub proof fn lemma_aligned_is_least_multiple(n: int, p: int)
    requires
        0 <= n,
        0 < p,
    ensures
        is_multiple(aligned(n, p), p),
        n <= aligned(n, p) < n + p,
        forall|m: int| n <= m && #[trigger] is_multiple(m, p) ==> aligned(n, p) <= m,
{
    let a: int = n / p;
    let r: int = n % p;
    assert(n == p * a + r && 0 <= r < p) by (nonlinear_arith)
        requires
            a == n / p,
            r == n % p,
            0 < p,
    ;
    if r != 0 {
        assert((p * a + p) % p == 0) by (nonlinear_arith)
            requires
                0 < p,
        ;
    }
    assert forall|m: int| n <= m && #[trigger] is_multiple(m, p) implies aligned(n, p) <= m by {
        lemma_multiple_not_between(m, a, p);
    }
}

/// A multiple of `p` that exceeds `p * a` is at least `p * a + p`.
proof fn lemma_multiple_not_between(m: int, a: int, p: int)
    by (nonlinear_arith)
    requires
        0 < p,
        m % p == 0,
    ensures
        m > p * a ==> m >= p * a + p,
{
    assert(m == p * (m / p));
    if m > p * a {
        assert(m / p > a);
        assert(p * (m / p) >= p * (a + 1));
    }
}

/// The only multiple of `p` in `[n, n + p)` is `aligned(n, p)`.
pub proof fn lemma_aligned_unique(n: int, p: int, r: int)
    requires
        0 <= n,
        0 < p,
        r % p == 0,
        n <= r < n + p,
    ensures
        r == aligned(n, p),
{
    lemma_aligned_is_least_multiple(n, p);
    let a: int = aligned(n, p);
    assert(is_multiple(r, p));
    if a < r {
        lemma_multiple_step(a, r, p);
    }
}

/// Two distinct multiples of `p` are at least `p` apart.
proof fn lemma_multiple_step(a: int, r: int, p: int)
    by (nonlinear_arith)
    requires
        0 < p,
        a % p == 0,
        r % p == 0,
        a < r,
    ensures
        a + p <= r,
{
    assert(a == p * (a / p));
    assert(r == p * (r / p));
    assert(a / p < r / p);
    assert(p * (r / p) >= p * (a / p + 1));
}

proof fn lemma_half_of_page_size(p: u64)
    by (bit_vector)
    requires
        p > 1,
        p & ((p - 1) as u64) == 0,
    ensures
        p >> 1 > 0,
        (p >> 1) & (((p >> 1) - 1) as u64) == 0,
        p == 2 * (p >> 1),
{
}

proof fn lemma_mask_halves(x: u64, p: u64)
    by (bit_vector)
    requires
        p > 1,
        p & ((p - 1) as u64) == 0,
    ensures
        x & ((p - 1) as u64) == 2 * ((x >> 1) & (((p >> 1) - 1) as u64)) + (x & 1),
        x >> 1 == x / 2,
        x & 1 == x % 2,
{
}

proof fn lemma_remainder_doubles(x: int, q: int)
    by (nonlinear_arith)
    requires
        0 <= x,
        0 < q,
    ensures
        x % (2 * q) == 2 * ((x / 2) % q) + x % 2,
{
    let y: int = x / 2;
    let b: int = x % 2;
    assert(x == 2 * y + b && 0 <= b < 2);
    let k: int = y / q;
    let s: int = y % q;
    assert(y == q * k + s && 0 <= s < q);
    let t: int = 2 * s + b;
    assert(x == (2 * q) * k + t);
    assert(0 <= t < 2 * q);
    assert(((2 * q) * k + t) % (2 * q) == t) by {
        vstd::arithmetic::div_mod::lemma_fundamental_div_mod_converse(x, 2 * q, k, t);
    }
}

/// Under a power of two, masking with `p - 1` gives the remainder by `p`.
pub proof fn lemma_mask_is_remainder(x: u64, p: u64)
    requires
        is_page_size(p),
    ensures
        x & ((p - 1) as u64) == x % p,
    decreases p,
{
    if p == 1 {
        assert(x & 0 == 0) by (bit_vector);
    } else {
        let q: u64 = p >> 1;
        lemma_half_of_page_size(p);
        lemma_mask_halves(x, p);
        lemma_mask_is_remainder(x >> 1, q);
        lemma_remainder_doubles(x as int, q as int);
    }
}

proof fn lemma_mask_bounds(x: u64, m: u64)
    by (bit_vector)
    ensures
        x & !m <= x,
        x - (x & !m) == x & m,
        x & m <= m,
        (x & !m) & m == 0,
{
}

/// What the mask formula computes under a power of two.
pub proof fn lemma_mask_formula(n: u64, p: u64)
    requires
        is_page_size(p),
        n + p - 1 <= u64::MAX,
    ensures
        ((n + p - 1) as u64) & !((p - 1) as u64) == aligned(n as int, p as int),
{
    let x: u64 = (n + p - 1) as u64;
    let m: u64 = (p - 1) as u64;
    let r: u64 = x & !m;
    lemma_mask_bounds(x, m);
    lemma_mask_is_remainder(r, p);
    lemma_aligned_unique(n as int, p as int, r as int);
}

/// `aligned(n, p)` fits in 64 bits exactly when `n + p - 1` does.
pub proof fn lemma_aligned_fits(n: u64, p: u64)
    requires
        is_page_size(p),
    ensures
        aligned(n as int, p as int) <= u64::MAX <==> n + p - 1 <= u64::MAX,
{
    lemma_aligned_is_least_multiple(n as int, p as int);
    if n + p - 1 > u64::MAX {
        // The largest multiple of p that fits is 2^64 - p, which is below n.
        let top: u64 = (0x1_0000_0000_0000_0000 - p) as u64;
        lemma_mask_is_remainder(top, p);
        assert(top & ((p - 1) as u64) == 0) by (bit_vector)
            requires
                p > 0,
                p & ((p - 1) as u64) == 0,
                top == (0x1_0000_0000_0000_0000 - p) as u64,
        ;
        if aligned(n as int, p as int) <= u64::MAX {
            let a: int = aligned(n as int, p as int);
            assert(top < n <= a);
            lemma_multiple_step(top as int, a, p as int);
        }
    }
}

/// Tells whether `page_size` is a power of two.
pub fn check_page_size(page_size: u64) -> (r: bool)
    ensures
        r == is_page_size(page_size),
{
    page_size > 0 && page_size & (page_size - 1) == 0
}

/// Rounds `n` up to the next multiple of `page_size`.
pub fn align_up(n: u64, page_size: u64) -> (r: u64)
    requires
        is_page_size(page_size),
        aligned(n as int, page_size as int) <= u64::MAX,
    ensures
        r == aligned(n as int, page_size as int),
{
    proof {
        lemma_aligned_fits(n, page_size);
        lemma_mask_formula(n, page_size);
    }
    (n + (page_size - 1)) & !(page_size - 1)
}

/// `n` rounded up to the next multiple of `page_size`, where `page_size`
/// is a power of two and the result fits in 64 bits.
pub open spec fn checked_aligned(n: u64, page_size: u64) -> Option<u64> {
    if is_page_size(page_size) && aligned(n as int, page_size as int) <= u64::MAX {
        Some(aligned(n as int, page_size as int) as u64)
    } else {
        None
    }
}

/// Rounds `n` up to the next multiple of `page_size`, where `page_size` is
/// a power of two and the result fits in 64 bits.
pub fn checked_align_up(n: u64, page_size: u64) -> (r: Option<u64>)
    ensures
        r == checked_aligned(n, page_size),
{
    if !check_page_size(page_size) {
        return None;
    }
    proof {
        lemma_aligned_fits(n, page_size);
    }
    if n > u64::MAX - (page_size - 1) {
        return None;
    }
    Some(align_up(n, page_size))
}

/// The page size of the machine this runs on, from `page_size::get`.
/// Nothing is claimed of the number that comes back.
#[verifier::external_body]
pub(crate) fn system_page_size() -> (r: u64) {
    page_size::get() as u64
}

/// Rounds `length` up to the next multiple of the system's page size.
/// `None` where the system reports a page size that is no power of two,
/// or where the result does not fit in 64 bits.
pub fn get_aligned_length(length: u64) -> (r: Option<u64>)
    ensures
        exists|page_size: u64| r == #[trigger] checked_aligned(length, page_size),
{
    let page_size: u64 = system_page_size();
    checked_align_up(length, page_size)
}

} // verus!
